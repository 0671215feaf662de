//! Digital signatures: detached messages over ranges of the file.
//!
//! A valid signature says that the bytes that it covers have not changed and that it is the
//! signature of the key in the message. It says nothing of whose key that is.
use vstd::prelude::*;
use crate::cms_parts::{attribute_name, attribute_name_of, attribute_octets, attribute_octets_of, attributes, attributes_of, certificate, certificate_of, digest_name, digest_name_of, has_attributes, has_attributes_of, public_key, public_key_of, rsa_bits, rsa_bits_of, rsa_verified, rsa_verify, sha1_digest, sha1_of, signature, signature_of, subject, subject_of};
use crate::crypt::{sha256_digest, sha256_of, sha384_digest, sha384_of, sha512_digest, sha512_of};
use crate::document::{DocModel, Document};
use crate::error::{ErrorModel, PdfError};
use crate::form::{form_array, form_items, text_entry, text_under};
use crate::object::{clone_bytes, entry, models, DictModel, Dictionary, Object, ObjectModel};
use crate::sign_text::{common_name, der_object_len, extract_common_name, object_length};
use crate::text::{same_bytes, same_text};

verus! {

/// A field that is signed.
pub struct SignatureField {
    pub field_name: String,
    pub signer_name: Option<String>,
    pub reason: Option<String>,
    pub location: Option<String>,
    /// The date as the file has it.
    pub signing_time: Option<String>,
    /// The message, with zeros behind it.
    pub contents: Vec<u8>,
    /// The two ranges that are covered: where each starts, and how long it is.
    pub byte_range: [(usize, usize); 2],
}

pub ghost struct SignatureModel {
    pub field_name: Seq<char>,
    pub signer_name: Option<Seq<char>>,
    pub reason: Option<Seq<char>>,
    pub location: Option<Seq<char>>,
    pub signing_time: Option<Seq<char>>,
    pub contents: Seq<u8>,
    pub byte_range: Seq<(usize, usize)>,
}

pub open spec fn text_model(t: Option<String>) -> Option<Seq<char>> {
    match t {
        Some(s) => Some(s@),
        None => None,
    }
}

impl View for SignatureField {
    type V = SignatureModel;

    open spec fn view(&self) -> SignatureModel {
        SignatureModel {
            field_name: self.field_name@,
            signer_name: text_model(self.signer_name),
            reason: text_model(self.reason),
            location: text_model(self.location),
            signing_time: text_model(self.signing_time),
            contents: self.contents@,
            byte_range: self.byte_range@,
        }
    }
}

pub open spec fn signature_models(s: Seq<SignatureField>) -> Seq<SignatureModel> {
    s.map_values(|f: SignatureField| f@)
}

/// What came of checking a signature.
#[derive(Debug, PartialEq, Eq)]
pub enum SignatureStatus {
    /// The content is unchanged, and the signature is that of the key in the message.
    Valid { signer: Option<String> },
    /// The content is not what was signed.
    ContentModified,
    /// The signature is not that of the key in the message.
    InvalidSignature,
    /// The key, the digest or the form of the message is not supported.
    UnsupportedAlgorithm,
    /// There is no message that could be read.
    Malformed,
}

pub ghost enum StatusModel {
    Valid(Option<Seq<char>>),
    ContentModified,
    InvalidSignature,
    UnsupportedAlgorithm,
    Malformed,
}

impl View for SignatureStatus {
    type V = StatusModel;

    open spec fn view(&self) -> StatusModel {
        match *self {
            SignatureStatus::Valid { signer } => StatusModel::Valid(text_model(signer)),
            SignatureStatus::ContentModified => StatusModel::ContentModified,
            SignatureStatus::InvalidSignature => StatusModel::InvalidSignature,
            SignatureStatus::UnsupportedAlgorithm => StatusModel::UnsupportedAlgorithm,
            SignatureStatus::Malformed => StatusModel::Malformed,
        }
    }
}

/// Four numbers that are not negative, as two ranges.
pub open spec fn ranges_in(items: Seq<ObjectModel>) -> Option<Seq<(usize, usize)>> {
    if items.len() == 4 && forall|i: int|
        0 <= i < 4 ==> (#[trigger] items[i]).integer() is Some && items[i].integer()->0 >= 0 {
        Some(
            seq![
                (items[0].integer()->0 as usize, items[1].integer()->0 as usize),
                (items[2].integer()->0 as usize, items[3].integer()->0 as usize),
            ],
        )
    } else {
        None
    }
}

/// The signature that a field holds, where it is signed.
pub open spec fn signature_in(doc: DocModel, d: DictModel) -> Option<SignatureModel> {
    if entry(d, "FT"@) != Some(ObjectModel::Name("Sig"@)) {
        None
    } else {
        match entry(d, "V"@) {
            None => None,
            Some(o) => match doc.got(o) {
                Err(_) => None,
                Ok(m) => match m.dict() {
                    None => None,
                    Some(s) => match (entry(s, "Contents"@), entry(s, "ByteRange"@)) {
                        (
                            Some(ObjectModel::String(contents)),
                            Some(ObjectModel::Array(items)),
                        ) => match ranges_in(items) {
                            Some(byte_range) => Some(
                                SignatureModel {
                                    field_name: match text_under(d, "T"@) {
                                        Some(t) => t,
                                        None => seq![],
                                    },
                                    signer_name: text_under(s, "Name"@),
                                    reason: text_under(s, "Reason"@),
                                    location: text_under(s, "Location"@),
                                    signing_time: text_under(s, "M"@),
                                    contents,
                                    byte_range,
                                },
                            ),
                            None => None,
                        },
                        _ => None,
                    },
                },
            },
        }
    }
}

/// The signatures among the first `n` fields.
pub open spec fn signatures_among(doc: DocModel, items: Seq<ObjectModel>, n: nat) -> Seq<SignatureModel>
    decreases n,
{
    if n == 0 {
        seq![]
    } else {
        let before = signatures_among(doc, items, (n - 1) as nat);
        match doc.got(items[n - 1]) {
            Err(_) => before,
            Ok(m) => match m.dict() {
                None => before,
                Some(d) => match signature_in(doc, d) {
                    None => before,
                    Some(f) => before.push(f),
                },
            },
        }
    }
}

/// The signatures of a document; one without a form has none.
pub open spec fn signatures_of(doc: DocModel) -> Result<Seq<SignatureModel>, ErrorModel> {
    match doc.root() {
        Err(e) => Err(e),
        Ok(_) => match form_items(doc) {
            Ok(items) => Ok(signatures_among(doc, items, items.len())),
            Err(_) => Ok(seq![]),
        },
    }
}

/// The digests that are supported.
#[derive(Debug, Clone, Copy, PartialEq, Eq, Structural)]
pub enum DigestKind {
    Sha1,
    Sha256,
    Sha384,
    Sha512,
}

/// The digest with an object identifier.
pub open spec fn digest_kind_of(oid: Seq<char>) -> Option<DigestKind> {
    if oid == "1.3.14.3.2.26"@ {
        Some(DigestKind::Sha1)
    } else if oid == "2.16.840.1.101.3.4.2.1"@ {
        Some(DigestKind::Sha256)
    } else if oid == "2.16.840.1.101.3.4.2.2"@ {
        Some(DigestKind::Sha384)
    } else if oid == "2.16.840.1.101.3.4.2.3"@ {
        Some(DigestKind::Sha512)
    } else {
        None
    }
}

/// The digest with an object identifier.
pub fn digest_kind(oid: &str) -> (r: Option<DigestKind>)
    ensures
        r == digest_kind_of(oid@),
{
    if same_text(oid, "1.3.14.3.2.26") {
        Some(DigestKind::Sha1)
    } else if same_text(oid, "2.16.840.1.101.3.4.2.1") {
        Some(DigestKind::Sha256)
    } else if same_text(oid, "2.16.840.1.101.3.4.2.2") {
        Some(DigestKind::Sha384)
    } else if same_text(oid, "2.16.840.1.101.3.4.2.3") {
        Some(DigestKind::Sha512)
    } else {
        None
    }
}

/// What stands before a digest of a kind in a signature.
pub open spec fn digest_prefix(kind: DigestKind) -> Seq<u8> {
    match kind {
        DigestKind::Sha1 => seq![
            0x30u8,
            0x21,
            0x30,
            0x09,
            0x06,
            0x05,
            0x2b,
            0x0e,
            0x03,
            0x02,
            0x1a,
            0x05,
            0x00,
            0x04,
            0x14,
        ],
        DigestKind::Sha256 => sha2_prefix(0x31, 1, 0x20),
        DigestKind::Sha384 => sha2_prefix(0x41, 2, 0x30),
        DigestKind::Sha512 => sha2_prefix(0x51, 3, 0x40),
    }
}

pub open spec fn sha2_prefix(total: u8, kind: u8, length: u8) -> Seq<u8> {
    seq![
        0x30u8,
        total,
        0x30,
        0x0d,
        0x06,
        0x09,
        0x60,
        0x86,
        0x48,
        0x01,
        0x65,
        0x03,
        0x04,
        0x02,
        kind,
        0x05,
        0x00,
        0x04,
        length,
    ]
}

pub open spec fn digest_of(kind: DigestKind, data: Seq<u8>) -> Seq<u8> {
    match kind {
        DigestKind::Sha1 => sha1_of(data),
        DigestKind::Sha256 => sha256_of(data),
        DigestKind::Sha384 => sha384_of(data),
        DigestKind::Sha512 => sha512_of(data),
    }
}

impl DigestKind {
    pub fn digest(self, data: &[u8]) -> (r: Vec<u8>)
        ensures
            r@ == digest_of(self, data@),
    {
        match self {
            DigestKind::Sha1 => sha1_digest(data),
            DigestKind::Sha256 => sha256_digest(data),
            DigestKind::Sha384 => sha384_digest(data),
            DigestKind::Sha512 => sha512_digest(data),
        }
    }

    fn prefix(self) -> (r: Vec<u8>)
        ensures
            r@ == digest_prefix(self),
    {
        match self {
            DigestKind::Sha1 => {
                let p: [u8; 15] = [
                    0x30,
                    0x21,
                    0x30,
                    0x09,
                    0x06,
                    0x05,
                    0x2b,
                    0x0e,
                    0x03,
                    0x02,
                    0x1a,
                    0x05,
                    0x00,
                    0x04,
                    0x14,
                ];
                assert(p@ =~= digest_prefix(self));
                clone_bytes(p.as_slice())
            },
            DigestKind::Sha256 => sha2_prefix_bytes(0x31, 1, 0x20),
            DigestKind::Sha384 => sha2_prefix_bytes(0x41, 2, 0x30),
            DigestKind::Sha512 => sha2_prefix_bytes(0x51, 3, 0x40),
        }
    }
}

fn sha2_prefix_bytes(total: u8, kind: u8, length: u8) -> (r: Vec<u8>)
    ensures
        r@ == sha2_prefix(total, kind, length),
{
    let p: [u8; 19] = [
        0x30,
        total,
        0x30,
        0x0d,
        0x06,
        0x09,
        0x60,
        0x86,
        0x48,
        0x01,
        0x65,
        0x03,
        0x04,
        0x02,
        kind,
        0x05,
        0x00,
        0x04,
        length,
    ];
    assert(p@ =~= sha2_prefix(total, kind, length));
    clone_bytes(p.as_slice())
}

/// The bytes that two ranges cover, where both are inside the file.
pub open spec fn covered(d: Seq<u8>, ranges: Seq<(usize, usize)>) -> Option<Seq<u8>> {
    if ranges.len() == 2 && ranges[0].0 + ranges[0].1 <= d.len() && ranges[1].0 + ranges[1].1 <= d.len() {
        Some(
            d.subrange(ranges[0].0 as int, ranges[0].0 + ranges[0].1) + d.subrange(
                ranges[1].0 as int,
                ranges[1].0 + ranges[1].1,
            ),
        )
    } else {
        None
    }
}

/// The bytes that two ranges cover, where both are inside the file.
pub fn covered_bytes(data: &[u8], ranges: &[(usize, usize); 2]) -> (r: Option<Vec<u8>>)
    ensures
        match r {
            Some(b) => covered(data@, ranges@) == Some(b@),
            None => covered(data@, ranges@) is None,
        },
{
    let (a, n) = ranges[0];
    let (b, m) = ranges[1];
    if a > data.len() || n > data.len() - a || b > data.len() || m > data.len() - b {
        return None;
    }
    let mut out: Vec<u8> = Vec::new();
    out.extend_from_slice(vstd::slice::slice_subrange(data, a, a + n));
    out.extend_from_slice(vstd::slice::slice_subrange(data, b, b + m));
    assert(out@ =~= data@.subrange(a as int, a + n) + data@.subrange(b as int, b + m));
    Some(out)
}

/// The digest that the signed attributes from the `i`-th on claim: that of the first attribute for
/// it.
pub open spec fn claimed_from(message: Seq<u8>, i: int) -> Option<Seq<u8>>
    decreases usize::MAX - i,
{
    if i < 0 || i >= usize::MAX {
        None
    } else {
        match attribute_name_of(message, i as usize) {
            None => None,
            Some(name) => if name == "1.2.840.113549.1.9.4"@ {
                attribute_octets_of(message, i as usize)
            } else {
                claimed_from(message, i + 1)
            },
        }
    }
}

fn find_message_digest(message: &[u8]) -> (r: Option<Vec<u8>>)
    ensures
        match r {
            Some(b) => claimed_from(message@, 0) == Some(b@),
            None => claimed_from(message@, 0) is None,
        },
{
    let mut i: usize = 0;
    while i < usize::MAX
        invariant
            claimed_from(message@, 0) == claimed_from(message@, i as int),
        decreases usize::MAX - i,
    {
        match attribute_name(message, i) {
            None => {
                return None;
            },
            Some(name) => {
                if same_text(name.as_str(), "1.2.840.113549.1.9.4") {
                    return attribute_octets(message, i);
                }
            },
        }
        i += 1;
    }
    None
}

/// The first certificate from the `i`-th on that can be read.
pub open spec fn certificate_from(message: Seq<u8>, i: int) -> Option<usize>
    decreases usize::MAX - i,
{
    if i < 0 || i >= usize::MAX {
        None
    } else {
        match certificate_of(message, i as usize) {
            None => None,
            Some(usable) => if usable {
                Some(i as usize)
            } else {
                certificate_from(message, i + 1)
            },
        }
    }
}

fn find_certificate(message: &[u8]) -> (r: Option<usize>)
    ensures
        r == certificate_from(message@, 0),
{
    let mut i: usize = 0;
    while i < usize::MAX
        invariant
            certificate_from(message@, 0) == certificate_from(message@, i as int),
        decreases usize::MAX - i,
    {
        match certificate(message, i) {
            None => {
                return None;
            },
            Some(usable) => {
                if usable {
                    return Some(i);
                }
            },
        }
        i += 1;
    }
    None
}

/// The largest modulus of an RSA key that is tried, in bits.
pub const MAX_RSA_MODULUS_BITS: usize = 8192;

/// A key can be tried: it is an RSA key, and not too large.
pub open spec fn key_is_usable(bits: Option<usize>) -> bool {
    bits is Some && bits->0 <= MAX_RSA_MODULUS_BITS
}

/// Whether a key with a modulus of some bits can be tried.
pub fn usable_key(bits: Option<usize>) -> (r: bool)
    ensures
        r == key_is_usable(bits),
{
    match bits {
        Some(n) => n <= MAX_RSA_MODULUS_BITS,
        None => false,
    }
}

/// What is known of the signer: the subject, the key and its size, the signed attributes encoded,
/// and whether the signature is that of the attributes under the key.
pub open spec fn signer_status(
    subject: Option<Seq<char>>,
    bits: Option<usize>,
    has_key: bool,
    has_attributes: bool,
    verified: Option<bool>,
) -> StatusModel {
    match subject {
        None => StatusModel::Malformed,
        Some(s) => if !has_key {
            StatusModel::Malformed
        } else if !key_is_usable(bits) {
            StatusModel::UnsupportedAlgorithm
        } else if !has_attributes {
            StatusModel::Malformed
        } else if verified == Some(true) {
            StatusModel::Valid(common_name(s))
        } else {
            StatusModel::InvalidSignature
        },
    }
}

/// What comes of all that is known of a signer: the subject, the size of the key, whether there is
/// a key and whether there are signed attributes, and whether the signature is theirs.
pub fn judge_signer(
    subject: &Option<String>,
    bits: Option<usize>,
    has_key: bool,
    has_attributes: bool,
    verified: Option<bool>,
) -> (r: SignatureStatus)
    ensures
        r@ == signer_status(text_model(*subject), bits, has_key, has_attributes, verified),
{
    match subject {
        None => SignatureStatus::Malformed,
        Some(s) => if !has_key {
            SignatureStatus::Malformed
        } else if !usable_key(bits) {
            SignatureStatus::UnsupportedAlgorithm
        } else if !has_attributes {
            SignatureStatus::Malformed
        } else {
            match verified {
                Some(true) => SignatureStatus::Valid { signer: extract_common_name(s.as_str()) },
                _ => SignatureStatus::InvalidSignature,
            }
        },
    }
}

/// The status of a message whose signer's digest is that of the content.
pub open spec fn checked_signer(message: Seq<u8>, kind: DigestKind) -> StatusModel {
    match certificate_from(message, 0) {
        None => StatusModel::Malformed,
        Some(i) => {
            let key = public_key_of(message, i);
            let attrs = attributes_of(message);
            let sig = signature_of(message);
            signer_status(
                subject_of(message, i),
                match key {
                    Some(k) => rsa_bits_of(k),
                    None => None,
                },
                key is Some,
                attrs is Some,
                match (key, attrs, sig) {
                    (Some(k), Some(a), Some(s)) => rsa_verified(
                        k,
                        digest_prefix(kind),
                        digest_of(kind, a),
                        s,
                    ),
                    _ => None,
                },
            )
        },
    }
}

/// Whether the digest that was signed is that of the content.
pub open spec fn content_status(claimed: Option<Seq<u8>>, digest: Seq<u8>) -> Option<StatusModel> {
    match claimed {
        None => Some(StatusModel::Malformed),
        Some(c) => if c == digest {
            None
        } else {
            Some(StatusModel::ContentModified)
        },
    }
}

/// What speaks against the content, if anything does: that no digest was signed, or another one.
pub fn check_content(claimed: &Option<Vec<u8>>, digest: &[u8]) -> (r: Option<SignatureStatus>)
    ensures
        match r {
            Some(s) => content_status(
                match *claimed {
                    Some(c) => Some(c@),
                    None => None,
                },
                digest@,
            ) == Some(s@),
            None => content_status(
                match *claimed {
                    Some(c) => Some(c@),
                    None => None,
                },
                digest@,
            ) is None,
        },
{
    match claimed {
        None => Some(SignatureStatus::Malformed),
        Some(c) => if same_bytes(c.as_slice(), digest) {
            None
        } else {
            Some(SignatureStatus::ContentModified)
        },
    }
}

/// The status of a signature over ranges of a file.
pub open spec fn checked(contents: Seq<u8>, d: Seq<u8>, ranges: Seq<(usize, usize)>) -> StatusModel {
    match object_length(contents) {
        None => StatusModel::Malformed,
        Some(n) => if n > contents.len() {
            StatusModel::Malformed
        } else {
            let message = contents.take(n);
            match (digest_name_of(message), has_attributes_of(message)) {
                (Some(oid), Some(attrs)) => if !attrs {
                    StatusModel::UnsupportedAlgorithm
                } else {
                    match covered(d, ranges) {
                        None => StatusModel::Malformed,
                        Some(content) => match digest_kind_of(oid) {
                            None => StatusModel::UnsupportedAlgorithm,
                            Some(kind) => match content_status(
                                claimed_from(message, 0),
                                digest_of(kind, content),
                            ) {
                                Some(s) => s,
                                None => checked_signer(message, kind),
                            },
                        },
                    }
                },
                _ => StatusModel::Malformed,
            }
        },
    }
}

fn check_signer(message: &[u8], kind: DigestKind) -> (r: SignatureStatus)
    ensures
        r@ == checked_signer(message@, kind),
{
    let i: usize = match find_certificate(message) {
        Some(i) => i,
        None => {
            return SignatureStatus::Malformed;
        },
    };
    let key = public_key(message, i);
    let attrs = attributes(message);
    let sig = signature(message);
    let bits: Option<usize> = match &key {
        Some(k) => rsa_bits(k.as_slice()),
        None => None,
    };
    let verified: Option<bool> = match (&key, &attrs, &sig) {
        (Some(k), Some(a), Some(s)) if usable_key(bits) => {
            let digest = kind.digest(a.as_slice());
            let prefix = kind.prefix();
            rsa_verify(k.as_slice(), prefix.as_slice(), digest.as_slice(), s.as_slice())
        },
        _ => None,
    };
    judge_signer(&subject(message, i), bits, key.is_some(), attrs.is_some(), verified)
}

/// Checks a signature over ranges of a file.
pub fn verify_pkcs7_detached(contents: &[u8], document: &[u8], byte_range: &[(usize, usize); 2]) -> (r:
    SignatureStatus)
    ensures
        r@ == checked(contents@, document@, byte_range@),
{
    let n: usize = match der_object_len(contents) {
        Some(n) => n,
        None => {
            return SignatureStatus::Malformed;
        },
    };
    if n > contents.len() {
        return SignatureStatus::Malformed;
    }
    let message = vstd::slice::slice_subrange(contents, 0, n);
    assert(message@ =~= contents@.take(n as int));
    let oid = match digest_name(message) {
        Some(t) => t,
        None => {
            return SignatureStatus::Malformed;
        },
    };
    match has_attributes(message) {
        None => {
            return SignatureStatus::Malformed;
        },
        Some(false) => {
            return SignatureStatus::UnsupportedAlgorithm;
        },
        Some(true) => {},
    }
    let content = match covered_bytes(document, byte_range) {
        Some(b) => b,
        None => {
            return SignatureStatus::Malformed;
        },
    };
    let kind = match digest_kind(oid.as_str()) {
        Some(k) => k,
        None => {
            return SignatureStatus::UnsupportedAlgorithm;
        },
    };
    let digest = kind.digest(content.as_slice());
    match check_content(&find_message_digest(message), digest.as_slice()) {
        Some(s) => s,
        None => check_signer(message, kind),
    }
}

impl SignatureField {
    /// Checks that the bytes that the signature covers have not changed, and that it is the
    /// signature of the key in the message.
    pub fn verify(&self, doc: &Document) -> (r: SignatureStatus)
        ensures
            r@ == checked(self@.contents, doc@.data, self@.byte_range),
    {
        verify_pkcs7_detached(self.contents.as_slice(), doc.raw_bytes(), &self.byte_range)
    }
}

/// Four numbers that are not negative, as two ranges.
fn read_ranges(items: &[Object]) -> (r: Option<[(usize, usize); 2]>)
    ensures
        match r {
            Some(a) => ranges_in(models(items@)) == Some(a@),
            None => ranges_in(models(items@)) is None,
        },
{
    if items.len() != 4 {
        return None;
    }
    let ghost ms = models(items@);
    let mut nums: [usize; 4] = [0, 0, 0, 0];
    let mut i: usize = 0;
    while i < 4
        invariant
            0 <= i <= 4,
            items@.len() == 4,
            ms == models(items@),
            forall|j: int|
                0 <= j < i ==> (#[trigger] ms[j]).integer() is Some && ms[j].integer()->0 >= 0
                    && nums@[j] == ms[j].integer()->0 as usize,
        decreases 4 - i,
    {
        assert(ms[i as int] == items@[i as int]@);
        match items[i].as_int() {
            Some(n) => {
                if n < 0 {
                    return None;
                }
                nums[i] = n as usize;
            },
            None => {
                return None;
            },
        }
        i += 1;
    }
    let r: [(usize, usize); 2] = [(nums[0], nums[1]), (nums[2], nums[3])];
    proof {
        assert(ms[0].integer() is Some);
        assert(ms[1].integer() is Some);
        assert(ms[2].integer() is Some);
        assert(ms[3].integer() is Some);
        assert(r@ =~= ranges_in(ms)->0);
    }
    Some(r)
}

/// The signature that a field holds, where it is signed.
fn read_signature(doc: &Document, dict: &Dictionary) -> (r: Option<SignatureField>)
    ensures
        match r {
            Some(f) => signature_in(doc@, dict@) == Some(f@),
            None => signature_in(doc@, dict@) is None,
        },
{
    match dict.get("FT") {
        Some(o) => {
            if !o.is_name("Sig") {
                return None;
            }
        },
        None => {
            return None;
        },
    }
    let value = match dict.get("V") {
        None => {
            return None;
        },
        Some(o) => match doc.get(o) {
            Ok(v) => v,
            Err(_) => {
                return None;
            },
        },
    };
    let sig = match value.as_dict() {
        Some(s) => s,
        None => {
            return None;
        },
    };
    let contents = match sig.get("Contents") {
        Some(Object::String(b)) => clone_bytes(b.as_slice()),
        _ => {
            return None;
        },
    };
    let byte_range = match sig.get("ByteRange") {
        None => {
            return None;
        },
        Some(o) => match o.as_array() {
            None => {
                return None;
            },
            Some(items) => match read_ranges(items) {
                Some(a) => a,
                None => {
                    return None;
                },
            },
        },
    };
    let field_name = match text_entry(dict, "T") {
        Some(t) => t,
        None => {
            let none: String = String::new();
            proof {
                reveal_strlit("");
                assert(none@ =~= seq![]);
            }
            none
        },
    };
    Some(
        SignatureField {
            field_name,
            signer_name: text_entry(sig, "Name"),
            reason: text_entry(sig, "Reason"),
            location: text_entry(sig, "Location"),
            signing_time: text_entry(sig, "M"),
            contents,
            byte_range,
        },
    )
}

impl Document {
    /// The fields of the document's form that are signed: one level of them.
    pub fn signature_fields(&self) -> (r: Result<Vec<SignatureField>, PdfError>)
        ensures
            match signatures_of(self@) {
                Ok(list) => r is Ok && signature_models(r->Ok_0@) == list,
                Err(e) => r is Err && r->Err_0@ == e,
            },
    {
        let mut out: Vec<SignatureField> = Vec::new();
        assert(signature_models(out@) =~= seq![]);
        match self.root() {
            Ok(_) => {},
            Err(e) => {
                return Err(e);
            },
        }
        let items = match form_array(self) {
            Ok(x) => x,
            Err(_) => {
                return Ok(out);
            },
        };
        let ghost ms = models(items@);
        let mut i: usize = 0;
        while i < items.len()
            invariant
                0 <= i <= items@.len(),
                ms == models(items@),
                signature_models(out@) == signatures_among(self@, ms, i as nat),
            decreases items@.len() - i,
        {
            assert(ms[i as int] == items@[i as int]@);
            match self.get(&items[i]) {
                Ok(m) => match m.as_dict() {
                    Some(d) => match read_signature(self, d) {
                        Some(f) => {
                            let ghost before = signature_models(out@);
                            out.push(f);
                            assert(signature_models(out@) =~= before.push(f@));
                        },
                        None => {},
                    },
                    None => {},
                },
                Err(_) => {},
            }
            i += 1;
        }
        Ok(out)
    }
}

} // verus!
