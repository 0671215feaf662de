//! Signed messages, keys and digests, by way of the crates that read and compute them.
//!
//! Each part of a message is read from the bytes of the whole message.
use cms::cert::CertificateChoices;
use cms::content_info::ContentInfo;
use cms::signed_data::SignedData;
use der::{Decode, Encode};
use rsa::pkcs8::DecodePublicKey;
use rsa::traits::PublicKeyParts;
use sha1::Digest;
use vstd::prelude::*;

verus! {

/// The name of the digest that the first signer of a message used.
pub uninterp spec fn digest_name_of(message: Seq<u8>) -> Option<Seq<char>>;

/// Calls `cms::content_info::ContentInfo::from_der` and `decode_as` on its content, and gives the
/// object identifier of the first signer's digest in dotted form. Claims only that the result is
/// fixed by the message; there is none where it is no signed message or has no signer.
#[verifier::external_body]
pub(crate) fn digest_name(message: &[u8]) -> (r: Option<String>)
    ensures
        match r {
            Some(t) => digest_name_of(message@) == Some(t@),
            None => digest_name_of(message@) is None,
        },
{
    let data = ContentInfo::from_der(message).ok()?.content.decode_as::<SignedData>().ok()?;
    data.signer_infos.0.iter().next().map(|signer| signer.digest_alg.oid.to_string())
}

/// Whether the first signer of a message signed attributes.
pub uninterp spec fn has_attributes_of(message: Seq<u8>) -> Option<bool>;

/// Reads a message as `digest_name` does, and tells whether the first signer has signed
/// attributes. Claims only that the result is fixed by the message; there is none where it is no
/// signed message or has no signer.
#[verifier::external_body]
pub(crate) fn has_attributes(message: &[u8]) -> (r: Option<bool>)
    ensures
        r == has_attributes_of(message@),
{
    let data = ContentInfo::from_der(message).ok()?.content.decode_as::<SignedData>().ok()?;
    data.signer_infos.0.iter().next().map(|signer| signer.signed_attrs.is_some())
}

/// The signed attributes of the first signer, encoded for their digest.
pub uninterp spec fn attributes_of(message: Seq<u8>) -> Option<Seq<u8>>;

/// Calls `der::Encode::to_der` on the signed attributes of the first signer of a message. Claims
/// only that the result is fixed by the message.
#[verifier::external_body]
pub(crate) fn attributes(message: &[u8]) -> (r: Option<Vec<u8>>)
    ensures
        match r {
            Some(b) => attributes_of(message@) == Some(b@),
            None => attributes_of(message@) is None,
        },
{
    let data = ContentInfo::from_der(message).ok()?.content.decode_as::<SignedData>().ok()?;
    data.signer_infos.0.iter().next()?.signed_attrs.as_ref()?.to_der().ok()
}

/// The name of the signed attribute with an index.
pub uninterp spec fn attribute_name_of(message: Seq<u8>, i: usize) -> Option<Seq<char>>;

/// Gives the object identifier, in dotted form, of a signed attribute of the first signer of a
/// message. Claims only that the result is fixed by the message and the index; there is none
/// behind the last attribute.
#[verifier::external_body]
pub(crate) fn attribute_name(message: &[u8], i: usize) -> (r: Option<String>)
    ensures
        match r {
            Some(t) => attribute_name_of(message@, i) == Some(t@),
            None => attribute_name_of(message@, i) is None,
        },
{
    let data = ContentInfo::from_der(message).ok()?.content.decode_as::<SignedData>().ok()?;
    let signer = data.signer_infos.0.iter().next()?;
    signer.signed_attrs.as_ref()?.get(i).map(|a| a.oid.to_string())
}

/// The octets of the first value of the signed attribute with an index.
pub uninterp spec fn attribute_octets_of(message: Seq<u8>, i: usize) -> Option<Seq<u8>>;

/// Calls `decode_as` for an octet string on the first value of a signed attribute of the first
/// signer of a message. Claims only that the result is fixed by the message and the index.
#[verifier::external_body]
pub(crate) fn attribute_octets(message: &[u8], i: usize) -> (r: Option<Vec<u8>>)
    ensures
        match r {
            Some(b) => attribute_octets_of(message@, i) == Some(b@),
            None => attribute_octets_of(message@, i) is None,
        },
{
    let data = ContentInfo::from_der(message).ok()?.content.decode_as::<SignedData>().ok()?;
    let value = data.signer_infos.0.iter().next()?.signed_attrs.as_ref()?.get(i)?.values.get(0)?;
    Some(value.decode_as::<der::asn1::OctetStringRef>().ok()?.as_bytes().to_vec())
}

/// The signature of the first signer.
pub uninterp spec fn signature_of(message: Seq<u8>) -> Option<Seq<u8>>;

/// Gives the signature of the first signer of a message. Claims only that the result is fixed by
/// the message; there is none where it is no signed message or has no signer.
#[verifier::external_body]
pub(crate) fn signature(message: &[u8]) -> (r: Option<Vec<u8>>)
    ensures
        match r {
            Some(b) => signature_of(message@) == Some(b@),
            None => signature_of(message@) is None,
        },
{
    let data = ContentInfo::from_der(message).ok()?.content.decode_as::<SignedData>().ok()?;
    data.signer_infos.0.iter().next().map(|signer| signer.signature.as_bytes().to_vec())
}

/// Whether the certificate with an index is one that can be read.
pub uninterp spec fn certificate_of(message: Seq<u8>, i: usize) -> Option<bool>;

/// Tells of a certificate of a message whether it is an X.509 certificate or of another form.
/// Claims only that the result is fixed by the message and the index; there is none behind the
/// last certificate.
#[verifier::external_body]
pub(crate) fn certificate(message: &[u8], i: usize) -> (r: Option<bool>)
    ensures
        r == certificate_of(message@, i),
{
    let data = ContentInfo::from_der(message).ok()?.content.decode_as::<SignedData>().ok()?;
    Some(match data.certificates.as_ref()?.0.get(i)? {
        CertificateChoices::Certificate(_) => true,
        CertificateChoices::Other(_) => false,
    })
}

/// The subject of the certificate with an index.
pub uninterp spec fn subject_of(message: Seq<u8>, i: usize) -> Option<Seq<char>>;

/// Gives the subject of an X.509 certificate of a message, written as RFC 4514 says. Claims only
/// that the result is fixed by the message and the index.
#[verifier::external_body]
pub(crate) fn subject(message: &[u8], i: usize) -> (r: Option<String>)
    ensures
        match r {
            Some(t) => subject_of(message@, i) == Some(t@),
            None => subject_of(message@, i) is None,
        },
{
    let data = ContentInfo::from_der(message).ok()?.content.decode_as::<SignedData>().ok()?;
    match data.certificates.as_ref()?.0.get(i)? {
        CertificateChoices::Certificate(c) => Some(c.tbs_certificate.subject.to_string()),
        CertificateChoices::Other(_) => None,
    }
}

/// The public key of the certificate with an index, encoded.
pub uninterp spec fn public_key_of(message: Seq<u8>, i: usize) -> Option<Seq<u8>>;

/// Calls `der::Encode::to_der` on the public key of an X.509 certificate of a message. Claims only
/// that the result is fixed by the message and the index.
#[verifier::external_body]
pub(crate) fn public_key(message: &[u8], i: usize) -> (r: Option<Vec<u8>>)
    ensures
        match r {
            Some(b) => public_key_of(message@, i) == Some(b@),
            None => public_key_of(message@, i) is None,
        },
{
    let data = ContentInfo::from_der(message).ok()?.content.decode_as::<SignedData>().ok()?;
    match data.certificates.as_ref()?.0.get(i)? {
        CertificateChoices::Certificate(c) => c.tbs_certificate.subject_public_key_info.to_der().ok(),
        CertificateChoices::Other(_) => None,
    }
}

/// How many bits the modulus of an RSA key has.
pub uninterp spec fn rsa_bits_of(key: Seq<u8>) -> Option<usize>;

/// Calls `rsa::RsaPublicKey::from_public_key_der`, and `bits` on the modulus of the key. Claims
/// only that the result is fixed by the encoded key; there is none where it is no RSA key.
#[verifier::external_body]
pub(crate) fn rsa_bits(key: &[u8]) -> (r: Option<usize>)
    ensures
        r == rsa_bits_of(key@),
{
    rsa::RsaPublicKey::from_public_key_der(key).ok().map(|k| k.n().bits())
}

/// Whether a signature is that of a digest under an RSA key, with the prefix of the digest's kind.
pub uninterp spec fn rsa_verified(key: Seq<u8>, prefix: Seq<u8>, digest: Seq<u8>, sig: Seq<u8>) -> Option<
    bool,
>;

/// Calls `rsa::RsaPublicKey::verify` with the padding of PKCS #1 v1.5. Claims only that the result
/// is fixed by the key, the prefix, the digest and the signature; there is none where the key is
/// no RSA key.
#[verifier::external_body]
pub(crate) fn rsa_verify(key: &[u8], prefix: &[u8], digest: &[u8], sig: &[u8]) -> (r: Option<bool>)
    ensures
        r == rsa_verified(key@, prefix@, digest@, sig@),
{
    let public = rsa::RsaPublicKey::from_public_key_der(key).ok()?;
    let hash_len = Some(digest.len());
    let scheme = rsa::Pkcs1v15Sign { hash_len, prefix: prefix.to_vec().into_boxed_slice() };
    Some(public.verify(scheme, digest, sig).is_ok())
}

/// The SHA-1 digest of bytes.
pub uninterp spec fn sha1_of(data: Seq<u8>) -> Seq<u8>;

/// Calls `sha1::Sha1::digest`. Claims that the digest is fixed by the data and has 20 bytes.
#[verifier::external_body]
pub(crate) fn sha1_digest(data: &[u8]) -> (r: Vec<u8>)
    ensures
        r@ == sha1_of(data@),
        r@.len() == 20,
{
    sha1::Sha1::digest(data).to_vec()
}

} // verus!
