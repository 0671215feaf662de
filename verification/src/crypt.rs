//! Decryption of documents: the standard security handler with RC4, AES-128 and AES-256.
use aes::{Aes128, Aes256};
use cbc::cipher::block_padding::{NoPadding, Pkcs7};
use cbc::cipher::{BlockDecryptMut, BlockEncryptMut, KeyIvInit};
use md5::{Digest, Md5};
use sha2::{Sha256, Sha384, Sha512};
use vstd::prelude::*;
use vstd::slice::slice_subrange;
use crate::filters::int_entry;
use crate::object::{clone_bytes, entry, entry_keys, lists_keys, DictModel, Dictionary, Object, ObjectModel, Stream};
use crate::text::{same_bytes, same_text};

verus! {

/// What `md5::Md5::digest` returns.
pub uninterp spec fn md5_of(data: Seq<u8>) -> Seq<u8>;

/// What `sha2::Sha256::digest` returns.
pub uninterp spec fn sha256_of(data: Seq<u8>) -> Seq<u8>;

/// What `sha2::Sha384::digest` returns.
pub uninterp spec fn sha384_of(data: Seq<u8>) -> Seq<u8>;

/// What `sha2::Sha512::digest` returns.
pub uninterp spec fn sha512_of(data: Seq<u8>) -> Seq<u8>;

/// What `cbc::Encryptor::<aes::Aes128>` makes of whole blocks, without padding.
pub uninterp spec fn aes128_encrypted(key: Seq<u8>, iv: Seq<u8>, data: Seq<u8>) -> Seq<u8>;

/// What `cbc::Decryptor::<aes::Aes256>` makes of whole blocks, without padding.
pub uninterp spec fn aes256_decrypted(key: Seq<u8>, iv: Seq<u8>, data: Seq<u8>) -> Seq<u8>;

/// What `cbc::Decryptor::<aes::Aes128>` makes of data with PKCS #7 padding; `None` where it
/// reports an error.
pub uninterp spec fn aes128_unpadded(key: Seq<u8>, iv: Seq<u8>, data: Seq<u8>) -> Option<Seq<u8>>;

/// What `cbc::Decryptor::<aes::Aes256>` makes of data with PKCS #7 padding; `None` where it
/// reports an error.
pub uninterp spec fn aes256_unpadded(key: Seq<u8>, iv: Seq<u8>, data: Seq<u8>) -> Option<Seq<u8>>;

/// Calls `md5::Md5::digest`. Claims 16 bytes that depend on the data alone.
#[verifier::external_body]
fn md5_digest(data: &[u8]) -> (r: Vec<u8>)
    ensures
        r@ == md5_of(data@),
        r@.len() == 16,
{
    Md5::digest(data).to_vec()
}

/// Calls `sha2::Sha256::digest`. Claims 32 bytes that depend on the data alone.
#[verifier::external_body]
pub(crate) fn sha256_digest(data: &[u8]) -> (r: Vec<u8>)
    ensures
        r@ == sha256_of(data@),
        r@.len() == 32,
{
    Sha256::digest(data).to_vec()
}

/// Calls `sha2::Sha384::digest`. Claims 48 bytes that depend on the data alone.
#[verifier::external_body]
pub(crate) fn sha384_digest(data: &[u8]) -> (r: Vec<u8>)
    ensures
        r@ == sha384_of(data@),
        r@.len() == 48,
{
    Sha384::digest(data).to_vec()
}

/// Calls `sha2::Sha512::digest`. Claims 64 bytes that depend on the data alone.
#[verifier::external_body]
pub(crate) fn sha512_digest(data: &[u8]) -> (r: Vec<u8>)
    ensures
        r@ == sha512_of(data@),
        r@.len() == 64,
{
    Sha512::digest(data).to_vec()
}

/// Encrypts whole blocks with `cbc::Encryptor::<aes::Aes128>` and no padding. Claims as many
/// bytes as it was given, which depend on the key, the start vector and the data alone.
#[verifier::external_body]
fn aes128_encrypt(key: &[u8], iv: &[u8], data: &[u8]) -> (r: Vec<u8>)
    requires
        key@.len() == 16,
        iv@.len() == 16,
        data@.len() % 16 == 0,
    ensures
        r@ == aes128_encrypted(key@, iv@, data@),
        r@.len() == data@.len(),
{
    cbc::Encryptor::<Aes128>::new(key.into(), iv.into()).encrypt_padded_vec_mut::<NoPadding>(data)
}

/// Decrypts whole blocks with `cbc::Decryptor::<aes::Aes256>` and no padding. Claims as many
/// bytes as it was given, which depend on the key, the start vector and the data alone.
#[verifier::external_body]
fn aes256_decrypt(key: &[u8], iv: &[u8], data: &[u8]) -> (r: Vec<u8>)
    requires
        key@.len() == 32,
        iv@.len() == 16,
        data@.len() % 16 == 0,
    ensures
        r@ == aes256_decrypted(key@, iv@, data@),
        r@.len() == data@.len(),
{
    cbc::Decryptor::<Aes256>::new(key.into(), iv.into())
        .decrypt_padded_vec_mut::<NoPadding>(data)
        .unwrap()
}

/// Decrypts data with `cbc::Decryptor::<aes::Aes128>` and takes off the PKCS #7 padding. Claims
/// that the outcome, an error among them, depends on the key, the start vector and the data
/// alone.
#[verifier::external_body]
fn aes128_unpad(key: &[u8], iv: &[u8], data: &[u8]) -> (r: Option<Vec<u8>>)
    requires
        key@.len() == 16,
        iv@.len() == 16,
    ensures
        match r {
            Some(out) => aes128_unpadded(key@, iv@, data@) == Some(out@),
            None => aes128_unpadded(key@, iv@, data@) is None,
        },
{
    cbc::Decryptor::<Aes128>::new(key.into(), iv.into()).decrypt_padded_vec_mut::<Pkcs7>(data).ok()
}

/// Decrypts data with `cbc::Decryptor::<aes::Aes256>` and takes off the PKCS #7 padding. Claims
/// that the outcome, an error among them, depends on the key, the start vector and the data
/// alone.
#[verifier::external_body]
fn aes256_unpad(key: &[u8], iv: &[u8], data: &[u8]) -> (r: Option<Vec<u8>>)
    requires
        key@.len() == 32,
        iv@.len() == 16,
    ensures
        match r {
            Some(out) => aes256_unpadded(key@, iv@, data@) == Some(out@),
            None => aes256_unpadded(key@, iv@, data@) is None,
        },
{
    cbc::Decryptor::<Aes256>::new(key.into(), iv.into()).decrypt_padded_vec_mut::<Pkcs7>(data).ok()
}

/// `s` with two of its bytes exchanged.
pub open spec fn swapped(s: Seq<u8>, i: int, j: int) -> Seq<u8> {
    s.update(i, s[j]).update(j, s[i])
}

/// The state of RC4 after `n` steps of its key schedule, and the second index.
pub open spec fn rc4_schedule(key: Seq<u8>, n: nat) -> (Seq<u8>, int)
    decreases n,
{
    if n == 0 {
        (Seq::new(256, |i: int| i as u8), 0)
    } else {
        let (s, j) = rc4_schedule(key, (n - 1) as nat);
        let i = n - 1;
        let next = (j + s[i] + key[i % key.len() as int]) % 256;
        (swapped(s, i, next), next)
    }
}

/// The state of RC4 after `n` bytes of its key stream, and the second index.
pub open spec fn rc4_state(key: Seq<u8>, n: nat) -> (Seq<u8>, int)
    decreases n,
{
    if n == 0 {
        (rc4_schedule(key, 256).0, 0)
    } else {
        let (s, j) = rc4_state(key, (n - 1) as nat);
        let i = (n % 256) as int;
        let next = (j + s[i]) % 256;
        (swapped(s, i, next), next)
    }
}

/// The byte `n` of the key stream of RC4.
pub open spec fn rc4_stream(key: Seq<u8>, n: int) -> u8 {
    let (s, j) = rc4_state(key, (n + 1) as nat);
    let i = (n + 1) % 256;
    s[(s[i] + s[j]) % 256]
}

/// Data with the key stream of RC4 laid over it.
pub open spec fn rc4(key: Seq<u8>, data: Seq<u8>) -> Seq<u8> {
    Seq::new(data.len(), |i: int| data[i] ^ rc4_stream(key, i))
}

/// RC4 undoes itself.
pub proof fn rc4_twice(key: Seq<u8>, data: Seq<u8>)
    ensures
        rc4(key, rc4(key, data)) == data,
{
    assert forall|i: int| 0 <= i < data.len() implies rc4(key, rc4(key, data))[i] == data[i] by {
        let x = data[i];
        let k = rc4_stream(key, i);
        assert((x ^ k) ^ k == x) by (bit_vector);
    }
    assert(rc4(key, rc4(key, data)) =~= data);
}

fn swap(s: &mut Vec<u8>, i: usize, j: usize)
    requires
        i < old(s)@.len(),
        j < old(s)@.len(),
    ensures
        final(s)@ == swapped(old(s)@, i as int, j as int),
{
    let a: u8 = s[i];
    let b: u8 = s[j];
    s.set(i, b);
    s.set(j, a);
}

/// Lays the key stream of RC4 over the data, which encrypts as well as decrypts them.
pub fn rc4_apply(key: &[u8], data: &[u8]) -> (r: Vec<u8>)
    requires
        key@.len() > 0,
    ensures
        r@ == rc4(key@, data@),
{
    let mut s: Vec<u8> = Vec::new();
    let mut n: usize = 0;
    while n < 256
        invariant
            0 <= n <= 256,
            s@.len() == n,
            forall|k: int| 0 <= k < n ==> #[trigger] s@[k] == k,
        decreases 256 - n,
    {
        s.push(n as u8);
        n += 1;
    }
    assert(s@ =~= rc4_schedule(key@, 0).0);
    let mut j: usize = 0;
    let mut i: usize = 0;
    while i < 256
        invariant
            0 <= i <= 256,
            key@.len() > 0,
            s@.len() == 256,
            j < 256,
            (s@, j as int) == rc4_schedule(key@, i as nat),
        decreases 256 - i,
    {
        j = (j + s[i] as usize + key[i % key.len()] as usize) % 256;
        swap(&mut s, i, j);
        i += 1;
    }
    let mut out: Vec<u8> = Vec::new();
    j = 0;
    i = 0;
    let mut k: usize = 0;
    while k < data.len()
        invariant
            0 <= k <= data@.len(),
            s@.len() == 256,
            j < 256,
            i == k % 256,
            (s@, j as int) == rc4_state(key@, k as nat),
            out@ == rc4(key@, data@).take(k as int),
        decreases data@.len() - k,
    {
        i = (i + 1) % 256;
        assert(i == (k + 1) % 256);
        j = (j + s[i] as usize) % 256;
        swap(&mut s, i, j);
        assert((s@, j as int) == rc4_state(key@, (k + 1) as nat));
        let b: u8 = s[(s[i] as usize + s[j] as usize) % 256];
        assert(b == rc4_stream(key@, k as int));
        out.push(data[k] ^ b);
        k += 1;
        assert(out@ =~= rc4(key@, data@).take(k as int));
    }
    assert(out@ =~= rc4(key@, data@));
    out
}

/// How the strings and streams of a document are encrypted.
#[derive(Debug, Clone, Copy, PartialEq, Eq, Structural)]
pub enum CryptMethod {
    Rc4,
    /// AES-128 with cipher block chaining.
    AesV2,
    /// AES-256 with cipher block chaining.
    AesV3,
    Identity,
}

/// Why a document cannot be decrypted.
#[derive(Debug, Clone, Copy, PartialEq, Eq, Structural)]
pub enum DecryptError {
    Unsupported,
    WrongPassword,
}

/// The bytes that fill up a password.
pub open spec fn pad_bytes() -> Seq<u8> {
    seq![
        0x28u8, 0xBF, 0x4E, 0x5E, 0x4E, 0x75, 0x8A, 0x41, 0x64, 0x00, 0x4E, 0x56, 0xFF, 0xFA, 0x01,
        0x08, 0x2E, 0x2E, 0x00, 0xB6, 0xD0, 0x68, 0x3E, 0x80, 0x2F, 0x0C, 0xA9, 0xFE, 0x64, 0x53,
        0x69, 0x7A,
    ]
}

fn pad() -> (r: Vec<u8>)
    ensures
        r@ == pad_bytes(),
{
    let bytes: [u8; 32] = [
        0x28, 0xBF, 0x4E, 0x5E, 0x4E, 0x75, 0x8A, 0x41, 0x64, 0x00, 0x4E, 0x56, 0xFF, 0xFA, 0x01,
        0x08, 0x2E, 0x2E, 0x00, 0xB6, 0xD0, 0x68, 0x3E, 0x80, 0x2F, 0x0C, 0xA9, 0xFE, 0x64, 0x53,
        0x69, 0x7A,
    ];
    let r = clone_bytes(bytes.as_slice());
    assert(r@ =~= pad_bytes());
    r
}

/// At most the first `n` bytes.
pub open spec fn up_to(s: Seq<u8>, n: int) -> Seq<u8> {
    if s.len() <= n {
        s
    } else {
        s.take(n)
    }
}

fn first_bytes(s: &[u8], n: usize) -> (r: &[u8])
    ensures
        r@ == up_to(s@, n as int),
{
    if s.len() <= n {
        s
    } else {
        let r = slice_subrange(s, 0, n);
        assert(r@ =~= s@.take(n as int));
        r
    }
}

/// The low 32 bits of a number as four bytes, the lowest first.
pub open spec fn le_bytes(n: int) -> Seq<u8> {
    let v = n % 0x1_0000_0000;
    seq![
        (v % 256) as u8,
        (v / 256 % 256) as u8,
        (v / 0x1_0000 % 256) as u8,
        (v / 0x100_0000) as u8,
    ]
}

fn low_bits(n: i64) -> (v: u32)
    ensures
        v == n as int % 0x1_0000_0000,
{
    let m: i128 = n as i128 % 0x1_0000_0000;
    (if m < 0 {
        m + 0x1_0000_0000
    } else {
        m
    }) as u32
}

fn push_le_bytes(out: &mut Vec<u8>, n: i64)
    ensures
        final(out)@ == old(out)@ + le_bytes(n as int),
{
    let v: u32 = low_bits(n);
    out.push((v % 256) as u8);
    out.push((v / 256 % 256) as u8);
    out.push((v / 0x1_0000 % 256) as u8);
    out.push((v / 0x100_0000) as u8);
    assert(out@ =~= old(out)@ + le_bytes(n as int));
}

/// What the dictionary of a standard security handler says.
pub ghost struct Handler {
    pub v: i64,
    pub r: i64,
    pub o: Seq<u8>,
    pub u: Seq<u8>,
    pub p: i64,
}

pub open spec fn string_entry(d: DictModel, key: Seq<char>) -> Option<Seq<u8>> {
    match entry(d, key) {
        Some(ObjectModel::String(s)) => Some(s),
        _ => None,
    }
}

pub open spec fn whole_entry(d: DictModel, key: Seq<char>) -> Option<i64> {
    match entry(d, key) {
        Some(o) => o.integer(),
        None => None,
    }
}

pub open spec fn name_entry(d: DictModel, key: Seq<char>) -> Option<Seq<char>> {
    match entry(d, key) {
        Some(o) => o.name(),
        None => None,
    }
}

/// What a dictionary says of its handler, where that is the standard one and nothing is missing.
pub open spec fn handler(d: DictModel) -> Option<Handler> {
    match (whole_entry(d, "R"@), string_entry(d, "O"@), string_entry(d, "U"@), whole_entry(d, "P"@)) {
        (Some(r), Some(o), Some(u), Some(p)) => if name_entry(d, "Filter"@) == Some(
            "Standard"@,
        ) {
            Some(Handler { v: int_entry(d, "V"@, 0), r, o, u, p })
        } else {
            None
        },
        _ => None,
    }
}

/// How many bytes of a digest the key of a file has.
pub open spec fn key_length(d: DictModel, r: i64) -> int {
    let bits = int_entry(d, "Length"@, 40);
    if r == 2 {
        5
    } else if bits <= -8 || bits >= 128 {
        16
    } else if bits < 0 {
        0
    } else {
        bits as int / 8
    }
}

/// Metadata are encrypted unless the dictionary says something other than `true`.
pub open spec fn metadata_encrypted(d: DictModel) -> bool {
    match entry(d, "EncryptMetadata"@) {
        Some(o) => o == ObjectModel::Boolean(true),
        None => true,
    }
}

/// What the digest of a file key is made of.
pub open spec fn key_input(d: DictModel, h: Handler, id: Seq<u8>, password: Seq<u8>) -> Seq<u8> {
    (password + pad_bytes()).take(32) + up_to(h.o, 32) + le_bytes(h.p as int) + id + (if h.r >= 4
        && !metadata_encrypted(d) {
        seq![0xFFu8, 0xFF, 0xFF, 0xFF]
    } else {
        seq![]
    })
}

/// A digest of its own first `n` bytes, `rounds` times over.
pub open spec fn md5_rounds(hash: Seq<u8>, n: int, rounds: nat) -> Seq<u8>
    decreases rounds,
{
    if rounds == 0 {
        hash
    } else {
        md5_of(md5_rounds(hash, n, (rounds - 1) as nat).take(n))
    }
}

/// The key of a file up to version 4.
pub open spec fn file_key(d: DictModel, h: Handler, id: Seq<u8>, password: Seq<u8>) -> Seq<u8> {
    let n = key_length(d, h.r);
    md5_rounds(
        md5_of(key_input(d, h, id, password)),
        n,
        if h.r >= 3 {
            50
        } else {
            0
        },
    ).take(n)
}

/// Bytes with each combined with `x`.
pub open spec fn masked(key: Seq<u8>, x: u8) -> Seq<u8> {
    key.map_values(|b: u8| b ^ x)
}

/// RC4 with the key masked by each number up to `n` in turn.
pub open spec fn rc4_rounds(key: Seq<u8>, data: Seq<u8>, n: nat) -> Seq<u8>
    decreases n,
{
    if n == 0 {
        data
    } else {
        rc4(masked(key, (n - 1) as u8), rc4_rounds(key, data, (n - 1) as nat))
    }
}

/// What the entry `U` starts with where the password is right.
pub open spec fn user_check(h: Handler, key: Seq<u8>, id: Seq<u8>) -> Seq<u8> {
    if h.r == 2 {
        rc4(key, pad_bytes())
    } else {
        rc4_rounds(key, md5_of(pad_bytes() + id), 20)
    }
}

/// The sum of the first 16 bytes.
pub open spec fn sum16(e: Seq<u8>, n: nat) -> nat
    decreases n,
{
    if n == 0 {
        0
    } else {
        sum16(e, (n - 1) as nat) + e[n - 1] as nat
    }
}

/// A piece repeated `n` times.
pub open spec fn repeated(piece: Seq<u8>, n: nat) -> Seq<u8>
    decreases n,
{
    if n == 0 {
        seq![]
    } else {
        repeated(piece, (n - 1) as nat) + piece
    }
}

/// The encrypted block of one round of the hardened hash.
pub open spec fn hash_block(password: Seq<u8>, k: Seq<u8>) -> Seq<u8> {
    aes128_encrypted(k.take(16), k.subrange(16, 32), repeated(password + k, 64))
}

/// The digest of a block, by the sum of its first 16 bytes.
pub open spec fn block_digest(e: Seq<u8>) -> Seq<u8> {
    if sum16(e, 16) % 3 == 0 {
        sha256_of(e)
    } else if sum16(e, 16) % 3 == 1 {
        sha384_of(e)
    } else {
        sha512_of(e)
    }
}

/// The rounds of the hardened hash from the one that follows `round` on: at least 64, until the
/// last byte of the block is small enough.
pub open spec fn hash_rounds(password: Seq<u8>, k: Seq<u8>, round: nat) -> Seq<u8>
    decreases 287 - round,
{
    let e = hash_block(password, k);
    let next = block_digest(e);
    if round + 1 >= 64 && e.last() <= round + 1 - 32 {
        next.take(32)
    } else {
        hash_rounds(password, next, round + 1)
    }
}

/// The hash of a password and a salt: the plain one up to revision 5, the hardened one after.
pub open spec fn password_hash(r: i64, password: Seq<u8>, salt: Seq<u8>) -> Seq<u8> {
    if r >= 6 {
        hash_rounds(password, sha256_of(password + salt), 0)
    } else {
        sha256_of(password + salt)
    }
}

/// The method of the filter for streams.
pub open spec fn filter_method(d: DictModel) -> CryptMethod {
    let filter = match name_entry(d, "StmF"@) {
        Some(n) => n,
        None => "Identity"@,
    };
    if filter == "Identity"@ {
        CryptMethod::Identity
    } else {
        match entry(d, "CF"@) {
            Some(cf) => match cf.dict() {
                Some(filters) => match entry(filters, filter) {
                    Some(f) => match f.dict() {
                        Some(fd) => named_method(name_entry(fd, "CFM"@)),
                        None => CryptMethod::Rc4,
                    },
                    None => CryptMethod::Rc4,
                },
                None => CryptMethod::Rc4,
            },
            None => CryptMethod::Rc4,
        }
    }
}

pub open spec fn named_method(name: Option<Seq<char>>) -> CryptMethod {
    if name == Some("AESV2"@) {
        CryptMethod::AesV2
    } else if name == Some("AESV3"@) {
        CryptMethod::AesV3
    } else if name == Some("V2"@) {
        CryptMethod::Rc4
    } else if name == Some("None"@) {
        CryptMethod::Identity
    } else {
        CryptMethod::Rc4
    }
}

/// The version, the method and the key of a document.
pub ghost struct Cipher {
    pub v: i64,
    pub method: CryptMethod,
    pub key: Seq<u8>,
}

/// How a document is decrypted with a password.
pub open spec fn cipher(d: DictModel, id: Seq<u8>, password: Seq<u8>) -> Result<
    Cipher,
    DecryptError,
> {
    match handler(d) {
        None => Err(DecryptError::Unsupported),
        Some(h) => if h.v <= 4 {
            if key_length(d, h.r) == 0 {
                Err(DecryptError::Unsupported)
            } else {
                let key = file_key(d, h, id, password);
                let check = user_check(h, key, id);
                if up_to(h.u, check.len() as int) != check {
                    Err(DecryptError::WrongPassword)
                } else {
                    Ok(
                        Cipher {
                            v: h.v,
                            method: if h.v == 4 {
                                filter_method(d)
                            } else {
                                CryptMethod::Rc4
                            },
                            key,
                        },
                    )
                }
            }
        } else {
            let short = up_to(password, 127);
            match string_entry(d, "UE"@) {
                None => Err(DecryptError::Unsupported),
                Some(ue) => if h.u.len() < 48 || ue.len() != 32 {
                    Err(DecryptError::Unsupported)
                } else if password_hash(h.r, short, h.u.subrange(32, 40)) != h.u.take(32) {
                    Err(DecryptError::WrongPassword)
                } else {
                    Ok(
                        Cipher {
                            v: h.v,
                            method: CryptMethod::AesV3,
                            key: aes256_decrypted(
                                password_hash(h.r, short, h.u.subrange(40, 48)),
                                Seq::new(16, |i: int| 0u8),
                                ue,
                            ),
                        },
                    )
                },
            }
        },
    }
}

fn get_string<'a>(d: &'a Dictionary, key: &str) -> (r: Option<&'a Vec<u8>>)
    ensures
        match r {
            Some(s) => string_entry(d@, key@) == Some(s@),
            None => string_entry(d@, key@) is None,
        },
{
    match d.get(key) {
        Some(Object::String(s)) => Some(s),
        _ => None,
    }
}

fn get_whole(d: &Dictionary, key: &str) -> (r: Option<i64>)
    ensures
        r == whole_entry(d@, key@),
{
    match d.get(key) {
        Some(o) => o.as_int(),
        None => None,
    }
}

fn get_name<'a>(d: &'a Dictionary, key: &str) -> (r: Option<&'a str>)
    ensures
        match r {
            Some(n) => name_entry(d@, key@) == Some(n@),
            None => name_entry(d@, key@) is None,
        },
{
    match d.get(key) {
        Some(o) => o.as_name(),
        None => None,
    }
}

fn read_key_length(d: &Dictionary, r: i64) -> (n: usize)
    ensures
        n == key_length(d@, r),
        n <= 16,
{
    let bits: i64 = crate::filters::get_int_or(d, "Length", 40);
    if r == 2 {
        5
    } else if bits <= -8 || bits >= 128 {
        16
    } else if bits < 0 {
        0
    } else {
        (bits / 8) as usize
    }
}

/// The digest of a file key.
fn derive_key(
    d: &Dictionary,
    r: i64,
    o: &[u8],
    p: i64,
    id: &[u8],
    password: &[u8],
    Ghost(h): Ghost<Handler>,
) -> (key: Vec<u8>)
    requires
        h.r == r,
        h.o == o@,
        h.p == p,
    ensures
        key@ == file_key(d@, h, id@, password@),
        key@.len() == key_length(d@, r),
{
    let n: usize = read_key_length(d, r);
    let mut input: Vec<u8> = clone_bytes(password);
    let padding = pad();
    input.extend_from_slice(padding.as_slice());
    assert(input@ =~= password@ + pad_bytes());
    input.truncate(32);
    assert(input@ =~= (password@ + pad_bytes()).take(32));
    input.extend_from_slice(first_bytes(o, 32));
    push_le_bytes(&mut input, p);
    input.extend_from_slice(id);
    let all: bool = match d.get("EncryptMetadata") {
        Some(Object::Boolean(b)) => *b,
        Some(_) => false,
        None => true,
    };
    assert(all == metadata_encrypted(d@));
    if r >= 4 && !all {
        let mark: [u8; 4] = [0xFF, 0xFF, 0xFF, 0xFF];
        input.extend_from_slice(mark.as_slice());
        assert(mark@ =~= seq![0xFFu8, 0xFF, 0xFF, 0xFF]);
    }
    assert(input@ =~= key_input(d@, h, id@, password@));
    let mut hash = md5_digest(input.as_slice());
    let ghost first = hash@;
    if r >= 3 {
        let mut i: usize = 0;
        while i < 50
            invariant
                0 <= i <= 50,
                n <= 16,
                hash@.len() == 16,
                hash@ == md5_rounds(first, n as int, i as nat),
            decreases 50 - i,
        {
            let part = slice_subrange(hash.as_slice(), 0, n);
            assert(part@ =~= hash@.take(n as int));
            hash = md5_digest(part);
            i += 1;
        }
    }
    let part = slice_subrange(hash.as_slice(), 0, n);
    assert(part@ =~= hash@.take(n as int));
    clone_bytes(part)
}

/// Each byte of the key combined with `x`.
fn mask(key: &[u8], x: u8) -> (r: Vec<u8>)
    ensures
        r@ == masked(key@, x),
{
    let mut r: Vec<u8> = Vec::new();
    let mut i: usize = 0;
    while i < key.len()
        invariant
            0 <= i <= key@.len(),
            r@.len() == i,
            forall|j: int| 0 <= j < i ==> #[trigger] r@[j] == key@[j] ^ x,
        decreases key@.len() - i,
    {
        r.push(key[i] ^ x);
        i += 1;
    }
    assert(r@ =~= masked(key@, x));
    r
}

/// What the entry `U` starts with where the password is right.
fn make_user_check(r: i64, key: &[u8], id: &[u8], Ghost(h): Ghost<Handler>) -> (check: Vec<u8>)
    requires
        key@.len() > 0,
        h.r == r,
    ensures
        check@ == user_check(h, key@, id@),
{
    let mut input = pad();
    if r == 2 {
        return rc4_apply(key, input.as_slice());
    }
    input.extend_from_slice(id);
    assert(input@ =~= pad_bytes() + id@);
    let mut check = md5_digest(input.as_slice());
    let ghost first = check@;
    let mut i: u8 = 0;
    while i < 20
        invariant
            0 <= i <= 20,
            key@.len() > 0,
            check@ == rc4_rounds(key@, first, i as nat),
        decreases 20 - i,
    {
        let k = mask(key, i);
        check = rc4_apply(k.as_slice(), check.as_slice());
        i += 1;
    }
    check
}

proof fn repeated_len(piece: Seq<u8>, n: nat)
    ensures
        repeated(piece, n).len() == n * piece.len(),
    decreases n,
{
    if n > 0 {
        repeated_len(piece, (n - 1) as nat);
        assert(n * piece.len() == (n - 1) * piece.len() + piece.len()) by (nonlinear_arith)
            requires
                n > 0,
        ;
    } else {
        assert(n * piece.len() == 0) by (nonlinear_arith)
            requires
                n == 0,
        ;
    }
}

/// One round of the hardened hash: the block and its digest.
fn hash_round(password: &[u8], k: &[u8]) -> (r: (Vec<u8>, Vec<u8>))
    requires
        k@.len() >= 32,
    ensures
        r.0@ == hash_block(password@, k@),
        r.0@.len() >= 16,
        r.1@ == block_digest(r.0@),
        r.1@.len() >= 32,
{
    let mut piece: Vec<u8> = clone_bytes(password);
    piece.extend_from_slice(k);
    assert(piece@ =~= password@ + k@);
    let mut k1: Vec<u8> = Vec::new();
    assert(k1@ =~= seq![]);
    let mut i: usize = 0;
    while i < 64
        invariant
            0 <= i <= 64,
            piece@ == password@ + k@,
            k1@ == repeated(password@ + k@, i as nat),
        decreases 64 - i,
    {
        let ghost before = k1@;
        k1.extend_from_slice(piece.as_slice());
        assert(k1@ =~= before + piece@);
        i += 1;
    }
    proof {
        repeated_len(password@ + k@, 64);
    }
    let key = slice_subrange(k, 0, 16);
    let iv = slice_subrange(k, 16, 32);
    assert(key@ =~= k@.take(16));
    let e = aes128_encrypt(key, iv, k1.as_slice());
    let mut sum: u32 = 0;
    let mut j: usize = 0;
    while j < 16
        invariant
            0 <= j <= 16,
            e@.len() >= 16,
            sum == sum16(e@, j as nat),
            sum <= 255 * j,
        decreases 16 - j,
    {
        sum = sum + e[j] as u32;
        j += 1;
    }
    let digest = if sum % 3 == 0 {
        sha256_digest(e.as_slice())
    } else if sum % 3 == 1 {
        sha384_digest(e.as_slice())
    } else {
        sha512_digest(e.as_slice())
    };
    (e, digest)
}

/// The hardened hash of a password and a salt.
fn hardened_hash(password: &[u8], salt: &[u8]) -> (r: Vec<u8>)
    ensures
        r@ == hash_rounds(password@, sha256_of(password@ + salt@), 0),
        r@.len() == 32,
{
    let mut input: Vec<u8> = clone_bytes(password);
    input.extend_from_slice(salt);
    assert(input@ =~= password@ + salt@);
    let mut k = sha256_digest(input.as_slice());
    let ghost goal = hash_rounds(password@, k@, 0);
    let mut round: u32 = 0;
    loop
        invariant
            round <= 287,
            k@.len() >= 32,
            goal == hash_rounds(password@, sha256_of(password@ + salt@), 0),
            goal == hash_rounds(password@, k@, round as nat),
        decreases 287 - round,
    {
        let (e, digest) = hash_round(password, k.as_slice());
        k = digest;
        round += 1;
        let last: u8 = e[e.len() - 1];
        if round >= 64 && last as u32 <= round - 32 {
            k.truncate(32);
            assert(k@ =~= block_digest(e@).take(32));
            return k;
        }
    }
}

/// The hash of a password and a salt by the revision.
fn hash_password(r: i64, password: &[u8], salt: &[u8]) -> (h: Vec<u8>)
    ensures
        h@ == password_hash(r, password@, salt@),
        h@.len() == 32,
{
    if r >= 6 {
        hardened_hash(password, salt)
    } else {
        let mut input: Vec<u8> = clone_bytes(password);
        input.extend_from_slice(salt);
        assert(input@ =~= password@ + salt@);
        sha256_digest(input.as_slice())
    }
}

/// The method of the filter for streams.
fn crypt_filter_method(d: &Dictionary) -> (r: CryptMethod)
    ensures
        r == filter_method(d@),
{
    let filter: &str = match get_name(d, "StmF") {
        Some(n) => n,
        None => "Identity",
    };
    if same_text(filter, "Identity") {
        return CryptMethod::Identity;
    }
    let fd = match d.get("CF") {
        Some(cf) => match cf.as_dict() {
            Some(filters) => match filters.get(filter) {
                Some(f) => f.as_dict(),
                None => None,
            },
            None => None,
        },
        None => None,
    };
    match fd {
        Some(fd) => match get_name(fd, "CFM") {
            Some(n) => {
                if same_text(n, "AESV2") {
                    CryptMethod::AesV2
                } else if same_text(n, "AESV3") {
                    CryptMethod::AesV3
                } else if same_text(n, "V2") {
                    CryptMethod::Rc4
                } else if same_text(n, "None") {
                    CryptMethod::Identity
                } else {
                    CryptMethod::Rc4
                }
            },
            None => CryptMethod::Rc4,
        },
        None => CryptMethod::Rc4,
    }
}

/// What decrypts a document: made once when it is opened, used for every object.
pub struct Decryptor {
    file_key: Vec<u8>,
    method: CryptMethod,
    /// Up to version 4 each object has a key of its own.
    v: i64,
    /// The number of the object that says how the document is encrypted, and is not encrypted
    /// itself.
    encrypt_obj_num: Option<u32>,
}

impl Decryptor {
    pub closed spec fn cipher(&self) -> Cipher {
        Cipher { v: self.v, method: self.method, key: self.file_key@ }
    }

    /// The number of the object that is not encrypted.
    pub closed spec fn plain_object(&self) -> Option<u32> {
        self.encrypt_obj_num
    }

    /// Makes a decryptor from the dictionary under `Encrypt`, the first identifier of the file
    /// and a user password.
    pub fn new(
        encrypt: &Dictionary,
        id0: &[u8],
        encrypt_obj_num: Option<u32>,
        password: &[u8],
    ) -> (r: Result<Self, DecryptError>)
        ensures
            match cipher(encrypt@, id0@, password@) {
                Ok(c) => r is Ok && r->Ok_0.cipher() == c && r->Ok_0.plain_object()
                    == encrypt_obj_num,
                Err(e) => r == Err::<Self, DecryptError>(e),
            },
    {
        let standard: bool = match get_name(encrypt, "Filter") {
            Some(n) => same_text(n, "Standard"),
            None => false,
        };
        if !standard {
            return Err(DecryptError::Unsupported);
        }
        let v: i64 = crate::filters::get_int_or(encrypt, "V", 0);
        match (
            get_whole(encrypt, "R"),
            get_string(encrypt, "O"),
            get_string(encrypt, "U"),
            get_whole(encrypt, "P"),
        ) {
            (Some(r), Some(o), Some(u), Some(p)) => {
                let ghost h = Handler { v, r, o: o@, u: u@, p };
                if v <= 4 {
                    let n: usize = read_key_length(encrypt, r);
                    if n == 0 {
                        return Err(DecryptError::Unsupported);
                    }
                    let key = derive_key(
                        encrypt,
                        r,
                        o.as_slice(),
                        p,
                        id0,
                        password,
                        Ghost(h),
                    );
                    let check = make_user_check(r, key.as_slice(), id0, Ghost(h));
                    if !same_bytes(first_bytes(u.as_slice(), check.len()), check.as_slice()) {
                        return Err(DecryptError::WrongPassword);
                    }
                    let method: CryptMethod = if v == 4 {
                        crypt_filter_method(encrypt)
                    } else {
                        CryptMethod::Rc4
                    };
                    Ok(Self { file_key: key, method, v, encrypt_obj_num })
                } else {
                    let short = first_bytes(password, 127);
                    match get_string(encrypt, "UE") {
                        None => Err(DecryptError::Unsupported),
                        Some(ue) => {
                            if u.len() < 48 || ue.len() != 32 {
                                return Err(DecryptError::Unsupported);
                            }
                            let u = u.as_slice();
                            let check = hash_password(r, short, slice_subrange(u, 32, 40));
                            let start = slice_subrange(u, 0, 32);
                            assert(start@ =~= h.u.take(32));
                            if !same_bytes(check.as_slice(), start) {
                                return Err(DecryptError::WrongPassword);
                            }
                            let key = hash_password(r, short, slice_subrange(u, 40, 48));
                            let iv: [u8; 16] = [0, 0, 0, 0, 0, 0, 0, 0, 0, 0, 0, 0, 0, 0, 0, 0];
                            assert(iv@ =~= Seq::new(16, |i: int| 0u8));
                            let file_key = aes256_decrypt(
                                key.as_slice(),
                                iv.as_slice(),
                                ue.as_slice(),
                            );
                            Ok(Self { file_key, method: CryptMethod::AesV3, v, encrypt_obj_num })
                        },
                    }
                }
            },
            _ => Err(DecryptError::Unsupported),
        }
    }

    pub fn encrypt_obj_num(&self) -> (r: Option<u32>)
        ensures
            r == self.plain_object(),
    {
        self.encrypt_obj_num
    }

    /// The key of an object.
    fn object_key(&self, num: u32, gen: u16) -> (r: Vec<u8>)
        ensures
            r@ == object_key_of(self.cipher(), num, gen),
            self.v < 5 ==> r@.len() > 0,
    {
        if self.v >= 5 {
            return clone_bytes(self.file_key.as_slice());
        }
        let mut input = clone_bytes(self.file_key.as_slice());
        input.push((num % 256) as u8);
        input.push((num / 256 % 256) as u8);
        input.push((num / 0x1_0000 % 256) as u8);
        input.push((gen % 256) as u8);
        input.push((gen / 256) as u8);
        if self.method == CryptMethod::AesV2 {
            let salt: [u8; 4] = [0x73, 0x41, 0x6C, 0x54];
            input.extend_from_slice(salt.as_slice());
            assert(salt@ =~= seq![0x73u8, 0x41, 0x6C, 0x54]);
        }
        assert(input@ =~= object_key_input(self.cipher(), num, gen));
        let hash = md5_digest(input.as_slice());
        let n: usize = if self.file_key.len() >= 11 {
            16
        } else {
            self.file_key.len() + 5
        };
        let part = slice_subrange(hash.as_slice(), 0, n);
        assert(part@ =~= hash@.take(n as int));
        clone_bytes(part)
    }

    /// Decrypts bytes of an object.
    pub fn decrypt_bytes(&self, data: &[u8], num: u32, gen: u16) -> (r: Vec<u8>)
        ensures
            r@ == decrypted_bytes(self.cipher(), data@, num, gen),
    {
        if data.len() == 0 {
            let r: Vec<u8> = Vec::new();
            assert(r@ =~= seq![]);
            return r;
        }
        let key = self.object_key(num, gen);
        match self.method {
            CryptMethod::Identity => clone_bytes(data),
            CryptMethod::Rc4 => {
                if key.len() == 0 {
                    clone_bytes(data)
                } else {
                    rc4_apply(key.as_slice(), data)
                }
            },
            CryptMethod::AesV2 => aes_cbc_decrypt_pkcs7(key.as_slice(), data, false),
            CryptMethod::AesV3 => aes_cbc_decrypt_pkcs7(key.as_slice(), data, true),
        }
    }

    /// Decrypts the strings and the stream data in an object.
    pub fn decrypt_object(&self, object: &mut Object, num: u32, gen: u16)
        ensures
            final(object)@ == decrypted(self.cipher(), old(object)@, num, gen),
    {
        let r = self.decrypt_copy(object, num, gen);
        *object = r;
    }

    fn decrypt_copy(&self, object: &Object, num: u32, gen: u16) -> (r: Object)
        ensures
            r@ == decrypted(self.cipher(), object@, num, gen),
        decreases object,
    {
        match object {
            Object::String(bytes) => Object::String(
                self.decrypt_bytes(bytes.as_slice(), num, gen),
            ),
            Object::Array(items) => {
                let mut out: Vec<Object> = Vec::new();
                let mut i: usize = 0;
                while i < items.len()
                    invariant
                        0 <= i <= items@.len(),
                        out@.len() == i,
                        forall|j: int|
                            0 <= j < i ==> (#[trigger] out@[j])@ == decrypted(
                                self.cipher(),
                                items@[j]@,
                                num,
                                gen,
                            ),
                        decreases_to!(object => items),
                    decreases items@.len() - i,
                {
                    out.push(self.decrypt_copy(&items[i], num, gen));
                    i += 1;
                }
                let r = Object::Array(out);
                assert(r@->Array_0 =~= decrypted(
                    self.cipher(),
                    object@,
                    num,
                    gen,
                )->Array_0);
                r
            },
            Object::Dictionary(dict) => Object::Dictionary(self.decrypt_dict(dict, num, gen)),
            Object::Stream(stream) => Object::Stream(
                Stream {
                    dict: self.decrypt_dict(&stream.dict, num, gen),
                    raw_data: self.decrypt_bytes(stream.raw_data.as_slice(), num, gen),
                },
            ),
            _ => object.clone(),
        }
    }

    fn decrypt_dict(&self, dict: &Dictionary, num: u32, gen: u16) -> (r: Dictionary)
        ensures
            r@ == decrypted_dict(self.cipher(), dict@, num, gen),
        decreases dict,
    {
        let entries = dict.iter();
        let ghost keys = entry_keys(entries@);
        let ghost c = self.cipher();
        proof {
            assert(dict@.dom() =~= keys.to_set());
        }
        let mut r = Dictionary::new();
        let mut i: usize = 0;
        while i < entries.len()
            invariant
                0 <= i <= entries@.len(),
                c == self.cipher(),
                keys == entry_keys(entries@),
                lists_keys(dict@, keys),
                forall|j: int|
                    0 <= j < entries@.len() ==> (#[trigger] entries@[j]).1@
                        == dict@[entries@[j].0@],
                forall|j: int|
                    0 <= j < entries@.len() ==> decreases_to!(dict => (#[trigger] entries@[j]).1),
                forall|k: Seq<char>|
                    #[trigger] r@.contains_key(k) <==> exists|j: int|
                        0 <= j < i && #[trigger] keys[j] == k,
                forall|k: Seq<char>|
                    #[trigger] r@.contains_key(k) ==> r@[k] == decrypted(c, dict@[k], num, gen),
            decreases entries@.len() - i,
        {
            let e = &entries[i];
            let ghost before = r@;
            let value = self.decrypt_copy(&e.1, num, gen);
            r.insert(e.0.as_str(), value);
            proof {
                assert(keys[i as int] == e.0@);
                assert forall|k: Seq<char>|
                    #[trigger] r@.contains_key(k) <==> exists|j: int|
                        0 <= j < i + 1 && #[trigger] keys[j] == k by {
                    if r@.contains_key(k) && k == e.0@ {
                        assert(keys[i as int] == k);
                    }
                    if exists|j: int| 0 <= j < i + 1 && #[trigger] keys[j] == k {
                        let j = choose|j: int| 0 <= j < i + 1 && #[trigger] keys[j] == k;
                        if j < i {
                            assert(keys[j] == k);
                            assert(before.contains_key(k));
                        }
                    }
                }
            }
            i += 1;
        }
        proof {
            let goal = decrypted_dict(c, dict@, num, gen);
            assert forall|k: Seq<char>| r@.contains_key(k) <==> goal.contains_key(k) by {
                if dict@.contains_key(k) {
                    assert(keys.contains(k));
                    let j = keys.index_of(k);
                    assert(keys[j] == k);
                }
                if r@.contains_key(k) {
                    let j = choose|j: int| 0 <= j < i && #[trigger] keys[j] == k;
                    assert(keys.contains(k));
                }
            }
            assert(r@ =~= goal);
        }
        r
    }
}

/// What the digest of an object's key is made of.
pub open spec fn object_key_input(c: Cipher, num: u32, gen: u16) -> Seq<u8> {
    c.key + seq![
        (num % 256) as u8,
        (num / 256 % 256) as u8,
        (num / 0x1_0000 % 256) as u8,
        (gen % 256) as u8,
        (gen / 256) as u8,
    ] + (if c.method == CryptMethod::AesV2 {
        seq![0x73u8, 0x41, 0x6C, 0x54]
    } else {
        seq![]
    })
}

/// The key of an object: that of the file from version 5 on, one of its own before.
pub open spec fn object_key_of(c: Cipher, num: u32, gen: u16) -> Seq<u8> {
    if c.v >= 5 {
        c.key
    } else {
        md5_of(object_key_input(c, num, gen)).take(
            if c.key.len() >= 11 {
                16
            } else {
                c.key.len() as int + 5
            },
        )
    }
}

/// Data behind a start vector of 16 bytes, decrypted; nothing where that cannot be done.
pub open spec fn aes_decrypted(key: Seq<u8>, data: Seq<u8>, wide: bool) -> Seq<u8> {
    let plain = if data.len() < 16 {
        None
    } else if wide && key.len() == 32 {
        aes256_unpadded(key, data.take(16), data.skip(16))
    } else if key.len() == 16 {
        aes128_unpadded(key, data.take(16), data.skip(16))
    } else {
        None
    };
    match plain {
        Some(out) => out,
        None => seq![],
    }
}

/// Bytes of an object, decrypted.
pub open spec fn decrypted_bytes(c: Cipher, data: Seq<u8>, num: u32, gen: u16) -> Seq<u8> {
    let key = object_key_of(c, num, gen);
    if data.len() == 0 {
        seq![]
    } else {
        match c.method {
            CryptMethod::Identity => data,
            CryptMethod::Rc4 => if key.len() == 0 {
                data
            } else {
                rc4(key, data)
            },
            CryptMethod::AesV2 => aes_decrypted(key, data, false),
            CryptMethod::AesV3 => aes_decrypted(key, data, true),
        }
    }
}

/// An object with its strings and stream data decrypted.
pub open spec fn decrypted(c: Cipher, o: ObjectModel, num: u32, gen: u16) -> ObjectModel
    decreases o,
{
    match o {
        ObjectModel::String(s) => ObjectModel::String(decrypted_bytes(c, s, num, gen)),
        ObjectModel::Array(items) => ObjectModel::Array(
            Seq::new(
                items.len(),
                |i: int|
                    if 0 <= i < items.len() {
                        decrypted(c, items[i], num, gen)
                    } else {
                        ObjectModel::Null
                    },
            ),
        ),
        ObjectModel::Dictionary(d) => ObjectModel::Dictionary(decrypted_dict(c, d, num, gen)),
        ObjectModel::Stream(d, raw) => ObjectModel::Stream(
            decrypted_dict(c, d, num, gen),
            decrypted_bytes(c, raw, num, gen),
        ),
        _ => o,
    }
}

pub open spec fn decrypted_dict(c: Cipher, d: DictModel, num: u32, gen: u16) -> DictModel
    decreases d,
{
    Map::new(
        |k: Seq<char>| d.contains_key(k),
        |k: Seq<char>|
            if d.dom().finite() && d.contains_key(k) {
                decrypted(c, d[k], num, gen)
            } else {
                ObjectModel::Null
            },
    )
}

/// Decrypts data behind a start vector of 16 bytes; nothing where that cannot be done.
fn aes_cbc_decrypt_pkcs7(key: &[u8], data: &[u8], aes256: bool) -> (r: Vec<u8>)
    ensures
        r@ == aes_decrypted(key@, data@, aes256),
{
    let plain: Option<Vec<u8>> = if data.len() < 16 {
        None
    } else {
        let iv = slice_subrange(data, 0, 16);
        let rest = slice_subrange(data, 16, data.len());
        assert(iv@ =~= data@.take(16));
        assert(rest@ =~= data@.skip(16));
        if aes256 && key.len() == 32 {
            aes256_unpad(key, iv, rest)
        } else if key.len() == 16 {
            aes128_unpad(key, iv, rest)
        } else {
            None
        }
    };
    match plain {
        Some(out) => out,
        None => {
            let r: Vec<u8> = Vec::new();
            assert(r@ =~= seq![]);
            r
        },
    }
}

} // verus!
