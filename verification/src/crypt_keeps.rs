//! What encryption changes of objects, and what its keys are made of.
use vstd::prelude::*;
use crate::crypt::{aes128_encrypted, aes128_unpadded, aes256_decrypted, aes256_unpadded, block_digest, cipher, decrypted, decrypted_bytes, decrypted_dict, file_key, filter_method, handler, hash_block, hash_rounds, key_input, key_length, le_bytes, masked, md5_of, md5_rounds, metadata_encrypted, object_key_input, object_key_of, pad_bytes, password_hash, rc4, rc4_rounds, rc4_schedule, rc4_state, rc4_twice, repeated, sha256_of, sha384_of, sha512_of, sum16, up_to, user_check, Cipher, CryptMethod, DecryptError, Handler};
use crate::object::{entry, DictModel, ObjectModel};

verus! {

/// Only strings and the data of streams are decrypted; everything else stays, and everything keeps
/// its place.
pub proof fn only_strings_and_data_change(c: Cipher, o: ObjectModel, num: u32, gen: u16)
    ensures
        !(o is String) && !(o is Array) && !(o is Dictionary) && !(o is Stream) ==> decrypted(
            c,
            o,
            num,
            gen,
        ) == o,
        o is String ==> decrypted(c, o, num, gen) == ObjectModel::String(
            decrypted_bytes(c, o->String_0, num, gen),
        ),
        o is Array ==> decrypted(c, o, num, gen) is Array && decrypted(c, o, num, gen)->Array_0.len()
            == o->Array_0.len() && forall|i: int|
            0 <= i < o->Array_0.len() ==> #[trigger] decrypted(c, o, num, gen)->Array_0[i] == decrypted(
                c,
                o->Array_0[i],
                num,
                gen,
            ),
        o is Stream ==> decrypted(c, o, num, gen) is Stream && decrypted(c, o, num, gen)->Stream_1
            == decrypted_bytes(c, o->Stream_1, num, gen),
{
}

/// A dictionary keeps its names, and each of its entries is decrypted.
pub proof fn dictionaries_keep_their_names(c: Cipher, d: DictModel, num: u32, gen: u16, key: Seq<char>)
    requires
        d.dom().finite(),
    ensures
        decrypted_dict(c, d, num, gen).contains_key(key) == d.contains_key(key),
        d.contains_key(key) ==> decrypted_dict(c, d, num, gen)[key] == decrypted(c, d[key], num, gen),
{
}

/// What RC4 has made of bytes it makes back of them, with the key of the same object.
pub proof fn rc4_is_undone(c: Cipher, data: Seq<u8>, num: u32, gen: u16)
    requires
        c.method == CryptMethod::Rc4,
    ensures
        decrypted_bytes(c, decrypted_bytes(c, data, num, gen), num, gen) == data,
        decrypted_bytes(c, data, num, gen).len() == data.len(),
{
    let key = object_key_of(c, num, gen);
    rc4_twice(key, data);
    if data.len() == 0 {
        assert(data =~= seq![]);
    }
}

/// Without a method data stay, and no data give none.
pub proof fn identity_changes_nothing(c: Cipher, data: Seq<u8>, num: u32, gen: u16)
    ensures
        c.method == CryptMethod::Identity ==> decrypted_bytes(c, data, num, gen) == data,
        data.len() == 0 ==> decrypted_bytes(c, data, num, gen).len() == 0,
{
    if data.len() == 0 {
        assert(data =~= seq![]);
    }
}

/// AES takes the first sixteen bytes for its start and the rest for its data; from version 5 on the
/// key is that of the file.
pub proof fn aes_starts_with_sixteen_bytes(c: Cipher, start: Seq<u8>, rest: Seq<u8>, num: u32, gen: u16, plain: Seq<u8>)
    requires
        start.len() == 16,
        rest.len() > 0,
    ensures
        c.method == CryptMethod::AesV3 && c.v >= 5 && c.key.len() == 32 && aes256_unpadded(
            c.key,
            start,
            rest,
        ) == Some(plain) ==> decrypted_bytes(c, start + rest, num, gen) == plain,
        c.method == CryptMethod::AesV2 && c.v < 5 && object_key_of(c, num, gen).len() == 16
            && aes128_unpadded(object_key_of(c, num, gen), start, rest) == Some(plain)
            ==> decrypted_bytes(c, start + rest, num, gen) == plain,
{
    assert((start + rest).take(16) =~= start);
    assert((start + rest).skip(16) =~= rest);
}

/// The key of an object is made of that of the file, three bytes of its number and two of its
/// generation, the low ones first, and four more for AES.
pub proof fn object_key_has_the_number(c: Cipher, num: u32, gen: u16)
    ensures
        ({
            let s = object_key_input(c, num, gen);
            let n = c.key.len() as int;
            &&& s.len() == n + 5 + if c.method == CryptMethod::AesV2 {
                4int
            } else {
                0
            }
            &&& s.take(n) == c.key
            &&& s[n] + 256 * s[n + 1] + 0x1_0000 * s[n + 2] == num % 0x100_0000
            &&& s[n + 3] + 256 * s[n + 4] == gen
            &&& c.method == CryptMethod::AesV2 ==> s.skip(n + 5) == seq![0x73u8, 0x41, 0x6C, 0x54]
        }),
        c.v >= 5 ==> object_key_of(c, num, gen) == c.key,
        c.v < 5 && md5_of(object_key_input(c, num, gen)).len() == 16 ==> object_key_of(c, num, gen).len()
            == if c.key.len() + 5 < 16 {
            (c.key.len() + 5) as int
        } else {
            16
        },
{
    let s = object_key_input(c, num, gen);
    let n = c.key.len() as int;
    assert(s.take(n) =~= c.key);
    if c.method == CryptMethod::AesV2 {
        assert(s.skip(n + 5) =~= seq![0x73u8, 0x41, 0x6C, 0x54]);
    }
}

/// Four bytes write a number, the low one first.
pub proof fn low_bytes_first(n: int)
    ensures
        le_bytes(n).len() == 4,
        le_bytes(n)[0] + 256 * le_bytes(n)[1] + 0x1_0000 * le_bytes(n)[2] + 0x100_0000 * le_bytes(n)[3]
            == n % 0x1_0000_0000,
{
}

/// The digest of a file key is made of thirty-two bytes, the password and as much of the filling as
/// is needed, and behind them of the owner's entry, the permissions and the identifier.
pub proof fn password_is_filled_up(d: DictModel, h: Handler, id: Seq<u8>, password: Seq<u8>, k: int)
    requires
        h.o.len() == 32,
    ensures
        ({
            let s = key_input(d, h, id, password);
            &&& 0 <= k < 32 && k < password.len() ==> s[k] == password[k]
            &&& password.len() <= k < 32 ==> s[k] == pad_bytes()[k - password.len()]
            &&& 32 <= k < 64 ==> s[k] == h.o[k - 32]
            &&& 64 <= k < 68 ==> s[k] == le_bytes(h.p as int)[k - 64]
            &&& 68 <= k < 68 + id.len() ==> s[k] == id[k - 68]
            &&& s.len() == 68 + id.len() + if h.r >= 4 && entry(d, "EncryptMetadata"@) == Some(
                ObjectModel::Boolean(false),
            ) {
                4int
            } else if h.r >= 4 && !metadata_encrypted(d) {
                4
            } else {
                0
            }
        }),
        entry(d, "EncryptMetadata"@) is None ==> metadata_encrypted(d),
        entry(d, "EncryptMetadata"@) == Some(ObjectModel::Boolean(true)) ==> metadata_encrypted(d),
        entry(d, "EncryptMetadata"@) == Some(ObjectModel::Boolean(false)) ==> !metadata_encrypted(d),
{
}

/// Only the first thirty-two bytes of a password count up to version 4.
pub proof fn long_passwords_are_cut(d: DictModel, h: Handler, id: Seq<u8>, password: Seq<u8>, more: Seq<u8>)
    requires
        password.len() == 32,
    ensures
        key_input(d, h, id, password + more) == key_input(d, h, id, password),
        file_key(d, h, id, password + more) == file_key(d, h, id, password),
{
    assert((password + more + pad_bytes()).take(32) =~= (password + pad_bytes()).take(32));
}

/// Each of the digests but the first is that of the first `n` bytes of the one before it.
pub open spec fn is_digest_chain(s: Seq<Seq<u8>>, n: int) -> bool {
    forall|k: int| 0 < k < s.len() ==> #[trigger] s[k] == md5_of(s[k - 1].take(n))
}

proof fn chain_ends_in_rounds(s: Seq<Seq<u8>>, n: int, k: nat)
    requires
        is_digest_chain(s, n),
        k < s.len(),
    ensures
        s[k as int] == md5_rounds(s[0], n, k),
    decreases k,
{
    if k > 0 {
        chain_ends_in_rounds(s, n, (k - 1) as nat);
    }
}

/// The key of a file is the digest of what it is made of, and from revision 3 on the last of fifty
/// digests behind it, each of the key's length of the one before.
pub proof fn file_key_is_the_last_digest(d: DictModel, h: Handler, id: Seq<u8>, password: Seq<u8>, s: Seq<Seq<u8>>)
    requires
        s.len() == 51,
        s[0] == md5_of(key_input(d, h, id, password)),
        is_digest_chain(s, key_length(d, h.r)),
    ensures
        h.r >= 3 ==> file_key(d, h, id, password) == s[50].take(key_length(d, h.r)),
        h.r < 3 ==> file_key(d, h, id, password) == s[0].take(key_length(d, h.r)),
{
    chain_ends_in_rounds(s, key_length(d, h.r), 50);
}

/// The key of a file has five bytes in revision 2, otherwise as many as its length in bits says, and
/// sixteen at most.
pub proof fn key_has_its_length(d: DictModel, r: i64, bits: int)
    requires
        entry(d, "Length"@) == Some(ObjectModel::Integer(bits)) || (entry(d, "Length"@) is None && bits
            == 40),
        0 <= bits <= i64::MAX,
    ensures
        r == 2 ==> key_length(d, r) == 5,
        r != 2 && bits % 8 == 0 && bits <= 128 ==> 8 * key_length(d, r) == bits,
        r != 2 && bits > 128 ==> key_length(d, r) == 16,
{
}

/// Each of the texts but the first is what RC4 makes of the one before it, with each byte of the
/// key combined with the number of the round.
pub open spec fn is_rc4_chain(s: Seq<Seq<u8>>, key: Seq<u8>) -> bool {
    forall|k: int| 0 < k < s.len() ==> #[trigger] s[k] == rc4(key.map_values(|b: u8| b ^ (k - 1) as u8), s[k
        - 1])
}

proof fn chain_ends_in_rc4_rounds(s: Seq<Seq<u8>>, key: Seq<u8>, k: nat)
    requires
        is_rc4_chain(s, key),
        k < s.len(),
    ensures
        s[k as int] == rc4_rounds(key, s[0], k),
    decreases k,
{
    if k > 0 {
        chain_ends_in_rc4_rounds(s, key, (k - 1) as nat);
        assert(masked(key, (k - 1) as u8) =~= key.map_values(|b: u8| b ^ (k as int - 1) as u8));
    }
}

/// A password is right where the user's entry starts with the filling under the key in revision 2,
/// and with what twenty rounds make of the digest of the filling and the identifier behind it.
pub proof fn check_is_twenty_rounds(h: Handler, key: Seq<u8>, id: Seq<u8>, s: Seq<Seq<u8>>)
    requires
        s.len() == 21,
        s[0] == md5_of(pad_bytes() + id),
        is_rc4_chain(s, key),
    ensures
        h.r != 2 ==> user_check(h, key, id) == s[20],
        h.r == 2 ==> user_check(h, key, id) == rc4(key, pad_bytes()),
{
    chain_ends_in_rc4_rounds(s, key, 20);
}

/// A document up to version 4 is opened where the user's entry starts with the check of its key, and
/// with that key; otherwise the password is wrong.
pub proof fn right_passwords_open(d: DictModel, id: Seq<u8>, password: Seq<u8>, h: Handler)
    requires
        handler(d) == Some(h),
        h.v <= 4,
        key_length(d, h.r) > 0,
    ensures
        ({
            let key = file_key(d, h, id, password);
            let check = user_check(h, key, id);
            &&& cipher(d, id, password) is Ok <==> up_to(h.u, check.len() as int) == check
            &&& cipher(d, id, password) is Ok ==> cipher(d, id, password)->Ok_0.key == key && cipher(
                d,
                id,
                password,
            )->Ok_0.v == h.v
            &&& cipher(d, id, password) is Err ==> cipher(d, id, password)->Err_0
                == DecryptError::WrongPassword
            &&& cipher(d, id, password) is Ok && h.v != 4 ==> cipher(d, id, password)->Ok_0.method
                == CryptMethod::Rc4
        }),
{
}

/// The filters of version 4 by the names of their methods.
pub proof fn methods_have_their_names(d: DictModel, filters: DictModel, f: DictModel, name: Seq<char>, method: Seq<char>)
    requires
        entry(d, "StmF"@) == Some(ObjectModel::Name(name)),
        name != "Identity"@,
        entry(d, "CF"@) == Some(ObjectModel::Dictionary(filters)),
        entry(filters, name) == Some(ObjectModel::Dictionary(f)),
        entry(f, "CFM"@) == Some(ObjectModel::Name(method)),
    ensures
        filter_method(d) == CryptMethod::AesV2 <==> method == "AESV2"@,
        filter_method(d) == CryptMethod::AesV3 <==> method == "AESV3"@,
        filter_method(d) == CryptMethod::Identity <==> method == "None"@,
{
    reveal_strlit("AESV2");
    reveal_strlit("AESV3");
    reveal_strlit("V2");
    reveal_strlit("None");
    assert("AESV2"@.len() == 5 && "AESV3"@.len() == 5 && "AESV2"@[4] == '2' && "AESV3"@[4] == '3');
    assert("V2"@.len() == 2 && "None"@.len() == 4);
}

/// A block is digested in one of three ways, by the remainder of the sum of its first sixteen bytes.
pub proof fn digest_goes_by_the_sum(e: Seq<u8>, n: nat)
    requires
        n < e.len(),
    ensures
        sum16(e, 0) == 0,
        sum16(e, n + 1) == sum16(e, n) + e[n as int],
        sum16(e, 16) % 3 == 0 ==> block_digest(e) == sha256_of(e),
        sum16(e, 16) % 3 == 1 ==> block_digest(e) == sha384_of(e),
        sum16(e, 16) % 3 == 2 ==> block_digest(e) == sha512_of(e),
{
}

/// The block of a round is the password and the digest so far, sixty-four times over, encrypted with
/// the first half of the digest's first thirty-two bytes and started with the second.
pub proof fn block_is_sixty_four_times_over(password: Seq<u8>, k: Seq<u8>, i: int, j: int)
    requires
        0 <= i < 64,
        0 <= j < password.len() + k.len(),
    ensures
        ({
            let piece = password + k;
            let all = repeated(piece, 64);
            &&& all.len() == 64 * piece.len()
            &&& all[i * piece.len() + j] == piece[j]
            &&& hash_block(password, k) == aes128_encrypted(k.take(16), k.subrange(16, 32), all)
        }),
{
    repeated_is(password + k, 64, i, j);
}

proof fn repeated_is(piece: Seq<u8>, n: nat, i: int, j: int)
    requires
        0 <= j < piece.len(),
        0 <= i,
    ensures
        repeated(piece, n).len() == n * piece.len(),
        i < n ==> repeated(piece, n)[i * piece.len() + j] == piece[j],
    decreases n,
{
    let l = piece.len() as int;
    assert((n - 1) * l == n * l - l) by (nonlinear_arith);
    if n > 0 {
        repeated_is(piece, (n - 1) as nat, i, j);
        if i < n - 1 {
            assert(0 <= i * l + j < (n - 1) * l) by (nonlinear_arith)
                requires
                    0 <= i,
                    i + 1 <= n - 1,
                    0 <= j < l,
            ;
        }
    }
}

/// The hardened hash goes on for sixty-four rounds, and from there until the last byte of a block is
/// no more than the number of the round less thirty-two. Up to revision 5 there are no rounds.
pub proof fn hash_ends_with_a_small_byte(r: i64, password: Seq<u8>, salt: Seq<u8>, k: Seq<u8>, round: nat)
    ensures
        ({
            let e = hash_block(password, k);
            let done = round + 1;
            &&& done < 64 ==> hash_rounds(password, k, round) == hash_rounds(
                password,
                block_digest(e),
                done,
            )
            &&& done >= 64 && e.last() <= done - 32 ==> hash_rounds(password, k, round)
                == block_digest(e).take(32)
            &&& done >= 64 && e.last() > done - 32 ==> hash_rounds(password, k, round) == hash_rounds(
                password,
                block_digest(e),
                done,
            )
        }),
        r < 6 ==> password_hash(r, password, salt) == sha256_of(password + salt),
        r >= 6 ==> password_hash(r, password, salt) == hash_rounds(
            password,
            sha256_of(password + salt),
            0,
        ),
{
}

/// A document from version 5 on is opened where the hash of the password with the salt of its check
/// is the start of the user's entry, and its key is under the hash with the other salt.
pub proof fn later_passwords_open(d: DictModel, id: Seq<u8>, password: Seq<u8>, h: Handler, ue: Seq<u8>)
    requires
        handler(d) == Some(h),
        h.v >= 5,
        h.u.len() >= 48,
        ue.len() == 32,
        entry(d, "UE"@) == Some(ObjectModel::String(ue)),
        password.len() <= 127,
    ensures
        cipher(d, id, password) is Ok <==> password_hash(h.r, password, h.u.subrange(32, 40))
            == h.u.take(32),
        cipher(d, id, password) is Ok ==> {
            let c = cipher(d, id, password)->Ok_0;
            &&& c.method == CryptMethod::AesV3
            &&& c.key == aes256_decrypted(
                password_hash(h.r, password, h.u.subrange(40, 48)),
                Seq::new(16, |i: int| 0u8),
                ue,
            )
        },
        cipher(d, id, password) is Err ==> cipher(d, id, password)->Err_0 == DecryptError::WrongPassword,
{
}

/// A byte of RC4 is the byte of the data with that of the key stream laid over it: the entry of the
/// state at the sum of two entries, of which the first is one behind for each byte.
pub proof fn rc4_steps(key: Seq<u8>, data: Seq<u8>, n: nat)
    requires
        n < data.len(),
        key.len() > 0,
    ensures
        rc4(key, data).len() == data.len(),
        ({
            let (s, j) = rc4_state(key, n);
            let (t, k) = rc4_state(key, n + 1);
            let i = ((n + 1) % 256) as int;
            &&& k == (j + s[i]) % 256
            &&& t == s.update(i, s[k]).update(k, s[i])
            &&& rc4(key, data)[n as int] == data[n as int] ^ t[(t[i] + t[k]) % 256]
        }),
        rc4_state(key, 0) == (rc4_schedule(key, 256).0, 0int),
        ({
            let m = n % 256;
            let (s, j) = rc4_schedule(key, m);
            let (t, k) = rc4_schedule(key, m + 1);
            &&& k == (j + s[m as int] + key[m as int % key.len() as int]) % 256
            &&& t == s.update(m as int, s[k]).update(k, s[m as int])
        }),
        forall|i: int| 0 <= i < 256 ==> #[trigger] rc4_schedule(key, 0).0[i] == i,
        rc4_schedule(key, 0).1 == 0,
{
}

} // verus!
