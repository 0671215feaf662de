//! Objects written out.
//!
//! Strings are always written in hexadecimal digits, and names with every byte that is not a
//! plain character escaped, so that any bytes can stand in them. The data of a stream are written
//! as they are.
use vstd::prelude::*;
use vstd::utf8::encode_utf8;
use crate::decimal::{decimal, push_decimal, push_signed, signed_decimal};
use crate::object::{entry_keys, key_list_unique, lists_keys, models, sorted_keys, DictModel, Dictionary, Object, ObjectModel};

verus! {

/// A byte that stands for itself in a name: printable, and neither a delimiter nor `#`.
pub open spec fn plain_in_name(b: u8) -> bool {
    0x20 < b < 0x7f && b != 47 && b != 40 && b != 41 && b != 60 && b != 62 && b != 91 && b != 93
        && b != 123 && b != 125 && b != 37 && b != 35
}

/// The upper-case hexadecimal digit of a number below sixteen.
pub open spec fn hex_char(v: int) -> u8 {
    if v < 10 {
        (48 + v) as u8
    } else {
        (55 + v) as u8
    }
}

/// A byte in two hexadecimal digits.
pub open spec fn hex_pair(b: u8) -> Seq<u8> {
    seq![hex_char((b / 16) as int), hex_char((b % 16) as int)]
}

/// Bytes in hexadecimal digits.
pub open spec fn hex_text(s: Seq<u8>) -> Seq<u8>
    decreases s.len(),
{
    if s.len() == 0 {
        seq![]
    } else {
        hex_pair(s[0]) + hex_text(s.drop_first())
    }
}

/// A byte of a name as it is written.
pub open spec fn name_byte(b: u8) -> Seq<u8> {
    if plain_in_name(b) {
        seq![b]
    } else {
        seq![35u8] + hex_pair(b)
    }
}

/// The bytes of a name as they are written.
pub open spec fn escaped(s: Seq<u8>) -> Seq<u8>
    decreases s.len(),
{
    if s.len() == 0 {
        seq![]
    } else {
        name_byte(s[0]) + escaped(s.drop_first())
    }
}

/// A name as it is written.
pub open spec fn name_bytes(name: Seq<char>) -> Seq<u8> {
    seq![47u8] + escaped(encode_utf8(name))
}

/// `null`
pub open spec fn null_word() -> Seq<u8> {
    seq![110u8, 117, 108, 108]
}

/// `true`
pub open spec fn true_word() -> Seq<u8> {
    seq![116u8, 114, 117, 101]
}

/// `false`
pub open spec fn false_word() -> Seq<u8> {
    seq![102u8, 97, 108, 115, 101]
}

/// `stream` on a line of its own.
pub open spec fn stream_line() -> Seq<u8> {
    seq![10u8, 115, 116, 114, 101, 97, 109, 10]
}

/// `endstream` on a new line.
pub open spec fn endstream_line() -> Seq<u8> {
    seq![10u8, 101, 110, 100, 115, 116, 114, 101, 97, 109]
}

/// An object as it is written.
pub open spec fn object_bytes(o: ObjectModel) -> Seq<u8>
    decreases o, 0nat,
{
    match o {
        ObjectModel::Null => null_word(),
        ObjectModel::Boolean(b) => if b {
            true_word()
        } else {
            false_word()
        },
        ObjectModel::Integer(n) => signed_decimal(n),
        ObjectModel::Real(r) => r.text(),
        ObjectModel::String(s) => seq![60u8] + hex_text(s) + seq![62u8],
        ObjectModel::Name(n) => name_bytes(n),
        ObjectModel::Array(items) => seq![91u8] + items_tail(items, 0),
        ObjectModel::Dictionary(d) => dict_bytes(d),
        ObjectModel::Stream(d, raw) => dict_bytes(d) + stream_line() + raw + endstream_line(),
        ObjectModel::Reference(r) => decimal(r.num as nat) + seq![32u8] + decimal(r.gen as nat)
            + seq![32u8, 82],
    }
}

/// The items of an array from the `k`-th on, as they are written, with the bracket that ends it.
pub open spec fn items_tail(items: Seq<ObjectModel>, k: nat) -> Seq<u8>
    decreases items, items.len() - k,
{
    if k >= items.len() {
        seq![93u8]
    } else {
        (if k > 0 {
            seq![32u8]
        } else {
            seq![]
        }) + object_bytes(items[k as int]) + items_tail(items, k + 1)
    }
}

/// A dictionary as it is written: its names in order, each with its value.
pub open spec fn dict_bytes(d: DictModel) -> Seq<u8>
    decreases d, 1 + sorted_keys(d).len(),
{
    seq![60u8, 60] + entries_tail(d, sorted_keys(d), 0)
}

/// The entries of a dictionary from the `k`-th name on, with the brackets that end it.
pub open spec fn entries_tail(d: DictModel, keys: Seq<Seq<char>>, k: nat) -> Seq<u8>
    decreases d, keys.len() - k,
{
    if k >= keys.len() || !d.dom().finite() || !d.contains_key(keys[k as int]) {
        seq![32u8, 62, 62]
    } else {
        seq![32u8] + name_bytes(keys[k as int]) + seq![32u8] + object_bytes(d[keys[k as int]])
            + entries_tail(d, keys, k + 1)
    }
}

proof fn listed_is_finite(d: DictModel, keys: Seq<Seq<char>>)
    requires
        lists_keys(d, keys),
    ensures
        d.dom().finite(),
        sorted_keys(d) == keys,
{
    assert(d.dom() =~= keys.to_set());
    key_list_unique(d, sorted_keys(d), keys);
}

fn hex_digit_char(v: u8) -> (r: u8)
    requires
        v < 16,
    ensures
        r == hex_char(v as int),
{
    if v < 10 {
        48 + v
    } else {
        55 + v
    }
}

fn push_hex_pair(b: u8, out: &mut Vec<u8>)
    ensures
        final(out)@ == old(out)@ + hex_pair(b),
{
    out.push(hex_digit_char(b / 16));
    out.push(hex_digit_char(b % 16));
    assert(out@ =~= old(out)@ + hex_pair(b));
}

/// Writes `name` with its slash.
pub fn write_name(name: &str, out: &mut Vec<u8>)
    ensures
        final(out)@ == old(out)@ + name_bytes(name@),
{
    let ghost goal = out@ + name_bytes(name@);
    let bytes = name.as_bytes();
    out.push(47);
    assert(bytes@.skip(0) =~= bytes@);
    assert(out@ + escaped(bytes@) =~= goal);
    let mut i: usize = 0;
    while i < bytes.len()
        invariant
            0 <= i <= bytes@.len(),
            goal == out@ + escaped(bytes@.skip(i as int)),
        decreases bytes@.len() - i,
    {
        let b: u8 = bytes[i];
        let ghost before = out@;
        if 0x20 < b && b < 0x7f && b != 47 && b != 40 && b != 41 && b != 60 && b != 62 && b != 91
            && b != 93 && b != 123 && b != 125 && b != 37 && b != 35 {
            out.push(b);
        } else {
            out.push(35);
            push_hex_pair(b, out);
        }
        proof {
            assert(out@ =~= before + name_byte(b));
            assert(bytes@.skip(i as int).drop_first() =~= bytes@.skip(i + 1));
            assert(before + (name_byte(b) + escaped(bytes@.skip(i + 1))) =~= out@ + escaped(
                bytes@.skip(i + 1),
            ));
        }
        i += 1;
    }
    assert(out@ + escaped(bytes@.skip(i as int)) =~= out@);
}

/// Writes bytes as a string of hexadecimal digits in angle brackets.
pub fn write_hex_string(bytes: &[u8], out: &mut Vec<u8>)
    ensures
        final(out)@ == old(out)@ + (seq![60u8] + hex_text(bytes@) + seq![62u8]),
{
    let ghost before = out@;
    out.push(60);
    assert(bytes@.skip(0) =~= bytes@);
    let ghost goal = out@ + hex_text(bytes@);
    let mut i: usize = 0;
    while i < bytes.len()
        invariant
            0 <= i <= bytes@.len(),
            goal == out@ + hex_text(bytes@.skip(i as int)),
        decreases bytes@.len() - i,
    {
        let ghost now = out@;
        push_hex_pair(bytes[i], out);
        proof {
            let b = bytes@[i as int];
            assert(bytes@.skip(i as int).drop_first() =~= bytes@.skip(i + 1));
            assert(now + (hex_pair(b) + hex_text(bytes@.skip(i + 1))) =~= out@ + hex_text(
                bytes@.skip(i + 1),
            ));
        }
        i += 1;
    }
    assert(out@ + hex_text(bytes@.skip(i as int)) =~= out@);
    out.push(62);
    assert(out@ =~= before + (seq![60u8] + hex_text(bytes@) + seq![62u8]));
}

/// Writes `obj`.
pub fn write_object(obj: &Object, out: &mut Vec<u8>)
    ensures
        final(out)@ == old(out)@ + object_bytes(obj@),
    decreases obj,
{
    let ghost before = out@;
    match obj {
        Object::Null => {
            let word: [u8; 4] = [110, 117, 108, 108];
            out.extend_from_slice(word.as_slice());
            assert(word@ =~= null_word());
        },
        Object::Boolean(b) => {
            if *b {
                let word: [u8; 4] = [116, 114, 117, 101];
                out.extend_from_slice(word.as_slice());
                assert(word@ =~= true_word());
            } else {
                let word: [u8; 5] = [102, 97, 108, 115, 101];
                out.extend_from_slice(word.as_slice());
                assert(word@ =~= false_word());
            }
        },
        Object::Integer(n) => {
            push_signed(out, *n);
        },
        Object::Real(r) => {
            r.write(out);
        },
        Object::String(s) => {
            write_hex_string(s.as_slice(), out);
        },
        Object::Name(n) => {
            write_name(n.as_str(), out);
        },
        Object::Array(items) => {
            out.push(91);
            let ghost ms = models(items@);
            let ghost goal = before + object_bytes(obj@);
            assert(obj@->Array_0 =~= ms);
            assert(out@ + items_tail(ms, 0) =~= goal);
            let mut i: usize = 0;
            while i < items.len()
                invariant
                    0 <= i <= items@.len(),
                    ms == models(items@),
                    goal == out@ + items_tail(ms, i as nat),
                    decreases_to!(obj => items),
                decreases items@.len() - i,
            {
                let ghost now = out@;
                if i > 0 {
                    out.push(32);
                }
                write_object(&items[i], out);
                proof {
                    let space = if i > 0 {
                        seq![32u8]
                    } else {
                        seq![]
                    };
                    assert(ms[i as int] == items@[i as int]@);
                    assert(out@ =~= now + space + object_bytes(ms[i as int]));
                    assert(now + (space + object_bytes(ms[i as int]) + items_tail(
                        ms,
                        (i + 1) as nat,
                    )) =~= out@ + items_tail(ms, (i + 1) as nat));
                }
                i += 1;
            }
            out.push(93);
            assert(out@ =~= goal);
        },
        Object::Dictionary(dict) => {
            write_dictionary(dict, out);
        },
        Object::Stream(stream) => {
            write_dictionary(&stream.dict, out);
            let start: [u8; 8] = [10, 115, 116, 114, 101, 97, 109, 10];
            out.extend_from_slice(start.as_slice());
            out.extend_from_slice(stream.raw_data.as_slice());
            let end: [u8; 10] = [10, 101, 110, 100, 115, 116, 114, 101, 97, 109];
            out.extend_from_slice(end.as_slice());
            assert(start@ =~= stream_line());
            assert(end@ =~= endstream_line());
            assert(out@ =~= before + object_bytes(obj@));
        },
        Object::Reference(r) => {
            push_decimal(out, r.num as u64);
            out.push(32);
            push_decimal(out, r.gen as u64);
            out.push(32);
            out.push(82);
            assert(out@ =~= before + object_bytes(obj@));
        },
    }
}

fn write_dictionary(dict: &Dictionary, out: &mut Vec<u8>)
    ensures
        final(out)@ == old(out)@ + dict_bytes(dict@),
    decreases dict,
{
    let ghost before = out@;
    let ghost goal = out@ + dict_bytes(dict@);
    let entries = dict.iter();
    let ghost d = dict@;
    let ghost keys = entry_keys(entries@);
    proof {
        listed_is_finite(d, keys);
    }
    out.push(60);
    out.push(60);
    assert(out@ + entries_tail(d, keys, 0) =~= goal);
    let mut i: usize = 0;
    while i < entries.len()
        invariant
            0 <= i <= entries@.len(),
            lists_keys(d, keys),
            d.dom().finite(),
            keys == entry_keys(entries@),
            forall|j: int|
                0 <= j < entries@.len() ==> (#[trigger] entries@[j]).1@ == d[entries@[j].0@],
            forall|j: int|
                0 <= j < entries@.len() ==> decreases_to!(dict => (#[trigger] entries@[j]).1),
            goal == out@ + entries_tail(d, keys, i as nat),
        decreases entries@.len() - i,
    {
        let ghost now = out@;
        let entry = &entries[i];
        out.push(32);
        write_name(entry.0.as_str(), out);
        out.push(32);
        write_object(&entry.1, out);
        proof {
            let k = keys[i as int];
            assert(k == entry.0@);
            assert(keys.contains(k));
            let line = seq![32u8] + name_bytes(k) + seq![32u8] + object_bytes(d[k]);
            assert(out@ =~= now + line);
            assert(now + (line + entries_tail(d, keys, (i + 1) as nat)) =~= out@ + entries_tail(
                d,
                keys,
                (i + 1) as nat,
            ));
        }
        i += 1;
    }
    out.push(32);
    out.push(62);
    out.push(62);
    assert(out@ =~= goal);
}

/// ` obj` at the end of a line.
pub open spec fn obj_line() -> Seq<u8> {
    seq![32u8, 111, 98, 106, 10]
}

/// `endobj` on a line of its own.
pub open spec fn endobj_line() -> Seq<u8> {
    seq![10u8, 101, 110, 100, 111, 98, 106, 10]
}

/// An indirect object as it is written.
pub open spec fn indirect_bytes(num: u32, gen: u16, o: ObjectModel) -> Seq<u8> {
    decimal(num as nat) + seq![32u8] + decimal(gen as nat) + obj_line() + object_bytes(o)
        + endobj_line()
}

/// Writes the indirect object `num gen obj ... endobj`.
pub fn write_indirect_object(num: u32, gen: u16, obj: &Object, out: &mut Vec<u8>)
    ensures
        final(out)@ == old(out)@ + indirect_bytes(num, gen, obj@),
{
    let ghost before = out@;
    push_decimal(out, num as u64);
    out.push(32);
    push_decimal(out, gen as u64);
    let start: [u8; 5] = [32, 111, 98, 106, 10];
    out.extend_from_slice(start.as_slice());
    write_object(obj, out);
    let end: [u8; 8] = [10, 101, 110, 100, 111, 98, 106, 10];
    out.extend_from_slice(end.as_slice());
    assert(start@ =~= obj_line());
    assert(end@ =~= endobj_line());
    assert(out@ =~= before + indirect_bytes(num, gen, obj@));
}

} // verus!
