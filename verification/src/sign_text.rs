//! Texts and lengths that signatures are read from.
use vstd::prelude::*;

verus! {

/// Blanks, as Unicode has them.
pub open spec fn blank(c: char) -> bool {
    let n = c as u32;
    9 <= n <= 13 || n == 32 || n == 0x85 || n == 0xA0 || n == 0x1680 || 0x2000 <= n <= 0x200A || n
        == 0x2028 || n == 0x2029 || n == 0x202F || n == 0x205F || n == 0x3000
}

fn is_blank(c: char) -> (r: bool)
    ensures
        r == blank(c),
{
    let n: u32 = c as u32;
    9 <= n && n <= 13 || n == 32 || n == 0x85 || n == 0xA0 || n == 0x1680 || 0x2000 <= n && n
        <= 0x200A || n == 0x2028 || n == 0x2029 || n == 0x202F || n == 0x205F || n == 0x3000
}

/// Where a text starts behind its blanks.
pub open spec fn first_solid(s: Seq<char>, i: int, end: int) -> int
    decreases end - i,
{
    if i < end && blank(s[i]) {
        first_solid(s, i + 1, end)
    } else {
        i
    }
}

/// Where a text ends before its blanks.
pub open spec fn last_solid(s: Seq<char>, start: int, i: int) -> int
    decreases i - start,
{
    if start < i && blank(s[i - 1]) {
        last_solid(s, start, i - 1)
    } else {
        i
    }
}

/// Where the next comma stands, or the end.
pub open spec fn comma_from(s: Seq<char>, i: int) -> int
    decreases s.len() - i,
{
    if 0 <= i < s.len() && s[i] != ',' {
        comma_from(s, i + 1)
    } else {
        i
    }
}

/// What stands behind `CN=` in the part of a text from `start` to `end`, without blanks around
/// the part.
pub open spec fn name_in(s: Seq<char>, start: int, end: int) -> Option<Seq<char>> {
    let a = first_solid(s, start, end);
    let b = last_solid(s, a, end);
    if b - a >= 3 && s[a] == 'C' && s[a + 1] == 'N' && s[a + 2] == '=' {
        Some(s.subrange(a + 3, b))
    } else {
        None
    }
}

/// The name in the first part from `start` on that has one; commas part a text.
pub open spec fn name_from(s: Seq<char>, start: int) -> Option<Seq<char>>
    decreases s.len() - start,
    via name_from_shrinks
{
    if start < 0 || start > s.len() {
        None
    } else {
        let end = comma_from(s, start);
        match name_in(s, start, end) {
            Some(n) => Some(n),
            None => if end < s.len() {
                name_from(s, end + 1)
            } else {
                None
            },
        }
    }
}

proof fn comma_bounds(s: Seq<char>, i: int)
    requires
        0 <= i <= s.len(),
    ensures
        i <= comma_from(s, i) <= s.len(),
    decreases s.len() - i,
{
    if i < s.len() && s[i] != ',' {
        comma_bounds(s, i + 1);
    }
}

#[via_fn]
proof fn name_from_shrinks(s: Seq<char>, start: int) {
    if 0 <= start <= s.len() {
        comma_bounds(s, start);
    }
}

/// The common name in the subject of a certificate.
pub open spec fn common_name(s: Seq<char>) -> Option<Seq<char>> {
    name_from(s, 0)
}

fn text_from(s: &Vec<char>, a: usize, b: usize) -> (r: String)
    requires
        a <= b <= s@.len(),
    ensures
        r@ == s@.subrange(a as int, b as int),
{
    let mut r: String = String::new();
    let mut i: usize = a;
    proof {
        reveal_strlit("");
        assert(r@ =~= s@.subrange(a as int, a as int));
    }
    while i < b
        invariant
            a <= i <= b <= s@.len(),
            r@ == s@.subrange(a as int, i as int),
        decreases b - i,
    {
        r.push(s[i]);
        assert(r@ =~= s@.subrange(a as int, i + 1));
        i += 1;
    }
    r
}

fn chars_of(text: &str) -> (r: Vec<char>)
    ensures
        r@ == text@,
{
    let mut r: Vec<char> = Vec::new();
    for c in it: text.chars()
        invariant
            it.seq() == text@,
            r@ == text@.take(it.index() as int),
    {
        r.push(c);
        assert(r@ =~= text@.take(it.index() + 1));
    }
    assert(r@ =~= text@);
    r
}

fn find_name(s: &Vec<char>, start: usize, end: usize) -> (r: Option<String>)
    requires
        start <= end <= s@.len(),
    ensures
        match r {
            Some(t) => name_in(s@, start as int, end as int) == Some(t@),
            None => name_in(s@, start as int, end as int) is None,
        },
{
    let mut a: usize = start;
    while a < end && is_blank(s[a])
        invariant
            start <= a <= end <= s@.len(),
            first_solid(s@, start as int, end as int) == first_solid(s@, a as int, end as int),
        decreases end - a,
    {
        a += 1;
    }
    let mut b: usize = end;
    while a < b && is_blank(s[b - 1])
        invariant
            a <= b <= end <= s@.len(),
            last_solid(s@, a as int, end as int) == last_solid(s@, a as int, b as int),
        decreases b - a,
    {
        b -= 1;
    }
    if b - a >= 3 && s[a] == 'C' && s[a + 1] == 'N' && s[a + 2] == '=' {
        Some(text_from(s, a + 3, b))
    } else {
        None
    }
}

/// The common name in the subject of a certificate, as it stands behind `CN=`.
pub fn extract_common_name(subject: &str) -> (r: Option<String>)
    ensures
        match r {
            Some(t) => common_name(subject@) == Some(t@),
            None => common_name(subject@) is None,
        },
{
    let s = chars_of(subject);
    let n: usize = s.len();
    let mut start: usize = 0;
    loop
        invariant
            n == s@.len(),
            start <= n,
            s@ == subject@,
            common_name(subject@) == name_from(s@, start as int),
        decreases n - start,
    {
        let mut end: usize = start;
        while end < n && s[end] != ','
            invariant
                start <= end <= n,
                n == s@.len(),
                comma_from(s@, start as int) == comma_from(s@, end as int),
            decreases n - end,
        {
            end += 1;
        }
        match find_name(&s, start, end) {
            Some(t) => {
                return Some(t);
            },
            None => {},
        }
        if end == n {
            return None;
        }
        start = end + 1;
    }
}

/// The number that bytes write, the high one first; what does not fit is dropped.
pub open spec fn size_number(s: Seq<u8>) -> int
    decreases s.len(),
{
    if s.len() == 0 {
        0
    } else {
        (size_number(s.drop_last()) * 256 + s.last()) % (usize::MAX + 1)
    }
}

/// The length of the encoded object at the front of bytes, with its header: a length below 128
/// takes one byte, any other says first how many bytes it takes.
pub open spec fn object_length(d: Seq<u8>) -> Option<int> {
    if d.len() < 2 {
        None
    } else if d[1] < 128 {
        Some(2 + d[1])
    } else {
        let n = d[1] - 128;
        if 2 + n > d.len() {
            None
        } else {
            let total = 2 + n + size_number(d.subrange(2, 2 + n));
            if total > usize::MAX {
                None
            } else {
                Some(total)
            }
        }
    }
}

/// The length of the encoded object at the front of bytes.
pub fn der_object_len(data: &[u8]) -> (r: Option<usize>)
    ensures
        match r {
            Some(n) => object_length(data@) == Some(n as int),
            None => object_length(data@) is None,
        },
{
    if data.len() < 2 {
        return None;
    }
    let first: u8 = data[1];
    if first < 128 {
        return Some(2 + first as usize);
    }
    let n: usize = (first - 128) as usize;
    if n > data.len() - 2 {
        return None;
    }
    let mut len: usize = 0;
    let mut i: usize = 0;
    let ghost s = data@.subrange(2, 2 + n);
    assert(s.take(0) =~= seq![]);
    while i < n
        invariant
            0 <= i <= n,
            n <= 127,
            2 + n <= data@.len(),
            s == data@.subrange(2, 2 + n),
            len == size_number(s.take(i as int)),
        decreases n - i,
    {
        proof {
            let now = s.take(i + 1);
            assert(now.drop_last() =~= s.take(i as int));
            assert(now.last() == data@[2 + i]);
        }
        let wide: u128 = (len as u128 * 256 + data[2 + i] as u128) % (usize::MAX as u128 + 1);
        len = wide as usize;
        i += 1;
    }
    assert(s.take(i as int) =~= s);
    if len > usize::MAX - (2 + n) {
        return None;
    }
    Some(2 + n + len)
}

} // verus!
