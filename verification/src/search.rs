//! Search in texts without regard to case and accents.
use vstd::prelude::*;
use crate::page_text::folded;
use crate::widths::{accent_base, small, winansi_accent_base};

verus! {

/// A character without its accent, as far as it is a Latin letter of one byte, and without regard
/// to its case.
pub open spec fn plain(c: char) -> char {
    if 0xC0 <= c as u32 <= 0xFF && accent_base(c as u8) is Some {
        small(accent_base(c as u8)->0) as char
    } else {
        folded(c)
    }
}

/// A query stands in a text at `i`.
pub open spec fn stands_plain(text: Seq<char>, query: Seq<char>, i: int) -> bool {
    &&& 0 <= i
    &&& i + query.len() <= text.len()
    &&& forall|j: int| 0 <= j < query.len() ==> plain(#[trigger] text[i + j]) == plain(query[j])
}

/// A text contains a query.
pub open spec fn contains_text(text: Seq<char>, query: Seq<char>) -> bool {
    exists|i: int| stands_plain(text, query, i)
}

fn plain_char(c: char) -> (r: char)
    ensures
        r == plain(c),
{
    let n: u32 = c as u32;
    if 0xC0 <= n && n <= 0xFF {
        match winansi_accent_base(n as u8) {
            Some(b) => {
                let lower: u8 = if 65 <= b && b <= 90 {
                    b + 32
                } else {
                    b
                };
                return lower as char;
            },
            None => {},
        }
    }
    if 'A' <= c && c <= 'Z' {
        let b: u8 = c as u8;
        (b + 32) as char
    } else {
        c
    }
}

fn plain_chars(text: &str) -> (r: Vec<char>)
    ensures
        r@.len() == text@.len(),
        forall|i: int| 0 <= i < r@.len() ==> #[trigger] r@[i] == plain(text@[i]),
{
    let mut r: Vec<char> = Vec::new();
    for c in it: text.chars()
        invariant
            it.seq() == text@,
            r@.len() == it.index(),
            forall|i: int| 0 <= i < r@.len() ==> #[trigger] r@[i] == plain(text@[i]),
    {
        r.push(plain_char(c));
    }
    r
}

/// Whether a text contains a query, without regard to case and accents.
pub fn text_contains(text: &str, query: &str) -> (r: bool)
    ensures
        r == contains_text(text@, query@),
{
    let t = plain_chars(text);
    let q = plain_chars(query);
    let n: usize = t.len();
    let m: usize = q.len();
    let mut i: usize = 0;
    while i <= n && m <= n - i
        invariant
            n == t@.len(),
            m == q@.len(),
            n == text@.len(),
            m == query@.len(),
            i <= n + 1,
            n < usize::MAX || i <= n,
            forall|k: int| 0 <= k < n ==> #[trigger] t@[k] == plain(text@[k]),
            forall|k: int| 0 <= k < m ==> #[trigger] q@[k] == plain(query@[k]),
            forall|k: int| 0 <= k < i ==> !#[trigger] stands_plain(text@, query@, k),
        decreases n + 1 - i,
    {
        let mut j: usize = 0;
        while j < m && t[i + j] == q[j]
            invariant
                n == t@.len(),
                m == q@.len(),
                n == text@.len(),
                m == query@.len(),
                i + m <= n,
                0 <= j <= m,
                forall|k: int| 0 <= k < n ==> #[trigger] t@[k] == plain(text@[k]),
                forall|k: int| 0 <= k < m ==> #[trigger] q@[k] == plain(query@[k]),
                forall|k: int| 0 <= k < j ==> plain(#[trigger] text@[i + k]) == plain(query@[k]),
            decreases m - j,
        {
            assert(t@[i + j] == plain(text@[i + j]));
            assert(q@[j as int] == plain(query@[j as int]));
            j += 1;
        }
        if j == m {
            assert(stands_plain(text@, query@, i as int));
            return true;
        }
        proof {
            assert(t@[i + j] == plain(text@[i + j]));
            assert(q@[j as int] == plain(query@[j as int]));
            assert(plain(text@[i + j]) != plain(query@[j as int]));
        }
        if i == n {
            proof {
                assert forall|k: int| !stands_plain(text@, query@, k) by {
                    if k > i {
                        assert(k + query@.len() > text@.len());
                    }
                }
            }
            return false;
        }
        i += 1;
    }
    proof {
        assert forall|k: int| !stands_plain(text@, query@, k) by {
            if 0 <= k < i {
                assert(!stands_plain(text@, query@, k));
            } else if k >= i {
                assert(k + query@.len() > text@.len());
            }
        }
    }
    false
}

} // verus!
