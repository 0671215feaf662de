//! Searching in bytes.
use vstd::prelude::*;

verus! {

/// `needle` stands in `hay` at `i`.
pub open spec fn occurs_at(hay: Seq<u8>, needle: Seq<u8>, i: int) -> bool {
    &&& 0 <= i
    &&& i + needle.len() <= hay.len()
    &&& hay.subrange(i, i + needle.len()) == needle
}

/// `i` is the first place from `from` on where `needle` stands.
pub open spec fn first_at(hay: Seq<u8>, needle: Seq<u8>, from: int, i: int) -> bool {
    &&& from <= i
    &&& occurs_at(hay, needle, i)
    &&& forall|j: int| from <= j < i ==> !#[trigger] occurs_at(hay, needle, j)
}

/// The first place from `from` on where `needle` stands.
pub open spec fn find_from(hay: Seq<u8>, needle: Seq<u8>, from: int) -> Option<int> {
    if exists|i: int| first_at(hay, needle, from, i) {
        Some(choose|i: int| first_at(hay, needle, from, i))
    } else {
        None
    }
}

/// The place that is first is the one that is found.
pub proof fn find_from_is(hay: Seq<u8>, needle: Seq<u8>, from: int, i: int)
    requires
        first_at(hay, needle, from, i),
    ensures
        find_from(hay, needle, from) == Some(i),
{
    let k = choose|k: int| first_at(hay, needle, from, k);
    assert(first_at(hay, needle, from, k));
    if k < i {
        assert(!occurs_at(hay, needle, k));
    } else if i < k {
        assert(!occurs_at(hay, needle, i));
    }
}

/// Where `needle` stands somewhere, it is found.
pub proof fn occurs_is_found(hay: Seq<u8>, needle: Seq<u8>, from: int, i: int)
    requires
        from <= i,
        occurs_at(hay, needle, i),
    ensures
        find_from(hay, needle, from) is Some,
    decreases i - from,
{
    if exists|j: int| from <= j < i && #[trigger] occurs_at(hay, needle, j) {
        let j = choose|j: int| from <= j < i && #[trigger] occurs_at(hay, needle, j);
        occurs_is_found(hay, needle, from, j);
    } else {
        assert(first_at(hay, needle, from, i));
        find_from_is(hay, needle, from, i);
    }
}

/// Where `needle` stands nowhere, nothing is found.
pub proof fn find_from_none(hay: Seq<u8>, needle: Seq<u8>, from: int)
    requires
        forall|j: int| from <= j ==> !#[trigger] occurs_at(hay, needle, j),
    ensures
        find_from(hay, needle, from) is None,
{
}

/// `i` is the last place where `needle` stands.
pub open spec fn last_at(hay: Seq<u8>, needle: Seq<u8>, i: int) -> bool {
    &&& occurs_at(hay, needle, i)
    &&& forall|j: int| i < j ==> !#[trigger] occurs_at(hay, needle, j)
}

/// The last place where `needle` stands.
pub open spec fn find_last(hay: Seq<u8>, needle: Seq<u8>) -> Option<int> {
    if exists|i: int| last_at(hay, needle, i) {
        Some(choose|i: int| last_at(hay, needle, i))
    } else {
        None
    }
}

/// The place that is last is the one that is found.
pub proof fn find_last_is(hay: Seq<u8>, needle: Seq<u8>, i: int)
    requires
        last_at(hay, needle, i),
    ensures
        find_last(hay, needle) == Some(i),
{
    let k = choose|k: int| last_at(hay, needle, k);
    assert(last_at(hay, needle, k));
    if k < i {
        assert(!occurs_at(hay, needle, i));
    } else if i < k {
        assert(!occurs_at(hay, needle, k));
    }
}

/// Whether `needle` stands in `hay` at `i`.
pub fn matches_at(hay: &[u8], needle: &[u8], i: usize) -> (r: bool)
    ensures
        r == occurs_at(hay@, needle@, i as int),
{
    if i > hay.len() || needle.len() > hay.len() - i {
        return false;
    }
    let mut k: usize = 0;
    while k < needle.len()
        invariant
            0 <= k <= needle@.len(),
            i + needle@.len() <= hay@.len(),
            hay@.len() <= usize::MAX,
            forall|j: int| 0 <= j < k ==> hay@[i + j] == needle@[j],
        decreases needle@.len() - k,
    {
        if hay[i + k] != needle[k] {
            proof {
                assert(hay@.subrange(i as int, i + needle@.len())[k as int] == hay@[i + k]);
            }
            return false;
        }
        k += 1;
    }
    assert(hay@.subrange(i as int, i + needle@.len()) =~= needle@);
    true
}

/// The first place from `from` on where `needle` stands.
pub fn find_subslice(hay: &[u8], needle: &[u8], from: usize) -> (r: Option<usize>)
    ensures
        match r {
            Some(i) => find_from(hay@, needle@, from as int) == Some(i as int),
            None => find_from(hay@, needle@, from as int) is None,
        },
        r is Some ==> r->Some_0 + needle@.len() <= hay@.len(),
{
    let mut i: usize = from;
    while i <= hay.len() && needle.len() <= hay.len() - i
        invariant
            from <= i,
            forall|j: int| from <= j < i ==> !#[trigger] occurs_at(hay@, needle@, j),
        decreases hay@.len() + 1 - i,
    {
        if matches_at(hay, needle, i) {
            proof {
                find_from_is(hay@, needle@, from as int, i as int);
            }
            return Some(i);
        }
        if i == hay.len() {
            proof {
                find_from_none(hay@, needle@, from as int);
            }
            return None;
        }
        i += 1;
    }
    proof {
        find_from_none(hay@, needle@, from as int);
    }
    None
}

/// The last place where `needle` stands.
pub fn rfind_subslice(hay: &[u8], needle: &[u8]) -> (r: Option<usize>)
    ensures
        match r {
            Some(i) => find_last(hay@, needle@) == Some(i as int) && occurs_at(
                hay@,
                needle@,
                i as int,
            ),
            None => find_last(hay@, needle@) is None,
        },
{
    if needle.len() > hay.len() {
        return None;
    }
    let mut i: usize = hay.len() - needle.len();
    loop
        invariant
            i + needle@.len() <= hay@.len(),
            forall|j: int| i < j ==> !#[trigger] occurs_at(hay@, needle@, j),
        decreases i,
    {
        if matches_at(hay, needle, i) {
            proof {
                find_last_is(hay@, needle@, i as int);
            }
            return Some(i);
        }
        if i == 0 {
            return None;
        }
        i -= 1;
    }
}

/// The bytes of `d` from `start` to `end`.
pub fn copy_range(d: &[u8], start: usize, end: usize) -> (r: Vec<u8>)
    requires
        start <= end <= d@.len(),
    ensures
        r@ == d@.subrange(start as int, end as int),
{
    let mut r: Vec<u8> = Vec::new();
    r.extend_from_slice(vstd::slice::slice_subrange(d, start, end));
    assert(r@ =~= d@.subrange(start as int, end as int));
    r
}

} // verus!
