//! Sets of references, to mark what was visited.
use std::collections::HashSet;
use vstd::prelude::*;
use vstd::set_lib::{lemma_int_range, lemma_len_subset, set_int_range};
use vstd::std_specs::hash::group_hash_axioms;
use crate::object::ObjRef;

verus! {

/// A reference as one number.
pub open spec fn code(r: ObjRef) -> int {
    r.num * 0x1_0000 + r.gen
}

/// The reference with a number.
pub open spec fn decode(x: int) -> ObjRef {
    ObjRef { num: (x / 0x1_0000) as u32, gen: (x % 0x1_0000) as u16 }
}

/// The numbers of the references that are not in a set.
pub open spec fn rest(s: Set<ObjRef>) -> Set<int> {
    set_int_range(0, 0x1_0000_0000_0000).filter(|x: int| !s.contains(decode(x)))
}

/// How many references are not in a set.
pub open spec fn unmarked(s: Set<ObjRef>) -> nat {
    rest(s).len()
}

pub proof fn rest_is_finite(s: Set<ObjRef>)
    ensures
        rest(s).finite(),
{
    lemma_int_range(0, 0x1_0000_0000_0000);
    assert(rest(s).subset_of(set_int_range(0, 0x1_0000_0000_0000)));
}

/// A reference more leaves fewer.
pub proof fn mark_shrinks(s: Set<ObjRef>, r: ObjRef)
    requires
        !s.contains(r),
    ensures
        unmarked(s.insert(r)) < unmarked(s),
{
    rest_is_finite(s);
    let x = code(r);
    assert(decode(x) == r);
    assert(rest(s).contains(x));
    assert(rest(s.insert(r)) =~= rest(s).remove(x)) by {
        assert forall|y: int| rest(s.insert(r)).contains(y) <==> rest(s).remove(x).contains(y) by {
            if 0 <= y < 0x1_0000_0000_0000 && decode(y) == r {
                assert(y == x) by {
                    assert(y / 0x1_0000 == r.num);
                    assert(y % 0x1_0000 == r.gen);
                }
            }
        }
    }
}

/// A greater set leaves no more.
pub proof fn marks_shrink(s: Set<ObjRef>, t: Set<ObjRef>)
    requires
        s.subset_of(t),
    ensures
        unmarked(t) <= unmarked(s),
{
    rest_is_finite(s);
    assert(rest(t).subset_of(rest(s)));
    lemma_len_subset(rest(t), rest(s));
}

/// A set of references.
pub struct RefSet {
    codes: HashSet<u64>,
}

impl View for RefSet {
    type V = Set<ObjRef>;

    closed spec fn view(&self) -> Set<ObjRef> {
        Set::new(|r: ObjRef| self.codes@.contains(code(r) as u64))
    }
}

fn to_code(r: ObjRef) -> (x: u64)
    ensures
        x == code(r),
{
    r.num as u64 * 0x1_0000 + r.gen as u64
}

impl RefSet {
    pub fn new() -> (r: Self)
        ensures
            r@ == Set::<ObjRef>::empty(),
    {
        let r = RefSet { codes: HashSet::new() };
        assert(r@ =~= Set::empty());
        r
    }

    /// Puts a reference in; whether it is new.
    pub fn insert(&mut self, r: ObjRef) -> (new: bool)
        ensures
            final(self)@ == old(self)@.insert(r),
            new == !old(self)@.contains(r),
    {
        broadcast use group_hash_axioms;

        let ghost before = self@;
        let x: u64 = to_code(r);
        let new = self.codes.insert(x);
        proof {
            assert forall|s: ObjRef| self@.contains(s) <==> before.insert(r).contains(s) by {
                if code(s) == code(r) {
                    assert(s == r);
                }
            }
            assert(self@ =~= before.insert(r));
        }
        new
    }
}

} // verus!
