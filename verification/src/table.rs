//! Tables keyed by object numbers.
use std::collections::BTreeMap;
use vstd::prelude::*;
use vstd::std_specs::cmp::OrdSpec;
use vstd::std_specs::btree::group_btree_axioms;
use vstd::std_specs::iter::IteratorSpec;

verus! {

/// Numbers in growing order.
pub open spec fn growing(s: Seq<u32>) -> bool {
    forall|i: int, j: int| 0 <= i < j < s.len() ==> #[trigger] s[i] < #[trigger] s[j]
}

/// `s` lists the numbers in `m`, each once and in order.
pub open spec fn lists_numbers<V>(m: Map<u32, V>, s: Seq<u32>) -> bool {
    &&& growing(s)
    &&& forall|n: u32| m.contains_key(n) <==> s.contains(n)
}

/// The numbers in a table, in order.
pub fn numbers<V>(m: &BTreeMap<u32, V>) -> (r: Vec<u32>)
    ensures
        lists_numbers(m@, r@),
{
    broadcast use group_btree_axioms;

    let mut r: Vec<u32> = Vec::new();
    let ghost all = m.keys().remaining().unref();
    for k in it: m.keys()
        invariant
            r@.len() == it.index(),
            it.seq().unref() == all,
            forall|i: int| 0 <= i < r@.len() ==> r@[i] == all[i],
    {
        r.push(*k);
    }
    proof {
        assert(r@ =~= all);
        let refs = m.keys().remaining();
        assert(vstd::laws_cmp::obeys_cmp::<&u32>());
        assert(vstd::std_specs::btree::increasing_seq(refs));
        assert forall|i: int, j: int| 0 <= i < j < all.len() implies #[trigger] all[i]
            < #[trigger] all[j] by {
            assert(OrdSpec::cmp_spec(&refs[i], &refs[j]) is Less);
            assert(*refs[i] == all[i]);
            assert(*refs[j] == all[j]);
        }
        assert forall|n: u32| m@.contains_key(n) <==> all.contains(n) by {
            assert(m@.dom().contains(n) <==> all.to_set().contains(n));
        }
    }
    r
}

/// The numbers in a table, in order.
pub open spec fn number_list<V>(m: Map<u32, V>) -> Seq<u32> {
    choose|s: Seq<u32>| lists_numbers(m, s)
}

/// Two lists of the numbers in one table are the same list.
pub proof fn number_list_unique<V>(m: Map<u32, V>, a: Seq<u32>, b: Seq<u32>)
    requires
        lists_numbers(m, a),
        lists_numbers(m, b),
    ensures
        a == b,
{
    growing_unique(a, b);
}

proof fn growing_unique(a: Seq<u32>, b: Seq<u32>)
    requires
        growing(a),
        growing(b),
        forall|n: u32| a.contains(n) <==> b.contains(n),
    ensures
        a == b,
    decreases a.len(),
{
    if a.len() == 0 {
        if b.len() > 0 {
            assert(b.contains(b[0]));
        }
        assert(a =~= b);
    } else {
        assert(a.contains(a.last()));
        assert(b.len() > 0);
        assert(b.contains(b.last()));
        let i = b.index_of(a.last());
        let j = a.index_of(b.last());
        assert(a.last() == b.last()) by {
            if i < b.len() - 1 {
                assert(b[i] < b[b.len() - 1]);
            }
            if j < a.len() - 1 {
                assert(a[j] < a[a.len() - 1]);
            }
        }
        let c = a.drop_last();
        let d = b.drop_last();
        assert forall|n: u32| c.contains(n) <==> d.contains(n) by {
            if c.contains(n) {
                let k = c.index_of(n);
                assert(a[k] < a[a.len() - 1]);
                assert(a.contains(n));
                let l = b.index_of(n);
                assert(d[l] == n);
            }
            if d.contains(n) {
                let k = d.index_of(n);
                assert(b[k] < b[b.len() - 1]);
                assert(b.contains(n));
                let l = a.index_of(n);
                assert(c[l] == n);
            }
        }
        growing_unique(c, d);
        assert(a =~= c.push(a.last()));
        assert(b =~= d.push(b.last()));
    }
}

/// What stands under a number.
pub fn lookup<V>(m: &BTreeMap<u32, V>, n: u32) -> (r: Option<&V>)
    ensures
        match r {
            Some(v) => m@.contains_key(n) && *v == m@[n],
            None => !m@.contains_key(n),
        },
{
    broadcast use group_btree_axioms;

    m.get(&n)
}

/// Puts `v` under a number, in place of what stood there.
pub fn put<V>(m: &mut BTreeMap<u32, V>, n: u32, v: V)
    ensures
        final(m)@ == old(m)@.insert(n, v),
{
    broadcast use group_btree_axioms;

    m.insert(n, v);
}

/// How many numbers there are.
pub fn count<V>(m: &BTreeMap<u32, V>) -> (r: usize)
    ensures
        r == m@.len(),
        m@.dom().finite(),
{
    broadcast use group_btree_axioms;

    m.len()
}

/// An empty table.
pub fn empty_table<V>() -> (r: BTreeMap<u32, V>)
    ensures
        r@ == Map::<u32, V>::empty(),
{
    BTreeMap::new()
}

/// `n` is the greatest number in the table, or 0 where the table is empty.
pub open spec fn is_greatest<V>(m: Map<u32, V>, n: u32) -> bool {
    &&& forall|k: u32| #[trigger] m.contains_key(k) ==> k <= n
    &&& m.contains_key(n) || n == 0
}

/// The greatest number in a table, or 0 where it is empty.
pub fn greatest<V>(m: &BTreeMap<u32, V>) -> (r: u32)
    ensures
        is_greatest(m@, r),
{
    let all = numbers(m);
    if all.len() == 0 {
        proof {
            assert forall|k: u32| #[trigger] m@.contains_key(k) implies k <= 0 by {
                assert(all@.contains(k));
            }
        }
        return 0;
    }
    let r: u32 = all[all.len() - 1];
    proof {
        assert(all@.contains(r));
        assert forall|k: u32| #[trigger] m@.contains_key(k) implies k <= r by {
            assert(all@.contains(k));
            let i = all@.index_of(k);
            if i < all@.len() - 1 {
                assert(all@[i] < all@[all@.len() - 1]);
            }
        }
    }
    r
}

/// The numbers below `n` in a table, in order.
proof fn listed_below<V>(m: Map<u32, V>, n: nat) -> (s: Seq<u32>)
    requires
        n <= u32::MAX + 1,
    ensures
        growing(s),
        forall|k: u32| s.contains(k) <==> m.contains_key(k) && k < n,
    decreases n,
{
    if n == 0 {
        Seq::empty()
    } else {
        let before = listed_below(m, (n - 1) as nat);
        let last = (n - 1) as u32;
        if m.contains_key(last) {
            let s = before.push(last);
            assert forall|i: int, j: int| 0 <= i < j < s.len() implies #[trigger] s[i] < #[trigger] s[j] by {
                if j == before.len() {
                    assert(before.contains(before[i]));
                }
            }
            assert forall|k: u32| s.contains(k) <==> m.contains_key(k) && k < n by {
                if s.contains(k) {
                    let i = s.index_of(k);
                    if i < before.len() {
                        assert(before.contains(before[i]));
                    }
                }
                if m.contains_key(k) && k < n {
                    if k == last {
                        assert(s[before.len() as int] == k);
                    } else {
                        assert(before.contains(k));
                        let i = before.index_of(k);
                        assert(s[i] == k);
                    }
                }
            }
            s
        } else {
            before
        }
    }
}

/// Every table has a list of its numbers.
pub proof fn number_list_lists<V>(m: Map<u32, V>)
    ensures
        lists_numbers(m, number_list(m)),
{
    let s = listed_below(m, u32::MAX as nat + 1);
    assert(lists_numbers(m, s));
}

} // verus!
