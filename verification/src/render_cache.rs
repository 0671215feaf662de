//! Pages that were drawn, kept for a while: the oldest goes first.
use vstd::prelude::*;
use crate::arith::{product, sum};
use crate::number::{real_of_int, saturate_i64, scaled, Real, RealModel};

verus! {

/// How many pages are kept.
pub const RENDER_CACHE_CAPACITY: usize = 32;

/// A page and the scale that it was drawn at, in thousandths.
pub type RenderCacheKey = (usize, u32);

/// Pages that were drawn, the oldest first.
pub struct RenderCache<T> {
    entries: Vec<(RenderCacheKey, T)>,
}

impl<T> View for RenderCache<T> {
    type V = Seq<(RenderCacheKey, T)>;

    closed spec fn view(&self) -> Seq<(RenderCacheKey, T)> {
        self.entries@
    }
}

/// The first entry from the `i`-th on with a key.
pub open spec fn entry_from<T>(s: Seq<(RenderCacheKey, T)>, key: RenderCacheKey, i: int) -> Option<T>
    decreases s.len() - i,
{
    if i < 0 || i >= s.len() {
        None
    } else if s[i].0 == key {
        Some(s[i].1)
    } else {
        entry_from(s, key, i + 1)
    }
}

/// A scale in thousandths.
pub open spec fn thousandths(scale: RealModel) -> u32 {
    let n = saturate_i64(sum(product(scale, real_of_int(1000)), scaled(5, 1)).truncated());
    if n < 0 {
        0
    } else if n > u32::MAX {
        u32::MAX
    } else {
        n as u32
    }
}

/// The key of a page at a scale.
pub fn cache_key(index: usize, scale: &Real) -> (r: RenderCacheKey)
    ensures
        r == (index, thousandths(scale@)),
{
    let n: i64 = scale.times(&Real::from_int(1000)).plus(&Real::from_scaled(5, 1)).to_int();
    let key: u32 = if n < 0 {
        0
    } else if n > u32::MAX as i64 {
        u32::MAX
    } else {
        n as u32
    };
    (index, key)
}

impl<T> RenderCache<T> {
    /// No more pages are kept than may be.
    pub open spec fn wf(&self) -> bool {
        self@.len() <= RENDER_CACHE_CAPACITY
    }

    /// Keeps nothing yet.
    pub fn new() -> (r: Self)
        ensures
            r.wf(),
            r@ == Seq::<(RenderCacheKey, T)>::empty(),
    {
        let r = RenderCache { entries: Vec::new() };
        assert(r@ =~= Seq::empty());
        r
    }

    /// The page that is kept under a key.
    pub fn get(&self, key: RenderCacheKey) -> (r: Option<&T>)
        ensures
            match r {
                Some(v) => entry_from(self@, key, 0) == Some(*v),
                None => entry_from(self@, key, 0) is None,
            },
    {
        let mut i: usize = 0;
        while i < self.entries.len()
            invariant
                0 <= i <= self.entries@.len(),
                entry_from(self@, key, 0) == entry_from(self@, key, i as int),
            decreases self.entries@.len() - i,
        {
            let e = &self.entries[i];
            if e.0.0 == key.0 && e.0.1 == key.1 {
                return Some(&e.1);
            }
            i += 1;
        }
        None
    }

    /// Keeps a page; where no more may be kept, the oldest goes.
    pub fn put(&mut self, key: RenderCacheKey, page: T)
        requires
            old(self).wf(),
        ensures
            final(self).wf(),
            final(self)@ == (if old(self)@.len() >= RENDER_CACHE_CAPACITY {
                old(self)@.drop_first()
            } else {
                old(self)@
            }).push((key, page)),
    {
        if self.entries.len() >= RENDER_CACHE_CAPACITY {
            self.entries.remove(0);
            assert(self.entries@ =~= old(self)@.drop_first());
        }
        self.entries.push((key, page));
    }

    /// Keeps nothing any more.
    pub fn clear(&mut self)
        ensures
            final(self).wf(),
            final(self)@.len() == 0,
    {
        self.entries = Vec::new();
    }
}

proof fn kept_from<T>(s: Seq<(RenderCacheKey, T)>, key: RenderCacheKey, page: T, i: int)
    requires
        0 <= i <= s.len(),
        entry_from(s, key, i) is None,
    ensures
        entry_from(s.push((key, page)), key, i) == Some(page),
    decreases s.len() - i,
{
    let t = s.push((key, page));
    if i < s.len() {
        assert(t[i] == s[i]);
        kept_from(s, key, page, i + 1);
    } else {
        assert(t[i] == (key, page));
    }
}

/// A page that was not kept is found once it is put in.
pub proof fn what_is_put_in_is_found<T>(s: Seq<(RenderCacheKey, T)>, key: RenderCacheKey, page: T)
    requires
        entry_from(s, key, 0) is None,
    ensures
        entry_from(s.push((key, page)), key, 0) == Some(page),
{
    kept_from(s, key, page, 0);
}

} // verus!
