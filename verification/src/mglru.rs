//! Multi-tier ("generational") LRU cache.
//!
//! An ordered sequence of single-tier caches of equal capacity. New values
//! enter tier 0; a value evicted from tier `i` cascades into tier `i + 1`,
//! and only what the last tier evicts is dropped. A touched value is
//! promoted all the way back to the front of tier 0. The abstract state is
//! the flattened traversal: tier 0's values in recency order, then tier
//! 1's, and so on, available as the view `self@`.

use vstd::prelude::*;
use vstd::seq_lib::lemma_flatten_concat;

use crate::lru::LRUCache;
use crate::lru::lru_step;
use crate::lru::no_match_upto;
use crate::lru::promote;

verus! {

/// Multi-tier cache: `LRU_N` tiers of capacity `LRU_CAP` each, and the
/// number of values currently held anywhere in the structure.
pub struct MGLRU<T, const LRU_N: usize, const LRU_CAP: usize> {
    lrus: Vec<LRUCache<T, LRU_CAP>>,
    length: usize,
}

/// The views of a sequence of tiers.
pub(crate) closed spec fn views_of<T, const C: usize>(s: Seq<LRUCache<T, C>>) -> Seq<Seq<T>> {
    s.map_values(|c: LRUCache<T, C>| c@)
}

/// The flattened traversal of a sequence of tiers.
pub(crate) closed spec fn flat_of<T, const C: usize>(s: Seq<LRUCache<T, C>>) -> Seq<T> {
    views_of(s).flatten()
}

/// The flattened traversal of the first `n` tiers.
pub(crate) closed spec fn flat_pre<T, const C: usize>(s: Seq<LRUCache<T, C>>, n: int) -> Seq<T> {
    views_of(s.take(n)).flatten()
}

/// The flattened traversal splits around any tier boundary.
proof fn lemma_flat_split<T, const C: usize>(s: Seq<LRUCache<T, C>>, n: int)
    requires
        0 <= n <= s.len(),
    ensures
        flat_of(s) == flat_pre(s, n) + flat_of(s.skip(n)),
{
    assert(views_of(s) =~= views_of(s.take(n)) + views_of(s.skip(n)));
    lemma_flatten_concat(views_of(s.take(n)), views_of(s.skip(n)));
}

/// Extending a tier prefix by one tier appends that tier's traversal.
proof fn lemma_flat_pre_step<T, const C: usize>(s: Seq<LRUCache<T, C>>, n: int)
    requires
        0 <= n < s.len(),
    ensures
        flat_pre(s, n + 1) == flat_pre(s, n) + s[n]@,
{
    assert(views_of(s.take(n + 1)) =~= views_of(s.take(n)).push(s[n]@));
    views_of(s.take(n)).lemma_flatten_push(s[n]@);
}

/// A prefix of `n` full tiers holds `n * c` values.
proof fn lemma_flat_pre_len_full<T, const C: usize>(s: Seq<LRUCache<T, C>>, n: int, c: int)
    requires
        0 <= n <= s.len(),
        forall|k: int| 0 <= k < n ==> (#[trigger] s[k])@.len() == c,
    ensures
        flat_pre(s, n).len() == n * c,
    decreases n,
{
    if n == 0 {
        assert(views_of(s.take(0)) =~= Seq::<Seq<T>>::empty());
        assert(flat_pre(s, 0).len() == 0);
    } else {
        lemma_flat_pre_len_full(s, n - 1, c);
        lemma_flat_pre_step(s, n - 1);
        assert((n - 1) * c + c == n * c) by (nonlinear_arith);
    }
}

/// No sequence of tiers of capacity `c` holds more than `c` values per
/// tier in its flattened traversal.
proof fn lemma_flat_len_bound<T, const C: usize>(s: Seq<LRUCache<T, C>>, c: int)
    requires
        forall|k: int| 0 <= k < s.len() ==> (#[trigger] s[k])@.len() <= c,
        0 <= c,
    ensures
        flat_of(s).len() <= s.len() * c,
    decreases s.len(),
{
    if s.len() == 0 {
        assert(views_of(s) =~= Seq::<Seq<T>>::empty());
    } else {
        let n = s.len() - 1;
        lemma_flat_split(s, n);
        lemma_flat_len_bound(s.take(n), c);
        assert(views_of(s.skip(n)) =~= seq![s[n]@]);
        seq![s[n]@].lemma_flatten_one_element();
        assert(flat_of(s.skip(n)) == s[n]@);
        assert((s.len() - 1) * c + c == s.len() * c) by (nonlinear_arith);
    }
}

impl<T, const LRU_N: usize, const LRU_CAP: usize> View for MGLRU<T, LRU_N, LRU_CAP> {
    type V = Seq<T>;

    /// The flattened traversal: every stored value, tier by tier, and
    /// within a tier from most- to least-recently-used.
    closed spec fn view(&self) -> Seq<T> {
        flat_of(self.lrus@)
    }
}

impl<T, const LRU_N: usize, const LRU_CAP: usize> MGLRU<T, LRU_N, LRU_CAP> {
    /// The traversal of one tier.
    pub closed spec fn tier(self, i: int) -> Seq<T> {
        self.lrus@[i]@
    }

    /// Every tier is a well-formed cache and `length` counts the values
    /// held anywhere.
    pub(crate) closed spec fn basic_wf(self) -> bool {
        &&& 0 < LRU_N
        &&& 0 < LRU_CAP < usize::MAX
        &&& LRU_N * LRU_CAP <= usize::MAX
        &&& self.lrus@.len() == LRU_N
        &&& forall|i: int| 0 <= i < LRU_N ==> (#[trigger] self.lrus@[i]).wf()
        &&& self.length == flat_of(self.lrus@).len()
    }

    /// Values pack towards the young tiers: a tier holds a value only when
    /// every younger tier is full.
    pub(crate) closed spec fn packed(self) -> bool {
        forall|i: int, j: int|
            0 <= i < j < LRU_N && (#[trigger] self.lrus@[j])@.len() > 0 ==> (
            #[trigger] self.lrus@[i])@.len() == LRU_CAP
    }

    /// Internal invariant.
    pub closed spec fn wf(self) -> bool {
        self.basic_wf() && self.packed()
    }
}

/// Tiers that are all empty flatten to the empty traversal.
proof fn lemma_flat_all_empty<T, const C: usize>(s: Seq<LRUCache<T, C>>)
    requires
        forall|k: int| 0 <= k < s.len() ==> (#[trigger] s[k])@.len() == 0,
    ensures
        flat_of(s).len() == 0,
{
    lemma_flat_pre_len_full(s, s.len() as int, 0);
    assert(s.take(s.len() as int) =~= s);
}

impl<T: Copy, const LRU_N: usize, const LRU_CAP: usize> MGLRU<T, LRU_N, LRU_CAP> {
    /// Builds an empty multi-tier cache. There must be at least one tier,
    /// the per-tier capacity must be positive and fit the slot-index
    /// representation, and the total capacity must fit `usize`.
    pub fn new() -> (r: Self)
        requires
            0 < LRU_N,
            0 < LRU_CAP < usize::MAX,
            LRU_N * LRU_CAP <= usize::MAX,
        ensures
            r.wf(),
            r@ == Seq::<T>::empty(),
    {
        let mut lrus: Vec<LRUCache<T, LRU_CAP>> = Vec::with_capacity(LRU_N);
        while lrus.len() < LRU_N
            invariant
                lrus@.len() <= LRU_N,
                forall|i: int|
                    0 <= i < lrus@.len() ==> (#[trigger] lrus@[i]).wf() && lrus@[i]@.len() == 0,
                0 < LRU_CAP < usize::MAX,
            decreases LRU_N - lrus@.len(),
        {
            lrus.push(LRUCache::new());
        }
        let r = Self { lrus, length: 0 };
        proof {
            lemma_flat_all_empty(r.lrus@);
            assert(r@ =~= Seq::<T>::empty());
        }
        r
    }

    /// Number of values held anywhere in the structure.
    pub fn len(&self) -> (r: usize)
        requires
            self.wf(),
        ensures
            r == self@.len(),
    {
        self.length
    }

    /// Empties every tier. Safe on an already-empty structure.
    pub fn clear(&mut self)
        requires
            old(self).wf(),
        ensures
            final(self).wf(),
            final(self)@ == Seq::<T>::empty(),
    {
        let mut i: usize = 0;
        while i < LRU_N
            invariant
                i <= LRU_N,
                self.lrus@.len() == LRU_N,
                0 < LRU_N,
                0 < LRU_CAP < usize::MAX,
                LRU_N * LRU_CAP <= usize::MAX,
                forall|k: int| 0 <= k < LRU_N ==> (#[trigger] self.lrus@[k]).wf(),
                forall|k: int| 0 <= k < i ==> (#[trigger] self.lrus@[k])@.len() == 0,
            decreases LRU_N - i,
        {
            let tier = &mut self.lrus[i];
            tier.clear();
            i = i + 1;
        }
        self.length = 0;
        proof {
            lemma_flat_all_empty(self.lrus@);
            assert(self@ =~= Seq::<T>::empty());
        }
    }
}

impl<T: Copy, const LRU_N: usize, const LRU_CAP: usize> MGLRU<T, LRU_N, LRU_CAP> {
    /// Pushes `val` into tier 0 and lets each tier's eviction cascade into
    /// the next tier; what the last tier evicts, if anything, is returned.
    /// Exactly one tier grows (the first one with room), or none when
    /// every tier is full.
    fn cascade(&mut self, val: T) -> (evicted: Option<T>)
        requires
            old(self).basic_wf(),
        ensures
            final(self).basic_wf(),
            match evicted {
                None => {
                    &&& final(self)@ == seq![val] + old(self)@
                    &&& old(self)@.len() < LRU_N * LRU_CAP
                    &&& exists|m: int|
                        0 <= m < LRU_N && (forall|k: int|
                            0 <= k < m ==> (#[trigger] old(self).lrus@[k])@.len() == LRU_CAP
                                && final(self).lrus@[k]@.len() == LRU_CAP) && (
                        #[trigger] old(self).lrus@[m])@.len() < LRU_CAP
                            && final(self).lrus@[m]@.len() == old(self).lrus@[m]@.len() + 1 && (
                        forall|k: int|
                            m < k < LRU_N ==> final(self).lrus@[k] == old(self).lrus@[k])
                },
                Some(e) => {
                    &&& final(self)@ == (seq![val] + old(self)@).drop_last()
                    &&& e == old(self)@.last()
                    &&& old(self)@.len() == LRU_N * LRU_CAP
                    &&& forall|k: int|
                        0 <= k < LRU_N ==> (#[trigger] final(self).lrus@[k])@.len() == LRU_CAP
                            && old(self).lrus@[k]@.len() == LRU_CAP
                },
            },
    {
        let ghost s0 = old(self).lrus@;
        proof {
            assert(s0 == old(self).lrus@);
        }
        let mut carry = val;
        let mut i: usize = 0;
        loop
            invariant
                i <= LRU_N,
                self.lrus@.len() == LRU_N,
                0 < LRU_N,
                0 < LRU_CAP < usize::MAX,
                LRU_N * LRU_CAP <= usize::MAX,
                s0 == old(self).lrus@,
                s0.len() == LRU_N,
                forall|k: int| 0 <= k < LRU_N ==> (#[trigger] self.lrus@[k]).wf(),
                forall|k: int| 0 <= k < LRU_N ==> (#[trigger] s0[k]).wf(),
                forall|k: int| i <= k < LRU_N ==> self.lrus@[k] == s0[k],
                forall|k: int| 0 <= k < i ==> (#[trigger] self.lrus@[k])@.len() == LRU_CAP,
                forall|k: int| 0 <= k < i ==> (#[trigger] s0[k])@.len() == LRU_CAP,
                flat_pre(self.lrus@, i as int) + seq![carry] == seq![val] + flat_pre(
                    s0,
                    i as int,
                ),
                self.length == old(self).length,
                self.length == flat_of(s0).len(),
            decreases LRU_N - i,
        {
            if i == LRU_N {
                proof {
                    assert(self.lrus@.take(LRU_N as int) =~= self.lrus@);
                    assert(s0.take(LRU_N as int) =~= s0);
                    lemma_flat_pre_len_full(s0, LRU_N as int, LRU_CAP as int);
                    assert(LRU_N * LRU_CAP >= 1) by (nonlinear_arith)
                        requires
                            LRU_N >= 1 && LRU_CAP >= 1,
                    ;
                    assert(flat_of(self.lrus@) + seq![carry] == seq![val] + flat_of(s0));
                    assert(flat_of(self.lrus@) =~= (seq![val] + flat_of(s0)).drop_last());
                    assert(carry == (seq![val] + flat_of(s0)).last());
                    assert((seq![val] + flat_of(s0)).last() == flat_of(s0).last());
                }
                return Some(carry);
            }
            let ghost s_cur = self.lrus@;
            let tier = &mut self.lrus[i];
            let ghost t_pre = tier@;
            proof {
                tier.lemma_len_bounded();
            }
            let ev = tier.insert(carry);
            proof {
                assert(self.lrus@ == s_cur.update(i as int, self.lrus@[i as int]));
                assert(self.lrus@.take(i as int) =~= s_cur.take(i as int));
                assert(flat_pre(self.lrus@, i as int) == flat_pre(s_cur, i as int));
                assert(self.lrus@.skip(i + 1) =~= s_cur.skip(i + 1));
                assert(s_cur.skip(i + 1) =~= s0.skip(i + 1));
                assert(s0[i as int]@ == t_pre);
            }
            match ev {
                None => {
                    proof {
                        let s_new = self.lrus@;
                        let t_new = s_new[i as int]@;
                        assert(t_new == seq![carry] + t_pre);
                        // the whole traversal around tier i, before and after
                        lemma_flat_split(s_new, i as int);
                        lemma_flat_pre_step(s_new, i as int);
                        lemma_flat_split(s_new, i + 1);
                        lemma_flat_split(s0, i as int);
                        lemma_flat_pre_step(s0, i as int);
                        lemma_flat_split(s0, i + 1);
                        assert(flat_of(s_new) == flat_pre(s_new, i + 1) + flat_of(
                            s_new.skip(i + 1),
                        ));
                        assert(flat_of(s_new.skip(i + 1)) == flat_of(s0.skip(i + 1)));
                        assert(flat_of(s_new) =~= (flat_pre(s_cur, i as int) + seq![carry]) + (
                        t_pre + flat_of(s0.skip(i + 1))));
                        assert(seq![val] + flat_of(s0) =~= (seq![val] + flat_pre(s0, i as int)) + (
                        t_pre + flat_of(s0.skip(i + 1))));
                        assert(flat_of(s_new) == seq![val] + flat_of(s0));
                        // strictly under total capacity before the insert
                        lemma_flat_pre_len_full(s0, i as int, LRU_CAP as int);
                        assert forall|k: int| 0 <= k < s0.skip(i + 1).len() implies (
                        #[trigger] s0.skip(i + 1)[k])@.len() <= LRU_CAP by {
                            assert(s0.skip(i + 1)[k] == s0[i + 1 + k]);
                            s0[i + 1 + k].lemma_len_bounded();
                        }
                        lemma_flat_len_bound(s0.skip(i + 1), LRU_CAP as int);
                        assert(flat_of(s0).len() <= i * LRU_CAP + (LRU_CAP - 1) + (LRU_N - i - 1)
                            * LRU_CAP);
                        assert(i * LRU_CAP + (LRU_CAP - 1) + (LRU_N - i - 1) * LRU_CAP == LRU_N
                            * LRU_CAP - 1) by (nonlinear_arith);
                    }
                    self.length = self.length + 1;
                    proof {
                        let m = i as int;
                        assert((s0[m])@.len() < LRU_CAP && self.lrus@[m]@.len() == s0[m]@.len()
                            + 1);
                        assert forall|k: int| 0 <= k < m implies (#[trigger] s0[k])@.len()
                            == LRU_CAP && self.lrus@[k]@.len() == LRU_CAP by {}
                        assert forall|k: int| m < k < LRU_N implies self.lrus@[k] == s0[k] by {
                            assert(self.lrus@[k] == s_cur[k]);
                        }
                        assert(self@ == seq![val] + flat_of(s0));
                        assert(self.basic_wf());
                        assert(flat_of(s0).len() < LRU_N * LRU_CAP);
                    }
                    return None;
                },
                Some(e) => {
                    proof {
                        let s_new = self.lrus@;
                        let t_new = s_new[i as int]@;
                        assert(t_pre.len() == LRU_CAP);
                        assert(t_new == (seq![carry] + t_pre).take(LRU_CAP as int));
                        assert(e == t_pre.last());
                        lemma_flat_pre_step(s_new, i as int);
                        lemma_flat_pre_step(s0, i as int);
                        assert(t_new + seq![e] =~= seq![carry] + t_pre);
                        assert(flat_pre(s_new, i + 1) + seq![e] =~= (flat_pre(s_cur, i as int)
                            + seq![carry]) + t_pre);
                        assert(seq![val] + flat_pre(s0, i + 1) =~= (seq![val] + flat_pre(
                            s0,
                            i as int,
                        )) + t_pre);
                        assert(flat_pre(s_new, i + 1) + seq![e] == seq![val] + flat_pre(
                            s0,
                            i + 1,
                        ));
                    }
                    carry = e;
                    i = i + 1;
                },
            }
        }
    }
}

impl<T: Copy, const LRU_N: usize, const LRU_CAP: usize> MGLRU<T, LRU_N, LRU_CAP> {
    /// Stores `val` as the most-recently-used value of tier 0. Evictions
    /// cascade tier by tier; while the structure has room nothing is lost,
    /// and once it is full the oldest value of the last tier is dropped
    /// and returned. On the flattened traversal this is exactly one
    /// insertion step of an LRU cache of the total capacity.
    pub fn insert(&mut self, val: T) -> (evicted: Option<T>)
        requires
            old(self).wf(),
        ensures
            final(self).wf(),
            final(self)@ == lru_step(old(self)@, val, LRU_N * LRU_CAP),
            old(self)@.len() < LRU_N * LRU_CAP ==> evicted is None,
            old(self)@.len() == LRU_N * LRU_CAP ==> evicted == Some(old(self)@.last()),
    {
        let ghost s0 = old(self).lrus@;
        let r = self.cascade(val);
        let ghost s1 = self.lrus@;
        proof {
            match r {
                None => {
                    assert(exists|m: int|
                        0 <= m < LRU_N && (forall|k: int|
                            0 <= k < m ==> (#[trigger] old(self).lrus@[k])@.len() == LRU_CAP
                                && self.lrus@[k]@.len() == LRU_CAP) && (
                        #[trigger] old(self).lrus@[m])@.len() < LRU_CAP && self.lrus@[m]@.len()
                            == old(self).lrus@[m]@.len() + 1 && (forall|k: int|
                            m < k < LRU_N ==> self.lrus@[k] == old(self).lrus@[k]));
                    let m0 = choose|m: int|
                        0 <= m < LRU_N && (forall|k: int|
                            0 <= k < m ==> (#[trigger] old(self).lrus@[k])@.len() == LRU_CAP
                                && self.lrus@[k]@.len() == LRU_CAP) && (
                        #[trigger] old(self).lrus@[m])@.len() < LRU_CAP && self.lrus@[m]@.len()
                            == old(self).lrus@[m]@.len() + 1 && (forall|k: int|
                            m < k < LRU_N ==> self.lrus@[k] == old(self).lrus@[k]);
                    assert(0 <= m0 < LRU_N && (forall|k: int|
                        0 <= k < m0 ==> (#[trigger] s0[k])@.len() == LRU_CAP && s1[k]@.len()
                            == LRU_CAP) && (#[trigger] s0[m0])@.len() < LRU_CAP && s1[m0]@.len()
                        == s0[m0]@.len() + 1 && (forall|k: int|
                        m0 < k < LRU_N ==> s1[k] == s0[k]));
                    assert forall|a: int, b: int|
                        0 <= a < b < LRU_N && (#[trigger] s1[b])@.len() > 0 implies (
                    #[trigger] s1[a])@.len() == LRU_CAP by {
                        if b > m0 {
                            assert(s1[b] == s0[b]);
                            assert(s0[m0]@.len() == LRU_CAP || s0[b]@.len() == 0);
                        } else if a < m0 {
                            assert(s0[a]@.len() == LRU_CAP && s1[a]@.len() == LRU_CAP);
                        }
                    }
                    assert(self.packed());
                },
                Some(e) => {},
            }
        }
        r
    }

    /// A reference to the most-recently-used value — the front of tier 0 —
    /// or nothing when the structure is empty.
    pub fn front(&self) -> (r: Option<&T>)
        requires
            self.wf(),
        ensures
            match r {
                Some(v) => self@.len() > 0 && *v == self@[0],
                None => self@.len() == 0,
            },
    {
        if self.length == 0 {
            return None;
        }
        proof {
            if self.lrus@[0]@.len() == 0 {
                assert forall|k: int| 0 <= k < LRU_N implies (#[trigger] self.lrus@[k])@.len()
                    == 0 by {
                    if k > 0 && self.lrus@[k]@.len() > 0 {
                        assert(self.lrus@[0]@.len() == LRU_CAP);
                    }
                }
                lemma_flat_all_empty(self.lrus@);
            }
            lemma_flat_split(self.lrus@, 1);
            lemma_flat_pre_step(self.lrus@, 0);
            assert(self.lrus@.take(0) =~= Seq::<LRUCache<T, LRU_CAP>>::empty());
            assert(views_of(Seq::<LRUCache<T, LRU_CAP>>::empty()) =~= Seq::<Seq<T>>::empty());
            assert(self@[0] == self.lrus@[0]@[0]);
        }
        let tier = &self.lrus[0];
        tier.front()
    }
}

impl<T: Copy, const LRU_N: usize, const LRU_CAP: usize> MGLRU<T, LRU_N, LRU_CAP> {
    /// Removes the value held in slot `ele_idx` of tier `lru_idx` and
    /// fixes the accounting: the structure holds one value fewer.
    fn remove(&mut self, lru_idx: usize, ele_idx: usize)
        requires
            old(self).basic_wf(),
            lru_idx < LRU_N,
            old(self).lrus@[lru_idx as int].slots().contains(ele_idx as int),
        ensures
            final(self).basic_wf(),
            final(self)@.len() == old(self)@.len() - 1,
            forall|k: int| 0 <= k < LRU_N && k != lru_idx ==> final(self).lrus@[k] == old(self).lrus@[k],
            final(self).lrus@[lru_idx as int]@.len() == old(self).lrus@[lru_idx as int]@.len()
                - 1,
            forall|k: int|
                0 <= k < old(self).lrus@[lru_idx as int].slots().len() && old(self).lrus@[lru_idx as int].slots()[k] == ele_idx as int ==> final(self)@ == old(self)@.remove(flat_pre(old(self).lrus@, lru_idx as int).len() + k) && final(self).lrus@[lru_idx as int]@ == old(self).lrus@[lru_idx as int]@.remove(k),
    {
        let ghost s0 = old(self).lrus@;
        let ghost j = lru_idx as int;
        let ghost t0 = old(self).lrus@[lru_idx as int]@;
        let tier = &mut self.lrus[lru_idx];
        tier.remove(ele_idx);
        proof {
            let s1 = self.lrus@;
            s0[j].lemma_len_bounded();
            assert(s1 == s0.update(j, s1[j]));
            lemma_flat_split(s0, j + 1);
            lemma_flat_pre_step(s0, j);
            lemma_flat_split(s1, j + 1);
            lemma_flat_pre_step(s1, j);
            assert(s1.take(j) =~= s0.take(j));
            assert(s1.skip(j + 1) =~= s0.skip(j + 1));
            assert(flat_of(s0) == flat_pre(s0, j) + t0 + flat_of(s0.skip(j + 1)));
            assert(flat_of(s1) == flat_pre(s0, j) + s1[j]@ + flat_of(s0.skip(j + 1)));
            let off = flat_pre(s0, j).len() as int;
            assert forall|k: int|
                0 <= k < s0[j].slots().len() && s0[j].slots()[k] == ele_idx as int implies flat_of(
                s1,
            ) == flat_of(s0).remove(off + k) && s1[j]@ == t0.remove(k) by {
                assert(s1[j]@ == t0.remove(k));
                assert(flat_of(s1) =~= flat_of(s0).remove(off + k));
            }
        }
        self.length = self.length - 1;
    }

    /// Looks for the first value, scanning tiers in order and each tier in
    /// recency order, that the predicate accepts. When found, that value
    /// is removed from its tier and reinserted at the top, so it ends at
    /// the front of tier 0 — the youngest position — wherever it came
    /// from, and `true` is returned. Without a match the structure is left
    /// unchanged.
    pub fn touch<F: Fn(&T) -> bool>(&mut self, pred: F) -> (r: bool)
        requires
            old(self).wf(),
            forall|t: &T| call_requires(pred, (t,)),
        ensures
            final(self).wf(),
            final(self)@.len() == old(self)@.len(),
            !r ==> final(self)@ == old(self)@ && no_match_upto(
                pred,
                old(self)@,
                old(self)@.len() as int,
            ),
            r ==> exists|k: int|
                0 <= k < old(self)@.len() && #[trigger] call_ensures(pred, (&old(self)@[k],), true)
                    && no_match_upto(pred, old(self)@, k) && final(self)@ == promote(old(self)@, k),
    {
        let ghost s0 = old(self).lrus@;
        let ghost flat0 = flat_of(s0);
        let mut t: usize = 0;
        loop
            invariant
                t <= LRU_N,
                self == old(self),
                old(self).wf(),
                s0 == old(self).lrus@,
                flat0 == flat_of(s0),
                flat0 == old(self)@,
                forall|x: &T| call_requires(pred, (x,)),
                no_match_upto(pred, flat0, flat_pre(s0, t as int).len() as int),
                flat_pre(s0, t as int).len() <= flat0.len(),
            decreases LRU_N - t,
        {
            if t == LRU_N {
                proof {
                    assert(s0.take(LRU_N as int) =~= s0);
                    assert(flat_pre(s0, LRU_N as int) == flat_of(s0));
                }
                return false;
            }
            proof {
                lemma_flat_split(s0, t + 1);
                lemma_flat_pre_step(s0, t as int);
            }
            let found = self.lrus[t].find_first(&pred);
            match found {
                Some((idx, v, gk)) => {
                    let ghost t0 = s0[t as int]@;
                    let ghost kl = gk@;
                    let ghost off = flat_pre(s0, t as int).len() as int;
                    let ghost p = off + kl;
                    proof {
                        s0[t as int].lemma_len_bounded();
                        assert(s0[t as int].slots()[kl] == idx as int);
                        assert(s0[t as int].slots().contains(idx as int));
                        assert(flat_of(s0) == flat_pre(s0, t as int) + t0 + flat_of(
                            s0.skip(t + 1),
                        ));
                        assert(flat0[p] == t0[kl]);
                        assert forall|jj: int| 0 <= jj < p implies call_ensures(
                            pred,
                            (&flat0[jj],),
                            false,
                        ) by {
                            if jj >= off {
                                assert(flat0[jj] == t0[jj - off]);
                            }
                        }
                        assert(no_match_upto(pred, flat0, p));
                    }
                    self.remove(t, idx);
                    let ghost s1flat = self@;
                    proof {
                        assert(s1flat == flat0.remove(p));
                        s0[t as int].lemma_len_bounded();
                        assert forall|k: int|
                            0 <= k < s0.len() implies (#[trigger] s0[k])@.len() <= LRU_CAP by {
                            s0[k].lemma_len_bounded();
                        }
                        lemma_flat_len_bound(s0, LRU_CAP as int);
                        assert(s1flat.len() < LRU_N * LRU_CAP);
                    }
                    let ghost mid = *self;
                    let ev = self.cascade(v);
                    proof {
                        assert(ev is None);
                        assert(self@ == seq![v] + s1flat);
                        assert(self@ =~= promote(flat0, p));
                        // the cascade refills exactly the tier the removal emptied,
                        // so every tier is as long as before the touch
                        let m = choose|m: int|
                            0 <= m < LRU_N && (forall|k: int|
                                0 <= k < m ==> (#[trigger] mid.lrus@[k])@.len() == LRU_CAP
                                    && self.lrus@[k]@.len() == LRU_CAP) && (
                            #[trigger] mid.lrus@[m])@.len() < LRU_CAP && self.lrus@[m]@.len()
                                == mid.lrus@[m]@.len() + 1 && (forall|k: int|
                                m < k < LRU_N ==> self.lrus@[k] == mid.lrus@[k]);
                        assert(t0.len() > 0);
                        if m < t {
                            assert(mid.lrus@[m] == s0[m]);
                            assert(s0[m]@.len() == LRU_CAP);
                        }
                        if m > t {
                            assert(mid.lrus@[t as int]@.len() == t0.len() - 1);
                            assert(mid.lrus@[t as int]@.len() == LRU_CAP);
                        }
                        assert(m == t);
                        assert forall|k: int| 0 <= k < LRU_N implies (#[trigger] self.lrus@[k])@.len()
                            == s0[k]@.len() by {
                            if k < t {
                                assert(mid.lrus@[k]@.len() == LRU_CAP && self.lrus@[k]@.len()
                                    == LRU_CAP);
                                assert(mid.lrus@[k] == s0[k]);
                            } else if k > t {
                                assert(self.lrus@[k] == mid.lrus@[k] && mid.lrus@[k] == s0[k]);
                            }
                        }
                        assert forall|a: int, b: int|
                            0 <= a < b < LRU_N && (#[trigger] self.lrus@[b])@.len() > 0 implies (
                        #[trigger] self.lrus@[a])@.len() == LRU_CAP by {
                            assert(s0[b]@.len() > 0);
                            assert(s0[a]@.len() == LRU_CAP);
                        }
                        assert(self.packed());
                        assert(call_ensures(pred, (&flat0[p],), true));
                    }
                    return true;
                },
                None => {
                    proof {
                        let t0 = s0[t as int]@;
                        let off = flat_pre(s0, t as int).len() as int;
                        assert(flat_of(s0) == flat_pre(s0, t as int) + t0 + flat_of(
                            s0.skip(t + 1),
                        ));
                        assert forall|jj: int| 0 <= jj < off + t0.len() implies call_ensures(
                            pred,
                            (&flat0[jj],),
                            false,
                        ) by {
                            if jj >= off {
                                assert(flat0[jj] == t0[jj - off]);
                            }
                        }
                        assert(flat_pre(s0, t + 1).len() == off + t0.len());
                        assert(no_match_upto(pred, flat0, flat_pre(s0, t + 1).len() as int));
                    }
                    t = t + 1;
                },
            }
        }
    }
}

impl<T: Copy, const LRU_N: usize, const LRU_CAP: usize> MGLRU<T, LRU_N, LRU_CAP> {
    /// A mutable reference to the most-recently-used value — the front of
    /// tier 0 — or nothing when the structure is empty. Writing through it
    /// replaces the front value; the order is untouched.
    pub fn front_mut(&mut self) -> (r: Option<&mut T>)
        requires
            old(self).wf(),
        ensures
            final(self).wf(),
            match r {
                Some(v) => old(self)@.len() > 0 && *v == old(self)@[0] && final(self)@ == old(self)@.update(0, *final(v)),
                None => old(self)@.len() == 0 && final(self)@ == old(self)@,
            },
    {
        if self.length == 0 {
            return None;
        }
        proof {
            if self.lrus@[0]@.len() == 0 {
                assert forall|k: int| 0 <= k < LRU_N implies (#[trigger] self.lrus@[k])@.len()
                    == 0 by {
                    if k > 0 && self.lrus@[k]@.len() > 0 {
                        assert(self.lrus@[0]@.len() == LRU_CAP);
                    }
                }
                lemma_flat_all_empty(self.lrus@);
            }
            lemma_flat_split(self.lrus@, 1);
            lemma_flat_pre_step(self.lrus@, 0);
            assert(self.lrus@.take(0) =~= Seq::<LRUCache<T, LRU_CAP>>::empty());
            assert(views_of(Seq::<LRUCache<T, LRU_CAP>>::empty()) =~= Seq::<Seq<T>>::empty());
            assert(self@[0] == self.lrus@[0]@[0]);
            let s = self.lrus@;
            assert forall|c: LRUCache<T, LRU_CAP>, x: T|
                #![trigger flat_of(s.update(0, c)), s[0]@.update(0, x)]
                c.wf() && c@ == s[0]@.update(0, x) implies flat_of(s.update(0, c)) == flat_of(
                s,
            ).update(0, x) && flat_of(s.update(0, c)).len() == flat_of(s).len() by {
                let s2 = s.update(0, c);
                lemma_flat_split(s2, 1);
                lemma_flat_pre_step(s2, 0);
                assert(s2.take(0) =~= Seq::<LRUCache<T, LRU_CAP>>::empty());
                assert(s2.skip(1) =~= s.skip(1));
                assert(flat_of(s2) =~= flat_of(s).update(0, x));
            }
        }
        let tier = &mut self.lrus[0];
        tier.front_mut()
    }

    /// A traversal of the flattened contents: every stored value, tier by
    /// tier and within a tier from most- to least-recently-used, collected
    /// up front.
    pub fn iter(&self) -> (r: Iter<T>)
        requires
            self.wf(),
        ensures
            r.wf(),
            r@ == self@,
    {
        let ghost s0 = self.lrus@;
        let mut items: Vec<T> = Vec::new();
        let mut t: usize = 0;
        while t < LRU_N
            invariant
                t <= LRU_N,
                self.wf(),
                s0 == self.lrus@,
                items@ == flat_pre(s0, t as int),
            decreases LRU_N - t,
        {
            proof {
                lemma_flat_pre_step(s0, t as int);
            }
            let tier = &self.lrus[t];
            let mut it = tier.iter();
            let ghost done: int = 0;
            loop
                invariant
                    it.wf(),
                    tier.wf(),
                    tier == s0[t as int],
                    0 <= done <= tier@.len(),
                    it@.len() == tier@.len() - done,
                    forall|i: int|
                        0 <= i < it@.len() ==> (#[trigger] it@[i]).1 == tier@[done + i],
                    items@ == flat_pre(s0, t as int) + tier@.take(done),
                ensures
                    items@ == flat_pre(s0, t as int) + tier@,
                decreases it@.len(),
            {
                match it.next() {
                    Some((_, v)) => {
                        items.push(*v);
                        proof {
                            done = done + 1;
                            assert(items@ =~= flat_pre(s0, t as int) + tier@.take(done));
                        }
                    },
                    None => {
                        proof {
                            assert(tier@.take(done) =~= tier@);
                        }
                        break;
                    },
                }
            }
            t = t + 1;
        }
        proof {
            assert(s0.take(LRU_N as int) =~= s0);
            assert(items@ == self@);
        }
        Iter { items, pos: 0 }
    }
}

/// Traversal of a multi-tier cache's flattened contents, most recent tier
/// 0 value first, detached from the cache itself.
pub struct Iter<T> {
    items: Vec<T>,
    pos: usize,
}

impl<T: Copy> Iter<T> {
    /// The values still to be yielded.
    pub closed spec fn view(self) -> Seq<T> {
        self.items@.skip(self.pos as int)
    }

    pub closed spec fn wf(self) -> bool {
        self.pos <= self.items@.len()
    }

    /// The next value of the flattened traversal, or nothing once
    /// exhausted.
    pub fn next(&mut self) -> (r: Option<T>)
        requires
            old(self).wf(),
        ensures
            final(self).wf(),
            match r {
                Some(v) => old(self)@.len() > 0 && v == old(self)@[0] && final(self)@ == old(self)@.drop_first(),
                None => old(self)@.len() == 0 && final(self)@ == old(self)@,
            },
    {
        if self.pos == self.items.len() {
            return None;
        }
        let v = self.items[self.pos];
        self.pos = self.pos + 1;
        proof {
            assert(final(self)@ =~= old(self)@.drop_first());
        }
        Some(v)
    }
}

impl<T: Copy, const LRU_N: usize, const LRU_CAP: usize> MGLRU<T, LRU_N, LRU_CAP> {
    /// Cascading fills the tiers in order: tier `i` holds exactly the
    /// values of the flattened traversal between positions `i * LRU_CAP`
    /// and `(i + 1) * LRU_CAP`, clipped to the number of stored values. In
    /// particular the most recent values sit in tier 0, the next ones in
    /// tier 1, and so on.
    pub proof fn lemma_tiers_are_chunks(self, i: int)
        requires
            self.wf(),
            0 <= i < LRU_N,
        ensures
            self.tier(i) == self@.subrange(
                vstd::math::min(i * LRU_CAP, self@.len() as int),
                vstd::math::min((i + 1) * LRU_CAP, self@.len() as int),
            ),
    {
        let s = self.lrus@;
        let flat = flat_of(s);
        lemma_flat_split(s, i + 1);
        lemma_flat_pre_step(s, i);
        assert(flat == flat_pre(s, i) + s[i]@ + flat_of(s.skip(i + 1)));
        assert((i + 1) * LRU_CAP == i * LRU_CAP + LRU_CAP) by (nonlinear_arith);
        assert forall|k: int| 0 <= k < s.len() implies (#[trigger] s[k])@.len() <= LRU_CAP by {
            s[k].lemma_len_bounded();
        }
        if s[i]@.len() == 0 {
            assert forall|k: int| i <= k < LRU_N implies (#[trigger] s[k])@.len() == 0 by {
                if k > i && s[k]@.len() > 0 {
                    assert(s[i]@.len() == LRU_CAP);
                }
            }
            assert forall|k: int| 0 <= k < s.skip(i + 1).len() implies (
            #[trigger] s.skip(i + 1)[k])@.len() == 0 by {
                assert(s.skip(i + 1)[k] == s[i + 1 + k]);
            }
            lemma_flat_all_empty(s.skip(i + 1));
            assert forall|k: int| 0 <= k < s.take(i).len() implies (#[trigger] s.take(i)[k])@.len()
                <= LRU_CAP by {
                assert(s.take(i)[k] == s[k]);
            }
            lemma_flat_len_bound(s.take(i), LRU_CAP as int);
            assert(flat_pre(s, i).len() <= i * LRU_CAP);
            assert(self.tier(i) =~= flat.subrange(
                vstd::math::min(i * LRU_CAP, flat.len() as int),
                vstd::math::min((i + 1) * LRU_CAP, flat.len() as int),
            ));
        } else {
            assert forall|k: int| 0 <= k < i implies (#[trigger] s[k])@.len() == LRU_CAP by {
                assert(s[i]@.len() > 0);
            }
            assert forall|k: int| 0 <= k < s.take(i).len() implies (#[trigger] s.take(i)[k])@.len()
                == LRU_CAP by {
                assert(s.take(i)[k] == s[k]);
            }
            lemma_flat_pre_len_full(s.take(i), i, LRU_CAP as int);
            assert(s.take(i).take(i) =~= s.take(i));
            assert(flat_pre(s, i).len() == i * LRU_CAP);
            if s[i]@.len() == LRU_CAP {
                assert(self.tier(i) =~= flat.subrange(
                    vstd::math::min(i * LRU_CAP, flat.len() as int),
                    vstd::math::min((i + 1) * LRU_CAP, flat.len() as int),
                ));
            } else {
                assert forall|k: int| 0 <= k < s.skip(i + 1).len() implies (
                #[trigger] s.skip(i + 1)[k])@.len() == 0 by {
                    assert(s.skip(i + 1)[k] == s[i + 1 + k]);
                    if s[i + 1 + k]@.len() > 0 {
                        assert(s[i]@.len() == LRU_CAP);
                    }
                }
                lemma_flat_all_empty(s.skip(i + 1));
                assert(self.tier(i) =~= flat.subrange(
                    vstd::math::min(i * LRU_CAP, flat.len() as int),
                    vstd::math::min((i + 1) * LRU_CAP, flat.len() as int),
                ));
            }
        }
    }
}

} // verus!
