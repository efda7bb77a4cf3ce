//! Single-tier fixed-capacity LRU cache.
//!
//! Values live in a slot arena (`entries`); recency is kept by an intrusive
//! doubly-linked chain of slot indices with explicit `head` and `tail`. The
//! abstract state is the sequence of stored values from most- to
//! least-recently-used, available as the view `self@`.

use vstd::prelude::*;

verus! {

/// One arena slot: a stored value plus the slot indices of its chain
/// neighbours. `prev` of the head and `next` of the tail are meaningless
/// and never read.
#[derive(Clone, Copy)]
pub struct Entry<T> {
    pub val: T,
    prev: usize,
    next: usize,
}

/// Fixed-capacity LRU cache. Slots `0 .. len` of `entries` are live; the
/// recency chain threads through them via the `prev`/`next` links.
pub struct LRUCache<T, const CAP: usize> {
    entries: Vec<Entry<T>>,
    head: usize,
    tail: usize,
    order: Ghost<Seq<int>>,
}

/// The chain `ord` (most recent first) is consistent with the links stored
/// in `s`: consecutive chain members point at each other, `head` and `tail`
/// are the chain's ends, and no slot appears twice.
pub(crate) closed spec fn links_ok<T>(s: Seq<Entry<T>>, head: usize, tail: usize, ord: Seq<int>) -> bool {
    &&& forall|i: int| 0 <= i < ord.len() ==> 0 <= #[trigger] ord[i] < s.len()
    &&& ord.no_duplicates()
    &&& ord.len() > 0 ==> ord[0] == head && ord[ord.len() - 1] == tail
    &&& forall|i: int| 0 <= i < ord.len() - 1 ==> s[#[trigger] ord[i]].next == ord[i + 1]
    &&& forall|i: int| 1 <= i < ord.len() ==> s[#[trigger] ord[i]].prev == ord[i - 1]
}

/// The values of `s` in the order given by the chain `ord`.
pub(crate) closed spec fn values_of<T>(s: Seq<Entry<T>>, ord: Seq<int>) -> Seq<T> {
    ord.map_values(|j: int| s[j].val)
}

impl<T, const CAP: usize> View for LRUCache<T, CAP> {
    type V = Seq<T>;

    /// The stored values from most- to least-recently-used.
    closed spec fn view(&self) -> Seq<T> {
        values_of(self.entries@, self.order@)
    }
}

impl<T, const CAP: usize> LRUCache<T, CAP> {
    /// Internal invariant: the slot arena never exceeds `CAP`, every live
    /// slot is on the recency chain exactly once, and the links agree with
    /// the chain.
    pub closed spec fn wf(self) -> bool {
        &&& 0 < CAP < usize::MAX
        &&& self.entries@.len() <= CAP
        &&& self.order@.len() == self.entries@.len()
        &&& links_ok(self.entries@, self.head, self.tail, self.order@)
    }

    /// The chain of live slot indices, most recent first. Slot indices are
    /// handed out by `iter` and accepted by `remove`; `self@[k]` is stored
    /// in slot `self.slots()[k]`.
    pub closed spec fn slots(self) -> Seq<int> {
        self.order@
    }

    /// A well-formed cache never holds more values than its capacity.
    pub proof fn lemma_len_bounded(self)
        requires
            self.wf(),
        ensures
            self@.len() <= CAP,
            self.slots().len() == self@.len(),
            0 < CAP,
    {
    }
}

impl<T: Copy, const CAP: usize> LRUCache<T, CAP> {
    /// Builds an empty cache. The capacity must be positive and must fit
    /// the slot-index representation.
    pub fn new() -> (r: Self)
        requires
            0 < CAP < usize::MAX,
        ensures
            r.wf(),
            r@ == Seq::<T>::empty(),
    {
        let r = Self {
            entries: Vec::with_capacity(CAP),
            head: 0,
            tail: 0,
            order: Ghost(Seq::empty()),
        };
        proof {
            assert(r@ =~= Seq::<T>::empty());
        }
        r
    }

    /// Number of stored values.
    pub fn len(&self) -> (r: usize)
        requires
            self.wf(),
        ensures
            r == self@.len(),
    {
        self.entries.len()
    }

    /// True when nothing is stored.
    pub fn is_empty(&self) -> (r: bool)
        requires
            self.wf(),
        ensures
            r == (self@.len() == 0),
    {
        self.entries.len() == 0
    }

    /// Links the slot `index`, which must not be on the chain, at the front
    /// of the chain, making it the most-recently-used position.
    fn push_front(&mut self, index: usize)
        requires
            links_ok(old(self).entries@, old(self).head, old(self).tail, old(self).order@),
            index < old(self).entries@.len(),
            !old(self).order@.contains(index as int),
            old(self).order@.len() == old(self).entries@.len() - 1,
        ensures
            links_ok(final(self).entries@, final(self).head, final(self).tail, final(self).order@),
            final(self).order@ == old(self).order@.insert(0, index as int),
            final(self).entries@.len() == old(self).entries@.len(),
            forall|i: int|
                0 <= i < final(self).entries@.len() ==> final(self).entries@[i].val == old(self).entries@[i].val,
    {
        proof {
            assert(old(self).order@.insert(0, index as int) =~= seq![index as int]
                + old(self).order@);
        }
        if self.entries.len() == 1 {
            self.head = index;
            self.tail = index;
        } else {
            let h = self.head;
            let mut e = self.entries[index];
            e.next = h;
            self.entries[index] = e;
            let mut hd = self.entries[h];
            hd.prev = index;
            self.entries[h] = hd;
            self.head = index;
        }
        proof {
            self.order@ = self.order@.insert(0, index as int);
            let ord = old(self).order@;
            let ord2 = self.order@;
            assert forall|i: int| 0 <= i < ord2.len() - 1 implies self.entries@[#[trigger] ord2[i]].next
                == ord2[i + 1] by {
                if i > 0 {
                    assert(ord2[i] == ord[i - 1]);
                    assert(ord2[i + 1] == ord[i]);
                }
            }
            assert forall|i: int| 1 <= i < ord2.len() implies self.entries@[#[trigger] ord2[i]].prev
                == ord2[i - 1] by {
                if i > 1 {
                    assert(ord2[i] == ord[i - 1]);
                    assert(ord2[i - 1] == ord[i - 2]);
                }
            }
        }
    }

    /// Unlinks the tail of the chain and returns its slot index. The slot's
    /// value is left in place.
    fn pop_back(&mut self) -> (r: usize)
        requires
            links_ok(old(self).entries@, old(self).head, old(self).tail, old(self).order@),
            old(self).order@.len() > 0,
        ensures
            links_ok(final(self).entries@, final(self).head, final(self).tail, final(self).order@),
            final(self).order@ == old(self).order@.drop_last(),
            r as int == old(self).order@.last(),
            final(self).entries@ == old(self).entries@,
    {
        let old_tail = self.tail;
        proof {
            assert(old(self).order@[old(self).order@.len() - 1] == old_tail as int);
        }
        self.tail = self.entries[old_tail].prev;
        proof {
            self.order@ = self.order@.drop_last();
        }
        old_tail
    }
}

/// One insertion step on the abstract state: the new value goes to the
/// front; past `cap` values the last (least recently used) one falls off.
pub open spec fn lru_step<T>(s: Seq<T>, v: T, cap: int) -> Seq<T> {
    if s.len() < cap {
        seq![v] + s
    } else {
        (seq![v] + s).take(cap)
    }
}

/// Appending a fresh slot to the arena touches neither the chain nor the
/// values it holds.
proof fn lemma_chain_push<T>(s: Seq<Entry<T>>, head: usize, tail: usize, ord: Seq<int>, e: Entry<T>)
    requires
        links_ok(s, head, tail, ord),
    ensures
        links_ok(s.push(e), head, tail, ord),
        values_of(s.push(e), ord) == values_of(s, ord),
{
    assert(values_of(s.push(e), ord) =~= values_of(s, ord));
}

/// Overwriting a slot that is not on the chain touches neither the chain
/// nor the values it holds.
proof fn lemma_chain_update<T>(
    s: Seq<Entry<T>>,
    head: usize,
    tail: usize,
    ord: Seq<int>,
    j: int,
    e: Entry<T>,
)
    requires
        links_ok(s, head, tail, ord),
        0 <= j < s.len(),
        !ord.contains(j),
    ensures
        links_ok(s.update(j, e), head, tail, ord),
        values_of(s.update(j, e), ord) == values_of(s, ord),
{
    assert(values_of(s.update(j, e), ord) =~= values_of(s, ord));
}

/// A chain without duplicates does not hold its last member anywhere else.
proof fn lemma_last_not_in_front(ord: Seq<int>)
    requires
        ord.no_duplicates(),
        ord.len() > 0,
    ensures
        !ord.drop_last().contains(ord.last()),
{
    if ord.drop_last().contains(ord.last()) {
        let i = choose|i: int| 0 <= i < ord.drop_last().len() && ord.drop_last()[i] == ord.last();
        assert(ord[i] == ord[ord.len() - 1]);
    }
}

impl<T: Copy, const CAP: usize> LRUCache<T, CAP> {
    /// Stores `val` as the most-recently-used value. While there is room,
    /// the cache grows; at capacity the least-recently-used value is
    /// overwritten and returned.
    pub fn insert(&mut self, val: T) -> (evicted: Option<T>)
        requires
            old(self).wf(),
        ensures
            final(self).wf(),
            final(self)@ == lru_step(old(self)@, val, CAP as int),
            old(self)@.len() < CAP ==> evicted is None,
            old(self)@.len() == CAP ==> evicted == Some(old(self)@.last()),
    {
        let entry = Entry { val, prev: 0, next: 0 };
        let mut evicted = None;
        let new_head: usize;
        if self.entries.len() == CAP {
            let last_index = self.pop_back();
            proof {
                lemma_last_not_in_front(old(self).order@);
            }
            evicted = Some(self.entries[last_index].val);
            proof {
                lemma_chain_update(
                    self.entries@,
                    self.head,
                    self.tail,
                    self.order@,
                    last_index as int,
                    entry,
                );
            }
            self.entries[last_index] = entry;
            new_head = last_index;
        } else {
            new_head = self.entries.len();
            proof {
                lemma_chain_push(self.entries@, self.head, self.tail, self.order@, entry);
                // the fresh slot is past every live one, so it is not on the chain
                assert(!self.order@.contains(new_head as int)) by {
                    if self.order@.contains(new_head as int) {
                        let i = choose|i: int|
                            0 <= i < self.order@.len() && self.order@[i] == new_head as int;
                    }
                }
            }
            self.entries.push(entry);
        }
        self.push_front(new_head);
        proof {
            let ord = self.order@;
            let pre = old(self)@;
            assert forall|i: int| 0 <= i < self@.len() implies self@[i] == lru_step(
                pre,
                val,
                CAP as int,
            )[i] by {
                if i > 0 {
                    assert(ord[i] == old(self).order@[i - 1]);
                    assert(self.entries@[ord[i]].val == old(self).entries@[ord[i]].val);
                }
            }
            assert(self@ =~= lru_step(pre, val, CAP as int));
        }
        evicted
    }

    /// A reference to the most-recently-used value, or nothing when the
    /// cache is empty.
    pub fn front(&self) -> (r: Option<&T>)
        requires
            self.wf(),
        ensures
            match r {
                Some(v) => self@.len() > 0 && *v == self@[0],
                None => self@.len() == 0,
            },
    {
        if self.entries.len() == 0 {
            None
        } else {
            Some(&self.entries[self.head].val)
        }
    }

    /// A mutable reference to the most-recently-used value, or nothing
    /// when the cache is empty. Writing through it replaces the front
    /// value; the recency order is untouched.
    pub fn front_mut(&mut self) -> (r: Option<&mut T>)
        requires
            old(self).wf(),
        ensures
            final(self).wf(),
            match r {
                Some(v) => old(self)@.len() > 0 && *v == old(self)@[0] && final(self)@ == old(self)@.update(0, *final(v)),
                None => old(self)@.len() == 0 && final(self)@ == old(self)@,
            },
    {
        if self.entries.len() == 0 {
            None
        } else {
            let h = self.head;
            Some(&mut self.entries[h].val)
        }
    }

    /// Empties the cache. Safe on an already-empty cache.
    pub fn clear(&mut self)
        requires
            old(self).wf(),
        ensures
            final(self).wf(),
            final(self)@ == Seq::<T>::empty(),
    {
        self.entries.clear();
        self.head = 0;
        self.tail = 0;
        proof {
            self.order@ = Seq::empty();
            assert(self@ =~= Seq::<T>::empty());
        }
    }
}

/// A prefix of the scan found no match: the predicate returned false on
/// the first `n` values of `s`.
pub open spec fn no_match_upto<T, F: Fn(&T) -> bool>(pred: F, s: Seq<T>, n: int) -> bool {
    forall|j: int| 0 <= j < n ==> call_ensures(pred, (&s[j],), false)
}

impl<T: Copy, const CAP: usize> LRUCache<T, CAP> {
    /// Scans the chain from most- to least-recently-used for the first
    /// value the predicate accepts, and returns its slot index, the value
    /// itself, and the chain position of the match.
    pub(crate) fn find_first<F: Fn(&T) -> bool>(&self, pred: &F) -> (r: Option<
        (usize, T, Ghost<int>),
    >)
        requires
            self.wf(),
            forall|t: &T| call_requires(*pred, (t,)),
        ensures
            match r {
                Some((idx, v, k)) => 0 <= k@ < self@.len() && self.slots()[k@] == idx as int && v
                    == self@[k@] && call_ensures(*pred, (&self@[k@],), true) && no_match_upto(
                    *pred,
                    self@,
                    k@,
                ),
                None => no_match_upto(*pred, self@, self@.len() as int),
            },
    {
        if self.entries.len() == 0 {
            return None;
        }
        let mut pos = self.head;
        let ghost mut k: int = 0;
        loop
            invariant
                self.wf(),
                forall|t: &T| call_requires(*pred, (t,)),
                0 <= k < self@.len(),
                pos as int == self.slots()[k],
                no_match_upto(*pred, self@, k),
            decreases self@.len() - k,
        {
            let v = self.entries[pos].val;
            if pred(&v) {
                return Some((pos, v, Ghost(k)));
            }
            if pos == self.tail {
                proof {
                    if k != self@.len() - 1 {
                        assert(self.order@[k] == self.order@[self.order@.len() - 1]);
                    }
                }
                return None;
            }
            pos = self.entries[pos].next;
            proof {
                if k == self@.len() - 1 {
                    assert(self.order@[k] == self.order@[self.order@.len() - 1]);
                }
                k = k + 1;
            }
        }
    }
}

/// Moving the value at position `k` to the front, keeping the relative
/// order of the others.
pub open spec fn promote<T>(s: Seq<T>, k: int) -> Seq<T> {
    seq![s[k]] + s.remove(k)
}

/// A chain that holds `n` distinct indices below `n` holds every index
/// below `n`.
proof fn lemma_perm_contains(ord: Seq<int>, v: int)
    requires
        ord.no_duplicates(),
        forall|i: int| 0 <= i < ord.len() ==> 0 <= #[trigger] ord[i] < ord.len(),
        0 <= v < ord.len(),
    ensures
        ord.contains(v),
{
    let n = ord.len() as int;
    let range = vstd::set_lib::set_int_range(0, n);
    ord.unique_seq_to_set();
    vstd::set_lib::lemma_int_range(0, n);
    assert forall|x: int| ord.to_set().contains(x) implies range.contains(x) by {
        let i = choose|i: int| 0 <= i < ord.len() && ord[i] == x;
    }
    if !ord.to_set().contains(v) {
        ord.to_set().lemma_subset_not_in_lt(range, v);
    }
}

/// After the chain neighbours of the highest slot (`s1.len() - 1`) have
/// been repointed at the freed slot `index`, moving the highest slot's
/// contents into `index` and shortening the arena leaves a consistent
/// chain in which the highest slot's index is renamed to `index`.
#[verifier::rlimit(100)]
proof fn lemma_compact_links<T>(
    s1: Seq<Entry<T>>,
    s2: Seq<Entry<T>>,
    h1: usize,
    t1: usize,
    h3: usize,
    t3: usize,
    ord1: Seq<int>,
    index: usize,
    q: int,
)
    requires
        links_ok(s1, h1, t1, ord1),
        s2.len() == s1.len(),
        (index as int) < s1.len() - 1,
        !ord1.contains(index as int),
        0 <= q < ord1.len(),
        ord1[q] == s1.len() - 1,
        forall|j: int|
            0 <= j < s2.len() && (q == 0 || j != ord1[q - 1]) && (q == ord1.len() - 1 || j != ord1[q
                + 1]) ==> s2[j] == s1[j],
        forall|j: int| 0 <= j < s2.len() ==> s2[j].val == s1[j].val,
        q > 0 ==> s2[ord1[q - 1]].next == index as int && s2[ord1[q - 1]].prev == s1[ord1[q
            - 1]].prev,
        q < ord1.len() - 1 ==> s2[ord1[q + 1]].prev == index as int && s2[ord1[q + 1]].next
            == s1[ord1[q + 1]].next,
        h3 == if q == 0 { index } else { h1 },
        t3 == if q == ord1.len() - 1 { index } else { t1 },
    ensures
        ({
            let last = s1.len() - 1;
            let s3 = s2.update(index as int, s2[last]).drop_last();
            let ord3 = ord1.map_values(|j: int| if j == last { index as int } else { j });
            &&& links_ok(s3, h3, t3, ord3)
            &&& forall|i: int| 0 <= i < ord3.len() ==> #[trigger] s3[ord3[i]].val == s1[ord1[i]].val
        }),
{
    let last = s1.len() - 1;
    let rn = |j: int| if j == last { index as int } else { j };
    let s3 = s2.update(index as int, s2[last]).drop_last();
    let ord3 = ord1.map_values(rn);
    assert forall|i: int| 0 <= i < ord1.len() && i != q implies ord1[i] != last by {
        if ord1[i] == ord1[q] {
        }
    }
    assert forall|i: int| 0 <= i < ord1.len() implies ord1[i] != index as int by {
        assert(!ord1.contains(index as int));
    }
    assert forall|i: int| 0 <= i < ord3.len() implies 0 <= #[trigger] ord3[i] < s3.len() by {
        assert(ord3[i] == rn(ord1[i]));
    }
    assert forall|i: int, j: int| 0 <= i < j < ord3.len() implies ord3[i] != ord3[j] by {
        assert(ord3[i] == rn(ord1[i]) && ord3[j] == rn(ord1[j]));
    }
    assert forall|i: int| 0 <= i < ord3.len() implies #[trigger] s3[ord3[i]] == s2[ord1[i]] by {
        assert(ord3[i] == rn(ord1[i]));
        if ord1[i] == last {
            assert(s3[index as int] == s2[last]);
        }
    }
    assert forall|i: int| 0 <= i < ord1.len() && i != q - 1 && i != q + 1 implies #[trigger] s2[ord1[i]]
        == s1[ord1[i]] by {}
    assert forall|i: int| 0 <= i < ord3.len() - 1 implies s3[#[trigger] ord3[i]].next == ord3[i + 1]
        by {
        assert(s3[ord3[i]] == s2[ord1[i]]);
        assert(ord3[i + 1] == rn(ord1[i + 1]));
        if i == q - 1 {
            assert(s2[ord1[q - 1]].next == index as int);
        } else if i == q {
            assert(s2[ord1[q]] == s1[ord1[q]]);
            assert(s1[ord1[q]].next == ord1[q + 1]);
        } else if i == q + 1 {
            assert(s2[ord1[i]].next == s1[ord1[i]].next);
        } else {
            assert(s2[ord1[i]] == s1[ord1[i]]);
        }
    }
    assert forall|i: int| 1 <= i < ord3.len() implies s3[#[trigger] ord3[i]].prev == ord3[i - 1] by {
        assert(s3[ord3[i]] == s2[ord1[i]]);
        assert(ord3[i - 1] == rn(ord1[i - 1]));
        if i == q + 1 {
            assert(s2[ord1[q + 1]].prev == index as int);
        } else if i == q {
            assert(s2[ord1[q]] == s1[ord1[q]]);
            assert(s1[ord1[q]].prev == ord1[q - 1]);
        } else if i == q - 1 {
            assert(s2[ord1[i]].prev == s1[ord1[i]].prev);
        } else {
            assert(s2[ord1[i]] == s1[ord1[i]]);
        }
    }
    if ord3.len() > 0 {
        assert(ord3[0] == rn(ord1[0]));
        assert(ord3[ord3.len() - 1] == rn(ord1[ord1.len() - 1]));
    }
    assert forall|i: int| 0 <= i < ord3.len() implies #[trigger] s3[ord3[i]].val == s1[ord1[i]].val
        by {
        assert(s3[ord3[i]] == s2[ord1[i]]);
    }
}

impl<T: Copy, const CAP: usize> LRUCache<T, CAP> {
    /// Takes the slot `index` off the chain, leaving its value in place.
    /// Neighbour links, `head` and `tail` are repaired around it.
    #[verifier::rlimit(100)]
    fn unlink(&mut self, index: usize)
        requires
            old(self).wf(),
            old(self).order@.contains(index as int),
        ensures
            final(self).entries@.len() == old(self).entries@.len(),
            final(self).order@.len() == old(self).order@.len() - 1,
            links_ok(final(self).entries@, final(self).head, final(self).tail, final(self).order@),
            forall|i: int|
                0 <= i < final(self).entries@.len() ==> final(self).entries@[i].val == old(self).entries@[i].val,
            !final(self).order@.contains(index as int),
            forall|k: int|
                0 <= k < old(self).order@.len() && old(self).order@[k] == index as int ==> final(self).order@ == old(self).order@.remove(k),
    {
        let ghost ord = old(self).order@;
        let ghost p = ord.index_of(index as int);
        proof {
            assert(0 <= p < ord.len() && ord[p] == index as int);
            assert forall|k: int| 0 <= k < ord.len() && ord[k] == index as int implies k == p by {
                if k != p {
                    assert(ord[k] == ord[p]);
                }
            }
        }
        let prev = self.entries[index].prev;
        let next = self.entries[index].next;
        if index == self.head {
            proof {
                if p != 0 {
                    assert(ord[p] == ord[0]);
                }
            }
            self.head = next;
        } else {
            proof {
                assert(p != 0);
            }
            let mut e = self.entries[prev];
            e.next = next;
            self.entries[prev] = e;
        }
        if index == self.tail {
            proof {
                if p != ord.len() - 1 {
                    assert(ord[p] == ord[ord.len() - 1]);
                }
            }
            self.tail = prev;
        } else {
            proof {
                assert(p != ord.len() - 1);
            }
            let mut e2 = self.entries[next];
            e2.prev = prev;
            self.entries[next] = e2;
        }
        proof {
            self.order@ = ord.remove(p);
            let ord2 = self.order@;
            let s2 = self.entries@;
            assert forall|i: int| 0 <= i < ord2.len() implies 0 <= #[trigger] ord2[i] < s2.len()
                by {
                if i < p {
                    assert(ord2[i] == ord[i]);
                } else {
                    assert(ord2[i] == ord[i + 1]);
                }
            }
            assert forall|i: int, j: int| 0 <= i < j < ord2.len() implies ord2[i] != ord2[j] by {
                let a: int = if i < p {
                    i
                } else {
                    i + 1
                };
                let b: int = if j < p {
                    j
                } else {
                    j + 1
                };
                assert(ord2[i] == ord[a] && ord2[j] == ord[b]);
            }
            assert forall|i: int| 0 <= i < ord2.len() - 1 implies s2[#[trigger] ord2[i]].next
                == ord2[i + 1] by {
                if i < p - 1 {
                    assert(ord2[i] == ord[i] && ord2[i + 1] == ord[i + 1]);
                    assert(ord[i] != ord[p - 1] && ord[i] != ord[p]);
                } else if i == p - 1 {
                    assert(ord2[i] == ord[p - 1] && ord2[i + 1] == ord[p + 1]);
                } else {
                    assert(ord2[i] == ord[i + 1] && ord2[i + 1] == ord[i + 2]);
                    assert(ord[i + 1] != ord[p] && (p == 0 || ord[i + 1] != ord[p - 1]));
                }
            }
            assert forall|i: int| 1 <= i < ord2.len() implies s2[#[trigger] ord2[i]].prev == ord2[i
                - 1] by {
                if i < p {
                    assert(ord2[i] == ord[i] && ord2[i - 1] == ord[i - 1]);
                    assert(ord[i] != ord[p] && (p == ord.len() - 1 || ord[i] != ord[p + 1]));
                } else if i == p {
                    assert(ord2[i] == ord[p + 1] && ord2[i - 1] == ord[p - 1]);
                } else {
                    assert(ord2[i] == ord[i + 1] && ord2[i - 1] == ord[i]);
                    assert(ord[i + 1] != ord[p] && (p == ord.len() - 1 || ord[i + 1] != ord[p + 1]));
                }
            }
            if ord2.contains(index as int) {
                let k = choose|k: int| 0 <= k < ord2.len() && ord2[k] == index as int;
                if k < p {
                    assert(ord[k] == ord[p]);
                } else {
                    assert(ord[k + 1] == ord[p]);
                }
            }
        }
    }

    /// Moves the already-linked slot `index` to the front of the chain.
    /// A no-op when it is the head already. The stored values, and the
    /// number of them, are untouched.
    #[verifier::rlimit(60)]
    fn touch_index(&mut self, index: usize)
        requires
            old(self).wf(),
            old(self).order@.contains(index as int),
        ensures
            final(self).wf(),
            final(self)@.len() == old(self)@.len(),
            forall|k: int|
                0 <= k < old(self).order@.len() && old(self).order@[k] == index as int ==> final(self)@ == promote(old(self)@, k),
    {
        let ghost ord = old(self).order@;
        proof {
            let p = ord.index_of(index as int);
            assert(0 <= p < ord.len() && ord[p] == index as int);
        }
        if self.head != index {
            self.unlink(index);
            proof {
                let p = ord.index_of(index as int);
                if p == 0 {
                    assert(ord[0] == old(self).head);
                }
            }
            self.push_front(index);
        }
        proof {
            assert forall|k: int|
                0 <= k < ord.len() && ord[k] == index as int implies self@ == promote(
                old(self)@,
                k,
            ) by {
                let pre = old(self)@;
                if old(self).head == index {
                    if k != 0 {
                        assert(ord[k] == ord[0]);
                    }
                    assert(pre[0] == old(self).entries@[ord[0]].val);
                    assert(self@ =~= promote(pre, 0));
                } else {
                    assert(self.order@ == ord.remove(k).insert(0, index as int));
                    assert forall|i: int| 0 <= i < self@.len() implies self@[i] == promote(pre, k)[i]
                        by {
                        if i == 0 {
                            assert(self.order@[0] == index as int);
                            assert(self.entries@[index as int].val == old(self).entries@[index as int].val);
                        } else {
                            assert(self.order@[i] == ord.remove(k)[i - 1]);
                            if i - 1 < k {
                                assert(ord.remove(k)[i - 1] == ord[i - 1]);
                            } else {
                                assert(ord.remove(k)[i - 1] == ord[i]);
                            }
                        }
                    }
                    assert(self@ =~= promote(pre, k));
                }
            }
        }
    }

    /// Frees the slot `index`, which must already be off the chain, by
    /// moving the highest live slot's contents into it and shortening the
    /// arena by one.
    #[verifier::rlimit(100)]
    #[verifier::spinoff_prover]
    fn compact(&mut self, index: usize)
        requires
            links_ok(old(self).entries@, old(self).head, old(self).tail, old(self).order@),
            old(self).order@.len() == old(self).entries@.len() - 1,
            index < old(self).entries@.len(),
            !old(self).order@.contains(index as int),
        ensures
            links_ok(final(self).entries@, final(self).head, final(self).tail, final(self).order@),
            final(self).entries@.len() == old(self).entries@.len() - 1,
            final(self).order@.len() == old(self).order@.len(),
            final(self)@ == values_of(old(self).entries@, old(self).order@),
    {
        let ghost ord1 = old(self).order@;
        let ghost s1 = old(self).entries@;
        let ghost h1 = old(self).head;
        let ghost t1 = old(self).tail;
        let last = self.entries.len() - 1;
        let ghost q = ord1.index_of(last as int);
        if index != last {
            proof {
                assert forall|i: int, j: int|
                    0 <= i < j < ord1.push(index as int).len() implies ord1.push(index as int)[i]
                    != ord1.push(index as int)[j] by {
                    if j < ord1.len() {
                        assert(ord1[i] != ord1[j]);
                    } else {
                        assert(ord1[i] != index as int);
                    }
                }
                lemma_perm_contains(ord1.push(index as int), last as int);
                let w = choose|w: int|
                    0 <= w < ord1.push(index as int).len() && ord1.push(index as int)[w]
                        == last as int;
                assert(w < ord1.len() && ord1[w] == last as int);
                assert(ord1.contains(last as int));
                assert(0 <= q < ord1.len() && ord1[q] == last as int);
            }
            let moved_prev = self.entries[last].prev;
            let moved_next = self.entries[last].next;
            if self.head == last {
                proof {
                    if q != 0 {
                        assert(ord1[q] == ord1[0]);
                    }
                }
                self.head = index;
            } else {
                proof {
                    if q == 0 {
                        assert(ord1[0] == last as int);
                    }
                }
                let mut e = self.entries[moved_prev];
                e.next = index;
                self.entries[moved_prev] = e;
            }
            if self.tail == last {
                proof {
                    if q != ord1.len() - 1 {
                        assert(ord1[q] == ord1[ord1.len() - 1]);
                    }
                }
                self.tail = index;
            } else {
                proof {
                    if q == ord1.len() - 1 {
                        assert(ord1[ord1.len() - 1] == last as int);
                    }
                }
                let mut e2 = self.entries[moved_next];
                e2.prev = index;
                self.entries[moved_next] = e2;
            }
            proof {
                let s2a = self.entries@;
                if q > 0 && q < ord1.len() - 1 {
                    assert(ord1[q - 1] != ord1[q + 1]);
                }
                if q > 0 {
                    assert(moved_prev as int == ord1[q - 1]);
                    assert(s2a[ord1[q - 1]].next == index as int);
                    assert(s2a[ord1[q - 1]].prev == s1[ord1[q - 1]].prev);
                }
                if q < ord1.len() - 1 {
                    assert(moved_next as int == ord1[q + 1]);
                    assert(s2a[ord1[q + 1]].prev == index as int);
                    assert(s2a[ord1[q + 1]].next == s1[ord1[q + 1]].next);
                }
                assert(self.head == if q == 0 { index } else { h1 });
                assert(self.tail == if q == ord1.len() - 1 { index } else { t1 });
            }
        }
        let ghost s2 = self.entries@;
        self.entries.swap_remove(index);
        proof {
            let rn = |j: int|
                if j == last as int {
                    index as int
                } else {
                    j
                };
            self.order@ = ord1.map_values(rn);
            let ord3 = self.order@;
            let s3 = self.entries@;
            assert forall|i: int| 0 <= i < ord1.len() implies ord1[i] != index as int by {
                assert(!ord1.contains(index as int));
            }
            if index == last {
                assert(ord3 =~= ord1);
                assert(s2 == s1);
                assert forall|i: int| 0 <= i < ord3.len() implies 0 <= #[trigger] ord3[i]
                    < s3.len() by {
                    if ord1[i] == last as int {
                        assert(ord1[i] == index as int);
                    }
                }
                assert forall|i: int| 0 <= i < ord3.len() implies #[trigger] s3[ord3[i]]
                    == s1[ord1[i]] by {}
                assert(links_ok(s3, self.head, self.tail, ord3));
            } else {
                assert(ord1[q] == last as int);
                lemma_compact_links(s1, s2, h1, t1, self.head, self.tail, ord1, index, q);
            }
            assert forall|i: int| 0 <= i < ord3.len() implies self@[i] == values_of(
                s1,
                ord1,
            )[i] by {
                assert(self@[i] == s3[ord3[i]].val);
                assert(s3[ord3[i]].val == s1[ord1[i]].val);
            }
            assert(self@ =~= values_of(s1, ord1));
        }
    }

    /// Removes the value held in slot `index` from the cache: the slot is
    /// unlinked from the chain, and the arena is compacted by moving the
    /// value of the highest live slot into the freed one. Slot indices
    /// handed out before this call are stale afterwards.
    pub fn remove(&mut self, index: usize)
        requires
            old(self).wf(),
            old(self).slots().contains(index as int),
        ensures
            final(self).wf(),
            final(self)@.len() == old(self)@.len() - 1,
            forall|k: int|
                0 <= k < old(self).slots().len() && old(self).slots()[k] == index as int ==> final(self)@ == old(self)@.remove(k),
    {
        let ghost ord0 = old(self).order@;
        let ghost s0 = old(self).entries@;
        let ghost p = ord0.index_of(index as int);
        self.unlink(index);
        let ghost ord1 = self.order@;
        proof {
            assert(ord1 == ord0.remove(p));
            assert(0 <= p < ord0.len() && ord0[p] == index as int);
            assert(index < self.entries@.len());
        }
        self.compact(index);
        proof {
            assert forall|k: int|
                0 <= k < ord0.len() && ord0[k] == index as int implies self@ == old(self)@.remove(
                k,
            ) by {
                if k != p {
                    assert(ord0[k] == ord0[p]);
                }
                assert forall|i: int| 0 <= i < self@.len() implies self@[i] == old(self)@.remove(
                    k,
                )[i] by {
                    assert(self@[i] == s0[ord1[i]].val);
                    if i < k {
                        assert(old(self)@.remove(k)[i] == old(self)@[i]);
                        assert(ord1[i] == ord0[i]);
                    } else {
                        assert(old(self)@.remove(k)[i] == old(self)@[i + 1]);
                        assert(ord1[i] == ord0[i + 1]);
                    }
                    assert(old(self)@.remove(k)[i] == s0[ord1[i]].val);
                }
                assert(self@ =~= old(self)@.remove(k));
            }
        }
    }

    /// Looks for the first value, in recency order, that the predicate
    /// accepts; when found, that value is promoted to the front and `true`
    /// is returned. Without a match the cache is left unchanged.
    pub fn touch<F: Fn(&T) -> bool>(&mut self, pred: F) -> (r: bool)
        requires
            old(self).wf(),
            forall|t: &T| call_requires(pred, (t,)),
        ensures
            final(self).wf(),
            final(self)@.len() == old(self)@.len(),
            !r ==> final(self)@ == old(self)@ && no_match_upto(
                pred,
                old(self)@,
                old(self)@.len() as int,
            ),
            r ==> exists|k: int|
                0 <= k < old(self)@.len() && #[trigger] call_ensures(pred, (&old(self)@[k],), true)
                    && no_match_upto(pred, old(self)@, k) && final(self)@ == promote(old(self)@, k),
    {
        match self.find_first(&pred) {
            Some((idx, _, _)) => {
                self.touch_index(idx);
                true
            },
            None => false,
        }
    }

    /// Looks for the first value, in recency order, that the
    /// predicate-transform maps to a result; when found, that value is
    /// promoted to the front and the result is returned. Without a match
    /// the cache is left unchanged.
    pub fn lookup<R, F: Fn(&T) -> Option<R>>(&mut self, pred: F) -> (r: Option<R>)
        requires
            old(self).wf(),
            forall|t: &T| call_requires(pred, (t,)),
        ensures
            final(self).wf(),
            final(self)@.len() == old(self)@.len(),
            match r {
                None => final(self)@ == old(self)@ && forall|j: int|
                    0 <= j < old(self)@.len() ==> call_ensures(
                        pred,
                        (&old(self)@[j],),
                        None::<R>,
                    ),
                Some(res) => exists|k: int|
                    0 <= k < old(self)@.len() && #[trigger] call_ensures(
                        pred,
                        (&old(self)@[k],),
                        Some(res),
                    ) && (forall|j: int|
                        0 <= j < k ==> call_ensures(pred, (&old(self)@[j],), None::<R>)) && final(self)@ == promote(old(self)@, k),
            },
    {
        if self.entries.len() == 0 {
            return None;
        }
        let mut pos = self.head;
        let ghost mut k: int = 0;
        loop
            invariant
                self.wf(),
                self == old(self),
                forall|t: &T| call_requires(pred, (t,)),
                0 <= k < self@.len(),
                pos as int == self.slots()[k],
                forall|j: int| 0 <= j < k ==> call_ensures(pred, (&self@[j],), None::<R>),
            decreases self@.len() - k,
        {
            let res = pred(&self.entries[pos].val);
            if let Some(out) = res {
                self.touch_index(pos);
                return Some(out);
            }
            if pos == self.tail {
                proof {
                    if k != self@.len() - 1 {
                        assert(self.order@[k] == self.order@[self.order@.len() - 1]);
                    }
                }
                return None;
            }
            pos = self.entries[pos].next;
            proof {
                if k == self@.len() - 1 {
                    assert(self.order@[k] == self.order@[self.order@.len() - 1]);
                }
                k = k + 1;
            }
        }
    }
}

/// Read-only traversal of a cache in recency order. Yields the slot index
/// and a reference to the value of each live entry, most recent first.
pub struct Iter<'a, T, const CAP: usize> {
    cache: &'a LRUCache<T, CAP>,
    pos: usize,
    emitted: usize,
}

impl<'a, T: Copy, const CAP: usize> Iter<'a, T, CAP> {
    /// The cursor points into a well-formed cache and at the chain member
    /// it will yield next.
    pub closed spec fn wf(self) -> bool {
        &&& self.cache.wf()
        &&& self.emitted <= self.cache@.len()
        &&& self.emitted < self.cache@.len() ==> self.pos as int == self.cache.slots()[
            self.emitted as int
        ]
    }

    /// The slot-index/value pairs still to be yielded.
    pub closed spec fn view(self) -> Seq<(usize, T)> {
        Seq::new(
            (self.cache@.len() - self.emitted as int) as nat,
            |i: int|
                (
                    self.cache.slots()[self.emitted + i] as usize,
                    self.cache@[self.emitted + i],
                ),
        )
    }

    fn new(cache: &'a LRUCache<T, CAP>) -> (r: Self)
        requires
            cache.wf(),
        ensures
            r.wf(),
            r@.len() == cache@.len(),
            forall|i: int|
                0 <= i < cache@.len() ==> (#[trigger] r@[i]).1 == cache@[i] && r@[i].0 as int
                    == cache.slots()[i],
    {
        Self { cache, pos: cache.head, emitted: 0 }
    }

    /// The next slot index and value in recency order, or nothing once the
    /// traversal is exhausted.
    pub fn next(&mut self) -> (r: Option<(usize, &'a T)>)
        requires
            old(self).wf(),
        ensures
            final(self).wf(),
            match r {
                Some((i, v)) => old(self)@.len() > 0 && i == old(self)@[0].0 && *v == old(self)@[0].1 && final(self)@ == old(self)@.drop_first(),
                None => old(self)@.len() == 0 && final(self)@ == old(self)@,
            },
    {
        if self.emitted == self.cache.len() {
            return None;
        }
        let index = self.pos;
        let v = &self.cache.entries[index].val;
        self.emitted = self.emitted + 1;
        if self.emitted < self.cache.entries.len() {
            self.pos = self.cache.entries[index].next;
        }
        proof {
            assert(final(self)@ =~= old(self)@.drop_first());
        }
        Some((index, v))
    }
}

/// Traversal for mutation: a snapshot of the chain's slot indices in
/// recency order, taken up front so that the cache itself stays free to be
/// borrowed mutably. Feed each yielded index to [`LRUCache::get_mut`].
pub struct IterMut<const CAP: usize> {
    indices: Vec<usize>,
    pos: usize,
}

impl<const CAP: usize> IterMut<CAP> {
    /// The slot indices still to be yielded.
    pub closed spec fn view(self) -> Seq<usize> {
        self.indices@.skip(self.pos as int)
    }

    pub closed spec fn wf(self) -> bool {
        self.pos <= self.indices@.len()
    }

    fn new<T: Copy>(cache: &LRUCache<T, CAP>) -> (r: Self)
        requires
            cache.wf(),
        ensures
            r.wf(),
            r@.len() == cache@.len(),
            forall|i: int| 0 <= i < cache@.len() ==> #[trigger] r@[i] as int == cache.slots()[i],
    {
        let mut indices: Vec<usize> = Vec::with_capacity(cache.entries.len());
        let mut it = Iter::new(cache);
        loop
            invariant
                it.wf(),
                cache.wf(),
                it@.len() + indices@.len() == cache@.len(),
                forall|i: int|
                    0 <= i < indices@.len() ==> #[trigger] indices@[i] as int == cache.slots()[i],
                forall|i: int|
                    0 <= i < it@.len() ==> (#[trigger] it@[i]).0 as int == cache.slots()[
                        indices@.len() + i
                    ],
            ensures
                it@.len() == 0,
            decreases it@.len(),
        {
            match it.next() {
                Some((i, _)) => {
                    indices.push(i);
                },
                None => {
                    break;
                },
            }
        }
        proof {
            assert(indices@.skip(0) =~= indices@);
            assert(indices@.len() == cache@.len());
        }
        Self { indices, pos: 0 }
    }

    /// The next slot index in recency order, or nothing once exhausted.
    pub fn next(&mut self) -> (r: Option<usize>)
        requires
            old(self).wf(),
        ensures
            final(self).wf(),
            match r {
                Some(i) => old(self)@.len() > 0 && i == old(self)@[0] && final(self)@ == old(self)@.drop_first(),
                None => old(self)@.len() == 0 && final(self)@ == old(self)@,
            },
    {
        if self.pos == self.indices.len() {
            return None;
        }
        let i = self.indices[self.pos];
        self.pos = self.pos + 1;
        proof {
            assert(final(self)@ =~= old(self)@.drop_first());
        }
        Some(i)
    }
}

impl<T: Copy, const CAP: usize> LRUCache<T, CAP> {
    /// A read-only traversal of the cache in recency order.
    pub fn iter(&self) -> (r: Iter<'_, T, CAP>)
        requires
            self.wf(),
        ensures
            r.wf(),
            r@.len() == self@.len(),
            forall|i: int|
                0 <= i < self@.len() ==> (#[trigger] r@[i]).1 == self@[i] && r@[i].0 as int
                    == self.slots()[i],
    {
        Iter::new(self)
    }

    /// The slot indices of the live entries in recency order, for mutation
    /// through [`LRUCache::get_mut`] one index at a time.
    pub fn iter_mut(&self) -> (r: IterMut<CAP>)
        requires
            self.wf(),
        ensures
            r.wf(),
            r@.len() == self@.len(),
            forall|i: int| 0 <= i < self@.len() ==> #[trigger] r@[i] as int == self.slots()[i],
    {
        IterMut::new(self)
    }

    /// A mutable reference to the value held in slot `index`. Writing
    /// through it replaces that value; the recency order is untouched.
    pub fn get_mut(&mut self, index: usize) -> (r: &mut T)
        requires
            old(self).wf(),
            old(self).slots().contains(index as int),
        ensures
            final(self).wf(),
            final(self).slots() == old(self).slots(),
            final(self)@.len() == old(self)@.len(),
            forall|k: int|
                0 <= k < old(self).slots().len() && old(self).slots()[k] == index as int ==> *r
                    == old(self)@[k] && final(self)@ =~= old(self)@.update(k, *final(r)),
    {
        proof {
            let k0 = choose|k0: int|
                0 <= k0 < old(self).order@.len() && old(self).order@[k0] == index as int;
            assert(old(self).order@[k0] < old(self).entries@.len());
        }
        &mut self.entries[index].val
    }
}

/// The abstract state after inserting the values of `vs`, in order, into
/// an empty cache of capacity `cap`.
pub open spec fn lru_fill<T>(vs: Seq<T>, cap: int) -> Seq<T>
    decreases vs.len(),
{
    if vs.len() == 0 {
        Seq::empty()
    } else {
        lru_step(lru_fill(vs.drop_last(), cap), vs.last(), cap)
    }
}

/// As long as no more values are inserted than the capacity admits,
/// nothing is evicted: after each insert the cache holds exactly the
/// values inserted so far, in reverse insertion order (most recent first),
/// so its length equals the number of inserts.
pub proof fn lemma_fill_below_cap<T>(vs: Seq<T>, cap: int)
    requires
        vs.len() <= cap,
    ensures
        lru_fill(vs, cap) == vs.reverse(),
        lru_fill(vs, cap).len() == vs.len(),
    decreases vs.len(),
{
    if vs.len() == 0 {
        assert(lru_fill(vs, cap) =~= vs.reverse());
    } else {
        lemma_fill_below_cap(vs.drop_last(), cap);
        assert(lru_fill(vs, cap) =~= vs.reverse());
    }
}

} // verus!
