//! The pending seal set: which seal units wait for a sealer, and the
//! generation in which each was queued. Kept in ascending order of the seal
//! index.

use crate::params::SEALS_PER_LOAD;
use vstd::prelude::*;

verus! {

/// Strictly ascending by seal index, so no index occurs twice.
pub open spec fn ascending(s: Seq<(u64, u64)>) -> bool {
    forall|i: int, j: int| 0 <= i < j < s.len() ==> (#[trigger] s[i]).0 < (#[trigger] s[j]).0
}

/// Whether the entry at `i` has the seal index `k`.
pub open spec fn key_at(s: Seq<(u64, u64)>, k: u64, i: int) -> bool {
    0 <= i < s.len() && s[i].0 == k
}

/// The mapping that a list of entries stands for.
pub open spec fn entries_map(s: Seq<(u64, u64)>) -> Map<u64, u64> {
    Map::new(
        |k: u64| exists|i: int| key_at(s, k, i),
        |k: u64| s[choose|i: int| key_at(s, k, i)].1,
    )
}

/// In an ascending list each entry is what the mapping holds for its index.
pub proof fn lemma_entries_map(s: Seq<(u64, u64)>, i: int)
    requires
        ascending(s),
        0 <= i < s.len(),
    ensures
        entries_map(s).contains_key(s[i].0),
        entries_map(s)[s[i].0] == s[i].1,
{
    let k = s[i].0;
    assert(key_at(s, k, i));
    let j = choose|j: int| key_at(s, k, j);
    assert(key_at(s, k, j));
    if j < i {
        assert(s[j].0 < s[i].0);
    }
    if i < j {
        assert(s[i].0 < s[j].0);
    }
}

/// The seal indices that belong to one of the batches in `batch_list`.
pub open spec fn in_batches(batch_list: Seq<u64>) -> Set<u64> {
    Set::new(|k: u64| batch_list.contains(k / (SEALS_PER_LOAD as u64)))
}

/// The seal indices from `k` on.
pub open spec fn from_index(k: u64) -> Set<u64> {
    Set::new(|x: u64| x >= k)
}

/// The pending seal set.
pub struct PendingSet {
    entries: Vec<(u64, u64)>,
}

impl View for PendingSet {
    type V = Map<u64, u64>;

    closed spec fn view(&self) -> Map<u64, u64> {
        entries_map(self.entries@)
    }
}

impl PendingSet {
    /// The entries in ascending order of the seal index.
    pub closed spec fn ordered(&self) -> Seq<(u64, u64)> {
        self.entries@
    }

    /// The entries are in strictly ascending order.
    pub closed spec fn wf(&self) -> bool {
        ascending(self.entries@)
    }

    /// How `ordered` and the view go together: the list is strictly
    /// ascending, and it holds exactly the pairs of the mapping.
    pub proof fn lemma_ordered(&self)
        requires
            self.wf(),
        ensures
            ascending(self.ordered()),
            self@ == entries_map(self.ordered()),
            self@.dom().finite(),
            self@.len() == self.ordered().len(),
            forall|i: int|
                0 <= i < self.ordered().len() ==> self@.contains_key(
                    (#[trigger] self.ordered()[i]).0,
                ) && self@[self.ordered()[i].0] == self.ordered()[i].1,
            forall|k: u64| #[trigger]
                self@.contains_key(k) ==> exists|i: int| key_at(self.ordered(), k, i),
    {
        let s = self.entries@;
        assert forall|i: int| 0 <= i < s.len() implies entries_map(s).contains_key(
            (#[trigger] s[i]).0,
        ) && entries_map(s)[s[i].0] == s[i].1 by {
            lemma_entries_map(s, i);
        }
        lemma_entries_len(s);
    }

    /// An empty set.
    pub fn new() -> (r: PendingSet)
        ensures
            r.wf(),
            r@ == Map::<u64, u64>::empty(),
            r.ordered().len() == 0,
    {
        let r = PendingSet { entries: Vec::new() };
        assert(r@ =~= Map::<u64, u64>::empty());
        r
    }

    /// The number of entries.
    pub fn len(&self) -> (n: usize)
        ensures
            n == self.ordered().len(),
    {
        self.entries.len()
    }

    /// The entry at place `i` of the ascending order.
    pub fn nth(&self, i: usize) -> (e: (u64, u64))
        requires
            i < self.ordered().len(),
        ensures
            e == self.ordered()[i as int],
    {
        self.entries[i]
    }

    /// The entries in ascending order of the seal index.
    pub fn to_vec(&self) -> (list: Vec<(u64, u64)>)
        ensures
            list@ == self.ordered(),
    {
        let mut list: Vec<(u64, u64)> = Vec::with_capacity(self.entries.len());
        let mut i: usize = 0;
        while i < self.entries.len()
            invariant
                i <= self.entries@.len(),
                list@ == self.entries@.take(i as int),
            decreases self.entries@.len() - i,
        {
            list.push(self.entries[i]);
            assert(list@ =~= self.entries@.take(i as int + 1));
            i += 1;
        }
        assert(self.entries@.take(self.entries@.len() as int) =~= self.entries@);
        list
    }

    /// The first place whose seal index is `k` or more.
    fn lower_bound(&self, k: u64) -> (p: usize)
        requires
            self.wf(),
        ensures
            p <= self.entries@.len(),
            forall|i: int| 0 <= i < p ==> (#[trigger] self.entries@[i]).0 < k,
            forall|i: int| p <= i < self.entries@.len() ==> (#[trigger] self.entries@[i]).0 >= k,
    {
        let mut p: usize = 0;
        while p < self.entries.len() && self.entries[p].0 < k
            invariant
                self.wf(),
                p <= self.entries@.len(),
                forall|i: int| 0 <= i < p ==> (#[trigger] self.entries@[i]).0 < k,
            decreases self.entries@.len() - p,
        {
            p += 1;
        }
        assert forall|i: int| p <= i < self.entries@.len() implies (#[trigger] self.entries@[i]).0
            >= k by {
            if p < i {
                assert(self.entries@[p as int].0 < self.entries@[i].0);
            }
        }
        p
    }

    /// The generation queued for seal index `k`, if it is pending.
    pub fn get(&self, k: u64) -> (r: Option<u64>)
        requires
            self.wf(),
        ensures
            r == (if self@.contains_key(k) {
                Some(self@[k])
            } else {
                None
            }),
    {
        let p = self.lower_bound(k);
        if p < self.entries.len() && self.entries[p].0 == k {
            proof {
                lemma_entries_map(self.entries@, p as int);
            }
            Some(self.entries[p].1)
        } else {
            proof {
                if self@.contains_key(k) {
                    let i = choose|i: int| key_at(self.entries@, k, i);
                    assert(key_at(self.entries@, k, i));
                    assert(self.entries@[i].0 == k);
                }
            }
            None
        }
    }

    /// The entry with the smallest seal index.
    pub fn first(&self) -> (r: Option<(u64, u64)>)
        requires
            self.wf(),
        ensures
            r is None <==> self@.dom() == Set::<u64>::empty(),
            r is None <==> self.ordered().len() == 0,
            r matches Some(e) ==> e == self.ordered()[0] && self@.contains_key(e.0) && self@[e.0]
                == e.1 && forall|k: u64| #[trigger] self@.contains_key(k) ==> e.0 <= k,
    {
        if self.entries.len() == 0 {
            assert(self@.dom() =~= Set::<u64>::empty()) by {
                assert forall|k: u64| !self@.dom().contains(k) by {
                    if self@.contains_key(k) {
                        let i = choose|i: int| key_at(self.entries@, k, i);
                        assert(key_at(self.entries@, k, i));
                    }
                }
            }
            None
        } else {
            let e = self.entries[0];
            proof {
                lemma_entries_map(self.entries@, 0);
                assert forall|k: u64| #[trigger] self@.contains_key(k) implies e.0 <= k by {
                    let i = choose|i: int| key_at(self.entries@, k, i);
                    assert(key_at(self.entries@, k, i));
                    if i > 0 {
                        assert(self.entries@[0].0 < self.entries@[i].0);
                    }
                }
                assert(self@.dom().contains(e.0));
            }
            Some(e)
        }
    }

    /// Queues seal index `k` in generation `v`, in place of whatever was
    /// queued for `k`.
    pub fn insert(&mut self, k: u64, v: u64)
        requires
            old(self).wf(),
        ensures
            final(self).wf(),
            final(self)@ == old(self)@.insert(k, v),
    {
        let p = self.lower_bound(k);
        let ghost before = self.entries@;
        if p < self.entries.len() && self.entries[p].0 == k {
            self.entries.set(p, (k, v));
        } else {
            self.entries.insert(p, (k, v));
        }
        proof {
            let after = self.entries@;
            assert(ascending(after));
            assert forall|x: u64| entries_map(after).contains_key(x) <==> (x == k || entries_map(
                before,
            ).contains_key(x)) by {
                if entries_map(after).contains_key(x) {
                    let i = choose|i: int| key_at(after, x, i);
                    assert(key_at(after, x, i));
                    if x != k {
                        if before.len() == after.len() {
                            assert(key_at(before, x, i));
                        } else if i < p {
                            assert(key_at(before, x, i));
                        } else {
                            assert(key_at(before, x, i - 1));
                        }
                    }
                }
                if x == k {
                    assert(key_at(after, x, p as int));
                }
                if entries_map(before).contains_key(x) && x != k {
                    let i = choose|i: int| key_at(before, x, i);
                    assert(key_at(before, x, i));
                    if before.len() == after.len() {
                        assert(key_at(after, x, i));
                    } else if i < p {
                        assert(key_at(after, x, i));
                    } else {
                        assert(key_at(after, x, i + 1));
                    }
                }
            }
            assert forall|x: u64| entries_map(after).contains_key(x) implies entries_map(after)[x]
                == before_or(entries_map(before), k, v, x) by {
                let i = choose|i: int| key_at(after, x, i);
                assert(key_at(after, x, i));
                lemma_entries_map(after, i);
                if x != k {
                    if before.len() == after.len() {
                        lemma_entries_map(before, i);
                    } else if i < p {
                        lemma_entries_map(before, i);
                    } else {
                        lemma_entries_map(before, i - 1);
                    }
                }
            }
            assert(entries_map(after) =~= entries_map(before).insert(k, v));
        }
    }

    /// Takes seal index `k` out of the set, if it is there.
    pub fn remove(&mut self, k: u64)
        requires
            old(self).wf(),
        ensures
            final(self).wf(),
            final(self)@ == old(self)@.remove(k),
    {
        let p = self.lower_bound(k);
        let ghost before = self.entries@;
        if p < self.entries.len() && self.entries[p].0 == k {
            self.entries.remove(p);
            proof {
                let after = self.entries@;
                assert(ascending(after));
                assert forall|x: u64| entries_map(after).contains_key(x) <==> (x != k
                    && entries_map(before).contains_key(x)) by {
                    if entries_map(after).contains_key(x) {
                        let i = choose|i: int| key_at(after, x, i);
                        assert(key_at(after, x, i));
                        if i < p {
                            assert(key_at(before, x, i));
                            assert(before[i].0 < before[p as int].0);
                        } else {
                            assert(key_at(before, x, i + 1));
                            assert(before[p as int].0 < before[i + 1].0);
                        }
                    }
                    if entries_map(before).contains_key(x) && x != k {
                        let i = choose|i: int| key_at(before, x, i);
                        assert(key_at(before, x, i));
                        if i < p {
                            assert(key_at(after, x, i));
                        } else {
                            assert(key_at(after, x, i - 1));
                        }
                    }
                }
                assert forall|x: u64| entries_map(after).contains_key(x) implies entries_map(
                    after,
                )[x] == entries_map(before)[x] by {
                    let i = choose|i: int| key_at(after, x, i);
                    assert(key_at(after, x, i));
                    lemma_entries_map(after, i);
                    if i < p {
                        lemma_entries_map(before, i);
                    } else {
                        lemma_entries_map(before, i + 1);
                    }
                }
                assert(entries_map(after) =~= entries_map(before).remove(k));
            }
        } else {
            proof {
                if entries_map(before).contains_key(k) {
                    let i = choose|i: int| key_at(before, k, i);
                    assert(key_at(before, k, i));
                    assert(before[i].0 == k);
                }
                assert(entries_map(before) =~= entries_map(before).remove(k));
            }
        }
    }

    /// Takes every seal index from `k` on out of the set.
    pub fn split_off(&mut self, k: u64)
        requires
            old(self).wf(),
        ensures
            final(self).wf(),
            final(self)@ == old(self)@.remove_keys(from_index(k)),
    {
        let p = self.lower_bound(k);
        let ghost before = self.entries@;
        self.entries.truncate(p);
        proof {
            let after = self.entries@;
            assert(after =~= before.take(p as int));
            assert(ascending(after));
            assert forall|x: u64| entries_map(after).contains_key(x) <==> (x < k && entries_map(
                before,
            ).contains_key(x)) by {
                if entries_map(after).contains_key(x) {
                    let i = choose|i: int| key_at(after, x, i);
                    assert(key_at(after, x, i));
                    assert(key_at(before, x, i));
                    assert(before[i].0 < k);
                }
                if entries_map(before).contains_key(x) && x < k {
                    let i = choose|i: int| key_at(before, x, i);
                    assert(key_at(before, x, i));
                    assert(before[i].0 < k);
                    assert(key_at(after, x, i));
                }
            }
            assert forall|x: u64| entries_map(after).contains_key(x) implies entries_map(after)[x]
                == entries_map(before)[x] by {
                let i = choose|i: int| key_at(after, x, i);
                assert(key_at(after, x, i));
                lemma_entries_map(after, i);
                lemma_entries_map(before, i);
            }
            assert(entries_map(after) =~= entries_map(before).remove_keys(from_index(k)));
        }
    }

    /// Takes out every seal index that belongs to one of the batches in
    /// `batch_list`.
    pub fn remove_batches(&mut self, batch_list: &[u64])
        requires
            old(self).wf(),
        ensures
            final(self).wf(),
            final(self)@ == old(self)@.remove_keys(in_batches(batch_list@)),
    {
        let ghost before = self.entries@;
        let ghost keep = keeps(in_batches(batch_list@));
        let mut kept: Vec<(u64, u64)> = Vec::new();
        let mut i: usize = 0;
        assert(before.take(0) =~= Seq::<(u64, u64)>::empty());
        while i < self.entries.len()
            invariant
                self.entries@ == before,
                keep == keeps(in_batches(batch_list@)),
                i <= before.len(),
                kept@ == before.take(i as int).filter(keep),
            decreases before.len() - i,
        {
            let e = self.entries[i];
            let listed = contains_u64(batch_list, e.0 / (SEALS_PER_LOAD as u64));
            proof {
                assert(before.take(i as int + 1) =~= before.take(i as int).push(e));
                crate::seq_util::lemma_filter_push(before.take(i as int), e, keep);
            }
            if !listed {
                kept.push(e);
            }
            i += 1;
        }
        proof {
            assert(before.take(before.len() as int) =~= before);
            lemma_filter_entries(before, in_batches(batch_list@));
        }
        self.entries = kept;
    }
}

/// The test that an entry passes when its seal index is not in `drop`.
pub open spec fn keeps(drop: Set<u64>) -> spec_fn((u64, u64)) -> bool {
    |e: (u64, u64)| !drop.contains(e.0)
}

/// Whether `e` stands at place `t` of `s`.
pub open spec fn elem_at(s: Seq<(u64, u64)>, e: (u64, u64), t: int) -> bool {
    0 <= t < s.len() && s[t] == e
}

proof fn lemma_filter_entries(s: Seq<(u64, u64)>, drop: Set<u64>)
    requires
        ascending(s),
    ensures
        ascending(s.filter(keeps(drop))),
        entries_map(s.filter(keeps(drop))) == entries_map(s).remove_keys(drop),
        forall|j: int|
            0 <= j < s.filter(keeps(drop)).len() ==> !drop.contains(
                (#[trigger] s.filter(keeps(drop))[j]).0,
            ) && exists|t: int| elem_at(s, s.filter(keeps(drop))[j], t),
        forall|t: int|
            0 <= t < s.len() && !drop.contains((#[trigger] s[t]).0) ==> exists|j: int|
                elem_at(s.filter(keeps(drop)), s[t], j),
    decreases s.len(),
{
    reveal(Seq::filter);
    let keep = keeps(drop);
    let f = s.filter(keep);
    if s.len() > 0 {
        let t0 = s.drop_last();
        let last = s.last();
        let f0 = t0.filter(keep);
        assert(ascending(t0));
        lemma_filter_entries(t0, drop);
        assert forall|j: int| 0 <= j < f.len() implies !drop.contains((#[trigger] f[j]).0)
            && exists|t: int| elem_at(s, f[j], t) by {
            if j < f0.len() {
                let t = choose|t: int| elem_at(t0, f0[j], t);
                assert(elem_at(s, f[j], t));
            } else {
                assert(elem_at(s, f[j], s.len() - 1));
            }
        }
        assert forall|t: int| 0 <= t < s.len() && !drop.contains((#[trigger] s[t]).0) implies exists|
            j: int,
        | elem_at(f, s[t], j) by {
            if t < t0.len() {
                assert(t0[t] == s[t]);
                let j = choose|j: int| elem_at(f0, t0[t], j);
                assert(elem_at(f, s[t], j));
            } else {
                assert(elem_at(f, s[t], f.len() - 1));
            }
        }
        assert forall|a: int, b: int| 0 <= a < b < f.len() implies (#[trigger] f[a]).0 < (
        #[trigger] f[b]).0 by {
            if b < f0.len() {
                assert(f0[a].0 < f0[b].0);
            } else {
                let t = choose|t: int| elem_at(t0, f0[a], t);
                assert(s[t].0 < s[s.len() - 1].0);
            }
        }
    }
    assert forall|x: u64| entries_map(f).contains_key(x) <==> (!drop.contains(x) && entries_map(
        s,
    ).contains_key(x)) by {
        if entries_map(f).contains_key(x) {
            let j = choose|j: int| key_at(f, x, j);
            assert(key_at(f, x, j));
            let t = choose|t: int| elem_at(s, f[j], t);
            assert(key_at(s, x, t));
        }
        if entries_map(s).contains_key(x) && !drop.contains(x) {
            let t = choose|t: int| key_at(s, x, t);
            assert(key_at(s, x, t));
            let j = choose|j: int| elem_at(f, s[t], j);
            assert(key_at(f, x, j));
        }
    }
    assert forall|x: u64| entries_map(f).contains_key(x) implies entries_map(f)[x] == entries_map(
        s,
    )[x] by {
        let j = choose|j: int| key_at(f, x, j);
        assert(key_at(f, x, j));
        lemma_entries_map(f, j);
        let t = choose|t: int| elem_at(s, f[j], t);
        lemma_entries_map(s, t);
    }
    assert(entries_map(f) =~= entries_map(s).remove_keys(drop));
}

/// A selection from an ascending list is ascending.
proof fn lemma_filter_sorted(s: Seq<(u64, u64)>, pred: spec_fn((u64, u64)) -> bool)
    requires
        ascending(s),
    ensures
        ascending(s.filter(pred)),
        s.filter(pred).len() > 0 ==> s.len() > 0 && s.filter(pred).last().0 <= s.last().0,
    decreases s.len(),
{
    reveal(Seq::filter);
    if s.len() > 0 {
        let head = s.drop_last();
        let last = s.last();
        assert(ascending(head)) by {
            assert forall|i: int, j: int| 0 <= i < j < head.len() implies (#[trigger] head[i]).0 < (
            #[trigger] head[j]).0 by {
                assert(s[i].0 < s[j].0);
            }
        }
        lemma_filter_sorted(head, pred);
        let inner = head.filter(pred);
        let all = s.filter(pred);
        if inner.len() > 0 {
            assert(head[head.len() - 1].0 < s[s.len() - 1].0);
        }
        if pred(last) {
            assert(all == inner.push(last));
            assert forall|i: int, j: int| 0 <= i < j < all.len() implies (#[trigger] all[i]).0 < (
            #[trigger] all[j]).0 by {
                if j < inner.len() {
                    assert(inner[i].0 < inner[j].0);
                } else if i < inner.len() - 1 {
                    assert(inner[i].0 < inner[inner.len() - 1].0);
                }
            }
        } else {
            assert(all == inner);
        }
    }
}

/// A selection from an ascending list is ascending, holds only entries of
/// the list that pass, and holds every entry of the list that passes.
pub proof fn lemma_filter_ascending(s: Seq<(u64, u64)>, pred: spec_fn((u64, u64)) -> bool)
    requires
        ascending(s),
    ensures
        ascending(s.filter(pred)),
        forall|j: int|
            0 <= j < s.filter(pred).len() ==> pred(#[trigger] s.filter(pred)[j]) && exists|t: int|
                elem_at(s, s.filter(pred)[j], t),
        forall|t: int|
            0 <= t < s.len() && pred(#[trigger] s[t]) ==> exists|j: int|
                elem_at(s.filter(pred), s[t], j),
        s.len() > 0 && pred(s[0]) ==> s.filter(pred).len() > 0 && s.filter(pred)[0] == s[0],
{
    let f = s.filter(pred);
    lemma_filter_sorted(s, pred);
    crate::seq_util::lemma_filter_twice(s, pred);
    assert forall|j: int| 0 <= j < f.len() implies pred(#[trigger] f[j]) && exists|t: int|
        elem_at(s, f[j], t) by {
        s.lemma_filter_pred(pred, j);
        assert(s.contains(f[j]));
        let t = choose|t: int| 0 <= t < s.len() && s[t] == f[j];
        assert(elem_at(s, f[j], t));
    }
    assert forall|t: int| 0 <= t < s.len() && pred(#[trigger] s[t]) implies exists|j: int|
        elem_at(f, s[t], j) by {
        s.lemma_filter_contains(pred, t);
        let j = choose|j: int| 0 <= j < f.len() && f[j] == s[t];
        assert(elem_at(f, s[t], j));
    }
    if s.len() > 0 && pred(s[0]) {
        s.lemma_filter_contains(pred, 0);
        let j = choose|j: int| 0 <= j < f.len() && f[j] == s[0];
        if j > 0 {
            assert(f[0].0 < f[j].0);
            assert(s.contains(f[0]));
            let t = choose|t: int| 0 <= t < s.len() && s[t] == f[0];
            if t > 0 {
                assert(s[0].0 < s[t].0);
            }
        }
    }
}

/// In an ascending list the seal index at place `j` is at least `j` above
/// the first.
pub proof fn lemma_ascending_gap(s: Seq<(u64, u64)>, j: int)
    requires
        ascending(s),
        0 <= j < s.len(),
    ensures
        s[j].0 >= s[0].0 + j,
    decreases j,
{
    if j > 0 {
        lemma_ascending_gap(s, j - 1);
        assert(s[j - 1].0 < s[j].0);
    }
}

/// What a mapping holds for `x` once `k` has been set to `v`.
pub open spec fn before_or(m: Map<u64, u64>, k: u64, v: u64, x: u64) -> u64 {
    if x == k {
        v
    } else {
        m[x]
    }
}

proof fn lemma_entries_len(s: Seq<(u64, u64)>)
    requires
        ascending(s),
    ensures
        entries_map(s).dom().finite(),
        entries_map(s).dom().len() == s.len(),
    decreases s.len(),
{
    if s.len() == 0 {
        assert(entries_map(s).dom() =~= Set::<u64>::empty()) by {
            assert forall|k: u64| !entries_map(s).dom().contains(k) by {
                if entries_map(s).contains_key(k) {
                    let i = choose|i: int| key_at(s, k, i);
                    assert(key_at(s, k, i));
                }
            }
        }
    } else {
        let t = s.drop_last();
        let last = s.last();
        assert(ascending(t));
        lemma_entries_len(t);
        assert(entries_map(s).dom() =~= entries_map(t).dom().insert(last.0)) by {
            assert forall|k: u64| entries_map(s).dom().contains(k) <==> entries_map(
                t,
            ).dom().insert(last.0).contains(k) by {
                if entries_map(s).contains_key(k) {
                    let i = choose|i: int| key_at(s, k, i);
                    assert(key_at(s, k, i));
                    if i < t.len() {
                        assert(key_at(t, k, i));
                    }
                }
                if entries_map(t).contains_key(k) {
                    let i = choose|i: int| key_at(t, k, i);
                    assert(key_at(t, k, i));
                    assert(key_at(s, k, i));
                }
                if k == last.0 {
                    assert(key_at(s, k, s.len() - 1));
                }
            }
        }
        assert(!entries_map(t).dom().contains(last.0)) by {
            if entries_map(t).contains_key(last.0) {
                let i = choose|i: int| key_at(t, last.0, i);
                assert(key_at(t, last.0, i));
                assert(s[i].0 < s[s.len() - 1].0);
            }
        }
    }
}

/// Whether `x` occurs in `list`.
pub fn contains_u64(list: &[u64], x: u64) -> (r: bool)
    ensures
        r == list@.contains(x),
{
    let mut i: usize = 0;
    while i < list.len()
        invariant
            i <= list.len(),
            forall|j: int| 0 <= j < i ==> list@[j] != x,
        decreases list.len() - i,
    {
        if list[i] == x {
            return true;
        }
        i += 1;
    }
    false
}

} // verus!
