//! The outstanding ping ids of a node, each with the time it was sent.
use vstd::prelude::*;

verus! {

/// Time elapsed from `from` to `now`; zero when the clock went backwards.
pub open spec fn elapsed(now: u64, from: u64) -> nat {
    if now >= from {
        (now - from) as nat
    } else {
        0
    }
}

/// The entries of `m` sent no longer than `timeout` before `now`.
pub open spec fn fresh_entries(m: Map<u64, u64>, now: u64, timeout: u64) -> Map<u64, u64> {
    Map::new(|k: u64| m.contains_key(k) && elapsed(now, m[k]) <= timeout, |k: u64| m[k])
}

/// The ids of a list of entries, in order.
pub open spec fn entry_ids(s: Seq<(u64, u64)>) -> Seq<u64> {
    s.map_values(|e: (u64, u64)| e.0)
}

/// Whether some entry of `s` has id `k`.
pub open spec fn has_entry(s: Seq<(u64, u64)>, k: u64) -> bool {
    exists|i: int| 0 <= i < s.len() && s[i].0 == k
}

/// The time of the last entry of `s` with id `k`.
pub open spec fn entry_time(s: Seq<(u64, u64)>, k: u64) -> u64
    decreases s.len(),
{
    if s.len() == 0 {
        0
    } else if s.last().0 == k {
        s.last().1
    } else {
        entry_time(s.drop_last(), k)
    }
}

proof fn lemma_entry_time(s: Seq<(u64, u64)>, i: int)
    requires
        entry_ids(s).no_duplicates(),
        0 <= i < s.len(),
    ensures
        entry_time(s, s[i].0) == s[i].1,
    decreases s.len(),
{
    if i < s.len() - 1 {
        assert(entry_ids(s)[i] != entry_ids(s)[s.len() - 1]);
        assert(entry_ids(s.drop_last()) =~= entry_ids(s).drop_last());
        lemma_entry_time(s.drop_last(), i);
    }
}

/// The map that a list of entries with distinct ids stands for.
pub open spec fn entries_map(s: Seq<(u64, u64)>) -> Map<u64, u64> {
    Map::new(|k: u64| has_entry(s, k), |k: u64| entry_time(s, k))
}

/// The ids from 1 to `c`.
spec fn id_range(c: u64) -> Set<u64> {
    Set::new(|j: u64| 1 <= j <= c)
}

proof fn lemma_id_range_len(c: u64)
    ensures
        id_range(c).finite(),
        id_range(c).len() == c,
    decreases c,
{
    if c == 0 {
        assert(id_range(0) =~= Set::empty());
    } else {
        let p = (c - 1) as u64;
        lemma_id_range_len(p);
        assert(id_range(c) =~= id_range(p).insert(c));
    }
}

/// A table of ping ids and the times they were sent. Id `0` never occurs.
#[derive(Clone, Debug)]
pub struct PingHash {
    entries: Vec<(u64, u64)>,
}

impl View for PingHash {
    type V = Map<u64, u64>;

    closed spec fn view(&self) -> Map<u64, u64> {
        entries_map(self.entries@)
    }
}

impl PingHash {
    /// Ids are distinct and nonzero, and there are fewer than `usize::MAX`.
    pub closed spec fn wf(&self) -> bool {
        &&& entry_ids(self.entries@).no_duplicates()
        &&& forall|i: int| 0 <= i < self.entries@.len() ==> #[trigger] self.entries@[i].0 != 0
        &&& self.entries@.len() < usize::MAX
    }

    proof fn lemma_index(&self, i: int)
        requires
            self.wf(),
            0 <= i < self.entries@.len(),
        ensures
            self@.contains_key(self.entries@[i].0),
            self@[self.entries@[i].0] == self.entries@[i].1,
    {
        let k = self.entries@[i].0;
        lemma_entry_time(self.entries@, i);
        assert(has_entry(self.entries@, k));
    }

    /// The number of ids equals the number of entries.
    proof fn lemma_len(&self)
        requires
            self.wf(),
        ensures
            self@.dom().finite(),
            self@.len() == self.entries@.len(),
    {
        let ids = entry_ids(self.entries@);
        ids.unique_seq_to_set();
        assert(self@.dom() =~= ids.to_set()) by {
            assert forall|k: u64| self@.dom().contains(k) implies ids.to_set().contains(k) by {
                let i = choose|i: int| 0 <= i < self.entries@.len() && self.entries@[i].0 == k;
                assert(ids[i] == k);
            }
            assert forall|k: u64| ids.to_set().contains(k) implies self@.dom().contains(k) by {
                let i = choose|i: int| 0 <= i < ids.len() && ids[i] == k;
                assert(self.entries@[i].0 == k);
            }
        }
    }

    /// An empty table.
    pub fn new() -> (r: PingHash)
        ensures
            r.wf(),
            r@ == Map::<u64, u64>::empty(),
    {
        let r = PingHash { entries: Vec::new() };
        assert(r@ =~= Map::<u64, u64>::empty());
        r
    }

    /// Whether the table holds no id.
    pub fn is_empty(&self) -> (r: bool)
        requires
            self.wf(),
        ensures
            r == (self@ == Map::<u64, u64>::empty()),
    {
        proof {
            if self.entries@.len() > 0 {
                self.lemma_index(0);
            } else {
                assert(self@ =~= Map::<u64, u64>::empty());
            }
        }
        self.entries.len() == 0
    }

    /// The number of ids in the table.
    pub fn len(&self) -> (r: usize)
        requires
            self.wf(),
        ensures
            r == self@.len(),
    {
        proof {
            self.lemma_len();
        }
        self.entries.len()
    }

    fn index_of(&self, id: u64) -> (r: Option<usize>)
        requires
            self.wf(),
        ensures
            match r {
                Some(i) => i < self.entries@.len() && self.entries@[i as int].0 == id,
                None => !self@.contains_key(id),
            },
    {
        let mut i: usize = 0;
        while i < self.entries.len()
            invariant
                0 <= i <= self.entries@.len(),
                forall|j: int| 0 <= j < i ==> self.entries@[j].0 != id,
            decreases self.entries@.len() - i,
        {
            if self.entries[i].0 == id {
                return Some(i);
            }
            i = i + 1;
        }
        None
    }

    /// Whether `id` is in the table.
    pub fn contains_key(&self, id: &u64) -> (r: bool)
        requires
            self.wf(),
        ensures
            r == self@.contains_key(*id),
    {
        match self.index_of(*id) {
            Some(i) => {
                proof {
                    self.lemma_index(i as int);
                }
                true
            },
            None => false,
        }
    }

    /// Adds `id`, sent at `time`.
    pub fn insert(&mut self, id: u64, time: u64)
        requires
            old(self).wf(),
            id != 0,
            !old(self)@.contains_key(id),
            old(self)@.len() + 1 < usize::MAX,
        ensures
            final(self).wf(),
            final(self)@ == old(self)@.insert(id, time),
    {
        proof {
            old(self).lemma_len();
        }
        let ghost old_entries = self.entries@;
        self.entries.push((id, time));
        proof {
            let s = self.entries@;
            assert(entry_ids(s) =~= entry_ids(old_entries).push(id));
            assert forall|i: int| 0 <= i < old_entries.len() implies entry_ids(old_entries)[i]
                != id by {
                assert(old_entries[i].0 == entry_ids(old_entries)[i]);
            }
            assert forall|k: u64| #[trigger] self@.contains_key(k) implies old(self)@.insert(
                id,
                time,
            ).contains_key(k) && self@[k] == old(self)@.insert(id, time)[k] by {
                let i = choose|i: int| 0 <= i < s.len() && s[i].0 == k;
                if i < old_entries.len() {
                    old(self).lemma_index(i);
                    self.lemma_index(i);
                } else {
                    self.lemma_index(i);
                }
            }
            assert forall|k: u64| #[trigger] old(self)@.insert(id, time).contains_key(k)
                implies self@.contains_key(k) by {
                if k == id {
                    assert(s[old_entries.len() as int].0 == id);
                } else {
                    let i = choose|i: int| 0 <= i < old_entries.len() && old_entries[i].0 == k;
                    assert(s[i].0 == k);
                }
            }
            assert(self@ =~= old(self)@.insert(id, time));
        }
    }

    /// Removes `id`, giving back the time it was sent if it was there.
    pub fn remove(&mut self, id: &u64) -> (r: Option<u64>)
        requires
            old(self).wf(),
        ensures
            final(self).wf(),
            final(self)@ == old(self)@.remove(*id),
            r == (if old(self)@.contains_key(*id) {
                Some(old(self)@[*id])
            } else {
                None::<u64>
            }),
    {
        match self.index_of(*id) {
            None => {
                assert(self@ =~= old(self)@.remove(*id));
                None
            },
            Some(i) => {
                proof {
                    self.lemma_index(i as int);
                }
                let ghost old_entries = self.entries@;
                let e = self.entries.remove(i);
                proof {
                    let s = self.entries@;
                    assert(s =~= old_entries.remove(i as int));
                    assert(entry_ids(s) =~= entry_ids(old_entries).remove(i as int));
                    assert forall|a: int, b: int|
                        0 <= a < s.len() && 0 <= b < s.len() && a != b implies entry_ids(s)[a]
                        != entry_ids(s)[b] by {
                        let a2 = if a < i { a } else { a + 1 };
                        let b2 = if b < i { b } else { b + 1 };
                        assert(entry_ids(old_entries)[a2] != entry_ids(old_entries)[b2]);
                    }
                    assert forall|j: int| 0 <= j < s.len() implies #[trigger] s[j].0 != 0 by {
                        let j2 = if j < i { j } else { j + 1 };
                        assert(old_entries[j2].0 != 0);
                    }
                    assert forall|k: u64| #[trigger] self@.contains_key(k) implies old(
                        self,
                    )@.remove(*id).contains_key(k) && self@[k] == old(self)@.remove(*id)[k] by {
                        let j = choose|j: int| 0 <= j < s.len() && s[j].0 == k;
                        let j2 = if j < i { j } else { j + 1 };
                        assert(entry_ids(old_entries)[j2] != entry_ids(old_entries)[i as int]);
                        old(self).lemma_index(j2);
                        self.lemma_index(j);
                    }
                    assert forall|k: u64| #[trigger] old(self)@.remove(*id).contains_key(k)
                        implies self@.contains_key(k) by {
                        let j2 = choose|j: int| 0 <= j < old_entries.len() && old_entries[j].0 == k;
                        if j2 < i {
                            assert(s[j2].0 == k);
                        } else {
                            assert(s[j2 - 1].0 == k);
                        }
                    }
                    assert(self@ =~= old(self)@.remove(*id));
                }
                Some(e.1)
            },
        }
    }

    /// The smallest id that is not in the table.
    pub fn smallest_free_id(&self) -> (r: u64)
        requires
            self.wf(),
        ensures
            r != 0,
            !self@.contains_key(r),
            forall|j: u64| 1 <= j < r ==> #[trigger] self@.contains_key(j),
    {
        let mut c: u64 = 1;
        while self.contains_key(&c)
            invariant
                self.wf(),
                1 <= c,
                forall|j: u64| 1 <= j < c ==> #[trigger] self@.contains_key(j),
            decreases usize::MAX - c,
        {
            proof {
                self.lemma_len();
                lemma_id_range_len(c);
                assert(id_range(c).subset_of(self@.dom()));
                vstd::set_lib::lemma_len_subset(id_range(c), self@.dom());
            }
            c = c + 1;
        }
        c
    }

    /// Keeps the ids sent no longer than `timeout` before `now`, and drops
    /// the others.
    pub fn retain_fresh(&mut self, now: u64, timeout: u64)
        requires
            old(self).wf(),
        ensures
            final(self).wf(),
            final(self)@ == fresh_entries(old(self)@, now, timeout),
    {
        let ghost old_entries = self.entries@;
        let mut kept: Vec<(u64, u64)> = Vec::new();
        let ghost mut idx: Seq<int> = Seq::empty();
        let mut i: usize = 0;
        while i < self.entries.len()
            invariant
                self.entries@ == old_entries,
                old(self).entries@ == old_entries,
                old(self).wf(),
                0 <= i <= old_entries.len(),
                kept@.len() == idx.len(),
                kept@.len() <= i,
                forall|j: int| 0 <= j < idx.len() ==> 0 <= #[trigger] idx[j] < i,
                forall|a: int, b: int| 0 <= a < b < idx.len() ==> idx[a] < idx[b],
                forall|j: int|
                    0 <= j < kept@.len() ==> #[trigger] kept@[j] == old_entries[idx[j]],
                forall|j: int|
                    0 <= j < kept@.len() ==> elapsed(now, #[trigger] kept@[j].1) <= timeout,
                forall|k: int|
                    0 <= k < i && elapsed(now, old_entries[k].1) <= timeout ==> exists|j: int|
                        0 <= j < idx.len() && #[trigger] idx[j] == k,
            decreases old_entries.len() - i,
        {
            let e = self.entries[i];
            let age = if now >= e.1 {
                now - e.1
            } else {
                0
            };
            if age <= timeout {
                kept.push(e);
                proof {
                    let old_idx = idx;
                    idx = idx.push(i as int);
                    assert(idx[idx.len() - 1] == i as int);
                    assert forall|k: int|
                        0 <= k < i && elapsed(now, old_entries[k].1) <= timeout implies exists|
                        j: int,
                    | 0 <= j < idx.len() && #[trigger] idx[j] == k by {
                        let j = choose|j: int| 0 <= j < old_idx.len() && old_idx[j] == k;
                        assert(idx[j] == k);
                    }
                }
            }
            i = i + 1;
        }
        self.entries = kept;
        proof {
            let s = self.entries@;
            assert forall|a: int, b: int|
                0 <= a < s.len() && 0 <= b < s.len() && a != b implies entry_ids(s)[a]
                != entry_ids(s)[b] by {
                assert(entry_ids(old_entries)[idx[a]] != entry_ids(old_entries)[idx[b]]);
            }
            assert forall|j: int| 0 <= j < s.len() implies #[trigger] s[j].0 != 0 by {
                assert(old_entries[idx[j]].0 != 0);
            }
            let target = fresh_entries(old(self)@, now, timeout);
            assert forall|k: u64| #[trigger] self@.contains_key(k) implies target.contains_key(k)
                && self@[k] == target[k] by {
                let j = choose|j: int| 0 <= j < s.len() && s[j].0 == k;
                old(self).lemma_index(idx[j]);
                self.lemma_index(j);
            }
            assert forall|k: u64| #[trigger] target.contains_key(k) implies self@.contains_key(k) by {
                let m = choose|m: int| 0 <= m < old_entries.len() && old_entries[m].0 == k;
                old(self).lemma_index(m);
                let j = choose|j: int| 0 <= j < idx.len() && #[trigger] idx[j] == m;
                assert(s[j].0 == k);
            }
            assert(self@ =~= target);
        }
    }
}

} // verus!
