//! The in-memory key-value store: a map from keys to generation-stamped
//! entries, a time-ordered expiration index, and the reclamation step
//! that a background task runs. The store itself is single-threaded
//! state; callers share it behind a lock and never hold that lock
//! across I/O.

use vstd::prelude::*;

verus! {

/// One stored value: its generation id, its bytes, and an optional
/// absolute deadline (a millisecond timestamp) after which it expires.
pub struct Entry {
    pub id: u64,
    pub data: Vec<u8>,
    pub expires_at: Option<u64>,
}

/// The mathematical shape of an entry.
pub struct EntryModel {
    pub id: u64,
    pub data: Seq<u8>,
    pub expires_at: Option<u64>,
}

impl Entry {
    /// The model of this entry.
    pub open spec fn model(self) -> EntryModel {
        EntryModel { id: self.id, data: self.data@, expires_at: self.expires_at }
    }
}

/// True when the entry is not yet past its deadline at time `now`.
pub open spec fn live(e: EntryModel, now: u64) -> bool {
    match e.expires_at {
        None => true,
        Some(t) => t > now,
    }
}

/// Strict lexicographic order on (deadline, generation id).
pub open spec fn sched_lt(a: (u64, u64), b: (u64, u64)) -> bool {
    a.0 < b.0 || (a.0 == b.0 && a.1 < b.1)
}

/// The key-to-entry map an association list stands for; a later pair
/// for the same key wins.
pub open spec fn entries_map(s: Seq<(String, Entry)>) -> Map<Seq<char>, EntryModel>
    decreases s.len(),
{
    if s.len() == 0 {
        Map::empty()
    } else {
        entries_map(s.drop_last()).insert(s.last().0@, s.last().1.model())
    }
}

/// The whole state of the store. Keys are unique, the expiration index
/// is kept sorted by (deadline, id), and every recorded id is below the
/// generation counter.
pub struct Store {
    entries: Vec<(String, Entry)>,
    expirations: Vec<(u64, u64, String)>,
    next_id: u64,
    shutdown: bool,
}

impl Store {
    /// The key-value map this store holds.
    pub closed spec fn map(&self) -> Map<Seq<char>, EntryModel> {
        entries_map(self.entries@)
    }

    /// The expiration index: (deadline, id, key), soonest first.
    pub closed spec fn sched(&self) -> Seq<(u64, u64, Seq<char>)> {
        Seq::new(
            self.expirations@.len(),
            |i: int|
                (self.expirations@[i].0, self.expirations@[i].1, self.expirations@[i].2@),
        )
    }

    /// The next generation id to hand out.
    pub closed spec fn generation(&self) -> u64 {
        self.next_id
    }

    /// True once shutdown has been requested of the reclaimer.
    pub closed spec fn closing(&self) -> bool {
        self.shutdown
    }

    /// The store's internal invariant.
    pub closed spec fn wf(&self) -> bool {
        &&& forall|i: int, j: int|
            0 <= i < j < self.entries@.len() ==> (#[trigger] self.entries@[i]).0@ != (
            #[trigger] self.entries@[j]).0@
        &&& forall|i: int, j: int|
            0 <= i < j < self.expirations@.len() ==> sched_lt(
                ((#[trigger] self.expirations@[i]).0, self.expirations@[i].1),
                ((#[trigger] self.expirations@[j]).0, self.expirations@[j].1),
            )
        &&& forall|i: int|
            0 <= i < self.entries@.len() ==> (#[trigger] self.entries@[i]).1.id < self.next_id
        &&& forall|i: int|
            0 <= i < self.expirations@.len() ==> (#[trigger] self.expirations@[i]).1
                < self.next_id
    }

    /// A fresh store: empty, generation zero, not shutting down.
    pub fn new() -> (s: Store)
        ensures
            s.wf(),
            s.map() == Map::<Seq<char>, EntryModel>::empty(),
            s.sched() == Seq::<(u64, u64, Seq<char>)>::empty(),
            s.generation() == 0,
            !s.closing(),
    {
        let s = Store { entries: Vec::new(), expirations: Vec::new(), next_id: 0, shutdown: false };
        proof {
            assert(s.sched() =~= Seq::<(u64, u64, Seq<char>)>::empty());
        }
        s
    }

    /// The generation counter's current value.
    pub fn current_generation(&self) -> (r: u64)
        ensures
            r == self.generation(),
    {
        self.next_id
    }

    /// Whether shutdown has been requested.
    pub fn is_shutdown(&self) -> (r: bool)
        ensures
            r == self.closing(),
    {
        self.shutdown
    }

    /// Requests that the background reclaimer stop.
    pub fn set_shutdown(&mut self)
        requires
            old(self).wf(),
        ensures
            final(self).wf(),
            final(self).closing(),
            final(self).map() == old(self).map(),
            final(self).sched() == old(self).sched(),
            final(self).generation() == old(self).generation(),
    {
        self.shutdown = true;
        proof {
            assert(self.sched() =~= old(self).sched());
        }
    }
}

impl Store {
    /// The index of the pair holding `key`, if any.
    fn find_key(&self, key: &String) -> (r: Option<usize>)
        ensures
            match r {
                Some(i) => i < self.entries@.len() && self.entries@[i as int].0@ == key@,
                None => forall|i: int|
                    0 <= i < self.entries@.len() ==> (#[trigger] self.entries@[i]).0@ != key@,
            },
    {
        let mut i: usize = 0;
        while i < self.entries.len()
            invariant
                i <= self.entries@.len(),
                forall|j: int| 0 <= j < i ==> (#[trigger] self.entries@[j]).0@ != key@,
            decreases self.entries@.len() - i,
        {
            if self.entries[i].0.eq(key) {
                return Some(i);
            }
            i = i + 1;
        }
        None
    }

    /// A copy of the value stored under `key`, if one is present and
    /// not past its deadline at time `now`. The deadline re-check makes
    /// the answer independent of how promptly the reclaimer runs.
    pub fn get(&self, key: &String, now: u64) -> (r: Option<Vec<u8>>)
        requires
            self.wf(),
        ensures
            match r {
                Some(v) => self.map().contains_key(key@) && live(self.map()[key@], now) && v@
                    == self.map()[key@].data,
                None => !(self.map().contains_key(key@) && live(self.map()[key@], now)),
            },
    {
        proof {
            lemma_entries_map_char(self.entries@);
        }
        match self.find_key(key) {
            Some(i) => {
                let e = &self.entries[i].1;
                let expired = match e.expires_at {
                    Some(t) => t <= now,
                    None => false,
                };
                if expired {
                    None
                } else {
                    Some(crate::frame::copy_range(&e.data, 0, e.data.len()))
                }
            },
            None => {
                proof {
                    if self.map().contains_key(key@) {
                        let i = choose|i: int|
                            0 <= i < self.entries@.len() && (#[trigger] self.entries@[i]).0@
                                == key@;
                    }
                }
                None
            },
        }
    }

    /// Stores `value` under `key` with a fresh generation id,
    /// overwriting any previous entry (last write wins). A deadline, if
    /// given, is recorded in the expiration index; the result says
    /// whether that deadline is now the soonest, so the caller can wake
    /// the reclaimer.
    pub fn set(&mut self, key: String, value: Vec<u8>, expires_at: Option<u64>) -> (wake: bool)
        requires
            old(self).wf(),
            old(self).generation() < u64::MAX,
        ensures
            final(self).wf(),
            final(self).map() == old(self).map().insert(
                key@,
                EntryModel { id: old(self).generation(), data: value@, expires_at },
            ),
            final(self).generation() == old(self).generation() + 1,
            final(self).closing() == old(self).closing(),
            match expires_at {
                None => final(self).sched() == old(self).sched() && !wake,
                Some(t) => {
                    let rec = (t, old(self).generation(), key@);
                    exists|idx: int|
                        0 <= idx <= old(self).sched().len() && final(self).sched() == old(
                            self,
                        ).sched().insert(idx, rec) && (forall|j: int|
                            0 <= j < idx ==> sched_lt(
                                ((#[trigger] old(self).sched()[j]).0, old(self).sched()[j].1),
                                (t, old(self).generation()),
                            )) && (wake <==> idx == 0)
                },
            },
    {
        let ghost s0 = self.entries@;
        let id = self.next_id;
        self.next_id = self.next_id + 1;
        let entry = Entry { id, data: value, expires_at };
        let ghost em = entry.model();
        match self.find_key(&key) {
            Some(i) => {
                self.entries[i] = (key.clone(), entry);
                proof {
                    lemma_entries_map_update(s0, i as int, self.entries@[i as int]);
                    assert(entries_map(self.entries@) == entries_map(s0).insert(key@, em));
                }
            },
            None => {
                self.entries.push((key.clone(), entry));
                proof {
                    assert(self.entries@.drop_last() =~= s0);
                    assert(entries_map(self.entries@) == entries_map(s0).insert(key@, em));
                }
            },
        }
        match expires_at {
            None => {
                proof {
                    assert(self.sched() =~= old(self).sched());
                }
                false
            },
            Some(t) => {
                let ghost x0 = self.expirations@;
                let mut idx: usize = 0;
                while idx < self.expirations.len() && (self.expirations[idx].0 < t || (
                self.expirations[idx].0 == t && self.expirations[idx].1 < id))
                    invariant
                        idx <= self.expirations@.len(),
                        self.expirations@ == x0,
                        forall|j: int|
                            0 <= j < idx ==> sched_lt(
                                ((#[trigger] x0[j]).0, x0[j].1),
                                (t, id),
                            ),
                    decreases self.expirations@.len() - idx,
                {
                    idx = idx + 1;
                }
                proof {
                    assert forall|j: int| idx <= j < x0.len() implies sched_lt(
                        (t, id),
                        ((#[trigger] x0[j]).0, x0[j].1),
                    ) by {
                        assert(x0[j].1 < id);
                        if j > idx {
                            assert(sched_lt(
                                ((x0[idx as int]).0, x0[idx as int].1),
                                ((x0[j]).0, x0[j].1),
                            ));
                        }
                    }
                }
                self.expirations.insert(idx, (t, id, key));
                proof {
                    assert(self.sched() =~= old(self).sched().insert(
                        idx as int,
                        (t, id, key@),
                    ));
                    assert forall|i: int, j: int|
                        0 <= i < j < self.expirations@.len() implies sched_lt(
                        ((#[trigger] self.expirations@[i]).0, self.expirations@[i].1),
                        ((#[trigger] self.expirations@[j]).0, self.expirations@[j].1),
                    ) by {
                        if i < idx {
                            assert(self.expirations@[i] == x0[i]);
                        }
                        if j < idx {
                            assert(self.expirations@[j] == x0[j]);
                        }
                        if i > idx {
                            assert(self.expirations@[i] == x0[i - 1]);
                        }
                        if j > idx {
                            assert(self.expirations@[j] == x0[j - 1]);
                        }
                    }
                }
                idx == 0
            },
        }
    }
}

/// True when some recorded deadline at or before `now` names `k` with
/// the generation the map still holds, so the reclaimer drops `k`. A
/// record whose generation no longer matches is a harmless leftover of
/// an overwrite and removes nothing.
pub open spec fn reclaimable(
    m: Map<Seq<char>, EntryModel>,
    sched: Seq<(u64, u64, Seq<char>)>,
    k: Seq<char>,
    now: u64,
) -> bool {
    exists|j: int|
        0 <= j < sched.len() && (#[trigger] sched[j]).0 <= now && sched[j].2 == k
            && m.contains_key(k) && m[k].id == sched[j].1
}

/// Extending the examined records by one extends what is reclaimable by
/// exactly that record's claim.
proof fn lemma_reclaimable_push(
    m: Map<Seq<char>, EntryModel>,
    sched: Seq<(u64, u64, Seq<char>)>,
    rec: (u64, u64, Seq<char>),
    k: Seq<char>,
    now: u64,
)
    ensures
        reclaimable(m, sched.push(rec), k, now) <==> (reclaimable(m, sched, k, now) || (rec.0
            <= now && rec.2 == k && m.contains_key(k) && m[k].id == rec.1)),
{
    let s2 = sched.push(rec);
    if reclaimable(m, s2, k, now) {
        let j = choose|j: int|
            0 <= j < s2.len() && (#[trigger] s2[j]).0 <= now && s2[j].2 == k && m.contains_key(k)
                && m[k].id == s2[j].1;
        if j < sched.len() {
            assert(sched[j] == s2[j]);
        } else {
            assert(s2[j] == rec);
        }
    }
    if reclaimable(m, sched, k, now) {
        let j = choose|j: int|
            0 <= j < sched.len() && (#[trigger] sched[j]).0 <= now && sched[j].2 == k
                && m.contains_key(k) && m[k].id == sched[j].1;
        assert(s2[j] == sched[j]);
    }
    if rec.0 <= now && rec.2 == k && m.contains_key(k) && m[k].id == rec.1 {
        assert(s2[sched.len() as int] == rec);
    }
}

impl Store {
    /// Removes every entry whose recorded deadline has passed, provided
    /// its generation still matches (an overwritten generation is
    /// skipped), and drops the processed records. Returns the next
    /// pending deadline, or nothing when the index is empty or shutdown
    /// was requested; on shutdown nothing is purged.
    #[verifier::loop_isolation(false)]
    pub fn purge_expired(&mut self, now: u64) -> (next: Option<u64>)
        requires
            old(self).wf(),
        ensures
            final(self).wf(),
            final(self).generation() == old(self).generation(),
            final(self).closing() == old(self).closing(),
            old(self).closing() ==> *final(self) == *old(self) && next is None,
            !old(self).closing() ==> {
                let d = old(self).sched().len() - final(self).sched().len();
                &&& 0 <= d <= old(self).sched().len()
                &&& final(self).sched() == old(self).sched().skip(d)
                &&& forall|j: int| 0 <= j < d ==> (#[trigger] old(self).sched()[j]).0 <= now
                &&& forall|j: int|
                    0 <= j < final(self).sched().len() ==> (#[trigger] final(self).sched()[j]).0
                        > now
                &&& forall|k: Seq<char>|
                    #[trigger] final(self).map().contains_key(k) <==> (old(
                    self,
                    ).map().contains_key(k) && !reclaimable(
                        old(self).map(),
                        old(self).sched(),
                        k,
                        now,
                    ))
                &&& forall|k: Seq<char>|
                    #[trigger] final(self).map().contains_key(k) ==> final(self).map()[k] == old(
                        self,
                    ).map()[k]
                &&& next == (if final(self).sched().len() > 0 {
                    Some(final(self).sched()[0].0)
                } else {
                    Option::<u64>::None
                })
            },
    {
        if self.shutdown {
            return None;
        }
        let ghost m0 = old(self).map();
        let ghost x0 = old(self).sched();
        let ghost mut p: int = 0;
        while self.expirations.len() > 0 && self.expirations[0].0 <= now
            invariant
                self.wf(),
                0 <= p <= x0.len(),
                self.next_id == old(self).next_id,
                self.shutdown == old(self).shutdown,
                self.sched() == x0.skip(p),
                forall|j: int| 0 <= j < p ==> (#[trigger] x0[j]).0 <= now,
                forall|k: Seq<char>|
                    #[trigger] self.map().contains_key(k) <==> (m0.contains_key(k)
                        && !reclaimable(m0, x0.take(p), k, now)),
                forall|k: Seq<char>|
                    #[trigger] self.map().contains_key(k) ==> self.map()[k] == m0[k],
            decreases self.expirations@.len(),
        {
            let ghost pre = *self;
            let ghost rec = x0[p];
            proof {
                assert(self.sched()[0] == x0.skip(p)[0]);
                assert(x0.skip(p)[0] == x0[p]);
            }
            let deadline = self.expirations[0].0;
            let rec_id = self.expirations[0].1;
            let key = self.expirations.remove(0).2;
            proof {
                assert(self.sched() =~= pre.sched().drop_first());
                assert(pre.sched().drop_first() =~= x0.skip(p + 1));
                assert(key@ == rec.2 && deadline == rec.0 && rec_id == rec.1);
            }
            let ghost s0 = self.entries@;
            let ghost claim = rec.0 <= now && m0.contains_key(rec.2) && m0[rec.2].id == rec.1;
            match self.find_key(&key) {
                Some(i) => {
                    if self.entries[i].1.id == rec_id {
                        proof {
                            lemma_entries_map_char(s0);
                            lemma_entries_map_remove(s0, i as int);
                            assert(pre.map().contains_key(rec.2));
                            assert(pre.map()[rec.2] == s0[i as int].1.model());
                            assert(m0[rec.2].id == rec.1);
                            assert(claim);
                        }
                        self.entries.remove(i);
                        proof {
                            assert(self.map() == pre.map().remove(rec.2));
                        }
                    } else {
                        proof {
                            lemma_entries_map_char(s0);
                            assert(pre.map().contains_key(rec.2));
                            assert(pre.map()[rec.2] == s0[i as int].1.model());
                            assert(m0[rec.2].id != rec.1);
                            assert(!claim);
                            assert(self.map() == pre.map());
                        }
                    }
                },
                None => {
                    proof {
                        lemma_entries_map_char(s0);
                        if pre.map().contains_key(rec.2) {
                            let a = choose|a: int|
                                0 <= a < s0.len() && (#[trigger] s0[a]).0@ == rec.2;
                        }
                        assert(!pre.map().contains_key(rec.2));
                        assert(self.map() == pre.map());
                    }
                },
            }
            proof {
                assert(x0.take(p + 1) =~= x0.take(p).push(rec));
                assert forall|k: Seq<char>| #[trigger] self.map().contains_key(k) <==> (
                m0.contains_key(k) && !reclaimable(m0, x0.take(p + 1), k, now)) by {
                    lemma_reclaimable_push(m0, x0.take(p), rec, k, now);
                    assert(pre.map().contains_key(k) <==> (m0.contains_key(k) && !reclaimable(
                        m0,
                        x0.take(p),
                        k,
                        now,
                    )));
                    if self.map() == pre.map().remove(rec.2) {
                        if k == rec.2 {
                            assert(!self.map().contains_key(k));
                        } else {
                            assert(self.map().contains_key(k) == pre.map().contains_key(k));
                        }
                    }
                }
                assert forall|k: Seq<char>| #[trigger] self.map().contains_key(k) implies
                    self.map()[k] == m0[k] by {
                    assert(pre.map().contains_key(k) <==> (m0.contains_key(k) && !reclaimable(
                        m0,
                        x0.take(p),
                        k,
                        now,
                    )));
                    if self.map() == pre.map().remove(rec.2) {
                        assert(self.map()[k] == pre.map()[k]);
                    }
                }
                p = p + 1;
            }
        }
        proof {
            let d = x0.len() - self.sched().len();
            assert(d == p);
            if self.sched().len() > 0 {
                assert forall|j: int| 0 <= j < self.sched().len() implies (
                #[trigger] self.sched()[j]).0 > now by {
                    assert(self.sched()[0].0 > now);
                    if j > 0 {
                        assert(sched_lt(
                            (self.expirations@[0].0, self.expirations@[0].1),
                            ((self.expirations@[j]).0, self.expirations@[j].1),
                        ));
                        assert(self.sched()[j].0 == self.expirations@[j].0);
                    }
                }
            }
            assert forall|k: Seq<char>| #[trigger] self.map().contains_key(k) <==> (
            m0.contains_key(k) && !reclaimable(m0, x0, k, now)) by {
                if reclaimable(m0, x0, k, now) && !reclaimable(m0, x0.take(p), k, now) {
                    let j = choose|j: int|
                        0 <= j < x0.len() && (#[trigger] x0[j]).0 <= now && x0[j].2 == k
                            && m0.contains_key(k) && m0[k].id == x0[j].1;
                    if j < p {
                        assert(x0.take(p)[j] == x0[j]);
                    }
                    assert(j >= p);
                    assert(self.sched()[j - p] == x0.skip(p)[j - p]);
                    assert(self.sched()[j - p].0 > now);
                }
                if reclaimable(m0, x0.take(p), k, now) {
                    let j = choose|j: int|
                        0 <= j < x0.take(p).len() && (#[trigger] x0.take(p)[j]).0 <= now
                            && x0.take(p)[j].2 == k && m0.contains_key(k) && m0[k].id == x0.take(
                            p,
                        )[j].1;
                    assert(x0[j] == x0.take(p)[j]);
                }
            }
        }
        if self.expirations.len() > 0 {
            Some(self.expirations[0].0)
        } else {
            None
        }
    }
}

/// Last write wins: after storing `e1` and then `e2` under one key, a
/// lookup sees `e2`; and when no recorded deadline carries the new
/// generation's id, none of them — in particular one scheduled for the
/// overwritten generation — can reclaim the key.
pub proof fn lemma_last_write_wins(
    m: Map<Seq<char>, EntryModel>,
    sched: Seq<(u64, u64, Seq<char>)>,
    k: Seq<char>,
    e1: EntryModel,
    e2: EntryModel,
    now: u64,
)
    ensures
        m.insert(k, e1).insert(k, e2)[k] == e2,
        (forall|j: int| 0 <= j < sched.len() ==> (#[trigger] sched[j]).1 != e2.id)
            ==> !reclaimable(m.insert(k, e1).insert(k, e2), sched, k, now),
{
    let m2 = m.insert(k, e1).insert(k, e2);
    if (forall|j: int| 0 <= j < sched.len() ==> (#[trigger] sched[j]).1 != e2.id)
        && reclaimable(m2, sched, k, now) {
        let j = choose|j: int|
            0 <= j < sched.len() && (#[trigger] sched[j]).0 <= now && sched[j].2 == k
                && m2.contains_key(k) && m2[k].id == sched[j].1;
        assert(sched[j].1 != e2.id);
        assert(m2[k] == e2);
    }
}

/// Keys listed in an association list are exactly the map's keys, and
/// each key's pair gives its entry.
pub proof fn lemma_entries_map_char(s: Seq<(String, Entry)>)
    requires
        forall|i: int, j: int|
            0 <= i < j < s.len() ==> (#[trigger] s[i]).0@ != (#[trigger] s[j]).0@,
    ensures
        forall|k: Seq<char>|
            entries_map(s).contains_key(k) ==> exists|i: int|
                0 <= i < s.len() && (#[trigger] s[i]).0@ == k,
        forall|i: int|
            0 <= i < s.len() ==> entries_map(s).contains_key((#[trigger] s[i]).0@)
                && entries_map(s)[s[i].0@] == s[i].1.model(),
    decreases s.len(),
{
    if s.len() > 0 {
        let t = s.drop_last();
        assert(forall|i: int| 0 <= i < t.len() ==> t[i] == s[i]);
        lemma_entries_map_char(t);
        assert forall|k: Seq<char>| entries_map(s).contains_key(k) implies exists|i: int|
            0 <= i < s.len() && (#[trigger] s[i]).0@ == k by {
            if k == s.last().0@ {
                assert((s[s.len() - 1]).0@ == k);
            } else {
                assert(entries_map(t).contains_key(k));
                let i = choose|i: int| 0 <= i < t.len() && (#[trigger] t[i]).0@ == k;
                assert((s[i]).0@ == k);
            }
        }
        assert forall|i: int| 0 <= i < s.len() implies entries_map(s).contains_key(
            (#[trigger] s[i]).0@,
        ) && entries_map(s)[s[i].0@] == s[i].1.model() by {
            if i < s.len() - 1 {
                assert(t[i] == s[i]);
                assert(s[i].0@ != s[s.len() - 1].0@);
            }
        }
    }
}

/// Replacing the pair at `i` with one carrying the same key is an
/// insert on the association list's map.
pub proof fn lemma_entries_map_update(s: Seq<(String, Entry)>, i: int, p: (String, Entry))
    requires
        forall|a: int, b: int|
            0 <= a < b < s.len() ==> (#[trigger] s[a]).0@ != (#[trigger] s[b]).0@,
        0 <= i < s.len(),
        p.0@ == s[i].0@,
    ensures
        entries_map(s.update(i, p)) == entries_map(s).insert(p.0@, p.1.model()),
    decreases s.len(),
{
    let s2 = s.update(i, p);
    if i == s.len() - 1 {
        assert(s2.drop_last() =~= s.drop_last());
        assert(entries_map(s2) == entries_map(s.drop_last()).insert(p.0@, p.1.model()));
        assert(entries_map(s).insert(p.0@, p.1.model()) =~= entries_map(s.drop_last()).insert(
            p.0@,
            p.1.model(),
        ));
    } else {
        let t = s.drop_last();
        assert(forall|a: int| 0 <= a < t.len() ==> t[a] == s[a]);
        assert(s2.drop_last() =~= t.update(i, p));
        assert(s2.last() == s.last());
        lemma_entries_map_update(t, i, p);
        assert(entries_map(s2) == entries_map(t).insert(p.0@, p.1.model()).insert(
            s.last().0@,
            s.last().1.model(),
        ));
        assert(p.0@ != s.last().0@);
        assert(entries_map(t).insert(p.0@, p.1.model()).insert(s.last().0@, s.last().1.model())
            =~= entries_map(t).insert(s.last().0@, s.last().1.model()).insert(p.0@, p.1.model()));
    }
}

/// Removing the pair at `i` removes exactly its key from the map.
pub proof fn lemma_entries_map_remove(s: Seq<(String, Entry)>, i: int)
    requires
        forall|a: int, b: int|
            0 <= a < b < s.len() ==> (#[trigger] s[a]).0@ != (#[trigger] s[b]).0@,
        0 <= i < s.len(),
    ensures
        entries_map(s.remove(i)) == entries_map(s).remove(s[i].0@),
    decreases s.len(),
{
    let s2 = s.remove(i);
    let t = s.drop_last();
    assert(forall|a: int| 0 <= a < t.len() ==> t[a] == s[a]);
    lemma_entries_map_char(t);
    if i == s.len() - 1 {
        assert(s2 =~= t);
        if entries_map(t).contains_key(s[i].0@) {
            let a = choose|a: int| 0 <= a < t.len() && (#[trigger] t[a]).0@ == s[i].0@;
            assert(false);
        }
        assert(entries_map(t) =~= entries_map(t).insert(s[i].0@, s[i].1.model()).remove(s[i].0@));
    } else {
        assert(s2.drop_last() =~= t.remove(i));
        assert(s2.last() == s.last());
        lemma_entries_map_remove(t, i);
        assert(entries_map(s2) == entries_map(t).remove(s[i].0@).insert(
            s.last().0@,
            s.last().1.model(),
        ));
        assert(s[i].0@ != s.last().0@);
        assert(entries_map(t).remove(s[i].0@).insert(s.last().0@, s.last().1.model())
            =~= entries_map(t).insert(s.last().0@, s.last().1.model()).remove(s[i].0@));
    }
}

} // verus!
