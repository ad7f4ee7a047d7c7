use vstd::prelude::*;

verus! {

/// A peer's opaque identifier on the overlay.
pub type AppId = String;

/// A peer-scoped logical time: an unsigned counter that only grows.
pub type Date = u64;

/// The abstract content of a clock: its entries in storage order, each a
/// peer id with the latest logical time known for that peer.
pub type ClockEntries = Seq<(Seq<char>, u64)>;

/// Whether some entry carries the key `k`.
pub open spec fn has_key(es: ClockEntries, k: Seq<char>) -> bool {
    exists|i: int| 0 <= i < es.len() && es[i].0 == k
}

/// No two entries carry the same key.
pub open spec fn distinct_keys(es: ClockEntries) -> bool {
    forall|i: int, j: int| 0 <= i < j < es.len() ==> es[i].0 != es[j].0
}

/// The entries read as a finite map from peer id to logical time.
pub open spec fn as_map(es: ClockEntries) -> Map<Seq<char>, u64>
    decreases es.len(),
{
    if es.len() == 0 {
        Map::empty()
    } else {
        as_map(es.drop_last()).insert(es.last().0, es.last().1)
    }
}

/// With pairwise-distinct keys the map reads back exactly what the
/// entries hold: its domain is the set of keys, and each key maps to the
/// time stored beside it.
pub proof fn lemma_as_map_entries(es: ClockEntries)
    requires
        distinct_keys(es),
    ensures
        forall|k: Seq<char>| #[trigger] as_map(es).contains_key(k) <==> has_key(es, k),
        forall|i: int| #![trigger es[i]] 0 <= i < es.len()
            ==> as_map(es).contains_key(es[i].0) && as_map(es)[es[i].0] == es[i].1,
    decreases es.len(),
{
    if es.len() > 0 {
        let prefix = es.drop_last();
        let lk = es.last().0;
        let lv = es.last().1;
        assert(es[es.len() - 1].0 == lk);
        assert(forall|i: int| 0 <= i < prefix.len() ==> #[trigger] prefix[i] == es[i]);
        assert(distinct_keys(prefix));
        lemma_as_map_entries(prefix);
        assert(as_map(es) == as_map(prefix).insert(lk, lv));
        assert forall|k: Seq<char>| #[trigger] as_map(es).contains_key(k) implies has_key(
            es,
            k,
        ) by {
            if k == lk {
                assert(es[es.len() - 1].0 == k);
            } else {
                assert(as_map(prefix).contains_key(k));
                assert(has_key(prefix, k));
                let i = choose|i: int| 0 <= i < prefix.len() && prefix[i].0 == k;
                assert(es[i].0 == k);
            }
        }
        assert forall|k: Seq<char>| has_key(es, k) implies #[trigger] as_map(es).contains_key(
            k,
        ) by {
            let i = choose|i: int| 0 <= i < es.len() && es[i].0 == k;
            if i < es.len() - 1 {
                assert(prefix[i].0 == k);
                assert(has_key(prefix, k));
                assert(as_map(prefix).contains_key(k));
            }
        }
        assert forall|i: int| #![trigger es[i]] 0 <= i < es.len() implies as_map(es).contains_key(
            es[i].0,
        ) && as_map(es)[es[i].0] == es[i].1 by {
            if i < es.len() - 1 {
                assert(prefix[i] == es[i]);
                assert(as_map(prefix).contains_key(prefix[i].0) && as_map(prefix)[prefix[i].0]
                    == prefix[i].1);
                assert(es[i].0 != lk);
            }
        }
    }
}

/// The entries with key `k` bound to `v`: updated in place where `k` is
/// already present, appended at the end otherwise.
pub open spec fn set_entry(es: ClockEntries, k: Seq<char>, v: u64) -> ClockEntries {
    if has_key(es, k) {
        Seq::new(es.len(), |i: int| if es[i].0 == k { (k, v) } else { es[i] })
    } else {
        es.push((k, v))
    }
}

/// Setting one key keeps the keys distinct and, read as a map, is exactly
/// a map insertion.
pub proof fn lemma_set_entry(es: ClockEntries, k: Seq<char>, v: u64)
    requires
        distinct_keys(es),
    ensures
        distinct_keys(set_entry(es, k, v)),
        as_map(set_entry(es, k, v)) == as_map(es).insert(k, v),
{
    let r = set_entry(es, k, v);
    lemma_as_map_entries(es);
    if has_key(es, k) {
        assert(forall|i: int| #![trigger r[i]] 0 <= i < es.len() ==> r[i].0 == es[i].0);
        assert(distinct_keys(r));
        lemma_as_map_entries(r);
        let w = choose|i: int| 0 <= i < es.len() && es[i].0 == k;
        assert(r[w] == (k, v));
        assert forall|k2: Seq<char>| true implies #[trigger] as_map(r).contains_key(k2)
            == as_map(es).insert(k, v).contains_key(k2) by {
            if as_map(r).contains_key(k2) {
                let i = choose|i: int| 0 <= i < r.len() && r[i].0 == k2;
                assert(es[i].0 == k2);
            }
            if k2 != k && as_map(es).contains_key(k2) {
                let i = choose|i: int| 0 <= i < es.len() && es[i].0 == k2;
                assert(r[i].0 == k2);
            }
        }
        assert forall|k2: Seq<char>| as_map(r).contains_key(k2) implies as_map(r)[k2]
            == as_map(es).insert(k, v)[k2] by {
            let i = choose|i: int| 0 <= i < r.len() && r[i].0 == k2;
            if k2 == k {
                assert(r[i] == (k, v));
            } else {
                assert(r[i] == es[i]);
            }
        }
        assert(as_map(r) =~= as_map(es).insert(k, v));
    } else {
        assert(r == es.push((k, v)));
        assert(forall|i: int| 0 <= i < es.len() ==> #[trigger] r[i] == es[i]);
        assert(r[es.len() as int].0 == k);
        assert(distinct_keys(r));
        assert(r.drop_last() =~= es);
        assert(as_map(r) == as_map(es).insert(k, v));
    }
}

/// The clock after one tick of `k`: its time up one, or a first tick
/// registering time 1 where `k` was unknown.
pub open spec fn advanced(es: ClockEntries, k: Seq<char>) -> ClockEntries {
    if as_map(es).contains_key(k) {
        set_entry(es, k, (as_map(es)[k] + 1) as u64)
    } else {
        set_entry(es, k, 1u64)
    }
}

/// One merge step: adopt `(k, v)` unless the entries already hold a time
/// for `k` at least as recent.
pub open spec fn merge_one(es: ClockEntries, k: Seq<char>, v: u64) -> ClockEntries {
    if as_map(es).contains_key(k) && as_map(es)[k] >= v {
        es
    } else {
        set_entry(es, k, v)
    }
}

/// A whole remote clock folded into `a`, one entry at a time, front first.
pub open spec fn merge_entries(a: ClockEntries, b: ClockEntries) -> ClockEntries
    decreases b.len(),
{
    if b.len() == 0 {
        a
    } else {
        merge_entries(merge_one(a, b[0].0, b[0].1), b.skip(1))
    }
}

/// The pointwise maximum of two clocks over the union of their keys; a
/// key absent from one side counts as unknown and the other side wins.
pub open spec fn merged(m1: Map<Seq<char>, u64>, m2: Map<Seq<char>, u64>) -> Map<Seq<char>, u64> {
    Map::new(
        |k: Seq<char>| m1.contains_key(k) || m2.contains_key(k),
        |k: Seq<char>|
            if m1.contains_key(k) && (!m2.contains_key(k) || m1[k] >= m2[k]) {
                m1[k]
            } else {
                m2[k]
            },
    )
}

/// Folding entries is a left fold: one more entry at the back is one more
/// merge step after the fold of the front.
pub proof fn lemma_merge_entries_snoc(a: ClockEntries, b: ClockEntries, k: Seq<char>, v: u64)
    ensures
        merge_entries(a, b.push((k, v))) == merge_one(merge_entries(a, b), k, v),
    decreases b.len(),
{
    let bp = b.push((k, v));
    if b.len() == 0 {
        assert(bp[0] == (k, v));
        assert(bp.skip(1) =~= Seq::<(Seq<char>, u64)>::empty());
        assert(merge_entries(a, bp) == merge_entries(merge_one(a, k, v), bp.skip(1)));
        assert(merge_entries(merge_one(a, k, v), bp.skip(1)) == merge_one(a, k, v));
        assert(merge_entries(a, b) == a);
    } else {
        let a1 = merge_one(a, b[0].0, b[0].1);
        assert(bp[0] == b[0]);
        assert(bp.skip(1) =~= b.skip(1).push((k, v)));
        lemma_merge_entries_snoc(a1, b.skip(1), k, v);
        assert(merge_entries(a, bp) == merge_entries(a1, bp.skip(1)));
        assert(merge_entries(a, b) == merge_entries(a1, b.skip(1)));
    }
}

/// Folding a remote clock in keeps the keys distinct and, read as maps,
/// is exactly the pointwise maximum of the two clocks over the union of
/// their keys.
pub proof fn lemma_merge_entries_as_map(a: ClockEntries, b: ClockEntries)
    requires
        distinct_keys(a),
        distinct_keys(b),
    ensures
        distinct_keys(merge_entries(a, b)),
        as_map(merge_entries(a, b)) == merged(as_map(a), as_map(b)),
    decreases b.len(),
{
    if b.len() == 0 {
        assert(merged(as_map(a), as_map(b)) =~= as_map(a));
    } else {
        let k0 = b[0].0;
        let v0 = b[0].1;
        let a1 = merge_one(a, k0, v0);
        let bt = b.skip(1);
        let ma = as_map(a);
        let mb = as_map(b);
        lemma_as_map_entries(a);
        lemma_as_map_entries(b);
        lemma_set_entry(a, k0, v0);
        assert(distinct_keys(a1));
        assert(forall|i: int| 0 <= i < bt.len() ==> #[trigger] bt[i] == b[i + 1]);
        assert(distinct_keys(bt));
        lemma_merge_entries_as_map(a1, bt);
        lemma_as_map_entries(bt);
        let ma1 = as_map(a1);
        let mbt = as_map(bt);
        assert(!has_key(bt, k0)) by {
            if has_key(bt, k0) {
                let i = choose|i: int| 0 <= i < bt.len() && bt[i].0 == k0;
                assert(b[i + 1].0 == k0);
                assert(b[0].0 == k0);
            }
        }
        assert(!mbt.contains_key(k0));
        assert forall|k: Seq<char>| #[trigger] mb.contains_key(k) implies (k == k0
            || mbt.contains_key(k)) by {
            if k != k0 {
                assert(has_key(b, k));
                let i = choose|i: int| 0 <= i < b.len() && b[i].0 == k;
                assert(b[0].0 == k0);
                assert(i != 0);
                assert(bt[i - 1].0 == k);
                assert(has_key(bt, k));
            }
        }
        assert forall|k: Seq<char>| mbt.contains_key(k) implies #[trigger] mb.contains_key(k) by {
            assert(has_key(bt, k));
            let i = choose|i: int| 0 <= i < bt.len() && bt[i].0 == k;
            assert(b[i + 1].0 == k);
        }
        assert(mb.contains_key(k0)) by {
            assert(b[0].0 == k0);
        }
        assert(mb[k0] == v0) by {
            assert(b[0].0 == k0);
        }
        assert forall|k: Seq<char>| k != k0 && #[trigger] mbt.contains_key(k) implies mb[k]
            == mbt[k] by {
            let i = choose|i: int| 0 <= i < bt.len() && bt[i].0 == k;
            assert(mbt[bt[i].0] == bt[i].1);
            assert(b[i + 1].0 == k);
            assert(mb[b[i + 1].0] == b[i + 1].1);
        }
        if ma.contains_key(k0) && ma[k0] >= v0 {
            assert(a1 == a);
        } else {
            assert(a1 == set_entry(a, k0, v0));
            assert(ma1 == ma.insert(k0, v0));
        }
        assert(merge_entries(a, b) == merge_entries(a1, bt));
        assert(merged(ma1, mbt) =~= merged(ma, mb));
    }
}

/// Merging is commutative: the pointwise maximum reads the same from
/// either side.
pub proof fn lemma_merged_commutative(m1: Map<Seq<char>, u64>, m2: Map<Seq<char>, u64>)
    ensures
        merged(m1, m2) == merged(m2, m1),
{
    assert(merged(m1, m2) =~= merged(m2, m1));
}

/// Merging is idempotent: folding the same clock in a second time, or any
/// clock it already dominates, changes nothing.
pub proof fn lemma_merged_idempotent(m1: Map<Seq<char>, u64>, m2: Map<Seq<char>, u64>)
    ensures
        merged(merged(m1, m2), m2) == merged(m1, m2),
{
    assert(merged(merged(m1, m2), m2) =~= merged(m1, m2));
}

/// A vector clock: one logical time per peer, read as a finite map.
/// Entries keep their storage order, so an encoded clock round-trips
/// through the wire codec unchanged.
pub struct Clock {
    entries: Vec<(AppId, Date)>,
}

impl View for Clock {
    type V = ClockEntries;

    closed spec fn view(&self) -> ClockEntries {
        self.entries.deep_view()
    }
}

impl Clock {
    /// The clock read as a map from peer id to logical time.
    pub open spec fn map_view(&self) -> Map<Seq<char>, u64> {
        as_map(self@)
    }

    /// Entry keys are pairwise distinct.
    pub open spec fn wf(&self) -> bool {
        distinct_keys(self@)
    }

    /// A clock holding exactly one entry: `app_id` at time 0.
    pub fn new(app_id: AppId) -> (c: Clock)
        ensures
            c.wf(),
            c@ == seq![(app_id@, 0u64)],
            c.map_view() == Map::<Seq<char>, u64>::empty().insert(app_id@, 0),
    {
        let ghost gid: Seq<char> = app_id@;
        let mut entries: Vec<(AppId, Date)> = Vec::new();
        entries.push((app_id, 0));
        let c = Clock { entries };
        proof {
            assert(c@ =~= seq![(gid, 0u64)]);
            lemma_as_map_entries(c@);
            assert(c.map_view() =~= Map::<Seq<char>, u64>::empty().insert(gid, 0));
        }
        c
    }

    /// A clock with no entries at all; the wire decoder fills such a
    /// clock entry by entry.
    pub fn empty() -> (c: Clock)
        ensures
            c.wf(),
            c@ == Seq::<(Seq<char>, u64)>::empty(),
    {
        let c = Clock { entries: Vec::new() };
        proof {
            assert(c@ =~= Seq::<(Seq<char>, u64)>::empty());
        }
        c
    }

    /// How many peers the clock holds an entry for.
    pub fn len(&self) -> (n: usize)
        ensures
            n == self@.len(),
    {
        self.entries.len()
    }

    /// The entry at position `i`, in storage order.
    pub fn entry(&self, i: usize) -> (e: &(AppId, Date))
        requires
            i < self@.len(),
        ensures
            e.0@ == self@[i as int].0,
            e.1 == self@[i as int].1,
    {
        &self.entries[i]
    }

    /// The time recorded for `id`, or nothing where `id` is unknown.
    pub fn get(&self, id: &AppId) -> (r: Option<Date>)
        requires
            self.wf(),
        ensures
            r == if self.map_view().contains_key(id@) {
                Some(self.map_view()[id@])
            } else {
                None::<Date>
            },
    {
        let n = self.entries.len();
        let mut i: usize = 0;
        while i < n
            invariant
                i <= n,
                n == self.entries.len(),
                self.wf(),
                forall|j: int| 0 <= j < i ==> self@[j].0 != id@,
            decreases n - i,
        {
            let e = &self.entries[i];
            if e.0 == *id {
                proof {
                    lemma_as_map_entries(self@);
                    assert(self@[i as int] == (e.0@, e.1));
                }
                return Some(e.1);
            }
            i += 1;
        }
        proof {
            lemma_as_map_entries(self@);
            assert(!has_key(self@, id@));
        }
        None
    }

    /// Record time `v` for peer `k`, overwriting any entry `k` had.
    pub fn set(&mut self, k: AppId, v: Date)
        requires
            old(self).wf(),
        ensures
            final(self).wf(),
            final(self)@ == set_entry(old(self)@, k@, v),
            final(self).map_view() == old(self).map_view().insert(k@, v),
    {
        let ghost gk: Seq<char> = k@;
        let ghost orig: ClockEntries = self@;
        let n = self.entries.len();
        let mut i: usize = 0;
        while i < n
            invariant
                i <= n,
                n == self.entries.len(),
                self@ == orig,
                orig == old(self)@,
                distinct_keys(orig),
                gk == k@,
                forall|j: int| 0 <= j < i ==> self@[j].0 != gk,
            decreases n - i,
        {
            if self.entries[i].0 == k {
                self.entries[i] = (k, v);
                proof {
                    lemma_set_entry(orig, gk, v);
                    assert(orig[i as int].0 == gk);
                    assert(has_key(orig, gk));
                    assert forall|j: int| 0 <= j < orig.len() && j != i implies orig[j].0
                        != gk by {
                        if j < i {
                        } else {
                            assert(orig[i as int].0 != orig[j].0);
                        }
                    }
                    assert(self@.len() == orig.len());
                    assert forall|j: int| 0 <= j < orig.len() implies self@[j] == set_entry(
                        orig,
                        gk,
                        v,
                    )[j] by {
                        if j == i {
                            assert(self@[j] == (gk, v));
                        } else {
                            assert(self@[j] == orig[j]);
                        }
                    }
                    assert(self@ =~= set_entry(orig, gk, v));
                }
                return ;
            }
            i += 1;
        }
        self.entries.push((k, v));
        proof {
            lemma_set_entry(orig, gk, v);
            assert(!has_key(orig, gk));
            assert(self@.len() == orig.len() + 1);
            assert forall|j: int| 0 <= j < orig.len() implies self@[j] == orig[j] by {}
            assert(self@[orig.len() as int] == (gk, v));
            assert(self@ =~= set_entry(orig, gk, v));
        }
    }

    /// Fold a remote clock in: adopt every remote time strictly newer
    /// than ours, leave the rest alone.  Read as maps, the result is the
    /// pointwise maximum of the two clocks over the union of their keys.
    pub fn merge(&mut self, other: &Clock)
        requires
            old(self).wf(),
            other.wf(),
        ensures
            final(self).wf(),
            final(self)@ == merge_entries(old(self)@, other@),
            final(self).map_view() == merged(old(self).map_view(), other.map_view()),
    {
        let ghost orig: ClockEntries = self@;
        let n = other.entries.len();
        let mut j: usize = 0;
        while j < n
            invariant
                j <= n,
                n == other.entries.len(),
                self.wf(),
                other.wf(),
                distinct_keys(orig),
                orig == old(self)@,
                self@ == merge_entries(orig, other@.take(j as int)),
            decreases n - j,
        {
            let ghost prev: ClockEntries = self@;
            let ghost k0: Seq<char> = other@[j as int].0;
            let ghost v0: u64 = other@[j as int].1;
            let e = &other.entries[j];
            proof {
                assert(other@[j as int] == (e.0@, e.1));
            }
            let cur = self.get(&e.0);
            let newer = match cur {
                Some(d) => d < e.1,
                None => true,
            };
            if newer {
                self.set(e.0.clone(), e.1);
                proof {
                    lemma_set_entry(prev, k0, v0);
                    assert(self@ == merge_one(prev, k0, v0));
                }
            } else {
                proof {
                    assert(self@ == merge_one(prev, k0, v0));
                }
            }
            proof {
                assert(other@.take((j + 1) as int) =~= other@.take(j as int).push(
                    other@[j as int],
                ));
                lemma_merge_entries_snoc(orig, other@.take(j as int), k0, v0);
            }
            j += 1;
        }
        proof {
            assert(other@.take(n as int) =~= other@);
            lemma_merge_entries_as_map(orig, other@);
        }
    }

    /// An independent copy of the clock, entry order included.
    pub fn snapshot(&self) -> (c: Clock)
        ensures
            c@ == self@,
    {
        let n = self.entries.len();
        let mut entries: Vec<(AppId, Date)> = Vec::new();
        let mut i: usize = 0;
        while i < n
            invariant
                i <= n,
                n == self.entries.len(),
                entries.deep_view() == self@.take(i as int),
            decreases n - i,
        {
            let ghost dv: ClockEntries = entries.deep_view();
            let e = &self.entries[i];
            entries.push((e.0.clone(), e.1));
            proof {
                assert(entries.deep_view().len() == dv.len() + 1);
                assert(forall|j: int| 0 <= j < dv.len() ==> #[trigger] entries.deep_view()[j]
                    == dv[j]);
                assert(entries.deep_view()[i as int] == self@[i as int]);
                assert(entries.deep_view() =~= self@.take((i + 1) as int));
            }
            i += 1;
        }
        proof {
            assert(self@.take(n as int) =~= self@);
        }
        Clock { entries }
    }
}

} // verus!
