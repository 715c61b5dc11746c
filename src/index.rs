//! A versioned index from keys to values: a log of timestamped updates with
//! signed multiplicities, read through `distinct` (a pair is present at a time
//! exactly when its accumulated multiplicity there is positive), and a
//! history-retention frontier below which reads are no longer offered.
use vstd::prelude::*;

use crate::value::{Value, ValueView};

verus! {

/// One indexed update: a (key, value) pair, the time it takes effect and its
/// signed multiplicity.
pub struct Fact {
    pub key: ValueView,
    pub val: ValueView,
    pub time: u64,
    pub diff: int,
}

/// An update as it is stored.
pub struct Update {
    pub key: Value,
    pub val: Value,
    pub time: u64,
    pub diff: isize,
}

impl View for Update {
    type V = Fact;

    open spec fn view(&self) -> Fact {
        Fact { key: self.key@, val: self.val@, time: self.time, diff: self.diff as int }
    }
}

pub open spec fn facts(us: Seq<Update>) -> Seq<Fact> {
    us.map_values(|u: Update| u@)
}

pub open spec fn views(vs: Seq<Value>) -> Seq<ValueView> {
    vs.map_values(|v: Value| v@)
}

/// What one fact adds to the accumulation of (k, v) at time t.
pub open spec fn contribution(f: Fact, k: ValueView, v: ValueView, t: u64) -> int {
    if f.key == k && f.val == v && f.time <= t {
        f.diff
    } else {
        0
    }
}

/// The accumulated multiplicity of (k, v) over all updates at or before t.
pub open spec fn count(log: Seq<Fact>, k: ValueView, v: ValueView, t: u64) -> int
    decreases log.len(),
{
    if log.len() == 0 {
        0
    } else {
        count(log.drop_last(), k, v, t) + contribution(log.last(), k, v, t)
    }
}

/// After `distinct`: (k, v) is present at t when its accumulation is positive.
pub open spec fn present(log: Seq<Fact>, k: ValueView, v: ValueView, t: u64) -> bool {
    count(log, k, v, t) > 0
}

/// `vs` holds each value present under key k at time t, once, and no other.
pub open spec fn lists_present(vs: Seq<Value>, log: Seq<Fact>, k: ValueView, t: u64) -> bool {
    &&& views(vs).no_duplicates()
    &&& forall|v: ValueView| views(vs).contains(v) <==> present(log, k, v, t)
}

/// The sum of the magnitudes of all multiplicities.
pub open spec fn magnitude(log: Seq<Fact>) -> int
    decreases log.len(),
{
    if log.len() == 0 {
        0
    } else {
        magnitude(log.drop_last()) + if log.last().diff < 0 {
            -log.last().diff
        } else {
            log.last().diff
        }
    }
}

/// Relies on differential_dataflow::consolidation::consolidate_updates, which
/// sorts the updates and merges those with equal data and time, summing their
/// multiplicities and dropping each whose sum is zero: every accumulation
/// stays as it was. The sums are taken in `isize`; the bound on the
/// magnitudes keeps every partial sum in range.
#[verifier::external_body]
fn consolidate_updates(updates: Vec<Update>) -> (r: Vec<Update>)
    requires
        magnitude(facts(updates@)) <= isize::MAX,
    ensures
        forall|k: ValueView, v: ValueView, t: u64|
            #[trigger] count(facts(r@), k, v, t) == count(facts(updates@), k, v, t),
        forall|j: int| 0 <= j < r@.len() ==> r@[j].diff != 0,
{
    let mut triples: Vec<((Value, Value), u64, isize)> =
        updates.into_iter().map(|u| ((u.key, u.val), u.time, u.diff)).collect();
    differential_dataflow::consolidation::consolidate_updates(&mut triples);
    triples.into_iter().map(|((key, val), time, diff)| Update { key, val, time, diff }).collect()
}

/// Whether the magnitudes of the multiplicities sum to at most `isize::MAX`.
fn within_magnitude(updates: &Vec<Update>) -> (r: bool)
    ensures
        r == (magnitude(facts(updates@)) <= isize::MAX),
{
    let mut total: i128 = 0;
    let mut i: usize = 0;
    while i < updates.len()
        invariant
            i <= updates.len(),
            total == magnitude(facts(updates@.subrange(0, i as int))),
            0 <= total <= isize::MAX,
        decreases updates.len() - i,
    {
        let d = updates[i].diff as i128;
        proof {
            let p = updates@.subrange(0, i as int);
            let q = updates@.subrange(0, i as int + 1);
            assert(facts(q).drop_last() =~= facts(p));
            assert(facts(q).last() == updates@[i as int]@);
        }
        total = if d < 0 {
            total - d
        } else {
            total + d
        };
        if total > isize::MAX as i128 {
            proof {
                lemma_magnitude_grows(facts(updates@), i as int + 1);
                assert(facts(updates@).subrange(0, i as int + 1) =~= facts(
                    updates@.subrange(0, i as int + 1),
                ));
            }
            return false;
        }
        i = i + 1;
    }
    assert(updates@.subrange(0, updates.len() as int) =~= updates@);
    true
}

/// A prefix has no larger magnitude than the whole.
proof fn lemma_magnitude_grows(log: Seq<Fact>, n: int)
    requires
        0 <= n <= log.len(),
    ensures
        magnitude(log.subrange(0, n)) <= magnitude(log),
    decreases log.len(),
{
    if n < log.len() {
        assert(log.drop_last().subrange(0, n) =~= log.subrange(0, n));
        lemma_magnitude_grows(log.drop_last(), n);
    } else {
        assert(log.subrange(0, n) =~= log);
    }
}

/// The same updates merged where data and time agree, when their
/// multiplicities can be summed without overflow, and otherwise as they are:
/// every accumulation stays as it was either way.
pub fn consolidate(updates: Vec<Update>) -> (r: Vec<Update>)
    ensures
        forall|k: ValueView, v: ValueView, t: u64|
            #[trigger] count(facts(r@), k, v, t) == count(facts(updates@), k, v, t),
{
    if within_magnitude(&updates) {
        consolidate_updates(updates)
    } else {
        updates
    }
}

/// The same updates with key and value swapped.
pub open spec fn transpose(log: Seq<Fact>) -> Seq<Fact> {
    log.map_values(|f: Fact| Fact { key: f.val, val: f.key, time: f.time, diff: f.diff })
}

/// The time an update is moved to when history before `frontier` is dropped.
pub open spec fn advanced(time: u64, frontier: u64) -> u64 {
    if time < frontier {
        frontier
    } else {
        time
    }
}

/// The updates after compaction to `frontier`.
pub open spec fn compact(log: Seq<Fact>, frontier: u64) -> Seq<Fact> {
    log.map_values(
        |f: Fact| Fact { key: f.key, val: f.val, time: advanced(f.time, frontier), diff: f.diff },
    )
}

/// Swapping key and value swaps the accumulations.
pub proof fn lemma_count_transpose(log: Seq<Fact>, k: ValueView, v: ValueView, t: u64)
    ensures
        count(transpose(log), v, k, t) == count(log, k, v, t),
    decreases log.len(),
{
    if log.len() > 0 {
        assert(transpose(log).drop_last() =~= transpose(log.drop_last()));
        lemma_count_transpose(log.drop_last(), k, v, t);
    }
}

/// Transposing a concatenation transposes each part.
pub proof fn lemma_transpose_append(a: Seq<Fact>, b: Seq<Fact>)
    ensures
        transpose(a + b) == transpose(a) + transpose(b),
{
    assert(transpose(a + b) =~= transpose(a) + transpose(b));
}

/// Compaction and transposition commute.
pub proof fn lemma_transpose_compact(log: Seq<Fact>, frontier: u64)
    ensures
        compact(transpose(log), frontier) == transpose(compact(log, frontier)),
{
    assert(compact(transpose(log), frontier) =~= transpose(compact(log, frontier)));
}

/// Compaction to a frontier keeps every accumulation at or above it.
pub proof fn lemma_count_compact(log: Seq<Fact>, frontier: u64, k: ValueView, v: ValueView, t: u64)
    requires
        frontier <= t,
    ensures
        count(compact(log, frontier), k, v, t) == count(log, k, v, t),
    decreases log.len(),
{
    if log.len() > 0 {
        assert(compact(log, frontier).drop_last() =~= compact(log.drop_last(), frontier));
        lemma_count_compact(log.drop_last(), frontier, k, v, t);
    }
}

/// Accumulations over a concatenation add up.
pub proof fn lemma_count_append(a: Seq<Fact>, b: Seq<Fact>, k: ValueView, v: ValueView, t: u64)
    ensures
        count(a + b, k, v, t) == count(a, k, v, t) + count(b, k, v, t),
    decreases b.len(),
{
    if b.len() > 0 {
        assert((a + b).drop_last() =~= a + b.drop_last());
        lemma_count_append(a, b.drop_last(), k, v, t);
    }
}

/// A nonzero accumulation has an update behind it.
proof fn lemma_count_witness(log: Seq<Fact>, k: ValueView, v: ValueView, t: u64)
    requires
        count(log, k, v, t) != 0,
    ensures
        exists|j: int|
            0 <= j < log.len() && log[j].key == k && log[j].val == v && log[j].time <= t,
    decreases log.len(),
{
    let l = log.drop_last();
    if count(l, k, v, t) != 0 {
        lemma_count_witness(l, k, v, t);
        let j = choose|j: int| 0 <= j < l.len() && l[j].key == k && l[j].val == v && l[j].time <= t;
        assert(log[j] == l[j]);
    } else {
        assert(log[log.len() - 1] == log.last());
    }
}

/// The index of one attribute in one direction.
pub struct CollectionIndex {
    log: Vec<Update>,
    since: u64,
}

/// The content of an index: its updates, and the frontier below which
/// history may have been compacted away.
pub struct IndexView {
    pub facts: Seq<Fact>,
    pub since: u64,
}

impl View for CollectionIndex {
    type V = IndexView;

    closed spec fn view(&self) -> IndexView {
        IndexView { facts: facts(self.log@), since: self.since }
    }
}

/// Whether some value of `vs` has the content of `v`.
fn holds_value(vs: &Vec<Value>, v: &Value) -> (r: bool)
    ensures
        r == views(vs@).contains(v@),
{
    let mut i: usize = 0;
    while i < vs.len()
        invariant
            i <= vs.len(),
            forall|j: int| 0 <= j < i ==> vs@[j]@ != v@,
        decreases vs.len() - i,
    {
        if vs[i].equals(v) {
            assert(views(vs@)[i as int] == v@);
            return true;
        }
        i = i + 1;
    }
    assert forall|j: int| 0 <= j < views(vs@).len() implies views(vs@)[j] != v@ by {
        assert(views(vs@)[j] == vs@[j]@);
    }
    false
}

impl CollectionIndex {
    /// An index with no updates and full history.
    pub fn new() -> (r: CollectionIndex)
        ensures
            r@.facts == Seq::<Fact>::empty(),
            r@.since == 0,
    {
        let r = CollectionIndex { log: Vec::new(), since: 0 };
        assert(facts(r.log@) =~= Seq::<Fact>::empty());
        r
    }

    /// The retention frontier: reads below it are not offered.
    pub fn since(&self) -> (r: u64)
        ensures
            r == self@.since,
    {
        self.since
    }

    /// Appends a batch of updates, as (key, value) pairs, or swapped when
    /// `swap` is set.
    pub fn extend(&mut self, updates: &Vec<Update>, swap: bool)
        ensures
            final(self)@.since == old(self)@.since,
            !swap ==> final(self)@.facts == old(self)@.facts + facts(updates@),
            swap ==> final(self)@.facts == old(self)@.facts + transpose(facts(updates@)),
    {
        let ghost start = self@.facts;
        let mut i: usize = 0;
        while i < updates.len()
            invariant
                i <= updates.len(),
                self@.since == old(self)@.since,
                !swap ==> self@.facts == start + facts(updates@.subrange(0, i as int)),
                swap ==> self@.facts == start + transpose(facts(updates@.subrange(0, i as int))),
            decreases updates.len() - i,
        {
            let u = &updates[i];
            let (key, val) = if swap {
                (u.val.duplicate(), u.key.duplicate())
            } else {
                (u.key.duplicate(), u.val.duplicate())
            };
            let ghost before = self.log@;
            self.log.push(Update { key, val, time: u.time, diff: u.diff });
            proof {
                let p = updates@.subrange(0, i as int);
                let q = updates@.subrange(0, i as int + 1);
                assert(q =~= p.push(updates@[i as int]));
                assert(facts(self.log@) =~= facts(before).push(self.log@.last()@));
                assert(facts(q) =~= facts(p).push(updates@[i as int]@));
                assert(transpose(facts(q)) =~= transpose(facts(p)).push(
                    Fact { key: u.val@, val: u.key@, time: u.time, diff: u.diff as int },
                ));
                assert(start + facts(q) =~= (start + facts(p)).push(updates@[i as int]@));
                assert(start + transpose(facts(q)) =~= (start + transpose(facts(p))).push(
                    Fact { key: u.val@, val: u.key@, time: u.time, diff: u.diff as int },
                ));
            }
            i = i + 1;
        }
        assert(updates@.subrange(0, updates.len() as int) =~= updates@);
    }

    /// Moves the retention frontier up to `frontier` (never down) and compacts
    /// the updates: every update earlier than `frontier` is moved to it.
    pub fn advance_by(&mut self, frontier: u64)
        ensures
            final(self)@.facts == compact(old(self)@.facts, frontier),
            final(self)@.since == if old(self)@.since < frontier {
                frontier
            } else {
                old(self)@.since
            },
    {
        let ghost start = self@.facts;
        let n = self.log.len();
        let mut i: usize = 0;
        while i < n
            invariant
                i <= n,
                n == self.log.len(),
                self.since == old(self).since,
                forall|j: int|
                    0 <= j < i ==> #[trigger] self.log@[j]@ == compact(start, frontier)[j],
                forall|j: int| i <= j < n ==> #[trigger] self.log@[j]@ == start[j],
                start.len() == n,
            decreases n - i,
        {
            assert(self.log@[i as int]@ == start[i as int]);
            if self.log[i].time < frontier {
                let u = &self.log[i];
                let moved = Update {
                    key: u.key.duplicate(),
                    val: u.val.duplicate(),
                    time: frontier,
                    diff: u.diff,
                };
                self.log.set(i, moved);
            }
            assert(self.log@[i as int]@ == compact(start, frontier)[i as int]);
            i = i + 1;
        }
        if self.since < frontier {
            self.since = frontier;
        }
        assert(self@.facts =~= compact(start, frontier));
    }

    /// The accumulated multiplicity of (k, v) at time t, before `distinct`.
    fn accumulated(&self, k: &Value, v: &Value, t: u64) -> (r: i128)
        ensures
            r == count(self@.facts, k@, v@, t),
    {
        let mut acc: i128 = 0;
        let mut i: usize = 0;
        while i < self.log.len()
            invariant
                i <= self.log.len(),
                acc == count(facts(self.log@.subrange(0, i as int)), k@, v@, t),
                -(i as int) * 0x8000_0000_0000_0000 <= acc <= (i as int) * 0x8000_0000_0000_0000,
            decreases self.log.len() - i,
        {
            let u = &self.log[i];
            proof {
                let p = self.log@.subrange(0, i as int);
                let q = self.log@.subrange(0, i as int + 1);
                assert(facts(q).drop_last() =~= facts(p));
                assert(facts(q).last() == u@);
            }
            if u.key.equals(k) && u.val.equals(v) && u.time <= t {
                acc = acc + u.diff as i128;
            }
            i = i + 1;
        }
        assert(self.log@.subrange(0, self.log.len() as int) =~= self.log@);
        acc
    }

    /// Whether (k, v) is present at time t; `None` below the retention
    /// frontier.
    pub fn contains(&self, k: &Value, v: &Value, t: u64) -> (r: Option<bool>)
        ensures
            t < self@.since ==> r is None,
            t >= self@.since ==> r == Some(present(self@.facts, k@, v@, t)),
    {
        if t < self.since {
            None
        } else {
            Some(self.accumulated(k, v, t) > 0)
        }
    }

    /// The distinct values present under key k at time t, each once; `None`
    /// below the retention frontier.
    pub fn get(&self, k: &Value, t: u64) -> (r: Option<Vec<Value>>)
        ensures
            match r {
                None => t < self@.since,
                Some(vs) => t >= self@.since && lists_present(vs@, self@.facts, k@, t),
            },
    {
        if t < self.since {
            return None;
        }
        let ghost fs = self@.facts;
        let mut out: Vec<Value> = Vec::new();
        let mut i: usize = 0;
        while i < self.log.len()
            invariant
                i <= self.log.len(),
                fs == self@.facts,
                views(out@).no_duplicates(),
                forall|v: ValueView| views(out@).contains(v) ==> present(fs, k@, v, t),
                forall|j: int|
                    0 <= j < i && fs[j].key == k@ && fs[j].time <= t && present(
                        fs,
                        k@,
                        #[trigger] fs[j].val,
                        t,
                    ) ==> views(out@).contains(fs[j].val),
            decreases self.log.len() - i,
        {
            let u = &self.log[i];
            assert(fs[i as int] == u@);
            if u.key.equals(k) && u.time <= t && !holds_value(&out, &u.val) {
                let w = self.accumulated(k, &u.val, t);
                if w > 0 {
                    assert(present(fs, k@, u.val@, t));
                    let ghost before = out@;
                    out.push(u.val.duplicate());
                    proof {
                        assert(views(out@) =~= views(before).push(u.val@));
                        assert forall|v: ValueView| views(out@).contains(v) implies present(
                            fs,
                            k@,
                            v,
                            t,
                        ) by {
                            if v != u.val@ {
                                let m = choose|m: int|
                                    0 <= m < views(out@).len() && views(out@)[m] == v;
                                assert(views(before)[m] == v);
                                assert(views(before).contains(v));
                            }
                        }
                        assert forall|j: int|
                            0 <= j < i + 1 && fs[j].key == k@ && fs[j].time <= t && present(
                                fs,
                                k@,
                                #[trigger] fs[j].val,
                                t,
                            ) implies views(out@).contains(fs[j].val) by {
                            if j < i {
                                let m = choose|m: int|
                                    0 <= m < views(before).len() && views(before)[m] == fs[j].val;
                                assert(views(out@)[m] == fs[j].val);
                            } else {
                                assert(views(out@)[before.len() as int] == u.val@);
                            }
                        }
                    }
                }
            }
            i = i + 1;
        }
        proof {
            assert forall|v: ValueView| present(fs, k@, v, t) implies views(out@).contains(v) by {
                lemma_count_witness(fs, k@, v, t);
                let j = choose|j: int|
                    0 <= j < fs.len() && fs[j].key == k@ && fs[j].val == v && fs[j].time <= t;
            }
        }
        Some(out)
    }
}

} // verus!
