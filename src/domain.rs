//! A domain: attributes that share one logical clock, their inputs, and a
//! forward and a reverse index for each of them.
use vstd::prelude::*;

use crate::index::{
    compact, consolidate, count, facts, lemma_transpose_append, lemma_transpose_compact, transpose, CollectionIndex,
    Fact, IndexView, Update,
};
use crate::value::{Error, TxData, TxView, Value, ValueView};

verus! {

/// The content of one attribute: its name, the updates buffered in its input
/// while the input is live (`None` once closed, or for a source), and its two
/// indices.
pub struct AttrView {
    pub name: Seq<char>,
    pub input: Option<Seq<Fact>>,
    pub forward: IndexView,
    pub reverse: IndexView,
}

/// The content of a domain: the clock, and the attributes in order of creation.
pub struct DomainView {
    pub now: u64,
    pub attrs: Seq<AttrView>,
}

/// The larger of two times.
pub open spec fn later(a: u64, b: u64) -> u64 {
    if a < b {
        b
    } else {
        a
    }
}

/// The update that a transaction record buffers at time `now`.
pub open spec fn tx_fact(r: TxView, now: u64) -> Fact {
    Fact { key: ValueView::Eid(r.e), val: r.v, time: now, diff: r.op as int }
}

pub open spec fn tx_views(tx: Seq<TxData>) -> Seq<TxView> {
    tx.map_values(|r: TxData| r@)
}

/// An external record: discriminant, ((entity, value), time, multiplicity).
pub type Datom = (usize, ((Value, Value), u64, isize));

/// The update that an external record carries.
pub open spec fn datom_fact(d: Datom) -> Fact {
    Fact { key: d.1.0.0@, val: d.1.0.1@, time: d.1.1, diff: d.1.2 as int }
}

/// Whether an external record belongs to the attribute of discriminant `idx`
/// (every record does when no discriminant is given).
pub open spec fn selects(idx: Option<usize>, d: Datom) -> bool {
    match idx {
        None => true,
        Some(i) => d.0 == i,
    }
}

/// The updates of the records that `idx` selects, in order.
pub open spec fn selected(datoms: Seq<Datom>, idx: Option<usize>) -> Seq<Fact>
    decreases datoms.len(),
{
    if datoms.len() == 0 {
        Seq::empty()
    } else if selects(idx, datoms.last()) {
        selected(datoms.drop_last(), idx).push(datom_fact(datoms.last()))
    } else {
        selected(datoms.drop_last(), idx)
    }
}

impl AttrView {
    /// A new attribute with a live, empty input and empty indices.
    pub open spec fn fresh(name: Seq<char>) -> AttrView {
        AttrView {
            name,
            input: Some(Seq::empty()),
            forward: IndexView { facts: Seq::empty(), since: 0 },
            reverse: IndexView { facts: Seq::empty(), since: 0 },
        }
    }

    /// The attribute is named `name`, has no input and full history, and its
    /// indices hold the updates `fs` up to consolidation: every accumulation
    /// is that of `fs`, and the reverse index is the transpose of the forward
    /// one.
    pub open spec fn fed_by(self, name: Seq<char>, fs: Seq<Fact>) -> bool {
        &&& self.name == name
        &&& self.input is None
        &&& self.forward.since == 0
        &&& self.reverse.since == 0
        &&& self.reverse.facts == transpose(self.forward.facts)
        &&& forall|k: ValueView, v: ValueView, t: u64|
            #[trigger] count(self.forward.facts, k, v, t) == count(fs, k, v, t)
    }

    /// The two indices hold the same relation, one the transpose of the
    /// other, with one retention frontier; buffered updates carry `now`.
    pub open spec fn consistent(self, now: u64) -> bool {
        &&& self.reverse.facts == transpose(self.forward.facts)
        &&& self.reverse.since == self.forward.since
        &&& self.input matches Some(p) ==> forall|j: int| 0 <= j < p.len() ==> #[trigger] p[j].time == now
    }

    /// The attribute after one more buffered update, if its input is live.
    pub open spec fn accept(self, f: Fact) -> AttrView {
        match self.input {
            Some(p) => AttrView { input: Some(p.push(f)), ..self },
            None => self,
        }
    }

    /// The attribute after its buffered updates reach both indices.
    pub open spec fn flushed(self) -> AttrView {
        match self.input {
            Some(p) => AttrView {
                name: self.name,
                input: Some(Seq::empty()),
                forward: IndexView { facts: self.forward.facts + p, since: self.forward.since },
                reverse: IndexView {
                    facts: self.reverse.facts + transpose(p),
                    since: self.reverse.since,
                },
            },
            None => self,
        }
    }

    /// The attribute after its input is flushed and closed.
    pub open spec fn closed(self) -> AttrView {
        AttrView { input: None, ..self.flushed() }
    }

    /// The attribute after both indices drop history below `f`.
    pub open spec fn compacted(self, f: u64) -> AttrView {
        AttrView {
            name: self.name,
            input: self.input,
            forward: IndexView {
                facts: compact(self.forward.facts, f),
                since: later(self.forward.since, f),
            },
            reverse: IndexView {
                facts: compact(self.reverse.facts, f),
                since: later(self.reverse.since, f),
            },
        }
    }

    /// What advancing the clock does to the attribute.
    pub open spec fn advanced(self, trace_next: Option<u64>) -> AttrView {
        match trace_next {
            Some(f) => self.flushed().compacted(f),
            None => self.flushed(),
        }
    }
}

impl DomainView {
    /// Some attribute, live or closed, has the name `n`.
    pub open spec fn has_name(self, n: Seq<char>) -> bool {
        exists|i: int| 0 <= i < self.attrs.len() && #[trigger] self.attrs[i].name == n
    }

    /// Some attribute of name `n` has a live input.
    pub open spec fn live(self, n: Seq<char>) -> bool {
        exists|i: int|
            0 <= i < self.attrs.len() && #[trigger] self.attrs[i].name == n && self.attrs[i].input
                is Some
    }

    /// The position of the attribute named `n`.
    pub open spec fn position(self, n: Seq<char>) -> int {
        choose|i: int| 0 <= i < self.attrs.len() && #[trigger] self.attrs[i].name == n
    }

    /// Names are unique, and every attribute is consistent.
    pub open spec fn wf(self) -> bool {
        &&& forall|i: int, j: int|
            0 <= i < self.attrs.len() && 0 <= j < self.attrs.len() && i != j
                ==> #[trigger] self.attrs[i].name != #[trigger] self.attrs[j].name
        &&& forall|i: int| 0 <= i < self.attrs.len() ==> #[trigger] self.attrs[i].consistent(self.now)
    }

    /// The domain with one more attribute.
    pub open spec fn with(self, a: AttrView) -> DomainView {
        DomainView { now: self.now, attrs: self.attrs.push(a) }
    }

    /// The domain after one transaction record reaches its input.
    pub open spec fn apply(self, r: TxView) -> DomainView {
        DomainView {
            now: self.now,
            attrs: self.attrs.map_values(
                |a: AttrView|
                    if a.name == r.a {
                        a.accept(tx_fact(r, self.now))
                    } else {
                        a
                    },
            ),
        }
    }

    /// Records are applied one at a time; the first whose attribute has no
    /// live input stops the batch, and is named, while the records before it
    /// stay applied.
    pub open spec fn ingest(self, tx: Seq<TxView>) -> (DomainView, Option<Seq<char>>)
        decreases tx.len(),
    {
        if tx.len() == 0 {
            (self, None)
        } else if !self.live(tx[0].a) {
            (self, Some(tx[0].a))
        } else {
            self.apply(tx[0]).ingest(tx.drop_first())
        }
    }

    /// The domain after the input of `n` is flushed and closed.
    pub open spec fn close(self, n: Seq<char>) -> DomainView {
        DomainView {
            now: self.now,
            attrs: self.attrs.map_values(
                |a: AttrView|
                    if a.name == n {
                        a.closed()
                    } else {
                        a
                    },
            ),
        }
    }

    /// The domain after the clock moves to `next`.
    pub open spec fn advance(self, next: u64, trace_next: Option<u64>) -> DomainView {
        if next == self.now {
            self
        } else {
            DomainView {
                now: next,
                attrs: self.attrs.map_values(|a: AttrView| a.advanced(trace_next)),
            }
        }
    }
}

/// Flushing, closing and compacting keep an attribute consistent, whatever
/// the clock then reads.
proof fn lemma_transitions_consistent(a: AttrView, now: u64, next: u64, f: u64)
    requires
        a.consistent(now),
    ensures
        a.flushed().consistent(next),
        a.closed().consistent(next),
        a.flushed().compacted(f).consistent(next),
{
    if let Some(p) = a.input {
        lemma_transpose_append(a.forward.facts, p);
    }
    lemma_transpose_compact(a.flushed().forward.facts, f);
}

struct Attribute {
    name: String,
    input: Option<Vec<Update>>,
    forward: CollectionIndex,
    reverse: CollectionIndex,
}

impl View for Attribute {
    type V = AttrView;

    closed spec fn view(&self) -> AttrView {
        AttrView {
            name: self.name@,
            input: match self.input {
                Some(p) => Some(facts(p@)),
                None => None,
            },
            forward: self.forward@,
            reverse: self.reverse@,
        }
    }
}

impl Attribute {
    fn flush(&mut self)
        ensures
            final(self)@ == old(self)@.flushed(),
    {
        match self.input.take() {
            Some(p) => {
                self.forward.extend(&p, false);
                self.reverse.extend(&p, true);
                let empty: Vec<Update> = Vec::new();
                assert(facts(empty@) =~= Seq::<Fact>::empty());
                self.input = Some(empty);
            },
            None => {},
        }
    }
}

/// The updates of the records that `idx` selects.
fn select(datoms: &Vec<Datom>, idx: Option<usize>) -> (r: Vec<Update>)
    ensures
        facts(r@) == selected(datoms@, idx),
{
    let mut out: Vec<Update> = Vec::new();
    let mut i: usize = 0;
    while i < datoms.len()
        invariant
            i <= datoms.len(),
            facts(out@) == selected(datoms@.subrange(0, i as int), idx),
        decreases datoms.len() - i,
    {
        let d = &datoms[i];
        let ghost p = datoms@.subrange(0, i as int);
        let ghost q = datoms@.subrange(0, i as int + 1);
        assert(q.drop_last() =~= p);
        assert(q.last() == datoms@[i as int]);
        let take = match idx {
            None => true,
            Some(k) => d.0 == k,
        };
        if take {
            let ghost before = out@;
            out.push(
                Update {
                    key: d.1.0.0.duplicate(),
                    val: d.1.0.1.duplicate(),
                    time: d.1.1,
                    diff: d.1.2,
                },
            );
            assert(facts(out@) =~= facts(before).push(datom_fact(*d)));
        }
        i = i + 1;
    }
    assert(datoms@.subrange(0, datoms.len() as int) =~= datoms@);
    out
}

/// Attributes (and their inputs) that share one logical clock.
pub struct Domain {
    now_at: u64,
    attributes: Vec<Attribute>,
}

impl View for Domain {
    type V = DomainView;

    closed spec fn view(&self) -> DomainView {
        DomainView { now: self.now_at, attrs: self.attributes@.map_values(|a: Attribute| a@) }
    }
}

impl Domain {
    /// A domain with no attributes whose clock starts at `start_at`.
    pub fn new(start_at: u64) -> (r: Domain)
        ensures
            r@.now == start_at,
            r@.attrs == Seq::<AttrView>::empty(),
            r@.wf(),
    {
        let r = Domain { now_at: start_at, attributes: Vec::new() };
        assert(r@.attrs =~= Seq::<AttrView>::empty());
        r
    }

    /// The position of the attribute named `name`, if there is one.
    fn find(&self, name: &String) -> (r: Option<usize>)
        ensures
            match r {
                Some(i) => i < self@.attrs.len() && self@.attrs[i as int].name == name@,
                None => !self@.has_name(name@),
            },
    {
        let mut i: usize = 0;
        while i < self.attributes.len()
            invariant
                i <= self.attributes.len(),
                forall|j: int| 0 <= j < i ==> #[trigger] self@.attrs[j].name != name@,
            decreases self.attributes.len() - i,
        {
            assert(self@.attrs[i as int] == self.attributes@[i as int]@);
            if self.attributes[i].name.eq(name) {
                return Some(i);
            }
            i = i + 1;
        }
        None
    }

    /// Registers a new attribute with a live, empty input and empty forward
    /// and reverse indices; a name already registered, live or closed, is a
    /// conflict and leaves the domain as it was.
    pub fn create_attribute(&mut self, name: &str) -> (r: Result<(), Error>)
        requires
            old(self)@.wf(),
        ensures
            final(self)@.wf(),
            r is Err <==> old(self)@.has_name(name@),
            match r {
                Ok(()) => final(self)@ == old(self)@.with(AttrView::fresh(name@)),
                Err(e) => final(self)@ == old(self)@ && e.conflict_on(name@),
            },
    {
        let n = name.to_owned();
        match self.find(&n) {
            Some(_) => Err(Error::Conflict(n)),
            None => {
                let empty: Vec<Update> = Vec::new();
                let a = Attribute {
                    name: n,
                    input: Some(empty),
                    forward: CollectionIndex::new(),
                    reverse: CollectionIndex::new(),
                };
                assert(facts(empty@) =~= Seq::<Fact>::empty());
                assert(transpose(Seq::<Fact>::empty()) =~= Seq::<Fact>::empty());
                assert(a@ == AttrView::fresh(name@));
                self.register(a);
                Ok(())
            },
        }
    }

    /// Registers an attribute fed by external records: those that
    /// `name_idx` selects (all of them when it is `None`), projected to their
    /// ((entity, value), time, multiplicity) and consolidated before they are
    /// indexed. Such an attribute has no input.
    /// A name already registered is a conflict and changes nothing.
    pub fn create_source(&mut self, name: &str, name_idx: Option<usize>, datoms: &Vec<Datom>) -> (r:
        Result<(), Error>)
        requires
            old(self)@.wf(),
        ensures
            final(self)@.wf(),
            r is Err <==> old(self)@.has_name(name@),
            match r {
                Ok(()) => final(self)@ == old(self)@.with(final(self)@.attrs.last())
                    && final(self)@.attrs.last().fed_by(name@, selected(datoms@, name_idx)),
                Err(e) => final(self)@ == old(self)@ && e.conflict_on(name@),
            },
    {
        let n = name.to_owned();
        match self.find(&n) {
            Some(_) => Err(Error::Conflict(n)),
            None => {
                let tuples = consolidate(select(datoms, name_idx));
                let mut forward = CollectionIndex::new();
                forward.extend(&tuples, false);
                let mut reverse = CollectionIndex::new();
                reverse.extend(&tuples, true);
                let a = Attribute { name: n, input: None, forward, reverse };
                assert(Seq::<Fact>::empty() + facts(tuples@) =~= facts(tuples@));
                assert(Seq::<Fact>::empty() + transpose(facts(tuples@)) =~= transpose(
                    facts(tuples@),
                ));
                assert(a@.fed_by(name@, selected(datoms@, name_idx)));
                self.register(a);
                assert(self@.attrs.last() == a@);
                Ok(())
            },
        }
    }

    /// The position of the attribute named `name` if its input is live.
    fn find_live(&self, name: &String) -> (r: Option<usize>)
        requires
            self@.wf(),
        ensures
            match r {
                Some(i) => i < self@.attrs.len() && self@.attrs[i as int].name == name@
                    && self@.attrs[i as int].input is Some,
                None => !self@.live(name@),
            },
    {
        match self.find(name) {
            Some(i) => {
                assert(self@.attrs[i as int] == self.attributes@[i as int]@);
                if self.attributes[i].input.is_some() {
                    Some(i)
                } else {
                    None
                }
            },
            None => None,
        }
    }

    /// Transacts records into the inputs of their attributes, one at a time.
    /// A record buffers ((Eid(entity), value), multiplicity) at the current
    /// time in its attribute's input; nothing reaches an index before the
    /// clock advances. The first record whose attribute has no live input
    /// (never created, closed, or a source) ends the call with `NotFound`
    /// naming it; the records before it stay buffered (ingestion is per
    /// record, not atomic over the batch).
    pub fn transact(&mut self, tx_data: Vec<TxData>) -> (r: Result<(), Error>)
        requires
            old(self)@.wf(),
        ensures
            final(self)@.wf(),
            final(self)@ == old(self)@.ingest(tx_views(tx_data@)).0,
            match r {
                Ok(()) => old(self)@.ingest(tx_views(tx_data@)).1 is None,
                Err(e) => old(self)@.ingest(tx_views(tx_data@)).1 matches Some(n) && e.not_found(n),
            },
    {
        let ghost txs = tx_views(tx_data@);
        assert(txs.skip(0) =~= txs);
        let mut i: usize = 0;
        while i < tx_data.len()
            invariant
                i <= tx_data.len(),
                txs == tx_views(tx_data@),
                self@.wf(),
                self@.ingest(txs.skip(i as int)) == old(self)@.ingest(txs),
            decreases tx_data.len() - i,
        {
            let rec = &tx_data[i];
            assert(txs.skip(i as int)[0] == rec@);
            match self.find_live(&rec.2) {
                None => {
                    return Err(Error::NotFound(rec.2.clone()));
                },
                Some(j) => {
                    let ghost before = self@;
                    let u = Update { key: Value::Eid(rec.1), val: rec.3.duplicate(), time: self.now_at, diff: rec.0 };
                    assert(u@ == tx_fact(rec@, before.now));
                    let ghost old_attrs = self.attributes@;
                    let mut a = self.attributes.remove(j);
                    assert(a@ == before.attrs[j as int]);
                    if let Some(mut p) = a.input.take() {
                        let ghost pv = p@;
                        p.push(u);
                        assert(facts(p@) =~= facts(pv).push(u@));
                        a.input = Some(p);
                    }
                    self.attributes.insert(j, a);
                    assert(self.attributes@ =~= old_attrs.update(j as int, a));
                    assert(self@.attrs =~= before.apply(rec@).attrs) by {
                        assert forall|k: int| 0 <= k < self@.attrs.len() implies self@.attrs[k]
                            == before.apply(rec@).attrs[k] by {
                            if k != j {
                                assert(self@.attrs[k] == before.attrs[k]);
                                assert(before.attrs[k].name != before.attrs[j as int].name);
                            }
                        }
                    }
                    assert forall|k: int| 0 <= k < self@.attrs.len() implies #[trigger] self@.attrs[k].consistent(
                        self@.now,
                    ) by {
                        assert(before.attrs[k].consistent(before.now));
                    }
                    assert forall|k: int, l: int|
                        0 <= k < self@.attrs.len() && 0 <= l < self@.attrs.len() && k != l
                            implies #[trigger] self@.attrs[k].name != #[trigger] self@.attrs[l].name by {
                        assert(before.attrs[k].name != before.attrs[l].name);
                    }
                    assert(txs.skip(i as int).drop_first() =~= txs.skip(i as int + 1));
                },
            }
            i = i + 1;
        }
        assert(txs.skip(i as int) =~= Seq::<TxView>::empty());
        Ok(())
    }

    /// Flushes and closes the input of `name`: its buffered updates reach
    /// both indices, and no further updates can arrive. The indices stay.
    /// `NotFound` when `name` has no live input.
    pub fn close_input(&mut self, name: String) -> (r: Result<(), Error>)
        requires
            old(self)@.wf(),
        ensures
            final(self)@.wf(),
            r is Err <==> !old(self)@.live(name@),
            match r {
                Ok(()) => final(self)@ == old(self)@.close(name@),
                Err(e) => final(self)@ == old(self)@ && e.not_found(name@),
            },
    {
        match self.find_live(&name) {
            None => Err(Error::NotFound(name)),
            Some(j) => {
                let ghost before = self@;
                let ghost old_attrs = self.attributes@;
                let mut a = self.attributes.remove(j);
                assert(a@ == before.attrs[j as int]);
                a.flush();
                a.input = None;
                self.attributes.insert(j, a);
                assert(self.attributes@ =~= old_attrs.update(j as int, a));
                assert(self@.attrs =~= before.close(name@).attrs) by {
                    assert forall|k: int| 0 <= k < self@.attrs.len() implies self@.attrs[k]
                        == before.close(name@).attrs[k] by {
                        if k != j {
                            assert(self@.attrs[k] == before.attrs[k]);
                            assert(before.attrs[k].name != before.attrs[j as int].name);
                        }
                    }
                }
                assert forall|k: int| 0 <= k < self@.attrs.len() implies #[trigger] self@.attrs[k].consistent(
                    self@.now,
                ) by {
                    lemma_transitions_consistent(before.attrs[k], before.now, before.now, 0);
                }
                assert forall|k: int, l: int|
                    0 <= k < self@.attrs.len() && 0 <= l < self@.attrs.len() && k != l
                        implies #[trigger] self@.attrs[k].name != #[trigger] self@.attrs[l].name by {
                    assert(before.attrs[k].name != before.attrs[l].name);
                }
                Ok(())
            },
        }
    }

    /// Advances the clock to `next`. Equal to the current time, nothing
    /// happens. Otherwise every live input flushes its buffered updates (they
    /// carry the old time) into both indices, and, when `trace_next` is
    /// given, every index of every attribute (closed and source ones too)
    /// compacts its history to `trace_next`.
    pub fn advance_to(&mut self, next: u64, trace_next: Option<u64>)
        requires
            old(self)@.wf(),
            old(self)@.now <= next,
        ensures
            final(self)@.wf(),
            final(self)@ == old(self)@.advance(next, trace_next),
    {
        if self.now_at == next {
            return;
        }
        let ghost before = self@;
        let n = self.attributes.len();
        let mut i: usize = 0;
        while i < n
            invariant
                i <= n,
                n == self.attributes.len(),
                before.attrs.len() == n,
                self.now_at == before.now,
                forall|k: int| 0 <= k < i ==> #[trigger] self@.attrs[k] == before.attrs[k].advanced(trace_next),
                forall|k: int| i <= k < n ==> #[trigger] self@.attrs[k] == before.attrs[k],
            decreases n - i,
        {
            let ghost old_attrs = self.attributes@;
            let ghost cur = self@;
            let mut a = self.attributes.remove(i);
            assert(a@ == cur.attrs[i as int]);
            a.flush();
            if let Some(f) = trace_next {
                a.forward.advance_by(f);
                a.reverse.advance_by(f);
            }
            assert(a@ == before.attrs[i as int].advanced(trace_next));
            self.attributes.insert(i, a);
            assert(self.attributes@ =~= old_attrs.update(i as int, a));
            assert forall|k: int| 0 <= k < n implies #[trigger] self@.attrs[k] == if k <= i {
                before.attrs[k].advanced(trace_next)
            } else {
                before.attrs[k]
            } by {
                if k != i {
                    assert(self@.attrs[k] == cur.attrs[k]);
                }
            }
            i = i + 1;
        }
        let ghost flushed = self@.attrs;
        self.now_at = next;
        assert(self@.attrs == flushed);
        assert(self@.attrs =~= before.advance(next, trace_next).attrs) by {
            assert forall|k: int| 0 <= k < n implies self@.attrs[k] == before.advance(
                next,
                trace_next,
            ).attrs[k] by {
                assert(flushed[k] == before.attrs[k].advanced(trace_next));
            }
        }
        assert forall|k: int| 0 <= k < self@.attrs.len() implies #[trigger] self@.attrs[k].consistent(
            self@.now,
        ) by {
            lemma_transitions_consistent(before.attrs[k], before.now, next, 0);
            if let Some(f) = trace_next {
                lemma_transitions_consistent(before.attrs[k], before.now, next, f);
            }
        }
        assert forall|k: int, l: int|
            0 <= k < self@.attrs.len() && 0 <= l < self@.attrs.len() && k != l
                implies #[trigger] self@.attrs[k].name != #[trigger] self@.attrs[l].name by {
            assert(before.attrs[k].name != before.attrs[l].name);
        }
    }

    fn register(&mut self, a: Attribute)
        requires
            old(self)@.wf(),
            !old(self)@.has_name(a@.name),
            a@.consistent(old(self)@.now),
        ensures
            final(self)@ == old(self)@.with(a@),
            final(self)@.wf(),
    {
        let ghost before = self@;
        self.attributes.push(a);
        assert(self@.attrs =~= before.attrs.push(a@));
        assert forall|i: int, j: int|
            0 <= i < self@.attrs.len() && 0 <= j < self@.attrs.len() && i != j
                implies #[trigger] self@.attrs[i].name != #[trigger] self@.attrs[j].name by {
            if i < before.attrs.len() && j < before.attrs.len() {
                assert(before.attrs[i] == self@.attrs[i]);
                assert(before.attrs[j] == self@.attrs[j]);
            } else if i < before.attrs.len() {
                assert(before.attrs[i] == self@.attrs[i]);
            } else {
                assert(before.attrs[j] == self@.attrs[j]);
            }
        }
        assert forall|i: int| 0 <= i < self@.attrs.len() implies #[trigger] self@.attrs[i].consistent(
            self@.now,
        ) by {
            if i < before.attrs.len() {
                assert(before.attrs[i] == self@.attrs[i]);
            }
        }
    }

    /// The forward index (entity to values) of the attribute `name`.
    pub fn forward(&self, name: &str) -> (r: Option<&CollectionIndex>)
        requires
            self@.wf(),
        ensures
            match r {
                Some(ix) => self@.has_name(name@) && ix@ == self@.attrs[self@.position(name@)].forward,
                None => !self@.has_name(name@),
            },
    {
        let n = name.to_owned();
        match self.find(&n) {
            Some(i) => {
                assert(self@.attrs[i as int] == self.attributes@[i as int]@);
                Some(&self.attributes[i].forward)
            },
            None => None,
        }
    }

    /// The reverse index (value to entities) of the attribute `name`.
    pub fn reverse(&self, name: &str) -> (r: Option<&CollectionIndex>)
        requires
            self@.wf(),
        ensures
            match r {
                Some(ix) => self@.has_name(name@) && ix@ == self@.attrs[self@.position(name@)].reverse,
                None => !self@.has_name(name@),
            },
    {
        let n = name.to_owned();
        match self.find(&n) {
            Some(i) => {
                assert(self@.attrs[i as int] == self.attributes@[i as int]@);
                Some(&self.attributes[i].reverse)
            },
            None => None,
        }
    }

    /// Reports the current timestamp.
    pub fn time(&self) -> (r: &u64)
        ensures
            *r == self@.now,
    {
        &self.now_at
    }
}

} // verus!
