//! Properties of a domain that hold over sequences of operations.
use vstd::prelude::*;

use crate::domain::{AttrView, DomainView};
use crate::index::{count, lemma_count_append, lemma_count_compact, lemma_count_transpose, present, Fact};
use crate::value::{TxView, ValueView};

verus! {

/// Transactions leave the clock, the names, the indices and the presence of
/// a live input of every attribute as they were; an attribute without a live
/// input is left entirely as it was.
pub proof fn lemma_ingest_frame(d: DomainView, tx: Seq<TxView>)
    ensures
        d.ingest(tx).0.now == d.now,
        d.ingest(tx).0.attrs.len() == d.attrs.len(),
        forall|i: int|
            0 <= i < d.attrs.len() ==> {
                let a = #[trigger] d.ingest(tx).0.attrs[i];
                &&& a.name == d.attrs[i].name
                &&& a.forward == d.attrs[i].forward
                &&& a.reverse == d.attrs[i].reverse
                &&& (a.input is Some <==> d.attrs[i].input is Some)
                &&& (d.attrs[i].input is None ==> a == d.attrs[i])
            },
    decreases tx.len(),
{
    if tx.len() > 0 && d.live(tx[0].a) {
        let d1 = d.apply(tx[0]);
        lemma_ingest_frame(d1, tx.drop_first());
        assert forall|i: int| 0 <= i < d.attrs.len() implies {
            let a = #[trigger] d.ingest(tx).0.attrs[i];
            &&& a.name == d.attrs[i].name
            &&& a.forward == d.attrs[i].forward
            &&& a.reverse == d.attrs[i].reverse
            &&& (a.input is Some <==> d.attrs[i].input is Some)
            &&& (d.attrs[i].input is None ==> a == d.attrs[i])
        } by {
            assert(d1.attrs[i] == (if d.attrs[i].name == tx[0].a {
                d.attrs[i].accept(crate::domain::tx_fact(tx[0], d.now))
            } else {
                d.attrs[i]
            }));
            let a = d.ingest(tx).0.attrs[i];
            assert(a == d1.ingest(tx.drop_first()).0.attrs[i]);
        }
    }
}

/// A record buffered in a live input changes no attribute's liveness.
proof fn lemma_apply_keeps_liveness(d: DomainView, r: TxView, n: Seq<char>)
    ensures
        d.apply(r).live(n) == d.live(n),
{
    if d.live(n) {
        let i = choose|i: int|
            0 <= i < d.attrs.len() && #[trigger] d.attrs[i].name == n && d.attrs[i].input is Some;
        assert(d.apply(r).attrs[i].name == n);
    }
    if d.apply(r).live(n) {
        let i = choose|i: int|
            0 <= i < d.apply(r).attrs.len() && #[trigger] d.apply(r).attrs[i].name == n
                && d.apply(r).attrs[i].input is Some;
        assert(d.attrs[i].name == n);
    }
}

/// A batch that names an attribute without a live input (never created,
/// closed, or a source) fails with that name or an earlier missing one; when
/// the first record already names one, nothing at all changes. The
/// attributes without a live input are never touched (see
/// `lemma_ingest_frame`).
pub proof fn lemma_missing_attribute_rejected(d: DomainView, tx: Seq<TxView>, j: int)
    requires
        0 <= j < tx.len(),
        !d.live(tx[j].a),
    ensures
        d.ingest(tx).1 is Some,
        !d.live(tx[0].a) ==> d.ingest(tx) == (d, Some(tx[0].a)),
    decreases j,
{
    if d.live(tx[0].a) {
        lemma_apply_keeps_liveness(d, tx[0], tx[j].a);
        assert(tx.drop_first()[j - 1] == tx[j]);
        lemma_missing_attribute_rejected(d.apply(tx[0]), tx.drop_first(), j - 1);
    }
}

/// A name, once registered, stays registered: a second creation under it is
/// a conflict, after any transactions, closings and clock advances. In
/// particular a freshly created name is registered.
pub proof fn lemma_name_stays_registered(
    d: DomainView,
    n: Seq<char>,
    a: AttrView,
    tx: Seq<TxView>,
    m: Seq<char>,
    next: u64,
    trace_next: Option<u64>,
)
    ensures
        d.with(AttrView::fresh(n)).has_name(n),
        d.has_name(n) ==> d.with(a).has_name(n),
        d.has_name(n) ==> d.ingest(tx).0.has_name(n),
        d.has_name(n) ==> d.close(m).has_name(n),
        d.has_name(n) ==> d.advance(next, trace_next).has_name(n),
{
    let w = d.with(AttrView::fresh(n));
    assert(w.attrs[d.attrs.len() as int].name == n);
    if d.has_name(n) {
        let i = choose|i: int| 0 <= i < d.attrs.len() && #[trigger] d.attrs[i].name == n;
        assert(d.with(a).attrs[i].name == n);
        lemma_ingest_frame(d, tx);
        assert(d.ingest(tx).0.attrs[i].name == n);
        assert(d.close(m).attrs[i].name == n);
        assert(d.advance(next, trace_next).attrs[i].name == n);
    }
}

/// The clock never moves back: advancing reaches `next`, which is no earlier
/// than the clock was, and every other operation leaves the clock alone.
pub proof fn lemma_clock_monotone(
    d: DomainView,
    next: u64,
    trace_next: Option<u64>,
    tx: Seq<TxView>,
    n: Seq<char>,
    a: AttrView,
)
    requires
        d.now <= next,
    ensures
        d.advance(next, trace_next).now == next,
        d.now <= d.advance(next, trace_next).now,
        d.ingest(tx).0.now == d.now,
        d.close(n).now == d.now,
        d.with(a).now == d.now,
{
    lemma_ingest_frame(d, tx);
}

/// In every attribute, at every time, the reverse index holds exactly the
/// transpose of the forward index: (v, e) has in one the weight that (e, v)
/// has in the other, and so one is present exactly when the other is.
pub proof fn lemma_reverse_transposes(d: DomainView, i: int, e: ValueView, v: ValueView, t: u64)
    requires
        d.wf(),
        0 <= i < d.attrs.len(),
    ensures
        count(d.attrs[i].reverse.facts, v, e, t) == count(d.attrs[i].forward.facts, e, v, t),
        present(d.attrs[i].reverse.facts, v, e, t) <==> present(d.attrs[i].forward.facts, e, v, t),
        d.attrs[i].reverse.since == d.attrs[i].forward.since,
{
    assert(d.attrs[i].consistent(d.now));
    lemma_count_transpose(d.attrs[i].forward.facts, e, v, t);
}

/// Redundant updates collapse: two inserts of (e, v) and one retract, all no
/// later than t, add exactly one to its accumulation, so a pair that was
/// absent (accumulation zero) is then present, once.
pub proof fn lemma_redundant_updates_collapse(
    log: Seq<Fact>,
    e: ValueView,
    v: ValueView,
    s: u64,
    t: u64,
)
    requires
        s <= t,
    ensures
        ({
            let ins = Fact { key: e, val: v, time: s, diff: 1 };
            let ret = Fact { key: e, val: v, time: s, diff: -1 };
            &&& count(log + seq![ins, ins, ret], e, v, t) == count(log, e, v, t) + 1
            &&& count(log, e, v, t) == 0 ==> present(log + seq![ins, ins, ret], e, v, t)
        }),
{
    let ins = Fact { key: e, val: v, time: s, diff: 1 };
    let ret = Fact { key: e, val: v, time: s, diff: -1 };
    let b = seq![ins, ins, ret];
    lemma_count_append(log, b, e, v, t);
    assert(b.drop_last() =~= seq![ins, ins]);
    assert(b.drop_last().drop_last() =~= seq![ins]);
    assert(b.drop_last().drop_last().drop_last() =~= Seq::<Fact>::empty());
    assert(count(b.drop_last().drop_last().drop_last(), e, v, t) == 0);
    assert(count(b.drop_last().drop_last(), e, v, t) == 1);
    assert(count(b.drop_last(), e, v, t) == 2);
    assert(count(b, e, v, t) == 1);
}

/// Advancing the clock to `t2` with history retention `t1` (t1 <= t2) moves
/// the clock to `t2`, puts every index's retention frontier at or above `t1`,
/// and keeps every read at or above `t1` as it is once the inputs are
/// flushed.
pub proof fn lemma_retention_keeps_later_reads(
    d: DomainView,
    t1: u64,
    t2: u64,
    i: int,
    k: ValueView,
    v: ValueView,
    t: u64,
)
    requires
        d.wf(),
        d.now < t2,
        t1 <= t2,
        0 <= i < d.attrs.len(),
        t1 <= t,
    ensures
        d.advance(t2, Some(t1)).now == t2,
        d.advance(t2, Some(t1)).attrs[i].forward.since >= t1,
        d.advance(t2, Some(t1)).attrs[i].reverse.since >= t1,
        count(d.advance(t2, Some(t1)).attrs[i].forward.facts, k, v, t) == count(
            d.attrs[i].flushed().forward.facts,
            k,
            v,
            t,
        ),
        count(d.advance(t2, Some(t1)).attrs[i].reverse.facts, k, v, t) == count(
            d.attrs[i].flushed().reverse.facts,
            k,
            v,
            t,
        ),
{
    let a = d.attrs[i].flushed();
    assert(d.advance(t2, Some(t1)).attrs[i] == a.compacted(t1));
    lemma_count_compact(a.forward.facts, t1, k, v, t);
    lemma_count_compact(a.reverse.facts, t1, k, v, t);
}

} // verus!
