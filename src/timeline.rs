//! Derivation of a customer's ARR event timeline from its sorted contracts.
use vstd::prelude::*;
use crate::contract::{acv_limit, Contract};
use crate::order::is_sorted;
use crate::date::Date;

verus! {

/// What an ARR event records.
#[derive(Clone, Copy, Debug, PartialEq, Eq, Structural)]
pub enum ArrEventType {
    New,
    Expansion,
    Downsell,
    Churn,
    Renewal,
}

/// A change of a customer's ARR on a date, caused by the contract at index
/// `contract` of the customer's sorted contract list.
#[derive(Clone, Copy, Debug, PartialEq, Eq, Structural)]
pub struct ArrEvent {
    pub date: Date,
    pub arr_change: i128,
    pub contract: usize,
    pub event_type: ArrEventType,
}

/// The event on day `day` that changes ARR by `change`, caused by contract `idx`.
pub open spec fn arr_event(day: int, change: int, idx: int, kind: ArrEventType) -> ArrEvent {
    ArrEvent {
        date: Date { day: day as i32 },
        arr_change: change as i128,
        contract: idx as usize,
        event_type: kind,
    }
}

/// Every ACV lies within `acv_limit` of zero.
pub open spec fn acv_fits(cs: Seq<Contract>) -> bool {
    forall|i: int| 0 <= i < cs.len() ==> -acv_limit() <= #[trigger] cs[i].acv <= acv_limit()
}

/// Among the first `n` contracts (`n` at least one), the one that holds
/// coverage: the latest end date, the later contract on a tie.
pub open spec fn holder(cs: Seq<Contract>, n: int) -> int
    decreases n,
{
    if n <= 1 {
        0
    } else {
        let h = holder(cs, n - 1);
        if cs[n - 1].end_date.day >= cs[h].end_date.day { n - 1 } else { h }
    }
}

/// The last day covered by the first `n` contracts.
pub open spec fn coverage_end(cs: Seq<Contract>, n: int) -> int {
    cs[holder(cs, n)].end_date.day as int
}

/// Among the first `n` contracts, the last one has ended by `day` while the
/// holder still covers: ARR falls back to the holder's ACV at that end.
pub open spec fn falls_back(cs: Seq<Contract>, n: int, day: int) -> bool {
    let end = cs[n - 1].end_date.day as int;
    end < coverage_end(cs, n) && end <= day
}

/// Among the first `n` contracts, the one whose ACV is the ARR on `day`,
/// while coverage lasts.
pub open spec fn in_force(cs: Seq<Contract>, n: int, day: int) -> int {
    if falls_back(cs, n, day) { holder(cs, n) } else { n - 1 }
}

/// The event that moves ARR from `from` to `to` on `day`, caused by contract
/// `idx`: an Expansion or a Downsell, or none where the two agree.
pub open spec fn change_events(day: int, from: int, to: int, idx: int) -> Seq<ArrEvent> {
    if to > from {
        seq![arr_event(day, to - from, idx, ArrEventType::Expansion)]
    } else if to < from {
        seq![arr_event(day, to - from, idx, ArrEventType::Downsell)]
    } else {
        seq![]
    }
}

/// Among the first `n` contracts, the return to the holder's ACV when the
/// last one ends by `day` inside the holder's coverage.
pub open spec fn fallback_events(cs: Seq<Contract>, n: int, day: int) -> Seq<ArrEvent> {
    if falls_back(cs, n, day) {
        let h = holder(cs, n);
        change_events(cs[n - 1].end_date.day as int, cs[n - 1].acv as int, cs[h].acv as int, h)
    } else {
        seq![]
    }
}

/// The events that contract `i` brings, given the contracts before it.
///
/// The first contract is New. Before a later one starts, a predecessor that
/// ended inside the holder's coverage hands ARR back to the holder. If
/// coverage has lapsed by the start, the holder churns at its end and the
/// contract is New. Otherwise it takes over from the contract in force: a
/// higher ACV is an Expansion, a lower one a Downsell, an equal one a Renewal
/// where that contract has ended by the start, and no event where they overlap.
/// Coverage falls back to the holder alone: a contract nested two deep hands
/// ARR back to the holder, not to the contract between them.
pub open spec fn contract_events(cs: Seq<Contract>, i: int) -> Seq<ArrEvent> {
    let c = cs[i];
    let start = c.start_date.day as int;
    if i == 0 {
        seq![arr_event(start, c.acv as int, i, ArrEventType::New)]
    } else {
        let h = holder(cs, i);
        let before = fallback_events(cs, i, start - 1);
        let r = cs[in_force(cs, i, start - 1)];
        if start > coverage_end(cs, i) {
            before + seq![
                arr_event(coverage_end(cs, i), -cs[h].acv, h, ArrEventType::Churn),
                arr_event(start, c.acv as int, i, ArrEventType::New),
            ]
        } else if c.acv != r.acv {
            before + change_events(start, r.acv as int, c.acv as int, i)
        } else if start >= r.end_date.day {
            before + seq![arr_event(start, 0, i, ArrEventType::Renewal)]
        } else {
            before
        }
    }
}

/// The events of the first `n` contracts, in the order they are derived.
pub open spec fn events_through(cs: Seq<Contract>, n: int) -> Seq<ArrEvent>
    decreases n,
{
    if n <= 0 {
        seq![]
    } else {
        events_through(cs, n - 1) + contract_events(cs, n - 1)
    }
}

/// Whether the coverage of all contracts has ended by `as_of`.
pub open spec fn coverage_closed(cs: Seq<Contract>, as_of: Date) -> bool {
    cs.len() > 0 && coverage_end(cs, cs.len() as int) <= as_of.day
}

/// What happens after the last start within the observed window: the return
/// to the holder's ACV, then the holder's Churn where coverage has ended.
pub open spec fn closing_events(cs: Seq<Contract>, as_of: Date) -> Seq<ArrEvent> {
    let n = cs.len() as int;
    if n == 0 {
        seq![]
    } else {
        let h = holder(cs, n);
        fallback_events(cs, n, as_of.day as int) + if coverage_closed(cs, as_of) {
            seq![arr_event(coverage_end(cs, n), -cs[h].acv, h, ArrEventType::Churn)]
        } else {
            seq![]
        }
    }
}

/// The ARR timeline of sorted contracts observed up to `as_of`.
pub open spec fn timeline(cs: Seq<Contract>, as_of: Date) -> Seq<ArrEvent> {
    events_through(cs, cs.len() as int) + closing_events(cs, as_of)
}

/// The sum of the ARR changes of a sequence of events.
pub open spec fn total_change(es: Seq<ArrEvent>) -> int
    decreases es.len(),
{
    if es.len() == 0 {
        0
    } else {
        total_change(es.drop_last()) + es.last().arr_change
    }
}

proof fn lemma_holder(cs: Seq<Contract>, n: int)
    requires
        1 <= n <= cs.len(),
    ensures
        0 <= holder(cs, n) < n,
        forall|k: int| 0 <= k < n ==> (#[trigger] cs[k]).end_date.day <= coverage_end(cs, n),
        cs[n - 1].end_date.day >= coverage_end(cs, n) ==> holder(cs, n) == n - 1,
    decreases n,
{
    if n > 1 {
        lemma_holder(cs, n - 1);
    }
}

proof fn lemma_total_concat(a: Seq<ArrEvent>, b: Seq<ArrEvent>)
    ensures
        total_change(a + b) == total_change(a) + total_change(b),
    decreases b.len(),
{
    if b.len() == 0 {
        assert(a + b =~= a);
    } else {
        lemma_total_concat(a, b.drop_last());
        assert((a + b).drop_last() =~= a + b.drop_last());
    }
}

proof fn lemma_total_one(e: ArrEvent)
    ensures
        total_change(seq![e]) == e.arr_change,
{
    assert(seq![e].drop_last() =~= Seq::<ArrEvent>::empty());
    assert(total_change(Seq::<ArrEvent>::empty()) == 0);
    assert(seq![e].last() == e);
}

proof fn lemma_total_two(e: ArrEvent, f: ArrEvent)
    ensures
        total_change(seq![e, f]) == e.arr_change + f.arr_change,
{
    assert(seq![e, f].drop_last() =~= seq![e]);
    lemma_total_one(e);
}

proof fn lemma_change_total(day: int, from: int, to: int, idx: int)
    requires
        -acv_limit() <= from <= acv_limit(),
        -acv_limit() <= to <= acv_limit(),
    ensures
        total_change(change_events(day, from, to, idx)) == to - from,
        change_events(day, from, to, idx).len() <= 1,
        forall|k: int| 0 <= k < change_events(day, from, to, idx).len()
            ==> (#[trigger] change_events(day, from, to, idx)[k]).date == (Date { day: day as i32 }),
{
    if to != from {
        lemma_total_one(change_events(day, from, to, idx)[0]);
        assert(change_events(day, from, to, idx) =~= seq![change_events(day, from, to, idx)[0]]);
    }
}

proof fn lemma_fallback_total(cs: Seq<Contract>, n: int, day: int)
    requires
        1 <= n <= cs.len(),
        acv_fits(cs),
    ensures
        total_change(fallback_events(cs, n, day)) == cs[in_force(cs, n, day)].acv - cs[n - 1].acv,
{
    lemma_holder(cs, n);
    let h = holder(cs, n);
    assert(-acv_limit() <= cs[n - 1].acv <= acv_limit());
    assert(-acv_limit() <= cs[h].acv <= acv_limit());
    lemma_change_total(cs[n - 1].end_date.day as int, cs[n - 1].acv as int, cs[h].acv as int, h);
}

proof fn lemma_running_total(cs: Seq<Contract>, n: int)
    requires
        1 <= n <= cs.len(),
        acv_fits(cs),
    ensures
        total_change(events_through(cs, n)) == cs[n - 1].acv,
    decreases n,
{
    let es = contract_events(cs, n - 1);
    lemma_total_concat(events_through(cs, n - 1), es);
    let c = cs[n - 1];
    assert(-acv_limit() <= c.acv <= acv_limit());
    if n == 1 {
        lemma_total_one(es[0]);
        assert(es =~= seq![es[0]]);
    } else {
        let i = n - 1;
        lemma_running_total(cs, i);
        lemma_holder(cs, i);
        let start = c.start_date.day as int;
        let h = holder(cs, i);
        let before = fallback_events(cs, i, start - 1);
        let f = in_force(cs, i, start - 1);
        let r = cs[f];
        lemma_fallback_total(cs, i, start - 1);
        assert(-acv_limit() <= r.acv <= acv_limit());
        assert(-acv_limit() <= cs[h].acv <= acv_limit());
        if start > coverage_end(cs, i) {
            assert(f == h);
            let tail = seq![
                arr_event(coverage_end(cs, i), -cs[h].acv, h, ArrEventType::Churn),
                arr_event(start, c.acv as int, i, ArrEventType::New),
            ];
            lemma_total_two(tail[0], tail[1]);
            lemma_total_concat(before, tail);
        } else if c.acv != r.acv {
            lemma_change_total(start, r.acv as int, c.acv as int, i);
            lemma_total_concat(before, change_events(start, r.acv as int, c.acv as int, i));
        } else if start >= r.end_date.day {
            let tail = seq![arr_event(start, 0, i, ArrEventType::Renewal)];
            lemma_total_one(tail[0]);
            lemma_total_concat(before, tail);
        }
    }
}

/// Conservation of ARR: the changes of a timeline sum to zero once coverage
/// has ended within the observed window, and otherwise to the ACV of the
/// contract in force at its end.
pub proof fn lemma_timeline_total(cs: Seq<Contract>, as_of: Date)
    requires
        cs.len() > 0,
        acv_fits(cs),
    ensures
        coverage_closed(cs, as_of) ==> total_change(timeline(cs, as_of)) == 0,
        !coverage_closed(cs, as_of) ==> total_change(timeline(cs, as_of))
            == cs[in_force(cs, cs.len() as int, as_of.day as int)].acv,
{
    let n = cs.len() as int;
    let h = holder(cs, n);
    lemma_holder(cs, n);
    lemma_running_total(cs, n);
    lemma_fallback_total(cs, n, as_of.day as int);
    let before = fallback_events(cs, n, as_of.day as int);
    let tail = if coverage_closed(cs, as_of) {
        seq![arr_event(coverage_end(cs, n), -cs[h].acv, h, ArrEventType::Churn)]
    } else {
        seq![]
    };
    lemma_total_concat(before, tail);
    lemma_total_concat(events_through(cs, n), closing_events(cs, as_of));
    assert(-acv_limit() <= cs[h].acv <= acv_limit());
    if coverage_closed(cs, as_of) {
        assert(in_force(cs, n, as_of.day as int) == h);
        lemma_total_one(tail[0]);
        assert(tail =~= seq![tail[0]]);
    } else {
        assert(total_change(tail) == 0);
    }
}

/// A single contract still active at the end of the observed window yields
/// exactly one event: New, of its ACV, on its start date.
pub proof fn lemma_single_contract(cs: Seq<Contract>, as_of: Date)
    requires
        cs.len() == 1,
        as_of.day < cs[0].end_date.day,
    ensures
        timeline(cs, as_of) == seq![
            ArrEvent {
                date: cs[0].start_date,
                arr_change: cs[0].acv,
                contract: 0,
                event_type: ArrEventType::New,
            },
        ],
{
    assert(events_through(cs, 0) =~= Seq::<ArrEvent>::empty());
    assert(closing_events(cs, as_of) =~= Seq::<ArrEvent>::empty());
    assert(timeline(cs, as_of) =~= seq![
        ArrEvent {
            date: cs[0].start_date,
            arr_change: cs[0].acv,
            contract: 0,
            event_type: ArrEventType::New,
        },
    ]);
}

/// The events' dates never decrease.
pub open spec fn is_chronological(es: Seq<ArrEvent>) -> bool {
    forall|i: int, j: int| 0 <= i < j < es.len() ==> (#[trigger] es[i]).date.day <= (#[trigger] es[j]).date.day
}

/// Every event lies in the days from `lo` to `hi`.
pub open spec fn within(es: Seq<ArrEvent>, lo: int, hi: int) -> bool {
    forall|i: int| 0 <= i < es.len() ==> lo <= (#[trigger] es[i]).date.day <= hi
}

proof fn lemma_chronological_concat(a: Seq<ArrEvent>, b: Seq<ArrEvent>, pivot: int)
    requires
        is_chronological(a),
        is_chronological(b),
        forall|i: int| 0 <= i < a.len() ==> (#[trigger] a[i]).date.day <= pivot,
        forall|i: int| 0 <= i < b.len() ==> pivot <= (#[trigger] b[i]).date.day,
    ensures
        is_chronological(a + b),
{
    assert forall|i: int, j: int| 0 <= i < j < (a + b).len() implies
        (#[trigger] (a + b)[i]).date.day <= (#[trigger] (a + b)[j]).date.day by {
        if j < a.len() {
            assert((a + b)[i] == a[i] && (a + b)[j] == a[j]);
        } else if i >= a.len() {
            assert((a + b)[i] == b[i - a.len()] && (a + b)[j] == b[j - a.len()]);
        } else {
            assert((a + b)[i] == a[i] && (a + b)[j] == b[j - a.len()]);
        }
    }
}

proof fn lemma_chronological_join(a: Seq<ArrEvent>, b: Seq<ArrEvent>, lo: int, mid: int, hi: int)
    requires
        is_chronological(a),
        is_chronological(b),
        within(a, lo, mid),
        within(b, mid, hi),
        lo <= mid <= hi,
    ensures
        is_chronological(a + b),
        within(a + b, lo, hi),
{
    lemma_chronological_concat(a, b, mid);
    assert forall|i: int| 0 <= i < (a + b).len() implies lo <= (#[trigger] (a + b)[i]).date.day <= hi by {
        if i < a.len() {
            assert((a + b)[i] == a[i]);
            assert(lo <= a[i].date.day <= mid);
        } else {
            assert((a + b)[i] == b[i - a.len()]);
            assert(mid <= b[i - a.len()].date.day <= hi);
        }
    }
}

proof fn lemma_fallback_dates(cs: Seq<Contract>, n: int, day: int)
    requires
        1 <= n <= cs.len(),
    ensures
        is_chronological(fallback_events(cs, n, day)),
        within(fallback_events(cs, n, day), cs[n - 1].end_date.day as int, cs[n - 1].end_date.day as int),
{
}

proof fn lemma_events_chronological(cs: Seq<Contract>, n: int)
    requires
        1 <= n <= cs.len(),
        is_sorted(cs),
        forall|k: int| 0 <= k < cs.len() ==> (#[trigger] cs[k]).start_date.day < cs[k].end_date.day,
    ensures
        is_chronological(events_through(cs, n)),
        within(events_through(cs, n), i32::MIN as int, cs[n - 1].start_date.day as int),
    decreases n,
{
    let es = contract_events(cs, n - 1);
    let c = cs[n - 1];
    let start = c.start_date.day as int;
    if n == 1 {
        assert(events_through(cs, 0) =~= Seq::<ArrEvent>::empty());
        assert(events_through(cs, 1) =~= es);
    } else {
        let i = n - 1;
        lemma_events_chronological(cs, i);
        lemma_holder(cs, i);
        let p = cs[i - 1];
        assert(p.start_date.day < p.end_date.day);
        assert(p.start_date.day <= start) by {
            assert(crate::order::contract_le(cs[i - 1], cs[i]));
        }
        let h = holder(cs, i);
        let before = fallback_events(cs, i, start - 1);
        let r = cs[in_force(cs, i, start - 1)];
        let pend = p.end_date.day as int;
        lemma_fallback_dates(cs, i, start - 1);
        assert(within(before, pend, pend));
        let tail = if start > coverage_end(cs, i) {
            seq![
                arr_event(coverage_end(cs, i), -cs[h].acv, h, ArrEventType::Churn),
                arr_event(start, c.acv as int, i, ArrEventType::New),
            ]
        } else if c.acv != r.acv {
            change_events(start, r.acv as int, c.acv as int, i)
        } else if start >= r.end_date.day {
            seq![arr_event(start, 0, i, ArrEventType::Renewal)]
        } else {
            seq![]
        };
        assert(es =~= before + tail);
        if before.len() > 0 {
            assert(pend < start);
        }
        let mid = if before.len() > 0 { pend } else { p.start_date.day as int };
        assert(within(before, p.start_date.day as int, mid));
        assert(is_chronological(tail) && within(tail, mid, start)) by {
            if start > coverage_end(cs, i) {
                assert(pend <= coverage_end(cs, i));
            }
        }
        lemma_chronological_join(before, tail, p.start_date.day as int, mid, start);
        lemma_chronological_join(events_through(cs, i), es, i32::MIN as int, p.start_date.day as int, start);
    }
}

/// In the timeline of sorted contracts, each of which ends after it starts,
/// the events' dates never decrease.
pub proof fn lemma_timeline_chronological(cs: Seq<Contract>, as_of: Date)
    requires
        is_sorted(cs),
        forall|k: int| 0 <= k < cs.len() ==> (#[trigger] cs[k]).start_date.day < cs[k].end_date.day,
    ensures
        is_chronological(timeline(cs, as_of)),
{
    let n = cs.len() as int;
    if n == 0 {
        assert(timeline(cs, as_of) =~= Seq::<ArrEvent>::empty());
    } else {
        lemma_events_chronological(cs, n);
        lemma_holder(cs, n);
        let p = cs[n - 1];
        let h = holder(cs, n);
        assert(p.start_date.day < p.end_date.day);
        let pend = p.end_date.day as int;
        let before = fallback_events(cs, n, as_of.day as int);
        lemma_fallback_dates(cs, n, as_of.day as int);
        let tail = if coverage_closed(cs, as_of) {
            seq![arr_event(coverage_end(cs, n), -cs[h].acv, h, ArrEventType::Churn)]
        } else {
            seq![]
        };
        let top = coverage_end(cs, n);
        assert(within(tail, pend, top));
        lemma_chronological_join(before, tail, pend, pend, top);
        assert(closing_events(cs, as_of) == before + tail);
        lemma_chronological_join(events_through(cs, n), closing_events(cs, as_of), i32::MIN as int,
            p.start_date.day as int, top);
    }
}

fn push_change(events: &mut Vec<ArrEvent>, date: Date, from: i128, to: i128, idx: usize)
    requires
        -acv_limit() <= from <= acv_limit(),
        -acv_limit() <= to <= acv_limit(),
    ensures
        final(events)@ == old(events)@ + change_events(date.day as int, from as int, to as int, idx as int),
{
    if to > from {
        events.push(ArrEvent { date, arr_change: to - from, contract: idx, event_type: ArrEventType::Expansion });
    } else if to < from {
        events.push(ArrEvent { date, arr_change: to - from, contract: idx, event_type: ArrEventType::Downsell });
    }
    assert(final(events)@ =~= old(events)@ + change_events(date.day as int, from as int, to as int, idx as int));
}

/// Among the first `n` contracts, appends the return to the holder's ACV
/// where the last one has ended by `day` inside the holder's coverage, and
/// gives the index of the contract then in force.
fn fall_back(contracts: &Vec<Contract>, n: usize, h: usize, day: i64, events: &mut Vec<ArrEvent>) -> (f: usize)
    requires
        1 <= n <= contracts@.len(),
        h == holder(contracts@, n as int),
        acv_fits(contracts@),
    ensures
        final(events)@ == old(events)@ + fallback_events(contracts@, n as int, day as int),
        f == in_force(contracts@, n as int, day as int),
{
    proof {
        lemma_holder(contracts@, n as int);
    }
    let last = &contracts[n - 1];
    let held = &contracts[h];
    if last.end_date.day < held.end_date.day && last.end_date.day as i64 <= day {
        push_change(events, last.end_date, last.acv, held.acv, h);
        h
    } else {
        assert(final(events)@ =~= old(events)@ + fallback_events(contracts@, n as int, day as int));
        n - 1
    }
}

/// Builds the ARR timeline of contracts that stand in the contract order,
/// as observed up to `as_of`.
pub fn build_timeline(contracts: &Vec<Contract>, as_of: Date) -> (r: Vec<ArrEvent>)
    requires
        acv_fits(contracts@),
    ensures
        r@ == timeline(contracts@, as_of),
{
    let ghost cs = contracts@;
    let n = contracts.len();
    let mut events: Vec<ArrEvent> = Vec::new();
    if n == 0 {
        assert(events@ =~= timeline(cs, as_of));
        return events;
    }
    let first = &contracts[0];
    events.push(ArrEvent {
        date: first.start_date,
        arr_change: first.acv,
        contract: 0,
        event_type: ArrEventType::New,
    });
    assert(events@ =~= events_through(cs, 0) + contract_events(cs, 0));
    let mut h: usize = 0;
    let mut i: usize = 1;
    while i < n
        invariant
            cs == contracts@,
            n == cs.len(),
            1 <= i <= n,
            acv_fits(cs),
            events@ == events_through(cs, i as int),
            h == holder(cs, i as int),
        decreases n - i,
    {
        proof {
            lemma_holder(cs, i as int);
        }
        let c = &contracts[i];
        let ghost before = events@;
        let f = fall_back(contracts, i, h, c.start_date.day as i64 - 1, &mut events);
        let held = &contracts[h];
        let r = &contracts[f];
        assert(-acv_limit() <= r.acv <= acv_limit());
        assert(-acv_limit() <= c.acv <= acv_limit());
        if c.start_date.day > held.end_date.day {
            events.push(ArrEvent {
                date: held.end_date,
                arr_change: -held.acv,
                contract: h,
                event_type: ArrEventType::Churn,
            });
            events.push(ArrEvent {
                date: c.start_date,
                arr_change: c.acv,
                contract: i,
                event_type: ArrEventType::New,
            });
        } else if c.acv != r.acv {
            push_change(&mut events, c.start_date, r.acv, c.acv, i);
        } else if c.start_date.day >= r.end_date.day {
            events.push(ArrEvent {
                date: c.start_date,
                arr_change: 0,
                contract: i,
                event_type: ArrEventType::Renewal,
            });
        }
        assert(events@ =~= before + contract_events(cs, i as int));
        if c.end_date.day >= held.end_date.day {
            h = i;
        }
        i = i + 1;
    }
    proof {
        lemma_holder(cs, n as int);
    }
    let ghost through = events@;
    fall_back(contracts, n, h, as_of.day as i64, &mut events);
    let held = &contracts[h];
    if held.end_date.day <= as_of.day {
        events.push(ArrEvent {
            date: held.end_date,
            arr_change: -held.acv,
            contract: h,
            event_type: ArrEventType::Churn,
        });
    }
    assert(events@ =~= through + closing_events(cs, as_of));
    events
}

} // verus!
