//! Labels and the mathematical model of one query's scan.
//!
//! Every step of the scan — route marking, the scheduled-route walk, the
//! transfer-edge relaxation, and the round loop — is written here once more
//! as a pure function over sequences. The executable scanner's contracts
//! state that it computes exactly these functions, which both pins every
//! tie-break down and makes the whole query a function of its inputs.
#![allow(non_snake_case)]

use vstd::prelude::*;

use crate::route_structs::{lemma_flat_index, MarkedScheduledRoute, ScheduledRoute, Stop};

verus! {

/// How a stop was reached in one round: by boarding a scheduled route, by
/// a transfer edge, by being the query's departure stop, or not at all yet
/// (`Infinite`, which compares later than every finite time).
#[derive(Clone, Copy, PartialEq, Eq, Structural, Debug)]
pub enum Label {
    ScheduledRoute { arrivalTime: u64, departureTime: u64, route: usize, boardingStop: usize },
    NonScheduledRoute { arrivalTime: u64, route: usize, boardingStop: usize },
    DepartureLabel(u64),
    Infinite,
}

/// One past every representable time: the arrival time of `Infinite`.
pub open spec fn infinity() -> int {
    0x1_0000_0000_0000_0000
}

impl Label {
    /// Arrival time as a mathematical integer, `infinity()` when unreached.
    pub open spec fn time(self) -> int {
        match self {
            Label::ScheduledRoute { arrivalTime, .. } => arrivalTime as int,
            Label::NonScheduledRoute { arrivalTime, .. } => arrivalTime as int,
            Label::DepartureLabel(t) => t as int,
            Label::Infinite => infinity(),
        }
    }

    /// The arrival time of a label known to be finite.
    pub open spec fn finite_time(self) -> u64 {
        match self {
            Label::ScheduledRoute { arrivalTime, .. } => arrivalTime,
            Label::NonScheduledRoute { arrivalTime, .. } => arrivalTime,
            Label::DepartureLabel(t) => t,
            Label::Infinite => 0,
        }
    }

    /// Arrival time of this label, `None` when the stop is unreached.
    pub fn getArrivalTime(&self) -> (r: Option<u64>)
        ensures
            r is Some <==> !(*self is Infinite),
            r is Some ==> r->0 == self.finite_time() && r->0 == self.time(),
    {
        match self {
            Label::ScheduledRoute { arrivalTime, .. } => Some(*arrivalTime),
            Label::NonScheduledRoute { arrivalTime, .. } => Some(*arrivalTime),
            Label::DepartureLabel(t) => Some(*t),
            Label::Infinite => None,
        }
    }

    /// Whether this label's arrival is strictly earlier than `other`'s,
    /// with `Infinite` later than everything.
    pub fn isEarlierThan(&self, other: &Label) -> (r: bool)
        ensures
            r == (self.time() < other.time()),
    {
        match (self.getArrivalTime(), other.getArrivalTime()) {
            (Some(a), Some(b)) => a < b,
            (Some(_), None) => true,
            (None, _) => false,
        }
    }
}

/// The smaller of two times.
pub open spec fn min_int(a: int, b: int) -> int {
    if a <= b {
        a
    } else {
        b
    }
}

/// Index of the first occurrence of `v` in `s` (`s.len()` when absent).
pub open spec fn first_index_of(s: Seq<usize>, v: usize) -> int
    decreases s.len(),
{
    if s.len() == 0 {
        0
    } else if s[0] == v {
        0
    } else {
        1 + first_index_of(s.drop_first(), v)
    }
}

/// When `v` occurs in `s`, `first_index_of` lands on its first occurrence.
pub proof fn lemma_first_index_of(s: Seq<usize>, v: usize)
    requires
        s.contains(v),
    ensures
        0 <= first_index_of(s, v) < s.len(),
        s[first_index_of(s, v)] == v,
        forall|j: int| 0 <= j < first_index_of(s, v) ==> s[j] != v,
    decreases s.len(),
{
    if s.len() > 0 && s[0] != v {
        let w = choose|w: int| 0 <= w < s.len() && s[w] == v;
        assert(s.drop_first()[w - 1] == v);
        lemma_first_index_of(s.drop_first(), v);
        assert forall|j: int| 0 <= j < first_index_of(s, v) implies s[j] != v by {
            if j > 0 {
                assert(s.drop_first()[j - 1] != v);
            }
        }
    }
}

/// An index characterised as a first occurrence is `first_index_of`.
pub proof fn lemma_first_index_of_unique(s: Seq<usize>, v: usize, r: int)
    requires
        0 <= r < s.len(),
        s[r] == v,
        forall|j: int| 0 <= j < r ==> s[j] != v,
    ensures
        first_index_of(s, v) == r,
    decreases s.len(),
{
    if s[0] != v {
        assert(s.drop_first()[r - 1] == v);
        assert forall|j: int| 0 <= j < r - 1 implies s.drop_first()[j] != v by {
            assert(s[j + 1] != v);
        }
        lemma_first_index_of_unique(s.drop_first(), v, r - 1);
    }
}

/// The whole mutable state of one query's scan: the per-stop, per-round
/// label table (flattened, entry `s * R + k` for stop `s`, round `k`), the
/// per-stop best label, and the queue of stops marked in the current round.
#[verifier::ext_equal]
pub struct ScanState {
    pub labels: Seq<Label>,
    pub best: Seq<Label>,
    pub queue: Seq<usize>,
}

/// Stop `s`'s label for round `k` in a table of `R` rounds per stop.
pub open spec fn lab(st: ScanState, R: int, s: int, k: int) -> Label {
    st.labels[s * R + k]
}

/// Route marking, one route list entry of one marked stop: route `j` of
/// `stop` is claimed for this round, with `stopId` as its earliest-reachable
/// stop unless an already-marked entry reaches the route strictly earlier
/// by the previous round's label. First-seen wins ties.
pub open spec fn mark_step(
    routes: Seq<ScheduledRoute>,
    labels: Seq<Label>,
    R: int,
    k: int,
    marked: Seq<Option<MarkedScheduledRoute>>,
    stopId: usize,
    stop: Stop,
    j: int,
) -> Seq<Option<MarkedScheduledRoute>>
    decreases stop.scheduledRoutes@.len() - j,
{
    if j < 0 || j >= stop.scheduledRoutes@.len() {
        marked
    } else {
        let r = stop.scheduledRoutes@[j] as int;
        let claim = MarkedScheduledRoute {
            earliestStop: stopId,
            earliestStopEquivalentIndex: first_index_of(routes[r].stopsId@, stopId) as usize,
            route: r as usize,
        };
        let upd = match marked[r] {
            None => Some(claim),
            Some(m) => {
                if labels[stopId * R + (k - 1)].time() < labels[m.earliestStop * R + (k
                    - 1)].time() {
                    Some(claim)
                } else {
                    Some(m)
                }
            },
        };
        mark_step(routes, labels, R, k, marked.update(r, upd), stopId, stop, j + 1)
    }
}

/// Route marking over the previous round's marked stops, from queue index
/// `i` on.
pub open spec fn mark_stops(
    stops: Seq<Stop>,
    routes: Seq<ScheduledRoute>,
    labels: Seq<Label>,
    R: int,
    k: int,
    marked: Seq<Option<MarkedScheduledRoute>>,
    queue: Seq<usize>,
    i: int,
) -> Seq<Option<MarkedScheduledRoute>>
    decreases queue.len() - i,
{
    if i < 0 || i >= queue.len() {
        marked
    } else {
        let s = queue[i] as int;
        let marked2 = if 0 <= s < stops.len() {
            mark_step(routes, labels, R, k, marked, queue[i], stops[s], 0)
        } else {
            marked
        };
        mark_stops(stops, routes, labels, R, k, marked2, queue, i + 1)
    }
}

/// A label table write during the scan: set stop `sid`'s round-`k` label,
/// pull the stop's best label along when the new label beats it, and mark
/// the stop as newly touched this round.
pub open spec fn scan_write(st: ScanState, R: int, k: int, sid: int, newl: Label) -> ScanState {
    ScanState {
        labels: st.labels.update(sid * R + k, newl),
        best: if newl.time() < st.best[sid].time() {
            st.best.update(sid, newl)
        } else {
            st.best
        },
        queue: st.queue.push(sid as usize),
    }
}

/// The walk of one marked route from pattern position `p` on, holding the
/// current trip `cur`. At each position: write a round-`k` label when the
/// current trip beats both the target's best arrival (target pruning) and
/// the position's current round-`k` label; then, whenever the best arrival
/// recorded for this stop before this round is earlier than the current
/// trip, catch the earliest trip leaving after that prior arrival.
pub open spec fn scan_positions(
    route: ScheduledRoute,
    target: int,
    prior: Seq<Label>,
    R: int,
    k: int,
    m: MarkedScheduledRoute,
    st: ScanState,
    p: int,
    cur: Option<usize>,
) -> ScanState
    decreases route.stopsCount - p,
{
    if p < 0 || p >= route.stopsCount {
        st
    } else {
        let sid = route.stopsId@[p] as int;
        let st1 = if cur is Some {
            let arr = route.trip_time(cur->0 as int, p);
            if (arr as int) < min_int(st.best[target].time(), lab(st, R, sid, k).time()) {
                scan_write(
                    st,
                    R,
                    k,
                    sid,
                    Label::ScheduledRoute {
                        arrivalTime: arr,
                        departureTime: route.trip_time(
                            cur->0 as int,
                            m.earliestStopEquivalentIndex as int,
                        ),
                        route: m.route,
                        boardingStop: m.earliestStop,
                    },
                )
            } else {
                st
            }
        } else {
            st
        };
        let cur_time = if cur is Some {
            route.trip_time(cur->0 as int, p) as int
        } else {
            infinity()
        };
        let cur2 = if prior[sid].time() < cur_time {
            match route.earliest_trip(p, prior[sid].finite_time()) {
                Some(t2) => Some(t2),
                None => cur,
            }
        } else {
            cur
        };
        scan_positions(route, target, prior, R, k, m, st1, p + 1, cur2)
    }
}

/// The scan of one marked route: start at the earliest-reachable stop's
/// position, boarding the earliest trip leaving it after that stop's best
/// arrival before this round, and walk the pattern forward.
pub open spec fn scan_route_spec(
    routes: Seq<ScheduledRoute>,
    target: int,
    prior: Seq<Label>,
    R: int,
    k: int,
    m: MarkedScheduledRoute,
    st: ScanState,
) -> ScanState {
    let route = routes[m.route as int];
    let p0 = m.earliestStopEquivalentIndex as int;
    let init = if prior[m.earliestStop as int] is Infinite {
        None
    } else {
        route.earliest_trip(p0, prior[m.earliestStop as int].finite_time())
    };
    scan_positions(route, target, prior, R, k, m, st, p0, init)
}

/// All marked routes of the round, scanned in route-id order.
pub open spec fn scan_marked(
    routes: Seq<ScheduledRoute>,
    target: int,
    prior: Seq<Label>,
    R: int,
    k: int,
    marked: Seq<Option<MarkedScheduledRoute>>,
    st: ScanState,
    r: int,
) -> ScanState
    decreases marked.len() - r,
{
    if r < 0 || r >= marked.len() {
        st
    } else {
        let st2 = match marked[r] {
            Some(m) => scan_route_spec(routes, target, prior, R, k, m, st),
            None => st,
        };
        scan_marked(routes, target, prior, R, k, marked, st2, r + 1)
    }
}

/// Sum of the round-`k` arrival times of the first `n` stops: the measure
/// that shrinks with every transfer-relaxation write.
pub open spec fn sum_round(labels: Seq<Label>, R: int, k: int, n: int) -> int
    decreases n,
{
    if n <= 0 {
        0
    } else {
        labels[(n - 1) * R + k].time() + sum_round(labels, R, k, n - 1)
    }
}

/// Distinct stops use distinct slots of the flattened label table.
pub proof fn lemma_slot_distinct(s1: int, s2: int, R: int)
    by (nonlinear_arith)
    requires
        s1 != s2,
        R >= 1,
    ensures
        s1 * R != s2 * R,
{
}

/// Every label time is non-negative, so the measure is.
pub proof fn lemma_sum_round_nonneg(labels: Seq<Label>, R: int, k: int, n: int)
    ensures
        sum_round(labels, R, k, n) >= 0,
    decreases n,
{
    if n > 0 {
        lemma_sum_round_nonneg(labels, R, k, n - 1);
    }
}

/// Overwriting one stop's round-`k` label moves the measure by exactly the
/// change of that stop's time.
pub proof fn lemma_sum_round_update(labels: Seq<Label>, R: int, k: int, n: int, s0: int, v: Label)
    requires
        0 <= s0 < n,
        R >= 1,
        0 <= k < R,
        labels.len() >= n * R,
    ensures
        sum_round(labels.update(s0 * R + k, v), R, k, n) == sum_round(labels, R, k, n) + v.time()
            - labels[s0 * R + k].time(),
    decreases n,
{
    lemma_flat_index(n, R, s0, k);
    lemma_flat_index(n, R, n - 1, k);
    assert((n - 1) * R + R == n * R) by (nonlinear_arith);
    let labels2 = labels.update(s0 * R + k, v);
    if n - 1 == s0 {
        lemma_sum_round_same(labels, labels2, R, k, n - 1, s0);
    } else {
        lemma_slot_distinct(n - 1, s0, R);
        lemma_sum_round_update(labels, R, k, n - 1, s0, v);
    }
}

/// Two tables equal on every round-`k` slot of the first `n` stops but one
/// out of range have equal measures.
proof fn lemma_sum_round_same(a: Seq<Label>, b: Seq<Label>, R: int, k: int, n: int, skip: int)
    requires
        R >= 1,
        0 <= k < R,
        n <= skip,
        a.len() == b.len(),
        a.len() >= n * R,
        forall|i: int| 0 <= i < a.len() && i != skip * R + k ==> a[i] == b[i],
    ensures
        sum_round(a, R, k, n) == sum_round(b, R, k, n),
    decreases n,
{
    if n > 0 {
        lemma_flat_index(n, R, n - 1, k);
        assert((n - 1) * R + R == n * R) by (nonlinear_arith);
        lemma_slot_distinct(n - 1, skip, R);
        lemma_sum_round_same(a, b, R, k, n - 1, skip);
    }
}

/// Transfer-edge relaxation: a worklist walk over the stops marked this
/// round, from queue index `i`, edge index `j`. Each edge offers its target
/// the source's round-`k` arrival plus the edge's duration; an offer that
/// beats the target's current round-`k` label is written, pulls the best
/// label along, and marks the target, whose own edges are then relaxed in
/// turn within the same round. An offer past the largest representable
/// time is never an improvement and is skipped.
pub open spec fn relax_all(
    stops: Seq<Stop>,
    R: int,
    k: int,
    st: ScanState,
    i: int,
    j: int,
) -> ScanState
    decreases
            sum_round(st.labels, R, k, stops.len() as int),
            st.queue.len() - i,
            relax_edges_left(stops, st, i, j),
    when R >= 1 && 0 <= k < R && st.labels.len() >= stops.len() * R
{
    if i < 0 || i >= st.queue.len() {
        st
    } else {
        let s = st.queue[i] as int;
        if !(s < stops.len()) {
            relax_all(stops, R, k, st, i + 1, 0)
        } else if j < 0 || j >= stops[s].nonScheduledRoutes@.len() {
            relax_all(stops, R, k, st, i + 1, 0)
        } else {
            let e = stops[s].nonScheduledRoutes@[j];
            let tgt = e.targetStop as int;
            let cand = lab(st, R, s, k).time() + e.transferTime;
            if tgt < stops.len() && cand <= u64::MAX && cand < lab(st, R, tgt, k).time() {
                let newl = Label::NonScheduledRoute {
                    arrivalTime: cand as u64,
                    route: e.id,
                    boardingStop: st.queue[i],
                };
                let st2 = ScanState {
                    labels: st.labels.update(tgt * R + k, newl),
                    best: if cand < st.best[tgt].time() {
                        st.best.update(tgt, newl)
                    } else {
                        st.best
                    },
                    queue: st.queue.push(e.targetStop),
                };
                proof {
                    lemma_sum_round_update(st.labels, R, k, stops.len() as int, tgt, newl);
                    lemma_sum_round_nonneg(st2.labels, R, k, stops.len() as int);
                }
                relax_all(stops, R, k, st2, i, j + 1)
            } else {
                relax_all(stops, R, k, st, i, j + 1)
            }
        }
    }
}

/// Edges not yet relaxed at the worklist's current stop.
pub open spec fn relax_edges_left(stops: Seq<Stop>, st: ScanState, i: int, j: int) -> int {
    if 0 <= i < st.queue.len() && (st.queue[i] as int) < stops.len() {
        stops[st.queue[i] as int].nonScheduledRoutes@.len() - j
    } else {
        0
    }
}

/// One full round `k`: mark the routes touched by the previous round's
/// marked stops (consuming them), scan each marked route, then relax
/// transfer edges from the stops the scan improved. The best labels at the
/// round's entry serve as the scan's "before this round" snapshot.
pub open spec fn run_round(
    stops: Seq<Stop>,
    routes: Seq<ScheduledRoute>,
    target: int,
    R: int,
    st: ScanState,
    k: int,
) -> ScanState {
    let marked = mark_routes_spec(stops, routes, st, R, k);
    let st1 = ScanState { labels: st.labels, best: st.best, queue: Seq::empty() };
    let st2 = scan_marked(routes, target, st.best, R, k, marked, st1, 0);
    relax_all(stops, R, k, st2, 0, 0)
}

/// Rounds `k ..= maxT`, stopping early once a round marks no stop.
pub open spec fn run_rounds(
    stops: Seq<Stop>,
    routes: Seq<ScheduledRoute>,
    target: int,
    R: int,
    st: ScanState,
    k: int,
    maxT: int,
) -> ScanState
    decreases maxT - k + 1,
{
    if k > maxT || st.queue.len() == 0 {
        st
    } else {
        run_rounds(
            stops,
            routes,
            target,
            R,
            run_round(stops, routes, target, R, st, k),
            k + 1,
            maxT,
        )
    }
}

/// The scan's state before round 1: every label unreached except round 0
/// at the departure stop, the departure stop marked, and the departure
/// stop's outgoing transfer edges already relaxed at round 0 (a journey of
/// zero trips may still walk).
pub open spec fn init_state(stops: Seq<Stop>, R: int, depStop: usize, depTime: u64) -> ScanState {
    let n = stops.len() as int;
    let st = ScanState {
        labels: Seq::new((n * R) as nat, |idx: int| Label::Infinite).update(
            (depStop as int) * R,
            Label::DepartureLabel(depTime),
        ),
        best: Seq::new(n as nat, |s: int| Label::Infinite).update(
            depStop as int,
            Label::DepartureLabel(depTime),
        ),
        queue: seq![depStop],
    };
    relax_all(stops, R, 0, st, 0, 0)
}

/// The round's complete marked-route table, one slot per route id.
pub open spec fn mark_routes_spec(
    stops: Seq<Stop>,
    routes: Seq<ScheduledRoute>,
    st: ScanState,
    R: int,
    k: int,
) -> Seq<Option<MarkedScheduledRoute>> {
    mark_stops(
        stops,
        routes,
        st.labels,
        R,
        k,
        Seq::new(routes.len(), |r: int| None),
        st.queue,
        0,
    )
}

} // verus!
