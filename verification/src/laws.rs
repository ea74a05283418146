//! Properties of the scan, proved once over the model that the executable
//! scanner's contracts equate it with: best labels never regress across
//! rounds; the query is a function of its inputs; `UnreachableTarget` is
//! reported exactly when the target's best label stays unreached; a
//! reconstructed journey is a connected, length-bounded chain from the
//! departure to the target; and whenever a transfer edge or a catchable
//! trip of one scheduled route joins the departure straight to the target,
//! the answer is never worse than that direct connection.
#![allow(non_snake_case)]

use vstd::prelude::*;

use crate::raptor_algorithm::{journey_spec, raptor_spec, rebuild, RaptorError};
use crate::route_scanner::{entry_ok_opt, valid_marked};
use crate::route_structs::{
    lemma_flat_index, lemma_valid_dataset_routes_fit, route_linked, routes_fit, stop_linked,
    valid_dataset, MarkedScheduledRoute, ScheduledRoute, Stop, TripOfJourney, TripType,
};
use crate::scan_model::{
    first_index_of, infinity, init_state, lab, lemma_first_index_of, lemma_sum_round_nonneg,
    lemma_sum_round_update, mark_routes_spec, mark_step, mark_stops, min_int, relax_all,
    relax_edges_left, run_round, run_rounds, scan_marked, scan_positions, scan_route_spec,
    scan_write, sum_round, Label, ScanState,
};

verus! {

/// `a` is pointwise no later than `b`: no stop's best arrival regressed.
pub open spec fn best_no_worse(a: Seq<Label>, b: Seq<Label>) -> bool {
    &&& a.len() == b.len()
    &&& forall|s: int| 0 <= s < a.len() ==> (#[trigger] a[s]).time() <= b[s].time()
}

/// `best_no_worse` chains.
pub proof fn lemma_best_no_worse_trans(a: Seq<Label>, b: Seq<Label>, c: Seq<Label>)
    requires
        best_no_worse(a, b),
        best_no_worse(b, c),
    ensures
        best_no_worse(a, c),
{
    assert forall|s: int| 0 <= s < a.len() implies (#[trigger] a[s]).time() <= c[s].time() by {
        assert(a[s].time() <= b[s].time());
    }
}

/// The state's tables cover `n` stops with `R` rounds each.
pub open spec fn shape_ok(n: int, R: int, st: ScanState) -> bool {
    &&& st.best.len() == n
    &&& st.labels.len() == n * R
}

/// Marking keeps the table's width and only adds entries that resolve in
/// the dataset: one route-list step.
proof fn lemma_mark_step_valid(
    routes: Seq<ScheduledRoute>,
    labels: Seq<Label>,
    R: int,
    k: int,
    marked: Seq<Option<MarkedScheduledRoute>>,
    stopId: usize,
    stop: Stop,
    j: int,
    n: int,
)
    requires
        marked.len() == routes.len(),
        valid_marked(marked, n, routes),
        (stopId as int) < n,
        forall|jj: int|
            0 <= jj < stop.scheduledRoutes@.len() ==> ((#[trigger] stop.scheduledRoutes@[jj]) as int)
                < routes.len() && routes[stop.scheduledRoutes@[jj] as int].stopsId@.contains(stopId),
    ensures
        mark_step(routes, labels, R, k, marked, stopId, stop, j).len() == marked.len(),
        valid_marked(mark_step(routes, labels, R, k, marked, stopId, stop, j), n, routes),
    decreases stop.scheduledRoutes@.len() - j,
{
    if !(j < 0 || j >= stop.scheduledRoutes@.len()) {
        let r = stop.scheduledRoutes@[j] as int;
        lemma_first_index_of(routes[r].stopsId@, stopId);
        assert(routes[r].stopsId.len() == routes[r].stopsId@.len());
        let claim = MarkedScheduledRoute {
            earliestStop: stopId,
            earliestStopEquivalentIndex: first_index_of(routes[r].stopsId@, stopId) as usize,
            route: r as usize,
        };
        let upd = match marked[r] {
            None => Some(claim),
            Some(m) => {
                if labels[stopId * R + (k - 1)].time() < labels[m.earliestStop * R + (k
                    - 1)].time() {
                    Some(claim)
                } else {
                    Some(m)
                }
            },
        };
        let marked2 = marked.update(r, upd);
        assert(entry_ok_opt(upd, n, routes));
        assert forall|rr: int| 0 <= rr < marked2.len() implies entry_ok_opt(
            #[trigger] marked2[rr],
            n,
            routes,
        ) by {
            if rr != r {
                assert(marked2[rr] == marked[rr]);
            }
        }
        lemma_mark_step_valid(routes, labels, R, k, marked2, stopId, stop, j + 1, n);
    }
}

/// Marking keeps the table's width and only adds entries that resolve in
/// the dataset: the whole queue.
proof fn lemma_mark_stops_valid(
    stops: Seq<Stop>,
    routes: Seq<ScheduledRoute>,
    labels: Seq<Label>,
    R: int,
    k: int,
    marked: Seq<Option<MarkedScheduledRoute>>,
    queue: Seq<usize>,
    i: int,
)
    requires
        valid_dataset(stops, routes),
        marked.len() == routes.len(),
        valid_marked(marked, stops.len() as int, routes),
    ensures
        mark_stops(stops, routes, labels, R, k, marked, queue, i).len() == marked.len(),
        valid_marked(mark_stops(stops, routes, labels, R, k, marked, queue, i), stops.len() as int,
            routes),
    decreases queue.len() - i,
{
    if !(i < 0 || i >= queue.len()) {
        let s = queue[i] as int;
        let marked2 = if 0 <= s < stops.len() {
            assert(stop_linked(stops[s], stops.len() as int, routes));
            assert(stops[s].id == queue[i]);
            lemma_mark_step_valid(
                routes,
                labels,
                R,
                k,
                marked,
                queue[i],
                stops[s],
                0,
                stops.len() as int,
            );
            mark_step(routes, labels, R, k, marked, queue[i], stops[s], 0)
        } else {
            marked
        };
        lemma_mark_stops_valid(stops, routes, labels, R, k, marked2, queue, i + 1);
    }
}

/// The whole marked-route table of a round resolves in the dataset.
pub proof fn lemma_mark_routes_valid(
    stops: Seq<Stop>,
    routes: Seq<ScheduledRoute>,
    st: ScanState,
    R: int,
    k: int,
)
    requires
        valid_dataset(stops, routes),
    ensures
        mark_routes_spec(stops, routes, st, R, k).len() == routes.len(),
        valid_marked(mark_routes_spec(stops, routes, st, R, k), stops.len() as int, routes),
{
    lemma_mark_stops_valid(
        stops,
        routes,
        st.labels,
        R,
        k,
        Seq::new(routes.len(), |r: int| None),
        st.queue,
        0,
    );
}

/// A single scan write in range keeps the shape and never pushes a best
/// label later.
proof fn lemma_scan_write_mono(st: ScanState, R: int, k: int, sid: int, newl: Label, n: int)
    requires
        R >= 1,
        0 <= k < R,
        shape_ok(n, R, st),
        0 <= sid < n,
    ensures
        shape_ok(n, R, scan_write(st, R, k, sid, newl)),
        best_no_worse(scan_write(st, R, k, sid, newl).best, st.best),
{
    lemma_flat_index(n, R, sid, k);
}

/// The walk of one marked route keeps the shape and never pushes a best
/// label later.
pub proof fn lemma_scan_positions_mono(
    route: ScheduledRoute,
    target: int,
    prior: Seq<Label>,
    R: int,
    k: int,
    m: MarkedScheduledRoute,
    st: ScanState,
    p: int,
    cur: Option<usize>,
    n: int,
)
    requires
        R >= 1,
        0 <= k < R,
        shape_ok(n, R, st),
        route.wf(),
        forall|q: int| 0 <= q < route.stopsId@.len() ==> ((#[trigger] route.stopsId@[q]) as int) < n,
    ensures
        shape_ok(n, R, scan_positions(route, target, prior, R, k, m, st, p, cur)),
        best_no_worse(scan_positions(route, target, prior, R, k, m, st, p, cur).best, st.best),
    decreases route.stopsCount - p,
{
    if !(p < 0 || p >= route.stopsCount) {
        let sid = route.stopsId@[p] as int;
        let st1 = if cur is Some {
            let arr = route.trip_time(cur->0 as int, p);
            if (arr as int) < min_int(st.best[target].time(), lab(st, R, sid, k).time()) {
                let w = scan_write(
                    st,
                    R,
                    k,
                    sid,
                    Label::ScheduledRoute {
                        arrivalTime: arr,
                        departureTime: route.trip_time(
                            cur->0 as int,
                            m.earliestStopEquivalentIndex as int,
                        ),
                        route: m.route,
                        boardingStop: m.earliestStop,
                    },
                );
                lemma_scan_write_mono(
                    st,
                    R,
                    k,
                    sid,
                    Label::ScheduledRoute {
                        arrivalTime: arr,
                        departureTime: route.trip_time(
                            cur->0 as int,
                            m.earliestStopEquivalentIndex as int,
                        ),
                        route: m.route,
                        boardingStop: m.earliestStop,
                    },
                    n,
                );
                w
            } else {
                st
            }
        } else {
            st
        };
        let cur_time = if cur is Some {
            route.trip_time(cur->0 as int, p) as int
        } else {
            infinity()
        };
        let cur2 = if prior[sid].time() < cur_time {
            match route.earliest_trip(p, prior[sid].finite_time()) {
                Some(t2) => Some(t2),
                None => cur,
            }
        } else {
            cur
        };
        lemma_scan_positions_mono(route, target, prior, R, k, m, st1, p + 1, cur2, n);
        lemma_best_no_worse_trans(
            scan_positions(route, target, prior, R, k, m, st, p, cur).best,
            st1.best,
            st.best,
        );
    }
}

/// The scan of all marked routes keeps the shape and never pushes a best
/// label later.
pub proof fn lemma_scan_marked_mono(
    routes: Seq<ScheduledRoute>,
    target: int,
    prior: Seq<Label>,
    R: int,
    k: int,
    marked: Seq<Option<MarkedScheduledRoute>>,
    st: ScanState,
    r: int,
    n: int,
)
    requires
        R >= 1,
        0 <= k < R,
        shape_ok(n, R, st),
        routes_fit(routes, n),
        valid_marked(marked, n, routes),
    ensures
        shape_ok(n, R, scan_marked(routes, target, prior, R, k, marked, st, r)),
        best_no_worse(scan_marked(routes, target, prior, R, k, marked, st, r).best, st.best),
    decreases marked.len() - r,
{
    if !(r < 0 || r >= marked.len()) {
        let st2 = match marked[r] {
            Some(m) => scan_route_spec(routes, target, prior, R, k, m, st),
            None => st,
        };
        match marked[r] {
            Some(m) => {
                assert(entry_ok_opt(marked[r], n, routes));
                let route = routes[m.route as int];
                let p0 = m.earliestStopEquivalentIndex as int;
                let init = if prior[m.earliestStop as int] is Infinite {
                    None
                } else {
                    route.earliest_trip(p0, prior[m.earliestStop as int].finite_time())
                };
                lemma_scan_positions_mono(route, target, prior, R, k, m, st, p0, init, n);
            },
            None => {},
        }
        lemma_scan_marked_mono(routes, target, prior, R, k, marked, st2, r + 1, n);
        lemma_best_no_worse_trans(
            scan_marked(routes, target, prior, R, k, marked, st, r).best,
            st2.best,
            st.best,
        );
    }
}

/// Transfer relaxation keeps the shape and never pushes a best label
/// later.
pub proof fn lemma_relax_mono(
    stops: Seq<Stop>,
    R: int,
    k: int,
    st: ScanState,
    i: int,
    j: int,
)
    requires
        R >= 1,
        0 <= k < R,
        shape_ok(stops.len() as int, R, st),
    ensures
        shape_ok(stops.len() as int, R, relax_all(stops, R, k, st, i, j)),
        best_no_worse(relax_all(stops, R, k, st, i, j).best, st.best),
    decreases
            sum_round(st.labels, R, k, stops.len() as int),
            st.queue.len() - i,
            relax_edges_left(stops, st, i, j),
{
    let n = stops.len() as int;
    if !(i < 0 || i >= st.queue.len()) {
        let s = st.queue[i] as int;
        if !(s < stops.len()) {
            lemma_relax_mono(stops, R, k, st, i + 1, 0);
        } else if j < 0 || j >= stops[s].nonScheduledRoutes@.len() {
            lemma_relax_mono(stops, R, k, st, i + 1, 0);
        } else {
            let e = stops[s].nonScheduledRoutes@[j];
            let tgt = e.targetStop as int;
            let cand = lab(st, R, s, k).time() + e.transferTime;
            if tgt < stops.len() && cand <= u64::MAX && cand < lab(st, R, tgt, k).time() {
                let newl = Label::NonScheduledRoute {
                    arrivalTime: cand as u64,
                    route: e.id,
                    boardingStop: st.queue[i],
                };
                let st2 = ScanState {
                    labels: st.labels.update(tgt * R + k, newl),
                    best: if cand < st.best[tgt].time() {
                        st.best.update(tgt, newl)
                    } else {
                        st.best
                    },
                    queue: st.queue.push(e.targetStop),
                };
                lemma_flat_index(n, R, tgt, k);
                lemma_sum_round_update(st.labels, R, k, n, tgt, newl);
                lemma_sum_round_nonneg(st2.labels, R, k, n);
                lemma_relax_mono(stops, R, k, st2, i, j + 1);
                assert(relax_all(stops, R, k, st, i, j) == relax_all(stops, R, k, st2, i, j + 1));
                lemma_best_no_worse_trans(
                    relax_all(stops, R, k, st, i, j).best,
                    st2.best,
                    st.best,
                );
            } else {
                lemma_relax_mono(stops, R, k, st, i, j + 1);
            }
        }
    }
}

/// One full round keeps the shape and never pushes a best label later.
pub proof fn lemma_run_round_mono(
    stops: Seq<Stop>,
    routes: Seq<ScheduledRoute>,
    target: int,
    R: int,
    st: ScanState,
    k: int,
)
    requires
        R >= 1,
        0 <= k < R,
        valid_dataset(stops, routes),
        shape_ok(stops.len() as int, R, st),
    ensures
        shape_ok(stops.len() as int, R, run_round(stops, routes, target, R, st, k)),
        best_no_worse(run_round(stops, routes, target, R, st, k).best, st.best),
{
    let n = stops.len() as int;
    lemma_valid_dataset_routes_fit(stops, routes);
    lemma_mark_routes_valid(stops, routes, st, R, k);
    let marked = mark_routes_spec(stops, routes, st, R, k);
    let st1 = ScanState { labels: st.labels, best: st.best, queue: Seq::empty() };
    let st2 = scan_marked(routes, target, st.best, R, k, marked, st1, 0);
    lemma_scan_marked_mono(routes, target, st.best, R, k, marked, st1, 0, n);
    lemma_relax_mono(stops, R, k, st2, 0, 0);
    lemma_best_no_worse_trans(run_round(stops, routes, target, R, st, k).best, st2.best, st.best);
}

/// A run of rounds keeps the shape and never pushes a best label later.
pub proof fn lemma_run_rounds_mono(
    stops: Seq<Stop>,
    routes: Seq<ScheduledRoute>,
    target: int,
    R: int,
    st: ScanState,
    k: int,
    maxT: int,
)
    requires
        R >= 1,
        1 <= k,
        maxT < R,
        valid_dataset(stops, routes),
        shape_ok(stops.len() as int, R, st),
    ensures
        shape_ok(stops.len() as int, R, run_rounds(stops, routes, target, R, st, k, maxT)),
        best_no_worse(run_rounds(stops, routes, target, R, st, k, maxT).best, st.best),
    decreases maxT - k + 1,
{
    if !(k > maxT || st.queue.len() == 0) {
        let st2 = run_round(stops, routes, target, R, st, k);
        lemma_run_round_mono(stops, routes, target, R, st, k);
        lemma_run_rounds_mono(stops, routes, target, R, st2, k + 1, maxT);
        lemma_best_no_worse_trans(
            run_rounds(stops, routes, target, R, st, k, maxT).best,
            st2.best,
            st.best,
        );
    }
}

/// A longer run continues a shorter one: rounds `k ..= maxT2` are rounds
/// `k ..= maxT1` followed by rounds `maxT1+1 ..= maxT2`.
proof fn lemma_run_rounds_split(
    stops: Seq<Stop>,
    routes: Seq<ScheduledRoute>,
    target: int,
    R: int,
    st: ScanState,
    k: int,
    maxT1: int,
    maxT2: int,
)
    requires
        k <= maxT1 + 1,
        maxT1 <= maxT2,
    ensures
        run_rounds(stops, routes, target, R, st, k, maxT2) == run_rounds(
            stops,
            routes,
            target,
            R,
            run_rounds(stops, routes, target, R, st, k, maxT1),
            maxT1 + 1,
            maxT2,
        ),
    decreases maxT1 - k + 1,
{
    if k > maxT1 || st.queue.len() == 0 {
    } else {
        let st2 = run_round(stops, routes, target, R, st, k);
        lemma_run_rounds_split(stops, routes, target, R, st2, k + 1, maxT1, maxT2);
    }
}

/// Monotonicity: for every stop, the best label's arrival time after
/// `r2 >= r1` rounds is no later than after `r1` rounds. The best label
/// never regresses as the scan runs more rounds.
pub proof fn lemma_best_monotonic(
    stops: Seq<Stop>,
    routes: Seq<ScheduledRoute>,
    target: int,
    R: int,
    st0: ScanState,
    r1: int,
    r2: int,
    s: int,
)
    requires
        R >= 1,
        1 <= r1 <= r2 < R,
        valid_dataset(stops, routes),
        shape_ok(stops.len() as int, R, st0),
        0 <= s < st0.best.len(),
    ensures
        run_rounds(stops, routes, target, R, st0, 1, r2).best[s].time() <= run_rounds(
            stops,
            routes,
            target,
            R,
            st0,
            1,
            r1,
        ).best[s].time(),
{
    let st1 = run_rounds(stops, routes, target, R, st0, 1, r1);
    lemma_run_rounds_split(stops, routes, target, R, st0, 1, r1, r2);
    lemma_run_rounds_mono(stops, routes, target, R, st0, 1, r1);
    lemma_run_rounds_mono(stops, routes, target, R, st1, r1 + 1, r2);
}

/// Bookkeeping facts preserved by transfer relaxation: round labels only
/// move earlier, never below the floor `B`; a stop already at the floor
/// keeps its exact label; and each best label stays no later than the
/// stop's round label.
proof fn lemma_relax_props(
    stops: Seq<Stop>,
    R: int,
    k: int,
    st: ScanState,
    i: int,
    j: int,
    dep: int,
    B: int,
)
    requires
        R >= 1,
        0 <= k < R,
        shape_ok(stops.len() as int, R, st),
        0 <= dep < stops.len(),
        forall|s: int|
            0 <= s < stops.len() ==> #[trigger] lab(st, R, s, k).time() >= B,
        lab(st, R, dep, k).time() == B,
        forall|s: int|
            0 <= s < stops.len() ==> #[trigger] st.best[s].time() <= lab(st, R, s, k).time(),
    ensures
        ({
            let rr = relax_all(stops, R, k, st, i, j);
            &&& forall|s: int|
                0 <= s < stops.len() ==> #[trigger] lab(rr, R, s, k).time() <= lab(
                    st,
                    R,
                    s,
                    k,
                ).time()
            &&& forall|s: int|
                0 <= s < stops.len() ==> #[trigger] lab(rr, R, s, k).time() >= B
            &&& lab(rr, R, dep, k) == lab(st, R, dep, k)
            &&& forall|s: int|
                0 <= s < stops.len() ==> #[trigger] rr.best[s].time() <= lab(rr, R, s, k).time()
            &&& rr.queue.len() >= st.queue.len()
            &&& st.queue.len() >= 1 ==> rr.queue[0] == st.queue[0]
            &&& rr.best[dep] == st.best[dep]
        }),
    decreases
            sum_round(st.labels, R, k, stops.len() as int),
            st.queue.len() - i,
            relax_edges_left(stops, st, i, j),
{
    let n = stops.len() as int;
    if !(i < 0 || i >= st.queue.len()) {
        let s = st.queue[i] as int;
        if !(s < stops.len()) {
            lemma_relax_props(stops, R, k, st, i + 1, 0, dep, B);
        } else if j < 0 || j >= stops[s].nonScheduledRoutes@.len() {
            lemma_relax_props(stops, R, k, st, i + 1, 0, dep, B);
        } else {
            let e = stops[s].nonScheduledRoutes@[j];
            let tgt = e.targetStop as int;
            let cand = lab(st, R, s, k).time() + e.transferTime;
            if tgt < stops.len() && cand <= u64::MAX && cand < lab(st, R, tgt, k).time() {
                let newl = Label::NonScheduledRoute {
                    arrivalTime: cand as u64,
                    route: e.id,
                    boardingStop: st.queue[i],
                };
                let st2 = ScanState {
                    labels: st.labels.update(tgt * R + k, newl),
                    best: if cand < st.best[tgt].time() {
                        st.best.update(tgt, newl)
                    } else {
                        st.best
                    },
                    queue: st.queue.push(e.targetStop),
                };
                lemma_flat_index(n, R, tgt, k);
                lemma_sum_round_update(st.labels, R, k, n, tgt, newl);
                lemma_sum_round_nonneg(st2.labels, R, k, n);
                assert forall|ss: int|
                    0 <= ss < stops.len() implies #[trigger] lab(st2, R, ss, k).time() >= B by {
                    lemma_flat_index(n, R, ss, k);
                    assert(lab(st, R, ss, k).time() >= B);
                    if ss != tgt {
                        crate::scan_model::lemma_slot_distinct(ss, tgt, R);
                    }
                }
                assert forall|ss: int|
                    0 <= ss < stops.len() implies #[trigger] st2.best[ss].time() <= lab(
                    st2,
                    R,
                    ss,
                    k,
                ).time() by {
                    lemma_flat_index(n, R, ss, k);
                    assert(st.best[ss].time() <= lab(st, R, ss, k).time());
                    if ss != tgt {
                        crate::scan_model::lemma_slot_distinct(ss, tgt, R);
                    }
                }
                assert(tgt != dep) by {
                    assert(lab(st, R, dep, k).time() == B);
                }
                lemma_flat_index(n, R, dep, k);
                crate::scan_model::lemma_slot_distinct(dep, tgt, R);
                assert(lab(st2, R, dep, k) == lab(st, R, dep, k));
                lemma_relax_props(stops, R, k, st2, i, j + 1, dep, B);
                assert(relax_all(stops, R, k, st, i, j) == relax_all(stops, R, k, st2, i, j + 1));
                assert forall|ss: int|
                    0 <= ss < stops.len() implies #[trigger] lab(
                    relax_all(stops, R, k, st, i, j),
                    R,
                    ss,
                    k,
                ).time() <= lab(st, R, ss, k).time() by {
                    lemma_flat_index(n, R, ss, k);
                    assert(lab(relax_all(stops, R, k, st2, i, j + 1), R, ss, k).time() <= lab(
                        st2,
                        R,
                        ss,
                        k,
                    ).time());
                    if ss != tgt {
                        crate::scan_model::lemma_slot_distinct(ss, tgt, R);
                    }
                }
            } else {
                lemma_relax_props(stops, R, k, st, i, j + 1, dep, B);
            }
        }
    }
}

/// Processing the queue's head stop relaxes each of its edges: after the
/// relaxation, the edge's target is labelled no later than the head's
/// label plus the edge's duration.
proof fn lemma_relax_direct_edge(
    stops: Seq<Stop>,
    R: int,
    k: int,
    st: ScanState,
    j: int,
    jj: int,
    dep: int,
    B: int,
)
    requires
        R >= 1,
        0 <= k < R,
        shape_ok(stops.len() as int, R, st),
        st.queue.len() >= 1,
        (st.queue[0] as int) == dep,
        0 <= dep < stops.len(),
        forall|s: int|
            0 <= s < stops.len() ==> #[trigger] lab(st, R, s, k).time() >= B,
        lab(st, R, dep, k).time() == B,
        forall|s: int|
            0 <= s < stops.len() ==> #[trigger] st.best[s].time() <= lab(st, R, s, k).time(),
        0 <= j <= jj < stops[dep].nonScheduledRoutes@.len(),
        (stops[dep].nonScheduledRoutes@[jj].targetStop as int) < stops.len(),
        B + stops[dep].nonScheduledRoutes@[jj].transferTime <= u64::MAX,
    ensures
        lab(
            relax_all(stops, R, k, st, 0, j),
            R,
            stops[dep].nonScheduledRoutes@[jj].targetStop as int,
            k,
        ).time() <= B + stops[dep].nonScheduledRoutes@[jj].transferTime,
    decreases jj - j,
{
    let n = stops.len() as int;
    let e = stops[dep].nonScheduledRoutes@[j];
    let tgt = e.targetStop as int;
    let cand = lab(st, R, dep, k).time() + e.transferTime;
    let ejj = stops[dep].nonScheduledRoutes@[jj];
    if tgt < stops.len() && cand <= u64::MAX && cand < lab(st, R, tgt, k).time() {
        let newl = Label::NonScheduledRoute {
            arrivalTime: cand as u64,
            route: e.id,
            boardingStop: st.queue[0],
        };
        let st2 = ScanState {
            labels: st.labels.update(tgt * R + k, newl),
            best: if cand < st.best[tgt].time() {
                st.best.update(tgt, newl)
            } else {
                st.best
            },
            queue: st.queue.push(e.targetStop),
        };
        lemma_flat_index(n, R, tgt, k);
        lemma_sum_round_update(st.labels, R, k, n, tgt, newl);
        lemma_sum_round_nonneg(st2.labels, R, k, n);
        assert(tgt != dep) by {
            assert(lab(st, R, dep, k).time() == B);
        }
        lemma_flat_index(n, R, dep, k);
        crate::scan_model::lemma_slot_distinct(dep, tgt, R);
        assert(lab(st2, R, dep, k) == lab(st, R, dep, k));
        assert forall|ss: int|
            0 <= ss < stops.len() implies #[trigger] lab(st2, R, ss, k).time() >= B by {
            lemma_flat_index(n, R, ss, k);
            assert(lab(st, R, ss, k).time() >= B);
            if ss != tgt {
                crate::scan_model::lemma_slot_distinct(ss, tgt, R);
            }
        }
        assert forall|ss: int|
            0 <= ss < stops.len() implies #[trigger] st2.best[ss].time() <= lab(
            st2,
            R,
            ss,
            k,
        ).time() by {
            lemma_flat_index(n, R, ss, k);
            assert(st.best[ss].time() <= lab(st, R, ss, k).time());
            if ss != tgt {
                crate::scan_model::lemma_slot_distinct(ss, tgt, R);
            }
        }
        assert(relax_all(stops, R, k, st, 0, j) == relax_all(stops, R, k, st2, 0, j + 1));
        if j == jj {
            lemma_relax_props(stops, R, k, st2, 0, j + 1, dep, B);
            assert(lab(st2, R, tgt, k).time() == cand);
        } else {
            lemma_relax_direct_edge(stops, R, k, st2, j + 1, jj, dep, B);
        }
    } else {
        if j == jj {
            lemma_relax_props(stops, R, k, st, 0, j + 1, dep, B);
            assert(relax_all(stops, R, k, st, 0, j) == relax_all(stops, R, k, st, 0, j + 1));
            assert(lab(st, R, tgt, k).time() <= B + e.transferTime);
        } else {
            lemma_relax_direct_edge(stops, R, k, st, j + 1, jj, dep, B);
            assert(relax_all(stops, R, k, st, 0, j) == relax_all(stops, R, k, st, 0, j + 1));
        }
    }
}

/// The marked-route entry claimed by the departure stop itself.
pub open spec fn dep_claim(routes: Seq<ScheduledRoute>, r: int, dep: usize) -> MarkedScheduledRoute {
    MarkedScheduledRoute {
        earliestStop: dep,
        earliestStopEquivalentIndex: first_index_of(routes[r].stopsId@, dep) as usize,
        route: r as usize,
    }
}

/// Processing the departure stop's own route list claims route `r` for
/// the departure.
proof fn lemma_mark_step_claims(
    routes: Seq<ScheduledRoute>,
    labels: Seq<Label>,
    R: int,
    k: int,
    marked: Seq<Option<MarkedScheduledRoute>>,
    dep: usize,
    stop: Stop,
    j: int,
    r: int,
)
    requires
        0 <= j,
        0 <= r < routes.len(),
        marked.len() == routes.len(),
        marked[r] == Some(dep_claim(routes, r, dep)) || (marked[r] is None && exists|j2: int|
            j <= j2 < stop.scheduledRoutes@.len() && (#[trigger] stop.scheduledRoutes@[j2]) == r),
        forall|jj: int|
            0 <= jj < stop.scheduledRoutes@.len() ==> ((#[trigger] stop.scheduledRoutes@[jj]) as int)
                < routes.len(),
    ensures
        mark_step(routes, labels, R, k, marked, dep, stop, j)[r] == Some(dep_claim(routes, r, dep)),
        mark_step(routes, labels, R, k, marked, dep, stop, j).len() == marked.len(),
    decreases stop.scheduledRoutes@.len() - j,
{
    if j < 0 || j >= stop.scheduledRoutes@.len() {
        if marked[r] is None {
            let j2 = choose|j2: int|
                j <= j2 < stop.scheduledRoutes@.len() && (#[trigger] stop.scheduledRoutes@[j2])
                    == r;
            assert(false);
        }
    } else {
        let rj = stop.scheduledRoutes@[j] as int;
        let claim = MarkedScheduledRoute {
            earliestStop: dep,
            earliestStopEquivalentIndex: first_index_of(routes[rj].stopsId@, dep) as usize,
            route: rj as usize,
        };
        let upd = match marked[rj] {
            None => Some(claim),
            Some(m) => {
                if labels[dep * R + (k - 1)].time() < labels[m.earliestStop * R + (k - 1)].time() {
                    Some(claim)
                } else {
                    Some(m)
                }
            },
        };
        let marked2 = marked.update(rj, upd);
        if rj == r {
            assert(marked2[r] == Some(dep_claim(routes, r, dep)));
        } else {
            assert(marked2[r] == marked[r]);
            if marked[r] is None {
                let j2 = choose|j2: int|
                    j <= j2 < stop.scheduledRoutes@.len() && (#[trigger] stop.scheduledRoutes@[j2])
                        == r;
                assert(j2 != j);
                assert(j + 1 <= j2 < stop.scheduledRoutes@.len() && stop.scheduledRoutes@[j2] == r);
            }
        }
        lemma_mark_step_claims(routes, labels, R, k, marked2, dep, stop, j + 1, r);
    }
}

/// No other marked stop displaces the departure's claim when none of them
/// is labelled strictly earlier than the departure.
proof fn lemma_mark_step_keeps(
    routes: Seq<ScheduledRoute>,
    labels: Seq<Label>,
    R: int,
    k: int,
    marked: Seq<Option<MarkedScheduledRoute>>,
    stopId: usize,
    stop: Stop,
    j: int,
    r: int,
    dep: usize,
)
    requires
        0 <= r < marked.len(),
        marked.len() == routes.len(),
        marked[r] == Some(dep_claim(routes, r, dep)),
        labels[stopId * R + (k - 1)].time() >= labels[dep * R + (k - 1)].time(),
        forall|jj: int|
            0 <= jj < stop.scheduledRoutes@.len() ==> ((#[trigger] stop.scheduledRoutes@[jj]) as int)
                < routes.len(),
    ensures
        mark_step(routes, labels, R, k, marked, stopId, stop, j)[r] == Some(
            dep_claim(routes, r, dep),
        ),
        mark_step(routes, labels, R, k, marked, stopId, stop, j).len() == marked.len(),
    decreases stop.scheduledRoutes@.len() - j,
{
    if !(j < 0 || j >= stop.scheduledRoutes@.len()) {
        let rj = stop.scheduledRoutes@[j] as int;
        let claim = MarkedScheduledRoute {
            earliestStop: stopId,
            earliestStopEquivalentIndex: first_index_of(routes[rj].stopsId@, stopId) as usize,
            route: rj as usize,
        };
        let upd = match marked[rj] {
            None => Some(claim),
            Some(m) => {
                if labels[stopId * R + (k - 1)].time() < labels[m.earliestStop * R + (k
                    - 1)].time() {
                    Some(claim)
                } else {
                    Some(m)
                }
            },
        };
        let marked2 = marked.update(rj, upd);
        assert(marked2[r] == Some(dep_claim(routes, r, dep)));
        lemma_mark_step_keeps(routes, labels, R, k, marked2, stopId, stop, j + 1, r, dep);
    }
}

/// With the departure at the queue's head and no stop labelled strictly
/// earlier, route marking records the departure as route `r`'s
/// earliest-reachable stop.
proof fn lemma_mark_stops_dep(
    stops: Seq<Stop>,
    routes: Seq<ScheduledRoute>,
    labels: Seq<Label>,
    R: int,
    k: int,
    marked: Seq<Option<MarkedScheduledRoute>>,
    queue: Seq<usize>,
    i: int,
    r: int,
    dep: usize,
)
    requires
        valid_dataset(stops, routes),
        0 <= r < routes.len(),
        marked.len() == routes.len(),
        marked[r] == Some(dep_claim(routes, r, dep)),
        (dep as int) < stops.len(),
        forall|s: int|
            0 <= s < stops.len() ==> #[trigger] labels[s * R + (k - 1)].time() >= labels[(dep
                as int) * R + (k - 1)].time(),
        0 <= i,
    ensures
        mark_stops(stops, routes, labels, R, k, marked, queue, i)[r] == Some(
            dep_claim(routes, r, dep),
        ),
    decreases queue.len() - i,
{
    if !(i < 0 || i >= queue.len()) {
        let s = queue[i] as int;
        let marked2 = if 0 <= s < stops.len() {
            assert(stop_linked(stops[s], stops.len() as int, routes));
            assert(labels[s * R + (k - 1)].time() >= labels[(dep as int) * R + (k - 1)].time());
            lemma_mark_step_keeps(routes, labels, R, k, marked, queue[i], stops[s], 0, r, dep);
            mark_step(routes, labels, R, k, marked, queue[i], stops[s], 0)
        } else {
            marked
        };
        lemma_mark_stops_dep(stops, routes, labels, R, k, marked2, queue, i + 1, r, dep);
    }
}

/// The round's marking records the departure as route `r`'s
/// earliest-reachable stop when the departure heads the queue and no stop
/// is labelled strictly earlier by the previous round.
proof fn lemma_marking_picks_dep(
    stops: Seq<Stop>,
    routes: Seq<ScheduledRoute>,
    st: ScanState,
    R: int,
    k: int,
    r: int,
    dep: usize,
    jx: int,
)
    requires
        valid_dataset(stops, routes),
        0 <= r < routes.len(),
        st.queue.len() >= 1,
        st.queue[0] == dep,
        (dep as int) < stops.len(),
        0 <= jx < stops[dep as int].scheduledRoutes@.len(),
        (stops[dep as int].scheduledRoutes@[jx] as int) == r,
        forall|s: int|
            0 <= s < stops.len() ==> #[trigger] st.labels[s * R + (k - 1)].time() >= st.labels[(dep
                as int) * R + (k - 1)].time(),
    ensures
        mark_routes_spec(stops, routes, st, R, k)[r] == Some(dep_claim(routes, r, dep)),
{
    let init = Seq::new(routes.len(), |rr: int| None::<MarkedScheduledRoute>);
    assert(stop_linked(stops[dep as int], stops.len() as int, routes));
    lemma_mark_step_claims(routes, st.labels, R, k, init, dep, stops[dep as int], 0, r);
    let after_dep = mark_step(routes, st.labels, R, k, init, dep, stops[dep as int], 0);
    lemma_mark_stops_dep(stops, routes, st.labels, R, k, after_dep, st.queue, 1, r, dep);
}

/// Every stop's best label arrives no later than its round-`k` label.
pub open spec fn best_le_lab(n: int, R: int, k: int, st: ScanState) -> bool {
    forall|s: int| 0 <= s < n ==> (#[trigger] st.best[s]).time() <= lab(st, R, s, k).time()
}

/// The walk of one marked route preserves `best_le_lab`.
proof fn lemma_scan_positions_bestlab(
    route: ScheduledRoute,
    target: int,
    prior: Seq<Label>,
    R: int,
    k: int,
    m: MarkedScheduledRoute,
    st: ScanState,
    p: int,
    cur: Option<usize>,
    n: int,
)
    requires
        R >= 1,
        0 <= k < R,
        shape_ok(n, R, st),
        route.wf(),
        forall|q: int| 0 <= q < route.stopsId@.len() ==> ((#[trigger] route.stopsId@[q]) as int) < n,
        best_le_lab(n, R, k, st),
    ensures
        best_le_lab(n, R, k, scan_positions(route, target, prior, R, k, m, st, p, cur)),
    decreases route.stopsCount - p,
{
    if !(p < 0 || p >= route.stopsCount) {
        let sid = route.stopsId@[p] as int;
        let st1 = if cur is Some {
            let arr = route.trip_time(cur->0 as int, p);
            if (arr as int) < min_int(st.best[target].time(), lab(st, R, sid, k).time()) {
                scan_write(
                    st,
                    R,
                    k,
                    sid,
                    Label::ScheduledRoute {
                        arrivalTime: arr,
                        departureTime: route.trip_time(
                            cur->0 as int,
                            m.earliestStopEquivalentIndex as int,
                        ),
                        route: m.route,
                        boardingStop: m.earliestStop,
                    },
                )
            } else {
                st
            }
        } else {
            st
        };
        let cur_time = if cur is Some {
            route.trip_time(cur->0 as int, p) as int
        } else {
            infinity()
        };
        let cur2 = if prior[sid].time() < cur_time {
            match route.earliest_trip(p, prior[sid].finite_time()) {
                Some(t2) => Some(t2),
                None => cur,
            }
        } else {
            cur
        };
        lemma_flat_index(n, R, sid, k);
        assert forall|s: int| 0 <= s < n implies (#[trigger] st1.best[s]).time() <= lab(
            st1,
            R,
            s,
            k,
        ).time() by {
            lemma_flat_index(n, R, s, k);
            assert(st.best[s].time() <= lab(st, R, s, k).time());
            if s != sid {
                crate::scan_model::lemma_slot_distinct(s, sid, R);
            }
        }
        lemma_scan_positions_bestlab(route, target, prior, R, k, m, st1, p + 1, cur2, n);
    }
}

/// Walking a marked route past position `pb` while holding a trip no
/// later than trip `tb` leaves `pb`'s stop with a best arrival no later
/// than trip `tb`'s time there: the held trip only ever gets earlier, and
/// at `pb` either the write lands or something at least as good already
/// stood.
proof fn lemma_scan_walk_bound(
    route: ScheduledRoute,
    target: int,
    prior: Seq<Label>,
    R: int,
    k: int,
    m: MarkedScheduledRoute,
    st: ScanState,
    p: int,
    cur: Option<usize>,
    n: int,
    tb: int,
    pb: int,
)
    requires
        R >= 1,
        0 <= k < R,
        shape_ok(n, R, st),
        route.wf(),
        forall|q: int| 0 <= q < route.stopsId@.len() ==> ((#[trigger] route.stopsId@[q]) as int) < n,
        0 <= p <= pb < route.stopsCount,
        target == route.stopsId@[pb] as int,
        cur is Some,
        0 <= (cur->0 as int) <= tb < route.tripsCount,
        prior.len() == n,
        best_le_lab(n, R, k, st),
    ensures
        scan_positions(route, target, prior, R, k, m, st, p, cur).best[target].time()
            <= route.trip_time(tb, pb),
    decreases pb - p,
{
    let sid = route.stopsId@[p] as int;
    let tc = cur->0 as int;
    let st1 = if cur is Some {
        let arr = route.trip_time(tc, p);
        if (arr as int) < min_int(st.best[target].time(), lab(st, R, sid, k).time()) {
            scan_write(
                st,
                R,
                k,
                sid,
                Label::ScheduledRoute {
                    arrivalTime: arr,
                    departureTime: route.trip_time(tc, m.earliestStopEquivalentIndex as int),
                    route: m.route,
                    boardingStop: m.earliestStop,
                },
            )
        } else {
            st
        }
    } else {
        st
    };
    let cur_time = route.trip_time(tc, p) as int;
    let cur2 = if prior[sid].time() < cur_time {
        match route.earliest_trip(p, prior[sid].finite_time()) {
            Some(t2) => Some(t2),
            None => cur,
        }
    } else {
        cur
    };
    lemma_flat_index(n, R, sid, k);
    assert(cur2 is Some && 0 <= (cur2->0 as int) <= tb) by {
        if prior[sid].time() < cur_time {
            match route.earliest_trip(p, prior[sid].finite_time()) {
                Some(t2) => {
                    assert(!(prior[sid] is Infinite));
                    assert(route.trip_time(tc, p) > prior[sid].finite_time());
                    route.lemma_earliest_trip_least(p, prior[sid].finite_time(), 0, tc);
                },
                None => {},
            }
        }
    }
    assert forall|s: int| 0 <= s < n implies (#[trigger] st1.best[s]).time() <= lab(
        st1,
        R,
        s,
        k,
    ).time() by {
        lemma_flat_index(n, R, s, k);
        assert(st.best[s].time() <= lab(st, R, s, k).time());
        if s != sid {
            crate::scan_model::lemma_slot_distinct(s, sid, R);
        }
    }
    if p == pb {
        assert(st1.best[target].time() <= route.trip_time(tb, pb)) by {
            assert(route.trip_time(tc, pb) <= route.trip_time(tb, pb));
            assert(st.best[target].time() <= lab(st, R, target, k).time());
        }
        lemma_scan_positions_mono(route, target, prior, R, k, m, st1, p + 1, cur2, n);
        assert(scan_positions(route, target, prior, R, k, m, st1, p + 1, cur2).best[
            target
        ].time() <= st1.best[target].time());
    } else {
        lemma_scan_walk_bound(route, target, prior, R, k, m, st1, p + 1, cur2, n, tb, pb);
    }
}

/// Scanning the round's marked routes, one of which the departure claims
/// with a trip no later than `tb` boardable at its own position, leaves
/// the route's later stop `pb` with a best arrival no later than trip
/// `tb`'s time there.
proof fn lemma_scan_marked_direct(
    routes: Seq<ScheduledRoute>,
    target: int,
    prior: Seq<Label>,
    R: int,
    k: int,
    marked: Seq<Option<MarkedScheduledRoute>>,
    st: ScanState,
    ri: int,
    r: int,
    n: int,
    dep: usize,
    pa: int,
    tb: int,
    pb: int,
)
    requires
        R >= 1,
        0 <= k < R,
        shape_ok(n, R, st),
        routes_fit(routes, n),
        marked.len() == routes.len(),
        valid_marked(marked, n, routes),
        best_le_lab(n, R, k, st),
        0 <= ri <= r < marked.len(),
        r <= usize::MAX,
        marked[r] == Some(dep_claim(routes, r, dep)),
        (dep as int) < n,
        prior.len() == n,
        first_index_of(routes[r].stopsId@, dep) == pa,
        0 <= pa <= pb < routes[r].stopsId@.len(),
        (routes[r].stopsId@[pb] as int) == target,
        !(prior[dep as int] is Infinite),
        routes[r].earliest_trip(pa, prior[dep as int].finite_time()) is Some,
        0 <= (routes[r].earliest_trip(pa, prior[dep as int].finite_time())->0 as int) <= tb,
        0 <= tb < routes[r].tripsCount,
    ensures
        scan_marked(routes, target, prior, R, k, marked, st, ri).best[target].time() <= routes[
            r
        ].trip_time(tb, pb),
    decreases marked.len() - ri,
{
    let route = routes[r];
    assert(routes[r].wf() && (forall|q: int|
        0 <= q < routes[r].stopsId@.len() ==> ((#[trigger] routes[r].stopsId@[q]) as int) < n));
    if ri == r {
        let mm = dep_claim(routes, r, dep);
        assert(routes[r].stopsId.len() == routes[r].stopsId@.len());
        assert((mm.earliestStopEquivalentIndex as int) == pa);
        let init = if prior[mm.earliestStop as int] is Infinite {
            None
        } else {
            route.earliest_trip(pa, prior[mm.earliestStop as int].finite_time())
        };
        assert(init == route.earliest_trip(pa, prior[dep as int].finite_time()));
        let st2 = scan_route_spec(routes, target, prior, R, k, mm, st);
        assert(st2 == scan_positions(route, target, prior, R, k, mm, st, pa, init));
        lemma_scan_walk_bound(route, target, prior, R, k, mm, st, pa, init, n, tb, pb);
        lemma_scan_positions_mono(route, target, prior, R, k, mm, st, pa, init, n);
        assert(scan_marked(routes, target, prior, R, k, marked, st, ri) == scan_marked(
            routes,
            target,
            prior,
            R,
            k,
            marked,
            st2,
            ri + 1,
        ));
        lemma_scan_marked_mono(routes, target, prior, R, k, marked, st2, ri + 1, n);
        assert(scan_marked(routes, target, prior, R, k, marked, st2, ri + 1).best[target].time()
            <= st2.best[target].time());
    } else {
        let st2 = match marked[ri] {
            Some(mi) => scan_route_spec(routes, target, prior, R, k, mi, st),
            None => st,
        };
        match marked[ri] {
            Some(mi) => {
                assert(entry_ok_opt(marked[ri], n, routes));
                let route_i = routes[mi.route as int];
                let p0 = mi.earliestStopEquivalentIndex as int;
                let init_i = if prior[mi.earliestStop as int] is Infinite {
                    None
                } else {
                    route_i.earliest_trip(p0, prior[mi.earliestStop as int].finite_time())
                };
                lemma_scan_positions_mono(route_i, target, prior, R, k, mi, st, p0, init_i, n);
                lemma_scan_positions_bestlab(route_i, target, prior, R, k, mi, st, p0, init_i, n);
            },
            None => {},
        }
        lemma_scan_marked_direct(
            routes,
            target,
            prior,
            R,
            k,
            marked,
            st2,
            ri + 1,
            r,
            n,
            dep,
            pa,
            tb,
            pb,
        );
    }
}

/// Determinism: the query's answer is a function of the dataset and the
/// query parameters alone, so two results of identical inputs coincide.
pub proof fn lemma_query_deterministic(
    stops: Seq<Stop>,
    routes: Seq<ScheduledRoute>,
    departureStopId: usize,
    departureTime: u64,
    targetStopId: usize,
    maxTransfer: usize,
    r1: Result<Seq<TripOfJourney>, RaptorError>,
    r2: Result<Seq<TripOfJourney>, RaptorError>,
)
    requires
        r1 == raptor_spec(stops, routes, departureStopId, departureTime, targetStopId, maxTransfer),
        r2 == raptor_spec(stops, routes, departureStopId, departureTime, targetStopId, maxTransfer),
    ensures
        r1 == r2,
{
}

/// No worse than a direct transfer: when a transfer edge joins the
/// departure stop straight to the target, the query never reports the
/// target unreachable, and a returned journey arrives no later than
/// walking that edge at departure time would.
pub proof fn lemma_no_worse_than_direct_transfer(
    stops: Seq<Stop>,
    routes: Seq<ScheduledRoute>,
    departureStopId: usize,
    departureTime: u64,
    targetStopId: usize,
    maxTransfer: usize,
    jj: int,
)
    requires
        valid_dataset(stops, routes),
        (departureStopId as int) < stops.len(),
        (targetStopId as int) < stops.len(),
        maxTransfer >= 1,
        0 <= jj < stops[departureStopId as int].nonScheduledRoutes@.len(),
        stops[departureStopId as int].nonScheduledRoutes@[jj].targetStop == targetStopId,
        departureTime + stops[departureStopId as int].nonScheduledRoutes@[jj].transferTime
            <= u64::MAX,
    ensures
        raptor_spec(stops, routes, departureStopId, departureTime, targetStopId, maxTransfer)
            != Err::<Seq<TripOfJourney>, RaptorError>(RaptorError::UnreachableTarget),
        ({
            let res = raptor_spec(
                stops,
                routes,
                departureStopId,
                departureTime,
                targetStopId,
                maxTransfer,
            );
            res is Ok ==> (res->Ok_0[res->Ok_0.len() - 1].arrivalTime as int) <= departureTime
                + stops[departureStopId as int].nonScheduledRoutes@[jj].transferTime
        }),
{
    let n = stops.len() as int;
    let R = maxTransfer as int + 1;
    let dep = departureStopId as int;
    let tgt = targetStopId as int;
    let d = stops[dep].nonScheduledRoutes@[jj].transferTime;
    let B = departureTime as int;
    let base = ScanState {
        labels: Seq::new((n * R) as nat, |idx: int| Label::Infinite).update(
            dep * R,
            Label::DepartureLabel(departureTime),
        ),
        best: Seq::new(n as nat, |s: int| Label::Infinite).update(
            dep,
            Label::DepartureLabel(departureTime),
        ),
        queue: seq![departureStopId],
    };
    lemma_flat_index(n, R, dep, 0);
    assert forall|s: int| 0 <= s < stops.len() implies #[trigger] lab(base, R, s, 0).time()
        >= B by {
        lemma_flat_index(n, R, s, 0);
        if s != dep {
            crate::scan_model::lemma_slot_distinct(s, dep, R);
        }
    }
    assert(lab(base, R, dep, 0).time() == B);
    assert forall|s: int| 0 <= s < stops.len() implies #[trigger] base.best[s].time() <= lab(
        base,
        R,
        s,
        0,
    ).time() by {
        lemma_flat_index(n, R, s, 0);
        if s != dep {
            crate::scan_model::lemma_slot_distinct(s, dep, R);
        }
    }
    lemma_relax_direct_edge(stops, R, 0, base, 0, jj, dep, B);
    lemma_relax_props(stops, R, 0, base, 0, 0, dep, B);
    let st0 = init_state(stops, R, departureStopId, departureTime);
    assert(st0 == relax_all(stops, R, 0, base, 0, 0));
    assert(st0.best[tgt].time() <= B + d);
    lemma_relax_mono(stops, R, 0, base, 0, 0);
    lemma_run_rounds_mono(stops, routes, tgt, R, st0, 1, maxTransfer as int);
    let stF = run_rounds(stops, routes, tgt, R, st0, 1, maxTransfer as int);
    assert(stF.best[tgt].time() <= B + d);
    assert(!(stF.best[tgt] is Infinite));
    let res = raptor_spec(stops, routes, departureStopId, departureTime, targetStopId, maxTransfer);
    if res is Ok {
        lemma_rebuild_chain(stF.best, tgt, stops.len());
    } else {
        lemma_rebuild_errors(stF.best, tgt, stops.len());
    }
}

/// No worse than a direct ride: when a scheduled route serves the
/// departure stop and, later on its pattern, the target, and one of its
/// trips leaves the departure strictly after the departure time, the
/// query never reports the target unreachable, and a returned journey
/// arrives no later than that trip does.
pub proof fn lemma_no_worse_than_direct_route(
    stops: Seq<Stop>,
    routes: Seq<ScheduledRoute>,
    departureStopId: usize,
    departureTime: u64,
    targetStopId: usize,
    maxTransfer: usize,
    r: int,
    pa: int,
    pb: int,
    t: int,
)
    requires
        valid_dataset(stops, routes),
        (departureStopId as int) < stops.len(),
        (targetStopId as int) < stops.len(),
        maxTransfer >= 1,
        0 <= r < routes.len(),
        r <= usize::MAX,
        0 <= pa < pb < routes[r].stopsId@.len(),
        routes[r].stopsId@[pa] == departureStopId,
        routes[r].stopsId@[pb] == targetStopId,
        0 <= t < routes[r].tripsCount,
        (routes[r].trip_time(t, pa) as int) > departureTime,
    ensures
        raptor_spec(stops, routes, departureStopId, departureTime, targetStopId, maxTransfer)
            != Err::<Seq<TripOfJourney>, RaptorError>(RaptorError::UnreachableTarget),
        ({
            let res = raptor_spec(
                stops,
                routes,
                departureStopId,
                departureTime,
                targetStopId,
                maxTransfer,
            );
            res is Ok ==> (res->Ok_0[res->Ok_0.len() - 1].arrivalTime as int) <= routes[
                r
            ].trip_time(t, pb)
        }),
{
    let n = stops.len() as int;
    let R = maxTransfer as int + 1;
    let dep = departureStopId as int;
    let tgt = targetStopId as int;
    let B = departureTime as int;
    let route = routes[r];
    let D = route.trip_time(t, pb) as int;
    let base = ScanState {
        labels: Seq::new((n * R) as nat, |idx: int| Label::Infinite).update(
            dep * R,
            Label::DepartureLabel(departureTime),
        ),
        best: Seq::new(n as nat, |s: int| Label::Infinite).update(
            dep,
            Label::DepartureLabel(departureTime),
        ),
        queue: seq![departureStopId],
    };
    lemma_flat_index(n, R, dep, 0);
    assert forall|s: int| 0 <= s < stops.len() implies #[trigger] lab(base, R, s, 0).time()
        >= B by {
        lemma_flat_index(n, R, s, 0);
        if s != dep {
            crate::scan_model::lemma_slot_distinct(s, dep, R);
        }
    }
    assert(lab(base, R, dep, 0).time() == B);
    assert forall|s: int| 0 <= s < stops.len() implies #[trigger] base.best[s].time() <= lab(
        base,
        R,
        s,
        0,
    ).time() by {
        lemma_flat_index(n, R, s, 0);
        if s != dep {
            crate::scan_model::lemma_slot_distinct(s, dep, R);
        }
    }
    lemma_relax_props(stops, R, 0, base, 0, 0, dep, B);
    lemma_relax_mono(stops, R, 0, base, 0, 0);
    crate::reachability::lemma_init_sound(stops, routes, R, departureStopId, departureTime);
    let st0 = init_state(stops, R, departureStopId, departureTime);
    assert(st0 == relax_all(stops, R, 0, base, 0, 0));
    assert(st0.queue.len() >= 1 && st0.queue[0] == departureStopId);
    assert(lab(st0, R, dep, 0) == Label::DepartureLabel(departureTime));
    assert(st0.best[dep] == Label::DepartureLabel(departureTime));

    // Round 1 marks route `r` for the departure: nothing is labelled
    // strictly earlier than the departure itself.
    assert(route_linked(routes[r], stops)) by {
        assert(valid_dataset(stops, routes));
    }
    assert(stops[dep].scheduledRoutes@.contains(r as usize)) by {
        assert((#[trigger] routes[r].stopsId@[pa]) == departureStopId);
    }
    let jx = choose|jx: int|
        0 <= jx < stops[dep].scheduledRoutes@.len() && (#[trigger] stops[
            dep
        ].scheduledRoutes@[jx]) == r as usize;
    assert forall|s: int|
        0 <= s < stops.len() implies #[trigger] st0.labels[s * R + (1 - 1)].time() >= st0.labels[
        dep * R + (1 - 1)
    ].time() by {
        assert(lab(st0, R, s, 0).time() >= B);
        assert(lab(st0, R, dep, 0).time() == B);
    }
    lemma_marking_picks_dep(stops, routes, st0, R, 1, r, departureStopId, jx);
    let marked = mark_routes_spec(stops, routes, st0, R, 1);
    lemma_mark_routes_valid(stops, routes, st0, R, 1);
    lemma_valid_dataset_routes_fit(stops, routes);

    // The departure's pattern position is exactly `pa`.
    assert forall|q: int| 0 <= q < pa implies route.stopsId@[q] != departureStopId by {
        assert(route.wf());
    }
    crate::scan_model::lemma_first_index_of_unique(route.stopsId@, departureStopId, pa);

    // The trip boarded at `pa` is no later than trip `t`.
    let prior = st0.best;
    assert(prior[dep].finite_time() == departureTime);
    route.lemma_earliest_trip_least(pa, departureTime, 0, t);
    let t0 = route.earliest_trip(pa, departureTime)->0 as int;

    // Round-1 labels are untouched before round 1, so the best labels sit
    // below them trivially.
    assert(crate::reachability::labels_sound(stops, routes, dep, R, 0, st0));
    let st1 = ScanState { labels: st0.labels, best: st0.best, queue: Seq::empty() };
    assert forall|s: int| 0 <= s < n implies (#[trigger] st1.best[s]).time() <= lab(
        st1,
        R,
        s,
        1,
    ).time() by {
        lemma_flat_index(n, R, s, 1);
        assert(lab(st1, R, s, 1) == lab(st0, R, s, 1));
        assert(!(lab(st0, R, s, 1) is Infinite) ==> 1 <= 0);
        assert(lab(st1, R, s, 1).time() == infinity());
    }
    lemma_scan_marked_direct(
        routes,
        tgt,
        prior,
        R,
        1,
        marked,
        st1,
        0,
        r,
        n,
        departureStopId,
        pa,
        t,
        pb,
    );
    let st2 = scan_marked(routes, tgt, prior, R, 1, marked, st1, 0);
    lemma_scan_marked_mono(routes, tgt, prior, R, 1, marked, st1, 0, n);
    lemma_relax_mono(stops, R, 1, st2, 0, 0);
    let st3 = run_round(stops, routes, tgt, R, st0, 1);
    assert(st3 == relax_all(stops, R, 1, st2, 0, 0));
    assert(st3.best[tgt].time() <= D);

    // Later rounds only improve the target's best label.
    crate::laws::lemma_run_round_mono(stops, routes, tgt, R, st0, 1);
    lemma_run_rounds_mono(stops, routes, tgt, R, st3, 2, maxTransfer as int);
    assert(run_rounds(stops, routes, tgt, R, st0, 1, maxTransfer as int) == run_rounds(
        stops,
        routes,
        tgt,
        R,
        st3,
        2,
        maxTransfer as int,
    ));
    let stF = run_rounds(stops, routes, tgt, R, st0, 1, maxTransfer as int);
    assert(stF.best[tgt].time() <= D);
    assert(!(stF.best[tgt] is Infinite));
    let res = raptor_spec(stops, routes, departureStopId, departureTime, targetStopId, maxTransfer);
    if res is Ok {
        lemma_rebuild_chain(stF.best, tgt, stops.len());
    } else {
        lemma_rebuild_errors(stF.best, tgt, stops.len());
    }
}

/// The backward walk only ever fails with the internal-defect error.
proof fn lemma_rebuild_errors(best: Seq<Label>, current: int, fuel: nat)
    ensures
        rebuild(best, current, fuel) is Err ==> rebuild(best, current, fuel)->Err_0
            == RaptorError::InfiniteLabel,
    decreases fuel,
{
    if 0 <= current < best.len() {
        match best[current] {
            Label::ScheduledRoute { boardingStop, .. } => {
                if fuel > 0 {
                    lemma_rebuild_errors(best, boardingStop as int, (fuel - 1) as nat);
                }
            },
            Label::NonScheduledRoute { boardingStop, .. } => {
                if fuel > 0 {
                    lemma_rebuild_errors(best, boardingStop as int, (fuel - 1) as nat);
                }
            },
            _ => {},
        }
    }
}

/// Unreachable detection, at the label store: a query with valid stop ids
/// answers `UnreachableTarget` exactly when the scan's final best label
/// for the target is still unreached.
pub proof fn lemma_unreachable_iff(
    stops: Seq<Stop>,
    routes: Seq<ScheduledRoute>,
    departureStopId: usize,
    departureTime: u64,
    targetStopId: usize,
    maxTransfer: usize,
)
    requires
        (departureStopId as int) < stops.len(),
        (targetStopId as int) < stops.len(),
    ensures
        raptor_spec(stops, routes, departureStopId, departureTime, targetStopId, maxTransfer)
            == Err::<Seq<TripOfJourney>, RaptorError>(RaptorError::UnreachableTarget)
            <==> run_rounds(
            stops,
            routes,
            targetStopId as int,
            maxTransfer as int + 1,
            init_state(stops, maxTransfer as int + 1, departureStopId, departureTime),
            1,
            maxTransfer as int,
        ).best[targetStopId as int] is Infinite,
{
    let stF = run_rounds(
        stops,
        routes,
        targetStopId as int,
        maxTransfer as int + 1,
        init_state(stops, maxTransfer as int + 1, departureStopId, departureTime),
        1,
        maxTransfer as int,
    );
    if !(stF.best[targetStopId as int] is Infinite) {
        lemma_rebuild_errors(stF.best, targetStopId as int, stops.len());
    }
}

/// Reconstruction consistency: a rebuilt journey is non-empty, starts with
/// the departure marker, ends by alighting at the stop it was rebuilt
/// from, and each later segment boards exactly where the previous one
/// alighted. Its length is at most one segment per unit of fuel, plus the
/// marker.
#[verifier::rlimit(100)]
pub proof fn lemma_rebuild_chain(best: Seq<Label>, current: int, fuel: nat)
    requires
        rebuild(best, current, fuel) is Ok,
        current <= usize::MAX,
    ensures
        ({
            let j = rebuild(best, current, fuel)->Ok_0;
            &&& j.len() >= 1
            &&& j.len() <= fuel + 1
            &&& j[0].tripType is Departure
            &&& j[0].departureStopId == j[0].arrivalStopId
            &&& j[j.len() - 1].arrivalStopId == current
            &&& (j[j.len() - 1].arrivalTime as int) == best[current].time()
            &&& forall|i: int|
                1 <= i < j.len() ==> (#[trigger] j[i]).departureStopId == j[i - 1].arrivalStopId
        }),
    decreases fuel,
{
    let r = rebuild(best, current, fuel);
    assert(0 <= current < best.len());
    match best[current] {
        Label::ScheduledRoute { arrivalTime, departureTime, route, boardingStop } => {
            let seg = TripOfJourney {
                tripType: TripType::ScheduledRoute,
                departureStopId: boardingStop,
                arrivalStopId: current as usize,
                routeId: route,
                arrivalTime,
                departureTime,
            };
            assert(fuel > 0);
            let pre = rebuild(best, boardingStop as int, (fuel - 1) as nat);
            assert(pre is Ok);
            lemma_rebuild_chain(best, boardingStop as int, (fuel - 1) as nat);
            let jp = pre->Ok_0;
            let j = r->Ok_0;
            assert(j == jp.push(seg));
            assert(j.len() == jp.len() + 1);
            assert(j[j.len() - 1] == seg);
            assert forall|i: int|
                1 <= i < j.len() implies (#[trigger] j[i]).departureStopId == j[i
                - 1].arrivalStopId by {
                if i < j.len() - 1 {
                    assert(j[i] == jp[i]);
                    assert(j[i - 1] == jp[i - 1]);
                } else {
                    assert(j[i] == seg);
                    assert(j[i - 1] == jp[jp.len() - 1]);
                    assert(jp[jp.len() - 1].arrivalStopId == boardingStop);
                }
            }
        },
        Label::NonScheduledRoute { arrivalTime, route, boardingStop } => {
            let seg = TripOfJourney {
                tripType: TripType::NonScheduledRoute,
                departureStopId: boardingStop,
                arrivalStopId: current as usize,
                routeId: route,
                arrivalTime,
                departureTime: arrivalTime,
            };
            assert(fuel > 0);
            let pre = rebuild(best, boardingStop as int, (fuel - 1) as nat);
            assert(pre is Ok);
            lemma_rebuild_chain(best, boardingStop as int, (fuel - 1) as nat);
            let jp = pre->Ok_0;
            let j = r->Ok_0;
            assert(j == jp.push(seg));
            assert(j.len() == jp.len() + 1);
            assert(j[j.len() - 1] == seg);
            assert forall|i: int|
                1 <= i < j.len() implies (#[trigger] j[i]).departureStopId == j[i
                - 1].arrivalStopId by {
                if i < j.len() - 1 {
                    assert(j[i] == jp[i]);
                    assert(j[i - 1] == jp[i - 1]);
                } else {
                    assert(j[i] == seg);
                    assert(j[i - 1] == jp[jp.len() - 1]);
                    assert(jp[jp.len() - 1].arrivalStopId == boardingStop);
                }
            }
        },
        _ => {},
    }
}

/// Reconstruction consistency at the query's answer: a returned journey
/// chains from the departure marker to the target stop.
#[verifier::rlimit(50)]
pub proof fn lemma_journey_consistent(best: Seq<Label>, target: int, fuel: nat)
    requires
        journey_spec(best, target, fuel) is Ok,
        0 <= target <= usize::MAX,
    ensures
        ({
            let j = journey_spec(best, target, fuel)->Ok_0;
            &&& j.len() >= 1
            &&& j[0].tripType is Departure
            &&& j[j.len() - 1].arrivalStopId == target
            &&& (j[j.len() - 1].arrivalTime as int) == best[target].time()
            &&& forall|i: int|
                1 <= i < j.len() ==> (#[trigger] j[i]).departureStopId == j[i - 1].arrivalStopId
        }),
{
    lemma_rebuild_chain(best, target, fuel);
}

} // verus!
