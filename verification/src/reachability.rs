//! Edge-path reachability, and the proof that the scan only ever labels
//! reachable stops: a stop the dataset's edges cannot reach from the
//! departure within the round budget is never labelled, so the query
//! reports it unreachable.
#![allow(non_snake_case)]

use vstd::prelude::*;

use crate::laws::{lemma_mark_routes_valid, lemma_relax_mono, lemma_scan_marked_mono, shape_ok};
use crate::raptor_algorithm::{raptor_spec, RaptorError};
use crate::route_scanner::{entry_ok_opt, valid_marked};
use crate::route_structs::{
    lemma_flat_index, lemma_valid_dataset_routes_fit, routes_fit, valid_dataset,
    MarkedScheduledRoute, ScheduledRoute, Stop, TripOfJourney,
};
use crate::scan_model::{
    infinity, init_state, lab, lemma_sum_round_nonneg, lemma_sum_round_update, mark_routes_spec,
    min_int, relax_all, relax_edges_left, run_round, run_rounds, scan_marked, scan_positions,
    scan_route_spec, scan_write, sum_round, Label, ScanState,
};

verus! {

/// Some transfer edge leaves stop `a` for stop `b`.
pub open spec fn direct_transfer(stops: Seq<Stop>, a: int, b: int) -> bool {
    exists|j: int|
        0 <= j < stops[a].nonScheduledRoutes@.len() && (#[trigger] stops[a].nonScheduledRoutes@[j]).targetStop
            == b
}

/// Some scheduled route serves stop `a` and, later on its pattern, stop
/// `b`.
pub open spec fn direct_scheduled(routes: Seq<ScheduledRoute>, a: int, b: int) -> bool {
    exists|r: int, pa: int, pb: int|
        #![trigger routes[r].stopsId@[pa], routes[r].stopsId@[pb]]
        0 <= r < routes.len() && 0 <= pa < pb < routes[r].stopsId@.len()
            && routes[r].stopsId@[pa] == a && routes[r].stopsId@[pb] == b
}

/// One step of an itinerary path: a scheduled ride or a transfer edge.
pub open spec fn step_ok(
    stops: Seq<Stop>,
    routes: Seq<ScheduledRoute>,
    a: usize,
    b: usize,
    ride: bool,
) -> bool {
    if ride {
        direct_scheduled(routes, a as int, b as int)
    } else {
        direct_transfer(stops, a as int, b as int)
    }
}

/// `path` walks the dataset's edges, `rides` saying which steps board a
/// scheduled route.
pub open spec fn is_path(
    stops: Seq<Stop>,
    routes: Seq<ScheduledRoute>,
    path: Seq<usize>,
    rides: Seq<bool>,
) -> bool {
    &&& path.len() == rides.len() + 1
    &&& forall|i: int|
        0 <= i < rides.len() ==> ((#[trigger] path[i]) as int) < stops.len() && step_ok(
            stops,
            routes,
            path[i],
            path[i + 1],
            rides[i],
        )
}

/// How many steps of the path ride a scheduled route.
pub open spec fn count_true(rides: Seq<bool>) -> nat
    decreases rides.len(),
{
    if rides.len() == 0 {
        0
    } else {
        count_true(rides.drop_last()) + if rides.last() {
            1nat
        } else {
            0nat
        }
    }
}

/// Stop `s` can be reached from `dep` along the dataset's edges using at
/// most `k` scheduled rides (transfers are free).
pub open spec fn reachable_within(
    stops: Seq<Stop>,
    routes: Seq<ScheduledRoute>,
    dep: int,
    s: int,
    k: nat,
) -> bool {
    exists|path: Seq<usize>, rides: Seq<bool>|
        #![trigger is_path(stops, routes, path, rides)]
        is_path(stops, routes, path, rides) && path.len() >= 1 && (path[0] as int) == dep && (path[
            path.len() - 1
        ] as int) == s && count_true(rides) <= k
}

/// The departure reaches itself with no steps at all.
pub proof fn lemma_reach_refl(
    stops: Seq<Stop>,
    routes: Seq<ScheduledRoute>,
    dep: usize,
    k: nat,
)
    ensures
        reachable_within(stops, routes, dep as int, dep as int, k),
{
    let path = seq![dep];
    let rides = Seq::<bool>::empty();
    assert(is_path(stops, routes, path, rides));
    assert(count_true(rides) == 0);
}

/// A reachable stop stays reachable under a looser ride budget.
pub proof fn lemma_reach_mono(
    stops: Seq<Stop>,
    routes: Seq<ScheduledRoute>,
    dep: int,
    s: int,
    k1: nat,
    k2: nat,
)
    requires
        reachable_within(stops, routes, dep, s, k1),
        k1 <= k2,
    ensures
        reachable_within(stops, routes, dep, s, k2),
{
    let (path, rides) = choose|path: Seq<usize>, rides: Seq<bool>|
        #![trigger is_path(stops, routes, path, rides)]
        is_path(stops, routes, path, rides) && path.len() >= 1 && (path[0] as int) == dep && (path[
            path.len() - 1
        ] as int) == s && count_true(rides) <= k1;
    assert(is_path(stops, routes, path, rides) && count_true(rides) <= k2);
}

/// Appending one step to a path keeps it a path, and counts one more ride
/// exactly when the step rides.
proof fn lemma_path_push(
    stops: Seq<Stop>,
    routes: Seq<ScheduledRoute>,
    path: Seq<usize>,
    rides: Seq<bool>,
    next: usize,
    ride: bool,
)
    requires
        is_path(stops, routes, path, rides),
        path.len() >= 1,
        ((path[path.len() - 1]) as int) < stops.len(),
        step_ok(stops, routes, path[path.len() - 1], next, ride),
    ensures
        is_path(stops, routes, path.push(next), rides.push(ride)),
        count_true(rides.push(ride)) == count_true(rides) + if ride {
            1nat
        } else {
            0nat
        },
{
    let path2 = path.push(next);
    let rides2 = rides.push(ride);
    assert forall|i: int|
        0 <= i < rides2.len() implies ((#[trigger] path2[i]) as int) < stops.len() && step_ok(
        stops,
        routes,
        path2[i],
        path2[i + 1],
        rides2[i],
    ) by {
        if i < rides.len() {
            assert(path2[i] == path[i]);
            assert(path2[i + 1] == path[i + 1]);
            assert(rides2[i] == rides[i]);
        } else {
            assert(path2[i] == path[path.len() - 1]);
            assert(path2[i + 1] == next);
        }
    }
    assert(rides2.drop_last() =~= rides);
}

/// A transfer edge extends reachability without spending a ride.
pub proof fn lemma_reach_transfer(
    stops: Seq<Stop>,
    routes: Seq<ScheduledRoute>,
    dep: int,
    c: int,
    s: int,
    k: nat,
)
    requires
        reachable_within(stops, routes, dep, c, k),
        0 <= c < stops.len(),
        0 <= s,
        s <= usize::MAX,
        direct_transfer(stops, c, s),
    ensures
        reachable_within(stops, routes, dep, s, k),
{
    let (path, rides) = choose|path: Seq<usize>, rides: Seq<bool>|
        #![trigger is_path(stops, routes, path, rides)]
        is_path(stops, routes, path, rides) && path.len() >= 1 && (path[0] as int) == dep && (path[
            path.len() - 1
        ] as int) == c && count_true(rides) <= k;
    lemma_path_push(stops, routes, path, rides, s as usize, false);
    let path2 = path.push(s as usize);
    let rides2 = rides.push(false);
    assert(is_path(stops, routes, path2, rides2) && path2.len() >= 1 && (path2[0] as int) == dep
        && (path2[path2.len() - 1] as int) == s && count_true(rides2) <= k);
}

/// A scheduled connection extends reachability at the cost of one ride.
pub proof fn lemma_reach_ride(
    stops: Seq<Stop>,
    routes: Seq<ScheduledRoute>,
    dep: int,
    c: int,
    s: int,
    k: nat,
)
    requires
        reachable_within(stops, routes, dep, c, k),
        0 <= c < stops.len(),
        0 <= s,
        s <= usize::MAX,
        direct_scheduled(routes, c, s),
    ensures
        reachable_within(stops, routes, dep, s, (k + 1) as nat),
{
    let (path, rides) = choose|path: Seq<usize>, rides: Seq<bool>|
        #![trigger is_path(stops, routes, path, rides)]
        is_path(stops, routes, path, rides) && path.len() >= 1 && (path[0] as int) == dep && (path[
            path.len() - 1
        ] as int) == c && count_true(rides) <= k;
    lemma_path_push(stops, routes, path, rides, s as usize, true);
    let path2 = path.push(s as usize);
    let rides2 = rides.push(true);
    assert(is_path(stops, routes, path2, rides2) && path2.len() >= 1 && (path2[0] as int) == dep
        && (path2[path2.len() - 1] as int) == s && count_true(rides2) <= k + 1);
}

/// Two slots of the flattened label table coincide only for the same stop
/// and round.
pub proof fn lemma_slot_unique(s1: int, r1: int, s2: int, r2: int, R: int)
    by (nonlinear_arith)
    requires
        0 <= r1 < R,
        0 <= r2 < R,
        s1 * R + r1 == s2 * R + r2,
    ensures
        s1 == s2,
        r1 == r2,
{
}

/// The scan has labelled only reachable stops: any finite round-`r` label
/// of a state that has completed rounds up to `k` belongs to a stop
/// reachable within `r` rides, and any finite best label to one reachable
/// within `k` rides.
pub open spec fn labels_sound(
    stops: Seq<Stop>,
    routes: Seq<ScheduledRoute>,
    dep: int,
    R: int,
    k: int,
    st: ScanState,
) -> bool {
    &&& forall|s: int, r: int|
        0 <= s < stops.len() && 0 <= r < R && !((#[trigger] lab(st, R, s, r)) is Infinite) ==> r
            <= k && reachable_within(stops, routes, dep, s, r as nat)
    &&& forall|s: int|
        0 <= s < stops.len() && !((#[trigger] st.best[s]) is Infinite) ==> reachable_within(
            stops,
            routes,
            dep,
            s,
            k as nat,
        )
}

/// Soundness is preserved by counting more completed rounds.
pub proof fn lemma_labels_sound_weaken(
    stops: Seq<Stop>,
    routes: Seq<ScheduledRoute>,
    dep: int,
    R: int,
    k1: int,
    k2: int,
    st: ScanState,
)
    requires
        labels_sound(stops, routes, dep, R, k1, st),
        0 <= k1 <= k2,
    ensures
        labels_sound(stops, routes, dep, R, k2, st),
{
    assert forall|s: int|
        0 <= s < stops.len() && !((#[trigger] st.best[s]) is Infinite) implies reachable_within(
        stops,
        routes,
        dep,
        s,
        k2 as nat,
    ) by {
        lemma_reach_mono(stops, routes, dep, s, k1 as nat, k2 as nat);
    }
}

/// Transfer relaxation keeps the scan sound: every label it writes comes
/// from a finite label over one transfer edge.
proof fn lemma_relax_sound(
    stops: Seq<Stop>,
    routes: Seq<ScheduledRoute>,
    dep: int,
    R: int,
    k: int,
    st: ScanState,
    i: int,
    j: int,
)
    requires
        R >= 1,
        0 <= k < R,
        shape_ok(stops.len() as int, R, st),
        labels_sound(stops, routes, dep, R, k, st),
    ensures
        labels_sound(stops, routes, dep, R, k, relax_all(stops, R, k, st, i, j)),
    decreases
            sum_round(st.labels, R, k, stops.len() as int),
            st.queue.len() - i,
            relax_edges_left(stops, st, i, j),
{
    let n = stops.len() as int;
    if !(i < 0 || i >= st.queue.len()) {
        let s = st.queue[i] as int;
        if !(s < stops.len()) {
            lemma_relax_sound(stops, routes, dep, R, k, st, i + 1, 0);
        } else if j < 0 || j >= stops[s].nonScheduledRoutes@.len() {
            lemma_relax_sound(stops, routes, dep, R, k, st, i + 1, 0);
        } else {
            let e = stops[s].nonScheduledRoutes@[j];
            let tgt = e.targetStop as int;
            let cand = lab(st, R, s, k).time() + e.transferTime;
            if tgt < stops.len() && cand <= u64::MAX && cand < lab(st, R, tgt, k).time() {
                let newl = Label::NonScheduledRoute {
                    arrivalTime: cand as u64,
                    route: e.id,
                    boardingStop: st.queue[i],
                };
                let st2 = ScanState {
                    labels: st.labels.update(tgt * R + k, newl),
                    best: if cand < st.best[tgt].time() {
                        st.best.update(tgt, newl)
                    } else {
                        st.best
                    },
                    queue: st.queue.push(e.targetStop),
                };
                lemma_flat_index(n, R, tgt, k);
                lemma_sum_round_update(st.labels, R, k, n, tgt, newl);
                lemma_sum_round_nonneg(st2.labels, R, k, n);
                assert(lab(st, R, s, k).time() <= u64::MAX);
                assert(!(lab(st, R, s, k) is Infinite));
                assert(reachable_within(stops, routes, dep, s, k as nat));
                assert(direct_transfer(stops, s, tgt)) by {
                    assert((#[trigger] stops[s].nonScheduledRoutes@[j]).targetStop == e.targetStop);
                }
                lemma_reach_transfer(stops, routes, dep, s, tgt, k as nat);
                assert forall|s2: int, r2: int|
                    0 <= s2 < stops.len() && 0 <= r2 < R && !((#[trigger] lab(
                        st2,
                        R,
                        s2,
                        r2,
                    )) is Infinite) implies r2 <= k && reachable_within(
                    stops,
                    routes,
                    dep,
                    s2,
                    r2 as nat,
                ) by {
                    lemma_flat_index(n, R, s2, r2);
                    if s2 == tgt && r2 == k {
                    } else {
                        if s2 * R + r2 == tgt * R + k {
                            lemma_slot_unique(s2, r2, tgt, k, R);
                        }
                        assert(lab(st2, R, s2, r2) == lab(st, R, s2, r2));
                        assert(!((lab(st, R, s2, r2)) is Infinite));
                    }
                }
                assert forall|s2: int|
                    0 <= s2 < stops.len() && !((#[trigger] st2.best[s2]) is Infinite) implies
                    reachable_within(stops, routes, dep, s2, k as nat) by {
                    if s2 != tgt {
                        assert(st2.best[s2] == st.best[s2]);
                    } else {
                        if !(st2.best[s2] == newl) {
                            assert(st2.best[s2] == st.best[s2]);
                        }
                    }
                }
                lemma_relax_sound(stops, routes, dep, R, k, st2, i, j + 1);
                assert(relax_all(stops, R, k, st, i, j) == relax_all(stops, R, k, st2, i, j + 1));
            } else {
                lemma_relax_sound(stops, routes, dep, R, k, st, i, j + 1);
            }
        }
    }
}

/// While a marked route is walked, the held trip is always justified by
/// some already-visited pattern position whose stop a prior round reached.
pub open spec fn cur_sound(
    stops: Seq<Stop>,
    routes: Seq<ScheduledRoute>,
    dep: int,
    k: int,
    route: ScheduledRoute,
    p: int,
    cur: Option<usize>,
) -> bool {
    cur is Some ==> exists|pc: int|
        #![trigger route.stopsId@[pc]]
        0 <= pc <= p && pc < route.stopsId@.len() && reachable_within(
            stops,
            routes,
            dep,
            route.stopsId@[pc] as int,
            (k - 1) as nat,
        )
}

/// The walk of one marked route keeps the scan sound: every label it
/// writes boards a trip some prior round could reach.
proof fn lemma_scan_positions_sound(
    stops: Seq<Stop>,
    routes: Seq<ScheduledRoute>,
    dep: int,
    route: ScheduledRoute,
    target: int,
    prior: Seq<Label>,
    R: int,
    k: int,
    m: MarkedScheduledRoute,
    st: ScanState,
    p: int,
    cur: Option<usize>,
)
    requires
        R >= 1,
        1 <= k < R,
        shape_ok(stops.len() as int, R, st),
        (m.route as int) < routes.len(),
        route == routes[m.route as int],
        route.wf(),
        forall|q: int|
            0 <= q < route.stopsId@.len() ==> ((#[trigger] route.stopsId@[q]) as int) < stops.len(),
        prior.len() == stops.len(),
        forall|s: int|
            0 <= s < stops.len() && !((#[trigger] prior[s]) is Infinite) ==> reachable_within(
                stops,
                routes,
                dep,
                s,
                (k - 1) as nat,
            ),
        labels_sound(stops, routes, dep, R, k, st),
        cur_sound(stops, routes, dep, k, route, p, cur),
    ensures
        labels_sound(
            stops,
            routes,
            dep,
            R,
            k,
            scan_positions(route, target, prior, R, k, m, st, p, cur),
        ),
    decreases route.stopsCount - p,
{
    let n = stops.len() as int;
    if !(p < 0 || p >= route.stopsCount) {
        let sid = route.stopsId@[p] as int;
        let st1 = if cur is Some {
            let arr = route.trip_time(cur->0 as int, p);
            if (arr as int) < min_int(st.best[target].time(), lab(st, R, sid, k).time()) {
                let newl = Label::ScheduledRoute {
                    arrivalTime: arr,
                    departureTime: route.trip_time(
                        cur->0 as int,
                        m.earliestStopEquivalentIndex as int,
                    ),
                    route: m.route,
                    boardingStop: m.earliestStop,
                };
                let w = scan_write(st, R, k, sid, newl);
                let pc = choose|pc: int|
                    #![trigger route.stopsId@[pc]]
                    0 <= pc <= p && pc < route.stopsId@.len() && reachable_within(
                        stops,
                        routes,
                        dep,
                        route.stopsId@[pc] as int,
                        (k - 1) as nat,
                    );
                if pc == p {
                    lemma_reach_mono(stops, routes, dep, sid, (k - 1) as nat, k as nat);
                } else {
                    assert(direct_scheduled(routes, route.stopsId@[pc] as int, sid)) by {
                        assert(routes[m.route as int].stopsId@[pc] == route.stopsId@[pc]);
                        assert(routes[m.route as int].stopsId@[p] == route.stopsId@[p]);
                    }
                    lemma_reach_ride(
                        stops,
                        routes,
                        dep,
                        route.stopsId@[pc] as int,
                        sid,
                        (k - 1) as nat,
                    );
                    assert(((k - 1) as nat) + 1 == k as nat);
                }
                assert(reachable_within(stops, routes, dep, sid, k as nat));
                lemma_flat_index(n, R, sid, k);
                assert forall|s2: int, r2: int|
                    0 <= s2 < stops.len() && 0 <= r2 < R && !((#[trigger] lab(
                        w,
                        R,
                        s2,
                        r2,
                    )) is Infinite) implies r2 <= k && reachable_within(
                    stops,
                    routes,
                    dep,
                    s2,
                    r2 as nat,
                ) by {
                    lemma_flat_index(n, R, s2, r2);
                    if s2 == sid && r2 == k {
                    } else {
                        if s2 * R + r2 == sid * R + k {
                            lemma_slot_unique(s2, r2, sid, k, R);
                        }
                        assert(lab(w, R, s2, r2) == lab(st, R, s2, r2));
                        assert(!((lab(st, R, s2, r2)) is Infinite));
                    }
                }
                assert forall|s2: int|
                    0 <= s2 < stops.len() && !((#[trigger] w.best[s2]) is Infinite) implies
                    reachable_within(stops, routes, dep, s2, k as nat) by {
                    if s2 != sid {
                        assert(w.best[s2] == st.best[s2]);
                    } else {
                        if !(w.best[s2] == newl) {
                            assert(w.best[s2] == st.best[s2]);
                        }
                    }
                }
                w
            } else {
                st
            }
        } else {
            st
        };
        let cur_time = if cur is Some {
            route.trip_time(cur->0 as int, p) as int
        } else {
            infinity()
        };
        let cur2 = if prior[sid].time() < cur_time {
            match route.earliest_trip(p, prior[sid].finite_time()) {
                Some(t2) => Some(t2),
                None => cur,
            }
        } else {
            cur
        };
        assert(cur_sound(stops, routes, dep, k, route, p + 1, cur2)) by {
            if cur2 is Some {
                if prior[sid].time() < cur_time && route.earliest_trip(
                    p,
                    prior[sid].finite_time(),
                ) is Some {
                    assert(prior[sid].time() < infinity());
                    assert(!(prior[sid] is Infinite));
                    assert(reachable_within(stops, routes, dep, route.stopsId@[p] as int, (k
                        - 1) as nat));
                } else {
                    let pc = choose|pc: int|
                        #![trigger route.stopsId@[pc]]
                        0 <= pc <= p && pc < route.stopsId@.len() && reachable_within(
                            stops,
                            routes,
                            dep,
                            route.stopsId@[pc] as int,
                            (k - 1) as nat,
                        );
                    assert(0 <= pc <= p + 1 && pc < route.stopsId@.len() && reachable_within(
                        stops,
                        routes,
                        dep,
                        route.stopsId@[pc] as int,
                        (k - 1) as nat,
                    ));
                }
            }
        }
        lemma_scan_positions_sound(
            stops,
            routes,
            dep,
            route,
            target,
            prior,
            R,
            k,
            m,
            st1,
            p + 1,
            cur2,
        );
    }
}

/// The scan of one marked route keeps the scan sound.
proof fn lemma_scan_route_sound(
    stops: Seq<Stop>,
    routes: Seq<ScheduledRoute>,
    dep: int,
    target: int,
    prior: Seq<Label>,
    R: int,
    k: int,
    m: MarkedScheduledRoute,
    st: ScanState,
)
    requires
        R >= 1,
        1 <= k < R,
        shape_ok(stops.len() as int, R, st),
        routes_fit(routes, stops.len() as int),
        entry_ok_opt(Some(m), stops.len() as int, routes),
        prior.len() == stops.len(),
        forall|s: int|
            0 <= s < stops.len() && !((#[trigger] prior[s]) is Infinite) ==> reachable_within(
                stops,
                routes,
                dep,
                s,
                (k - 1) as nat,
            ),
        labels_sound(stops, routes, dep, R, k, st),
    ensures
        labels_sound(stops, routes, dep, R, k, scan_route_spec(routes, target, prior, R, k, m, st)),
{
    let route = routes[m.route as int];
    let p0 = m.earliestStopEquivalentIndex as int;
    let init = if prior[m.earliestStop as int] is Infinite {
        None
    } else {
        route.earliest_trip(p0, prior[m.earliestStop as int].finite_time())
    };
    assert(cur_sound(stops, routes, dep, k, route, p0, init)) by {
        if init is Some {
            assert(route.stopsId@[p0] == m.earliestStop);
            assert(reachable_within(stops, routes, dep, m.earliestStop as int, (k - 1) as nat));
        }
    }
    lemma_scan_positions_sound(
        stops,
        routes,
        dep,
        route,
        target,
        prior,
        R,
        k,
        m,
        st,
        p0,
        init,
    );
}

/// The scan of every marked route keeps the scan sound.
proof fn lemma_scan_marked_sound(
    stops: Seq<Stop>,
    routes: Seq<ScheduledRoute>,
    dep: int,
    target: int,
    prior: Seq<Label>,
    R: int,
    k: int,
    marked: Seq<Option<MarkedScheduledRoute>>,
    st: ScanState,
    r: int,
)
    requires
        R >= 1,
        1 <= k < R,
        shape_ok(stops.len() as int, R, st),
        routes_fit(routes, stops.len() as int),
        valid_marked(marked, stops.len() as int, routes),
        prior.len() == stops.len(),
        forall|s: int|
            0 <= s < stops.len() && !((#[trigger] prior[s]) is Infinite) ==> reachable_within(
                stops,
                routes,
                dep,
                s,
                (k - 1) as nat,
            ),
        labels_sound(stops, routes, dep, R, k, st),
    ensures
        labels_sound(
            stops,
            routes,
            dep,
            R,
            k,
            scan_marked(routes, target, prior, R, k, marked, st, r),
        ),
    decreases marked.len() - r,
{
    let n = stops.len() as int;
    if !(r < 0 || r >= marked.len()) {
        let st2 = match marked[r] {
            Some(m) => scan_route_spec(routes, target, prior, R, k, m, st),
            None => st,
        };
        match marked[r] {
            Some(m) => {
                assert(entry_ok_opt(marked[r], n, routes));
                lemma_scan_route_sound(stops, routes, dep, target, prior, R, k, m, st);
                let route = routes[m.route as int];
                let p0 = m.earliestStopEquivalentIndex as int;
                let init = if prior[m.earliestStop as int] is Infinite {
                    None
                } else {
                    route.earliest_trip(p0, prior[m.earliestStop as int].finite_time())
                };
                crate::laws::lemma_scan_positions_mono(
                    route,
                    target,
                    prior,
                    R,
                    k,
                    m,
                    st,
                    p0,
                    init,
                    n,
                );
            },
            None => {},
        }
        lemma_scan_marked_sound(stops, routes, dep, target, prior, R, k, marked, st2, r + 1);
    }
}

/// One full round keeps the scan sound, now counting that round done.
proof fn lemma_run_round_sound(
    stops: Seq<Stop>,
    routes: Seq<ScheduledRoute>,
    dep: int,
    target: int,
    R: int,
    st: ScanState,
    k: int,
)
    requires
        R >= 1,
        1 <= k < R,
        valid_dataset(stops, routes),
        shape_ok(stops.len() as int, R, st),
        labels_sound(stops, routes, dep, R, k - 1, st),
    ensures
        labels_sound(stops, routes, dep, R, k, run_round(stops, routes, target, R, st, k)),
{
    let n = stops.len() as int;
    lemma_valid_dataset_routes_fit(stops, routes);
    lemma_mark_routes_valid(stops, routes, st, R, k);
    lemma_labels_sound_weaken(stops, routes, dep, R, k - 1, k, st);
    let marked = mark_routes_spec(stops, routes, st, R, k);
    let st1 = ScanState { labels: st.labels, best: st.best, queue: Seq::empty() };
    assert forall|s: int, r: int|
        0 <= s < stops.len() && 0 <= r < R && !((#[trigger] lab(st1, R, s, r)) is Infinite)
        implies r <= k && reachable_within(stops, routes, dep, s, r as nat) by {
        assert(lab(st1, R, s, r) == lab(st, R, s, r));
    }
    assert(labels_sound(stops, routes, dep, R, k, st1));
    let st2 = scan_marked(routes, target, st.best, R, k, marked, st1, 0);
    lemma_scan_marked_sound(stops, routes, dep, target, st.best, R, k, marked, st1, 0);
    lemma_scan_marked_mono(routes, target, st.best, R, k, marked, st1, 0, n);
    lemma_relax_sound(stops, routes, dep, R, k, st2, 0, 0);
}

/// Any run of rounds keeps the scan sound up to its budget.
proof fn lemma_run_rounds_sound(
    stops: Seq<Stop>,
    routes: Seq<ScheduledRoute>,
    dep: int,
    target: int,
    R: int,
    st: ScanState,
    k: int,
    maxT: int,
)
    requires
        R >= 1,
        1 <= k <= maxT + 1,
        maxT < R,
        valid_dataset(stops, routes),
        shape_ok(stops.len() as int, R, st),
        labels_sound(stops, routes, dep, R, k - 1, st),
    ensures
        labels_sound(
            stops,
            routes,
            dep,
            R,
            maxT,
            run_rounds(stops, routes, target, R, st, k, maxT),
        ),
    decreases maxT - k + 1,
{
    if k > maxT || st.queue.len() == 0 {
        lemma_labels_sound_weaken(stops, routes, dep, R, k - 1, maxT, st);
    } else {
        let st2 = run_round(stops, routes, target, R, st, k);
        lemma_run_round_sound(stops, routes, dep, target, R, st, k);
        crate::laws::lemma_run_round_mono(stops, routes, target, R, st, k);
        lemma_run_rounds_sound(stops, routes, dep, target, R, st2, k + 1, maxT);
    }
}

/// The initialised state is sound: only the departure stop is labelled
/// before round-0 relaxation, and relaxation is sound.
pub proof fn lemma_init_sound(
    stops: Seq<Stop>,
    routes: Seq<ScheduledRoute>,
    R: int,
    depStop: usize,
    depTime: u64,
)
    requires
        R >= 1,
        (depStop as int) < stops.len(),
    ensures
        shape_ok(stops.len() as int, R, init_state(stops, R, depStop, depTime)),
        labels_sound(
            stops,
            routes,
            depStop as int,
            R,
            0,
            init_state(stops, R, depStop, depTime),
        ),
{
    let n = stops.len() as int;
    let dep = depStop as int;
    let base = ScanState {
        labels: Seq::new((n * R) as nat, |idx: int| Label::Infinite).update(
            dep * R,
            Label::DepartureLabel(depTime),
        ),
        best: Seq::new(n as nat, |s: int| Label::Infinite).update(
            dep,
            Label::DepartureLabel(depTime),
        ),
        queue: seq![depStop],
    };
    lemma_flat_index(n, R, dep, 0);
    lemma_reach_refl(stops, routes, depStop, 0);
    assert forall|s: int, r: int|
        0 <= s < stops.len() && 0 <= r < R && !((#[trigger] lab(base, R, s, r)) is Infinite)
        implies r <= 0 && reachable_within(stops, routes, dep, s, r as nat) by {
        lemma_flat_index(n, R, s, r);
        if !(s == dep && r == 0) {
            if s * R + r == dep * R {
                lemma_slot_unique(s, r, dep, 0, R);
            }
            assert(lab(base, R, s, r) == Label::Infinite);
        }
    }
    assert(labels_sound(stops, routes, dep, R, 0, base));
    assert(shape_ok(n, R, base));
    lemma_relax_sound(stops, routes, dep, R, 0, base, 0, 0);
    lemma_relax_mono(stops, R, 0, base, 0, 0);
    assert(init_state(stops, R, depStop, depTime) == relax_all(stops, R, 0, base, 0, 0));
}

/// Unreachable detection: a target that the dataset's edges cannot reach
/// from the departure within `maxTransfer` scheduled rides is reported
/// `UnreachableTarget`, never given a label.
pub proof fn lemma_unreachable_detection(
    stops: Seq<Stop>,
    routes: Seq<ScheduledRoute>,
    departureStopId: usize,
    departureTime: u64,
    targetStopId: usize,
    maxTransfer: usize,
)
    requires
        valid_dataset(stops, routes),
        (departureStopId as int) < stops.len(),
        (targetStopId as int) < stops.len(),
        maxTransfer >= 1,
        !reachable_within(
            stops,
            routes,
            departureStopId as int,
            targetStopId as int,
            maxTransfer as nat,
        ),
    ensures
        raptor_spec(stops, routes, departureStopId, departureTime, targetStopId, maxTransfer)
            == Err::<Seq<TripOfJourney>, RaptorError>(RaptorError::UnreachableTarget),
{
    let n = stops.len() as int;
    let R = maxTransfer as int + 1;
    let dep = departureStopId as int;
    let tgt = targetStopId as int;
    lemma_init_sound(stops, routes, R, departureStopId, departureTime);
    let st0 = init_state(stops, R, departureStopId, departureTime);
    lemma_run_rounds_sound(stops, routes, dep, tgt, R, st0, 1, maxTransfer as int);
    let stF = run_rounds(stops, routes, tgt, R, st0, 1, maxTransfer as int);
    assert(stF.best[tgt] is Infinite);
}

} // verus!
