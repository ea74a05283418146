//! Earliest-arrival public-transit journey search.
//!
//! The search runs a bounded number of rounds, one per allowed transfer:
//! each round marks the scheduled routes touched by the previous round,
//! scans every marked route once, relaxes the outgoing transfer edges of
//! the stops it improved, and stops early when a round improves nothing.
//! A backward walk over the per-stop best labels then yields the journey.
#![allow(non_snake_case)]

pub mod laws;
pub mod raptor;
pub mod raptor_algorithm;
pub mod reachability;
pub mod route_scanner;
pub mod route_structs;
pub mod scan_model;

use vstd::prelude::*;

use crate::route_structs::{
    route_linked, stop_linked, valid_dataset, NonScheduledRoute, ScheduledRoutes, Stops,
};

verus! {

/// Access to the identity every timetable entity carries.
pub trait GetId {
    type Id;

    fn getId(&self) -> Self::Id;
}

/// The shared, read-only dataset a query scans: the stop table, the
/// scheduled-route table, and the transfer edges (also held per stop).
/// Refreshing it means building a complete replacement and swapping it in
/// whole; queries in flight keep their snapshot.
pub struct RaptorDataHolder {
    pub stops: Stops,
    pub scheduledRoutes: ScheduledRoutes,
    pub nonScheduledRoutes: Vec<NonScheduledRoute>,
}

impl Default for RaptorDataHolder {
    /// The empty dataset.
    fn default() -> (r: Self)
        ensures
            r.stops@.len() == 0,
            r.scheduledRoutes@.len() == 0,
            r.nonScheduledRoutes@.len() == 0,
    {
        RaptorDataHolder { stops: Vec::new(), scheduledRoutes: Vec::new(), nonScheduledRoutes: Vec::new() }
    }
}

/// Whether `v` holds `x`.
fn vec_contains(v: &Vec<usize>, x: usize) -> (r: bool)
    ensures
        r == v@.contains(x),
{
    let mut i: usize = 0;
    while i < v.len()
        invariant
            i <= v@.len(),
            forall|j: int| 0 <= j < i ==> v@[j] != x,
        decreases v@.len() - i,
    {
        if v[i] == x {
            proof {
                assert(v@[i as int] == x);
            }
            return true;
        }
        i = i + 1;
    }
    false
}

impl RaptorDataHolder {
    /// Decide whether the dataset is internally consistent: dense ids,
    /// every route well-formed, and stop/route linkage mutual. A query
    /// demands a dataset this check accepts; rejecting one here is the
    /// defect report for a malformed load, not a recoverable condition.
    pub fn validate(&self) -> (r: bool)
        ensures
            r == valid_dataset(self.stops@, self.scheduledRoutes@),
    {
        let stops = &self.stops;
        let routes = &self.scheduledRoutes;
        let n = stops.len();
        let nr = routes.len();

        let mut s: usize = 0;
        while s < n
            invariant
                stops@ == self.stops@,
                routes@ == self.scheduledRoutes@,
                n == stops@.len(),
                nr == routes@.len(),
                s <= n,
                forall|ss: int|
                    0 <= ss < s ==> (#[trigger] stops@[ss]).id == ss && stop_linked(
                        stops@[ss],
                        stops@.len() as int,
                        routes@,
                    ),
            decreases n - s,
        {
            if stops[s].id != s {
                return false;
            }
            let m = stops[s].scheduledRoutes.len();
            let mut j: usize = 0;
            while j < m
                invariant
                    stops@ == self.stops@,
                    routes@ == self.scheduledRoutes@,
                    n == stops@.len(),
                    nr == routes@.len(),
                    s < n,
                    stops@[s as int].id == s,
                    m == stops@[s as int].scheduledRoutes@.len(),
                    j <= m,
                    forall|jj: int|
                        0 <= jj < j ==> ((#[trigger] stops@[s as int].scheduledRoutes@[jj]) as int)
                            < routes@.len() && routes@[stops@[s
                            as int].scheduledRoutes@[jj] as int].stopsId@.contains(stops@[s
                            as int].id),
                decreases m - j,
            {
                let rid = stops[s].scheduledRoutes[j];
                if rid >= nr {
                    return false;
                }
                if !vec_contains(&routes[rid].stopsId, s) {
                    return false;
                }
                j = j + 1;
            }
            let me = stops[s].nonScheduledRoutes.len();
            let mut je: usize = 0;
            while je < me
                invariant
                    stops@ == self.stops@,
                    routes@ == self.scheduledRoutes@,
                    n == stops@.len(),
                    s < n,
                    me == stops@[s as int].nonScheduledRoutes@.len(),
                    je <= me,
                    forall|jj: int|
                        0 <= jj < je ==> (#[trigger] stops@[s
                            as int].nonScheduledRoutes@[jj]).targetStop < stops@.len(),
                decreases me - je,
            {
                if stops[s].nonScheduledRoutes[je].targetStop >= n {
                    return false;
                }
                je = je + 1;
            }
            proof {
                assert(stop_linked(stops@[s as int], stops@.len() as int, routes@));
            }
            s = s + 1;
        }

        let mut r: usize = 0;
        while r < nr
            invariant
                stops@ == self.stops@,
                routes@ == self.scheduledRoutes@,
                n == stops@.len(),
                nr == routes@.len(),
                r <= nr,
                forall|ss: int|
                    0 <= ss < stops@.len() ==> (#[trigger] stops@[ss]).id == ss && stop_linked(
                        stops@[ss],
                        stops@.len() as int,
                        routes@,
                    ),
                forall|rr: int|
                    0 <= rr < r ==> (#[trigger] routes@[rr]).id == rr && routes@[rr].wf()
                        && route_linked(routes@[rr], stops@),
            decreases nr - r,
        {
            if routes[r].id != r {
                return false;
            }
            if routes[r].stopsCount == 0 {
                return false;
            }
            if routes[r].stopsId.len() != routes[r].stopsCount {
                return false;
            }
            match routes[r].tripsCount.checked_mul(routes[r].stopsCount) {
                Some(total) => {
                    if routes[r].stopsTimes.len() != total {
                        return false;
                    }
                },
                None => {
                    let oversize = routes[r].stopsTimes.len();
                    proof {
                        assert(oversize < routes@[r as int].tripsCount * routes@[r
                            as int].stopsCount);
                    }
                    return false;
                },
            }
            let sc = routes[r].stopsCount;
            let tc = routes[r].tripsCount;

            let mut p1: usize = 0;
            while p1 < sc
                invariant
                    stops@ == self.stops@,
                    routes@ == self.scheduledRoutes@,
                    nr == routes@.len(),
                    r < nr,
                    sc == routes@[r as int].stopsCount,
                    sc == routes@[r as int].stopsId@.len(),
                    p1 <= sc,
                    forall|q1: int, q2: int|
                        0 <= q1 < p1 && q1 < q2 < sc ==> routes@[r as int].stopsId@[q1] != routes@[r
                            as int].stopsId@[q2],
                decreases sc - p1,
            {
                let mut p2: usize = p1 + 1;
                while p2 < sc
                    invariant
                        stops@ == self.stops@,
                        routes@ == self.scheduledRoutes@,
                        nr == routes@.len(),
                        r < nr,
                        sc == routes@[r as int].stopsCount,
                        sc == routes@[r as int].stopsId@.len(),
                        p1 < sc,
                        p1 < p2,
                        forall|q2: int|
                            p1 < q2 < p2 ==> routes@[r as int].stopsId@[p1 as int] != routes@[r
                                as int].stopsId@[q2],
                    decreases sc - p2,
                {
                    if routes[r].stopsId[p1] == routes[r].stopsId[p2] {
                        return false;
                    }
                    p2 = p2 + 1;
                }
                p1 = p1 + 1;
            }

            let mut t: usize = 0;
            while t < tc
                invariant
                    stops@ == self.stops@,
                    routes@ == self.scheduledRoutes@,
                    nr == routes@.len(),
                    r < nr,
                    sc == routes@[r as int].stopsCount,
                    tc == routes@[r as int].tripsCount,
                    routes@[r as int].stopsTimes@.len() == tc * sc,
                    sc >= 1,
                    t <= tc,
                    forall|tq: int, q: int|
                        0 <= tq < t && 0 <= q < sc - 1 ==> #[trigger] routes@[r as int].trip_time(
                            tq,
                            q,
                        ) <= routes@[r as int].trip_time(tq, q + 1),
                decreases tc - t,
            {
                let mut p: usize = 0;
                while p + 1 < sc
                    invariant
                        stops@ == self.stops@,
                        routes@ == self.scheduledRoutes@,
                        nr == routes@.len(),
                        r < nr,
                        sc == routes@[r as int].stopsCount,
                        tc == routes@[r as int].tripsCount,
                        routes@[r as int].stopsTimes@.len() == tc * sc,
                        sc >= 1,
                        t < tc,
                        p < sc,
                        forall|q: int|
                            0 <= q < p ==> #[trigger] routes@[r as int].trip_time(t as int, q)
                                <= routes@[r as int].trip_time(t as int, q + 1),
                    decreases sc - p,
                {
                    if routes[r].getStopTimeOnRaw(t, p) > routes[r].getStopTimeOnRaw(t, p + 1) {
                        return false;
                    }
                    p = p + 1;
                }
                t = t + 1;
            }

            let mut p: usize = 0;
            while p < sc
                invariant
                    stops@ == self.stops@,
                    routes@ == self.scheduledRoutes@,
                    nr == routes@.len(),
                    r < nr,
                    sc == routes@[r as int].stopsCount,
                    tc == routes@[r as int].tripsCount,
                    routes@[r as int].stopsTimes@.len() == tc * sc,
                    sc >= 1,
                    p <= sc,
                    forall|q: int, tq: int|
                        0 <= q < p && 0 <= tq < tc - 1 ==> #[trigger] routes@[r as int].trip_time(
                            tq,
                            q,
                        ) <= routes@[r as int].trip_time(tq + 1, q),
                decreases sc - p,
            {
                let mut t2: usize = 0;
                while t2 + 1 < tc
                    invariant
                        stops@ == self.stops@,
                        routes@ == self.scheduledRoutes@,
                        nr == routes@.len(),
                        r < nr,
                        sc == routes@[r as int].stopsCount,
                        tc == routes@[r as int].tripsCount,
                        routes@[r as int].stopsTimes@.len() == tc * sc,
                        sc >= 1,
                        p < sc,
                        t2 < tc || t2 == 0,
                        forall|tq: int|
                            0 <= tq < t2 ==> #[trigger] routes@[r as int].trip_time(tq, p as int)
                                <= routes@[r as int].trip_time(tq + 1, p as int),
                    decreases tc - t2,
                {
                    if routes[r].getStopTimeOnRaw(t2, p) > routes[r].getStopTimeOnRaw(t2 + 1, p) {
                        return false;
                    }
                    t2 = t2 + 1;
                }
                p = p + 1;
            }

            let mut pl: usize = 0;
            while pl < sc
                invariant
                    stops@ == self.stops@,
                    routes@ == self.scheduledRoutes@,
                    n == stops@.len(),
                    nr == routes@.len(),
                    r < nr,
                    routes@[r as int].id == r,
                    sc == routes@[r as int].stopsCount,
                    sc == routes@[r as int].stopsId@.len(),
                    pl <= sc,
                    forall|q: int|
                        0 <= q < pl ==> ((#[trigger] routes@[r as int].stopsId@[q]) as int)
                            < stops@.len() && stops@[routes@[r
                            as int].stopsId@[q] as int].scheduledRoutes@.contains(routes@[r
                            as int].id),
                decreases sc - pl,
            {
                let sid = routes[r].stopsId[pl];
                if sid >= n {
                    return false;
                }
                if !vec_contains(&stops[sid].scheduledRoutes, r) {
                    return false;
                }
                pl = pl + 1;
            }

            proof {
                let rt = routes@[r as int];
                assert forall|t1: int, q1: int, q2: int|
                    0 <= t1 < rt.tripsCount && 0 <= q1 <= q2 < rt.stopsCount implies rt.trip_time(
                    t1,
                    q1,
                ) <= rt.trip_time(t1, q2) by {
                    rt.lemma_trip_mono_from_adjacent(t1, q1, q2);
                }
                assert forall|t1: int, t2: int, q: int|
                    0 <= t1 <= t2 < rt.tripsCount && 0 <= q < rt.stopsCount implies rt.trip_time(
                    t1,
                    q,
                ) <= rt.trip_time(t2, q) by {
                    rt.lemma_trips_mono_from_adjacent(q, t1, t2);
                }
                assert(rt.wf());
                assert(route_linked(rt, stops@));
            }
            r = r + 1;
        }
        true
    }
}

} // verus!
