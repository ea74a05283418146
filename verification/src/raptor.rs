//! A compact route representation queried directly by trip tables: the
//! same flattened `tripsCount x stopsCount` layout as `ScheduledRoute`,
//! with a search that takes a per-position arrival timetable and finds the
//! first trip, in departure order, that can be caught at any position.
#![allow(non_snake_case)]

use vstd::prelude::*;

verus! {

/// A route with a flattened per-trip, per-position time table.
pub struct Route {
    pub id: usize,
    pub tripsCount: usize,
    /// Number of stops on the route.
    pub stopsCount: usize,
    pub stopsTimes: Vec<u64>,
}

impl Route {
    /// Trip `t`'s time at position `p`, read from the flattened table.
    pub open spec fn trip_time(self, t: int, p: int) -> u64 {
        self.stopsTimes@[t * (self.stopsCount as int) + p]
    }

    /// Table sized to the trip count and pattern width.
    pub open spec fn wf(self) -> bool {
        &&& self.stopsCount >= 1
        &&& self.stopsTimes@.len() == self.tripsCount * self.stopsCount
    }

    /// The first `(trip, position)` pair, in trip-then-position order from
    /// `(t, p)`, where the trip's time is no earlier than the rider's
    /// arrival at that position.
    pub open spec fn reachable_from(self, tt: Seq<u64>, t: int, p: int) -> Option<(usize, usize)>
        decreases self.tripsCount - t, self.stopsCount - p,
    {
        if t < 0 || t >= self.tripsCount {
            None
        } else if p < 0 || p >= self.stopsCount {
            self.reachable_from(tt, t + 1, 0)
        } else if self.trip_time(t, p) >= tt[p] {
            Some((t as usize, p as usize))
        } else {
            self.reachable_from(tt, t, p + 1)
        }
    }

    /// Scan the trips in departure order; within each trip scan the
    /// positions forward; return the first position at which the trip can
    /// be caught given the rider's per-position arrival times.
    pub fn findEarliestStopReachable(&self, stopTimetable: &Vec<u64>) -> (r: Option<(usize, usize)>)
        requires
            self.wf(),
            stopTimetable@.len() == self.stopsCount,
        ensures
            r == self.reachable_from(stopTimetable@, 0, 0),
    {
        let mut t: usize = 0;
        while t < self.tripsCount
            invariant
                self.wf(),
                stopTimetable@.len() == self.stopsCount,
                t <= self.tripsCount,
                self.reachable_from(stopTimetable@, 0, 0) == self.reachable_from(
                    stopTimetable@,
                    t as int,
                    0,
                ),
            decreases self.tripsCount - t,
        {
            let mut p: usize = 0;
            while p < self.stopsCount
                invariant
                    self.wf(),
                    stopTimetable@.len() == self.stopsCount,
                    t < self.tripsCount,
                    p <= self.stopsCount,
                    self.reachable_from(stopTimetable@, 0, 0) == self.reachable_from(
                        stopTimetable@,
                        t as int,
                        p as int,
                    ),
                decreases self.stopsCount - p,
            {
                if self.getStopTime(t, p) >= stopTimetable[p] {
                    return Some((t, p));
                }
                p = p + 1;
            }
            t = t + 1;
        }
        None
    }

    /// Trip `tripId`'s full timetable, copied out of the flattened table.
    pub fn getTripAt(&self, tripId: usize) -> (r: Vec<u64>)
        requires
            self.wf(),
            tripId < self.tripsCount,
        ensures
            r@.len() == self.stopsCount,
            forall|p: int| 0 <= p < self.stopsCount ==> r@[p] == self.trip_time(tripId as int, p),
    {
        let mut out: Vec<u64> = Vec::new();
        let mut p: usize = 0;
        while p < self.stopsCount
            invariant
                p <= self.stopsCount,
                self.wf(),
                tripId < self.tripsCount,
                out@.len() == p,
                forall|q: int| 0 <= q < p ==> out@[q] == self.trip_time(tripId as int, q),
            decreases self.stopsCount - p,
        {
            out.push(self.getStopTime(tripId, p));
            p = p + 1;
        }
        out
    }

    /// Trip `tripId`'s time at position `p`.
    fn getStopTime(&self, tripId: usize, p: usize) -> (r: u64)
        requires
            self.wf(),
            tripId < self.tripsCount,
            p < self.stopsCount,
        ensures
            r == self.trip_time(tripId as int, p as int),
    {
        let total = self.stopsTimes.len();
        proof {
            crate::route_structs::lemma_flat_index(
                self.tripsCount as int,
                self.stopsCount as int,
                tripId as int,
                p as int,
            );
            assert((tripId as int) * (self.stopsCount as int) + (p as int) < total);
        }
        self.stopsTimes[tripId * self.stopsCount + p]
    }
}

/// Routes compare by identity.
impl PartialEq for Route {
    fn eq(&self, other: &Self) -> (r: bool) {
        self.id == other.id
    }
}

impl vstd::std_specs::cmp::PartialEqSpecImpl for Route {
    open spec fn obeys_eq_spec() -> bool {
        true
    }

    open spec fn eq_spec(&self, other: &Route) -> bool {
        self.id == other.id
    }
}

} // verus!
