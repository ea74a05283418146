//! The timetable model: stops, scheduled routes with their trip tables,
//! transfer edges, and the journey segments a query returns.
//!
//! Times are seconds as plain unsigned integers. A scheduled route keeps a
//! flattened `tripsCount x stopsCount` table of arrival times; its
//! well-formedness (`wf`) demands that times never decrease along a trip and,
//! at a fixed stop position, never decrease across trips. That shape is what
//! lets "the earliest trip catchable after time T" be found by one forward
//! scan over the trip index.
#![allow(non_snake_case)]

use vstd::prelude::*;

use crate::GetId;

verus! {

/// Planar coordinates of a stop, in the dataset's own grid.
#[derive(Clone, Copy, PartialEq, Eq, Structural, Debug)]
pub struct Coords {
    pub x: u32,
    pub y: u32,
}

/// How a transfer edge is traversed; carried as data, the traversal
/// duration itself is stored on the edge.
#[derive(Clone, Copy, PartialEq, Eq, Structural, Debug)]
pub enum NonScheduledRouteType {
    Walk,
    V3,
}

/// A directed transfer edge: an unscheduled, time-costed connection from
/// the stop that owns it to `targetStop`.
#[derive(Clone, Copy, PartialEq, Eq, Structural, Debug)]
pub struct NonScheduledRoute {
    pub id: usize,
    pub routeType: NonScheduledRouteType,
    pub targetStop: usize,
    /// Traversal duration in seconds.
    pub transferTime: u64,
}

/// A stop: identity, display data, and the outgoing connections it owns.
/// `scheduledRoutes` lists route ids, resolved through the dataset.
pub struct Stop {
    pub id: usize,
    pub name: String,
    pub coords: Coords,
    pub nonScheduledRoutes: Vec<NonScheduledRoute>,
    pub scheduledRoutes: Vec<usize>,
}

/// Dense stop table: the stop with id `i` sits at index `i`.
pub type Stops = Vec<Stop>;

/// A scheduled route: an ordered stop pattern and a flattened per-trip,
/// per-position arrival-time table of size `tripsCount x stopsCount`.
pub struct ScheduledRoute {
    pub id: usize,
    pub tripsCount: usize,
    /// Number of stops on the route's pattern.
    pub stopsCount: usize,
    /// Flattened table: entry `t * stopsCount + p` is trip `t`'s time at
    /// pattern position `p`.
    pub stopsTimes: Vec<u64>,
    /// The stop ids of the pattern, in travel order, distinct within the
    /// route.
    pub stopsId: Vec<usize>,
}

/// Dense route table: the route with id `r` sits at index `r`.
pub type ScheduledRoutes = Vec<ScheduledRoute>;

impl ScheduledRoute {
    /// Trip `t`'s time at pattern position `p`, read from the flattened table.
    pub open spec fn trip_time(self, t: int, p: int) -> u64 {
        self.stopsTimes@[t * (self.stopsCount as int) + p]
    }

    /// Internal consistency of one route: table sized to the pattern, times
    /// non-decreasing along a trip, and non-decreasing across trips at a
    /// fixed position (trips are listed in departure order).
    pub open spec fn wf(self) -> bool {
        &&& self.stopsCount == self.stopsId@.len()
        &&& self.stopsCount >= 1
        &&& self.stopsTimes@.len() == self.tripsCount * self.stopsCount
        &&& forall|p1: int, p2: int|
            0 <= p1 < p2 < self.stopsId@.len() ==> self.stopsId@[p1] != self.stopsId@[p2]
        &&& forall|t: int, p1: int, p2: int|
            0 <= t < self.tripsCount && 0 <= p1 <= p2 < self.stopsCount
                ==> self.trip_time(t, p1) <= self.trip_time(t, p2)
        &&& forall|t1: int, t2: int, p: int|
            0 <= t1 <= t2 < self.tripsCount && 0 <= p < self.stopsCount
                ==> self.trip_time(t1, p) <= self.trip_time(t2, p)
    }

    /// The earliest trip index `t >= from` whose time at position `p` is
    /// strictly later than `bound`, if any.
    pub open spec fn earliest_trip_from(self, p: int, bound: u64, from: int) -> Option<usize>
        decreases self.tripsCount - from,
    {
        if from < 0 || from >= self.tripsCount {
            None
        } else if self.trip_time(from, p) > bound {
            Some(from as usize)
        } else {
            self.earliest_trip_from(p, bound, from + 1)
        }
    }

    /// The earliest trip whose time at position `p` is strictly later than
    /// `bound`: the timetable slice a rider arriving at `bound` can catch.
    pub open spec fn earliest_trip(self, p: int, bound: u64) -> Option<usize> {
        self.earliest_trip_from(p, bound, 0)
    }

    /// The found trip is the least catchable one: any trip strictly later
    /// than the bound at position `p` is found, and no earlier.
    pub proof fn lemma_earliest_trip_least(self, p: int, bound: u64, from: int, tq: int)
        requires
            0 <= from <= tq < self.tripsCount,
            self.trip_time(tq, p) > bound,
        ensures
            self.earliest_trip_from(p, bound, from) is Some,
            from <= (self.earliest_trip_from(p, bound, from)->0 as int) <= tq,
        decreases self.tripsCount - from,
    {
        if self.trip_time(from, p) > bound {
        } else {
            self.lemma_earliest_trip_least(p, bound, from + 1, tq);
        }
    }

    /// A found trip index lies inside the trip table.
    pub proof fn lemma_earliest_trip_from_range(self, p: int, bound: u64, from: int)
        requires
            self.earliest_trip_from(p, bound, from) is Some,
        ensures
            (self.earliest_trip_from(p, bound, from)->0 as int) < self.tripsCount,
        decreases self.tripsCount - from,
    {
        if !(from < 0 || from >= self.tripsCount) && !(self.trip_time(from, p) > bound) {
            self.lemma_earliest_trip_from_range(p, bound, from + 1);
        }
    }

    /// Times non-decreasing between neighbouring positions extend to any
    /// pair of positions of one trip.
    pub proof fn lemma_trip_mono_from_adjacent(self, t: int, p1: int, p2: int)
        requires
            forall|p: int|
                0 <= p < self.stopsCount - 1 ==> #[trigger] self.trip_time(t, p) <= self.trip_time(
                    t,
                    p + 1,
                ),
            0 <= p1 <= p2 < self.stopsCount,
        ensures
            self.trip_time(t, p1) <= self.trip_time(t, p2),
        decreases p2 - p1,
    {
        if p1 < p2 {
            self.lemma_trip_mono_from_adjacent(t, p1, p2 - 1);
            assert(self.trip_time(t, p2 - 1) <= self.trip_time(t, p2));
        }
    }

    /// Times non-decreasing between consecutive trips extend to any pair
    /// of trips at one position.
    pub proof fn lemma_trips_mono_from_adjacent(self, p: int, t1: int, t2: int)
        requires
            forall|t: int|
                0 <= t < self.tripsCount - 1 ==> #[trigger] self.trip_time(t, p) <= self.trip_time(
                    t + 1,
                    p,
                ),
            0 <= t1 <= t2 < self.tripsCount,
        ensures
            self.trip_time(t1, p) <= self.trip_time(t2, p),
        decreases t2 - t1,
    {
        if t1 < t2 {
            self.lemma_trips_mono_from_adjacent(p, t1, t2 - 1);
            assert(self.trip_time(t2 - 1, p) <= self.trip_time(t2, p));
        }
    }

    /// Position of `stopId` in the route's pattern. The route is only ever
    /// associated with stops of its pattern, so the caller owes existence;
    /// a failed lookup would be a dataset defect, not a runtime error.
    pub fn getEquivalentStopId(&self, stopId: &usize) -> (r: usize)
        requires
            self.stopsId@.contains(*stopId),
        ensures
            r < self.stopsId@.len(),
            self.stopsId@[r as int] == stopId,
            forall|j: int| 0 <= j < r ==> self.stopsId@[j] != stopId,
    {
        let n = self.stopsId.len();
        let mut i: usize = 0;
        loop
            invariant
                i <= n,
                n == self.stopsId@.len(),
                self.stopsId@.contains(*stopId),
                forall|j: int| 0 <= j < i ==> self.stopsId@[j] != stopId,
            decreases n - i,
        {
            if i >= n {
                proof {
                    let w = choose|w: int| 0 <= w < self.stopsId@.len()
                        && self.stopsId@[w] == stopId;
                    assert(false);
                }
            }
            if self.stopsId[i] == *stopId {
                return i;
            }
            i = i + 1;
        }
    }

    /// Trip `tripId`'s full timetable, copied out of the flattened table.
    pub fn getTripAt(&self, tripId: usize) -> (r: Vec<u64>)
        requires
            self.wf(),
            tripId < self.tripsCount,
        ensures
            r@.len() == self.stopsCount,
            forall|p: int| 0 <= p < self.stopsCount ==> r@[p] == self.trip_time(tripId as int, p),
    {
        let mut out: Vec<u64> = Vec::new();
        let mut p: usize = 0;
        while p < self.stopsCount
            invariant
                p <= self.stopsCount,
                self.wf(),
                tripId < self.tripsCount,
                out@.len() == p,
                forall|q: int| 0 <= q < p ==> out@[q] == self.trip_time(tripId as int, q),
            decreases self.stopsCount - p,
        {
            out.push(self.getStopTimeOn(tripId, p));
            p = p + 1;
        }
        out
    }

    /// Trip `tripId`'s time at position `p`, demanding only the table's
    /// size, for use while the route's other invariants are still being
    /// checked.
    pub fn getStopTimeOnRaw(&self, tripId: usize, p: usize) -> (r: u64)
        requires
            self.stopsTimes@.len() == self.tripsCount * self.stopsCount,
            tripId < self.tripsCount,
            p < self.stopsCount,
        ensures
            r == self.trip_time(tripId as int, p as int),
    {
        let total = self.stopsTimes.len();
        proof {
            lemma_flat_index(self.tripsCount as int, self.stopsCount as int, tripId as int,
                p as int);
            assert((tripId as int) * (self.stopsCount as int) + (p as int) < total);
        }
        self.stopsTimes[tripId * self.stopsCount + p]
    }

    /// Trip `tripId`'s time at pattern position `stopEquivalentIndex`.
    pub fn getStopTimeOn(&self, tripId: usize, stopEquivalentIndex: usize) -> (r: u64)
        requires
            self.wf(),
            tripId < self.tripsCount,
            stopEquivalentIndex < self.stopsCount,
        ensures
            r == self.trip_time(tripId as int, stopEquivalentIndex as int),
    {
        let total = self.stopsTimes.len();
        proof {
            lemma_flat_index(
                self.tripsCount as int,
                self.stopsCount as int,
                tripId as int,
                stopEquivalentIndex as int,
            );
            assert((tripId as int) * (self.stopsCount as int) + (stopEquivalentIndex as int)
                < total);
        }
        self.stopsTimes[tripId * self.stopsCount + stopEquivalentIndex]
    }

    /// The earliest trip catchable at position `stopEquivalentIndex` by a
    /// rider whose arrival there is `stopArrivalTime`: the first trip, in
    /// departure order, strictly later than that time at that position.
    pub fn getEarliestTripFor(&self, stopEquivalentIndex: usize, stopArrivalTime: u64) -> (r:
        Option<usize>)
        requires
            self.wf(),
            stopEquivalentIndex < self.stopsCount,
        ensures
            r == self.earliest_trip(stopEquivalentIndex as int, stopArrivalTime),
    {
        let mut tripId: usize = 0;
        loop
            invariant
                tripId <= self.tripsCount,
                self.wf(),
                stopEquivalentIndex < self.stopsCount,
                self.earliest_trip(stopEquivalentIndex as int, stopArrivalTime)
                    == self.earliest_trip_from(
                    stopEquivalentIndex as int,
                    stopArrivalTime,
                    tripId as int,
                ),
            decreases self.tripsCount - tripId,
        {
            if tripId >= self.tripsCount {
                return None;
            }
            if self.getStopTimeOn(tripId, stopEquivalentIndex) > stopArrivalTime {
                return Some(tripId);
            }
            tripId = tripId + 1;
        }
    }
}

/// Entry `t * sc + p` of a `tc x sc` table lies inside it.
pub proof fn lemma_flat_index(tc: int, sc: int, t: int, p: int)
    by (nonlinear_arith)
    requires
        0 <= t < tc,
        0 <= p < sc,
    ensures
        0 <= t * sc + p < tc * sc,
{
}

impl GetId for Stop {
    type Id = usize;

    fn getId(&self) -> (r: Self::Id)
        ensures
            r == self.id,
    {
        self.id
    }
}

impl GetId for ScheduledRoute {
    type Id = usize;

    fn getId(&self) -> (r: Self::Id)
        ensures
            r == self.id,
    {
        self.id
    }
}

/// Consistency of the whole dataset: dense ids, every pattern id resolving
/// to a real stop, every stop's route list mutually consistent with the
/// routes' pattern membership, every transfer edge pointing at a real stop,
/// and every route internally well-formed.
pub open spec fn valid_dataset(stops: Seq<Stop>, routes: Seq<ScheduledRoute>) -> bool {
    &&& forall|s: int|
        0 <= s < stops.len() ==> (#[trigger] stops[s]).id == s && stop_linked(
            stops[s],
            stops.len() as int,
            routes,
        )
    &&& forall|r: int|
        0 <= r < routes.len() ==> (#[trigger] routes[r]).id == r && routes[r].wf()
            && route_linked(routes[r], stops)
}

/// One stop's outgoing references resolve inside the dataset.
pub open spec fn stop_linked(st: Stop, n_stops: int, routes: Seq<ScheduledRoute>) -> bool {
    &&& forall|j: int|
        0 <= j < st.scheduledRoutes@.len() ==> (#[trigger] st.scheduledRoutes@[j]) < routes.len()
            && routes[st.scheduledRoutes@[j] as int].stopsId@.contains(st.id)
    &&& forall|j: int|
        0 <= j < st.nonScheduledRoutes@.len() ==> (#[trigger] st.nonScheduledRoutes@[j]).targetStop
            < n_stops
}

/// One route's pattern ids resolve to stops that list the route back.
pub open spec fn route_linked(r: ScheduledRoute, stops: Seq<Stop>) -> bool {
    forall|p: int|
        0 <= p < r.stopsId@.len() ==> (#[trigger] r.stopsId@[p]) < stops.len()
            && stops[r.stopsId@[p] as int].scheduledRoutes@.contains(r.id)
}

/// Every route is internally well-formed and its pattern ids lie below
/// `n`: what the route scanner needs of the route table.
pub open spec fn routes_fit(routes: Seq<ScheduledRoute>, n: int) -> bool {
    forall|r: int|
        0 <= r < routes.len() ==> (#[trigger] routes[r]).wf() && (forall|p: int|
            0 <= p < routes[r].stopsId@.len() ==> (#[trigger] routes[r].stopsId@[p] as int) < n)
}

/// Every transfer edge of `st` points inside a table of `n` stops.
pub open spec fn stop_edges_in_range(st: Stop, n: nat) -> bool {
    forall|j: int|
        0 <= j < st.nonScheduledRoutes@.len() ==> (#[trigger] st.nonScheduledRoutes@[j]).targetStop
            < n
}

/// A valid dataset's transfer edges all point inside its stop table.
pub proof fn lemma_valid_dataset_edges(stops: Seq<Stop>, routes: Seq<ScheduledRoute>)
    requires
        valid_dataset(stops, routes),
    ensures
        forall|s: int| 0 <= s < stops.len() ==> stop_edges_in_range(#[trigger] stops[s], stops.len()),
{
    assert forall|s: int| 0 <= s < stops.len() implies stop_edges_in_range(
        #[trigger] stops[s],
        stops.len(),
    ) by {
        assert(stop_linked(stops[s], stops.len() as int, routes));
    }
}

/// A valid dataset's route table fits its stop table.
pub proof fn lemma_valid_dataset_routes_fit(stops: Seq<Stop>, routes: Seq<ScheduledRoute>)
    requires
        valid_dataset(stops, routes),
    ensures
        routes_fit(routes, stops.len() as int),
{
    assert forall|r: int| 0 <= r < routes.len() implies (#[trigger] routes[r]).wf() && (forall|
        p: int,
    |
        0 <= p < routes[r].stopsId@.len() ==> (#[trigger] routes[r].stopsId@[p] as int)
            < stops.len()) by {
        assert(route_linked(routes[r], stops));
    }
}

/// A route plus the single earliest-reachable stop on it this round, with
/// that stop's position in the route's pattern. Rebuilt each round.
#[derive(Clone, Copy, PartialEq, Eq, Structural, Debug)]
pub struct MarkedScheduledRoute {
    pub earliestStop: usize,
    pub earliestStopEquivalentIndex: usize,
    pub route: usize,
}

/// Which kind of connection a journey segment used.
#[derive(Clone, Copy, PartialEq, Eq, Structural, Debug)]
pub enum TripType {
    ScheduledRoute,
    NonScheduledRoute,
    Departure,
}

/// One leg of a computed journey. For the terminal `Departure` marker the
/// two stops coincide and both times are the query's departure time.
#[derive(Clone, Copy, PartialEq, Eq, Structural, Debug)]
pub struct TripOfJourney {
    pub tripType: TripType,
    pub departureStopId: usize,
    pub arrivalStopId: usize,
    pub routeId: usize,
    pub arrivalTime: u64,
    pub departureTime: u64,
}

/// An itinerary, ordered from the departure stop to the target.
pub type Journey = Vec<TripOfJourney>;

} // verus!
