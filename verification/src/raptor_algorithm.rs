//! The query entry point and the backward journey reconstruction, with
//! their mathematical model.
#![allow(non_snake_case)]

use vstd::prelude::*;

use crate::route_scanner::RaptorScannerSC;
use crate::route_structs::{
    lemma_valid_dataset_edges, lemma_valid_dataset_routes_fit, routes_fit, stop_edges_in_range,
    valid_dataset, Journey, MarkedScheduledRoute, ScheduledRoute, ScheduledRoutes, Stop, Stops,
    TripOfJourney, TripType,
};
use crate::scan_model::{init_state, run_round, run_rounds, Label};

verus! {

/// What a query can fail with. `StopNotFound` carries the offending stop
/// id and is the only caller-input error; `UnreachableTarget` is the
/// normal no-route-found outcome; `InfiniteLabel` marks a label chain
/// that does not lead back to the departure, which a well-formed scan
/// never produces — it signals a defect, not a recoverable condition.
#[derive(Clone, Copy, PartialEq, Eq, Structural, Debug)]
pub enum RaptorError {
    StopNotFound(usize),
    UnreachableTarget,
    InfiniteLabel,
}

impl RaptorError {
    /// A short description of the failure, for callers that report it.
    pub fn description(&self) -> (r: &'static str)
        ensures
            *self is StopNotFound ==> r@ == "stop not found"@,
            *self is UnreachableTarget ==> r@ == "target unreachable within the transfer budget"@,
            *self is InfiniteLabel ==> r@ == "unreached label met while rebuilding the journey"@,
    {
        proof {
            reveal_strlit("stop not found");
            reveal_strlit("target unreachable within the transfer budget");
            reveal_strlit("unreached label met while rebuilding the journey");
        }
        match self {
            RaptorError::StopNotFound(_) => "stop not found",
            RaptorError::UnreachableTarget => "target unreachable within the transfer budget",
            RaptorError::InfiniteLabel => "unreached label met while rebuilding the journey",
        }
    }
}

/// The journey's terminal marker: the departure stop, with both times the
/// query's departure time.
pub open spec fn departure_marker(stopId: usize, t: u64) -> TripOfJourney {
    TripOfJourney {
        tripType: TripType::Departure,
        departureStopId: stopId,
        arrivalStopId: stopId,
        routeId: 0,
        arrivalTime: t,
        departureTime: t,
    }
}

/// The backward walk over best labels from `current`, producing segments
/// in departure-to-target order. Every well-formed chain ends at the
/// departure label; a chain that leaves the stop table, meets an
/// unreached label, or outlives `fuel` steps is a dataset or scan defect.
/// A transfer segment departs when it arrives: the edge's duration is
/// already inside the arrival time.
pub open spec fn rebuild(best: Seq<Label>, current: int, fuel: nat) -> Result<
    Seq<TripOfJourney>,
    RaptorError,
>
    decreases fuel,
{
    if !(0 <= current < best.len()) {
        Err(RaptorError::InfiniteLabel)
    } else {
        match best[current] {
            Label::DepartureLabel(t) => Ok(seq![departure_marker(current as usize, t)]),
            Label::ScheduledRoute { arrivalTime, departureTime, route, boardingStop } => {
                if fuel == 0 {
                    Err(RaptorError::InfiniteLabel)
                } else {
                    match rebuild(best, boardingStop as int, (fuel - 1) as nat) {
                        Ok(pre) => Ok(
                            pre.push(
                                TripOfJourney {
                                    tripType: TripType::ScheduledRoute,
                                    departureStopId: boardingStop,
                                    arrivalStopId: current as usize,
                                    routeId: route,
                                    arrivalTime,
                                    departureTime,
                                },
                            ),
                        ),
                        Err(e) => Err(e),
                    }
                }
            },
            Label::NonScheduledRoute { arrivalTime, route, boardingStop } => {
                if fuel == 0 {
                    Err(RaptorError::InfiniteLabel)
                } else {
                    match rebuild(best, boardingStop as int, (fuel - 1) as nat) {
                        Ok(pre) => Ok(
                            pre.push(
                                TripOfJourney {
                                    tripType: TripType::NonScheduledRoute,
                                    departureStopId: boardingStop,
                                    arrivalStopId: current as usize,
                                    routeId: route,
                                    arrivalTime,
                                    departureTime: arrivalTime,
                                },
                            ),
                        ),
                        Err(e) => Err(e),
                    }
                }
            },
            Label::Infinite => Err(RaptorError::InfiniteLabel),
        }
    }
}

/// The query's answer read off the final best labels: unreachable when the
/// target's best label is still unreached, otherwise the reconstructed
/// itinerary.
pub open spec fn journey_spec(best: Seq<Label>, target: int, fuel: nat) -> Result<
    Seq<TripOfJourney>,
    RaptorError,
> {
    if best[target] is Infinite {
        Err(RaptorError::UnreachableTarget)
    } else {
        rebuild(best, target, fuel)
    }
}

/// A journey result with the itinerary abstracted to its sequence.
pub open spec fn res_view(r: Result<Vec<TripOfJourney>, RaptorError>) -> Result<
    Seq<TripOfJourney>,
    RaptorError,
> {
    match r {
        Ok(v) => Ok(v@),
        Err(e) => Err(e),
    }
}

/// The whole query as a function of its inputs: reject an absent stop id,
/// otherwise initialise, run rounds `1 ..= maxTransfer`, and rebuild from
/// the target's best label. Identical inputs give the identical answer.
pub open spec fn raptor_spec(
    stops: Seq<Stop>,
    routes: Seq<ScheduledRoute>,
    departureStopId: usize,
    departureTime: u64,
    targetStopId: usize,
    maxTransfer: usize,
) -> Result<Seq<TripOfJourney>, RaptorError> {
    if !(departureStopId < stops.len()) {
        Err(RaptorError::StopNotFound(departureStopId))
    } else if !(targetStopId < stops.len()) {
        Err(RaptorError::StopNotFound(targetStopId))
    } else {
        let R = maxTransfer as int + 1;
        let st0 = init_state(stops, R, departureStopId, departureTime);
        let stF = run_rounds(stops, routes, targetStopId as int, R, st0, 1, maxTransfer as int);
        journey_spec(stF.best, targetStopId as int, stops.len())
    }
}

/// Single-threaded, single-criterion earliest-arrival query: the primary
/// entry point. Checks the stop ids, seeds the departure label, relaxes
/// the departure stop's transfer edges at round 0, runs one round per
/// allowed transfer (stopping early once a round improves nothing), and
/// rebuilds the journey from the target's best label. The result equals
/// `raptor_spec` of the inputs, so identical inputs give identical
/// journeys.
pub fn STSCRaptor(
    stops: &Stops,
    scheduledRoutes: &ScheduledRoutes,
    departureStopId: usize,
    departureTime: u64,
    targetStopId: usize,
    maxTransfer: usize,
) -> (r: Result<Journey, RaptorError>)
    requires
        valid_dataset(stops@, scheduledRoutes@),
        maxTransfer >= 1,
        maxTransfer < usize::MAX,
        stops@.len() * (maxTransfer + 1) <= usize::MAX,
    ensures
        res_view(r) == raptor_spec(
            stops@,
            scheduledRoutes@,
            departureStopId,
            departureTime,
            targetStopId,
            maxTransfer,
        ),
{
    let n = stops.len();
    if departureStopId >= n {
        return Err(RaptorError::StopNotFound(departureStopId));
    }
    if targetStopId >= n {
        return Err(RaptorError::StopNotFound(targetStopId));
    }
    proof {
        lemma_valid_dataset_edges(stops@, scheduledRoutes@);
        lemma_valid_dataset_routes_fit(stops@, scheduledRoutes@);
    }
    let roundsCount = maxTransfer + 1;
    let ghost R = roundsCount as int;
    let ghost tgt = targetStopId as int;

    let mut scanner = RaptorScannerSC::new(
        roundsCount,
        departureTime,
        departureStopId,
        n,
        targetStopId,
    );
    let mut markedStops: Vec<usize> = Vec::new();
    markedStops.push(departureStopId);
    proof {
        assert(markedStops@ =~= seq![departureStopId]);
    }
    scanner.processNonScheduledRoutes(0, &mut markedStops, stops);
    let ghost st0 = init_state(stops@, R, departureStopId, departureTime);
    proof {
        assert(scanner.st(markedStops@) == st0);
    }
    let ghost goal_st = run_rounds(stops@, scheduledRoutes@, tgt, R, st0, 1, maxTransfer as int);

    let mut markedRoutes: Vec<Option<MarkedScheduledRoute>> = Vec::new();
    let mut k: usize = 1;
    while k <= maxTransfer
        invariant_except_break
            scanner.wf(),
            scanner.rounds() == R,
            scanner.stops_count() == n,
            scanner.targetStop == targetStopId,
            tgt == targetStopId as int,
            n == stops@.len(),
            R == maxTransfer + 1,
            valid_dataset(stops@, scheduledRoutes@),
            routes_fit(scheduledRoutes@, n as int),
            forall|s: int|
                0 <= s < stops@.len() ==> stop_edges_in_range(#[trigger] stops@[s], stops@.len()),
            1 <= k <= maxTransfer + 1,
            forall|t: int|
                0 <= t < markedStops@.len() ==> (#[trigger] markedStops@[t]) < n,
            run_rounds(stops@, scheduledRoutes@, tgt, R, scanner.st(markedStops@), k as int,
                maxTransfer as int,
            ) == goal_st,
        ensures
            scanner.wf(),
            scanner.rounds() == R,
            scanner.stops_count() == n,
            scanner.targetStop == targetStopId,
            scanner.st(markedStops@) == goal_st,
        decreases maxTransfer + 1 - k,
    {
        if markedStops.len() == 0 {
            break;
        }
        let ghost st_entry = scanner.st(markedStops@);
        let priorBest = scanner.multiLabelsManager.cloneBest();
        scanner.markRoutes(k, &mut markedRoutes, &mut markedStops, stops, scheduledRoutes);
        proof {
            assert(markedStops@ =~= Seq::<usize>::empty());
        }
        scanner.processScheduledRoutes(k, &markedRoutes, &mut markedStops, &priorBest,
            scheduledRoutes);
        scanner.processNonScheduledRoutes(k, &mut markedStops, stops);
        proof {
            assert(scanner.st(markedStops@) == run_round(
                stops@,
                scheduledRoutes@,
                tgt,
                R,
                st_entry,
                k as int,
            ));
        }
        k = k + 1;
    }
    scanner.computeBestJourney()
}

} // verus!
