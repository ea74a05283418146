//! End-to-end queries: the example itineraries, the error paths, and
//! concrete checks of the scan's stated properties.

use itinerary::raptor_algorithm::{RaptorError, STSCRaptor};
use itinerary::route_scanner::RaptorScannerSC;
use itinerary::route_structs::{
    Coords, NonScheduledRoute, NonScheduledRouteType, ScheduledRoute, Stop, TripType,
};
use itinerary::scan_model::Label;

fn stop(id: usize, routes: Vec<usize>, edges: Vec<NonScheduledRoute>) -> Stop {
    Stop {
        id,
        name: format!("stop {}", id),
        coords: Coords { x: 0, y: 0 },
        nonScheduledRoutes: edges,
        scheduledRoutes: routes,
    }
}

fn edge(id: usize, target: usize, seconds: u64) -> NonScheduledRoute {
    NonScheduledRoute {
        id,
        routeType: NonScheduledRouteType::Walk,
        targetStop: target,
        transferTime: seconds,
    }
}

/// One route, one trip: depart A 08:00, arrive B 08:20.
fn single_trip_dataset() -> (Vec<Stop>, Vec<ScheduledRoute>) {
    let stops = vec![stop(0, vec![0], vec![]), stop(1, vec![0], vec![])];
    let routes = vec![ScheduledRoute {
        id: 0,
        tripsCount: 1,
        stopsCount: 2,
        stopsTimes: vec![28800, 30000],
        stopsId: vec![0, 1],
    }];
    (stops, routes)
}

#[test]
fn direct_trip_is_found() {
    let (stops, routes) = single_trip_dataset();
    let journey = STSCRaptor(&stops, &routes, 0, 28500, 1, 2).unwrap();
    assert_eq!(journey.len(), 2);
    assert!(matches!(journey[0].tripType, TripType::Departure));
    assert_eq!(journey[0].departureStopId, 0);
    assert_eq!(journey[0].departureTime, 28500);
    assert!(matches!(journey[1].tripType, TripType::ScheduledRoute));
    assert_eq!(journey[1].departureStopId, 0);
    assert_eq!(journey[1].arrivalStopId, 1);
    assert_eq!(journey[1].departureTime, 28800);
    assert_eq!(journey[1].arrivalTime, 30000);
    assert_eq!(journey[1].routeId, 0);
}

#[test]
fn missed_trip_boards_the_next_one() {
    // Second trip departs A 08:30, arrives B 08:50; query leaves at 08:01.
    let stops = vec![stop(0, vec![0], vec![]), stop(1, vec![0], vec![])];
    let routes = vec![ScheduledRoute {
        id: 0,
        tripsCount: 2,
        stopsCount: 2,
        stopsTimes: vec![28800, 30000, 30600, 31800],
        stopsId: vec![0, 1],
    }];
    let journey = STSCRaptor(&stops, &routes, 0, 28860, 1, 2).unwrap();
    assert_eq!(journey.len(), 2);
    assert_eq!(journey[1].departureTime, 30600);
    assert_eq!(journey[1].arrivalTime, 31800);
}

/// A walks 10 min to C; a route runs C 09:00 -> D 09:15.
fn walk_then_ride_dataset() -> (Vec<Stop>, Vec<ScheduledRoute>) {
    let stops = vec![
        stop(0, vec![], vec![edge(7, 1, 600)]),
        stop(1, vec![0], vec![]),
        stop(2, vec![0], vec![]),
    ];
    let routes = vec![ScheduledRoute {
        id: 0,
        tripsCount: 1,
        stopsCount: 2,
        stopsTimes: vec![32400, 33300],
        stopsId: vec![1, 2],
    }];
    (stops, routes)
}

#[test]
fn transfer_then_scheduled_route() {
    let (stops, routes) = walk_then_ride_dataset();
    let journey = STSCRaptor(&stops, &routes, 0, 31500, 2, 2).unwrap();
    assert_eq!(journey.len(), 3);
    assert!(matches!(journey[0].tripType, TripType::Departure));
    assert!(matches!(journey[1].tripType, TripType::NonScheduledRoute));
    assert_eq!(journey[1].departureStopId, 0);
    assert_eq!(journey[1].arrivalStopId, 1);
    assert_eq!(journey[1].arrivalTime, 32100);
    assert_eq!(journey[1].routeId, 7);
    assert!(matches!(journey[2].tripType, TripType::ScheduledRoute));
    assert_eq!(journey[2].departureStopId, 1);
    assert_eq!(journey[2].arrivalStopId, 2);
    assert_eq!(journey[2].departureTime, 32400);
    assert_eq!(journey[2].arrivalTime, 33300);
}

#[test]
fn unknown_target_stop_is_rejected() {
    let (stops, routes) = single_trip_dataset();
    let r = STSCRaptor(&stops, &routes, 0, 28500, 99, 2);
    assert!(matches!(r, Err(RaptorError::StopNotFound(99))));
}

#[test]
fn unknown_departure_stop_is_rejected() {
    let (stops, routes) = single_trip_dataset();
    let r = STSCRaptor(&stops, &routes, 42, 28500, 1, 2);
    assert!(matches!(r, Err(RaptorError::StopNotFound(42))));
}

/// A chain of four stops joined by three one-trip routes, in time order.
fn chain_dataset() -> (Vec<Stop>, Vec<ScheduledRoute>) {
    let stops = vec![
        stop(0, vec![0], vec![]),
        stop(1, vec![0, 1], vec![]),
        stop(2, vec![1, 2], vec![]),
        stop(3, vec![2], vec![]),
    ];
    let routes = vec![
        ScheduledRoute {
            id: 0,
            tripsCount: 1,
            stopsCount: 2,
            stopsTimes: vec![1000, 2000],
            stopsId: vec![0, 1],
        },
        ScheduledRoute {
            id: 1,
            tripsCount: 1,
            stopsCount: 2,
            stopsTimes: vec![2500, 3500],
            stopsId: vec![1, 2],
        },
        ScheduledRoute {
            id: 2,
            tripsCount: 1,
            stopsCount: 2,
            stopsTimes: vec![4000, 5000],
            stopsId: vec![2, 3],
        },
    ];
    (stops, routes)
}

#[test]
fn target_beyond_the_round_budget_is_unreachable() {
    let (stops, routes) = chain_dataset();
    let r = STSCRaptor(&stops, &routes, 0, 500, 3, 1);
    assert!(matches!(r, Err(RaptorError::UnreachableTarget)));
}

#[test]
fn chain_is_reachable_with_enough_rounds() {
    let (stops, routes) = chain_dataset();
    let journey = STSCRaptor(&stops, &routes, 0, 500, 3, 3).unwrap();
    assert_eq!(journey.len(), 4);
    assert_eq!(journey[3].arrivalStopId, 3);
    assert_eq!(journey[3].arrivalTime, 5000);
}

#[test]
fn scheduled_segments_stay_within_the_transfer_budget() {
    let (stops, routes) = chain_dataset();
    let journey = STSCRaptor(&stops, &routes, 0, 500, 3, 3).unwrap();
    let scheduled = journey
        .iter()
        .filter(|s| matches!(s.tripType, TripType::ScheduledRoute))
        .count();
    assert!(scheduled <= 3);

    let (stops2, routes2) = walk_then_ride_dataset();
    let journey2 = STSCRaptor(&stops2, &routes2, 0, 31500, 2, 2).unwrap();
    let scheduled2 = journey2
        .iter()
        .filter(|s| matches!(s.tripType, TripType::ScheduledRoute))
        .count();
    assert!(scheduled2 <= 2);
}

#[test]
fn no_worse_than_direct_trip() {
    let (stops, routes) = single_trip_dataset();
    let journey = STSCRaptor(&stops, &routes, 0, 28500, 1, 3).unwrap();
    // The direct trip arrives at 30000; the answer is never later.
    assert!(journey.last().unwrap().arrivalTime <= 30000);
}

#[test]
fn no_worse_than_direct_transfer() {
    // A walk straight to the target exists; the answer is never later.
    let stops = vec![stop(0, vec![], vec![edge(3, 1, 900)]), stop(1, vec![], vec![])];
    let routes: Vec<ScheduledRoute> = vec![];
    let journey = STSCRaptor(&stops, &routes, 0, 10000, 1, 2).unwrap();
    assert!(journey.last().unwrap().arrivalTime <= 10900);
    assert_eq!(journey.len(), 2);
    assert_eq!(journey[1].routeId, 3);
}

#[test]
fn identical_queries_give_identical_journeys() {
    let (stops, routes) = chain_dataset();
    let a = STSCRaptor(&stops, &routes, 0, 500, 3, 3).unwrap();
    let b = STSCRaptor(&stops, &routes, 0, 500, 3, 3).unwrap();
    assert_eq!(a, b);
}

#[test]
fn journey_segments_chain_from_departure_to_target() {
    let (stops, routes) = walk_then_ride_dataset();
    let journey = STSCRaptor(&stops, &routes, 0, 31500, 2, 2).unwrap();
    assert!(matches!(journey[0].tripType, TripType::Departure));
    for i in 1..journey.len() {
        assert_eq!(journey[i].departureStopId, journey[i - 1].arrivalStopId);
    }
    assert_eq!(journey.last().unwrap().arrivalStopId, 2);
}

#[test]
fn best_labels_never_regress_across_rounds() {
    // Drive the scanner round by round and watch every stop's best label.
    let (stops, routes) = chain_dataset();
    let max_transfer = 3usize;
    let rounds = max_transfer + 1;
    let mut scanner = RaptorScannerSC::new(rounds, 500, 0, stops.len(), 3);
    let mut marked_stops: Vec<usize> = vec![0];
    let mut marked_routes: Vec<Option<itinerary::route_structs::MarkedScheduledRoute>> = Vec::new();
    scanner.processNonScheduledRoutes(0, &mut marked_stops, &stops);
    let best_times = |sc: &RaptorScannerSC| -> Vec<Option<u64>> {
        (0..stops.len())
            .map(|s| sc.multiLabelsManager.bestLabel(s).getArrivalTime())
            .collect()
    };
    let mut prev = best_times(&scanner);
    for k in 1..=max_transfer {
        if marked_stops.is_empty() {
            break;
        }
        let prior = scanner.multiLabelsManager.cloneBest();
        scanner.markRoutes(k, &mut marked_routes, &mut marked_stops, &stops, &routes);
        scanner.processScheduledRoutes(k, &marked_routes, &mut marked_stops, &prior, &routes);
        scanner.processNonScheduledRoutes(k, &mut marked_stops, &stops);
        let now = best_times(&scanner);
        for s in 0..stops.len() {
            match (prev[s], now[s]) {
                (Some(before), Some(after)) => assert!(after <= before),
                (Some(_), None) => panic!("a reached stop became unreached"),
                (None, _) => {},
            }
        }
        prev = now;
    }
    assert_eq!(prev[3], Some(5000));
}

#[test]
fn journey_may_chain_labels_from_different_rounds() {
    // Reconstruction follows each stop's *best* label, which a later round
    // may rewrite. Here round 2 improves an intermediate stop's best label
    // after another of its routes was already scanned, so the rebuilt
    // journey chains three scheduled segments although the budget is two
    // rounds. The journey itself is still consistent and arrives earliest.
    let stops = vec![
        stop(0, vec![0, 1], vec![]),
        stop(1, vec![0, 2], vec![]),
        stop(2, vec![1, 2, 3], vec![]),
        stop(3, vec![3], vec![]),
    ];
    let routes = vec![
        ScheduledRoute {
            id: 0,
            tripsCount: 1,
            stopsCount: 2,
            stopsTimes: vec![600, 610],
            stopsId: vec![0, 1],
        },
        ScheduledRoute {
            id: 1,
            tripsCount: 1,
            stopsCount: 2,
            stopsTimes: vec![600, 630],
            stopsId: vec![0, 2],
        },
        ScheduledRoute {
            id: 2,
            tripsCount: 1,
            stopsCount: 2,
            stopsTimes: vec![615, 620],
            stopsId: vec![1, 2],
        },
        ScheduledRoute {
            id: 3,
            tripsCount: 1,
            stopsCount: 2,
            stopsTimes: vec![635, 640],
            stopsId: vec![2, 3],
        },
    ];
    let journey = STSCRaptor(&stops, &routes, 0, 590, 3, 2).unwrap();
    let scheduled: Vec<_> = journey
        .iter()
        .filter(|s| matches!(s.tripType, TripType::ScheduledRoute))
        .collect();
    assert_eq!(scheduled.len(), 3);
    assert_eq!(journey.last().unwrap().arrivalTime, 640);
    for i in 1..journey.len() {
        assert_eq!(journey[i].departureStopId, journey[i - 1].arrivalStopId);
    }
}

#[test]
fn broken_label_chain_is_a_defect() {
    // A best label whose boarding stop leads nowhere must abort the
    // reconstruction, never return a journey.
    let mut scanner = RaptorScannerSC::new(2, 100, 0, 2, 1);
    let looped = Label::ScheduledRoute {
        arrivalTime: 200,
        departureTime: 150,
        route: 0,
        boardingStop: 1,
    };
    scanner.multiLabelsManager.setRoundLabel(1, 1, looped);
    scanner.multiLabelsManager.updateBest(1, looped);
    let r = scanner.computeBestJourney();
    assert!(matches!(r, Err(RaptorError::InfiniteLabel)));
}

#[test]
fn fresh_scanner_reports_unreachable() {
    let scanner = RaptorScannerSC::new(2, 100, 0, 2, 1);
    let r = scanner.computeBestJourney();
    assert!(matches!(r, Err(RaptorError::UnreachableTarget)));
}
