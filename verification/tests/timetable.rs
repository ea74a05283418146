//! Unit-level checks of the timetable model, the labels, the label store,
//! the compact route search, and the dataset validator.

use itinerary::raptor::Route;
use itinerary::route_structs::{
    Coords, NonScheduledRoute, NonScheduledRouteType, ScheduledRoute, Stop,
};
use itinerary::route_scanner::MultiLabelsManager;
use itinerary::raptor_algorithm::RaptorError;
use itinerary::scan_model::Label;
use itinerary::{GetId, RaptorDataHolder};

fn two_trip_route() -> ScheduledRoute {
    ScheduledRoute {
        id: 0,
        tripsCount: 2,
        stopsCount: 3,
        stopsTimes: vec![100, 200, 300, 400, 500, 600],
        stopsId: vec![10, 20, 30],
    }
}

#[test]
fn equivalent_stop_id_is_the_pattern_position() {
    let r = two_trip_route();
    assert_eq!(r.getEquivalentStopId(&10), 0);
    assert_eq!(r.getEquivalentStopId(&20), 1);
    assert_eq!(r.getEquivalentStopId(&30), 2);
}

#[test]
fn trip_times_read_from_the_flat_table() {
    let r = two_trip_route();
    assert_eq!(r.getStopTimeOn(0, 0), 100);
    assert_eq!(r.getStopTimeOn(0, 2), 300);
    assert_eq!(r.getStopTimeOn(1, 1), 500);
    assert_eq!(r.getTripAt(1), vec![400, 500, 600]);
}

#[test]
fn earliest_trip_is_strictly_after_the_bound() {
    let r = two_trip_route();
    assert_eq!(r.getEarliestTripFor(0, 50), Some(0));
    assert_eq!(r.getEarliestTripFor(0, 100), Some(1));
    assert_eq!(r.getEarliestTripFor(0, 399), Some(1));
    assert_eq!(r.getEarliestTripFor(0, 400), None);
    assert_eq!(r.getEarliestTripFor(2, 599), Some(1));
    assert_eq!(r.getEarliestTripFor(2, 600), None);
}

#[test]
fn labels_expose_their_arrival_time() {
    let a = Label::DepartureLabel(50);
    let b = Label::ScheduledRoute {
        arrivalTime: 75,
        departureTime: 60,
        route: 1,
        boardingStop: 2,
    };
    let c = Label::NonScheduledRoute { arrivalTime: 80, route: 3, boardingStop: 4 };
    let inf = Label::Infinite;
    assert_eq!(a.getArrivalTime(), Some(50));
    assert_eq!(b.getArrivalTime(), Some(75));
    assert_eq!(c.getArrivalTime(), Some(80));
    assert_eq!(inf.getArrivalTime(), None);
    assert!(a.isEarlierThan(&b));
    assert!(!b.isEarlierThan(&a));
    assert!(b.isEarlierThan(&inf));
    assert!(!inf.isEarlierThan(&b));
    assert!(!inf.isEarlierThan(&inf));
}

#[test]
fn label_store_rows_start_unreached_and_take_writes() {
    let mut m = MultiLabelsManager::new(3, 2);
    let row = m.get(1);
    assert_eq!(row.labels.len(), 3);
    assert!(matches!(row.labels[0], Label::Infinite));
    assert!(matches!(row.earliestLabel, Label::Infinite));

    m.setRoundLabel(1, 2, Label::DepartureLabel(42));
    assert_eq!(m.getRoundLabel(1, 2).getArrivalTime(), Some(42));
    assert_eq!(m.getRoundLabel(1, 1).getArrivalTime(), None);
    assert_eq!(m.getRoundLabel(0, 2).getArrivalTime(), None);

    m.updateBest(1, Label::DepartureLabel(42));
    assert_eq!(m.bestLabel(1).getArrivalTime(), Some(42));
    // A later candidate must not displace the best label.
    m.updateBest(1, Label::DepartureLabel(50));
    assert_eq!(m.bestLabel(1).getArrivalTime(), Some(42));
    // An earlier one must.
    m.updateBest(1, Label::DepartureLabel(40));
    assert_eq!(m.bestLabel(1).getArrivalTime(), Some(40));
}

#[test]
fn compact_route_finds_the_first_catchable_position() {
    let route = Route { id: 5, tripsCount: 2, stopsCount: 2, stopsTimes: vec![100, 200, 300, 400] };
    // Rider reaches position 0 at 150, position 1 at 180: trip 0 is missed
    // at position 0 but caught at position 1.
    assert_eq!(route.findEarliestStopReachable(&vec![150, 180]), Some((0, 1)));
    // Reaches both too late for trip 0, catches trip 1 at position 0.
    assert_eq!(route.findEarliestStopReachable(&vec![250, 450]), Some((1, 0)));
    // Too late for every trip.
    assert_eq!(route.findEarliestStopReachable(&vec![500, 500]), None);
    assert_eq!(route.getTripAt(0), vec![100, 200]);
    assert_eq!(route.getTripAt(1), vec![300, 400]);
}

#[test]
fn compact_routes_compare_by_identity() {
    let a = Route { id: 5, tripsCount: 1, stopsCount: 1, stopsTimes: vec![1] };
    let b = Route { id: 5, tripsCount: 2, stopsCount: 1, stopsTimes: vec![2, 3] };
    let c = Route { id: 6, tripsCount: 1, stopsCount: 1, stopsTimes: vec![1] };
    assert!(a == b);
    assert!(a != c);
}

#[test]
fn ids_are_exposed_through_the_trait() {
    let s = Stop {
        id: 9,
        name: String::from("nine"),
        coords: Coords { x: 1, y: 2 },
        nonScheduledRoutes: vec![],
        scheduledRoutes: vec![],
    };
    assert_eq!(s.getId(), 9);
    assert_eq!(two_trip_route().getId(), 0);
}

fn linked_holder() -> RaptorDataHolder {
    RaptorDataHolder {
        stops: vec![
            Stop {
                id: 0,
                name: String::from("a"),
                coords: Coords { x: 0, y: 0 },
                nonScheduledRoutes: vec![NonScheduledRoute {
                    id: 0,
                    routeType: NonScheduledRouteType::Walk,
                    targetStop: 1,
                    transferTime: 60,
                }],
                scheduledRoutes: vec![0],
            },
            Stop {
                id: 1,
                name: String::from("b"),
                coords: Coords { x: 0, y: 0 },
                nonScheduledRoutes: vec![],
                scheduledRoutes: vec![0],
            },
        ],
        scheduledRoutes: vec![ScheduledRoute {
            id: 0,
            tripsCount: 2,
            stopsCount: 2,
            stopsTimes: vec![10, 20, 30, 40],
            stopsId: vec![0, 1],
        }],
        nonScheduledRoutes: vec![],
    }
}

#[test]
fn consistent_dataset_validates() {
    assert!(linked_holder().validate());
    assert!(RaptorDataHolder::default().validate());
}

#[test]
fn broken_time_order_fails_validation() {
    let mut h = linked_holder();
    // Trip 0's times decrease along the pattern.
    h.scheduledRoutes[0].stopsTimes = vec![20, 10, 30, 40];
    assert!(!h.validate());
}

#[test]
fn broken_trip_order_fails_validation() {
    let mut h = linked_holder();
    // The second trip leaves before the first.
    h.scheduledRoutes[0].stopsTimes = vec![30, 40, 10, 20];
    assert!(!h.validate());
}

#[test]
fn dangling_edge_fails_validation() {
    let mut h = linked_holder();
    h.stops[0].nonScheduledRoutes[0].targetStop = 99;
    assert!(!h.validate());
}

#[test]
fn unlisted_route_membership_fails_validation() {
    let mut h = linked_holder();
    // The route serves stop 1, but stop 1 no longer lists it.
    h.stops[1].scheduledRoutes = vec![];
    assert!(!h.validate());
}

#[test]
fn duplicate_pattern_stop_fails_validation() {
    let mut h = linked_holder();
    h.scheduledRoutes[0].stopsId = vec![0, 0];
    assert!(!h.validate());
}

#[test]
fn error_descriptions_name_the_failure() {
    assert_eq!(RaptorError::StopNotFound(3).description(), "stop not found");
    assert_eq!(
        RaptorError::UnreachableTarget.description(),
        "target unreachable within the transfer budget"
    );
    assert_eq!(
        RaptorError::InfiniteLabel.description(),
        "unreached label met while rebuilding the journey"
    );
}
