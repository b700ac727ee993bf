use raptor_routing::routing::models::{
    Route, RouteSection, RoutingAlgorithmArgs, RoutingAlgorithmMode,
};
use raptor_routing::routing::reconstruction::{
    is_valid_route, reconstruct_results, reconstruct_route,
};
use raptor_routing::routing::state::{RaptorLabel, RaptorState};
use rustc_hash::FxHashSet;

fn ride(from: i32, to: i32, arrival_at: i64) -> RouteSection {
    RouteSection::new(Some(7), from, to, arrival_at, None)
}

fn walk(from: i32, to: i32, arrival_at: i64) -> RouteSection {
    RouteSection::new(None, from, to, arrival_at, Some(3))
}

fn route(sections: Vec<RouteSection>) -> Route {
    Route::new(sections, FxHashSet::default())
}

fn label(
    arrival_time: i64,
    journey_id: Option<i32>,
    from_stop_id: i32,
    source_round: usize,
) -> RaptorLabel {
    RaptorLabel {
        arrival_time,
        journey_id,
        from_stop_id,
        boarding_stop_id: from_stop_id,
        transfer_duration: if journey_id.is_none() { Some(3) } else { None },
        source_round,
    }
}

fn stops(ids: &[i32]) -> FxHashSet<i32> {
    ids.iter().copied().collect()
}

#[test]
fn route_without_sections_is_not_valid() {
    assert!(!is_valid_route(&route(Vec::new())));
}

#[test]
fn walks_alone_are_not_valid() {
    assert!(!is_valid_route(&route(vec![walk(1, 2, 10)])));
    assert!(!is_valid_route(&route(vec![walk(1, 2, 10), walk(2, 3, 20)])));
}

#[test]
fn one_ride_is_valid() {
    assert!(is_valid_route(&route(vec![ride(1, 2, 10)])));
}

#[test]
fn walks_next_to_a_ride_are_valid() {
    assert!(is_valid_route(&route(vec![walk(1, 2, 10), ride(2, 3, 20)])));
    assert!(is_valid_route(&route(vec![ride(1, 2, 10), walk(2, 3, 20)])));
    assert!(is_valid_route(&route(vec![walk(1, 2, 10), ride(2, 3, 20), walk(3, 4, 30)])));
}

#[test]
fn two_walks_at_an_end_are_not_valid() {
    assert!(!is_valid_route(&route(vec![walk(1, 2, 10), walk(2, 3, 20), ride(3, 4, 30)])));
    assert!(!is_valid_route(&route(vec![ride(1, 2, 10), walk(2, 3, 20), walk(3, 4, 30)])));
}

#[test]
fn two_walks_between_rides_are_valid() {
    let sections = vec![ride(1, 2, 10), walk(2, 3, 20), walk(3, 4, 30), ride(4, 5, 40)];
    assert!(is_valid_route(&route(sections)));
}

#[test]
fn section_keeps_what_it_was_made_of() {
    let s = RouteSection::new(Some(7), 1, 2, 10, Some(3));
    assert_eq!(s.journey_id(), Some(7));
    assert_eq!((s.departure_stop_id, s.arrival_stop_id), (1, 2));
    assert_eq!((s.arrival_at, s.duration), (10, Some(3)));
}

#[test]
fn arguments_fit_their_mode() {
    let one = RoutingAlgorithmArgs::solve_from_departure_stop_to_arrival_stop(9);
    assert_eq!(one.mode(), RoutingAlgorithmMode::SolveFromDepartureStopToArrivalStop);
    assert_eq!(one.arrival_stop_id(), 9);
    let many = RoutingAlgorithmArgs::solve_from_departure_stop_to_reachable_arrival_stops(99);
    assert_eq!(
        many.mode(),
        RoutingAlgorithmMode::SolveFromDepartureStopToReachableArrivalStops,
    );
    assert_eq!(many.time_limit(), 99);
}

/// A walk from 1 to 2, a ride on to 3, a walk on to 4, and a ride on to 5.
fn state() -> RaptorState {
    let mut s = RaptorState::new(1, 0);
    assert!(s.try_improve(2, label(10, None, 1, 0), 0, 0, None, true));
    assert!(s.try_improve(3, label(20, Some(7), 2, 0), 1, 10, None, true));
    assert!(s.try_improve(4, label(30, None, 3, 1), 1, 20, None, true));
    assert!(s.try_improve(5, label(40, Some(8), 4, 1), 2, 30, None, true));
    s
}

#[test]
fn route_follows_the_labels_back() {
    let found = reconstruct_route(&state(), 1, 5).unwrap();
    assert_eq!(
        found.sections(),
        &vec![
            walk(1, 2, 10),
            ride(2, 3, 20),
            walk(3, 4, 30),
            RouteSection::new(Some(8), 4, 5, 40, None),
        ],
    );
    assert_eq!(found.visited_stops(), &stops(&[1, 2, 3, 4, 5]));
}

#[test]
fn route_follows_the_round_that_was_best() {
    let mut s = RaptorState::new(1, 0);
    assert!(s.try_improve(2, label(90, Some(7), 1, 0), 1, 0, None, true));
    assert!(s.try_improve(3, label(30, Some(8), 1, 0), 1, 0, None, true));
    assert!(s.try_improve(2, label(50, Some(9), 3, 1), 2, 30, None, true));
    let found = reconstruct_route(&s, 1, 2).unwrap();
    assert_eq!(
        found.sections(),
        &vec![
            RouteSection::new(Some(8), 1, 3, 30, None),
            RouteSection::new(Some(9), 3, 2, 50, None),
        ],
    );
}

#[test]
fn no_route_to_the_departure_stop_or_beyond() {
    assert!(reconstruct_route(&state(), 1, 1).is_none());
    assert!(reconstruct_route(&state(), 1, 6).is_none());
}

#[test]
fn results_for_one_stop() {
    let one = |stop_id: i32| {
        let args = RoutingAlgorithmArgs::solve_from_departure_stop_to_arrival_stop(stop_id);
        reconstruct_results(&state(), 1, &args)
    };
    assert_eq!(one(5).len(), 1);
    assert_eq!(one(5)[&5].sections().len(), 4);
    assert_eq!(one(3).len(), 1);
    assert!(one(2).is_empty());
    assert!(one(1).is_empty());
    assert!(one(6).is_empty());
}

#[test]
fn results_for_all_stops() {
    let args = RoutingAlgorithmArgs::solve_from_departure_stop_to_reachable_arrival_stops(99);
    let found = reconstruct_results(&state(), 1, &args);
    let ids: FxHashSet<i32> = found.keys().copied().collect();
    assert_eq!(ids, stops(&[3, 4, 5]));
    assert_eq!(found[&4].sections(), &vec![walk(1, 2, 10), ride(2, 3, 20), walk(3, 4, 30)]);
}

#[test]
fn labels_in_a_circle_give_no_route() {
    let mut s = RaptorState::new(1, 0);
    assert!(s.try_improve(2, label(10, Some(5), 3, 1), 1, 0, None, true));
    assert!(s.try_improve(3, label(20, Some(6), 2, 1), 1, 10, None, true));
    assert!(reconstruct_route(&s, 1, 3).is_none());
    assert!(reconstruct_route(&s, 1, 2).is_none());
}

#[test]
fn label_that_leads_to_its_own_stop_gives_no_route() {
    let mut s = RaptorState::new(1, 0);
    assert!(s.try_improve(2, label(10, Some(5), 2, 1), 1, 0, None, true));
    assert!(reconstruct_route(&s, 1, 2).is_none());
}

#[test]
fn stop_that_comes_up_again_in_another_round_gives_no_route() {
    let mut s = RaptorState::new(1, 0);
    assert!(s.try_improve(2, label(50, Some(5), 1, 0), 1, 0, None, true));
    assert!(s.try_improve(3, label(60, Some(6), 2, 1), 2, 50, None, true));
    assert!(s.try_improve(2, label(40, Some(7), 3, 2), 3, 0, None, true));
    assert!(reconstruct_route(&s, 1, 2).is_none());
    assert_eq!(reconstruct_route(&s, 1, 3).unwrap().sections().len(), 2);
}

#[test]
fn missing_label_on_the_way_back_gives_no_route() {
    let mut s = RaptorState::new(1, 0);
    assert!(s.try_improve(3, label(20, Some(6), 2, 0), 1, 0, None, true));
    assert!(reconstruct_route(&s, 1, 3).is_none());
    assert!(s.try_improve(4, label(30, Some(7), 3, 5), 2, 0, None, true));
    assert!(reconstruct_route(&s, 1, 4).is_none());
}

#[test]
fn label_of_the_departure_stop_is_not_asked_for() {
    let mut s = RaptorState::new(1, 0);
    assert!(s.try_improve(2, label(10, Some(5), 1, 9), 1, 0, None, true));
    assert_eq!(
        reconstruct_route(&s, 1, 2).unwrap().sections(),
        &vec![RouteSection::new(Some(5), 1, 2, 10, None)],
    );
}

#[test]
fn best_arrival_without_a_label_gives_no_route() {
    let mut s = RaptorState::new(1, 0);
    assert!(s.try_improve(2, label(10, Some(5), 1, 0), 1, 0, None, true));
    s.best_arrival.insert(2, 9);
    assert!(reconstruct_route(&s, 1, 2).is_none());
    s.best_arrival.insert(3, 9);
    assert!(reconstruct_route(&s, 1, 3).is_none());
}

#[test]
fn ties_are_read_from_the_earliest_round() {
    let mut s = RaptorState::new(1, 0);
    assert!(s.try_improve(3, label(10, Some(8), 1, 0), 1, 0, None, true));
    assert!(s.try_improve(2, label(40, Some(7), 3, 1), 2, 10, None, true));
    s.labels_per_round[1].insert(2, label(40, Some(5), 1, 0));
    assert_eq!(
        reconstruct_route(&s, 1, 2).unwrap().sections(),
        &vec![RouteSection::new(Some(5), 1, 2, 40, None)],
    );
    s.labels_per_round[0].insert(2, label(41, Some(4), 1, 0));
    assert_eq!(
        reconstruct_route(&s, 1, 2).unwrap().sections(),
        &vec![RouteSection::new(Some(5), 1, 2, 40, None)],
    );
}

#[test]
fn results_leave_out_stops_without_a_way_back() {
    let mut s = state();
    assert!(s.try_improve(7, label(50, Some(5), 8, 1), 1, 0, None, true));
    assert!(s.try_improve(8, label(60, Some(6), 7, 1), 1, 0, None, true));
    assert!(s.try_improve(9, label(70, Some(6), 99, 1), 1, 0, None, true));
    let all = RoutingAlgorithmArgs::solve_from_departure_stop_to_reachable_arrival_stops(99);
    let found = reconstruct_results(&s, 1, &all);
    let ids: FxHashSet<i32> = found.keys().copied().collect();
    assert_eq!(ids, stops(&[3, 4, 5]));
    for stop_id in 0..10 {
        let args = RoutingAlgorithmArgs::solve_from_departure_stop_to_arrival_stop(stop_id);
        let one = reconstruct_results(&s, 1, &args);
        assert_eq!(one.len(), usize::from(found.contains_key(&stop_id)));
        assert_eq!(
            one.get(&stop_id).map(|r| (r.sections(), r.visited_stops())),
            found.get(&stop_id).map(|r| (r.sections(), r.visited_stops())),
        );
    }
}
