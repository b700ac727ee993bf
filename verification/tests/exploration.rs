use raptor_routing::calendar::{DAY, HOUR, MAX_DAY, MINUTE};
use raptor_routing::routing::exploration::{
    has_through_service_for_journeys, process_departures, process_initial_transfers,
    process_journey, process_journeys_for_date, process_stop_journeys, process_transfers,
    sorted_departures, Boarding, Departure,
};
use raptor_routing::routing::models::RoutingAlgorithmArgs;
use raptor_routing::routing::state::{RaptorLabel, RaptorState};
use raptor_routing::timetable::{
    RouteEntry, Stop, StopConnection, StopService, ThroughService, Timetable, TransitJourney,
};
use rustc_hash::{FxHashMap, FxHashSet};

const TODAY: i32 = 20_254;

fn at(day: i32, hours: i64, minutes: i64) -> i64 {
    i64::from(day) * DAY + hours * HOUR + minutes * MINUTE
}

/// Calls at the stops, ten minutes apart, the first at the given time.
fn line(id: i32, stops: &[i32], hours: u32, minutes: u32) -> TransitJourney {
    let start = hours * 3_600 + minutes * 60;
    let route = stops
        .iter()
        .enumerate()
        .map(|(i, &stop_id)| {
            let time = (start + 600 * i as u32) % 86_400;
            RouteEntry {
                stop_id,
                arrival_time: if i == 0 { None } else { Some(time) },
                departure_time: if i + 1 == stops.len() { None } else { Some(time) },
            }
        })
        .collect();
    TransitJourney::new(id, 100 + id, "000011".to_string(), false, route)
}

/// A timetable in which every stop is an exchange point and every journey runs today and tomorrow.
fn timetable(lines: Vec<TransitJourney>) -> Timetable {
    let mut t = Timetable {
        stops: FxHashMap::default(),
        stop_connections: FxHashMap::default(),
        journeys: FxHashMap::default(),
        services: FxHashMap::default(),
        bit_fields_by_day: FxHashMap::default(),
        through_services: FxHashMap::default(),
        exchange_times_by_stop: FxHashMap::default(),
        exchange_times: Vec::new(),
        default_exchange_time: 5,
    };
    for day in [TODAY, TODAY + 1] {
        let mut bit_fields: FxHashSet<i32> = FxHashSet::default();
        bit_fields.insert(1);
        t.bit_fields_by_day.insert(day, bit_fields);
    }
    for journey in lines {
        for call in journey.route().iter() {
            t.stops.insert(call.stop_id, Stop { exchange_flag: 1 });
            let services = t.services.entry(call.stop_id).or_default();
            services.push(StopService { bit_field_id: 1, journey_id: journey.id() });
        }
        t.journeys.insert(journey.id(), journey);
    }
    t
}

fn boarding(stop_id: i32, arrival_time: i64) -> Boarding {
    Boarding {
        stop_id,
        arrival_time,
        previous_journey_id: None,
        round: 1,
        source_round: 0,
        time_limit: None,
        target_stop_id: None,
    }
}

fn ride(journey_id: i32, from_stop_id: i32, arrival_time: i64) -> RaptorLabel {
    RaptorLabel {
        arrival_time,
        journey_id: Some(journey_id),
        from_stop_id,
        boarding_stop_id: from_stop_id,
        transfer_duration: None,
        source_round: 0,
    }
}

fn to_stop(stop_id: i32) -> RoutingAlgorithmArgs {
    RoutingAlgorithmArgs::solve_from_departure_stop_to_arrival_stop(stop_id)
}

#[test]
fn ride_reaches_every_later_exchange_point() {
    let t = timetable(vec![line(1, &[10, 20, 30, 40], 8, 0)]);
    let start = at(TODAY, 7, 50);
    let mut s = RaptorState::new(20, start);
    process_journey(&t, &mut s, &t.journeys[&1], &boarding(20, start), TODAY);
    assert!(s.get_label(10, 1).is_none());
    assert_eq!(s.get_label(30, 1), Some(&ride(1, 20, at(TODAY, 8, 20))));
    assert_eq!(s.get_label(40, 1), Some(&ride(1, 20, at(TODAY, 8, 30))));
    assert!(s.marked_stops.contains(&30) && s.marked_stops.contains(&40));
}

#[test]
fn ride_passes_over_other_stops() {
    let mut t = timetable(vec![line(1, &[10, 20, 30, 40], 8, 0)]);
    t.stops.insert(20, Stop { exchange_flag: 0 });
    t.stops.insert(40, Stop { exchange_flag: 0 });
    t.stops.remove(&30);
    let start = at(TODAY, 7, 50);
    let mut s = RaptorState::new(10, start);
    process_journey(&t, &mut s, &t.journeys[&1], &boarding(10, start), TODAY);
    assert!(s.get_label(20, 1).is_none());
    assert!(s.get_label(30, 1).is_none());
    assert_eq!(s.get_label(40, 1), Some(&ride(1, 10, at(TODAY, 8, 30))));
}

#[test]
fn ride_may_end_at_the_target() {
    let mut t = timetable(vec![line(1, &[10, 20, 30], 8, 0)]);
    t.stops.insert(20, Stop { exchange_flag: 0 });
    let start = at(TODAY, 7, 50);
    let mut s = RaptorState::new(10, start);
    let b = Boarding { target_stop_id: Some(20), ..boarding(10, start) };
    process_journey(&t, &mut s, &t.journeys[&1], &b, TODAY);
    assert_eq!(s.get_label(20, 1), Some(&ride(1, 10, at(TODAY, 8, 10))));
}

#[test]
fn nobody_boards_at_the_last_stop() {
    let t = timetable(vec![line(1, &[10, 20], 8, 0)]);
    let start = at(TODAY, 7, 50);
    let mut s = RaptorState::new(20, start);
    process_journey(&t, &mut s, &t.journeys[&1], &boarding(20, start), TODAY);
    assert_eq!(s.labels_per_round.len(), 1);
}

#[test]
fn nobody_boards_where_the_journey_does_not_call() {
    let t = timetable(vec![line(1, &[10, 20], 8, 0)]);
    let start = at(TODAY, 7, 50);
    let mut s = RaptorState::new(99, start);
    process_journey(&t, &mut s, &t.journeys[&1], &boarding(99, start), TODAY);
    assert_eq!(s.labels_per_round.len(), 1);
}

#[test]
fn departure_must_not_be_missed() {
    let t = timetable(vec![line(1, &[10, 20], 8, 0)]);
    let mut s = RaptorState::new(10, at(TODAY, 8, 1));
    process_journey(&t, &mut s, &t.journeys[&1], &boarding(10, at(TODAY, 8, 1)), TODAY);
    assert!(s.get_label(20, 1).is_none());
    let mut s = RaptorState::new(10, at(TODAY, 8, 0));
    process_journey(&t, &mut s, &t.journeys[&1], &boarding(10, at(TODAY, 8, 0)), TODAY);
    assert!(s.get_label(20, 1).is_some());
}

#[test]
fn exchange_time_must_fit_in() {
    let t = timetable(vec![line(1, &[10, 20], 8, 0), line(2, &[5, 10], 7, 0)]);
    for (minutes, boards) in [(55, true), (56, false)] {
        let arrival = at(TODAY, 7, minutes);
        let mut s = RaptorState::new(10, arrival);
        let b = Boarding { previous_journey_id: Some(2), ..boarding(10, arrival) };
        process_journey(&t, &mut s, &t.journeys[&1], &b, TODAY);
        assert_eq!(s.get_label(20, 1).is_some(), boards);
    }
}

#[test]
fn unknown_previous_journey_asks_for_no_exchange_time() {
    let t = timetable(vec![line(1, &[10, 20], 8, 0)]);
    let arrival = at(TODAY, 8, 0);
    let mut s = RaptorState::new(10, arrival);
    let b = Boarding { previous_journey_id: Some(77), ..boarding(10, arrival) };
    process_journey(&t, &mut s, &t.journeys[&1], &b, TODAY);
    assert!(s.get_label(20, 1).is_some());
}

#[test]
fn through_service_asks_for_no_exchange_time() {
    let mut t = timetable(vec![line(1, &[10, 20], 8, 0), line(2, &[5, 10], 7, 50)]);
    t.through_services.insert(
        10,
        vec![ThroughService {
            legacy_id_1: 102,
            administration_1: "000011".to_string(),
            legacy_id_2: 101,
            administration_2: "000011".to_string(),
            bit_field_id: 1,
        }],
    );
    let (first, second) = (&t.journeys[&2], &t.journeys[&1]);
    assert!(has_through_service_for_journeys(&t, TODAY, first, second, 10));
    assert!(!has_through_service_for_journeys(&t, TODAY, second, first, 10));
    assert!(!has_through_service_for_journeys(&t, TODAY + 5, first, second, 10));
    let arrival = at(TODAY, 8, 0);
    let mut s = RaptorState::new(10, arrival);
    let b = Boarding { previous_journey_id: Some(2), ..boarding(10, arrival) };
    process_journey(&t, &mut s, second, &b, TODAY);
    assert!(s.get_label(20, 1).is_some());
    t.through_services.clear();
    let mut s = RaptorState::new(10, arrival);
    process_journey(&t, &mut s, &t.journeys[&1], &b, TODAY);
    assert!(s.get_label(20, 1).is_none());
}

#[test]
fn ride_keeps_the_time_limit() {
    let t = timetable(vec![line(1, &[10, 20, 30], 8, 0)]);
    let start = at(TODAY, 7, 50);
    let mut s = RaptorState::new(10, start);
    let b = Boarding { time_limit: Some(at(TODAY, 8, 10)), ..boarding(10, start) };
    process_journey(&t, &mut s, &t.journeys[&1], &b, TODAY);
    assert!(s.get_label(20, 1).is_some());
    assert!(s.get_label(30, 1).is_none());
}

#[test]
fn departures_are_sorted_by_time_and_ties_stay() {
    let t = timetable(vec![
        line(1, &[10, 20], 9, 0),
        line(2, &[10, 30], 8, 30),
        line(3, &[10, 40], 9, 0),
        line(4, &[10, 50], 8, 0),
        line(5, &[10, 60], 6, 0),
        line(6, &[60, 10], 9, 0),
    ]);
    let b = boarding(10, at(TODAY, 7, 0));
    let found = sorted_departures(&t, &vec![1, 2, 3, 4, 5, 6, 99], &b, TODAY);
    let at_nine = at(TODAY, 9, 0);
    assert_eq!(
        found,
        vec![
            Departure { journey_id: 4, departure_time: at(TODAY, 8, 0) },
            Departure { journey_id: 2, departure_time: at(TODAY, 8, 30) },
            Departure { journey_id: 1, departure_time: at_nine },
            Departure { journey_id: 3, departure_time: at_nine },
        ],
    );
}

#[test]
fn route_that_was_taken_is_passed_over() {
    let t = timetable(vec![line(1, &[10, 20], 8, 0), line(2, &[10, 30], 8, 30)]);
    let start = at(TODAY, 7, 50);
    let list = vec![
        Departure { journey_id: 1, departure_time: at(TODAY, 8, 0) },
        Departure { journey_id: 2, departure_time: at(TODAY, 8, 30) },
    ];
    let b = boarding(10, start);
    for (hashes, reached) in [
        (vec![Some(7), Some(8)], true),
        (vec![Some(7), Some(7)], false),
        (vec![Some(7), None], true),
        (vec![None, None], true),
    ] {
        let mut s = RaptorState::new(10, start);
        let mut taken: FxHashSet<u64> = FxHashSet::default();
        process_departures(&t, &mut s, &list, &hashes, &b, TODAY, &mut taken);
        assert!(s.get_label(20, 1).is_some());
        assert_eq!(s.get_label(30, 1).is_some(), reached);
        assert_eq!(taken, hashes.iter().flatten().copied().collect());
    }
}

#[test]
fn route_that_was_taken_before_the_day_is_passed_over() {
    let t = timetable(vec![line(1, &[10, 20], 8, 0), line(2, &[10, 30], 8, 30)]);
    let start = at(TODAY, 7, 50);
    let list = vec![
        Departure { journey_id: 1, departure_time: at(TODAY, 8, 0) },
        Departure { journey_id: 2, departure_time: at(TODAY, 8, 30) },
    ];
    let mut s = RaptorState::new(10, start);
    let mut taken: FxHashSet<u64> = FxHashSet::default();
    taken.insert(7);
    let hashes = vec![Some(7), Some(8)];
    process_departures(&t, &mut s, &list, &hashes, &boarding(10, start), TODAY, &mut taken);
    assert!(s.get_label(20, 1).is_none());
    assert!(s.get_label(30, 1).is_some());
    assert_eq!(taken.len(), 2);
}

#[test]
fn order_of_the_journeys_does_not_matter() {
    let t = timetable(vec![
        line(1, &[10, 20, 40], 8, 0),
        line(2, &[10, 30], 8, 30),
        line(3, &[10, 20, 40], 9, 0),
        line(4, &[10, 50, 40], 7, 55),
        line(5, &[10, 60], 6, 0),
    ]);
    let start = at(TODAY, 7, 50);
    let b = boarding(10, start);
    let run = |ids: Vec<i32>| {
        let mut s = RaptorState::new(10, start);
        let mut taken: FxHashSet<u64> = FxHashSet::default();
        process_journeys_for_date(&t, &mut s, &ids, &b, TODAY, &mut taken);
        (s.labels_per_round, s.best_arrival, s.marked_stops, s.round_improved_stops, taken)
    };
    let first = run(vec![1, 2, 3, 4, 5]);
    assert_eq!(first.1.get(&40), Some(&at(TODAY, 8, 15)));
    assert_eq!(first.4.len(), 3);
    for ids in [vec![5, 4, 3, 2, 1], vec![3, 1, 5, 2, 4], vec![2, 5, 1, 4, 3]] {
        assert_eq!(run(ids), first);
    }
}

#[test]
fn walks_reach_the_end_of_the_calendar() {
    let mut t = timetable(Vec::new());
    t.stop_connections.insert(10, vec![StopConnection { stop_id_2: 11, duration: 4 }]);
    let start = at(MAX_DAY, 23, 55);
    let mut s = RaptorState::new(10, start);
    process_initial_transfers(&t, &mut s, 10, start);
    assert_eq!(s.best_arrival.get(&11), Some(&at(MAX_DAY, 23, 59)));
}

#[test]
fn earliest_journey_over_the_same_stops_is_taken() {
    let t = timetable(vec![line(1, &[10, 20], 9, 0), line(2, &[10, 20], 8, 0)]);
    let start = at(TODAY, 7, 50);
    let mut s = RaptorState::new(10, start);
    let mut taken: FxHashSet<u64> = FxHashSet::default();
    let b = boarding(10, start);
    process_journeys_for_date(&t, &mut s, &vec![1, 2], &b, TODAY, &mut taken);
    assert_eq!(taken.len(), 1);
    assert_eq!(s.get_label(20, 1), Some(&ride(2, 10, at(TODAY, 8, 10))));
    assert_eq!(taken.iter().next().copied(), t.journeys[&1].hash_route(10));
}

/// Two lines over the same stops, of which only the second ends at 20, where nobody changes.
fn there_and_back(second: u32) -> Timetable {
    let lines = vec![line(1, &[10, 20, 30], 21, 0), line(2, &[10, 30, 20], second, 0)];
    let mut t = timetable(lines);
    t.stops.insert(20, Stop { exchange_flag: 0 });
    t
}

#[test]
fn one_journey_per_route_is_ridden_on_a_day() {
    let t = there_and_back(22);
    let mut s = RaptorState::new(10, at(TODAY, 20, 0));
    process_stop_journeys(&t, &mut s, 10, 1, &to_stop(30));
    assert_eq!(s.get_label(30, 1), Some(&ride(1, 10, at(TODAY, 21, 20))));
    assert!(s.get_label(20, 1).is_none());
    let mut s = RaptorState::new(10, at(TODAY, 21, 30));
    process_stop_journeys(&t, &mut s, 10, 1, &to_stop(30));
    assert_eq!(s.get_label(30, 1), Some(&ride(2, 10, at(TODAY, 22, 10))));
    assert_eq!(s.get_label(20, 1), Some(&ride(2, 10, at(TODAY, 22, 20))));
}

#[test]
fn one_journey_per_route_is_ridden_on_two_days() {
    let t = there_and_back(6);
    let mut s = RaptorState::new(10, at(TODAY, 20, 0));
    process_stop_journeys(&t, &mut s, 10, 1, &to_stop(30));
    assert_eq!(s.get_label(30, 1), Some(&ride(1, 10, at(TODAY, 21, 20))));
    assert!(s.get_label(20, 1).is_none());
    let mut s = RaptorState::new(10, at(TODAY, 21, 30));
    process_stop_journeys(&t, &mut s, 10, 1, &to_stop(30));
    assert_eq!(s.get_label(20, 1), Some(&ride(2, 10, at(TODAY + 1, 6, 20))));
}

#[test]
fn every_route_is_ridden() {
    let lines = vec![line(1, &[10, 20], 8, 0), line(2, &[10, 30], 8, 5), line(3, &[10, 40], 9, 0)];
    let t = timetable(lines);
    let mut s = RaptorState::new(10, at(TODAY, 7, 50));
    process_stop_journeys(&t, &mut s, 10, 1, &to_stop(40));
    assert_eq!(s.get_label(20, 1), Some(&ride(1, 10, at(TODAY, 8, 10))));
    assert_eq!(s.get_label(30, 1), Some(&ride(2, 10, at(TODAY, 8, 15))));
    assert_eq!(s.get_label(40, 1), Some(&ride(3, 10, at(TODAY, 9, 10))));
}

#[test]
fn stop_is_boarded_with_the_latest_earlier_label() {
    let t = timetable(vec![line(1, &[10, 20], 8, 0), line(2, &[10, 30], 9, 0)]);
    let mut s = RaptorState::new(5, at(TODAY, 7, 0));
    let walk = RaptorLabel {
        arrival_time: at(TODAY, 8, 30),
        journey_id: None,
        from_stop_id: 5,
        boarding_stop_id: 5,
        transfer_duration: Some(90),
        source_round: 0,
    };
    assert!(s.try_improve(10, walk, 0, at(TODAY, 7, 0), None, true));
    process_stop_journeys(&t, &mut s, 10, 1, &to_stop(30));
    assert!(s.get_label(20, 1).is_none());
    assert_eq!(s.get_label(30, 1), Some(&ride(2, 10, at(TODAY, 9, 10))));
}

#[test]
fn stop_that_was_not_reached_is_not_boarded() {
    let t = timetable(vec![line(1, &[10, 20], 8, 0)]);
    let mut s = RaptorState::new(5, at(TODAY, 7, 0));
    process_stop_journeys(&t, &mut s, 10, 1, &to_stop(20));
    assert_eq!(s.labels_per_round.len(), 1);
}

#[test]
fn next_day_counts_from_eight_in_the_evening() {
    let t = timetable(vec![line(1, &[10, 20], 6, 0)]);
    let mut s = RaptorState::new(10, at(TODAY, 20, 0));
    process_stop_journeys(&t, &mut s, 10, 1, &to_stop(20));
    assert_eq!(s.get_label(20, 1), Some(&ride(1, 10, at(TODAY + 1, 6, 10))));
    let mut s = RaptorState::new(10, at(TODAY, 20, 0) - 1);
    process_stop_journeys(&t, &mut s, 10, 1, &to_stop(20));
    assert!(s.get_label(20, 1).is_none());
}

#[test]
fn next_day_leaves_routes_that_were_taken_today() {
    let t = timetable(vec![line(1, &[10, 20], 22, 0), line(2, &[10, 30], 6, 0)]);
    let mut s = RaptorState::new(10, at(TODAY, 21, 0));
    process_stop_journeys(&t, &mut s, 10, 1, &to_stop(20));
    assert_eq!(s.get_label(20, 1), Some(&ride(1, 10, at(TODAY, 22, 10))));
    assert_eq!(s.get_label(30, 1), Some(&ride(2, 10, at(TODAY + 1, 6, 10))));
}

#[test]
fn ride_over_midnight_arrives_on_the_next_day() {
    let t = timetable(vec![line(1, &[10, 20, 30], 23, 45)]);
    let mut s = RaptorState::new(10, at(TODAY, 23, 0));
    process_stop_journeys(&t, &mut s, 10, 1, &to_stop(30));
    assert_eq!(s.get_label(20, 1), Some(&ride(1, 10, at(TODAY, 23, 55))));
    assert_eq!(s.get_label(30, 1), Some(&ride(1, 10, at(TODAY + 1, 0, 5))));
}

#[test]
fn call_after_midnight_is_boarded_on_the_next_day() {
    let t = timetable(vec![line(1, &[10, 20, 30], 23, 55)]);
    let start = at(TODAY, 22, 0);
    let mut s = RaptorState::new(20, start);
    let b = boarding(20, start);
    let found = sorted_departures(&t, &vec![1], &b, TODAY);
    assert_eq!(found, vec![Departure { journey_id: 1, departure_time: at(TODAY + 1, 0, 5) }]);
    // The arrival is counted from the day of the departure, which is taken to be today.
    process_journey(&t, &mut s, &t.journeys[&1], &b, TODAY);
    assert!(s.get_label(30, 1).is_none());
    let early = at(TODAY, 0, 0);
    let mut s = RaptorState::new(20, early);
    process_journey(&t, &mut s, &t.journeys[&1], &boarding(20, early), TODAY);
    assert_eq!(s.get_label(30, 1), Some(&ride(1, 20, at(TODAY, 0, 15))));
}

#[test]
fn walks_from_the_departure_stop() {
    let mut t = timetable(Vec::new());
    t.stop_connections.insert(
        10,
        vec![
            StopConnection { stop_id_2: 11, duration: 4 },
            StopConnection { stop_id_2: 12, duration: 0 },
            StopConnection { stop_id_2: 13, duration: 600 },
        ],
    );
    let start = at(TODAY, 7, 0);
    let mut s = RaptorState::new(10, start);
    process_initial_transfers(&t, &mut s, 10, start);
    assert_eq!(
        s.get_label(11, 0),
        Some(&RaptorLabel {
            arrival_time: at(TODAY, 7, 4),
            journey_id: None,
            from_stop_id: 10,
            boarding_stop_id: 10,
            transfer_duration: Some(4),
            source_round: 0,
        }),
    );
    assert!(s.get_label(12, 0).is_none());
    assert_eq!(s.best_arrival.get(&13), Some(&at(TODAY, 17, 0)));
    assert!(s.marked_stops.contains(&11));
}

#[test]
fn no_walks_without_connections() {
    let t = timetable(Vec::new());
    let start = at(TODAY, 7, 0);
    let mut s = RaptorState::new(10, start);
    process_initial_transfers(&t, &mut s, 10, start);
    assert_eq!(s.best_arrival.len(), 1);
}

fn after_ride(t: &Timetable, args: &RoutingAlgorithmArgs) -> RaptorState {
    let start = at(TODAY, 7, 0);
    let mut s = RaptorState::new(5, start);
    assert!(s.try_improve(10, ride(1, 5, at(TODAY, 8, 0)), 1, start, None, true));
    process_transfers(t, &mut s, 10, 1, args);
    s
}

#[test]
fn walks_after_a_ride_stay_in_the_round() {
    let mut t = timetable(vec![line(1, &[5, 10, 11, 12], 7, 50)]);
    t.stop_connections.insert(
        10,
        vec![
            StopConnection { stop_id_2: 11, duration: 4 },
            StopConnection { stop_id_2: 99, duration: 1 },
        ],
    );
    let s = after_ride(&t, &to_stop(11));
    assert_eq!(
        s.get_label(11, 1),
        Some(&RaptorLabel {
            arrival_time: at(TODAY, 8, 4),
            journey_id: None,
            from_stop_id: 10,
            boarding_stop_id: 10,
            transfer_duration: Some(4),
            source_round: 1,
        }),
    );
    assert!(s.best_arrival.get(&99).is_none());
}

#[test]
fn walks_start_at_exchange_points_only() {
    let mut t = timetable(vec![line(1, &[5, 10, 11, 12], 7, 50)]);
    t.stop_connections.insert(10, vec![StopConnection { stop_id_2: 11, duration: 4 }]);
    t.stops.insert(10, Stop { exchange_flag: 0 });
    assert!(after_ride(&t, &to_stop(11)).best_arrival.get(&11).is_none());
    t.stops.remove(&10);
    assert!(after_ride(&t, &to_stop(11)).best_arrival.get(&11).is_none());
}

#[test]
fn walks_keep_the_time_limit() {
    let mut t = timetable(vec![line(1, &[5, 10, 11, 12], 7, 50)]);
    t.stop_connections.insert(
        10,
        vec![
            StopConnection { stop_id_2: 11, duration: 4 },
            StopConnection { stop_id_2: 12, duration: 5 },
        ],
    );
    let args = RoutingAlgorithmArgs::solve_from_departure_stop_to_reachable_arrival_stops(
        at(TODAY, 8, 4),
    );
    let s = after_ride(&t, &args);
    assert!(s.best_arrival.contains_key(&11));
    assert!(!s.best_arrival.contains_key(&12));
}

#[test]
fn walks_need_a_label_of_the_round() {
    let mut t = timetable(vec![line(1, &[5, 10, 11, 12], 7, 50)]);
    t.stop_connections.insert(5, vec![StopConnection { stop_id_2: 11, duration: 4 }]);
    let mut s = RaptorState::new(5, at(TODAY, 7, 0));
    process_transfers(&t, &mut s, 5, 1, &to_stop(11));
    assert!(!s.best_arrival.contains_key(&11));
    process_transfers(&t, &mut s, 5, 0, &to_stop(11));
    assert_eq!(s.best_arrival.get(&11), Some(&at(TODAY, 7, 4)));
}
