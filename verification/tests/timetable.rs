use hrdf_parser::{Journey, JourneyRouteEntry};
use raptor_routing::calendar::{DAY, HOUR, MINUTE};
use raptor_routing::timetable::{
    ExchangeTime, RouteEntry, Stop, StopConnection, StopService, ThroughService, Timetable,
    TransitJourney, FIRST_SERVICE_DAY, LAST_SERVICE_DAY,
};
use rustc_hash::{FxHashMap, FxHashSet};

const TODAY: i32 = 20_254;

fn at(day: i32, hours: i64, minutes: i64) -> i64 {
    i64::from(day) * DAY + hours * HOUR + minutes * MINUTE
}

fn time(hours: u32, minutes: u32) -> Option<u32> {
    Some(hours * 3_600 + minutes * 60)
}

fn entry(stop_id: i32, arrival_time: Option<u32>, departure_time: Option<u32>) -> RouteEntry {
    RouteEntry { stop_id, arrival_time, departure_time }
}

fn journey(id: i32, route: Vec<RouteEntry>) -> TransitJourney {
    TransitJourney::new(id, 100 + id, "000011".to_string(), false, route)
}

fn empty() -> Timetable {
    Timetable {
        stops: FxHashMap::default(),
        stop_connections: FxHashMap::default(),
        journeys: FxHashMap::default(),
        services: FxHashMap::default(),
        bit_fields_by_day: FxHashMap::default(),
        through_services: FxHashMap::default(),
        exchange_times_by_stop: FxHashMap::default(),
        exchange_times: Vec::new(),
        default_exchange_time: 2,
    }
}

fn active(bit_fields: &[i32]) -> FxHashSet<i32> {
    bit_fields.iter().copied().collect()
}

fn day_train() -> TransitJourney {
    journey(
        1,
        vec![
            entry(10, None, time(8, 0)),
            entry(20, time(8, 10), time(8, 12)),
            entry(30, time(8, 30), None),
        ],
    )
}

fn night_train() -> TransitJourney {
    journey(
        2,
        vec![
            entry(10, None, time(23, 40)),
            entry(20, time(23, 55), time(0, 5)),
            entry(30, time(0, 25), time(0, 30)),
            entry(40, time(0, 50), None),
        ],
    )
}

#[test]
fn journey_keeps_what_it_was_made_of() {
    let j = TransitJourney::new(
        7,
        1234,
        "000072".to_string(),
        true,
        vec![entry(10, None, time(8, 0)), entry(20, time(8, 10), None)],
    );
    assert_eq!(j.id(), 7);
    assert_eq!(j.legacy_id(), 1234);
    assert_eq!(j.administration(), "000072");
    assert!(j.intercity());
    assert_eq!(
        j.route(),
        &vec![entry(10, None, time(8, 0)), entry(20, time(8, 10), None)],
    );
}

#[test]
fn last_stop_of_a_line() {
    let j = day_train();
    assert_eq!(j.is_last_stop(10, true), Some(false));
    assert_eq!(j.is_last_stop(20, false), Some(false));
    assert_eq!(j.is_last_stop(30, true), Some(true));
    assert_eq!(j.is_last_stop(30, false), Some(true));
    assert_eq!(j.is_last_stop(99, false), Some(false));
}

#[test]
fn last_stop_of_a_loop() {
    let j = journey(
        3,
        vec![
            entry(10, None, time(8, 0)),
            entry(20, time(8, 10), time(8, 12)),
            entry(10, time(8, 30), None),
        ],
    );
    assert_eq!(j.is_last_stop(10, true), Some(false));
    assert_eq!(j.is_last_stop(10, false), Some(true));
    assert_eq!(j.is_last_stop(20, false), Some(false));
}

#[test]
fn last_stop_of_a_journey_without_calls() {
    let j = journey(4, Vec::new());
    assert_eq!(j.is_last_stop(10, true), None);
    assert_eq!(j.is_last_stop(10, false), None);
}

#[test]
fn departures_on_the_day() {
    let j = day_train();
    assert_eq!(j.departure_at_of(10, TODAY), Some(at(TODAY, 8, 0)));
    assert_eq!(j.departure_at_of(20, TODAY), Some(at(TODAY, 8, 12)));
}

#[test]
fn no_departure_where_none_is_given() {
    let j = day_train();
    assert_eq!(j.departure_at_of(30, TODAY), None);
    assert_eq!(j.departure_at_of(99, TODAY), None);
}

#[test]
fn departures_after_midnight_are_on_the_next_day() {
    let j = night_train();
    assert_eq!(j.departure_at_of(10, TODAY), Some(at(TODAY, 23, 40)));
    assert_eq!(j.departure_at_of(20, TODAY), Some(at(TODAY + 1, 0, 5)));
    assert_eq!(j.departure_at_of(30, TODAY), Some(at(TODAY + 1, 0, 30)));
}

#[test]
fn arrivals_on_the_day() {
    let j = day_train();
    assert_eq!(j.arrival_at_of_with_origin(20, TODAY, 10), Some(at(TODAY, 8, 10)));
    assert_eq!(j.arrival_at_of_with_origin(30, TODAY, 20), Some(at(TODAY, 8, 30)));
}

#[test]
fn no_arrival_where_none_is_given() {
    let j = day_train();
    assert_eq!(j.arrival_at_of_with_origin(10, TODAY, 20), None);
    assert_eq!(j.arrival_at_of_with_origin(99, TODAY, 20), None);
    assert_eq!(j.arrival_at_of_with_origin(20, TODAY, 99), None);
    assert_eq!(j.arrival_at_of_with_origin(20, TODAY, 30), None);
}

#[test]
fn arrivals_over_midnight() {
    let j = night_train();
    assert_eq!(j.arrival_at_of_with_origin(20, TODAY, 10), Some(at(TODAY, 23, 55)));
    assert_eq!(j.arrival_at_of_with_origin(30, TODAY, 10), Some(at(TODAY + 1, 0, 25)));
    assert_eq!(j.arrival_at_of_with_origin(40, TODAY, 20), Some(at(TODAY, 0, 50)));
    assert_eq!(j.arrival_at_of_with_origin(20, TODAY, 30), Some(at(TODAY - 1, 23, 55)));
}

#[test]
fn arrival_in_a_loop_is_the_second_call() {
    let j = journey(
        3,
        vec![
            entry(10, None, time(8, 0)),
            entry(20, time(8, 10), time(8, 12)),
            entry(10, time(8, 30), None),
        ],
    );
    assert_eq!(j.arrival_at_of_with_origin(10, TODAY, 20), Some(at(TODAY, 8, 30)));
}

#[test]
fn hashes_are_those_of_the_stops_ahead() {
    let early = day_train();
    let late = journey(
        9,
        vec![
            entry(5, None, time(8, 30)),
            entry(10, time(8, 50), time(9, 0)),
            entry(20, time(9, 10), time(9, 12)),
            entry(30, time(9, 30), None),
        ],
    );
    assert_eq!(early.hash_route(99), None);
    assert_eq!(early.hash_route(5), None);
    assert!(early.hash_route(10).is_some());
    assert_eq!(early.hash_route(10), late.hash_route(10));
    assert_ne!(early.hash_route(10), early.hash_route(20));
    let mut outside = Journey::new(1, 101, "000011".to_string());
    for stop_id in [10, 20, 30] {
        outside.add_route_entry(JourneyRouteEntry::new(stop_id, None, None));
    }
    assert_eq!(early.hash_route(10), outside.hash_route(10));
    assert_eq!(early.hash_route(20), outside.hash_route(20));
}

#[test]
fn hashes_leave_out_the_order_of_the_stops() {
    let calls = |stop_ids: &[i32]| {
        journey(1, stop_ids.iter().map(|&stop_id| entry(stop_id, None, None)).collect())
    };
    let there = calls(&[10, 20, 30]).hash_route(10);
    assert_eq!(calls(&[10, 30, 20]).hash_route(10), there);
    assert_eq!(calls(&[10, 20, 10, 30]).hash_route(10), there);
    assert_eq!(calls(&[40, 10, 20, 30]).hash_route(10), there);
    assert_ne!(calls(&[10, 20]).hash_route(10), there);
    assert_ne!(calls(&[10, 20, 30, 40]).hash_route(10), there);
}

#[test]
fn exchange_flag_makes_an_exchange_point() {
    assert!(!Stop { exchange_flag: 0 }.can_be_used_as_exchange_point());
    assert!(Stop { exchange_flag: 1 }.can_be_used_as_exchange_point());
    assert!(Stop { exchange_flag: 16 }.can_be_used_as_exchange_point());
}

#[test]
fn empty_timetable_is_valid() {
    assert!(empty().is_valid());
}

#[test]
fn journeys_are_filed_under_their_ids() {
    let mut t = empty();
    t.journeys.insert(1, day_train());
    assert!(t.is_valid());
    t.journeys.insert(5, night_train());
    assert!(!t.is_valid());
}

#[test]
fn service_days_end_before_the_calendar() {
    let mut t = empty();
    t.bit_fields_by_day.insert(LAST_SERVICE_DAY, active(&[1]));
    assert!(t.is_valid());
    t.bit_fields_by_day.insert(LAST_SERVICE_DAY + 1, active(&[1]));
    assert!(!t.is_valid());
}

#[test]
fn service_days_start_after_the_calendar() {
    let mut t = empty();
    t.bit_fields_by_day.insert(FIRST_SERVICE_DAY, active(&[1]));
    assert!(t.is_valid());
    t.bit_fields_by_day.insert(FIRST_SERVICE_DAY - 1, active(&[1]));
    assert!(!t.is_valid());
}

#[test]
fn bit_fields_are_active_on_their_days() {
    let mut t = empty();
    t.bit_fields_by_day.insert(TODAY, active(&[1, 2]));
    assert!(t.is_active(TODAY, 1));
    assert!(!t.is_active(TODAY, 3));
    assert!(!t.is_active(TODAY + 1, 1));
}

#[test]
fn connections_of_a_stop() {
    let mut t = empty();
    t.stop_connections.insert(10, vec![StopConnection { stop_id_2: 11, duration: 4 }]);
    let found = t.get_stop_connections(10).unwrap();
    assert_eq!(found.len(), 1);
    assert_eq!((found[0].stop_id_2, found[0].duration), (11, 4));
    assert!(t.get_stop_connections(11).is_none());
}

#[test]
fn operating_journeys_are_those_of_the_day() {
    let mut t = empty();
    t.bit_fields_by_day.insert(TODAY, active(&[1, 3]));
    t.bit_fields_by_day.insert(TODAY + 1, active(&[2]));
    t.services.insert(
        10,
        vec![
            StopService { bit_field_id: 3, journey_id: 9 },
            StopService { bit_field_id: 2, journey_id: 8 },
            StopService { bit_field_id: 1, journey_id: 7 },
        ],
    );
    assert_eq!(t.get_operating_journeys(TODAY, 10), vec![9, 7]);
    assert_eq!(t.get_operating_journeys(TODAY + 1, 10), vec![8]);
    assert_eq!(t.get_operating_journeys(TODAY + 2, 10), Vec::<i32>::new());
    assert_eq!(t.get_operating_journeys(TODAY, 20), Vec::<i32>::new());
}

fn exchange(duration: i16) -> ExchangeTime {
    ExchangeTime {
        legacy_ids: None,
        administrations: None,
        intercity: false,
        bit_field_id: None,
        duration,
    }
}

#[test]
fn exchange_time_is_the_default_where_nothing_applies() {
    let t = empty();
    let minutes = t.get_exchange_time(10, &day_train(), &night_train(), at(TODAY, 9, 0));
    assert_eq!(minutes, 2);
}

#[test]
fn exchange_time_of_the_stop_comes_first() {
    let mut t = empty();
    t.exchange_times.push(exchange(7));
    t.exchange_times_by_stop.insert(10, vec![exchange(5), exchange(6)]);
    let departure = at(TODAY, 9, 0);
    assert_eq!(t.get_exchange_time(10, &day_train(), &night_train(), departure), 5);
    assert_eq!(t.get_exchange_time(20, &day_train(), &night_train(), departure), 7);
}

#[test]
fn exchange_time_of_two_journeys() {
    let mut t = empty();
    t.exchange_times.push(ExchangeTime { legacy_ids: Some((101, 102)), ..exchange(11) });
    let departure = at(TODAY, 9, 0);
    assert_eq!(t.get_exchange_time(10, &day_train(), &night_train(), departure), 11);
    assert_eq!(t.get_exchange_time(10, &night_train(), &day_train(), departure), 2);
}

#[test]
fn exchange_time_of_two_administrations() {
    let mut t = empty();
    let names = Some(("000011".to_string(), "000022".to_string()));
    t.exchange_times.push(ExchangeTime { administrations: names, ..exchange(12) });
    let other = TransitJourney::new(5, 105, "000022".to_string(), false, Vec::new());
    let departure = at(TODAY, 9, 0);
    assert_eq!(t.get_exchange_time(10, &day_train(), &other, departure), 12);
    assert_eq!(t.get_exchange_time(10, &day_train(), &night_train(), departure), 2);
    assert_eq!(t.get_exchange_time(10, &other, &day_train(), departure), 2);
}

#[test]
fn exchange_time_between_intercity_journeys() {
    let mut t = empty();
    t.exchange_times_by_stop.insert(
        10,
        vec![ExchangeTime { intercity: true, ..exchange(3) }, exchange(8)],
    );
    let fast = |id: i32| TransitJourney::new(id, id, "000011".to_string(), true, Vec::new());
    let departure = at(TODAY, 9, 0);
    assert_eq!(t.get_exchange_time(10, &fast(1), &fast(2), departure), 3);
    assert_eq!(t.get_exchange_time(10, &fast(1), &day_train(), departure), 8);
    assert_eq!(t.get_exchange_time(10, &day_train(), &fast(2), departure), 8);
}

#[test]
fn exchange_time_on_the_day_of_the_departure() {
    let mut t = empty();
    t.bit_fields_by_day.insert(TODAY + 1, active(&[4]));
    t.exchange_times.push(ExchangeTime { bit_field_id: Some(4), ..exchange(9) });
    let (a, b) = (day_train(), night_train());
    assert_eq!(t.get_exchange_time(10, &a, &b, at(TODAY, 23, 59)), 2);
    assert_eq!(t.get_exchange_time(10, &a, &b, at(TODAY + 1, 0, 0)), 9);
    assert_eq!(t.get_exchange_time(10, &a, &b, at(TODAY + 1, 23, 59)), 9);
    assert_eq!(t.get_exchange_time(10, &a, &b, at(TODAY + 2, 0, 0)), 2);
}

#[test]
fn through_service_joins_two_journeys_at_a_stop() {
    let mut t = empty();
    t.bit_fields_by_day.insert(TODAY, active(&[4]));
    t.through_services.insert(
        30,
        vec![ThroughService {
            legacy_id_1: 101,
            administration_1: "000011".to_string(),
            legacy_id_2: 102,
            administration_2: "000011".to_string(),
            bit_field_id: 4,
        }],
    );
    let (a, b) = (day_train(), night_train());
    assert!(t.has_through_service(TODAY, &a, &b, 30));
    assert!(!t.has_through_service(TODAY, &b, &a, 30));
    assert!(!t.has_through_service(TODAY, &a, &b, 20));
    assert!(!t.has_through_service(TODAY + 1, &a, &b, 30));
}

#[test]
fn through_service_asks_for_the_administration() {
    let mut t = empty();
    t.bit_fields_by_day.insert(TODAY, active(&[4]));
    t.through_services.insert(
        30,
        vec![ThroughService {
            legacy_id_1: 101,
            administration_1: "000022".to_string(),
            legacy_id_2: 102,
            administration_2: "000011".to_string(),
            bit_field_id: 4,
        }],
    );
    assert!(!t.has_through_service(TODAY, &day_train(), &night_train(), 30));
}

#[test]
fn calls_compare_by_what_they_hold() {
    assert_eq!(entry(10, None, time(8, 0)), entry(10, None, time(8, 0)));
    assert_ne!(entry(10, None, time(8, 0)), entry(10, None, time(8, 1)));
}
