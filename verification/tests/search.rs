use raptor_routing::calendar::{DAY, HOUR, MAX_DAY, MINUTE, MIN_DAY};
use raptor_routing::routing::models::{Route, RouteSection, RoutingAlgorithmArgs};
use raptor_routing::routing::raptor::raptor_compute;
use raptor_routing::timetable::{
    RouteEntry, Stop, StopConnection, StopService, ThroughService, Timetable, TransitJourney,
};
use rustc_hash::{FxHashMap, FxHashSet};

const TODAY: i32 = 20_254;

fn at(day: i32, hours: i64, minutes: i64) -> i64 {
    i64::from(day) * DAY + hours * HOUR + minutes * MINUTE
}

/// Calls at the stops, ten minutes apart, the first at the given time.
fn line(id: i32, stops: &[i32], hours: u32, minutes: u32) -> TransitJourney {
    let start = hours * 3_600 + minutes * 60;
    let route = stops
        .iter()
        .enumerate()
        .map(|(i, &stop_id)| {
            let time = (start + 600 * i as u32) % 86_400;
            RouteEntry {
                stop_id,
                arrival_time: if i == 0 { None } else { Some(time) },
                departure_time: if i + 1 == stops.len() { None } else { Some(time) },
            }
        })
        .collect();
    TransitJourney::new(id, 100 + id, "000011".to_string(), false, route)
}

/// A timetable in which every stop is an exchange point and every journey runs today and tomorrow.
fn timetable(lines: Vec<TransitJourney>) -> Timetable {
    let mut t = Timetable {
        stops: FxHashMap::default(),
        stop_connections: FxHashMap::default(),
        journeys: FxHashMap::default(),
        services: FxHashMap::default(),
        bit_fields_by_day: FxHashMap::default(),
        through_services: FxHashMap::default(),
        exchange_times_by_stop: FxHashMap::default(),
        exchange_times: Vec::new(),
        default_exchange_time: 5,
    };
    for day in [TODAY, TODAY + 1] {
        let mut bit_fields: FxHashSet<i32> = FxHashSet::default();
        bit_fields.insert(1);
        t.bit_fields_by_day.insert(day, bit_fields);
    }
    for journey in lines {
        for call in journey.route().iter() {
            t.stops.insert(call.stop_id, Stop { exchange_flag: 1 });
            let services = t.services.entry(call.stop_id).or_default();
            services.push(StopService { bit_field_id: 1, journey_id: journey.id() });
        }
        t.journeys.insert(journey.id(), journey);
    }
    t
}

fn walk_both_ways(t: &mut Timetable, a: i32, b: i32, duration: i16) {
    for (from, to) in [(a, b), (b, a)] {
        let walks = t.stop_connections.entry(from).or_default();
        walks.push(StopConnection { stop_id_2: to, duration });
    }
}

fn one_to_one(t: &Timetable, from: i32, to: i32, start: i64, changes: i32) -> Option<Route> {
    assert!(t.is_valid());
    let args = RoutingAlgorithmArgs::solve_from_departure_stop_to_arrival_stop(to);
    let mut found = raptor_compute(t, from, start, changes, false, args);
    let route = found.remove(&to);
    assert!(found.is_empty());
    route
}

fn one_to_many(
    t: &Timetable,
    from: i32,
    start: i64,
    limit: i64,
    changes: i32,
) -> FxHashMap<i32, Route> {
    assert!(t.is_valid());
    let args = RoutingAlgorithmArgs::solve_from_departure_stop_to_reachable_arrival_stops(limit);
    raptor_compute(t, from, start, changes, false, args)
}

fn ride(journey_id: i32, from: i32, to: i32, arrival_at: i64) -> RouteSection {
    RouteSection::new(Some(journey_id), from, to, arrival_at, None)
}

fn walk(from: i32, to: i32, arrival_at: i64, duration: i16) -> RouteSection {
    RouteSection::new(None, from, to, arrival_at, Some(duration))
}

fn ids(found: &FxHashMap<i32, Route>) -> FxHashSet<i32> {
    found.keys().copied().collect()
}

fn stops(ids: &[i32]) -> FxHashSet<i32> {
    ids.iter().copied().collect()
}

/// Two lines that meet at 20, and a third that leaves from 31, a walk away from 30.
fn network() -> Timetable {
    let mut t = timetable(vec![
        line(1, &[10, 20], 8, 0),
        line(2, &[20, 30], 8, 15),
        line(3, &[31, 40], 8, 40),
    ]);
    walk_both_ways(&mut t, 30, 31, 4);
    t
}

#[test]
fn empty_timetable_has_no_routes() {
    let t = timetable(Vec::new());
    assert!(one_to_one(&t, 10, 20, at(TODAY, 8, 0), 3).is_none());
    assert!(one_to_many(&t, 10, at(TODAY, 8, 0), at(TODAY, 9, 0), 3).is_empty());
}

#[test]
fn direct_ride() {
    let t = network();
    let found = one_to_one(&t, 10, 20, at(TODAY, 7, 55), 0).unwrap();
    assert_eq!(found.sections(), &vec![ride(1, 10, 20, at(TODAY, 8, 10))]);
    assert_eq!(found.visited_stops(), &stops(&[10, 20]));
}

#[test]
fn direct_journey_is_not_beaten() {
    let t = timetable(vec![
        line(1, &[10, 11, 12, 13, 14, 15, 20], 8, 0),
        line(2, &[10, 20], 8, 30),
        line(3, &[10, 20], 8, 40),
    ]);
    for changes in 0..3 {
        let found = one_to_one(&t, 10, 20, at(TODAY, 7, 55), changes).unwrap();
        assert_eq!(found.sections(), &vec![ride(2, 10, 20, at(TODAY, 8, 40))]);
    }
}

#[test]
fn changes_are_limited() {
    let t = network();
    let start = at(TODAY, 7, 55);
    assert!(one_to_one(&t, 10, 30, start, 0).is_none());
    assert_eq!(
        one_to_one(&t, 10, 30, start, 1).unwrap().sections(),
        &vec![ride(1, 10, 20, at(TODAY, 8, 10)), ride(2, 20, 30, at(TODAY, 8, 25))],
    );
    assert!(one_to_one(&t, 10, 40, start, 1).is_none());
    assert!(one_to_one(&t, 10, 40, start, 2).is_some());
}

#[test]
fn walk_between_two_rides() {
    let found = one_to_one(&network(), 10, 40, at(TODAY, 7, 55), 5).unwrap();
    assert_eq!(
        found.sections(),
        &vec![
            ride(1, 10, 20, at(TODAY, 8, 10)),
            ride(2, 20, 30, at(TODAY, 8, 25)),
            walk(30, 31, at(TODAY, 8, 29), 4),
            ride(3, 31, 40, at(TODAY, 8, 50)),
        ],
    );
    assert_eq!(found.visited_stops(), &stops(&[10, 20, 30, 31, 40]));
}

#[test]
fn sections_follow_each_other() {
    let found = one_to_many(&network(), 10, at(TODAY, 7, 55), at(TODAY, 12, 0), 5);
    for (stop_id, route) in &found {
        let (mut place, mut time) = (10, at(TODAY, 7, 55));
        let mut visited = stops(&[10]);
        for section in route.sections() {
            assert_eq!(section.departure_stop_id, place);
            assert!(section.arrival_at > time);
            assert!(visited.insert(section.arrival_stop_id));
            place = section.arrival_stop_id;
            time = section.arrival_at;
        }
        assert_eq!(place, *stop_id);
        assert_eq!(&visited, route.visited_stops());
    }
    assert_eq!(ids(&found), stops(&[20, 30, 31, 40]));
}

#[test]
fn without_rounds_there_is_no_answer() {
    let t = network();
    assert!(one_to_one(&t, 10, 20, at(TODAY, 7, 55), -1).is_none());
    assert!(one_to_one(&t, 10, 20, at(TODAY, 7, 55), -7).is_none());
    assert!(one_to_many(&t, 30, at(TODAY, 7, 55), at(TODAY, 12, 0), -1).is_empty());
}

#[test]
fn walks_alone_are_no_answer() {
    let t = network();
    assert!(one_to_one(&t, 30, 31, at(TODAY, 12, 0), 3).is_none());
    assert!(one_to_many(&t, 30, at(TODAY, 12, 0), at(TODAY, 13, 0), 3).is_empty());
}

#[test]
fn departure_stop_is_no_answer() {
    let t = network();
    assert!(one_to_one(&t, 10, 10, at(TODAY, 7, 55), 3).is_none());
    assert!(!one_to_many(&t, 10, at(TODAY, 7, 55), at(TODAY, 12, 0), 3).contains_key(&10));
}

#[test]
fn unknown_stop_is_no_answer() {
    assert!(one_to_one(&network(), 10, 999, at(TODAY, 7, 55), 3).is_none());
    assert!(one_to_one(&network(), 999, 10, at(TODAY, 7, 55), 3).is_none());
}

#[test]
fn walk_to_the_first_ride() {
    let found = one_to_one(&network(), 30, 40, at(TODAY, 8, 30), 0).unwrap();
    assert_eq!(
        found.sections(),
        &vec![walk(30, 31, at(TODAY, 8, 34), 4), ride(3, 31, 40, at(TODAY, 8, 50))],
    );
    assert!(one_to_one(&network(), 30, 40, at(TODAY, 8, 37), 0).is_none());
}

#[test]
fn walk_after_the_last_ride() {
    let found = one_to_one(&network(), 20, 31, at(TODAY, 8, 0), 0).unwrap();
    assert_eq!(
        found.sections(),
        &vec![ride(2, 20, 30, at(TODAY, 8, 25)), walk(30, 31, at(TODAY, 8, 29), 4)],
    );
}

#[test]
fn exchange_time_decides_about_a_change() {
    let mut t = network();
    t.default_exchange_time = 6;
    assert!(one_to_one(&t, 10, 30, at(TODAY, 7, 55), 1).is_none());
    t.through_services.insert(
        20,
        vec![ThroughService {
            legacy_id_1: 101,
            administration_1: "000011".to_string(),
            legacy_id_2: 102,
            administration_2: "000011".to_string(),
            bit_field_id: 1,
        }],
    );
    assert!(one_to_one(&t, 10, 30, at(TODAY, 7, 55), 1).is_some());
}

#[test]
fn time_limit_bounds_the_answers() {
    let t = network();
    let start = at(TODAY, 7, 55);
    assert_eq!(ids(&one_to_many(&t, 10, start, at(TODAY, 8, 9), 5)), stops(&[]));
    assert_eq!(ids(&one_to_many(&t, 10, start, at(TODAY, 8, 10), 5)), stops(&[20]));
    assert_eq!(ids(&one_to_many(&t, 10, start, at(TODAY, 8, 28), 5)), stops(&[20, 30]));
    assert_eq!(ids(&one_to_many(&t, 10, start, at(TODAY, 8, 29), 5)), stops(&[20, 30, 31]));
    for (_, route) in &one_to_many(&t, 10, start, at(TODAY, 8, 29), 5) {
        assert!(route.sections().last().unwrap().arrival_at <= at(TODAY, 8, 29));
    }
}

#[test]
fn earlier_arrival_with_more_changes_wins() {
    let t = timetable(vec![
        line(1, &[10, 20], 8, 0),
        line(2, &[20, 40], 8, 20),
        line(3, &[10, 11, 12, 13, 14, 15, 40], 8, 0),
    ]);
    let start = at(TODAY, 7, 55);
    let direct = one_to_one(&t, 10, 40, start, 0).unwrap();
    assert_eq!(direct.sections(), &vec![ride(3, 10, 40, at(TODAY, 9, 0))]);
    let faster = one_to_one(&t, 10, 40, start, 1).unwrap();
    assert_eq!(
        faster.sections(),
        &vec![ride(1, 10, 20, at(TODAY, 8, 10)), ride(2, 20, 40, at(TODAY, 8, 30))],
    );
    assert_eq!(one_to_one(&t, 10, 40, start, 9).unwrap().sections(), faster.sections());
}

#[test]
fn equal_arrival_with_fewer_changes_wins() {
    let t = timetable(vec![
        line(1, &[10, 20], 8, 0),
        line(2, &[20, 40], 8, 20),
        line(3, &[10, 11, 12, 40], 8, 0),
    ]);
    let found = one_to_one(&t, 10, 40, at(TODAY, 7, 55), 4).unwrap();
    assert_eq!(found.sections(), &vec![ride(3, 10, 40, at(TODAY, 8, 30))]);
}

#[test]
fn only_journeys_of_the_day_are_taken() {
    let mut t = network();
    t.bit_fields_by_day.remove(&TODAY);
    assert!(one_to_one(&t, 10, 20, at(TODAY, 7, 55), 0).is_none());
    let found = one_to_one(&t, 10, 20, at(TODAY, 20, 0), 0).unwrap();
    assert_eq!(found.sections(), &vec![ride(1, 10, 20, at(TODAY + 1, 8, 10))]);
    assert!(one_to_one(&t, 10, 20, at(TODAY, 19, 59), 0).is_none());
}

#[test]
fn target_need_not_be_an_exchange_point() {
    let mut t = timetable(vec![line(1, &[10, 20, 30], 8, 0)]);
    t.stops.insert(20, Stop { exchange_flag: 0 });
    let start = at(TODAY, 7, 55);
    assert!(one_to_one(&t, 10, 20, start, 0).is_some());
    assert_eq!(ids(&one_to_many(&t, 10, start, at(TODAY, 9, 0), 3)), stops(&[30]));
}

#[test]
fn ride_over_midnight() {
    let t = timetable(vec![line(1, &[10, 20, 30], 23, 45), line(2, &[30, 40], 0, 20)]);
    let found = one_to_one(&t, 10, 40, at(TODAY, 23, 30), 1).unwrap();
    assert_eq!(
        found.sections(),
        &vec![ride(1, 10, 30, at(TODAY + 1, 0, 5)), ride(2, 30, 40, at(TODAY + 1, 0, 30))],
    );
}

#[test]
fn search_ends_when_nothing_is_left_to_board() {
    let found = one_to_one(&network(), 10, 40, at(TODAY, 7, 55), 1_000_000_000).unwrap();
    assert_eq!(found.sections().len(), 4);
}

#[test]
fn more_rounds_never_arrive_later() {
    let t = network();
    let (start, limit) = (at(TODAY, 7, 55), at(TODAY, 12, 0));
    for fewer in -1..4 {
        let before = one_to_many(&t, 10, start, limit, fewer);
        let after = one_to_many(&t, 10, start, limit, fewer + 1);
        for (stop_id, route) in &before {
            let arrival = after[stop_id].sections().last().unwrap().arrival_at;
            assert!(arrival <= route.sections().last().unwrap().arrival_at);
        }
    }
}

#[test]
fn verbose_flag_changes_nothing() {
    let t = network();
    let limit = at(TODAY, 12, 0);
    let run = |verbose: bool| {
        let args =
            RoutingAlgorithmArgs::solve_from_departure_stop_to_reachable_arrival_stops(limit);
        raptor_compute(&t, 10, at(TODAY, 7, 55), 5, verbose, args)
    };
    let (loud, quiet) = (run(true), run(false));
    assert_eq!(ids(&loud), ids(&quiet));
    for (stop_id, route) in &loud {
        assert_eq!(route.sections(), quiet[stop_id].sections());
    }
}

#[test]
fn departure_at_the_ends_of_the_calendar() {
    let t = network();
    assert!(one_to_one(&t, 10, 20, at(MAX_DAY, 23, 59), 3).is_none());
    assert!(one_to_one(&t, 10, 20, at(MIN_DAY, 0, 0), 3).is_none());
}
