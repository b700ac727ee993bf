//! What a search promises: of the timetable that it is given and the answers that it returns.

use crate::calendar::{DAY, HOUR, MINUTE};
use crate::lookups::{
    exchange_points_have_a_flag, first_calls_are_found, is_first_call,
    last_stops_are_those_of_last_calls, walks_are_listed,
};
use crate::routing::completeness::{
    boarding_after, departures_are_taken, ride_counts, ride_is_taken, walk_counts,
    walks_after_rides_are_taken, walks_from_departure_are_taken,
};
use crate::routing::exploration::{can_depart, departures_on};
use crate::routing::laws::{
    answers_keep_the_time_limit, has_no_cycle, lemma_some_ride, outcome_is_sound, query, rides,
    rides_are_limited, routes_connect, routes_visit_no_stop_twice,
};
use crate::routing::models::{Route, RouteSection, RoutingAlgorithmArgs};
use crate::routing::raptor::{is_outcome, may_return, raptor_compute};
use crate::routing::reconstruction::{are_results, is_valid, route_to};
use crate::routing::soundness::{label_ok, lemma_operating_day};
use crate::routing::sources::{has_source, labels_have_sources};
use crate::routing::state::SearchState;
use crate::routing::steps::{
    boarding_with, is_earliest_of_route, is_first_of_route, is_in_time, is_listed_walk, is_ride_day,
    is_ride_end, is_ride_with, leaves, lemma_caught, lemma_leaves, lemma_new_departure,
    lemma_ride_days, may_end_at,
};
use crate::routing::way_back::{
    follow_labels, is_earliest_best, is_of_label, labels_that_lead_back_give_the_route,
    routes_follow_the_labels,
};
use crate::timetable::{
    arrival_of, departure_of, lemma_arrival_day, lemma_departure_day, position, StopConnection,
    Timetable,
};
use rustc_hash::FxHashMap;
use vstd::prelude::*;

verus! {

/// A search for which the timetable and the departure are as they have to be, and the state in
/// which it ends.
pub open spec fn ends_with(
    timetable: &Timetable,
    args: RoutingAlgorithmArgs,
    departure_stop_id: i32,
    departure_at: i64,
    max_rounds: i32,
    t: SearchState,
) -> bool {
    &&& timetable.wf()
    &&& can_depart(timetable, departure_stop_id, departure_at)
    &&& max_rounds < i32::MAX
    &&& is_outcome(timetable, args, departure_stop_id, departure_at, max_rounds, t)
}

/// A search for which the timetable and the departure are as they have to be, and what
/// `raptor_compute` returns for it, verbose or not.
pub open spec fn answers_with(
    timetable: &Timetable,
    args: RoutingAlgorithmArgs,
    departure_stop_id: i32,
    departure_at: i64,
    max_rounds: i32,
    results: Map<i32, Route>,
) -> bool {
    &&& timetable.wf()
    &&& can_depart(timetable, departure_stop_id, departure_at)
    &&& max_rounds < i32::MAX
    &&& exists|verbose: bool, returned: FxHashMap<i32, Route>| #[trigger]
        call_ensures(
            raptor_compute,
            (timetable, departure_stop_id, departure_at, max_rounds, verbose, args),
            returned,
        ) && returned@ == results
}

/// The passenger who reaches the stop in the round takes the journey of the day that leaves at
/// `time`: it is one of a day that counts for the arrival, leaves as the first of its route, and
/// the passenger is in time for it.
pub open spec fn takes(
    timetable: &Timetable,
    t: SearchState,
    round: int,
    stop_id: i32,
    day: i32,
    id: i32,
    time: int,
) -> bool {
    let label = t.label(round, stop_id);
    &&& is_ride_day(label.arrival_time as int, day as int)
    &&& leaves(timetable, day, stop_id, label.arrival_time, id, time)
    &&& is_first_of_route(timetable, day, stop_id, label.arrival_time, id, time)
    &&& is_in_time(
        timetable,
        stop_id,
        label.arrival_time,
        label.journey_id,
        timetable.journeys@[id]@,
        day,
        time,
    )
}

/// When a search ends, every stop at which a ride from a stop that it has reached in time may end
/// is reached by the arrival of that ride, at the latest. A stop that was reached in a round is
/// reached in time if a change there is still allowed; how it was reached does not matter.
pub proof fn rides_lead_on(
    timetable: &Timetable,
    args: RoutingAlgorithmArgs,
    departure_stop_id: i32,
    departure_at: i64,
    max_rounds: i32,
    t: SearchState,
    round: int,
    stop_id: i32,
    day: i32,
    id: i32,
    time: int,
    i: int,
    arrival: int,
)
    requires
        ends_with(timetable, args, departure_stop_id, departure_at, max_rounds, t),
        0 <= round <= max_rounds,
        t.has(round, stop_id),
        takes(timetable, t, round, stop_id, day, id, time),
        is_ride_end(
            timetable,
            boarding_with(args, t, stop_id, (round + 1) as usize, round),
            timetable.journeys@[id]@,
            day,
            i,
            arrival,
        ),
    ensures
        t.best.contains_key(timetable.journeys@[id]@.route[i].stop_id),
        t.best[timetable.journeys@[id]@.route[i].stop_id] <= arrival,
{
    let q = query(args, departure_stop_id, departure_at);
    let b = boarding_after(args, t, round, stop_id);
    let journey = timetable.journeys@[id]@;
    let end = journey.route[i].stop_id;
    outcome_is_sound(timetable, args, departure_stop_id, departure_at, max_rounds, t);
    assert(label_ok(timetable, q, t, round, stop_id));
    departures_are_taken(
        timetable,
        args,
        departure_stop_id,
        departure_at,
        max_rounds,
        t,
        round,
        stop_id,
    );
    assert(b == boarding_with(args, t, stop_id, (round + 1) as usize, round));
    lemma_leaves(timetable, b, day, id, time);
    lemma_operating_day(timetable, day, stop_id, id);
    lemma_ride_days(b);
    let k = lemma_new_departure(timetable, b, day, id, time);
    let list = departures_on(timetable, b, day);
    assert(timetable.journey(list[k].journey_id) == Some(journey));
    assert(ride_is_taken(timetable, b, journey, day, t));
    lemma_caught(timetable, b, journey, day);
    last_stops_are_those_of_last_calls(journey.route, end);
    exchange_points_have_a_flag(timetable, end);
    lemma_arrival_day(journey, end, day as int, stop_id);
    assert(ride_counts(timetable, b, journey, day, i));
}

/// In a search for one stop, a ride may end there wherever a journey calls at it, whether or not it
/// has an exchange flag, whatever round boards the journey and however its boarding stop was
/// reached.
pub proof fn the_target_is_reached_at_every_call(
    timetable: &Timetable,
    args: RoutingAlgorithmArgs,
    departure_stop_id: i32,
    departure_at: i64,
    max_rounds: i32,
    t: SearchState,
    target: i32,
    round: int,
    stop_id: i32,
    day: i32,
    id: i32,
    time: int,
    k: int,
    i: int,
    arrival: int,
)
    requires
        ends_with(timetable, args, departure_stop_id, departure_at, max_rounds, t),
        args.target() == Some(target),
        args.limit() is None,
        timetable.stops@.contains_key(target),
        0 <= round <= max_rounds,
        t.has(round, stop_id),
        stop_id != target,
        takes(timetable, t, round, stop_id, day, id, time),
        0 <= k < i < timetable.journeys@[id]@.route.len(),
        timetable.journeys@[id]@.route[k].stop_id == stop_id,
        timetable.journeys@[id]@.route[i].stop_id == target,
        arrival_of(timetable.journeys@[id]@.route, target, day as int, stop_id) == Some(arrival),
        t.label(round, stop_id).arrival_time < arrival,
    ensures
        t.best.contains_key(target),
        t.best[target] <= arrival,
{
    rides_lead_on(
        timetable,
        args,
        departure_stop_id,
        departure_at,
        max_rounds,
        t,
        round,
        stop_id,
        day,
        id,
        time,
        i,
        arrival,
    );
}

/// The last stop of a journey that is boarded is reached by its arrival there, at the latest,
/// whether or not it has an exchange flag, in a search with a time limit as in one without.
pub proof fn last_stops_are_reached(
    timetable: &Timetable,
    args: RoutingAlgorithmArgs,
    departure_stop_id: i32,
    departure_at: i64,
    max_rounds: i32,
    t: SearchState,
    round: int,
    stop_id: i32,
    day: i32,
    id: i32,
    time: int,
    arrival: int,
)
    requires
        ends_with(timetable, args, departure_stop_id, departure_at, max_rounds, t),
        0 <= round <= max_rounds,
        t.has(round, stop_id),
        takes(timetable, t, round, stop_id, day, id, time),
        ({
            let last = timetable.journeys@[id]@.route.last().stop_id;
            &&& timetable.stops@.contains_key(last)
            &&& last != stop_id
            &&& arrival_of(timetable.journeys@[id]@.route, last, day as int, stop_id) == Some(
                arrival,
            )
        }),
        t.label(round, stop_id).arrival_time < arrival,
        args.limit() is None || arrival <= args.limit()->0,
    ensures
        t.best.contains_key(timetable.journeys@[id]@.route.last().stop_id),
        t.best[timetable.journeys@[id]@.route.last().stop_id] <= arrival,
{
    let route = timetable.journeys@[id]@.route;
    let i = route.len() - 1;
    lemma_departure_day(timetable.journeys@[id]@, stop_id, day as int);
    first_calls_are_found(route, stop_id, 0);
    let k = position(route, stop_id, 0)->0;
    assert(is_first_call(route, stop_id, 0, k));
    assert(route[k].stop_id == stop_id);
    rides_lead_on(
        timetable,
        args,
        departure_stop_id,
        departure_at,
        max_rounds,
        t,
        round,
        stop_id,
        day,
        id,
        time,
        i,
        arrival,
    );
}

/// From a stop that is reached at eight in the evening or later, by a ride or a walk, the journeys
/// of the following day lead on as well: those that leave as the first of a route with which none
/// leaves on the day of the arrival.
pub proof fn evenings_lead_on_to_the_following_day(
    timetable: &Timetable,
    args: RoutingAlgorithmArgs,
    departure_stop_id: i32,
    departure_at: i64,
    max_rounds: i32,
    t: SearchState,
    round: int,
    stop_id: i32,
    day: i32,
    id: i32,
    time: int,
    i: int,
    arrival: int,
)
    requires
        ends_with(timetable, args, departure_stop_id, departure_at, max_rounds, t),
        0 <= round <= max_rounds,
        t.has(round, stop_id),
        ({
            let label = t.label(round, stop_id);
            let midnight = (label.arrival_time as int / DAY as int) * DAY;
            &&& label.arrival_time >= midnight + 20 * HOUR
            &&& day * DAY == midnight + DAY
            &&& leaves(timetable, day, stop_id, label.arrival_time, id, time)
            &&& is_first_of_route(timetable, day, stop_id, label.arrival_time, id, time)
            &&& is_in_time(
                timetable,
                stop_id,
                label.arrival_time,
                label.journey_id,
                timetable.journeys@[id]@,
                day,
                time,
            )
        }),
        is_ride_end(
            timetable,
            boarding_with(args, t, stop_id, (round + 1) as usize, round),
            timetable.journeys@[id]@,
            day,
            i,
            arrival,
        ),
    ensures
        t.best.contains_key(timetable.journeys@[id]@.route[i].stop_id),
        t.best[timetable.journeys@[id]@.route[i].stop_id] <= arrival,
{
    rides_lead_on(
        timetable,
        args,
        departure_stop_id,
        departure_at,
        max_rounds,
        t,
        round,
        stop_id,
        day,
        id,
        time,
        i,
        arrival,
    );
}

/// When a search ends, every known stop within a listed walk of a stop with an exchange flag that a
/// ride has reached is reached by the end of the walk, at the latest, if that keeps the time limit.
pub proof fn walks_lead_on(
    timetable: &Timetable,
    args: RoutingAlgorithmArgs,
    departure_stop_id: i32,
    departure_at: i64,
    max_rounds: i32,
    t: SearchState,
    round: int,
    stop_id: i32,
    connection: StopConnection,
)
    requires
        ends_with(timetable, args, departure_stop_id, departure_at, max_rounds, t),
        t.has(round, stop_id),
        t.label(round, stop_id).journey_id is Some,
        timetable.stops@.contains_key(stop_id),
        timetable.stops@[stop_id].exchange_flag != 0,
        is_listed_walk(timetable, stop_id, connection),
        timetable.stops@.contains_key(connection.stop_id_2),
        connection.duration > 0,
        args.limit() is None || t.label(round, stop_id).arrival_time + connection.duration * MINUTE
            <= args.limit()->0,
    ensures
        t.best.contains_key(connection.stop_id_2),
        t.best[connection.stop_id_2] <= t.label(round, stop_id).arrival_time + connection.duration
            * MINUTE,
{
    let q = query(args, departure_stop_id, departure_at);
    let connections = timetable.connections(stop_id);
    outcome_is_sound(timetable, args, departure_stop_id, departure_at, max_rounds, t);
    assert(label_ok(timetable, q, t, round, stop_id));
    walks_after_rides_are_taken(
        timetable,
        args,
        departure_stop_id,
        departure_at,
        max_rounds,
        t,
        round,
        stop_id,
    );
    walks_are_listed(timetable, stop_id);
    exchange_points_have_a_flag(timetable, stop_id);
    let k = choose|k: int| 0 <= k < connections.len() && connections[k] == connection;
    assert(walk_counts(
        timetable,
        t.label(round, stop_id).arrival_time,
        connections[k],
        args.limit(),
    ));
}

/// When a search ends, every stop within a listed walk of the departure stop is reached by the end
/// of the walk, at the latest, whatever the time limit is.
pub proof fn walks_lead_off(
    timetable: &Timetable,
    args: RoutingAlgorithmArgs,
    departure_stop_id: i32,
    departure_at: i64,
    max_rounds: i32,
    t: SearchState,
    connection: StopConnection,
)
    requires
        ends_with(timetable, args, departure_stop_id, departure_at, max_rounds, t),
        is_listed_walk(timetable, departure_stop_id, connection),
        connection.duration > 0,
    ensures
        t.best.contains_key(connection.stop_id_2),
        t.best[connection.stop_id_2] <= departure_at + connection.duration * MINUTE,
{
    let connections = timetable.connections(departure_stop_id);
    walks_are_listed(timetable, departure_stop_id);
    let k = choose|k: int| 0 <= k < connections.len() && connections[k] == connection;
    walks_from_departure_are_taken(
        timetable,
        args,
        departure_stop_id,
        departure_at,
        max_rounds,
        t,
        k,
    );
}

/// Where the passenger is before section `i`, and when, and with which journey, if with one.
pub open spec fn before(
    departure_stop_id: i32,
    departure_at: i64,
    sections: Seq<RouteSection>,
    i: int,
) -> (i32, i64, Option<i32>) {
    if i == 0 {
        (departure_stop_id, departure_at, None)
    } else {
        (sections[i - 1].arrival_stop_id, sections[i - 1].arrival_at, sections[i - 1].journey_id)
    }
}

/// The section is a ride with the journey of the day that leaves at `time`, the earliest of its
/// route: the passenger, who is at the stop at `arrival` and has left the journey `left`, if one,
/// is in time for it, and it calls later at the stop of the section, where a ride may end, at the
/// instant of the section.
pub open spec fn is_ride_section(
    timetable: &Timetable,
    target: Option<i32>,
    stop_id: i32,
    arrival: i64,
    left: Option<i32>,
    section: RouteSection,
    day: i32,
    time: int,
) -> bool {
    let id = section.journey_id->0;
    let journey = timetable.journeys@[id]@;
    &&& section.departure_stop_id == stop_id
    &&& section.duration is None
    &&& is_ride_day(arrival as int, day as int)
    &&& leaves(timetable, day, stop_id, arrival, id, time)
    &&& is_earliest_of_route(timetable, day, stop_id, arrival, id, time)
    &&& is_in_time(timetable, stop_id, arrival, left, journey, day, time)
    &&& exists|k: int, i: int|
        0 <= k < i < journey.route.len() && (#[trigger] journey.route[k]).stop_id == stop_id && (
        #[trigger] journey.route[i]).stop_id == section.arrival_stop_id
    &&& may_end_at(timetable, target, journey.route, section.arrival_stop_id)
    &&& arrival_of(journey.route, section.arrival_stop_id, day as int, stop_id) == Some(
        section.arrival_at as int,
    )
    &&& arrival < section.arrival_at
}

/// The label from which a section goes on.
proof fn lemma_section(
    timetable: &Timetable,
    args: RoutingAlgorithmArgs,
    departure_stop_id: i32,
    departure_at: i64,
    max_rounds: i32,
    t: SearchState,
    sections: Seq<RouteSection>,
    rounds: Seq<int>,
    i: int,
)
    requires
        ends_with(timetable, args, departure_stop_id, departure_at, max_rounds, t),
        follow_labels(t, departure_stop_id, sections, rounds),
        0 <= i < sections.len(),
        sections[i].arrival_stop_id != departure_stop_id,
    ensures
        ({
            let q = query(args, departure_stop_id, departure_at);
            let stop_id = sections[i].arrival_stop_id;
            let label = t.label(rounds[i], stop_id);
            let source = t.label(label.source_round as int, label.from_stop_id);
            &&& label_ok(timetable, q, t, rounds[i], stop_id)
            &&& has_source(
                timetable,
                args,
                departure_stop_id,
                departure_at,
                t,
                rounds[i],
                stop_id,
            )
            &&& t.has(label.source_round as int, label.from_stop_id)
            &&& before(departure_stop_id, departure_at, sections, i) == (
                label.from_stop_id,
                source.arrival_time,
                source.journey_id,
            )
            &&& i == 0 ==> label.source_round == 0
        }),
{
    let q = query(args, departure_stop_id, departure_at);
    outcome_is_sound(timetable, args, departure_stop_id, departure_at, max_rounds, t);
    assert(is_of_label(t, departure_stop_id, sections, rounds, i));
    let label = t.label(rounds[i], sections[i].arrival_stop_id);
    assert(label_ok(timetable, q, t, rounds[i], sections[i].arrival_stop_id));
    labels_have_sources(timetable, args, departure_stop_id, departure_at, max_rounds, t);
    assert(has_source(
        timetable,
        args,
        departure_stop_id,
        departure_at,
        t,
        rounds[i],
        sections[i].arrival_stop_id,
    ));
    if i == 0 {
        assert(label_ok(timetable, q, t, label.source_round as int, departure_stop_id));
    } else {
        assert(is_of_label(t, departure_stop_id, sections, rounds, i - 1));
    }
}

/// What is returned are the routes of a state in which the search ends.
proof fn lemma_returned(
    timetable: &Timetable,
    args: RoutingAlgorithmArgs,
    departure_stop_id: i32,
    departure_at: i64,
    max_rounds: i32,
    results: Map<i32, Route>,
) -> (t: SearchState)
    requires
        answers_with(timetable, args, departure_stop_id, departure_at, max_rounds, results),
    ensures
        ends_with(timetable, args, departure_stop_id, departure_at, max_rounds, t),
        are_results(t, departure_stop_id, args, results),
{
    let (verbose, returned) = choose|verbose: bool, returned: FxHashMap<i32, Route>| #[trigger]
        call_ensures(
            raptor_compute,
            (timetable, departure_stop_id, departure_at, max_rounds, verbose, args),
            returned,
        ) && returned@ == results;
    assert(may_return(
        timetable,
        departure_stop_id,
        departure_at,
        max_rounds,
        verbose,
        args,
        results,
    ));
    choose|t: SearchState| #[trigger]
        is_outcome(timetable, args, departure_stop_id, departure_at, max_rounds, t) && are_results(
            t,
            departure_stop_id,
            args,
            results,
        )
}

/// The route that answers a search is one of a state in which it ends.
proof fn lemma_answer(
    timetable: &Timetable,
    args: RoutingAlgorithmArgs,
    departure_stop_id: i32,
    departure_at: i64,
    max_rounds: i32,
    results: Map<i32, Route>,
    stop_id: i32,
) -> (found: (SearchState, Seq<int>))
    requires
        answers_with(timetable, args, departure_stop_id, departure_at, max_rounds, results),
        results.contains_key(stop_id),
    ensures
        ends_with(timetable, args, departure_stop_id, departure_at, max_rounds, found.0),
        route_to(found.0, departure_stop_id, stop_id) == Some(results[stop_id]@),
        is_valid(results[stop_id]@.sections),
        follow_labels(found.0, departure_stop_id, results[stop_id]@.sections, found.1),
        is_earliest_best(found.0, stop_id, found.1.last()),
        results[stop_id]@.sections.len() > 0,
        results[stop_id]@.sections.last().arrival_stop_id == stop_id,
        forall|i: int|
            0 <= i < results[stop_id]@.sections.len() ==> (
            #[trigger] results[stop_id]@.sections[i]).arrival_stop_id != departure_stop_id,
{
    let t = lemma_returned(
        timetable,
        args,
        departure_stop_id,
        departure_at,
        max_rounds,
        results,
    );
    let rounds = routes_follow_the_labels(t, departure_stop_id, stop_id);
    routes_visit_no_stop_twice(
        timetable,
        args,
        departure_stop_id,
        departure_at,
        max_rounds,
        t,
        stop_id,
    );
    (t, rounds)
}

/// Every ride of an answer can be taken: there is a day on which the journey runs at the stop where
/// the passenger is, it leaves after the passenger has come there and with the exchange time kept,
/// and it takes the passenger to the end of the section at the instant of the section.
pub proof fn rides_of_answers_are_caught(
    timetable: &Timetable,
    args: RoutingAlgorithmArgs,
    departure_stop_id: i32,
    departure_at: i64,
    max_rounds: i32,
    results: Map<i32, Route>,
    stop_id: i32,
    i: int,
)
    requires
        answers_with(timetable, args, departure_stop_id, departure_at, max_rounds, results),
        results.contains_key(stop_id),
        0 <= i < results[stop_id]@.sections.len(),
        results[stop_id]@.sections[i].journey_id is Some,
    ensures
        ({
            let sections = results[stop_id]@.sections;
            let (from, arrival, left) = before(departure_stop_id, departure_at, sections, i);
            exists|day: i32, time: int| #[trigger]
                is_ride_section(
                    timetable,
                    args.target(),
                    from,
                    arrival,
                    left,
                    sections[i],
                    day,
                    time,
                )
        }),
{
    let sections = results[stop_id]@.sections;
    let (from, arrival, left) = before(departure_stop_id, departure_at, sections, i);
    let (t, rounds) = lemma_answer(
        timetable,
        args,
        departure_stop_id,
        departure_at,
        max_rounds,
        results,
        stop_id,
    );
    lemma_section(
        timetable,
        args,
        departure_stop_id,
        departure_at,
        max_rounds,
        t,
        sections,
        rounds,
        i,
    );
    assert(is_of_label(t, departure_stop_id, sections, rounds, i));
    let label = t.label(rounds[i], sections[i].arrival_stop_id);
    let source = t.label(label.source_round as int, label.from_stop_id);
    let end = sections[i].arrival_stop_id;
    let b = boarding_with(
        args,
        t,
        label.from_stop_id,
        rounds[i] as usize,
        label.source_round as int,
    );
    let id = label.journey_id->0;
    let (day, taken, time) = choose|day: i32, taken: i32, time: int| #[trigger]
        leaves(timetable, day, b.stop_id, b.arrival_time, taken, time) && is_ride_day(
            b.arrival_time as int,
            day as int,
        ) && is_earliest_of_route(timetable, day, b.stop_id, b.arrival_time, taken, time)
            && is_ride_with(
            timetable,
            b,
            timetable.journeys@[taken]@,
            day,
            rounds[i],
            end,
            label,
        );
    assert(timetable.journeys@.contains_key(taken));
    assert(taken == id);
    let journey = timetable.journeys@[id]@;
    let n = choose|n: int| #[trigger]
        is_ride_end(timetable, b, journey, day, n, label.arrival_time as int)
            && journey.route[n].stop_id == end;
    let k = choose|k: int| 0 <= k < n && (#[trigger] journey.route[k]).stop_id == from;
    assert(journey.route[k].stop_id == from && journey.route[n].stop_id == end);
    assert(is_ride_section(
        timetable,
        args.target(),
        from,
        arrival,
        left,
        sections[i],
        day,
        time,
    ));
}

/// Where an answer changes from one journey to another, the exchange time passes between the
/// arrival of the one and the departure of the other, whatever journeys they are, unless there is a
/// through service between them.
pub proof fn changes_of_answers_keep_the_exchange_time(
    timetable: &Timetable,
    args: RoutingAlgorithmArgs,
    departure_stop_id: i32,
    departure_at: i64,
    max_rounds: i32,
    results: Map<i32, Route>,
    stop_id: i32,
    i: int,
    first: i32,
    second: i32,
)
    requires
        answers_with(timetable, args, departure_stop_id, departure_at, max_rounds, results),
        results.contains_key(stop_id),
        0 < i < results[stop_id]@.sections.len(),
        results[stop_id]@.sections[i - 1].journey_id == Some(first),
        results[stop_id]@.sections[i].journey_id == Some(second),
    ensures
        ({
            let at = results[stop_id]@.sections[i - 1].arrival_stop_id;
            let arrival = results[stop_id]@.sections[i - 1].arrival_at;
            let left = timetable.journeys@[first]@;
            let taken = timetable.journeys@[second]@;
            &&& timetable.journeys@.contains_key(first)
            &&& timetable.journeys@.contains_key(second)
            &&& exists|day: i32|
                {
                    &&& is_ride_day(arrival as int, day as int)
                    &&& #[trigger] departure_of(taken.route, at, day as int) matches Some(time)
                    &&& time >= arrival
                    &&& timetable.is_through(day, left, taken, at) || time >= arrival
                        + timetable.exchange_minutes(
                        at,
                        left,
                        taken,
                        (time / DAY as int) as i32,
                    ) * MINUTE
                }
        }),
{
    let sections = results[stop_id]@.sections;
    rides_of_answers_are_caught(
        timetable,
        args,
        departure_stop_id,
        departure_at,
        max_rounds,
        results,
        stop_id,
        i - 1,
    );
    rides_of_answers_are_caught(
        timetable,
        args,
        departure_stop_id,
        departure_at,
        max_rounds,
        results,
        stop_id,
        i,
    );
    let (from, arrival, left) = before(departure_stop_id, departure_at, sections, i);
    let (day, time) = choose|day: i32, time: int| #[trigger]
        is_ride_section(
            timetable,
            args.target(),
            from,
            arrival,
            left,
            sections[i],
            day,
            time,
        );
    let route = timetable.journeys@[second]@.route;
    assert(departure_of(route, from, day as int) == Some(time));
}

/// Every walk of an answer can be taken: the timetable lists it where the passenger is, and its
/// minutes pass by the instant of the section. A walk at the start takes just its minutes from the
/// departure on; a later one leads from a stop with an exchange flag to a known stop.
pub proof fn walks_of_answers_are_listed(
    timetable: &Timetable,
    args: RoutingAlgorithmArgs,
    departure_stop_id: i32,
    departure_at: i64,
    max_rounds: i32,
    results: Map<i32, Route>,
    stop_id: i32,
    i: int,
)
    requires
        answers_with(timetable, args, departure_stop_id, departure_at, max_rounds, results),
        results.contains_key(stop_id),
        0 <= i < results[stop_id]@.sections.len(),
        results[stop_id]@.sections[i].journey_id is None,
    ensures
        ({
            let section = results[stop_id]@.sections[i];
            let (from, arrival, _) = before(
                departure_stop_id,
                departure_at,
                results[stop_id]@.sections,
                i,
            );
            &&& section.departure_stop_id == from
            &&& section.duration matches Some(duration)
            &&& is_listed_walk(
                timetable,
                from,
                StopConnection { stop_id_2: section.arrival_stop_id, duration },
            )
            &&& arrival < section.arrival_at
            &&& arrival + duration * MINUTE <= section.arrival_at
            &&& i == 0 ==> departure_at + duration * MINUTE == section.arrival_at
            &&& i > 0 ==> {
                &&& timetable.stops@.contains_key(from)
                &&& timetable.stops@[from].exchange_flag != 0
                &&& timetable.stops@.contains_key(section.arrival_stop_id)
            }
        }),
{
    let sections = results[stop_id]@.sections;
    let (t, rounds) = lemma_answer(
        timetable,
        args,
        departure_stop_id,
        departure_at,
        max_rounds,
        results,
        stop_id,
    );
    lemma_section(
        timetable,
        args,
        departure_stop_id,
        departure_at,
        max_rounds,
        t,
        sections,
        rounds,
        i,
    );
    assert(is_of_label(t, departure_stop_id, sections, rounds, i));
    let label = t.label(rounds[i], sections[i].arrival_stop_id);
    walks_are_listed(timetable, label.from_stop_id);
    if i > 0 {
        lemma_section(
            timetable,
            args,
            departure_stop_id,
            departure_at,
            max_rounds,
            t,
            sections,
            rounds,
            i - 1,
        );
    }
}

/// The sections of an answer lead from the departure stop, and each of them from where the one
/// before ends, to the stop that is answered, without visiting a stop twice. It visits just these
/// stops.
pub proof fn answers_lead_to_their_stops(
    timetable: &Timetable,
    args: RoutingAlgorithmArgs,
    departure_stop_id: i32,
    departure_at: i64,
    max_rounds: i32,
    results: Map<i32, Route>,
    stop_id: i32,
)
    requires
        answers_with(timetable, args, departure_stop_id, departure_at, max_rounds, results),
        results.contains_key(stop_id),
    ensures
        ({
            let route = results[stop_id]@;
            let n = route.sections.len() as int;
            &&& stop_id != departure_stop_id
            &&& n > 0
            &&& route.sections[n - 1].arrival_stop_id == stop_id
            &&& route.sections[0].departure_stop_id == departure_stop_id
            &&& forall|i: int|
                0 < i < n ==> (#[trigger] route.sections[i]).departure_stop_id == before(
                    departure_stop_id,
                    departure_at,
                    route.sections,
                    i,
                ).0
            &&& forall|i: int, j: int|
                0 <= i < j < n ==> (#[trigger] route.sections[i]).arrival_stop_id != (
                #[trigger] route.sections[j]).arrival_stop_id
            &&& forall|x: i32| #[trigger]
                route.visited_stops.contains(x) <==> x == departure_stop_id || exists|i: int|
                    0 <= i < n && (#[trigger] route.sections[i]).arrival_stop_id == x
        }),
{
    let (t, rounds) = lemma_answer(
        timetable,
        args,
        departure_stop_id,
        departure_at,
        max_rounds,
        results,
        stop_id,
    );
    let again = routes_follow_the_labels(t, departure_stop_id, stop_id);
    routes_connect(timetable, args, departure_stop_id, departure_at, max_rounds, t, stop_id);
    routes_visit_no_stop_twice(
        timetable,
        args,
        departure_stop_id,
        departure_at,
        max_rounds,
        t,
        stop_id,
    );
    let sections = results[stop_id]@.sections;
    assert(sections[0].departure_stop_id == departure_stop_id);
}

/// An answer has at most one ride more than changes are allowed, and arrives by the time limit.
pub proof fn answers_keep_what_is_asked(
    timetable: &Timetable,
    args: RoutingAlgorithmArgs,
    departure_stop_id: i32,
    departure_at: i64,
    max_rounds: i32,
    results: Map<i32, Route>,
    stop_id: i32,
)
    requires
        answers_with(timetable, args, departure_stop_id, departure_at, max_rounds, results),
        results.contains_key(stop_id),
    ensures
        1 <= rides(results[stop_id]@.sections) <= max_rounds + 1,
        args.limit() is None || results[stop_id]@.sections.last().arrival_at <= args.limit()->0,
        args.target() is None || args.target() == Some(stop_id),
{
    let sections = results[stop_id]@.sections;
    let t = lemma_returned(
        timetable,
        args,
        departure_stop_id,
        departure_at,
        max_rounds,
        results,
    );
    rides_are_limited(timetable, args, departure_stop_id, departure_at, max_rounds, t, stop_id);
    answers_keep_the_time_limit(
        timetable,
        args,
        departure_stop_id,
        departure_at,
        max_rounds,
        t,
        stop_id,
    );
    routes_connect(timetable, args, departure_stop_id, departure_at, max_rounds, t, stop_id);
    let i = choose|i: int| 0 <= i < sections.len() && (#[trigger] sections[i]).journey_id is Some;
    lemma_some_ride(sections, i);
}

/// One of the first two sections is a ride, and so is one of the last two.
pub open spec fn has_rides_at_its_ends(sections: Seq<RouteSection>) -> bool {
    let n = sections.len() as int;
    &&& exists|i: int| 0 <= i < n && i < 2 && (#[trigger] sections[i]).journey_id is Some
    &&& exists|i: int| 0 <= i < n && n - 2 <= i && (#[trigger] sections[i]).journey_id is Some
}

/// A route is valid if and only if one of its first two sections is a ride, and one of its last
/// two, whatever the others are.
pub proof fn valid_routes_have_rides_at_their_ends(sections: Seq<RouteSection>)
    ensures
        is_valid(sections) <==> has_rides_at_its_ends(sections),
{
    let n = sections.len() as int;
    if is_valid(sections) {
        assert(sections[0].journey_id is Some || sections[1].journey_id is Some);
        assert(sections[n - 1].journey_id is Some || sections[n - 2].journey_id is Some);
    }
    if has_rides_at_its_ends(sections) {
        let i = choose|i: int|
            0 <= i < n && i < 2 && (#[trigger] sections[i]).journey_id is Some;
        let j = choose|j: int|
            0 <= j < n && n - 2 <= j && (#[trigger] sections[j]).journey_id is Some;
        assert(sections[i].journey_id is Some && sections[j].journey_id is Some);
    }
}

/// The answers are the routes to the stop that is asked for, or to any stop where none is, that
/// have a ride among their first two sections and one among their last two; and all of them.
pub proof fn every_route_with_rides_at_its_ends_is_an_answer(
    s: SearchState,
    departure_stop_id: i32,
    args: RoutingAlgorithmArgs,
    results: Map<i32, Route>,
    stop_id: i32,
)
    requires
        are_results(s, departure_stop_id, args, results),
    ensures
        results.contains_key(stop_id) <==> {
            &&& args.target() is None || args.target() == Some(stop_id)
            &&& route_to(s, departure_stop_id, stop_id) matches Some(route)
            &&& has_rides_at_its_ends(route.sections)
        },
        results.contains_key(stop_id) ==> route_to(s, departure_stop_id, stop_id) == Some(
            results[stop_id]@,
        ),
{
    if let Some(route) = route_to(s, departure_stop_id, stop_id) {
        valid_routes_have_rides_at_their_ends(route.sections);
    }
}

/// A search answers with a route to every stop that it has reached and that is asked for, if the
/// route along the labels has a ride among its first two sections and one among its last two; the
/// route arrives at the best arrival that was found.
pub proof fn reached_stops_are_answered(
    timetable: &Timetable,
    args: RoutingAlgorithmArgs,
    departure_stop_id: i32,
    departure_at: i64,
    max_rounds: i32,
    t: SearchState,
    results: Map<i32, Route>,
    sections: Seq<RouteSection>,
    rounds: Seq<int>,
)
    requires
        ends_with(timetable, args, departure_stop_id, departure_at, max_rounds, t),
        are_results(t, departure_stop_id, args, results),
        sections.len() > 0,
        follow_labels(t, departure_stop_id, sections, rounds),
        is_earliest_best(t, sections.last().arrival_stop_id, rounds.last()),
        sections.last().arrival_stop_id != departure_stop_id,
        args.target() is None || args.target() == Some(sections.last().arrival_stop_id),
        has_rides_at_its_ends(sections),
        has_no_cycle(departure_stop_id, sections),
    ensures
        results.contains_key(sections.last().arrival_stop_id),
        results[sections.last().arrival_stop_id]@.sections == sections,
        sections.last().arrival_at == t.best[sections.last().arrival_stop_id],
{
    let stop_id = sections.last().arrival_stop_id;
    labels_that_lead_back_give_the_route(t, departure_stop_id, sections, rounds);
    every_route_with_rides_at_its_ends_is_an_answer(t, departure_stop_id, args, results, stop_id);
    assert(is_of_label(t, departure_stop_id, sections, rounds, sections.len() - 1));
}

} // verus!
