//! What the functions of the library return, said of the calls themselves.

use crate::calendar::{
    add_minutes_to_date_time, in_calendar, is_instant, DAY, MAX_DAY, MINUTE, MIN_DAY, SECOND,
};
use crate::lookups::{
    arrivals_are_those_of_later_calls, changes_take_the_minutes_of_the_first_entry, count_on,
    departures_are_those_of_first_calls, goes_on, hashes_are_shared_over_the_same_stops,
    is_first_call, is_first_of, is_first_to_name, is_on, last_stops_are_those_of_last_calls,
    no_hash_without_a_call, none_concerns, operating_journeys_are_those_that_run,
    through_services_are_listed, timetables_file_journeys_under_their_ids, walks_are_listed,
};
use crate::routing::answers::{
    every_route_with_rides_at_its_ends_is_an_answer, has_rides_at_its_ends,
    valid_routes_have_rides_at_their_ends,
};
use crate::routing::departures::{departures_are_sorted, is_sorted, lemma_in_list};
use crate::routing::exploration::{
    by_departure, departure_from, departures, has_through_service_for_journeys, lemma_in_order,
    sorted_departures, walk_fits, Boarding, Departure,
};
use crate::routing::models::{Route, RouteSection, RoutingAlgorithmArgs, RoutingAlgorithmMode};
use crate::routing::raptor::raptor_compute;
use crate::routing::reconstruction::{
    is_valid_route, reconstruct_results, reconstruct_route, route_to,
};
use crate::routing::soundness::{lemma_listed, lemma_previous_round};
use crate::routing::state::{RaptorLabel, RaptorState};
use crate::routing::steps::is_listed_walk;
use crate::timetable::{
    departure_of, lemma_departure_day, RouteEntry, Stop, StopConnection, Timetable, TransitJourney,
};
use rustc_hash::{FxHashMap, FxHashSet};
use vstd::prelude::*;

verus! {

/// A search for one stop asks for that stop and has no time limit; one for all stops has the time
/// limit and asks for no stop.
pub proof fn searches_ask_for_one_stop_or_for_all(
    arrival_stop_id: i32,
    time_limit: i64,
    one: RoutingAlgorithmArgs,
    all: RoutingAlgorithmArgs,
)
    requires
        call_ensures(
            RoutingAlgorithmArgs::solve_from_departure_stop_to_arrival_stop,
            (arrival_stop_id,),
            one,
        ),
        call_ensures(
            RoutingAlgorithmArgs::solve_from_departure_stop_to_reachable_arrival_stops,
            (time_limit,),
            all,
        ),
    ensures
        one.target() == Some(arrival_stop_id) && one.limit() is None,
        all.limit() == Some(time_limit) && all.target() is None,
        forall|mode: RoutingAlgorithmMode| #[trigger]
            call_ensures(RoutingAlgorithmArgs::mode, (&one,), mode) ==> mode
                == RoutingAlgorithmMode::SolveFromDepartureStopToArrivalStop,
        forall|mode: RoutingAlgorithmMode| #[trigger]
            call_ensures(RoutingAlgorithmArgs::mode, (&all,), mode) ==> mode
                == RoutingAlgorithmMode::SolveFromDepartureStopToReachableArrivalStops,
        forall|stop_id: i32| #[trigger]
            call_ensures(RoutingAlgorithmArgs::arrival_stop_id, (&one,), stop_id) ==> stop_id
                == arrival_stop_id,
        forall|limit: i64| #[trigger]
            call_ensures(RoutingAlgorithmArgs::time_limit, (&all,), limit) ==> limit == time_limit,
{
}

/// A journey is what it was made of.
pub proof fn journeys_are_what_they_are_made_of(
    id: i32,
    legacy_id: i32,
    administration: String,
    intercity: bool,
    route: Vec<RouteEntry>,
    journey: TransitJourney,
)
    requires
        call_ensures(
            TransitJourney::new,
            (id, legacy_id, administration, intercity, route),
            journey,
        ),
    ensures
        journey@.id == id && journey@.legacy_id == legacy_id,
        journey@.administration == administration@ && journey@.intercity == intercity,
        journey@.route == route@,
{
}

/// A route holds the sections and the stops that it was made of, and a section its parts.
pub proof fn routes_are_what_they_are_made_of(
    sections: Vec<RouteSection>,
    visited_stops: FxHashSet<i32>,
    route: Route,
)
    requires
        call_ensures(Route::new, (sections, visited_stops), route),
    ensures
        route@.sections == sections@ && route@.visited_stops == visited_stops@,
        forall|v: &Vec<RouteSection>| #[trigger]
            call_ensures(Route::sections, (&route,), v) ==> v@ == sections@,
        forall|v: &FxHashSet<i32>| #[trigger]
            call_ensures(Route::visited_stops, (&route,), v) ==> v@ == visited_stops@,
{
}

/// A route can be handed out if and only if one of its first two sections is a ride, and one of its
/// last two.
pub proof fn routes_with_rides_at_their_ends_can_be_handed_out(route: &Route, r: bool)
    requires
        call_ensures(is_valid_route, (route,), r),
    ensures
        r == has_rides_at_its_ends(route@.sections),
{
    valid_routes_have_rides_at_their_ends(route@.sections);
}

/// The results are the routes that are reconstructed to the stop that is asked for, or to any stop
/// where none is, and that have a ride among their first two sections and one among their last two.
pub proof fn results_are_routes_with_rides_at_their_ends(
    state: &RaptorState,
    departure_stop_id: i32,
    args: &RoutingAlgorithmArgs,
    results: FxHashMap<i32, Route>,
    stop_id: i32,
    route: Option<Route>,
)
    requires
        call_ensures(reconstruct_results, (state, departure_stop_id, args), results),
        call_ensures(reconstruct_route, (state, departure_stop_id, stop_id), route),
    ensures
        results@.contains_key(stop_id) <==> {
            &&& args.target() is None || args.target() == Some(stop_id)
            &&& route is Some
            &&& has_rides_at_its_ends(route->0@.sections)
        },
        results@.contains_key(stop_id) ==> results@[stop_id]@ == route->0@,
        route is Some <==> route_to(state@, departure_stop_id, stop_id) is Some,
        route is Some ==> route_to(state@, departure_stop_id, stop_id) == Some(route->0@),
{
    every_route_with_rides_at_its_ends_is_an_answer(
        state@,
        departure_stop_id,
        *args,
        results@,
        stop_id,
    );
}

/// A bit field is active on a day if and only if it is one of those of the day.
pub proof fn active_bit_fields_are_those_of_the_day(
    timetable: &Timetable,
    day: i32,
    bit_field_id: i32,
    r: bool,
)
    requires
        call_ensures(Timetable::is_active, (timetable, day, bit_field_id), r),
    ensures
        r == is_on(timetable, day, bit_field_id),
{
}

/// The walks of a stop are handed out as they are listed.
pub proof fn walks_are_handed_out(
    timetable: &Timetable,
    stop_id: i32,
    r: Option<&Vec<StopConnection>>,
)
    requires
        call_ensures(Timetable::get_stop_connections, (timetable, stop_id), r),
    ensures
        r is Some <==> timetable.stop_connections@.contains_key(stop_id),
        r is Some ==> r->0@ == timetable.stop_connections@[stop_id]@,
{
    walks_are_listed(timetable, stop_id);
}

/// The operating journeys are the listed ones with a bit field of the day, in order.
pub proof fn operating_journeys_are_handed_out(
    timetable: &Timetable,
    day: i32,
    stop_id: i32,
    r: Vec<i32>,
)
    requires
        call_ensures(Timetable::get_operating_journeys, (timetable, day, stop_id), r),
    ensures
        !timetable.services@.contains_key(stop_id) ==> r@.len() == 0,
        timetable.services@.contains_key(stop_id) ==> {
            let services = timetable.services@[stop_id]@;
            &&& r@.len() == count_on(timetable, day, services, services.len() as int)
            &&& forall|n: int|
                0 <= n < services.len() && is_on(
                    timetable,
                    day,
                    (#[trigger] services[n]).bit_field_id,
                ) ==> r@[count_on(timetable, day, services, n) as int] == services[n].journey_id
        },
{
    operating_journeys_are_those_that_run(timetable, day, stop_id);
}

/// A through service is one whose first entry that names the journeys has a bit field of the day.
pub proof fn through_services_are_those_of_the_day(
    timetable: &Timetable,
    day: i32,
    first: &TransitJourney,
    second: &TransitJourney,
    stop_id: i32,
    r: bool,
)
    requires
        call_ensures(
            has_through_service_for_journeys,
            (timetable, day, first, second, stop_id),
            r,
        ),
    ensures
        r <==> {
            &&& timetable.through_services@.contains_key(stop_id)
            &&& exists|n: int| #[trigger]
                is_first_to_name(timetable.through_services@[stop_id]@, first@, second@, n)
                    && is_on(
                    timetable,
                    day,
                    timetable.through_services@[stop_id]@[n].bit_field_id,
                )
        },
{
    through_services_are_listed(timetable, day, first@, second@, stop_id);
}

/// An exchange takes the minutes of the first entry that concerns the change on the day of the
/// departure: of the stop, else of all stops, else the default.
pub proof fn exchange_times_are_those_of_the_departure(
    timetable: &Timetable,
    stop_id: i32,
    from: &TransitJourney,
    to: &TransitJourney,
    departure_at: i64,
    minutes: i16,
)
    requires
        is_instant(departure_at as int),
        call_ensures(
            Timetable::get_exchange_time,
            (timetable, stop_id, from, to, departure_at),
            minutes,
        ),
    ensures
        ({
            let day = (departure_at as int / DAY as int) as i32;
            let own = timetable.exchange_times_by_stop@[stop_id]@;
            let all = timetable.exchange_times@;
            let listed = timetable.exchange_times_by_stop@.contains_key(stop_id);
            let none_here = !listed || none_concerns(timetable, own, from@, to@, day);
            &&& forall|n: int|
                listed && #[trigger] is_first_of(timetable, own, from@, to@, day, n) ==> minutes
                    == own[n].duration
            &&& forall|n: int|
                none_here && #[trigger] is_first_of(timetable, all, from@, to@, day, n) ==> minutes
                    == all[n].duration
            &&& none_here && none_concerns(timetable, all, from@, to@, day) ==> minutes
                == timetable.default_exchange_time
        }),
{
    let day = (departure_at as int / DAY as int) as i32;
    changes_take_the_minutes_of_the_first_entry(timetable, stop_id, from@, to@, day);
}

/// A journey ends at a stop if and only if its last call is there; where loops are left out of
/// account, one that ends where it starts ends nowhere.
pub proof fn journeys_end_at_their_last_calls(
    journey: &TransitJourney,
    stop_id: i32,
    plain: Option<bool>,
    without_loops: Option<bool>,
)
    requires
        call_ensures(TransitJourney::is_last_stop, (journey, stop_id, false), plain),
        call_ensures(TransitJourney::is_last_stop, (journey, stop_id, true), without_loops),
    ensures
        journey@.route.len() == 0 ==> plain is None && without_loops is None,
        journey@.route.len() > 0 ==> plain == Some(journey@.route.last().stop_id == stop_id),
        journey@.route.len() > 0 ==> without_loops == Some(!goes_on(journey@.route, stop_id)),
{
    last_stops_are_those_of_last_calls(journey@.route, stop_id);
}

/// A stop can be used to change between journeys if and only if its exchange flag is not zero.
pub proof fn exchange_flags_are_not_zero(stop: &Stop, r: bool)
    requires
        call_ensures(Stop::can_be_used_as_exchange_point, (stop,), r),
    ensures
        r == (stop.exchange_flag != 0),
{
}

/// Minutes are added as such.
pub proof fn minutes_are_added(date_time: i64, minutes: i16, r: i64)
    requires
        call_ensures(add_minutes_to_date_time, (date_time, minutes), r),
    ensures
        r == date_time + minutes * MINUTE,
{
}

/// The label of a stop in a round is the one that the round holds, and its previous label that of
/// the latest earlier round that holds one.
pub proof fn labels_are_those_of_the_rounds(
    state: &RaptorState,
    stop_id: i32,
    round: usize,
    here: Option<&RaptorLabel>,
    before: Option<(&RaptorLabel, usize)>,
)
    requires
        call_ensures(RaptorState::get_label, (state, stop_id, round), here),
        call_ensures(RaptorState::get_previous_label, (state, stop_id, round), before),
    ensures
        here is Some <==> state@.has(round as int, stop_id),
        here is Some ==> *(here->0) == state@.label(round as int, stop_id),
        before is None <==> forall|r: int| r < round ==> !#[trigger] state@.has(r, stop_id),
        before matches Some((label, r)) ==> {
            &&& r < round
            &&& state@.has(r as int, stop_id)
            &&& *label == state@.label(r as int, stop_id)
            &&& forall|k: int| r < k < round ==> !#[trigger] state@.has(k, stop_id)
        },
{
    lemma_previous_round(state@, stop_id, round as int);
}

/// A journey leaves a stop at the time of its first call there, on the day or, where that time of
/// day comes before that of its first departure, on the day after it; and leaves no stop else.
pub proof fn journeys_leave_with_their_first_calls(
    journey: &TransitJourney,
    stop_id: i32,
    day: i32,
    r: Option<i64>,
    k: int,
)
    requires
        call_ensures(TransitJourney::departure_at_of, (journey, stop_id, day), r),
        is_first_call(journey@.route, stop_id, 0, k),
    ensures
        r is Some ==> {
            let call = journey@.route[k];
            let first = journey@.route[0].departure_time;
            &&& call.departure_time is Some && first is Some
            &&& r->0 == (day + if call.departure_time->0 < first->0 {
                1int
            } else {
                0
            }) * DAY + call.departure_time->0 * SECOND
        },
        journey@.route[k].departure_time is Some && journey@.route[0].departure_time is Some
            && in_calendar(day as int) && in_calendar(day + 1) ==> r is Some,
{
    departures_are_those_of_first_calls(journey@.route, stop_id, day as int);
}

/// A journey that leaves a stop on the day reaches a stop at the time of its first call there after
/// its start: on that day, or on a day next to it if midnight lies between the two calls.
pub proof fn journeys_arrive_with_their_later_calls(
    journey: &TransitJourney,
    stop_id: i32,
    day: i32,
    origin_stop_id: i32,
    r: Option<i64>,
    i: int,
    k: int,
)
    requires
        call_ensures(
            TransitJourney::arrival_at_of_with_origin,
            (journey, stop_id, day, origin_stop_id),
            r,
        ),
        is_first_call(journey@.route, stop_id, 1, i),
        is_first_call(journey@.route, origin_stop_id, 0, k),
    ensures
        ({
            let arrival = journey@.route[i].arrival_time;
            let departure = journey@.route[k].departure_time;
            let first = journey@.route[0].departure_time;
            let shift = if (arrival->0 < first->0) == (departure->0 < first->0) {
                0int
            } else if arrival->0 < first->0 {
                1
            } else {
                -1
            };
            &&& r is Some ==> {
                &&& arrival is Some && departure is Some && first is Some
                &&& r->0 == (day + shift) * DAY + arrival->0 * SECOND
            }
            &&& arrival is Some && departure is Some && first is Some && in_calendar(day + shift)
                ==> r is Some
        }),
{
    arrivals_are_those_of_later_calls(journey@.route, stop_id, day as int, origin_stop_id);
}

/// Where a journey does not call, it neither leaves nor arrives, and has no hash.
pub proof fn journeys_do_not_stop_where_they_do_not_call(
    journey: &TransitJourney,
    stop_id: i32,
    day: i32,
    origin_stop_id: i32,
    departure: Option<i64>,
    arrival: Option<i64>,
    hash: Option<u64>,
)
    requires
        call_ensures(TransitJourney::departure_at_of, (journey, stop_id, day), departure),
        call_ensures(
            TransitJourney::arrival_at_of_with_origin,
            (journey, stop_id, day, origin_stop_id),
            arrival,
        ),
        call_ensures(TransitJourney::hash_route, (journey, stop_id), hash),
        forall|k: int|
            0 <= k < journey@.route.len() ==> (#[trigger] journey@.route[k]).stop_id != stop_id,
    ensures
        departure is None,
        arrival is None,
        hash is None,
{
    departures_are_those_of_first_calls(journey@.route, stop_id, day as int);
    arrivals_are_those_of_later_calls(journey@.route, stop_id, day as int, origin_stop_id);
    no_hash_without_a_call(journey@.route, stop_id);
}

/// Two journeys over the same stops from a stop on have the same hash there.
pub proof fn journeys_over_the_same_stops_have_one_hash(
    first: &TransitJourney,
    second: &TransitJourney,
    stop_id: i32,
    i: int,
    k: int,
    one: Option<u64>,
    other: Option<u64>,
)
    requires
        call_ensures(TransitJourney::hash_route, (first, stop_id), one),
        call_ensures(TransitJourney::hash_route, (second, stop_id), other),
        is_first_call(first@.route, stop_id, 0, i),
        is_first_call(second@.route, stop_id, 0, k),
        forall|n: int|
            i <= n < first@.route.len() ==> exists|m: int|
                k <= m < second@.route.len() && (#[trigger] second@.route[m]).stop_id == (
                #[trigger] first@.route[n]).stop_id,
        forall|m: int|
            k <= m < second@.route.len() ==> exists|n: int|
                i <= n < first@.route.len() && (#[trigger] first@.route[n]).stop_id == (
                #[trigger] second@.route[m]).stop_id,
    ensures
        one is Some,
        one == other,
{
    hashes_are_shared_over_the_same_stops(first@.route, stop_id, i, second@.route, stop_id, k);
}

/// A timetable is valid if and only if its journeys are filed under their ids and its days leave
/// room for the longest rides, walks and changes.
pub proof fn valid_timetables_file_journeys_under_their_ids(timetable: &Timetable, r: bool)
    requires
        call_ensures(Timetable::is_valid, (timetable,), r),
    ensures
        r ==> {
            &&& forall|id: i32|
                timetable.journeys@.contains_key(id) ==> (
                #[trigger] timetable.journeys@[id])@.id == id
            &&& forall|day: i32| #[trigger]
                timetable.bit_fields_by_day@.contains_key(day) ==> MIN_DAY + 24 <= day <= MAX_DAY
                    - 24
        },
        !r ==> {
            ||| exists|id: i32|
                timetable.journeys@.contains_key(id) && (
                #[trigger] timetable.journeys@[id])@.id != id
            ||| exists|id: i32|
                timetable.journeys@.contains_key(id) && !(#[trigger] timetable.journeys@[id])@.wf()
            ||| exists|day: i32| #[trigger]
                timetable.bit_fields_by_day@.contains_key(day) && !(MIN_DAY + 24 <= day <= MAX_DAY
                    - 24)
        },
{
    timetables_file_journeys_under_their_ids(timetable);
    if !r {
        if forall|id: i32|
            timetable.journeys@.contains_key(id) ==> (#[trigger] timetable.journeys@[id])@.id == id
                && timetable.journeys@[id]@.wf() {
            assert forall|id: i32| #[trigger]
                timetable.journeys@.contains_key(id) implies timetable.journeys@[id]@.id == id
                && timetable.journeys@[id]@.wf() by {
                let journey = timetable.journeys@[id];
            }
        }
    }
}

/// Sorting leaves departures that are in order as they are.
proof fn lemma_sorted_stays(s: Seq<Departure>)
    requires
        is_sorted(s),
    ensures
        by_departure(s) == s,
    decreases s.len(),
{
    if s.len() > 0 {
        let before = s.drop_last();
        lemma_sorted_stays(before);
        if s.len() > 1 {
            assert(s[s.len() - 2].departure_time <= s[s.len() - 1].departure_time);
            assert(before[before.len() - 1] == s[s.len() - 2]);
        }
        assert(before.insert(before.len() as int, s.last()) =~= s);
    }
}

/// The departures of journeys that all leave, in the order of the journeys.
proof fn lemma_all_leave(timetable: &Timetable, b: Boarding, day: i32, ids: Seq<i32>, n: int)
    requires
        0 <= n <= ids.len(),
        forall|k: int|
            0 <= k < ids.len() ==> departure_from(timetable, b, day, #[trigger] ids[k]) is Some,
    ensures
        departures(timetable, b, day, ids, n).len() == n,
        forall|k: int|
            0 <= k < n ==> Some(departures(timetable, b, day, ids, n)[k]) == departure_from(
                timetable,
                b,
                day,
                #[trigger] ids[k],
            ),
    decreases n,
{
    if n > 0 {
        lemma_all_leave(timetable, b, day, ids, n - 1);
        assert(departure_from(timetable, b, day, ids[n - 1]) is Some);
    }
}

/// The journey is one of the timetable, goes on from the stop, and leaves it at `time` if it
/// started on the day, no earlier than the arrival of the passenger.
pub open spec fn can_leave(
    timetable: &Timetable,
    day: i32,
    stop_id: i32,
    arrival: i64,
    id: i32,
    time: int,
) -> bool {
    &&& timetable.journeys@.contains_key(id)
    &&& goes_on(timetable.journeys@[id]@.route, stop_id)
    &&& departure_of(timetable.journeys@[id]@.route, stop_id, day as int) == Some(time)
    &&& arrival <= time
}

/// A journey can leave if and only if it has a departure.
proof fn lemma_can_leave(timetable: &Timetable, b: Boarding, day: i32, id: i32, time: int)
    requires
        timetable.wf(),
    ensures
        can_leave(timetable, day, b.stop_id, b.arrival_time, id, time) <==> {
            &&& is_instant(time)
            &&& departure_from(timetable, b, day, id) == Some(
                Departure { journey_id: id, departure_time: time as i64 },
            )
        },
{
    if timetable.journeys@.contains_key(id) {
        let journey = timetable.journeys@[id]@;
        lemma_departure_day(journey, b.stop_id, day as int);
        last_stops_are_those_of_last_calls(journey.route, b.stop_id);
    }
}

/// The sorted departures are those of the journeys that can leave, and come by time. Journeys that
/// all can leave and are given by time stay in their order, those at the same time too.
pub proof fn sorted_departures_are_those_that_can_leave(
    timetable: &Timetable,
    journey_ids: &Vec<i32>,
    b: &Boarding,
    day: i32,
    r: Vec<Departure>,
    times: Seq<int>,
)
    requires
        timetable.wf(),
        call_ensures(sorted_departures, (timetable, journey_ids, b, day), r),
    ensures
        forall|d: Departure| #[trigger]
            r@.contains(d) <==> journey_ids@.contains(d.journey_id) && can_leave(
                timetable,
                day,
                b.stop_id,
                b.arrival_time,
                d.journey_id,
                d.departure_time as int,
            ),
        forall|i: int, j: int|
            0 <= i <= j < r@.len() ==> (#[trigger] r@[i]).departure_time <= (
            #[trigger] r@[j]).departure_time,
        times.len() == journey_ids@.len() && (forall|n: int|
            0 <= n < journey_ids@.len() ==> can_leave(
                timetable,
                day,
                b.stop_id,
                b.arrival_time,
                #[trigger] journey_ids@[n],
                times[n],
            )) && (forall|n: int, m: int| 0 <= n <= m < times.len() ==> times[n] <= times[m])
            ==> r@.len() == journey_ids@.len() && forall|n: int|
            0 <= n < journey_ids@.len() ==> (#[trigger] r@[n]).journey_id == journey_ids@[n],
{
    let ids = journey_ids@;
    let all = departures(timetable, *b, day, ids, ids.len() as int);
    departures_are_sorted(all);
    assert forall|d: Departure| #[trigger] r@.contains(d) <==> ids.contains(d.journey_id)
        && can_leave(
        timetable,
        day,
        b.stop_id,
        b.arrival_time,
        d.journey_id,
        d.departure_time as int,
    ) by {
        let time = d.departure_time as int;
        lemma_can_leave(timetable, *b, day, d.journey_id, time);
        if r@.contains(d) {
            let i = choose|i: int| 0 <= i < r@.len() && r@[i] == d;
            lemma_in_order(timetable, *b, day, ids);
            lemma_listed(timetable, *b, day, ids, i);
            assert(departure_from(timetable, *b, day, r@[i].journey_id) == Some(r@[i]));
            lemma_departure_day(timetable.journeys@[d.journey_id]@, b.stop_id, day as int);
        }
        if ids.contains(d.journey_id) && can_leave(
            timetable,
            day,
            b.stop_id,
            b.arrival_time,
            d.journey_id,
            time,
        ) {
            lemma_in_list(timetable, *b, day, ids, d);
        }
    }
    if times.len() == ids.len() && (forall|n: int|
        0 <= n < ids.len() ==> can_leave(
            timetable,
            day,
            b.stop_id,
            b.arrival_time,
            #[trigger] ids[n],
            times[n],
        )) && (forall|n: int, m: int| 0 <= n <= m < times.len() ==> times[n] <= times[m]) {
        assert forall|n: int| 0 <= n < ids.len() implies departure_from(
            timetable,
            *b,
            day,
            #[trigger] ids[n],
        ) == Some(Departure { journey_id: ids[n], departure_time: times[n] as i64 }) && is_instant(
            times[n],
        ) by {
            lemma_can_leave(timetable, *b, day, ids[n], times[n]);
        }
        lemma_all_leave(timetable, *b, day, ids, ids.len() as int);
        assert forall|n: int| 0 <= n < ids.len() implies #[trigger] all[n] == (Departure {
            journey_id: ids[n],
            departure_time: times[n] as i64,
        }) by {
            assert(departure_from(timetable, *b, day, ids[n]) is Some);
        }
        lemma_sorted_stays(all);
    }
}

/// A search can be made from any stop, known or not, in any mode and with any number of changes but
/// the largest, if the departure and the ends of the walks from the departure stop lie in the
/// calendar.
pub proof fn searches_can_be_made_from_any_stop(
    timetable: &Timetable,
    departure_stop_id: i32,
    departure_at: i64,
    max_rounds: i32,
    verbose: bool,
    args: RoutingAlgorithmArgs,
)
    requires
        timetable.wf(),
        MIN_DAY * DAY <= departure_at < (MAX_DAY + 1) * DAY,
        forall|c: StopConnection| #[trigger]
            is_listed_walk(timetable, departure_stop_id, c) ==> MIN_DAY * DAY <= departure_at
                + c.duration * MINUTE < (MAX_DAY + 1) * DAY,
        max_rounds < i32::MAX,
    ensures
        call_requires(
            raptor_compute,
            (timetable, departure_stop_id, departure_at, max_rounds, verbose, args),
        ),
{
    let connections = timetable.connections(departure_stop_id);
    walks_are_listed(timetable, departure_stop_id);
    assert forall|k: int| 0 <= k < connections.len() implies walk_fits(
        departure_at,
        #[trigger] connections[k],
    ) by {
        assert(connections.contains(connections[k]));
        assert(is_listed_walk(timetable, departure_stop_id, connections[k]));
    }
}

/// A journey can be made of any calls whose times are times of day.
pub proof fn journeys_can_be_made_of_any_calls(
    id: i32,
    legacy_id: i32,
    administration: String,
    intercity: bool,
    route: Vec<RouteEntry>,
)
    requires
        forall|i: int|
            0 <= i < route@.len() ==> {
                let call = #[trigger] route@[i];
                &&& call.arrival_time is None || call.arrival_time->0 < 86_400
                &&& call.departure_time is None || call.departure_time->0 < 86_400
            },
    ensures
        call_requires(TransitJourney::new, (id, legacy_id, administration, intercity, route)),
{
}

/// Departures, arrivals and exchange times can be asked for on every day of the calendar.
pub proof fn times_can_be_asked_for_in_the_calendar(
    timetable: &Timetable,
    journey: &TransitJourney,
    other: &TransitJourney,
    stop_id: i32,
    origin_stop_id: i32,
    day: i32,
    time: i64,
    journey_ids: &Vec<i32>,
    b: &Boarding,
)
    requires
        MIN_DAY <= day <= MAX_DAY,
        MIN_DAY * DAY <= time < (MAX_DAY + 1) * DAY,
    ensures
        call_requires(TransitJourney::departure_at_of, (journey, stop_id, day)),
        call_requires(
            TransitJourney::arrival_at_of_with_origin,
            (journey, stop_id, day, origin_stop_id),
        ),
        call_requires(Timetable::get_exchange_time, (timetable, stop_id, journey, other, time)),
        call_requires(sorted_departures, (timetable, journey_ids, b, day)),
{
}

} // verus!
