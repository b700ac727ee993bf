//! What a search does not miss.

use crate::calendar::{after_minutes, has_room, is_instant};
use crate::routing::exploration::{
    after_boarding, after_call, after_calls, after_departures, after_initial_walks, after_list,
    after_stop, after_today, after_transfers, after_walks, boarding_at, boarding_day, can_depart,
    departures_on, following_day, is_boarded, is_late, is_new_route, lemma_taken, may_alight,
    ride_label, route_hashes, start, walk_fits, walk_label, Boarding, Departure,
};
use crate::routing::models::RoutingAlgorithmArgs;
use crate::routing::raptor::{
    after_all_transfers, after_rides, after_round, after_stops, are_orders, are_walkers, is_end,
    is_outcome, is_round, is_sound, lemma_marks, lemma_next_walk, lemma_round, lemma_stops,
    lemma_walkers, reached_by_ride,
};
use crate::routing::soundness::{lemma_start, Query};
use crate::routing::state::{origin, RaptorLabel, SearchState};
use crate::timetable::{arrival_of, JourneyView, StopConnection, Timetable};
use vstd::prelude::*;

verus! {

/// The stop is known to be reached by the instant.
pub open spec fn reached_by(s: SearchState, stop_id: i32, time: int) -> bool {
    s.best.contains_key(stop_id) && s.best[stop_id] <= time
}

/// The stop is marked as one that the round has reached, by a ride from a stop that the round
/// before had reached, or by a walk.
spec fn is_new(t: SearchState, round: int, stop_id: i32) -> bool {
    &&& t.marked.contains(stop_id)
    &&& t.improved.contains(stop_id)
    &&& t.label(round, stop_id).journey_id is Some ==> t.label(round, stop_id).source_round + 1
        == round
}

/// `t` comes after `s` by offers in the round that mark the stops they reach.
spec fn grows(s: SearchState, t: SearchState, round: int) -> bool {
    &&& forall|x: i32| s.marked.contains(x) ==> #[trigger] t.marked.contains(x)
    &&& forall|x: i32| s.improved.contains(x) ==> #[trigger] t.improved.contains(x)
    &&& forall|x: i32| #[trigger] t.marked.contains(x) ==> s.marked.contains(x) || t.has(round, x)
    &&& forall|x: i32| #[trigger] s.has(round, x) ==> t.has(round, x)
    &&& forall|x: i32| #[trigger]
        t.has(round, x) ==> (s.has(round, x) && s.label(round, x) == t.label(round, x)) || is_new(
            t,
            round,
            x,
        )
    &&& forall|r: int, x: i32|
        r < round ==> (#[trigger] t.has(r, x) <==> s.has(r, x)) && (s.has(r, x) ==> t.label(r, x)
            == s.label(r, x))
    &&& forall|x: i32, time: int| reached_by(s, x, time) ==> #[trigger] reached_by(t, x, time)
}

/// Growing twice is growing.
proof fn lemma_grows_transitive(s: SearchState, t: SearchState, u: SearchState, round: int)
    requires
        grows(s, t, round),
        grows(t, u, round),
    ensures
        grows(s, u, round),
{
    assert forall|x: i32| s.marked.contains(x) implies #[trigger] u.marked.contains(x) by {
        assert(t.marked.contains(x));
    }
    assert forall|x: i32| s.improved.contains(x) implies #[trigger] u.improved.contains(x) by {
        assert(t.improved.contains(x));
    }
    assert forall|x: i32| #[trigger] u.marked.contains(x) implies s.marked.contains(x) || u.has(
        round,
        x,
    ) by {
        if !u.has(round, x) {
            assert(t.marked.contains(x));
            assert(!t.has(round, x));
        }
    }
    assert forall|x: i32| #[trigger] s.has(round, x) implies u.has(round, x) by {
        assert(t.has(round, x));
    }
    assert forall|x: i32| #[trigger] u.has(round, x) implies (s.has(round, x) && s.label(round, x)
        == u.label(round, x)) || is_new(u, round, x) by {
        if !is_new(u, round, x) {
            assert(t.has(round, x));
            assert(!is_new(t, round, x));
        }
    }
    assert forall|r: int, x: i32| r < round implies (#[trigger] u.has(r, x) <==> s.has(r, x)) && (
    s.has(r, x) ==> u.label(r, x) == s.label(r, x)) by {
        assert(t.has(r, x) <==> s.has(r, x));
    }
    assert forall|x: i32, time: int| reached_by(s, x, time) implies #[trigger] reached_by(
        u,
        x,
        time,
    ) by {
        assert(reached_by(t, x, time));
    }
}

/// An offer grows the state. One that takes time and keeps the limit leaves the stop reached by
/// then, accepted or not.
proof fn lemma_grows_improve(
    s: SearchState,
    stop_id: i32,
    label: RaptorLabel,
    round: int,
    source_arrival_time: i64,
    time_limit: Option<i64>,
)
    requires
        round >= 0,
        label.journey_id is Some ==> label.source_round + 1 == round,
    ensures
        ({
            let t = s.improve(stop_id, label, round, source_arrival_time, time_limit, true);
            &&& grows(s, t, round)
            &&& label.arrival_time > source_arrival_time && (time_limit matches Some(limit)
                ==> label.arrival_time <= limit) ==> reached_by(
                t,
                stop_id,
                label.arrival_time as int,
            )
        }),
{
}

/// Looking at the calls of a journey grows the state.
proof fn lemma_grows_calls(
    timetable: &Timetable,
    s: SearchState,
    b: Boarding,
    journey: JourneyView,
    day: i32,
    n: int,
)
    requires
        b.source_round + 1 == b.round,
    ensures
        grows(s, after_calls(timetable, s, b, journey, day, n), b.round as int),
    decreases n,
{
    if n > 0 {
        let m = after_calls(timetable, s, b, journey, day, n - 1);
        lemma_grows_calls(timetable, s, b, journey, day, n - 1);
        let stop_id = journey.route[n - 1].stop_id;
        if let Some(t) = arrival_of(journey.route, stop_id, day as int, b.stop_id) {
            lemma_grows_improve(
                m,
                stop_id,
                ride_label(b, journey.id, t as i64),
                b.round as int,
                b.arrival_time,
                b.time_limit,
            );
        }
        lemma_grows_transitive(
            s,
            m,
            after_call(timetable, m, b, journey, day, n - 1),
            b.round as int,
        );
    }
}

/// Boarding departures grows the state.
proof fn lemma_grows_departures(
    timetable: &Timetable,
    s: SearchState,
    taken: Set<u64>,
    b: Boarding,
    day: i32,
    list: Seq<Departure>,
    hashes: Seq<Option<u64>>,
    n: int,
)
    requires
        b.source_round + 1 == b.round,
    ensures
        grows(
            s,
            after_departures(timetable, s, taken, b, day, list, hashes, n).0,
            b.round as int,
        ),
    decreases n,
{
    if n > 0 {
        let m = after_departures(timetable, s, taken, b, day, list, hashes, n - 1).0;
        let journey = timetable.journey(list[n - 1].journey_id)->0;
        lemma_grows_departures(timetable, s, taken, b, day, list, hashes, n - 1);
        lemma_grows_calls(timetable, m, b, journey, day, journey.route.len() as int);
        lemma_grows_transitive(
            s,
            m,
            after_calls(timetable, m, b, journey, day, journey.route.len() as int),
            b.round as int,
        );
    }
}

/// The ride may end at position `i`, later than it started and within the time limit.
pub open spec fn ride_counts(
    timetable: &Timetable,
    b: Boarding,
    journey: JourneyView,
    day: i32,
    i: int,
) -> bool {
    &&& 0 <= i < journey.route.len()
    &&& may_alight(timetable, b, journey, i)
    &&& arrival_of(journey.route, journey.route[i].stop_id, day as int, b.stop_id) matches Some(t)
    &&& is_instant(t)
    &&& t > b.arrival_time
    &&& b.time_limit matches Some(limit) ==> t <= limit
}

/// After the journey is boarded, every stop at which the ride may end is known to be reached by
/// the arrival of the journey.
proof fn lemma_ride_reaches(
    timetable: &Timetable,
    s: SearchState,
    b: Boarding,
    journey: JourneyView,
    day: i32,
    n: int,
    i: int,
)
    requires
        0 <= i < n,
        b.source_round + 1 == b.round,
        ride_counts(timetable, b, journey, day, i),
    ensures
        reached_by(
            after_calls(timetable, s, b, journey, day, n),
            journey.route[i].stop_id,
            arrival_of(journey.route, journey.route[i].stop_id, day as int, b.stop_id)->0,
        ),
    decreases n,
{
    let m = after_calls(timetable, s, b, journey, day, n - 1);
    let stop_id = journey.route[n - 1].stop_id;
    if let Some(t) = arrival_of(journey.route, stop_id, day as int, b.stop_id) {
        lemma_grows_improve(
            m,
            stop_id,
            ride_label(b, journey.id, t as i64),
            b.round as int,
            b.arrival_time,
            b.time_limit,
        );
    }
    if i < n - 1 {
        lemma_ride_reaches(timetable, s, b, journey, day, n - 1, i);
    }
}

/// Where the journey can be boarded, every stop at which its ride may end is known to be reached
/// by its arrival there.
pub open spec fn ride_is_taken(
    timetable: &Timetable,
    b: Boarding,
    journey: JourneyView,
    day: i32,
    t: SearchState,
) -> bool {
    is_boarded(timetable, b, journey, day) ==> forall|i: int| #[trigger]
        ride_counts(timetable, b, journey, day, i) ==> reached_by(
            t,
            journey.route[i].stop_id,
            arrival_of(journey.route, journey.route[i].stop_id, day as int, b.stop_id)->0,
        )
}

/// The rides are taken of all departures of the day whose routes are new: the hash of the route is
/// not in `taken`, nor that of an earlier departure of the day.
pub open spec fn new_departures_are_taken(
    timetable: &Timetable,
    b: Boarding,
    day: i32,
    taken: Set<u64>,
    t: SearchState,
) -> bool {
    let list = departures_on(timetable, b, day);
    forall|k: int|
        0 <= k < list.len() && is_new_route(
            taken,
            route_hashes(timetable, list, b.stop_id),
            k,
        ) ==> ride_is_taken(
            timetable,
            b,
            timetable.journey((#[trigger] list[k]).journey_id)->0,
            day,
            t,
        )
}

/// The hashes of the routes of the departures from the boarding stop on the day.
pub open spec fn hashes_on(timetable: &Timetable, b: Boarding, day: i32) -> Set<u64> {
    let hashes = route_hashes(timetable, departures_on(timetable, b, day), b.stop_id);
    Set::new(
        |hash: u64| exists|j: int| 0 <= j < hashes.len() && #[trigger] hashes[j] == Some(hash),
    )
}

/// The rides are taken of all departures whose routes are new: of those on the day of the arrival,
/// and, late in the evening, of those on the following day whose routes no departure on the day of
/// the arrival has.
pub open spec fn rides_are_taken(timetable: &Timetable, b: Boarding, t: SearchState) -> bool {
    &&& new_departures_are_taken(timetable, b, boarding_day(b), Set::empty(), t)
    &&& is_late(b) ==> new_departures_are_taken(
        timetable,
        b,
        following_day(b),
        hashes_on(timetable, b, boarding_day(b)),
        t,
    )
}

/// The ride of the earliest departure of the day is taken.
pub open spec fn first_ride_is_taken(timetable: &Timetable, b: Boarding, t: SearchState) -> bool {
    let day = boarding_day(b);
    let list = departures_on(timetable, b, day);
    list.len() > 0 ==> ride_is_taken(
        timetable,
        b,
        timetable.journey(list[0].journey_id)->0,
        day,
        t,
    )
}

/// A departure whose route is new is boarded, and what its ride reaches stays reached.
proof fn lemma_departure_reaches(
    timetable: &Timetable,
    s: SearchState,
    taken: Set<u64>,
    b: Boarding,
    day: i32,
    list: Seq<Departure>,
    hashes: Seq<Option<u64>>,
    n: int,
    k: int,
)
    requires
        0 <= k < n,
        b.source_round + 1 == b.round,
        is_new_route(taken, hashes, k),
    ensures
        ride_is_taken(
            timetable,
            b,
            timetable.journey(list[k].journey_id)->0,
            day,
            after_departures(timetable, s, taken, b, day, list, hashes, n).0,
        ),
    decreases n,
{
    let m = after_departures(timetable, s, taken, b, day, list, hashes, n - 1);
    let t = after_departures(timetable, s, taken, b, day, list, hashes, n);
    let journey = timetable.journey(list[n - 1].journey_id)->0;
    if k == n - 1 {
        lemma_taken(timetable, s, taken, b, day, list, hashes, n - 1);
        if let Some(hash) = hashes[k] {
            assert(!m.1.contains(hash));
        }
        if is_boarded(timetable, b, journey, day) {
            let len = journey.route.len() as int;
            assert forall|i: int| #[trigger] ride_counts(
                timetable,
                b,
                journey,
                day,
                i,
            ) implies reached_by(
                t.0,
                journey.route[i].stop_id,
                arrival_of(journey.route, journey.route[i].stop_id, day as int, b.stop_id)->0,
            ) by {
                lemma_ride_reaches(timetable, m.0, b, journey, day, len, i);
            }
        }
    } else {
        lemma_departure_reaches(timetable, s, taken, b, day, list, hashes, n - 1, k);
        lemma_grows_calls(timetable, m.0, b, journey, day, journey.route.len() as int);
        lemma_ride_stays(
            timetable,
            b,
            timetable.journey(list[k].journey_id)->0,
            day,
            m.0,
            t.0,
        );
    }
}

/// A ride that was taken stays taken where no arrival gets later.
proof fn lemma_ride_stays(
    timetable: &Timetable,
    b: Boarding,
    journey: JourneyView,
    day: i32,
    s: SearchState,
    t: SearchState,
)
    requires
        ride_is_taken(timetable, b, journey, day, s),
        forall|x: i32, time: int| reached_by(s, x, time) ==> #[trigger] reached_by(t, x, time),
    ensures
        ride_is_taken(timetable, b, journey, day, t),
{
}

/// Boarding all departures of the day takes the rides of those whose routes are new.
proof fn lemma_new_departures(
    timetable: &Timetable,
    s: SearchState,
    taken: Set<u64>,
    b: Boarding,
    day: i32,
)
    requires
        b.source_round + 1 == b.round,
    ensures
        new_departures_are_taken(
            timetable,
            b,
            day,
            taken,
            after_list(timetable, s, taken, b, day, departures_on(timetable, b, day)).0,
        ),
{
    let list = departures_on(timetable, b, day);
    let hashes = route_hashes(timetable, list, b.stop_id);
    let n = list.len() as int;
    let t = after_list(timetable, s, taken, b, day, list).0;
    assert forall|k: int| 0 <= k < list.len() && is_new_route(
        taken,
        hashes,
        k,
    ) implies ride_is_taken(
        timetable,
        b,
        timetable.journey((#[trigger] list[k]).journey_id)->0,
        day,
        t,
    ) by {
        lemma_departure_reaches(timetable, s, taken, b, day, list, hashes, n, k);
    }
}

/// What was taken of the departures of a day stays taken where no arrival gets later.
proof fn lemma_new_departures_stay(
    timetable: &Timetable,
    b: Boarding,
    day: i32,
    taken: Set<u64>,
    s: SearchState,
    t: SearchState,
)
    requires
        new_departures_are_taken(timetable, b, day, taken, s),
        forall|x: i32, time: int| reached_by(s, x, time) ==> #[trigger] reached_by(t, x, time),
    ensures
        new_departures_are_taken(timetable, b, day, taken, t),
{
    let list = departures_on(timetable, b, day);
    assert forall|k: int| 0 <= k < list.len() && is_new_route(
        taken,
        route_hashes(timetable, list, b.stop_id),
        k,
    ) implies ride_is_taken(
        timetable,
        b,
        timetable.journey((#[trigger] list[k]).journey_id)->0,
        day,
        t,
    ) by {
        let journey = timetable.journey(list[k].journey_id)->0;
        lemma_ride_stays(timetable, b, journey, day, s, t);
    }
}

/// Rides that were taken stay taken where no arrival gets later.
proof fn lemma_rides_stay(timetable: &Timetable, b: Boarding, s: SearchState, t: SearchState)
    requires
        rides_are_taken(timetable, b, s),
        forall|x: i32, time: int| reached_by(s, x, time) ==> #[trigger] reached_by(t, x, time),
    ensures
        rides_are_taken(timetable, b, t),
{
    let day = boarding_day(b);
    lemma_new_departures_stay(timetable, b, day, Set::empty(), s, t);
    if is_late(b) {
        let taken = hashes_on(timetable, b, day);
        lemma_new_departures_stay(timetable, b, following_day(b), taken, s, t);
    }
}

/// After the journeys of the day were boarded, the hashes of their routes are those taken.
pub proof fn lemma_hashes_on(timetable: &Timetable, s: SearchState, b: Boarding)
    ensures
        after_today(timetable, s, b).1 == hashes_on(timetable, b, boarding_day(b)),
{
    let day = boarding_day(b);
    let list = departures_on(timetable, b, day);
    let hashes = route_hashes(timetable, list, b.stop_id);
    let n = list.len() as int;
    let done = after_departures(timetable, s, Set::empty(), b, day, list, hashes, n);
    lemma_taken(timetable, s, Set::empty(), b, day, list, hashes, n);
    assert forall|hash: u64| done.1.contains(hash) == hashes_on(timetable, b, day).contains(
        hash,
    ) by {}
    assert(done.1 =~= hashes_on(timetable, b, day));
}

/// Boarding at a stop grows the state and takes the rides from it.
proof fn lemma_grows_stop(
    timetable: &Timetable,
    args: RoutingAlgorithmArgs,
    s: SearchState,
    stop_id: i32,
    round: usize,
)
    requires
        round >= 1,
        s.has(round - 1, stop_id),
    ensures
        grows(s, after_stop(timetable, args, s, stop_id, round), round as int),
        boarding_at(args, s, stop_id, round) matches Some(b) ==> rides_are_taken(
            timetable,
            b,
            after_stop(timetable, args, s, stop_id, round),
        ),
{
    if let Some(b) = boarding_at(args, s, stop_id, round) {
        let t = after_boarding(timetable, s, b);
        let day = boarding_day(b);
        let next_day = following_day(b);
        let today = departures_on(timetable, b, day);
        let tomorrow = departures_on(timetable, b, next_day);
        let none = Set::<u64>::empty();
        let (s1, taken) = after_today(timetable, s, b);
        lemma_grows_departures(
            timetable,
            s,
            none,
            b,
            day,
            today,
            route_hashes(timetable, today, b.stop_id),
            today.len() as int,
        );
        lemma_new_departures(timetable, s, none, b, day);
        if is_late(b) {
            lemma_grows_departures(
                timetable,
                s1,
                taken,
                b,
                next_day,
                tomorrow,
                route_hashes(timetable, tomorrow, b.stop_id),
                tomorrow.len() as int,
            );
            lemma_grows_transitive(s, s1, t, round as int);
            lemma_new_departures_stay(timetable, b, day, none, s1, t);
            lemma_hashes_on(timetable, s, b);
            lemma_new_departures(timetable, s1, taken, b, next_day);
        }
    }
}

/// Boarding at stops in turn grows the state and takes the rides from each that the round before
/// has reached.
proof fn lemma_grows_stops(
    timetable: &Timetable,
    args: RoutingAlgorithmArgs,
    s: SearchState,
    stops: Seq<i32>,
    round: usize,
    n: int,
)
    requires
        round >= 1,
        n <= stops.len(),
        forall|k: int| 0 <= k < stops.len() ==> s.has(round - 1, #[trigger] stops[k]),
    ensures
        grows(s, after_stops(timetable, args, s, stops, round, n), round as int),
        forall|k: int|
            0 <= k < n ==> rides_are_taken(
                timetable,
                boarding_at(args, s, #[trigger] stops[k], round)->0,
                after_stops(timetable, args, s, stops, round, n),
            ),
    decreases n,
{
    if n > 0 {
        let m = after_stops(timetable, args, s, stops, round, n - 1);
        let t = after_stops(timetable, args, s, stops, round, n);
        lemma_grows_stops(timetable, args, s, stops, round, n - 1);
        assert(m.has(round - 1, stops[n - 1]));
        lemma_grows_stop(timetable, args, m, stops[n - 1], round);
        lemma_grows_transitive(s, m, t, round as int);
        assert forall|k: int| 0 <= k < n implies rides_are_taken(
            timetable,
            boarding_at(args, s, #[trigger] stops[k], round)->0,
            t,
        ) by {
            let b = boarding_at(args, s, stops[k], round)->0;
            assert(m.has(round - 1, stops[k]));
            assert(boarding_at(args, m, stops[k], round) == Some(b));
            if k < n - 1 {
                lemma_rides_stay(timetable, b, m, t);
            }
        }
    }
}

/// The walk leads to a known stop, takes time, and ends within the time limit.
pub open spec fn walk_counts(
    timetable: &Timetable,
    time: i64,
    connection: StopConnection,
    time_limit: Option<i64>,
) -> bool {
    &&& timetable.has_stop(connection.stop_id_2)
    &&& connection.duration > 0
    &&& time_limit matches Some(limit) ==> after_minutes(time as int, connection.duration as int)
        <= limit
}

/// Every stop within a walk of the stop is known to be reached by the end of the walk.
pub open spec fn walks_are_taken(
    timetable: &Timetable,
    stop_id: i32,
    time: i64,
    time_limit: Option<i64>,
    t: SearchState,
) -> bool {
    forall|k: int|
        0 <= k < timetable.connections(stop_id).len() && walk_counts(
            timetable,
            time,
            #[trigger] timetable.connections(stop_id)[k],
            time_limit,
        ) ==> reached_by(
            t,
            timetable.connections(stop_id)[k].stop_id_2,
            after_minutes(time as int, timetable.connections(stop_id)[k].duration as int),
        )
}

/// Walks that were taken stay taken where no arrival gets later.
proof fn lemma_walks_stay(
    timetable: &Timetable,
    stop_id: i32,
    time: i64,
    time_limit: Option<i64>,
    s: SearchState,
    t: SearchState,
)
    requires
        walks_are_taken(timetable, stop_id, time, time_limit, s),
        forall|x: i32, time: int| reached_by(s, x, time) ==> #[trigger] reached_by(t, x, time),
    ensures
        walks_are_taken(timetable, stop_id, time, time_limit, t),
{
}

/// A label of a ride in `t` was there in `s`.
spec fn adds_walks(s: SearchState, t: SearchState, round: int) -> bool {
    forall|x: i32| #[trigger]
        t.has(round, x) && t.label(round, x).journey_id is Some ==> s.has(round, x) && s.label(
            round,
            x,
        ) == t.label(round, x)
}

/// Walks from a stop grow the state, add only walks, and each that counts is taken.
proof fn lemma_grows_walks(
    timetable: &Timetable,
    s: SearchState,
    stop_id: i32,
    time: i64,
    round: usize,
    time_limit: Option<i64>,
    n: int,
)
    requires
        has_room(time as int),
        n <= timetable.connections(stop_id).len(),
    ensures
        ({
            let connections = timetable.connections(stop_id);
            let t = after_walks(
                timetable,
                s,
                stop_id,
                time,
                connections,
                round,
                time_limit,
                n,
            );
            &&& grows(s, t, round as int)
            &&& adds_walks(s, t, round as int)
            &&& forall|k: int|
                0 <= k < n && walk_counts(
                    timetable,
                    time,
                    #[trigger] connections[k],
                    time_limit,
                ) ==> reached_by(
                    t,
                    connections[k].stop_id_2,
                    after_minutes(time as int, connections[k].duration as int),
                )
        }),
    decreases n,
{
    if n > 0 {
        let connections = timetable.connections(stop_id);
        let c = connections[n - 1];
        let m = after_walks(
            timetable,
            s,
            stop_id,
            time,
            connections,
            round,
            time_limit,
            n - 1,
        );
        let t = after_walks(timetable, s, stop_id, time, connections, round, time_limit, n);
        lemma_grows_walks(timetable, s, stop_id, time, round, time_limit, n - 1);
        lemma_grows_improve(
            m,
            c.stop_id_2,
            walk_label(stop_id, time, c, round),
            round as int,
            time,
            time_limit,
        );
        if timetable.has_stop(c.stop_id_2) {
            lemma_grows_transitive(s, m, t, round as int);
            assert forall|x: i32| #[trigger] t.has(round as int, x) && t.label(
                round as int,
                x,
            ).journey_id is Some implies m.has(round as int, x) && m.label(round as int, x)
                == t.label(round as int, x) by {}
        }
    }
}

/// Walking from a stop grows the state, adds only walks, and takes every walk.
proof fn lemma_grows_transfers(
    timetable: &Timetable,
    args: RoutingAlgorithmArgs,
    s: SearchState,
    stop_id: i32,
    round: usize,
)
    requires
        s.has(round as int, stop_id),
        has_room(s.label(round as int, stop_id).arrival_time as int),
    ensures
        ({
            let t = after_transfers(timetable, args, s, stop_id, round);
            &&& grows(s, t, round as int)
            &&& adds_walks(s, t, round as int)
            &&& timetable.is_exchange_point(stop_id) ==> walks_are_taken(
                timetable,
                stop_id,
                s.label(round as int, stop_id).arrival_time,
                args.limit(),
                t,
            )
        }),
{
    lemma_grows_walks(
        timetable,
        s,
        stop_id,
        s.label(round as int, stop_id).arrival_time,
        round,
        args.limit(),
        timetable.connections(stop_id).len() as int,
    );
}

/// Walking from stops in turn grows the state, adds only walks, and takes every walk from a stop
/// whose label is still that of a ride.
proof fn lemma_grows_all_transfers(
    timetable: &Timetable,
    q: Query,
    args: RoutingAlgorithmArgs,
    s: SearchState,
    stops: Seq<i32>,
    round: usize,
    n: int,
)
    requires
        args.limit() == q.time_limit,
        is_sound(timetable, q, s, round as int),
        are_walkers(s, stops, round),
        n <= stops.len(),
    ensures
        ({
            let t = after_all_transfers(timetable, args, s, stops, round, n);
            &&& grows(s, t, round as int)
            &&& adds_walks(s, t, round as int)
            &&& forall|k: int|
                0 <= k < n ==> walks_after_ride_are_taken(
                    timetable,
                    args,
                    t,
                    round as int,
                    #[trigger] stops[k],
                )
        }),
    decreases n,
{
    if n > 0 {
        let m = after_all_transfers(timetable, args, s, stops, round, n - 1);
        let t = after_all_transfers(timetable, args, s, stops, round, n);
        let x = stops[n - 1];
        lemma_grows_all_transfers(timetable, q, args, s, stops, round, n - 1);
        lemma_next_walk(timetable, q, args, s, stops, round, n - 1);
        lemma_grows_transfers(timetable, args, m, x, round);
        lemma_grows_transitive(s, m, t, round as int);
        assert(adds_walks(s, t, round as int)) by {
            assert forall|y: i32| #[trigger] t.has(round as int, y) && t.label(
                round as int,
                y,
            ).journey_id is Some implies s.has(round as int, y) && s.label(round as int, y)
                == t.label(round as int, y) by {
                assert(m.has(round as int, y));
            }
        }
        assert forall|k: int| 0 <= k < n implies walks_after_ride_are_taken(
            timetable,
            args,
            t,
            round as int,
            #[trigger] stops[k],
        ) by {
            let y = stops[k];
            let l = t.label(round as int, y);
            if t.has(round as int, y) && l.journey_id is Some && timetable.is_exchange_point(y) {
                assert(m.has(round as int, y));
                if k < n - 1 {
                    assert(walks_after_ride_are_taken(timetable, args, m, round as int, y));
                    lemma_walks_stay(timetable, y, l.arrival_time, args.limit(), m, t);
                }
            }
        }
    }
}

/// If the stop is an exchange point that the round has reached by a ride, every stop within a
/// walk of it is known to be reached by the end of the walk.
pub open spec fn walks_after_ride_are_taken(
    timetable: &Timetable,
    args: RoutingAlgorithmArgs,
    t: SearchState,
    round: int,
    stop_id: i32,
) -> bool {
    t.has(round, stop_id) && t.label(round, stop_id).journey_id is Some
        && timetable.is_exchange_point(stop_id) ==> walks_are_taken(
        timetable,
        stop_id,
        t.label(round, stop_id).arrival_time,
        args.limit(),
        t,
    )
}

/// How the round after `round` boards at a stop that `round` has reached.
pub open spec fn boarding_after(
    args: RoutingAlgorithmArgs,
    s: SearchState,
    round: int,
    stop_id: i32,
) -> Boarding {
    Boarding {
        stop_id,
        arrival_time: s.label(round, stop_id).arrival_time,
        previous_journey_id: s.label(round, stop_id).journey_id,
        round: (round + 1) as usize,
        source_round: round as usize,
        time_limit: args.limit(),
        target_stop_id: args.target(),
    }
}

/// A ride to the stop in the round starts at a stop that the round before has reached.
pub open spec fn rides_on_from_round_before(t: SearchState, round: int, stop_id: i32) -> bool {
    t.label(round, stop_id).journey_id is Some ==> t.label(round, stop_id).source_round + 1
        == round
}

/// What the two parts of a round do: boarding at the marked stops, and walking.
proof fn lemma_round_parts(
    timetable: &Timetable,
    q: Query,
    args: RoutingAlgorithmArgs,
    s: SearchState,
    round: usize,
    order: Seq<i32>,
    walkers: Seq<i32>,
)
    requires
        timetable.wf(),
        round >= 1,
        args.limit() == q.time_limit,
        is_sound(timetable, q, s, round - 1),
        are_orders(timetable, args, s, round, order, walkers),
        forall|x: i32| s.has(round - 1, x) <==> #[trigger] s.marked.contains(x),
    ensures
        forall|x: i32| !#[trigger] s.has(round as int, x),
        ({
            let middle = after_rides(timetable, args, s, round, order);
            let t = after_round(timetable, args, s, round, order, walkers);
            let unmarked = SearchState { marked: Set::empty(), ..s };
            let settled = SearchState { improved: Set::empty(), ..middle };
            &&& grows(unmarked, middle, round as int)
            &&& grows(settled, t, round as int)
            &&& adds_walks(settled, t, round as int)
            &&& forall|k: int|
                0 <= k < order.len() ==> rides_are_taken(
                    timetable,
                    boarding_at(args, unmarked, #[trigger] order[k], round)->0,
                    middle,
                )
            &&& forall|k: int|
                0 <= k < walkers.len() ==> walks_after_ride_are_taken(
                    timetable,
                    args,
                    t,
                    round as int,
                    #[trigger] walkers[k],
                )
        }),
{
    let middle = after_rides(timetable, args, s, round, order);
    let unmarked = SearchState { marked: Set::empty(), ..s };
    let settled = SearchState { improved: Set::empty(), ..middle };
    let n = order.len() as int;
    assert forall|k: int| 0 <= k < order.len() implies unmarked.has(
        round - 1,
        #[trigger] order[k],
    ) by {
        assert(order.contains(order[k]));
        assert(s.marked.contains(order[k]));
    }
    lemma_grows_stops(timetable, args, unmarked, order, round, n);
    lemma_walkers(middle, settled, walkers, round);
    assert(is_sound(timetable, q, settled, round as int) && s.labels.len() <= round) by {
        reveal(is_sound);
        lemma_marks(timetable, q, s, unmarked, round as int);
        lemma_stops(timetable, q, args, unmarked, order, round, n);
        lemma_marks(timetable, q, middle, settled, round as int);
    }
    lemma_grows_all_transfers(
        timetable,
        q,
        args,
        settled,
        walkers,
        round,
        walkers.len() as int,
    );
}

/// What a round does not miss.
proof fn lemma_round_complete(
    timetable: &Timetable,
    q: Query,
    args: RoutingAlgorithmArgs,
    s: SearchState,
    round: usize,
    t: SearchState,
)
    requires
        timetable.wf(),
        round >= 1,
        args.limit() == q.time_limit,
        is_sound(timetable, q, s, round - 1),
        is_round(timetable, args, s, round, t),
        forall|x: i32| s.has(round - 1, x) <==> #[trigger] s.marked.contains(x),
    ensures
        forall|x: i32| #[trigger]
            s.has(round - 1, x) ==> rides_are_taken(
                timetable,
                boarding_after(args, s, round - 1, x),
                t,
            ),
        forall|x: i32| t.has(round as int, x) <==> #[trigger] t.marked.contains(x),
        forall|x: i32| #[trigger] t.has(round as int, x) ==> rides_on_from_round_before(
            t,
            round as int,
            x,
        ),
        forall|x: i32|
            walks_after_ride_are_taken(timetable, args, t, round as int, x),
        forall|r: int, x: i32|
            r < round ==> (#[trigger] t.has(r, x) <==> s.has(r, x)) && (s.has(r, x) ==> t.label(
                r,
                x,
            ) == s.label(r, x)),
        forall|x: i32, time: int| reached_by(s, x, time) ==> #[trigger] reached_by(t, x, time),
{
    let (order, walkers) = choose|order: Seq<i32>, walkers: Seq<i32>| #[trigger]
        are_orders(timetable, args, s, round, order, walkers) && t == after_round(
            timetable,
            args,
            s,
            round,
            order,
            walkers,
        );
    let middle = after_rides(timetable, args, s, round, order);
    let unmarked = SearchState { marked: Set::empty(), ..s };
    let settled = SearchState { improved: Set::empty(), ..middle };
    lemma_round_parts(timetable, q, args, s, round, order, walkers);
    assert forall|x: i32, time: int| reached_by(s, x, time) implies #[trigger] reached_by(
        t,
        x,
        time,
    ) by {
        assert(reached_by(unmarked, x, time));
        assert(reached_by(middle, x, time));
        assert(reached_by(settled, x, time));
    }
    assert forall|r: int, x: i32| r < round implies (#[trigger] t.has(r, x) <==> s.has(r, x)) && (
    s.has(r, x) ==> t.label(r, x) == s.label(r, x)) by {
        assert(settled.has(r, x) == middle.has(r, x));
        assert(unmarked.has(r, x) == s.has(r, x));
        assert(middle.has(r, x) == unmarked.has(r, x));
    }
    assert forall|x: i32| #[trigger] s.has(round - 1, x) implies rides_are_taken(
        timetable,
        boarding_after(args, s, round - 1, x),
        t,
    ) by {
        assert(s.marked.contains(x));
        assert(order.contains(x));
        let k = choose|k: int| 0 <= k < order.len() && order[k] == x;
        assert(unmarked.has(round - 1, order[k]));
        let b = boarding_after(args, s, round - 1, x);
        assert(boarding_at(args, unmarked, x, round) == Some(b));
        assert forall|y: i32, time: int| reached_by(middle, y, time) implies
            #[trigger] reached_by(t, y, time) by {
            assert(reached_by(settled, y, time));
        }
        lemma_rides_stay(timetable, b, middle, t);
    }
    assert forall|x: i32| #[trigger] middle.has(round as int, x) implies is_new(
        middle,
        round as int,
        x,
    ) by {
        assert(!s.has(round as int, x));
        assert(!unmarked.has(round as int, x));
    }
    assert forall|x: i32| t.has(round as int, x) <==> #[trigger] t.marked.contains(x) by {
        assert(settled.has(round as int, x) == middle.has(round as int, x));
        if t.has(round as int, x) && settled.has(round as int, x) {
            assert(settled.marked.contains(x));
        }
        if t.marked.contains(x) && !t.has(round as int, x) {
            assert(settled.marked.contains(x));
            assert(middle.marked.contains(x));
            assert(!unmarked.marked.contains(x));
            assert(middle.has(round as int, x));
            assert(settled.has(round as int, x));
        }
    }
    assert forall|x: i32| #[trigger] t.has(round as int, x) implies rides_on_from_round_before(
        t,
        round as int,
        x,
    ) by {
        if settled.has(round as int, x) {
            assert(middle.has(round as int, x));
        }
    }
    assert forall|x: i32| walks_after_ride_are_taken(
        timetable,
        args,
        t,
        round as int,
        x,
    ) by {
        if t.has(round as int, x) && t.label(round as int, x).journey_id is Some {
            assert(settled.has(round as int, x));
            assert(middle.has(round as int, x));
            assert(reached_by_ride(middle, round).contains(x));
            assert(walkers.contains(x));
            let k = choose|k: int| 0 <= k < walkers.len() && walkers[k] == x;
            assert(walks_after_ride_are_taken(timetable, args, t, round as int, walkers[k]));
        }
    }
}

/// The walks from the departure stop grow the state, and each of them is taken.
proof fn lemma_grows_initial_walks(
    s: SearchState,
    stop_id: i32,
    departure_at: i64,
    connections: Seq<StopConnection>,
    n: int,
)
    requires
        forall|k: int|
            0 <= k < connections.len() ==> walk_fits(departure_at, #[trigger] connections[k]),
        n <= connections.len(),
    ensures
        ({
            let t = after_initial_walks(s, stop_id, departure_at, connections, n);
            &&& grows(s, t, 0)
            &&& forall|k: int|
                0 <= k < n && (#[trigger] connections[k]).duration > 0 ==> reached_by(
                    t,
                    connections[k].stop_id_2,
                    after_minutes(departure_at as int, connections[k].duration as int),
                )
        }),
    decreases n,
{
    if n > 0 {
        let c = connections[n - 1];
        let m = after_initial_walks(s, stop_id, departure_at, connections, n - 1);
        let t = after_initial_walks(s, stop_id, departure_at, connections, n);
        lemma_grows_initial_walks(s, stop_id, departure_at, connections, n - 1);
        lemma_grows_improve(
            m,
            c.stop_id_2,
            walk_label(stop_id, departure_at, c, 0),
            0,
            departure_at,
            None,
        );
        lemma_grows_transitive(s, m, t, 0);
    }
}

/// Up to the round before `round` nothing was missed: the rides were taken from every stop
/// that an earlier round has reached, the stops that are marked are those of the last round, every
/// round rides on from the round before it, and every walk was taken after a ride.
spec fn is_complete(
    timetable: &Timetable,
    args: RoutingAlgorithmArgs,
    s: SearchState,
    round: int,
) -> bool {
    &&& forall|r: int, x: i32|
        0 <= r < round - 1 && #[trigger] s.has(r, x) ==> rides_are_taken(
            timetable,
            boarding_after(args, s, r, x),
            s,
        )
    &&& forall|x: i32| s.has(round - 1, x) <==> #[trigger] s.marked.contains(x)
    &&& forall|r: int, x: i32|
        r < round && #[trigger] s.has(r, x) ==> rides_on_from_round_before(s, r, x)
    &&& forall|r: int, x: i32|
        1 <= r < round ==> #[trigger] walks_after_ride_are_taken(timetable, args, s, r, x)
}

/// A round misses nothing.
proof fn lemma_round_stays_complete(
    timetable: &Timetable,
    q: Query,
    args: RoutingAlgorithmArgs,
    s: SearchState,
    round: usize,
    t: SearchState,
)
    requires
        timetable.wf(),
        round >= 1,
        args.limit() == q.time_limit,
        is_sound(timetable, q, s, round - 1),
        is_round(timetable, args, s, round, t),
        is_complete(timetable, args, s, round as int),
    ensures
        is_complete(timetable, args, t, round + 1),
{
    lemma_round_complete(timetable, q, args, s, round, t);
    assert forall|r: int, x: i32| 0 <= r < round && #[trigger] t.has(
        r,
        x,
    ) implies rides_are_taken(timetable, boarding_after(args, t, r, x), t) by {
        assert(s.has(r, x));
        assert(boarding_after(args, t, r, x) == boarding_after(args, s, r, x));
        if r < round - 1 {
            lemma_rides_stay(timetable, boarding_after(args, s, r, x), s, t);
        } else {
            assert(s.has(round - 1, x));
        }
    }
    assert forall|r: int, x: i32| r < round + 1 && #[trigger] t.has(
        r,
        x,
    ) implies rides_on_from_round_before(t, r, x) by {
        if r < round {
            assert(s.has(r, x));
        }
    }
    assert forall|r: int, x: i32| 1 <= r < round + 1 implies
        #[trigger] walks_after_ride_are_taken(timetable, args, t, r, x) by {
        if r < round && t.has(r, x) {
            assert(s.has(r, x));
            assert(walks_after_ride_are_taken(timetable, args, s, r, x));
            if t.label(r, x).journey_id is Some && timetable.is_exchange_point(x) {
                lemma_walks_stay(
                    timetable,
                    x,
                    t.label(r, x).arrival_time,
                    args.limit(),
                    s,
                    t,
                );
            }
        }
    }
}

/// The rounds of a search miss nothing.
proof fn lemma_end_complete(
    timetable: &Timetable,
    q: Query,
    args: RoutingAlgorithmArgs,
    s: SearchState,
    round: int,
    last: int,
    t: SearchState,
)
    requires
        timetable.wf(),
        args.limit() == q.time_limit,
        is_sound(timetable, q, s, round - 1),
        1 <= round,
        last <= i32::MAX,
        is_complete(timetable, args, s, round),
        is_end(timetable, args, s, round, last, t),
    ensures
        forall|r: int, x: i32|
            0 <= r < last && #[trigger] t.has(r, x) ==> rides_are_taken(
                timetable,
                boarding_after(args, t, r, x),
                t,
            ),
        forall|r: int, x: i32|
            1 <= r ==> #[trigger] walks_after_ride_are_taken(timetable, args, t, r, x),
        forall|r: int, x: i32| #[trigger] t.has(r, x) ==> rides_on_from_round_before(t, r, x),
        forall|x: i32, time: int| reached_by(s, x, time) ==> #[trigger] reached_by(t, x, time),
    decreases last + 1 - round,
{
    if round <= last && !s.marked.is_empty() {
        let m = choose|m: SearchState| #[trigger]
            is_round(timetable, args, s, round as usize, m) && is_end(
                timetable,
                args,
                m,
                round + 1,
                last,
                t,
            );
        lemma_round_stays_complete(timetable, q, args, s, round as usize, m);
        assert(is_sound(timetable, q, m, round)) by {
            reveal(is_sound);
            lemma_round(timetable, q, args, s, round as usize, m);
        }
        assert forall|x: i32, time: int| reached_by(s, x, time) implies #[trigger] reached_by(
            m,
            x,
            time,
        ) by {
            lemma_round_complete(timetable, q, args, s, round as usize, m);
        }
        lemma_end_complete(timetable, q, args, m, round + 1, last, t);
        assert forall|x: i32, time: int| reached_by(s, x, time) implies #[trigger] reached_by(
            t,
            x,
            time,
        ) by {
            assert(reached_by(m, x, time));
        }
    } else {
        assert(t == s);
        assert forall|r: int, x: i32| round <= r implies !#[trigger] t.has(r, x) by {
            reveal(is_sound);
        }
        assert forall|r: int, x: i32| 0 <= r < last && #[trigger] t.has(
            r,
            x,
        ) implies rides_are_taken(timetable, boarding_after(args, t, r, x), t) by {
            if r == round - 1 {
                assert(s.has(round - 1, x));
                assert(s.marked.contains(x));
            }
        }
    }
}

/// The state with which the rounds start misses nothing.
proof fn lemma_start_complete(timetable: &Timetable, q: Query, args: RoutingAlgorithmArgs)
    requires
        can_depart(timetable, q.departure_stop_id, q.departure_at),
    ensures
        is_sound(timetable, q, start(timetable, q.departure_stop_id, q.departure_at), 0),
        is_complete(
            timetable,
            args,
            start(timetable, q.departure_stop_id, q.departure_at),
            1,
        ),
{
    reveal(is_sound);
    lemma_start(timetable, q);
    let connections = timetable.connections(q.departure_stop_id);
    let s = origin(q.departure_stop_id, q.departure_at);
    let t = start(timetable, q.departure_stop_id, q.departure_at);
    lemma_grows_initial_walks(
        s,
        q.departure_stop_id,
        q.departure_at,
        connections,
        connections.len() as int,
    );
    assert forall|x: i32| t.has(0, x) <==> #[trigger] t.marked.contains(x) by {
        if s.has(0, x) {
            assert(s.marked.contains(x));
        }
        if s.marked.contains(x) {
            assert(s.has(0, x));
        }
    }
    assert forall|r: int, x: i32| r < 1 && #[trigger] t.has(
        r,
        x,
    ) implies rides_on_from_round_before(t, r, x) by {
        if s.has(0, x) {
            assert(s.label(0, x).journey_id is None);
        }
    }
}

/// Every stop within a walk of the departure stop is reached by the end of the walk, at the
/// latest, when a search ends.
pub proof fn walks_from_departure_are_taken(
    timetable: &Timetable,
    args: RoutingAlgorithmArgs,
    departure_stop_id: i32,
    departure_at: i64,
    max_rounds: i32,
    t: SearchState,
    k: int,
)
    requires
        timetable.wf(),
        can_depart(timetable, departure_stop_id, departure_at),
        max_rounds < i32::MAX,
        is_outcome(timetable, args, departure_stop_id, departure_at, max_rounds, t),
        0 <= k < timetable.connections(departure_stop_id).len(),
        timetable.connections(departure_stop_id)[k].duration > 0,
    ensures
        ({
            let connection = timetable.connections(departure_stop_id)[k];
            reached_by(
                t,
                connection.stop_id_2,
                after_minutes(departure_at as int, connection.duration as int),
            )
        }),
{
    let q = Query { departure_stop_id, departure_at, time_limit: args.limit() };
    let s = start(timetable, departure_stop_id, departure_at);
    let connections = timetable.connections(departure_stop_id);
    lemma_start_complete(timetable, q, args);
    lemma_end_complete(timetable, q, args, s, 1, max_rounds + 1, t);
    lemma_grows_initial_walks(
        origin(departure_stop_id, departure_at),
        departure_stop_id,
        departure_at,
        connections,
        connections.len() as int,
    );
    assert(reached_by(
        s,
        connections[k].stop_id_2,
        after_minutes(departure_at as int, connections[k].duration as int),
    ));
}

/// From every stop that a round before the last has reached, the next round takes the departures
/// that can be boarded, of the day and, late in the evening, of the following day: when a search
/// ends, each stop at which such a ride may end is reached by its arrival there, at the latest. A
/// departure is passed over only if its route has the hash of that of an earlier one.
pub proof fn departures_are_taken(
    timetable: &Timetable,
    args: RoutingAlgorithmArgs,
    departure_stop_id: i32,
    departure_at: i64,
    max_rounds: i32,
    t: SearchState,
    round: int,
    stop_id: i32,
)
    requires
        timetable.wf(),
        can_depart(timetable, departure_stop_id, departure_at),
        max_rounds < i32::MAX,
        is_outcome(timetable, args, departure_stop_id, departure_at, max_rounds, t),
        0 <= round <= max_rounds,
        t.has(round, stop_id),
    ensures
        rides_are_taken(timetable, boarding_after(args, t, round, stop_id), t),
{
    let q = Query { departure_stop_id, departure_at, time_limit: args.limit() };
    lemma_start_complete(timetable, q, args);
    lemma_end_complete(
        timetable,
        q,
        args,
        start(timetable, departure_stop_id, departure_at),
        1,
        max_rounds + 1,
        t,
    );
}

/// From every stop that a round before the last has reached, the next round takes the earliest
/// departure of the day, whatever the hashes of the routes are: when a search ends, each stop at
/// which that ride may end is reached by its arrival there, at the latest.
pub proof fn earliest_departures_are_taken(
    timetable: &Timetable,
    args: RoutingAlgorithmArgs,
    departure_stop_id: i32,
    departure_at: i64,
    max_rounds: i32,
    t: SearchState,
    round: int,
    stop_id: i32,
)
    requires
        timetable.wf(),
        can_depart(timetable, departure_stop_id, departure_at),
        max_rounds < i32::MAX,
        is_outcome(timetable, args, departure_stop_id, departure_at, max_rounds, t),
        0 <= round <= max_rounds,
        t.has(round, stop_id),
    ensures
        first_ride_is_taken(timetable, boarding_after(args, t, round, stop_id), t),
{
    let b = boarding_after(args, t, round, stop_id);
    departures_are_taken(
        timetable,
        args,
        departure_stop_id,
        departure_at,
        max_rounds,
        t,
        round,
        stop_id,
    );
    let list = departures_on(timetable, b, boarding_day(b));
    if list.len() > 0 {
        let hashes = route_hashes(timetable, list, b.stop_id);
        assert(is_new_route(Set::empty(), hashes, 0));
        assert(ride_is_taken(
            timetable,
            b,
            timetable.journey(list[0].journey_id)->0,
            boarding_day(b),
            t,
        ));
    }
}

/// From every exchange point that a round has reached by a ride, the walks are taken: when a
/// search ends, each known stop within a walk that keeps the time limit is reached by the end of
/// the walk, at the latest.
pub proof fn walks_after_rides_are_taken(
    timetable: &Timetable,
    args: RoutingAlgorithmArgs,
    departure_stop_id: i32,
    departure_at: i64,
    max_rounds: i32,
    t: SearchState,
    round: int,
    stop_id: i32,
)
    requires
        timetable.wf(),
        can_depart(timetable, departure_stop_id, departure_at),
        max_rounds < i32::MAX,
        is_outcome(timetable, args, departure_stop_id, departure_at, max_rounds, t),
        1 <= round,
    ensures
        walks_after_ride_are_taken(timetable, args, t, round, stop_id),
{
    let q = Query { departure_stop_id, departure_at, time_limit: args.limit() };
    lemma_start_complete(timetable, q, args);
    lemma_end_complete(
        timetable,
        q,
        args,
        start(timetable, departure_stop_id, departure_at),
        1,
        max_rounds + 1,
        t,
    );
}

/// Every ride of a round starts at a stop that the round before has reached.
pub proof fn rounds_ride_on(
    timetable: &Timetable,
    args: RoutingAlgorithmArgs,
    departure_stop_id: i32,
    departure_at: i64,
    max_rounds: i32,
    t: SearchState,
    round: int,
    stop_id: i32,
)
    requires
        timetable.wf(),
        can_depart(timetable, departure_stop_id, departure_at),
        max_rounds < i32::MAX,
        is_outcome(timetable, args, departure_stop_id, departure_at, max_rounds, t),
        t.has(round, stop_id),
    ensures
        rides_on_from_round_before(t, round, stop_id),
{
    let q = Query { departure_stop_id, departure_at, time_limit: args.limit() };
    lemma_start_complete(timetable, q, args);
    lemma_end_complete(
        timetable,
        q,
        args,
        start(timetable, departure_stop_id, departure_at),
        1,
        max_rounds + 1,
        t,
    );
}

} // verus!
