//! What each step of a search does to what it has found, whatever that is.

use crate::calendar::{is_instant, DAY, HOUR, MINUTE};
use crate::lookups::{
    goes_on, last_stops_are_those_of_last_calls, operating_journeys_are_those_that_run, runs,
    walks_are_listed,
};
use crate::routing::completeness::{hashes_on, lemma_hashes_on, reached_by};
use crate::routing::departures::{
    departures_are_sorted, leaves_first, lemma_departures_known, lemma_is_listed,
    lemma_new_of_its_route,
};
use crate::routing::exploration::{
    after_calls, after_departures, after_initial_walks, after_journey, after_stop, after_today,
    after_transfers, after_walks, boarding_at, boarding_day, can_depart, can_walk, departure_from,
    departures, departures_on, following_day, is_boarded, is_late, is_new_route, lemma_in_order,
    lemma_taken, may_alight, ride_label, route_hashes, walk_fits, walk_label, Boarding, Departure,
};
use crate::routing::models::RoutingAlgorithmArgs;
use crate::routing::soundness::{lemma_listed, lemma_operating_day, lemma_previous_round};
use crate::routing::state::{origin, with_round, RaptorLabel, SearchState};
use crate::timetable::{
    arrival_of, departure_of, hash_of, lemma_arrival_day, lemma_departure_day, JourneyView,
    RouteEntry, StopConnection, Timetable, FIRST_SERVICE_DAY, LAST_SERVICE_DAY,
};
use vstd::prelude::*;

verus! {

/// An offer is recorded if and only if it keeps the time limit, arrives after the arrival where it
/// started, and arrives before the best arrival at the stop that is known. Then the label is the
/// one of the stop in the round, its arrival is the best at the stop, and the stop is marked if
/// that is asked for. Nothing else changes.
pub proof fn offers_are_recorded_where_they_are_earlier(
    s: SearchState,
    stop_id: i32,
    label: RaptorLabel,
    round: int,
    source_arrival_time: i64,
    time_limit: Option<i64>,
    mark: bool,
)
    requires
        round >= 0,
    ensures
        ({
            let t = s.improve(stop_id, label, round, source_arrival_time, time_limit, mark);
            let time = label.arrival_time;
            let is_earlier = {
                &&& time_limit is None || time <= time_limit->0
                &&& source_arrival_time < time
                &&& !s.best.contains_key(stop_id) || time < s.best[stop_id]
            };
            &&& s.accepts(stop_id, time, source_arrival_time, time_limit) == is_earlier
            &&& !is_earlier ==> t == s
            &&& is_earlier ==> {
                &&& t.has(round, stop_id)
                &&& t.label(round, stop_id) == label
                &&& t.best == s.best.insert(stop_id, time)
                &&& forall|r: int, x: i32|
                    r != round || x != stop_id ==> (#[trigger] t.has(r, x) <==> s.has(r, x)) && (
                    s.has(r, x) ==> t.label(r, x) == s.label(r, x))
                &&& t.labels.len() == if s.labels.len() > round {
                    s.labels.len() as int
                } else {
                    round + 1
                }
                &&& forall|x: i32| #[trigger]
                    t.marked.contains(x) <==> s.marked.contains(x) || (mark && x == stop_id)
                &&& forall|x: i32| #[trigger]
                    t.improved.contains(x) <==> s.improved.contains(x) || (mark && x == stop_id)
            }
        }),
{
}

/// A search starts with the departure stop alone: reached in round 0 at the instant of departure,
/// by no journey and no walk, and marked for the first round.
pub proof fn searches_start_with_the_departure_stop(departure_stop_id: i32, departure_at: i64)
    ensures
        ({
            let s = origin(departure_stop_id, departure_at);
            let label = s.label(0, departure_stop_id);
            &&& s.labels.len() == 1
            &&& forall|r: int, x: i32| #[trigger]
                s.has(r, x) <==> r == 0 && x == departure_stop_id
            &&& label.arrival_time == departure_at
            &&& label.journey_id is None && label.transfer_duration is None
            &&& label.from_stop_id == departure_stop_id
            &&& label.boarding_stop_id == departure_stop_id
            &&& label.source_round == 0
            &&& forall|x: i32| #[trigger] s.best.contains_key(x) <==> x == departure_stop_id
            &&& s.best[departure_stop_id] == departure_at
            &&& forall|x: i32| #[trigger] s.marked.contains(x) <==> x == departure_stop_id
            &&& forall|x: i32| !#[trigger] s.improved.contains(x)
        }),
{
}

/// Rounds are added up to the one asked for, and no further: the labels that there are stay, and
/// the added rounds hold none.
pub proof fn rounds_are_added_empty(labels: Seq<Map<i32, RaptorLabel>>, round: int)
    requires
        round >= 0,
    ensures
        ({
            let more = with_round(labels, round);
            &&& more.len() == if labels.len() > round {
                labels.len() as int
            } else {
                round + 1
            }
            &&& forall|r: int| 0 <= r < labels.len() ==> #[trigger] more[r] == labels[r]
            &&& forall|r: int, x: i32|
                labels.len() <= r < more.len() ==> !(#[trigger] more[r].contains_key(x))
        }),
{
}

/// Everything that was found stays found, at the latest by then.
pub open spec fn keeps(s: SearchState, t: SearchState) -> bool {
    forall|x: i32, time: int| reached_by(s, x, time) ==> #[trigger] reached_by(t, x, time)
}

/// The label of the stop in the round is another than before, and `p` holds of it: it arrives
/// earlier than all that was known, and the stop is marked.
pub open spec fn is_new_label(
    s: SearchState,
    t: SearchState,
    p: spec_fn(int, i32, RaptorLabel) -> bool,
    round: int,
    stop_id: i32,
) -> bool {
    &&& t.has(round, stop_id)
    &&& p(round, stop_id, t.label(round, stop_id))
    &&& t.best.contains_key(stop_id)
    &&& t.best[stop_id] <= t.label(round, stop_id).arrival_time
    &&& s.best.contains_key(stop_id) ==> t.label(round, stop_id).arrival_time < s.best[stop_id]
    &&& t.marked.contains(stop_id)
    &&& t.improved.contains(stop_id)
}

/// From `s` to `t` nothing is written but labels of which `p` holds: each is earlier than what was
/// known at its stop, the best arrivals follow the labels, and the stops with new labels are
/// marked.
pub open spec fn writes_only(
    s: SearchState,
    t: SearchState,
    p: spec_fn(int, i32, RaptorLabel) -> bool,
) -> bool {
    &&& forall|r: int, x: i32| #[trigger] s.has(r, x) ==> t.has(r, x)
    &&& forall|r: int, x: i32| #[trigger]
        t.has(r, x) ==> (s.has(r, x) && s.label(r, x) == t.label(r, x)) || is_new_label(
            s,
            t,
            p,
            r,
            x,
        )
    &&& forall|x: i32| #[trigger]
        s.best.contains_key(x) ==> t.best.contains_key(x) && t.best[x] <= s.best[x]
    &&& forall|x: i32| #[trigger]
        t.best.contains_key(x) ==> (s.best.contains_key(x) && s.best[x] == t.best[x]) || exists|
            r: int,
        | #[trigger]
            is_new_label(s, t, p, r, x) && t.label(r, x).arrival_time == t.best[x]
    &&& forall|x: i32| s.marked.contains(x) ==> #[trigger] t.marked.contains(x)
    &&& forall|x: i32| #[trigger]
        t.marked.contains(x) ==> s.marked.contains(x) || exists|r: int| #[trigger]
            is_new_label(s, t, p, r, x)
    &&& forall|x: i32| s.improved.contains(x) ==> #[trigger] t.improved.contains(x)
    &&& forall|x: i32| #[trigger]
        t.improved.contains(x) ==> s.improved.contains(x) || exists|r: int| #[trigger]
            is_new_label(s, t, p, r, x)
}

/// Writing nothing writes only what one likes.
pub proof fn lemma_writes_nothing(s: SearchState, p: spec_fn(int, i32, RaptorLabel) -> bool)
    ensures
        writes_only(s, s, p),
        keeps(s, s),
{
}

/// What is written first stays new unless it is written anew.
proof fn lemma_stays_new(
    s: SearchState,
    m: SearchState,
    t: SearchState,
    p: spec_fn(int, i32, RaptorLabel) -> bool,
    r: int,
    x: i32,
)
    requires
        writes_only(s, m, p),
        writes_only(m, t, p),
        is_new_label(s, m, p, r, x),
    ensures
        is_new_label(s, t, p, r, x),
{
    assert(m.has(r, x));
    assert(t.has(r, x));
    assert(m.best.contains_key(x));
    if is_new_label(m, t, p, r, x) {
        assert(m.marked.contains(x));
    } else {
        assert(m.label(r, x) == t.label(r, x));
        assert(t.marked.contains(x));
        assert(t.improved.contains(x));
    }
}

/// Writing twice.
pub proof fn lemma_writes_twice(
    s: SearchState,
    m: SearchState,
    t: SearchState,
    p: spec_fn(int, i32, RaptorLabel) -> bool,
)
    requires
        writes_only(s, m, p),
        writes_only(m, t, p),
    ensures
        writes_only(s, t, p),
{
    assert forall|r: int, x: i32| is_new_label(s, m, p, r, x) implies #[trigger] is_new_label(
        s,
        t,
        p,
        r,
        x,
    ) by {
        lemma_stays_new(s, m, t, p, r, x);
    }
    assert forall|r: int, x: i32| #[trigger] is_new_label(m, t, p, r, x) implies is_new_label(
        s,
        t,
        p,
        r,
        x,
    ) by {
        if s.best.contains_key(x) {
            assert(m.best.contains_key(x));
        }
    }
    assert forall|r: int, x: i32| #[trigger] s.has(r, x) implies t.has(r, x) by {
        assert(m.has(r, x));
    }
    assert forall|r: int, x: i32| #[trigger] t.has(r, x) implies (s.has(r, x) && s.label(r, x)
        == t.label(r, x)) || is_new_label(s, t, p, r, x) by {
        if !is_new_label(m, t, p, r, x) {
            assert(m.has(r, x));
        }
    }
    assert forall|x: i32| #[trigger] s.best.contains_key(x) implies t.best.contains_key(x)
        && t.best[x] <= s.best[x] by {
        assert(m.best.contains_key(x));
    }
    assert forall|x: i32| #[trigger] t.best.contains_key(x) implies (s.best.contains_key(x)
        && s.best[x] == t.best[x]) || exists|r: int| #[trigger]
        is_new_label(s, t, p, r, x) && t.label(r, x).arrival_time == t.best[x] by {
        if m.best.contains_key(x) && m.best[x] == t.best[x] {
            if !(s.best.contains_key(x) && s.best[x] == m.best[x]) {
                let r = choose|r: int| #[trigger]
                    is_new_label(s, m, p, r, x) && m.label(r, x).arrival_time == m.best[x];
                assert(is_new_label(s, t, p, r, x));
                assert(t.has(r, x));
            }
        } else {
            let r = choose|r: int| #[trigger]
                is_new_label(m, t, p, r, x) && t.label(r, x).arrival_time == t.best[x];
            assert(is_new_label(s, t, p, r, x));
        }
    }
    assert forall|x: i32| #[trigger] t.marked.contains(x) implies s.marked.contains(x) || exists|
        r: int,
    | #[trigger] is_new_label(s, t, p, r, x) by {
        if m.marked.contains(x) {
            if !s.marked.contains(x) {
                let r = choose|r: int| #[trigger] is_new_label(s, m, p, r, x);
                assert(is_new_label(s, t, p, r, x));
            }
        } else {
            let r = choose|r: int| #[trigger] is_new_label(m, t, p, r, x);
            assert(is_new_label(s, t, p, r, x));
        }
    }
    assert forall|x: i32| #[trigger] t.improved.contains(x) implies s.improved.contains(x)
        || exists|r: int| #[trigger] is_new_label(s, t, p, r, x) by {
        if m.improved.contains(x) {
            if !s.improved.contains(x) {
                let r = choose|r: int| #[trigger] is_new_label(s, m, p, r, x);
                assert(is_new_label(s, t, p, r, x));
            }
        } else {
            let r = choose|r: int| #[trigger] is_new_label(m, t, p, r, x);
            assert(is_new_label(s, t, p, r, x));
        }
    }
}

/// What was found stays found over two steps.
pub proof fn lemma_keeps_twice(s: SearchState, m: SearchState, t: SearchState)
    requires
        keeps(s, m),
        keeps(m, t),
    ensures
        keeps(s, t),
{
    assert forall|x: i32, time: int| reached_by(s, x, time) implies #[trigger] reached_by(
        t,
        x,
        time,
    ) by {
        assert(reached_by(m, x, time));
    }
}

/// An offer writes its label or nothing.
pub proof fn lemma_offer_writes(
    s: SearchState,
    stop_id: i32,
    label: RaptorLabel,
    round: int,
    source_arrival_time: i64,
    time_limit: Option<i64>,
    p: spec_fn(int, i32, RaptorLabel) -> bool,
)
    requires
        round >= 0,
        source_arrival_time < label.arrival_time && (time_limit is None || label.arrival_time
            <= time_limit->0) ==> p(round, stop_id, label),
    ensures
        ({
            let t = s.improve(stop_id, label, round, source_arrival_time, time_limit, true);
            &&& writes_only(s, t, p)
            &&& keeps(s, t)
            &&& source_arrival_time < label.arrival_time && (time_limit is None
                || label.arrival_time <= time_limit->0) ==> reached_by(
                t,
                stop_id,
                label.arrival_time as int,
            )
        }),
{
    let t = s.improve(stop_id, label, round, source_arrival_time, time_limit, true);
    offers_are_recorded_where_they_are_earlier(
        s,
        stop_id,
        label,
        round,
        source_arrival_time,
        time_limit,
        true,
    );
    if t != s {
        assert(is_new_label(s, t, p, round, stop_id));
    }
}

/// A passenger who reaches a stop at `time` may board a journey of the day there: the day of the
/// arrival or, from eight in the evening on, the day after it.
pub open spec fn is_ride_day(time: int, day: int) -> bool {
    ||| day == time / DAY as int
    ||| time % DAY as int >= 20 * HOUR && day == time / DAY as int + 1
}

/// A ride with the journey may end at the stop: it is known, and has an exchange flag, is that of
/// the last call, or is the one that the search is for.
pub open spec fn may_end_at(
    timetable: &Timetable,
    target_stop_id: Option<i32>,
    route: Seq<RouteEntry>,
    stop_id: i32,
) -> bool {
    &&& timetable.stops@.contains_key(stop_id)
    &&& {
        ||| timetable.stops@[stop_id].exchange_flag != 0
        ||| route.last().stop_id == stop_id
        ||| target_stop_id == Some(stop_id)
    }
}

/// A passenger who reaches the stop at `arrival`, with the journey `left` if there is one, is in
/// time for the journey that leaves at `time`. After a ride with a journey of the timetable the
/// exchange time has to pass first, unless there is a through service.
pub open spec fn is_in_time(
    timetable: &Timetable,
    stop_id: i32,
    arrival: i64,
    left: Option<i32>,
    journey: JourneyView,
    day: i32,
    time: int,
) -> bool {
    let changes = left is Some && timetable.journeys@.contains_key(left->0)
        && !timetable.is_through(day, timetable.journeys@[left->0]@, journey, stop_id);
    time >= arrival + if changes {
        timetable.exchange_minutes(
            stop_id,
            timetable.journeys@[left->0]@,
            journey,
            (time / DAY as int) as i32,
        ) * MINUTE
    } else {
        0
    }
}

/// The journey of the day can be boarded at the stop: it goes on from there, and the passenger is
/// in time.
pub open spec fn is_caught(
    timetable: &Timetable,
    b: Boarding,
    journey: JourneyView,
    day: i32,
) -> bool {
    &&& goes_on(journey.route, b.stop_id)
    &&& departure_of(journey.route, b.stop_id, day as int) matches Some(time)
    &&& is_in_time(
        timetable,
        b.stop_id,
        b.arrival_time,
        b.previous_journey_id,
        journey,
        day,
        time,
    )
}

/// The call at position `i` ends a ride from the boarding stop at `arrival`: it comes after one at
/// that stop, at another stop where the ride may end, later than the boarding and within the time
/// limit.
pub open spec fn is_ride_end(
    timetable: &Timetable,
    b: Boarding,
    journey: JourneyView,
    day: i32,
    i: int,
    arrival: int,
) -> bool {
    &&& 0 <= i < journey.route.len()
    &&& exists|k: int| 0 <= k < i && (#[trigger] journey.route[k]).stop_id == b.stop_id
    &&& journey.route[i].stop_id != b.stop_id
    &&& may_end_at(timetable, b.target_stop_id, journey.route, journey.route[i].stop_id)
    &&& arrival_of(journey.route, journey.route[i].stop_id, day as int, b.stop_id) == Some(arrival)
    &&& b.arrival_time < arrival
    &&& b.time_limit is None || arrival <= b.time_limit->0
}

/// The label is that of a ride with the journey from the boarding stop.
pub open spec fn is_ride_with(
    timetable: &Timetable,
    b: Boarding,
    journey: JourneyView,
    day: i32,
    round: int,
    stop_id: i32,
    label: RaptorLabel,
) -> bool {
    &&& is_caught(timetable, b, journey, day)
    &&& exists|i: int| #[trigger]
        is_ride_end(timetable, b, journey, day, i, label.arrival_time as int)
            && journey.route[i].stop_id == stop_id
    &&& round == b.round
    &&& label.journey_id == Some(journey.id)
    &&& label.from_stop_id == b.stop_id
    &&& label.boarding_stop_id == b.stop_id
    &&& label.transfer_duration is None
    &&& label.source_round == b.source_round
}

/// Looking at the calls of a journey that was caught writes rides with it, and reaches every stop
/// where a ride may end.
proof fn lemma_calls_ride(
    timetable: &Timetable,
    s: SearchState,
    b: Boarding,
    journey: JourneyView,
    day: i32,
    n: int,
)
    requires
        journey.wf(),
        is_caught(timetable, b, journey, day),
        n <= journey.route.len(),
    ensures
        ({
            let t = after_calls(timetable, s, b, journey, day, n);
            &&& writes_only(
                s,
                t,
                |r: int, x: i32, label: RaptorLabel|
                    is_ride_with(timetable, b, journey, day, r, x, label),
            )
            &&& keeps(s, t)
            &&& forall|i: int, arrival: int|
                i < n && #[trigger] is_ride_end(timetable, b, journey, day, i, arrival)
                    ==> reached_by(t, journey.route[i].stop_id, arrival)
        }),
    decreases n,
{
    let p = |r: int, x: i32, label: RaptorLabel|
        is_ride_with(timetable, b, journey, day, r, x, label);
    let t = after_calls(timetable, s, b, journey, day, n);
    if n > 0 {
        let m = after_calls(timetable, s, b, journey, day, n - 1);
        lemma_calls_ride(timetable, s, b, journey, day, n - 1);
        let stop_id = journey.route[n - 1].stop_id;
        lemma_arrival_day(journey, stop_id, day as int, b.stop_id);
        last_stops_are_those_of_last_calls(journey.route, stop_id);
        let arrival = arrival_of(journey.route, stop_id, day as int, b.stop_id);
        if arrival is Some && may_alight(timetable, b, journey, n - 1) {
            let label = ride_label(b, journey.id, arrival->0 as i64);
            if b.arrival_time < label.arrival_time && (b.time_limit is None || label.arrival_time
                <= b.time_limit->0) {
                assert(is_ride_end(
                    timetable,
                    b,
                    journey,
                    day,
                    n - 1,
                    label.arrival_time as int,
                ));
                assert(p(b.round as int, stop_id, label));
            }
            lemma_offer_writes(
                m,
                stop_id,
                label,
                b.round as int,
                b.arrival_time,
                b.time_limit,
                p,
            );
        } else {
            lemma_writes_nothing(m, p);
        }
        lemma_writes_twice(s, m, t, p);
        lemma_keeps_twice(s, m, t);
        assert forall|i: int, arrival: int| i < n && #[trigger] is_ride_end(
            timetable,
            b,
            journey,
            day,
            i,
            arrival,
        ) implies reached_by(t, journey.route[i].stop_id, arrival) by {
            if i < n - 1 {
                assert(reached_by(m, journey.route[i].stop_id, arrival));
            } else {
                assert(may_alight(timetable, b, journey, i));
            }
        }
    } else {
        lemma_writes_nothing(s, p);
    }
}

/// A journey is boarded if and only if it is caught.
pub proof fn lemma_caught(timetable: &Timetable, b: Boarding, journey: JourneyView, day: i32)
    ensures
        is_boarded(timetable, b, journey, day) == is_caught(timetable, b, journey, day),
{
    last_stops_are_those_of_last_calls(journey.route, b.stop_id);
}

/// A journey that is caught takes the passenger to each of its later calls where a ride may end: a
/// stop with an exchange flag, its last stop, or the stop that the search is for, whatever journey
/// or walk led to the boarding stop. Afterwards the stop is reached by the arrival there, at the
/// latest.
pub proof fn journeys_reach_their_later_calls(
    timetable: &Timetable,
    s: SearchState,
    b: Boarding,
    journey: JourneyView,
    day: i32,
    i: int,
    arrival: int,
)
    requires
        journey.wf(),
        is_caught(timetable, b, journey, day),
        is_ride_end(timetable, b, journey, day, i, arrival),
    ensures
        ({
            let t = after_journey(timetable, s, b, journey, day);
            t.best.contains_key(journey.route[i].stop_id) && t.best[journey.route[i].stop_id]
                <= arrival
        }),
{
    lemma_caught(timetable, b, journey, day);
    lemma_calls_ride(timetable, s, b, journey, day, journey.route.len() as int);
    assert(reached_by(
        after_journey(timetable, s, b, journey, day),
        journey.route[i].stop_id,
        arrival,
    ));
}

/// Considering a journey for boarding writes rides with it alone, and a journey that is missed
/// changes nothing.
pub proof fn journeys_write_only_their_rides(
    timetable: &Timetable,
    s: SearchState,
    b: Boarding,
    journey: JourneyView,
    day: i32,
)
    requires
        journey.wf(),
    ensures
        writes_only(
            s,
            after_journey(timetable, s, b, journey, day),
            |r: int, x: i32, label: RaptorLabel|
                is_ride_with(timetable, b, journey, day, r, x, label),
        ),
        keeps(s, after_journey(timetable, s, b, journey, day)),
        !is_caught(timetable, b, journey, day) ==> after_journey(timetable, s, b, journey, day)
            == s,
{
    let p = |r: int, x: i32, label: RaptorLabel|
        is_ride_with(timetable, b, journey, day, r, x, label);
    lemma_caught(timetable, b, journey, day);
    if is_caught(timetable, b, journey, day) {
        lemma_calls_ride(timetable, s, b, journey, day, journey.route.len() as int);
    } else {
        lemma_writes_nothing(s, p);
    }
}

/// The journey runs at the stop on the day, goes on from there, and leaves at `time`, no earlier
/// than the arrival of the passenger.
pub open spec fn leaves(
    timetable: &Timetable,
    day: i32,
    stop_id: i32,
    arrival: i64,
    id: i32,
    time: int,
) -> bool {
    &&& runs(timetable, day, stop_id, id)
    &&& timetable.journeys@.contains_key(id)
    &&& goes_on(timetable.journeys@[id]@.route, stop_id)
    &&& departure_of(timetable.journeys@[id]@.route, stop_id, day as int) == Some(time)
    &&& arrival <= time
}

/// The routes of the two journeys have the same hash from the stop on.
pub open spec fn share_route(timetable: &Timetable, stop_id: i32, id: i32, other: i32) -> bool {
    hash_of(timetable.journeys@[id]@.route, stop_id) == hash_of(
        timetable.journeys@[other]@.route,
        stop_id,
    )
}

/// Every other journey with the same route that leaves the stop on the day leaves later than
/// `time`. One of the day after the arrival has a route with which no journey leaves on the day of
/// the arrival.
pub open spec fn is_first_of_route(
    timetable: &Timetable,
    day: i32,
    stop_id: i32,
    arrival: i64,
    id: i32,
    time: int,
) -> bool {
    let today = (arrival as int / DAY as int) as i32;
    &&& forall|other: i32, then: int| #[trigger]
        leaves(timetable, day, stop_id, arrival, other, then) && other != id && share_route(
            timetable,
            stop_id,
            id,
            other,
        ) ==> time < then
    &&& day != today ==> forall|other: i32, then: int| #[trigger]
        leaves(timetable, today, stop_id, arrival, other, then) ==> !share_route(
            timetable,
            stop_id,
            id,
            other,
        )
}

/// No journey with the same route leaves the stop on the day before `time`. One of the day after
/// the arrival has a route with which no journey leaves on the day of the arrival.
pub open spec fn is_earliest_of_route(
    timetable: &Timetable,
    day: i32,
    stop_id: i32,
    arrival: i64,
    id: i32,
    time: int,
) -> bool {
    let today = (arrival as int / DAY as int) as i32;
    &&& forall|other: i32, then: int| #[trigger]
        leaves(timetable, day, stop_id, arrival, other, then) && share_route(
            timetable,
            stop_id,
            id,
            other,
        ) ==> time <= then
    &&& day != today ==> forall|other: i32, then: int| #[trigger]
        leaves(timetable, today, stop_id, arrival, other, then) ==> !share_route(
            timetable,
            stop_id,
            id,
            other,
        )
}

/// The label is that of a ride with the earliest journey of a route that leaves the boarding stop
/// on the day of the arrival or, from eight in the evening on, on the day after it.
pub open spec fn is_ride_from(
    timetable: &Timetable,
    b: Boarding,
    round: int,
    stop_id: i32,
    label: RaptorLabel,
) -> bool {
    exists|day: i32, id: i32, time: int| #[trigger]
        leaves(timetable, day, b.stop_id, b.arrival_time, id, time) && is_ride_day(
            b.arrival_time as int,
            day as int,
        ) && is_earliest_of_route(timetable, day, b.stop_id, b.arrival_time, id, time)
            && is_ride_with(
            timetable,
            b,
            timetable.journeys@[id]@,
            day,
            round,
            stop_id,
            label,
        )
}

/// A journey leaves the boarding stop if and only if it has a departure in the list.
pub proof fn lemma_leaves(timetable: &Timetable, b: Boarding, day: i32, id: i32, time: int)
    requires
        timetable.wf(),
    ensures
        leaves(timetable, day, b.stop_id, b.arrival_time, id, time) <==> {
            &&& timetable.operating(day, b.stop_id).contains(id)
            &&& is_instant(time)
            &&& departure_from(timetable, b, day, id) == Some(
                Departure { journey_id: id, departure_time: time as i64 },
            )
        },
{
    operating_journeys_are_those_that_run(timetable, day, b.stop_id);
    assert(runs(timetable, day, b.stop_id, id) == timetable.operating(day, b.stop_id).contains(id));
    if timetable.journeys@.contains_key(id) {
        let journey = timetable.journeys@[id]@;
        lemma_departure_day(journey, b.stop_id, day as int);
        last_stops_are_those_of_last_calls(journey.route, b.stop_id);
    }
}

/// Where more is allowed, less is written too.
proof fn lemma_writes_less(
    s: SearchState,
    t: SearchState,
    p: spec_fn(int, i32, RaptorLabel) -> bool,
    q: spec_fn(int, i32, RaptorLabel) -> bool,
)
    requires
        writes_only(s, t, p),
        forall|r: int, x: i32, label: RaptorLabel| #[trigger] p(r, x, label) ==> q(r, x, label),
    ensures
        writes_only(s, t, q),
{
    assert forall|r: int, x: i32| #[trigger] is_new_label(s, t, p, r, x) implies is_new_label(
        s,
        t,
        q,
        r,
        x,
    ) by {}
    assert forall|x: i32| #[trigger] t.best.contains_key(x) implies (s.best.contains_key(x)
        && s.best[x] == t.best[x]) || exists|r: int| #[trigger]
        is_new_label(s, t, q, r, x) && t.label(r, x).arrival_time == t.best[x] by {
        if !(s.best.contains_key(x) && s.best[x] == t.best[x]) {
            let r = choose|r: int| #[trigger]
                is_new_label(s, t, p, r, x) && t.label(r, x).arrival_time == t.best[x];
            assert(is_new_label(s, t, q, r, x));
        }
    }
    assert forall|x: i32| #[trigger] t.marked.contains(x) implies s.marked.contains(x) || exists|
        r: int,
    | #[trigger] is_new_label(s, t, q, r, x) by {
        if !s.marked.contains(x) {
            let r = choose|r: int| #[trigger] is_new_label(s, t, p, r, x);
            assert(is_new_label(s, t, q, r, x));
        }
    }
    assert forall|x: i32| #[trigger] t.improved.contains(x) implies s.improved.contains(x)
        || exists|r: int| #[trigger] is_new_label(s, t, q, r, x) by {
        if !s.improved.contains(x) {
            let r = choose|r: int| #[trigger] is_new_label(s, t, p, r, x);
            assert(is_new_label(s, t, q, r, x));
        }
    }
}

/// A departure with a new route is the earliest of its route.
proof fn lemma_new_is_earliest(
    timetable: &Timetable,
    b: Boarding,
    day: i32,
    taken: Set<u64>,
    k: int,
)
    requires
        timetable.wf(),
        0 <= k < departures_on(timetable, b, day).len(),
        is_new_route(
            taken,
            route_hashes(timetable, departures_on(timetable, b, day), b.stop_id),
            k,
        ),
        day == boarding_day(b) || taken == hashes_on(timetable, b, boarding_day(b)),
    ensures
        ({
            let d = departures_on(timetable, b, day)[k];
            &&& leaves(
                timetable,
                day,
                b.stop_id,
                b.arrival_time,
                d.journey_id,
                d.departure_time as int,
            )
            &&& is_earliest_of_route(
                timetable,
                day,
                b.stop_id,
                b.arrival_time,
                d.journey_id,
                d.departure_time as int,
            )
        }),
{
    let list = departures_on(timetable, b, day);
    let hashes = route_hashes(timetable, list, b.stop_id);
    let d = list[k];
    let ids = timetable.operating(day, b.stop_id);
    let all = departures(timetable, b, day, ids, ids.len() as int);
    let today = boarding_day(b);
    lemma_departures_known(timetable, b, day);
    lemma_in_order(timetable, b, day, ids);
    lemma_listed(timetable, b, day, ids, k);
    departures_are_sorted(all);
    assert(departure_from(timetable, b, day, d.journey_id) == Some(d));
    assert(is_instant(d.departure_time as int)) by {
        lemma_departure_day(timetable.journeys@[d.journey_id]@, b.stop_id, day as int);
    }
    lemma_leaves(timetable, b, day, d.journey_id, d.departure_time as int);
    let hash = hashes[k];
    assert(hash is Some);
    assert forall|other: i32, then: int| #[trigger]
        leaves(timetable, day, b.stop_id, b.arrival_time, other, then) && share_route(
        timetable,
        b.stop_id,
        d.journey_id,
        other,
    ) implies d.departure_time <= then by {
        let e = Departure { journey_id: other, departure_time: then as i64 };
        lemma_leaves(timetable, b, day, other, then);
        lemma_is_listed(timetable, b, day, e);
        let j = choose|j: int| 0 <= j < list.len() && list[j] == e;
        assert(hashes[j] == hash);
        if then < d.departure_time {
            assert(list[j].departure_time < list[k].departure_time);
            assert(j < k);
        }
    }
    if day != today {
        assert forall|other: i32, then: int| #[trigger]
            leaves(timetable, today, b.stop_id, b.arrival_time, other, then) implies !share_route(
            timetable,
            b.stop_id,
            d.journey_id,
            other,
        ) by {
            let e = Departure { journey_id: other, departure_time: then as i64 };
            let before = departures_on(timetable, b, today);
            lemma_leaves(timetable, b, today, other, then);
            lemma_is_listed(timetable, b, today, e);
            let j = choose|j: int| 0 <= j < before.len() && before[j] == e;
            let earlier = route_hashes(timetable, before, b.stop_id);
            if share_route(timetable, b.stop_id, d.journey_id, other) {
                assert(earlier[j] == hash);
                assert(taken.contains(hash->0));
            }
        }
    }
}

/// The departures of a day take the passenger on with the earliest journey of each route, and
/// nothing else is written.
proof fn lemma_departures_ride(
    timetable: &Timetable,
    s: SearchState,
    taken: Set<u64>,
    b: Boarding,
    day: i32,
    n: int,
)
    requires
        timetable.wf(),
        is_ride_day(b.arrival_time as int, day as int),
        n <= departures_on(timetable, b, day).len(),
        day == boarding_day(b) || taken == hashes_on(timetable, b, boarding_day(b)),
    ensures
        ({
            let list = departures_on(timetable, b, day);
            let hashes = route_hashes(timetable, list, b.stop_id);
            let t = after_departures(timetable, s, taken, b, day, list, hashes, n).0;
            &&& writes_only(
                s,
                t,
                |r: int, x: i32, label: RaptorLabel| is_ride_from(timetable, b, r, x, label),
            )
            &&& keeps(s, t)
            &&& forall|k: int, i: int, arrival: int|
                #![trigger is_new_route(taken, hashes, k), is_ride_end(
                    timetable,
                    b,
                    timetable.journeys@[list[k].journey_id]@,
                    day,
                    i,
                    arrival,
                )]
                0 <= k < n && is_new_route(taken, hashes, k) && is_caught(
                    timetable,
                    b,
                    timetable.journeys@[list[k].journey_id]@,
                    day,
                ) && is_ride_end(
                    timetable,
                    b,
                    timetable.journeys@[list[k].journey_id]@,
                    day,
                    i,
                    arrival,
                ) ==> reached_by(
                    t,
                    timetable.journeys@[list[k].journey_id]@.route[i].stop_id,
                    arrival,
                )
        }),
    decreases n,
{
    let p = |r: int, x: i32, label: RaptorLabel| is_ride_from(timetable, b, r, x, label);
    let list = departures_on(timetable, b, day);
    let hashes = route_hashes(timetable, list, b.stop_id);
    if n > 0 {
        let (m, done) = after_departures(timetable, s, taken, b, day, list, hashes, n - 1);
        let t = after_departures(timetable, s, taken, b, day, list, hashes, n).0;
        lemma_departures_ride(timetable, s, taken, b, day, n - 1);
        lemma_departures_known(timetable, b, day);
        let d = list[n - 1];
        let journey = timetable.journeys@[d.journey_id]@;
        assert(timetable.journey(d.journey_id) == Some(journey));
        assert(timetable.journeys@.contains_key(d.journey_id));
        lemma_taken(timetable, s, taken, b, day, list, hashes, n - 1);
        if hashes[n - 1] is Some && done.contains(hashes[n - 1]->0) {
            assert(t == m);
            lemma_writes_nothing(m, p);
            assert(!is_new_route(taken, hashes, n - 1)) by {
                let hash = hashes[n - 1]->0;
                assert(done.contains(hash));
            }
        } else {
            assert(is_new_route(taken, hashes, n - 1)) by {
                if let Some(hash) = hashes[n - 1] {
                    assert(!done.contains(hash));
                }
            }
            lemma_new_is_earliest(timetable, b, day, taken, n - 1);
            journeys_write_only_their_rides(timetable, m, b, journey, day);
            let own = |r: int, x: i32, label: RaptorLabel|
                is_ride_with(timetable, b, journey, day, r, x, label);
            assert forall|r: int, x: i32, label: RaptorLabel| #[trigger] own(r, x, label) implies p(
                r,
                x,
                label,
            ) by {
                assert(leaves(
                    timetable,
                    day,
                    b.stop_id,
                    b.arrival_time,
                    d.journey_id,
                    d.departure_time as int,
                ));
            }
            lemma_writes_less(m, t, own, p);
        }
        lemma_writes_twice(s, m, t, p);
        lemma_keeps_twice(s, m, t);
        assert forall|k: int, i: int, arrival: int|
            #![trigger is_new_route(taken, hashes, k), is_ride_end(
                timetable,
                b,
                timetable.journeys@[list[k].journey_id]@,
                day,
                i,
                arrival,
            )]
            0 <= k < n && is_new_route(taken, hashes, k) && is_caught(
                timetable,
                b,
                timetable.journeys@[list[k].journey_id]@,
                day,
            ) && is_ride_end(
                timetable,
                b,
                timetable.journeys@[list[k].journey_id]@,
                day,
                i,
                arrival,
            ) implies reached_by(
            t,
            timetable.journeys@[list[k].journey_id]@.route[i].stop_id,
            arrival,
        ) by {
            let stop_id = timetable.journeys@[list[k].journey_id]@.route[i].stop_id;
            if k < n - 1 {
                assert(reached_by(m, stop_id, arrival));
            } else {
                journeys_reach_their_later_calls(timetable, m, b, journey, day, i, arrival);
            }
        }
    } else {
        lemma_writes_nothing(s, p);
    }
}

/// How a round boards at a stop with the label of an earlier round.
pub open spec fn boarding_with(
    args: RoutingAlgorithmArgs,
    s: SearchState,
    stop_id: i32,
    round: usize,
    source_round: int,
) -> Boarding {
    Boarding {
        stop_id,
        arrival_time: s.label(source_round, stop_id).arrival_time,
        previous_journey_id: s.label(source_round, stop_id).journey_id,
        round,
        source_round: source_round as usize,
        time_limit: args.limit(),
        target_stop_id: args.target(),
    }
}

/// The round is the latest before `round` that has reached the stop.
pub open spec fn is_latest(s: SearchState, stop_id: i32, round: int, source_round: int) -> bool {
    &&& 0 <= source_round < round
    &&& s.has(source_round, stop_id)
    &&& forall|r: int| source_round < r < round ==> !#[trigger] s.has(r, stop_id)
}

/// A round boards at a stop with the label of the latest round before it that has reached the stop.
proof fn lemma_boards_with(
    args: RoutingAlgorithmArgs,
    s: SearchState,
    stop_id: i32,
    round: usize,
    source_round: int,
)
    requires
        is_latest(s, stop_id, round as int, source_round),
    ensures
        boarding_at(args, s, stop_id, round) == Some(
            boarding_with(args, s, stop_id, round, source_round),
        ),
{
    lemma_previous_round(s, stop_id, round as int);
    let r = s.previous_round(stop_id, round as int)->0;
    if r < source_round {
        assert(!s.has(source_round, stop_id));
    }
}

/// The days on which a passenger boards are that of the arrival and, late, the day after it.
pub proof fn lemma_ride_days(b: Boarding)
    requires
        is_instant(b.arrival_time as int),
    ensures
        is_ride_day(b.arrival_time as int, boarding_day(b) as int),
        is_late(b) ==> is_ride_day(b.arrival_time as int, following_day(b) as int),
        forall|day: i32|
            #[trigger] is_ride_day(b.arrival_time as int, day as int) && FIRST_SERVICE_DAY <= day
                <= LAST_SERVICE_DAY ==> day == boarding_day(b) || (is_late(b) && day
                == following_day(b)),
{
}

/// Boarding at a stop takes the passenger on, from the arrival with the label of the latest earlier
/// round, with the first journey of each route that leaves on the day of the arrival and, from
/// eight in the evening on, on the day after it, if the passenger is in time: every later stop
/// where the ride may end is reached by its arrival there, at the latest.
pub proof fn first_journeys_are_ridden(
    timetable: &Timetable,
    args: RoutingAlgorithmArgs,
    s: SearchState,
    stop_id: i32,
    round: usize,
    source_round: int,
    day: i32,
    id: i32,
    time: int,
    i: int,
    arrival: int,
)
    requires
        timetable.wf(),
        is_latest(s, stop_id, round as int, source_round),
        ({
            let b = boarding_with(args, s, stop_id, round, source_round);
            let journey = timetable.journeys@[id]@;
            &&& is_instant(b.arrival_time as int)
            &&& is_ride_day(b.arrival_time as int, day as int)
            &&& leaves(timetable, day, stop_id, b.arrival_time, id, time)
            &&& is_first_of_route(timetable, day, stop_id, b.arrival_time, id, time)
            &&& is_in_time(
                timetable,
                stop_id,
                b.arrival_time,
                b.previous_journey_id,
                journey,
                day,
                time,
            )
            &&& is_ride_end(timetable, b, journey, day, i, arrival)
        }),
    ensures
        ({
            let t = after_stop(timetable, args, s, stop_id, round);
            let end = timetable.journeys@[id]@.route[i].stop_id;
            t.best.contains_key(end) && t.best[end] <= arrival
        }),
{
    let b = boarding_with(args, s, stop_id, round, source_round);
    let t = after_stop(timetable, args, s, stop_id, round);
    let end = timetable.journeys@[id]@.route[i].stop_id;
    lemma_boards_with(args, s, stop_id, round, source_round);
    lemma_leaves(timetable, b, day, id, time);
    lemma_operating_day(timetable, day, stop_id, id);
    lemma_ride_days(b);
    let today = boarding_day(b);
    let (s1, taken) = after_today(timetable, s, b);
    lemma_hashes_on(timetable, s, b);
    let k = lemma_new_departure(timetable, b, day, id, time);
    lemma_departures_ride(
        timetable,
        s,
        Set::empty(),
        b,
        today,
        departures_on(timetable, b, today).len() as int,
    );
    if is_late(b) && following_day(b) != today {
        let tomorrow = following_day(b);
        lemma_departures_ride(
            timetable,
            s1,
            taken,
            b,
            tomorrow,
            departures_on(timetable, b, tomorrow).len() as int,
        );
    }
    if is_late(b) && following_day(b) == today {
        lemma_departures_ride(
            timetable,
            s1,
            taken,
            b,
            today,
            departures_on(timetable, b, today).len() as int,
        );
    }
    if day == today {
        assert(reached_by(s1, end, arrival));
    }
    assert(reached_by(t, end, arrival));
}

/// A journey that leaves as the first of its route has a departure with a new route.
pub proof fn lemma_new_departure(
    timetable: &Timetable,
    b: Boarding,
    day: i32,
    id: i32,
    time: int,
) -> (k: int)
    requires
        timetable.wf(),
        is_instant(b.arrival_time as int),
        leaves(timetable, day, b.stop_id, b.arrival_time, id, time),
        is_first_of_route(timetable, day, b.stop_id, b.arrival_time, id, time),
    ensures
        ({
            let list = departures_on(timetable, b, day);
            let taken = if day == boarding_day(b) {
                Set::empty()
            } else {
                hashes_on(timetable, b, boarding_day(b))
            };
            &&& 0 <= k < list.len()
            &&& list[k].journey_id == id
            &&& is_new_route(taken, route_hashes(timetable, list, b.stop_id), k)
        }),
{
    let today = boarding_day(b);
    let d = Departure { journey_id: id, departure_time: time as i64 };
    let taken = if day == today {
        Set::empty()
    } else {
        hashes_on(timetable, b, today)
    };
    let hash = hash_of(timetable.journeys@[id]@.route, b.stop_id);
    lemma_leaves(timetable, b, day, id, time);
    assert(leaves_first(timetable, b, day, d)) by {
        assert forall|other: i32| #[trigger]
            timetable.operating(day, b.stop_id).contains(other) && other != id && hash_of(
                timetable.journey(other)->0.route,
                b.stop_id,
            ) == hash implies (departure_from(timetable, b, day, other) matches Some(e)
            ==> d.departure_time < e.departure_time) by {
            if let Some(e) = departure_from(timetable, b, day, other) {
                lemma_departure_day(timetable.journeys@[other]@, b.stop_id, day as int);
                lemma_leaves(timetable, b, day, other, e.departure_time as int);
                assert(leaves(
                    timetable,
                    day,
                    b.stop_id,
                    b.arrival_time,
                    other,
                    e.departure_time as int,
                ));
            }
        }
    }
    if let Some(h) = hash {
        if taken.contains(h) {
            let before = departures_on(timetable, b, today);
            let earlier = route_hashes(timetable, before, b.stop_id);
            let j = choose|j: int| 0 <= j < earlier.len() && #[trigger] earlier[j] == Some(h);
            let ids = timetable.operating(today, b.stop_id);
            lemma_in_order(timetable, b, today, ids);
            lemma_listed(timetable, b, today, ids, j);
            let e = before[j];
            assert(departure_from(timetable, b, today, e.journey_id) == Some(e));
            lemma_departure_day(timetable.journeys@[e.journey_id]@, b.stop_id, today as int);
            lemma_leaves(timetable, b, today, e.journey_id, e.departure_time as int);
            assert(share_route(timetable, b.stop_id, id, e.journey_id));
        }
    }
    lemma_new_of_its_route(timetable, b, day, taken, d)
}

/// Boarding at a stop writes nothing but rides with the earliest journeys of their routes, from the
/// arrival with the label of the latest earlier round.
pub proof fn stops_write_only_rides_from_them(
    timetable: &Timetable,
    args: RoutingAlgorithmArgs,
    s: SearchState,
    stop_id: i32,
    round: usize,
    source_round: int,
)
    requires
        timetable.wf(),
        is_latest(s, stop_id, round as int, source_round),
        is_instant(s.label(source_round, stop_id).arrival_time as int),
    ensures
        writes_only(
            s,
            after_stop(timetable, args, s, stop_id, round),
            |r: int, x: i32, label: RaptorLabel|
                is_ride_from(
                    timetable,
                    boarding_with(args, s, stop_id, round, source_round),
                    r,
                    x,
                    label,
                ),
        ),
{
    let b = boarding_with(args, s, stop_id, round, source_round);
    let p = |r: int, x: i32, label: RaptorLabel| is_ride_from(timetable, b, r, x, label);
    lemma_boards_with(args, s, stop_id, round, source_round);
    lemma_ride_days(b);
    let today = boarding_day(b);
    let (s1, taken) = after_today(timetable, s, b);
    lemma_hashes_on(timetable, s, b);
    lemma_departures_ride(
        timetable,
        s,
        Set::empty(),
        b,
        today,
        departures_on(timetable, b, today).len() as int,
    );
    if is_late(b) {
        let tomorrow = following_day(b);
        lemma_departures_ride(
            timetable,
            s1,
            taken,
            b,
            tomorrow,
            departures_on(timetable, b, tomorrow).len() as int,
        );
        lemma_writes_twice(s, s1, after_stop(timetable, args, s, stop_id, round), p);
    }
    assert(writes_only(s, after_stop(timetable, args, s, stop_id, round), p));
}

/// Where no earlier round has reached a stop, nobody boards there.
pub proof fn stops_that_were_not_reached_are_not_boarded(
    timetable: &Timetable,
    args: RoutingAlgorithmArgs,
    s: SearchState,
    stop_id: i32,
    round: usize,
)
    requires
        forall|r: int| r < round ==> !#[trigger] s.has(r, stop_id),
    ensures
        after_stop(timetable, args, s, stop_id, round) == s,
{
    lemma_previous_round(s, stop_id, round as int);
}

/// The connection is one that the timetable lists at the stop.
pub open spec fn is_listed_walk(
    timetable: &Timetable,
    stop_id: i32,
    connection: StopConnection,
) -> bool {
    timetable.stop_connections@.contains_key(stop_id)
        && timetable.stop_connections@[stop_id]@.contains(connection)
}

/// The label is that of a walk from the stop, which was reached at `time`: it takes the minutes of
/// a connection that the timetable lists, more than none, and keeps the time limit.
pub open spec fn is_walk_from(
    timetable: &Timetable,
    stop_id: i32,
    time: i64,
    time_limit: Option<i64>,
    source_round: int,
    round: int,
    end: i32,
    label: RaptorLabel,
) -> bool {
    &&& label.transfer_duration matches Some(duration)
    &&& duration > 0
    &&& is_listed_walk(timetable, stop_id, StopConnection { stop_id_2: end, duration })
    &&& label.arrival_time == time + duration * MINUTE
    &&& time_limit is None || label.arrival_time <= time_limit->0
    &&& round == source_round
    &&& label.journey_id is None
    &&& label.from_stop_id == stop_id
    &&& label.boarding_stop_id == stop_id
    &&& label.source_round == source_round
}

/// Walks from a stop write walks from it to known stops, and reach each of them.
proof fn lemma_walks_lead(
    timetable: &Timetable,
    s: SearchState,
    stop_id: i32,
    time: i64,
    round: usize,
    time_limit: Option<i64>,
    n: int,
)
    requires
        n <= timetable.connections(stop_id).len(),
        forall|k: int|
            0 <= k < timetable.connections(stop_id).len() && timetable.has_stop(
                (#[trigger] timetable.connections(stop_id)[k]).stop_id_2,
            ) ==> walk_fits(time, timetable.connections(stop_id)[k]),
    ensures
        ({
            let connections = timetable.connections(stop_id);
            let t = after_walks(
                timetable,
                s,
                stop_id,
                time,
                connections,
                round,
                time_limit,
                n,
            );
            &&& writes_only(
                s,
                t,
                |r: int, x: i32, label: RaptorLabel|
                    is_walk_from(timetable, stop_id, time, time_limit, round as int, r, x, label)
                        && timetable.stops@.contains_key(x),
            )
            &&& keeps(s, t)
            &&& forall|k: int|
                0 <= k < n && timetable.stops@.contains_key(
                    (#[trigger] connections[k]).stop_id_2,
                ) && connections[k].duration > 0 && (time_limit is None || time
                    + connections[k].duration * MINUTE <= time_limit->0) ==> reached_by(
                    t,
                    connections[k].stop_id_2,
                    time + connections[k].duration * MINUTE,
                )
        }),
    decreases n,
{
    let p = |r: int, x: i32, label: RaptorLabel|
        is_walk_from(timetable, stop_id, time, time_limit, round as int, r, x, label)
            && timetable.stops@.contains_key(x);
    let connections = timetable.connections(stop_id);
    if n > 0 {
        let c = connections[n - 1];
        let m = after_walks(timetable, s, stop_id, time, connections, round, time_limit, n - 1);
        let t = after_walks(timetable, s, stop_id, time, connections, round, time_limit, n);
        lemma_walks_lead(timetable, s, stop_id, time, round, time_limit, n - 1);
        walks_are_listed(timetable, stop_id);
        if timetable.has_stop(c.stop_id_2) {
            let label = walk_label(stop_id, time, c, round);
            assert(walk_fits(time, c));
            assert(connections.contains(c));
            assert(c == StopConnection { stop_id_2: c.stop_id_2, duration: c.duration });
            lemma_offer_writes(m, c.stop_id_2, label, round as int, time, time_limit, p);
        } else {
            lemma_writes_nothing(m, p);
        }
        lemma_writes_twice(s, m, t, p);
        lemma_keeps_twice(s, m, t);
        assert forall|k: int|
            0 <= k < n && timetable.stops@.contains_key((#[trigger] connections[k]).stop_id_2)
                && connections[k].duration > 0 && (time_limit is None || time
                + connections[k].duration * MINUTE <= time_limit->0) implies reached_by(
            t,
            connections[k].stop_id_2,
            time + connections[k].duration * MINUTE,
        ) by {
            if k < n - 1 {
                assert(reached_by(
                    m,
                    connections[k].stop_id_2,
                    time + connections[k].duration * MINUTE,
                ));
            }
        }
    } else {
        lemma_writes_nothing(s, p);
    }
}

/// From a stop with an exchange flag that the round has reached, every walk to a known stop is
/// taken that the timetable lists, takes time and keeps the time limit: afterwards the stop is
/// reached by the end of the walk, at the latest.
pub proof fn walks_lead_to_their_stops(
    timetable: &Timetable,
    args: RoutingAlgorithmArgs,
    s: SearchState,
    stop_id: i32,
    round: usize,
    connection: StopConnection,
)
    requires
        timetable.stops@.contains_key(stop_id),
        timetable.stops@[stop_id].exchange_flag != 0,
        s.has(round as int, stop_id),
        can_walk(timetable, s, stop_id, round),
        is_listed_walk(timetable, stop_id, connection),
        timetable.stops@.contains_key(connection.stop_id_2),
        connection.duration > 0,
        ({
            let end = s.label(round as int, stop_id).arrival_time + connection.duration * MINUTE;
            args.limit() is None || end <= args.limit()->0
        }),
    ensures
        ({
            let t = after_transfers(timetable, args, s, stop_id, round);
            let end = s.label(round as int, stop_id).arrival_time + connection.duration * MINUTE;
            t.best.contains_key(connection.stop_id_2) && t.best[connection.stop_id_2] <= end
        }),
{
    let connections = timetable.connections(stop_id);
    let time = s.label(round as int, stop_id).arrival_time;
    walks_are_listed(timetable, stop_id);
    lemma_walks_lead(
        timetable,
        s,
        stop_id,
        time,
        round,
        args.limit(),
        connections.len() as int,
    );
    let k = choose|k: int| 0 <= k < connections.len() && connections[k] == connection;
    assert(reached_by(
        after_transfers(timetable, args, s, stop_id, round),
        connections[k].stop_id_2,
        time + connections[k].duration * MINUTE,
    ));
}

/// Walking from a stop writes nothing but walks to known stops; from a stop that is not known, has
/// no exchange flag or was not reached in the round, nobody walks.
pub proof fn stops_write_only_walks_from_them(
    timetable: &Timetable,
    args: RoutingAlgorithmArgs,
    s: SearchState,
    stop_id: i32,
    round: usize,
)
    requires
        can_walk(timetable, s, stop_id, round),
    ensures
        writes_only(
            s,
            after_transfers(timetable, args, s, stop_id, round),
            |r: int, x: i32, label: RaptorLabel|
                is_walk_from(
                    timetable,
                    stop_id,
                    s.label(round as int, stop_id).arrival_time,
                    args.limit(),
                    round as int,
                    r,
                    x,
                    label,
                ) && timetable.stops@.contains_key(x),
        ),
        !(timetable.stops@.contains_key(stop_id) && timetable.stops@[stop_id].exchange_flag != 0
            && s.has(round as int, stop_id)) ==> after_transfers(timetable, args, s, stop_id, round)
            == s,
{
    let time = s.label(round as int, stop_id).arrival_time;
    let p = |r: int, x: i32, label: RaptorLabel|
        is_walk_from(timetable, stop_id, time, args.limit(), round as int, r, x, label)
            && timetable.stops@.contains_key(x);
    if timetable.is_exchange_point(stop_id) && s.has(round as int, stop_id) {
        lemma_walks_lead(
            timetable,
            s,
            stop_id,
            time,
            round,
            args.limit(),
            timetable.connections(stop_id).len() as int,
        );
    } else {
        lemma_writes_nothing(s, p);
    }
    assert(writes_only(s, after_transfers(timetable, args, s, stop_id, round), p));
}

/// The walks from the departure stop write walks from it in round 0, and reach each of them.
proof fn lemma_initial_walks_lead(
    timetable: &Timetable,
    s: SearchState,
    departure_stop_id: i32,
    departure_at: i64,
    n: int,
)
    requires
        can_depart(timetable, departure_stop_id, departure_at),
        n <= timetable.connections(departure_stop_id).len(),
    ensures
        ({
            let connections = timetable.connections(departure_stop_id);
            let t = after_initial_walks(s, departure_stop_id, departure_at, connections, n);
            &&& writes_only(
                s,
                t,
                |r: int, x: i32, label: RaptorLabel|
                    is_walk_from(
                        timetable,
                        departure_stop_id,
                        departure_at,
                        None,
                        0,
                        r,
                        x,
                        label,
                    ),
            )
            &&& keeps(s, t)
            &&& forall|k: int|
                0 <= k < n && (#[trigger] connections[k]).duration > 0 ==> reached_by(
                    t,
                    connections[k].stop_id_2,
                    departure_at + connections[k].duration * MINUTE,
                )
        }),
    decreases n,
{
    let p = |r: int, x: i32, label: RaptorLabel|
        is_walk_from(timetable, departure_stop_id, departure_at, None, 0, r, x, label);
    let connections = timetable.connections(departure_stop_id);
    if n > 0 {
        let c = connections[n - 1];
        let m = after_initial_walks(s, departure_stop_id, departure_at, connections, n - 1);
        let t = after_initial_walks(s, departure_stop_id, departure_at, connections, n);
        lemma_initial_walks_lead(timetable, s, departure_stop_id, departure_at, n - 1);
        walks_are_listed(timetable, departure_stop_id);
        let label = walk_label(departure_stop_id, departure_at, c, 0);
        assert(walk_fits(departure_at, c));
        assert(connections.contains(c));
        assert(c == StopConnection { stop_id_2: c.stop_id_2, duration: c.duration });
        lemma_offer_writes(m, c.stop_id_2, label, 0, departure_at, None, p);
        lemma_writes_twice(s, m, t, p);
        lemma_keeps_twice(s, m, t);
        assert forall|k: int| 0 <= k < n && (
        #[trigger] connections[k]).duration > 0 implies reached_by(
            t,
            connections[k].stop_id_2,
            departure_at + connections[k].duration * MINUTE,
        ) by {
            if k < n - 1 {
                assert(reached_by(
                    m,
                    connections[k].stop_id_2,
                    departure_at + connections[k].duration * MINUTE,
                ));
            }
        }
    } else {
        lemma_writes_nothing(s, p);
    }
}

/// Before the first round every walk from the departure stop that takes time is taken, to whatever
/// stop and however long it is, and nothing else is written.
pub proof fn walks_from_the_departure_stop_are_taken_first(
    timetable: &Timetable,
    s: SearchState,
    departure_stop_id: i32,
    departure_at: i64,
)
    requires
        can_depart(timetable, departure_stop_id, departure_at),
    ensures
        ({
            let connections = timetable.connections(departure_stop_id);
            let t = after_initial_walks(
                s,
                departure_stop_id,
                departure_at,
                connections,
                connections.len() as int,
            );
            &&& writes_only(
                s,
                t,
                |r: int, x: i32, label: RaptorLabel|
                    is_walk_from(
                        timetable,
                        departure_stop_id,
                        departure_at,
                        None,
                        0,
                        r,
                        x,
                        label,
                    ),
            )
            &&& forall|c: StopConnection| #[trigger]
                is_listed_walk(timetable, departure_stop_id, c) && c.duration > 0
                    ==> t.best.contains_key(c.stop_id_2) && t.best[c.stop_id_2] <= departure_at
                    + c.duration * MINUTE
        }),
{
    let connections = timetable.connections(departure_stop_id);
    let t = after_initial_walks(
        s,
        departure_stop_id,
        departure_at,
        connections,
        connections.len() as int,
    );
    lemma_initial_walks_lead(
        timetable,
        s,
        departure_stop_id,
        departure_at,
        connections.len() as int,
    );
    walks_are_listed(timetable, departure_stop_id);
    assert forall|c: StopConnection| #[trigger]
        is_listed_walk(timetable, departure_stop_id, c) && c.duration
            > 0 implies t.best.contains_key(c.stop_id_2) && t.best[c.stop_id_2] <= departure_at
        + c.duration * MINUTE by {
        let k = choose|k: int| 0 <= k < connections.len() && connections[k] == c;
        assert(reached_by(
            t,
            connections[k].stop_id_2,
            departure_at + connections[k].duration * MINUTE,
        ));
    }
}

} // verus!
