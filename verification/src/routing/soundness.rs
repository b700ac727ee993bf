//! What holds of every state of a search.

use crate::calendar::{after_minutes, has_room, has_room_before, is_instant};
use crate::routing::exploration::{
    after_boarding, after_calls, after_departures, after_initial_walks, after_journey, after_stop,
    after_today, after_transfers, after_walk, after_walks, boarding_at, boarding_day, calls_before,
    can_depart, departure_from, departures, departures_on, following_day, in_order, is_boarded,
    is_late, lemma_by_departure_members, lemma_in_order, may_alight, ride_label, route_hashes,
    start, walk_fits, walk_label, Boarding, Departure,
};
use crate::routing::models::RoutingAlgorithmArgs;
use crate::routing::state::{origin, origin_label, with_round, RaptorLabel, SearchState};
use crate::timetable::{
    arrival_of, departure_of, lemma_arrival_day, JourneyView, StopConnection, StopService,
    Timetable, FIRST_SERVICE_DAY, LAST_SERVICE_DAY,
};
use vstd::prelude::*;

verus! {

/// Where and when a search starts, and the instant by which it has to arrive, if there is one.
pub struct Query {
    pub departure_stop_id: i32,
    pub departure_at: i64,
    pub time_limit: Option<i64>,
}

/// A boarding at the stop that a label leaves, after that stop was reached with `source`.
pub open spec fn boarding_of(source: RaptorLabel, label: RaptorLabel) -> Boarding {
    Boarding {
        stop_id: label.from_stop_id,
        arrival_time: source.arrival_time,
        previous_journey_id: source.journey_id,
        round: 0,
        source_round: label.source_round,
        time_limit: None,
        target_stop_id: None,
    }
}

/// The journey of the label operates from the day at the stop that the label leaves, departs there
/// after `source` has arrived and with the exchange time kept, and calls later on at `stop_id`
/// at the time of the label.
pub open spec fn rides_on(
    timetable: &Timetable,
    source: RaptorLabel,
    label: RaptorLabel,
    stop_id: i32,
    day: i32,
) -> bool {
    let id = label.journey_id->0;
    let journey = timetable.journey(id)->0;
    let b = boarding_of(source, label);
    &&& timetable.journey(id) is Some
    &&& timetable.operating(day, label.from_stop_id).contains(id)
    &&& is_boarded(timetable, b, journey, day)
    &&& departure_of(journey.route, label.from_stop_id, day as int)->0 >= source.arrival_time
    &&& arrival_of(journey.route, stop_id, day as int, label.from_stop_id) == Some(
        label.arrival_time as int,
    )
    &&& exists|i: int|
        0 <= i < journey.route.len() && (#[trigger] journey.route[i]).stop_id == stop_id
            && calls_before(journey, label.from_stop_id, i)
}

/// The label is that of a ride that can be taken after the arrival with `source`.
pub open spec fn is_ride(
    timetable: &Timetable,
    source: RaptorLabel,
    label: RaptorLabel,
    stop_id: i32,
) -> bool {
    exists|day: i32| #[trigger] rides_on(timetable, source, label, stop_id, day)
}

/// The label is that of a walk for which there is time after the arrival with `source`.
pub open spec fn is_walk(
    timetable: &Timetable,
    source: RaptorLabel,
    label: RaptorLabel,
    stop_id: i32,
) -> bool {
    &&& label.transfer_duration matches Some(duration)
    &&& timetable.connections(label.from_stop_id).contains(
        StopConnection { stop_id_2: stop_id, duration },
    )
    &&& after_minutes(source.arrival_time as int, duration as int) <= label.arrival_time
}

/// The label leads on from the label `source` of the stop and round that it names.
pub open spec fn leads_on(
    timetable: &Timetable,
    source: RaptorLabel,
    label: RaptorLabel,
    round: int,
    stop_id: i32,
) -> bool {
    &&& label.boarding_stop_id == label.from_stop_id
    &&& source.arrival_time < label.arrival_time
    &&& match label.journey_id {
        Some(_) => {
            &&& label.transfer_duration is None
            &&& label.source_round < round
            &&& is_ride(timetable, source, label, stop_id)
        },
        None => {
            &&& label.source_round == round
            &&& is_walk(timetable, source, label, stop_id)
        },
    }
}

/// What holds of the label of a stop in a round.
pub open spec fn label_ok(
    timetable: &Timetable,
    q: Query,
    s: SearchState,
    round: int,
    stop_id: i32,
) -> bool {
    let label = s.label(round, stop_id);
    &&& s.best.contains_key(stop_id)
    &&& s.best[stop_id] <= label.arrival_time
    &&& q.departure_at <= label.arrival_time
    &&& is_instant(label.arrival_time as int)
    &&& label.journey_id is Some ==> has_room(label.arrival_time as int)
    &&& round >= 1 ==> has_room_before(label.arrival_time as int)
    &&& round >= 1 ==> (q.time_limit matches Some(limit) ==> label.arrival_time <= limit)
    &&& if stop_id == q.departure_stop_id {
        round == 0 && label == origin_label(q.departure_stop_id, q.departure_at)
    } else {
        &&& s.has(label.source_round as int, label.from_stop_id)
        &&& leads_on(
            timetable,
            s.label(label.source_round as int, label.from_stop_id),
            label,
            round,
            stop_id,
        )
    }
}

/// The best arrival at the stop is that of one of its labels.
pub open spec fn best_is_labelled(s: SearchState, stop_id: i32) -> bool {
    exists|round: int|
        #[trigger] s.has(round, stop_id) && s.label(round, stop_id).arrival_time
            == s.best[stop_id]
}

/// What holds of every state of a search.
pub open spec fn inv(timetable: &Timetable, q: Query, s: SearchState) -> bool {
    &&& is_instant(q.departure_at as int)
    &&& s.has(0, q.departure_stop_id)
    &&& forall|round: int, stop_id: i32|
        s.has(round, stop_id) ==> #[trigger] label_ok(timetable, q, s, round, stop_id)
    &&& forall|stop_id: i32| #[trigger]
        s.best.contains_key(stop_id) ==> best_is_labelled(s, stop_id)
    &&& forall|r1: int, r2: int, stop_id: i32| #[trigger]
        s.has(r1, stop_id) && #[trigger] s.has(r2, stop_id) && r1 < r2 ==> s.label(
            r2,
            stop_id,
        ).arrival_time < s.label(r1, stop_id).arrival_time
}

/// The state holds no label of a round after `round`.
pub open spec fn up_to(s: SearchState, round: int) -> bool {
    s.labels.len() <= round + 1
}

/// `t` may come after `s` in the round: the labels of earlier rounds are the same, no label is
/// lost or gets later, and no best arrival is lost or gets later.
pub open spec fn follows(s: SearchState, t: SearchState, round: int) -> bool {
    &&& forall|r: int, stop_id: i32|
        r < round ==> (#[trigger] t.has(r, stop_id) <==> s.has(r, stop_id)) && (s.has(
            r,
            stop_id,
        ) ==> t.label(r, stop_id) == s.label(r, stop_id))
    &&& forall|r: int, stop_id: i32| #[trigger]
        s.has(r, stop_id) ==> t.has(r, stop_id) && t.label(r, stop_id).arrival_time <= s.label(
            r,
            stop_id,
        ).arrival_time
    &&& forall|stop_id: i32| #[trigger]
        s.best.contains_key(stop_id) ==> t.best.contains_key(stop_id) && t.best[stop_id]
            <= s.best[stop_id]
}

/// What comes after a later state comes after the earlier one.
pub proof fn lemma_follows_transitive(s: SearchState, t: SearchState, u: SearchState, round: int)
    requires
        follows(s, t, round),
        follows(t, u, round),
    ensures
        follows(s, u, round),
{
    assert forall|r: int, stop_id: i32| r < round implies (#[trigger] u.has(r, stop_id)
        <==> s.has(r, stop_id)) && (s.has(r, stop_id) ==> u.label(r, stop_id) == s.label(
        r,
        stop_id,
    )) by {
        assert(t.has(r, stop_id) <==> s.has(r, stop_id));
    }
    assert forall|r: int, stop_id: i32| #[trigger] s.has(r, stop_id) implies u.has(r, stop_id)
        && u.label(r, stop_id).arrival_time <= s.label(r, stop_id).arrival_time by {
        assert(t.has(r, stop_id));
    }
    assert forall|stop_id: i32| #[trigger] s.best.contains_key(stop_id) implies u.best.contains_key(
        stop_id,
    ) && u.best[stop_id] <= s.best[stop_id] by {
        assert(t.best.contains_key(stop_id));
    }
}

/// The label may be offered at the stop in the round, with `source_arrival_time` as the arrival
/// from which it leads on.
pub open spec fn may_offer(
    timetable: &Timetable,
    q: Query,
    s: SearchState,
    stop_id: i32,
    label: RaptorLabel,
    round: int,
    source_arrival_time: i64,
    time_limit: Option<i64>,
) -> bool {
    let source = s.label(label.source_round as int, label.from_stop_id);
    &&& round >= 0
    &&& s.has(label.source_round as int, label.from_stop_id)
    &&& source.arrival_time <= source_arrival_time
    &&& label.arrival_time > source_arrival_time ==> leads_on(
        timetable,
        source,
        label,
        round,
        stop_id,
    ) && is_instant(label.arrival_time as int) && (label.journey_id is Some ==> has_room(
        label.arrival_time as int,
    )) && (round >= 1 ==> has_room_before(label.arrival_time as int))
    &&& round >= 1 ==> time_limit == q.time_limit
}

/// Offering a label keeps the invariant.
pub proof fn lemma_improve(
    timetable: &Timetable,
    q: Query,
    s: SearchState,
    stop_id: i32,
    label: RaptorLabel,
    round: int,
    source_arrival_time: i64,
    time_limit: Option<i64>,
    mark: bool,
)
    requires
        inv(timetable, q, s),
        up_to(s, round),
        may_offer(timetable, q, s, stop_id, label, round, source_arrival_time, time_limit),
    ensures
        ({
            let t = s.improve(stop_id, label, round, source_arrival_time, time_limit, mark);
            inv(timetable, q, t) && up_to(t, round) && follows(s, t, round)
        }),
{
    let t = s.improve(stop_id, label, round, source_arrival_time, time_limit, mark);
    if s.accepts(stop_id, label.arrival_time, source_arrival_time, time_limit) {
        let from = label.from_stop_id;
        let sr = label.source_round as int;
        assert(label_ok(timetable, q, s, sr, from));
        assert(from != stop_id);
        assert(label_ok(timetable, q, s, 0, q.departure_stop_id));
        assert(stop_id != q.departure_stop_id);
        let grown = with_round(s.labels, round);
        assert(grown.len() == round + 1);
        assert forall|r: int, x: i32| #[trigger] t.has(r, x) == (s.has(r, x) || (r == round && x
            == stop_id)) by {}
        assert forall|r: int, x: i32| s.has(r, x) && !(r == round && x == stop_id) implies
            #[trigger] t.label(r, x) == s.label(r, x) by {}
        assert(t.label(round, stop_id) == label);
        assert(t.has(round, stop_id));
        assert forall|r: int, x: i32| t.has(r, x) implies #[trigger] label_ok(
            timetable,
            q,
            t,
            r,
            x,
        ) by {
            if r == round && x == stop_id {
                assert(t.has(sr, from));
                assert(t.label(sr, from) == s.label(sr, from));
            } else {
                assert(s.has(r, x));
                assert(label_ok(timetable, q, s, r, x));
                let l = s.label(r, x);
                if x != q.departure_stop_id {
                    let lr = l.source_round as int;
                    assert(s.has(lr, l.from_stop_id));
                    assert(t.has(lr, l.from_stop_id));
                    if lr == round && l.from_stop_id == stop_id {
                        assert(label_ok(timetable, q, s, lr, stop_id));
                        assert(l.journey_id is None);
                    }
                }
            }
        }
        assert forall|x: i32| #[trigger] t.best.contains_key(x) implies best_is_labelled(t, x) by {
            if x == stop_id {
                assert(t.has(round, x));
            } else {
                assert(s.best.contains_key(x));
                assert(best_is_labelled(s, x));
                let r = choose|r: int| #[trigger] s.has(r, x) && s.label(r, x).arrival_time
                    == s.best[x];
                assert(t.has(r, x));
            }
        }
        assert forall|r1: int, r2: int, x: i32| #[trigger] t.has(r1, x) && #[trigger] t.has(r2, x)
            && r1 < r2 implies t.label(r2, x).arrival_time < t.label(r1, x).arrival_time by {
            assert(s.has(r1, x));
            if r2 == round && x == stop_id {
                assert(label_ok(timetable, q, s, r1, x));
            } else {
                assert(s.has(r2, x));
            }
        }
        assert forall|r: int, x: i32| #[trigger] s.has(r, x) implies t.has(r, x) && t.label(
            r,
            x,
        ).arrival_time <= s.label(r, x).arrival_time by {
            assert(label_ok(timetable, q, s, r, x));
        }
    }
}

/// A journey operates only on service days.
pub proof fn lemma_operating_day(timetable: &Timetable, day: i32, stop_id: i32, journey_id: i32)
    requires
        timetable.wf(),
        timetable.operating(day, stop_id).contains(journey_id),
    ensures
        FIRST_SERVICE_DAY <= day <= LAST_SERVICE_DAY,
{
    let keep = |s: StopService| timetable.active(day).contains(s.bit_field_id);
    let kept = timetable.services_at(stop_id).filter(keep);
    let i = choose|i: int|
        0 <= i < timetable.operating(day, stop_id).len() && timetable.operating(day, stop_id)[i]
            == journey_id;
    timetable.services_at(stop_id).lemma_filter_pred(keep, i);
    assert(keep(kept[i]));
    assert(timetable.bit_fields_by_day@.contains_key(day));
}

/// The boarding is that of the label of an earlier round.
pub open spec fn boarding_ok(q: Query, s: SearchState, b: Boarding) -> bool {
    &&& b.source_round < b.round
    &&& s.has(b.source_round as int, b.stop_id)
    &&& s.label(b.source_round as int, b.stop_id).arrival_time == b.arrival_time
    &&& s.label(b.source_round as int, b.stop_id).journey_id == b.previous_journey_id
    &&& b.time_limit == q.time_limit
}

/// Looking at the calls of a journey that was boarded keeps the invariant.
pub proof fn lemma_calls(
    timetable: &Timetable,
    q: Query,
    s: SearchState,
    b: Boarding,
    journey: JourneyView,
    day: i32,
    n: int,
)
    requires
        timetable.wf(),
        inv(timetable, q, s),
        up_to(s, b.round as int),
        boarding_ok(q, s, b),
        timetable.journey(journey.id) == Some(journey),
        timetable.operating(day, b.stop_id).contains(journey.id),
        is_boarded(timetable, b, journey, day),
        departure_of(journey.route, b.stop_id, day as int)->0 >= b.arrival_time,
        n <= journey.route.len(),
    ensures
        ({
            let t = after_calls(timetable, s, b, journey, day, n);
            inv(timetable, q, t) && up_to(t, b.round as int) && follows(s, t, b.round as int)
        }),
    decreases n,
{
    if n > 0 {
        lemma_calls(timetable, q, s, b, journey, day, n - 1);
        let before = after_calls(timetable, s, b, journey, day, n - 1);
        let t = after_calls(timetable, s, b, journey, day, n);
        let stop_id = journey.route[n - 1].stop_id;
        let arrival = arrival_of(journey.route, stop_id, day as int, b.stop_id);
        if arrival is Some && may_alight(timetable, b, journey, n - 1) {
            let label = ride_label(b, journey.id, arrival->0 as i64);
            let source = before.label(b.source_round as int, b.stop_id);
            assert(before.has(b.source_round as int, b.stop_id));
            assert(label_ok(timetable, q, before, b.source_round as int, b.stop_id));
            lemma_operating_day(timetable, day, b.stop_id, journey.id);
            assert(timetable.journeys@.contains_key(journey.id));
            lemma_arrival_day(journey, stop_id, day as int, b.stop_id);
            if label.arrival_time > b.arrival_time {
                assert(rides_on(timetable, source, label, stop_id, day));
            }
            lemma_improve(
                timetable,
                q,
                before,
                stop_id,
                label,
                b.round as int,
                b.arrival_time,
                b.time_limit,
                true,
            );
            lemma_follows_transitive(s, before, t, b.round as int);
        }
    }
}

/// A boarding holds in every state that follows in the round.
proof fn lemma_boarding_ok(q: Query, s: SearchState, t: SearchState, b: Boarding)
    requires
        boarding_ok(q, s, b),
        follows(s, t, b.round as int),
    ensures
        boarding_ok(q, t, b),
{
    assert(t.has(b.source_round as int, b.stop_id));
}

/// Boarding the departures of a day keeps the invariant.
pub proof fn lemma_departures_sound(
    timetable: &Timetable,
    q: Query,
    s: SearchState,
    taken: Set<u64>,
    b: Boarding,
    day: i32,
    hashes: Seq<Option<u64>>,
    n: int,
)
    requires
        timetable.wf(),
        inv(timetable, q, s),
        up_to(s, b.round as int),
        boarding_ok(q, s, b),
        n <= departures_on(timetable, b, day).len(),
    ensures
        ({
            let list = departures_on(timetable, b, day);
            let t = after_departures(timetable, s, taken, b, day, list, hashes, n).0;
            inv(timetable, q, t) && up_to(t, b.round as int) && follows(s, t, b.round as int)
        }),
    decreases n,
{
    if n > 0 {
        lemma_departures_sound(timetable, q, s, taken, b, day, hashes, n - 1);
        let list = departures_on(timetable, b, day);
        let before = after_departures(timetable, s, taken, b, day, list, hashes, n - 1).0;
        let t = after_departures(timetable, s, taken, b, day, list, hashes, n).0;
        let d = list[n - 1];
        let ids = timetable.operating(day, b.stop_id);
        lemma_in_order(timetable, b, day, ids);
        lemma_listed(timetable, b, day, ids, n - 1);
        assert(departure_from(timetable, b, day, d.journey_id) == Some(d));
        let journey = timetable.journey(d.journey_id)->0;
        assert(timetable.journeys@.contains_key(d.journey_id));
        lemma_boarding_ok(q, s, before, b);
        if is_boarded(timetable, b, journey, day) {
            lemma_calls(
                timetable,
                q,
                before,
                b,
                journey,
                day,
                journey.route.len() as int,
            );
            let after = after_journey(timetable, before, b, journey, day);
            lemma_follows_transitive(s, before, after, b.round as int);
        }
    }
}

/// Boarding at a stop keeps the invariant.
pub proof fn lemma_boards(
    timetable: &Timetable,
    q: Query,
    args: RoutingAlgorithmArgs,
    s: SearchState,
    stop_id: i32,
    round: usize,
)
    requires
        timetable.wf(),
        inv(timetable, q, s),
        up_to(s, round as int),
        args.limit() == q.time_limit,
    ensures
        ({
            let t = after_stop(timetable, args, s, stop_id, round);
            inv(timetable, q, t) && up_to(t, round as int) && follows(s, t, round as int)
        }),
{
    if let Some(b) = boarding_at(args, s, stop_id, round) {
        lemma_previous_round(s, stop_id, round as int);
        let day = boarding_day(b);
        let next_day = following_day(b);
        let today = departures_on(timetable, b, day);
        let tomorrow = departures_on(timetable, b, next_day);
        let (s1, taken) = after_today(timetable, s, b);
        lemma_departures_sound(
            timetable,
            q,
            s,
            Set::empty(),
            b,
            day,
            route_hashes(timetable, today, b.stop_id),
            today.len() as int,
        );
        if is_late(b) {
            lemma_boarding_ok(q, s, s1, b);
            lemma_departures_sound(
                timetable,
                q,
                s1,
                taken,
                b,
                next_day,
                route_hashes(timetable, tomorrow, b.stop_id),
                tomorrow.len() as int,
            );
            lemma_follows_transitive(s, s1, after_boarding(timetable, s, b), round as int);
        }
    }
}

/// The previous round of a stop is an earlier round in which it was reached, and the latest.
pub proof fn lemma_previous_round(s: SearchState, stop_id: i32, current_round: int)
    ensures
        match s.previous_round(stop_id, current_round) {
            Some(r) => {
                &&& 0 <= r < current_round
                &&& s.has(r, stop_id)
                &&& forall|k: int| r < k < current_round ==> !#[trigger] s.has(k, stop_id)
            },
            None => forall|k: int| k < current_round ==> !#[trigger] s.has(k, stop_id),
        },
    decreases current_round,
{
    if current_round > 0 && !s.has(current_round - 1, stop_id) {
        lemma_previous_round(s, stop_id, current_round - 1);
    }
}

/// Every departure in the sorted list is that of one of the journeys.
pub proof fn lemma_listed(timetable: &Timetable, b: Boarding, day: i32, ids: Seq<i32>, i: int)
    requires
        0 <= i < in_order(timetable, b, day, ids).len(),
    ensures
        ids.contains(in_order(timetable, b, day, ids)[i].journey_id),
{
    let all = departures(timetable, b, day, ids, ids.len() as int);
    lemma_by_departure_members(all);
    let d = in_order(timetable, b, day, ids)[i];
    assert(all.contains(d));
    lemma_departure_ids(timetable, b, day, ids, ids.len() as int, d);
}

/// Every departure is that of one of the journeys.
proof fn lemma_departure_ids(
    timetable: &Timetable,
    b: Boarding,
    day: i32,
    ids: Seq<i32>,
    n: int,
    d: Departure,
)
    requires
        n <= ids.len(),
        departures(timetable, b, day, ids, n).contains(d),
    ensures
        ids.contains(d.journey_id),
    decreases n,
{
    if n > 0 {
        let before = departures(timetable, b, day, ids, n - 1);
        let s = departures(timetable, b, day, ids, n);
        let k = choose|k: int| 0 <= k < s.len() && s[k] == d;
        if k < before.len() {
            assert(before[k] == d);
            lemma_departure_ids(timetable, b, day, ids, n - 1, d);
        } else {
            assert(ids[n - 1] == d.journey_id);
        }
    }
}

/// Offering a walk keeps the invariant.
proof fn lemma_walk(
    timetable: &Timetable,
    q: Query,
    s: SearchState,
    stop_id: i32,
    arrival_time: i64,
    connection: StopConnection,
    round: usize,
    time_limit: Option<i64>,
)
    requires
        inv(timetable, q, s),
        up_to(s, round as int),
        s.has(round as int, stop_id),
        s.label(round as int, stop_id).arrival_time <= arrival_time,
        walk_fits(arrival_time, connection),
        round >= 1 ==> time_limit == q.time_limit,
        timetable.connections(stop_id).contains(connection),
    ensures
        ({
            let t = after_walk(s, stop_id, arrival_time, connection, round, time_limit);
            inv(timetable, q, t) && up_to(t, round as int) && follows(s, t, round as int)
        }),
{
    let label = walk_label(stop_id, arrival_time, connection, round);
    assert(label_ok(timetable, q, s, round as int, stop_id));
    assert(connection == StopConnection {
        stop_id_2: connection.stop_id_2,
        duration: connection.duration,
    });
    lemma_improve(
        timetable,
        q,
        s,
        connection.stop_id_2,
        label,
        round as int,
        arrival_time,
        time_limit,
        true,
    );
}

/// Walking from a stop keeps the invariant.
pub proof fn lemma_walks(
    timetable: &Timetable,
    q: Query,
    s: SearchState,
    stop_id: i32,
    arrival_time: i64,
    round: usize,
    time_limit: Option<i64>,
    n: int,
)
    requires
        inv(timetable, q, s),
        up_to(s, round as int),
        s.has(round as int, stop_id),
        s.label(round as int, stop_id).arrival_time <= arrival_time,
        has_room(arrival_time as int),
        round >= 1 ==> time_limit == q.time_limit,
        n <= timetable.connections(stop_id).len(),
    ensures
        ({
            let t = after_walks(
                timetable,
                s,
                stop_id,
                arrival_time,
                timetable.connections(stop_id),
                round,
                time_limit,
                n,
            );
            inv(timetable, q, t) && up_to(t, round as int) && follows(s, t, round as int)
        }),
    decreases n,
{
    if n > 0 {
        let connections = timetable.connections(stop_id);
        lemma_walks(timetable, q, s, stop_id, arrival_time, round, time_limit, n - 1);
        let before = after_walks(
            timetable,
            s,
            stop_id,
            arrival_time,
            connections,
            round,
            time_limit,
            n - 1,
        );
        let connection = connections[n - 1];
        assert(connections.contains(connection));
        if timetable.has_stop(connection.stop_id_2) {
            assert(before.has(round as int, stop_id));
            lemma_walk(
                timetable,
                q,
                before,
                stop_id,
                arrival_time,
                connection,
                round,
                time_limit,
            );
            let t = after_walk(before, stop_id, arrival_time, connection, round, time_limit);
            lemma_follows_transitive(s, before, t, round as int);
        }
    }
}

/// Walking from a stop that was reached in the round keeps the invariant.
pub proof fn lemma_transfers(
    timetable: &Timetable,
    q: Query,
    args: RoutingAlgorithmArgs,
    s: SearchState,
    stop_id: i32,
    round: usize,
)
    requires
        inv(timetable, q, s),
        up_to(s, round as int),
        args.limit() == q.time_limit,
        s.has(round as int, stop_id) ==> has_room(
            s.label(round as int, stop_id).arrival_time as int,
        ),
    ensures
        ({
            let t = after_transfers(timetable, args, s, stop_id, round);
            inv(timetable, q, t) && up_to(t, round as int) && follows(s, t, round as int)
        }),
{
    if s.has(round as int, stop_id) {
        lemma_walks(
            timetable,
            q,
            s,
            stop_id,
            s.label(round as int, stop_id).arrival_time,
            round,
            args.limit(),
            timetable.connections(stop_id).len() as int,
        );
    }
}

/// The state in which only the departure stop is known meets the invariant.
pub proof fn lemma_origin(timetable: &Timetable, q: Query)
    requires
        is_instant(q.departure_at as int),
    ensures
        inv(timetable, q, origin(q.departure_stop_id, q.departure_at)),
        up_to(origin(q.departure_stop_id, q.departure_at), 0),
{
    let s = origin(q.departure_stop_id, q.departure_at);
    assert(s.has(0, q.departure_stop_id));
    assert(best_is_labelled(s, q.departure_stop_id));
}

/// The walks from the departure stop keep the invariant.
pub proof fn lemma_initial_walks(timetable: &Timetable, q: Query, n: int)
    requires
        can_depart(timetable, q.departure_stop_id, q.departure_at),
        n <= timetable.connections(q.departure_stop_id).len(),
    ensures
        ({
            let s = after_initial_walks(
                origin(q.departure_stop_id, q.departure_at),
                q.departure_stop_id,
                q.departure_at,
                timetable.connections(q.departure_stop_id),
                n,
            );
            inv(timetable, q, s) && up_to(s, 0)
        }),
    decreases n,
{
    lemma_origin(timetable, q);
    if n > 0 {
        let connections = timetable.connections(q.departure_stop_id);
        lemma_initial_walks(timetable, q, n - 1);
        let before = after_initial_walks(
            origin(q.departure_stop_id, q.departure_at),
            q.departure_stop_id,
            q.departure_at,
            connections,
            n - 1,
        );
        assert(connections.contains(connections[n - 1]));
        assert(label_ok(timetable, q, before, 0, q.departure_stop_id));
        lemma_walk(
            timetable,
            q,
            before,
            q.departure_stop_id,
            q.departure_at,
            connections[n - 1],
            0,
            None,
        );
    }
}

/// The state with which the rounds start meets the invariant.
pub proof fn lemma_start(timetable: &Timetable, q: Query)
    requires
        can_depart(timetable, q.departure_stop_id, q.departure_at),
    ensures
        inv(timetable, q, start(timetable, q.departure_stop_id, q.departure_at)),
        up_to(start(timetable, q.departure_stop_id, q.departure_at), 0),
{
    lemma_initial_walks(
        timetable,
        q,
        timetable.connections(q.departure_stop_id).len() as int,
    );
}

} // verus!
