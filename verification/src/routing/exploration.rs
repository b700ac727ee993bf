//! The steps of a round: boarding journeys at a stop, and walking from it.

use crate::calendar::{
    add_minutes_to_date_time, after_minutes, date, day_after, day_of, hour, hour_of, in_calendar,
    is_instant, succ_opt,
};
use crate::fx::{map_get, set_contains, set_insert};
use crate::routing::models::{RoutingAlgorithmArgs, RoutingAlgorithmMode};
use crate::routing::state::{origin, RaptorLabel, RaptorState, SearchState};
use crate::timetable::{
    arrival_of, departure_of, hash_of, last_stop, JourneyView, StopConnection, Timetable,
    TransitJourney,
};
use rustc_hash::FxHashSet;
use vstd::prelude::*;

verus! {

/// A stop from which a round boards: how it was reached, and what the search asks of a ride.
#[derive(Clone, Copy, Debug)]
pub struct Boarding {
    pub stop_id: i32,
    /// The arrival at the stop.
    pub arrival_time: i64,
    /// The journey that reached the stop, if it was one.
    pub previous_journey_id: Option<i32>,
    pub round: usize,
    /// The round in which the stop was reached.
    pub source_round: usize,
    pub time_limit: Option<i64>,
    /// The stop that the search is for, if it is for one.
    pub target_stop_id: Option<i32>,
}

impl Boarding {
    /// The arrival lies in the calendar.
    pub open spec fn wf(self) -> bool {
        &&& self.round < usize::MAX
        &&& is_instant(self.arrival_time as int)
    }
}

/// A passenger at the stop reaches the departure of the journey. After a ride on a known journey
/// the exchange time must fit in, unless the passenger may stay on board.
pub open spec fn can_board(
    timetable: &Timetable,
    b: Boarding,
    journey: JourneyView,
    day: i32,
    departure: int,
) -> bool {
    let previous = match b.previous_journey_id {
        Some(id) => timetable.journey(id),
        None => None,
    };
    match previous {
        Some(left) => if timetable.is_through(day, left, journey, b.stop_id) {
            departure >= b.arrival_time
        } else {
            let minutes = timetable.exchange_minutes(
                b.stop_id,
                left,
                journey,
                day_of(departure) as i32,
            );
            departure >= after_minutes(b.arrival_time as int, minutes as int)
        },
        None => departure >= b.arrival_time,
    }
}

/// Where the journey leaves the stop and an exchange time is asked for, the exchange ends in the
/// calendar.
pub open spec fn exchange_fits(
    timetable: &Timetable,
    b: Boarding,
    journey: JourneyView,
    day: i32,
) -> bool {
    match (b.previous_journey_id, departure_of(journey.route, b.stop_id, day as int)) {
        (Some(id), Some(t)) => {
            let left = timetable.journey(id);
            left is Some && last_stop(journey.route, b.stop_id, true) == Some(false)
                && !timetable.is_through(day, left->0, journey, b.stop_id) ==> is_instant(
                after_minutes(
                    b.arrival_time as int,
                    timetable.exchange_minutes(
                        b.stop_id,
                        left->0,
                        journey,
                        day_of(t) as i32,
                    ) as int,
                ),
            )
        },
        _ => true,
    }
}

/// The journey calls at the stop at which it was boarded before position `i`.
pub open spec fn calls_before(journey: JourneyView, stop_id: i32, i: int) -> bool {
    exists|k: int| 0 <= k < i && (#[trigger] journey.route[k]).stop_id == stop_id
}

/// The call at position `i` is one at which the ride may end: it comes after the boarding, at
/// another stop, which is known and is an exchange point, the last stop, or the target.
pub open spec fn may_alight(
    timetable: &Timetable,
    b: Boarding,
    journey: JourneyView,
    i: int,
) -> bool {
    let stop_id = journey.route[i].stop_id;
    &&& calls_before(journey, b.stop_id, i)
    &&& stop_id != b.stop_id
    &&& timetable.has_stop(stop_id)
    &&& {
        ||| timetable.is_exchange_point(stop_id)
        ||| last_stop(journey.route, stop_id, false) == Some(true)
        ||| b.target_stop_id == Some(stop_id)
    }
}

/// The label of a ride from the boarding stop.
pub open spec fn ride_label(b: Boarding, journey_id: i32, arrival_time: i64) -> RaptorLabel {
    RaptorLabel {
        arrival_time,
        journey_id: Some(journey_id),
        from_stop_id: b.stop_id,
        boarding_stop_id: b.stop_id,
        transfer_duration: None,
        source_round: b.source_round,
    }
}

/// The state after the call at position `i` was looked at.
pub open spec fn after_call(
    timetable: &Timetable,
    s: SearchState,
    b: Boarding,
    journey: JourneyView,
    day: i32,
    i: int,
) -> SearchState {
    let stop_id = journey.route[i].stop_id;
    match arrival_of(journey.route, stop_id, day as int, b.stop_id) {
        Some(t) => if may_alight(timetable, b, journey, i) {
            s.improve(
                stop_id,
                ride_label(b, journey.id, t as i64),
                b.round as int,
                b.arrival_time,
                b.time_limit,
                true,
            )
        } else {
            s
        },
        None => s,
    }
}

/// The state after the first `n` calls of the journey were looked at.
pub open spec fn after_calls(
    timetable: &Timetable,
    s: SearchState,
    b: Boarding,
    journey: JourneyView,
    day: i32,
    n: int,
) -> SearchState
    decreases n,
{
    if n <= 0 {
        s
    } else {
        after_call(
            timetable,
            after_calls(timetable, s, b, journey, day, n - 1),
            b,
            journey,
            day,
            n - 1,
        )
    }
}

/// The journey that starts on the day can be boarded at the stop, and is reached in time.
pub open spec fn is_boarded(
    timetable: &Timetable,
    b: Boarding,
    journey: JourneyView,
    day: i32,
) -> bool {
    &&& last_stop(journey.route, b.stop_id, true) == Some(false)
    &&& departure_of(journey.route, b.stop_id, day as int) matches Some(t)
    &&& can_board(timetable, b, journey, day, t)
}

/// The state after the journey was considered for boarding.
pub open spec fn after_journey(
    timetable: &Timetable,
    s: SearchState,
    b: Boarding,
    journey: JourneyView,
    day: i32,
) -> SearchState {
    if is_boarded(timetable, b, journey, day) {
        after_calls(timetable, s, b, journey, day, journey.route.len() as int)
    } else {
        s
    }
}

/// Whether passengers of the first journey may stay on board at the stop and travel on as the
/// second on the day.
pub fn has_through_service_for_journeys(
    timetable: &Timetable,
    day: i32,
    journey_1: &TransitJourney,
    journey_2: &TransitJourney,
    stop_id: i32,
) -> (r: bool)
    ensures
        r == timetable.is_through(day, journey_1@, journey_2@, stop_id),
{
    timetable.has_through_service(day, journey_1, journey_2, stop_id)
}

/// Boards a journey at the stop, if it can be reached, and offers an arrival at every later stop
/// at which the ride may end.
pub fn process_journey(
    timetable: &Timetable,
    state: &mut RaptorState,
    journey: &TransitJourney,
    boarding: &Boarding,
    day: i32,
)
    requires
        boarding.wf(),
        in_calendar(day as int),
        exchange_fits(timetable, *boarding, journey@, day),
    ensures
        final(state)@ == after_journey(timetable, old(state)@, *boarding, journey@, day),
{
    let boarding_stop_id = boarding.stop_id;
    match journey.is_last_stop(boarding_stop_id, true) {
        Some(false) => {},
        _ => {
            return;
        },
    }
    let departure_time = match journey.departure_at_of(boarding_stop_id, day) {
        Some(t) => t,
        None => {
            return;
        },
    };
    let previous = match boarding.previous_journey_id {
        Some(id) => map_get(&timetable.journeys, &id),
        None => None,
    };
    let can_board = match previous {
        Some(left) => {
            if has_through_service_for_journeys(timetable, day, left, journey, boarding_stop_id) {
                departure_time >= boarding.arrival_time
            } else {
                let exchange = timetable.get_exchange_time(
                    boarding_stop_id,
                    left,
                    journey,
                    departure_time,
                );
                let required_arrival = add_minutes_to_date_time(boarding.arrival_time, exchange);
                departure_time >= required_arrival
            }
        },
        None => departure_time >= boarding.arrival_time,
    };
    if !can_board {
        return;
    }
    let route = journey.route();
    let mut found_boarding = false;
    let mut i: usize = 0;
    while i < route.len()
        invariant
            i <= route@.len(),
            route@ == journey@.route,
            boarding.wf(),
            in_calendar(day as int),
            boarding_stop_id == boarding.stop_id,
            found_boarding == calls_before(journey@, boarding_stop_id, i as int),
            state@ == after_calls(
                timetable,
                old(state)@,
                *boarding,
                journey@,
                day,
                i as int,
            ),
        decreases route@.len() - i,
    {
        let stop_id = route[i].stop_id;
        if stop_id == boarding_stop_id {
            assert(journey@.route[i as int].stop_id == boarding_stop_id);
            found_boarding = true;
        } else if found_boarding {
            if let Some(stop) = map_get(&timetable.stops, &stop_id) {
                let is_last_stop = match journey.is_last_stop(stop_id, false) {
                    Some(last) => last,
                    None => false,
                };
                let is_target = match boarding.target_stop_id {
                    Some(target) => target == stop_id,
                    None => false,
                };
                if stop.can_be_used_as_exchange_point() || is_last_stop || is_target {
                    if let Some(arrival_time) = journey.arrival_at_of_with_origin(
                        stop_id,
                        day,
                        boarding_stop_id,
                    ) {
                        state.try_improve(
                            stop_id,
                            RaptorLabel {
                                arrival_time,
                                journey_id: Some(journey.id()),
                                from_stop_id: boarding_stop_id,
                                boarding_stop_id,
                                transfer_duration: None,
                                source_round: boarding.source_round,
                            },
                            boarding.round,
                            boarding.arrival_time,
                            boarding.time_limit,
                            true,
                        );
                    }
                }
            }
        }
        i += 1;
    }
}

/// A journey that leaves the boarding stop, and when.
#[derive(Clone, Copy, Debug, PartialEq, Eq, Structural)]
pub struct Departure {
    pub journey_id: i32,
    pub departure_time: i64,
}

/// The departure of a journey of the timetable from the boarding stop, if the journey that starts
/// on the day goes on from there, no earlier than the arrival.
pub open spec fn departure_from(
    timetable: &Timetable,
    b: Boarding,
    day: i32,
    journey_id: i32,
) -> Option<Departure> {
    match timetable.journey(journey_id) {
        Some(journey) => match departure_of(journey.route, b.stop_id, day as int) {
            Some(t) => if last_stop(journey.route, b.stop_id, true) == Some(false) && t
                >= b.arrival_time {
                Some(Departure { journey_id, departure_time: t as i64 })
            } else {
                None
            },
            None => None,
        },
        None => None,
    }
}

/// The departures of the first `n` journeys, in the order of the journeys.
pub open spec fn departures(
    timetable: &Timetable,
    b: Boarding,
    day: i32,
    journey_ids: Seq<i32>,
    n: int,
) -> Seq<Departure>
    decreases n,
{
    if n <= 0 {
        Seq::empty()
    } else {
        let before = departures(timetable, b, day, journey_ids, n - 1);
        match departure_from(timetable, b, day, journey_ids[n - 1]) {
            Some(d) => before.push(d),
            None => before,
        }
    }
}

/// The position behind the last of the first `n` departures that is not after `t`.
pub open spec fn slot(s: Seq<Departure>, t: i64, n: int) -> int
    decreases n,
{
    if n <= 0 {
        0
    } else if s[n - 1].departure_time <= t {
        n
    } else {
        slot(s, t, n - 1)
    }
}

/// The departures in the order of their times. Those at the same time stay in the order in which
/// they were.
pub open spec fn by_departure(s: Seq<Departure>) -> Seq<Departure>
    decreases s.len(),
{
    if s.len() == 0 {
        s
    } else {
        let before = by_departure(s.drop_last());
        before.insert(slot(before, s.last().departure_time, before.len() as int), s.last())
    }
}

/// The departures of the journeys from the boarding stop, by time.
pub open spec fn in_order(
    timetable: &Timetable,
    b: Boarding,
    day: i32,
    journey_ids: Seq<i32>,
) -> Seq<Departure> {
    by_departure(departures(timetable, b, day, journey_ids, journey_ids.len() as int))
}

/// The departures from the boarding stop of the journeys that operate on the day, by time.
pub open spec fn departures_on(timetable: &Timetable, b: Boarding, day: i32) -> Seq<Departure> {
    in_order(timetable, b, day, timetable.operating(day, b.stop_id))
}

/// The position lies in the sequence.
pub proof fn lemma_slot(s: Seq<Departure>, t: i64, n: int)
    requires
        n <= s.len(),
    ensures
        0 <= slot(s, t, n),
        n >= 0 ==> slot(s, t, n) <= n,
    decreases n,
{
    if n > 0 && s[n - 1].departure_time > t {
        lemma_slot(s, t, n - 1);
    }
}

/// Sorting keeps the number of departures, and every departure in the result is one of them.
pub proof fn lemma_by_departure_members(s: Seq<Departure>)
    ensures
        by_departure(s).len() == s.len(),
        forall|i: int|
            0 <= i < s.len() ==> s.contains(#[trigger] by_departure(s)[i]),
    decreases s.len(),
{
    if s.len() > 0 {
        let before = by_departure(s.drop_last());
        let p = slot(before, s.last().departure_time, before.len() as int);
        lemma_by_departure_members(s.drop_last());
        lemma_slot(before, s.last().departure_time, before.len() as int);
        assert forall|i: int| 0 <= i < s.len() implies s.contains(
            #[trigger] by_departure(s)[i],
        ) by {
            if i < p {
                assert(s.drop_last().contains(before[i]));
                let k = choose|k: int| 0 <= k < s.len() - 1 && s.drop_last()[k] == before[i];
                assert(s[k] == before[i]);
            } else if i == p {
                assert(s[s.len() - 1] == s.last());
            } else {
                assert(s.drop_last().contains(before[i - 1]));
                let k = choose|k: int| 0 <= k < s.len() - 1 && s.drop_last()[k] == before[i - 1];
                assert(s[k] == before[i - 1]);
            }
        }
    }
}

/// Every departure in the list is that of a journey in the timetable.
pub proof fn lemma_departures(
    timetable: &Timetable,
    b: Boarding,
    day: i32,
    journey_ids: Seq<i32>,
    n: int,
)
    ensures
        forall|d: Departure|
            departures(timetable, b, day, journey_ids, n).contains(d) ==> #[trigger] departure_from(
                timetable,
                b,
                day,
                d.journey_id,
            ) == Some(d),
    decreases n,
{
    if n > 0 {
        lemma_departures(timetable, b, day, journey_ids, n - 1);
        let before = departures(timetable, b, day, journey_ids, n - 1);
        let s = departures(timetable, b, day, journey_ids, n);
        assert forall|d: Departure| s.contains(d) implies #[trigger] departure_from(
            timetable,
            b,
            day,
            d.journey_id,
        ) == Some(d) by {
            let k = choose|k: int| 0 <= k < s.len() && s[k] == d;
            if k < before.len() {
                assert(before[k] == d);
                assert(before.contains(d));
            }
        }
    }
}

/// Every departure in the sorted list is that of a journey in the timetable.
pub proof fn lemma_in_order(timetable: &Timetable, b: Boarding, day: i32, journey_ids: Seq<i32>)
    ensures
        forall|i: int|
            0 <= i < in_order(timetable, b, day, journey_ids).len() ==> departure_from(
                timetable,
                b,
                day,
                (#[trigger] in_order(timetable, b, day, journey_ids)[i]).journey_id,
            ) == Some(in_order(timetable, b, day, journey_ids)[i]),
{
    let all = departures(timetable, b, day, journey_ids, journey_ids.len() as int);
    lemma_by_departure_members(all);
    lemma_departures(timetable, b, day, journey_ids, journey_ids.len() as int);
}

/// The hashes of the routes that the journeys of the departures take from the stop on.
pub open spec fn route_hashes(
    timetable: &Timetable,
    list: Seq<Departure>,
    stop_id: i32,
) -> Seq<Option<u64>> {
    Seq::new(
        list.len(),
        |i: int| hash_of(timetable.journey(list[i].journey_id)->0.route, stop_id),
    )
}

/// The route of the departure at position `k` has no hash, or one that is not in `taken` and that
/// no earlier departure has.
pub open spec fn is_new_route(taken: Set<u64>, hashes: Seq<Option<u64>>, k: int) -> bool {
    hashes[k] matches Some(hash) ==> {
        &&& !taken.contains(hash)
        &&& forall|j: int| 0 <= j < k ==> #[trigger] hashes[j] != Some(hash)
    }
}

/// The state after the first `n` departures, and the hashes of the routes that were taken by
/// then. A journey whose route has a hash that was taken before is passed over.
pub open spec fn after_departures(
    timetable: &Timetable,
    s: SearchState,
    taken: Set<u64>,
    b: Boarding,
    day: i32,
    list: Seq<Departure>,
    hashes: Seq<Option<u64>>,
    n: int,
) -> (SearchState, Set<u64>)
    decreases n,
{
    if n <= 0 {
        (s, taken)
    } else {
        let (s1, taken1) = after_departures(timetable, s, taken, b, day, list, hashes, n - 1);
        let journey = timetable.journey(list[n - 1].journey_id)->0;
        match hashes[n - 1] {
            Some(hash) => if taken1.contains(hash) {
                (s1, taken1)
            } else {
                (after_journey(timetable, s1, b, journey, day), taken1.insert(hash))
            },
            None => (after_journey(timetable, s1, b, journey, day), taken1),
        }
    }
}

/// The hashes that were taken after the first `n` departures are those that were taken before and
/// those of these departures.
pub proof fn lemma_taken(
    timetable: &Timetable,
    s: SearchState,
    taken: Set<u64>,
    b: Boarding,
    day: i32,
    list: Seq<Departure>,
    hashes: Seq<Option<u64>>,
    n: int,
)
    ensures
        forall|hash: u64| #[trigger]
            after_departures(timetable, s, taken, b, day, list, hashes, n).1.contains(hash) <==> {
                ||| taken.contains(hash)
                ||| exists|j: int| 0 <= j < n && #[trigger] hashes[j] == Some(hash)
            },
    decreases n,
{
    if n > 0 {
        lemma_taken(timetable, s, taken, b, day, list, hashes, n - 1);
        let before = after_departures(timetable, s, taken, b, day, list, hashes, n - 1).1;
        let now = after_departures(timetable, s, taken, b, day, list, hashes, n).1;
        assert forall|hash: u64| #[trigger] now.contains(hash) <==> {
            ||| taken.contains(hash)
            ||| exists|j: int| 0 <= j < n && #[trigger] hashes[j] == Some(hash)
        } by {
            assert(before.contains(hash) <==> {
                ||| taken.contains(hash)
                ||| exists|j: int| 0 <= j < n - 1 && #[trigger] hashes[j] == Some(hash)
            });
            if hashes[n - 1] == Some(hash) {
                assert(now.contains(hash));
            }
        }
    }
}

/// The departures of the journeys from the boarding stop, by time.
pub fn sorted_departures(
    timetable: &Timetable,
    journey_ids: &Vec<i32>,
    boarding: &Boarding,
    day: i32,
) -> (r: Vec<Departure>)
    requires
        in_calendar(day as int),
    ensures
        r@ == in_order(timetable, *boarding, day, journey_ids@),
{
    let mut sorted: Vec<Departure> = Vec::new();
    let mut i: usize = 0;
    while i < journey_ids.len()
        invariant
            i <= journey_ids@.len(),
            in_calendar(day as int),
            sorted@ == by_departure(
                departures(timetable, *boarding, day, journey_ids@, i as int),
            ),
        decreases journey_ids@.len() - i,
    {
        let journey_id = journey_ids[i];
        let ghost before = departures(timetable, *boarding, day, journey_ids@, i as int);
        let mut departure: Option<Departure> = None;
        if let Some(journey) = map_get(&timetable.journeys, &journey_id) {
            if let Some(false) = journey.is_last_stop(boarding.stop_id, true) {
                if let Some(departure_time) = journey.departure_at_of(boarding.stop_id, day) {
                    if departure_time >= boarding.arrival_time {
                        departure = Some(Departure { journey_id, departure_time });
                    }
                }
            }
        }
        assert(departure == departure_from(timetable, *boarding, day, journey_id));
        if let Some(d) = departure {
            let mut p: usize = sorted.len();
            while p > 0 && sorted[p - 1].departure_time > d.departure_time
                invariant
                    p <= sorted@.len(),
                    slot(sorted@, d.departure_time, sorted@.len() as int) == slot(
                        sorted@,
                        d.departure_time,
                        p as int,
                    ),
                decreases p,
            {
                p -= 1;
            }
            assert(before.push(d).drop_last() =~= before);
            sorted.insert(p, d);
        }
        i += 1;
    }
    sorted
}

/// Boards the journeys of the departures in turn, given the hashes of their routes. A journey
/// whose route was taken before is passed over.
pub fn process_departures(
    timetable: &Timetable,
    state: &mut RaptorState,
    list: &Vec<Departure>,
    hashes: &Vec<Option<u64>>,
    boarding: &Boarding,
    day: i32,
    processed_routes: &mut FxHashSet<u64>,
)
    requires
        boarding.wf(),
        in_calendar(day as int),
        hashes@.len() == list@.len(),
        forall|i: int|
            0 <= i < list@.len() ==> timetable.journey((#[trigger] list@[i]).journey_id) is Some,
        forall|i: int|
            0 <= i < list@.len() && is_new_route(old(processed_routes)@, hashes@, i)
                ==> exchange_fits(
                timetable,
                *boarding,
                timetable.journey((#[trigger] list@[i]).journey_id)->0,
                day,
            ),
    ensures
        (final(state)@, final(processed_routes)@) == after_departures(
            timetable,
            old(state)@,
            old(processed_routes)@,
            *boarding,
            day,
            list@,
            hashes@,
            list@.len() as int,
        ),
{
    let mut i: usize = 0;
    while i < list.len()
        invariant
            i <= list@.len(),
            boarding.wf(),
            in_calendar(day as int),
            hashes@.len() == list@.len(),
            forall|k: int|
                0 <= k < list@.len() ==> timetable.journey((#[trigger] list@[k]).journey_id)
                    is Some,
            forall|k: int|
                0 <= k < list@.len() && is_new_route(old(processed_routes)@, hashes@, k)
                    ==> exchange_fits(
                    timetable,
                    *boarding,
                    timetable.journey((#[trigger] list@[k]).journey_id)->0,
                    day,
                ),
            (state@, processed_routes@) == after_departures(
                timetable,
                old(state)@,
                old(processed_routes)@,
                *boarding,
                day,
                list@,
                hashes@,
                i as int,
            ),
        decreases list@.len() - i,
    {
        assert(timetable.journey(list@[i as int].journey_id) is Some);
        let journey = map_get(&timetable.journeys, &list[i].journey_id).unwrap();
        let seen = match hashes[i] {
            Some(hash) => set_contains(processed_routes, &hash),
            None => false,
        };
        if !seen {
            proof {
                let done = after_departures(
                    timetable,
                    old(state)@,
                    old(processed_routes)@,
                    *boarding,
                    day,
                    list@,
                    hashes@,
                    i as int,
                );
                lemma_taken(
                    timetable,
                    old(state)@,
                    old(processed_routes)@,
                    *boarding,
                    day,
                    list@,
                    hashes@,
                    i as int,
                );
                if let Some(hash) = hashes@[i as int] {
                    assert(!done.1.contains(hash));
                }
                assert(is_new_route(old(processed_routes)@, hashes@, i as int));
            }
            if let Some(hash) = hashes[i] {
                set_insert(processed_routes, hash);
            }
            process_journey(timetable, state, journey, boarding, day);
        }
        i += 1;
    }
}

/// The exchange times that the departures with new routes ask for end in the calendar.
pub open spec fn exchanges_fit(
    timetable: &Timetable,
    taken: Set<u64>,
    b: Boarding,
    day: i32,
    list: Seq<Departure>,
) -> bool {
    forall|i: int|
        0 <= i < list.len() && is_new_route(taken, route_hashes(timetable, list, b.stop_id), i)
            ==> exchange_fits(
            timetable,
            b,
            timetable.journey((#[trigger] list[i]).journey_id)->0,
            day,
        )
}

/// The state after the departures of the list were boarded in turn, and the hashes of the routes
/// that were taken by then.
pub open spec fn after_list(
    timetable: &Timetable,
    s: SearchState,
    taken: Set<u64>,
    b: Boarding,
    day: i32,
    list: Seq<Departure>,
) -> (SearchState, Set<u64>) {
    after_departures(
        timetable,
        s,
        taken,
        b,
        day,
        list,
        route_hashes(timetable, list, b.stop_id),
        list.len() as int,
    )
}

/// Boards the journeys that leave the stop on the day, the earliest first. A journey over the same
/// stops as one before it is passed over, and so is one whose hash is in `processed_routes`.
pub fn process_journeys_for_date(
    timetable: &Timetable,
    state: &mut RaptorState,
    journey_ids: &Vec<i32>,
    boarding: &Boarding,
    day: i32,
    processed_routes: &mut FxHashSet<u64>,
)
    requires
        boarding.wf(),
        in_calendar(day as int),
        exchanges_fit(
            timetable,
            old(processed_routes)@,
            *boarding,
            day,
            in_order(timetable, *boarding, day, journey_ids@),
        ),
    ensures
        (final(state)@, final(processed_routes)@) == after_list(
            timetable,
            old(state)@,
            old(processed_routes)@,
            *boarding,
            day,
            in_order(timetable, *boarding, day, journey_ids@),
        ),
{
    let list = sorted_departures(timetable, journey_ids, boarding, day);
    proof {
        lemma_in_order(timetable, *boarding, day, journey_ids@);
    }
    let mut hashes: Vec<Option<u64>> = Vec::new();
    let mut i: usize = 0;
    while i < list.len()
        invariant
            i <= list@.len(),
            hashes@ == route_hashes(timetable, list@, boarding.stop_id).take(i as int),
            forall|k: int|
                0 <= k < list@.len() ==> timetable.journey((#[trigger] list@[k]).journey_id)
                    is Some,
        decreases list@.len() - i,
    {
        assert(timetable.journey(list@[i as int].journey_id) is Some);
        let journey = map_get(&timetable.journeys, &list[i].journey_id).unwrap();
        hashes.push(journey.hash_route(boarding.stop_id));
        i += 1;
        assert(hashes@ =~= route_hashes(timetable, list@, boarding.stop_id).take(i as int));
    }
    assert(hashes@ =~= route_hashes(timetable, list@, boarding.stop_id));
    process_departures(timetable, state, &list, &hashes, boarding, day, processed_routes);
}

/// The hour from which the journeys of the following day are boarded as well.
pub const LATE_EVENING: u32 = 20;

/// How a round boards at a stop: with the label of the latest earlier round that reached it.
pub open spec fn boarding_at(
    args: RoutingAlgorithmArgs,
    s: SearchState,
    stop_id: i32,
    round: usize,
) -> Option<Boarding> {
    match s.previous_round(stop_id, round as int) {
        Some(source_round) => Some(
            Boarding {
                stop_id,
                arrival_time: s.label(source_round, stop_id).arrival_time,
                previous_journey_id: s.label(source_round, stop_id).journey_id,
                round,
                source_round: source_round as usize,
                time_limit: args.limit(),
                target_stop_id: args.target(),
            },
        ),
        None => None,
    }
}

/// The day of the arrival at the boarding stop.
pub open spec fn boarding_day(b: Boarding) -> i32 {
    day_of(b.arrival_time as int) as i32
}

/// The day after the arrival at the boarding stop.
pub open spec fn following_day(b: Boarding) -> i32 {
    day_after(day_of(b.arrival_time as int)) as i32
}

/// The arrival at the boarding stop is so late that journeys of the following day count.
pub open spec fn is_late(b: Boarding) -> bool {
    hour_of(b.arrival_time as int) >= LATE_EVENING
}

/// The state after the journeys that leave the boarding stop on the day of the arrival were
/// boarded, and the hashes of the routes that were taken by then.
pub open spec fn after_today(timetable: &Timetable, s: SearchState, b: Boarding) -> (
    SearchState,
    Set<u64>,
) {
    let day = boarding_day(b);
    after_list(timetable, s, Set::empty(), b, day, departures_on(timetable, b, day))
}

/// The state after the journeys that leave the boarding stop were boarded: those of the day of
/// the arrival, and those of the following day if the arrival is late.
pub open spec fn after_boarding(timetable: &Timetable, s: SearchState, b: Boarding) -> SearchState {
    let (s1, taken) = after_today(timetable, s, b);
    if is_late(b) {
        let day = following_day(b);
        after_list(timetable, s1, taken, b, day, departures_on(timetable, b, day)).0
    } else {
        s1
    }
}

/// The state after a round has boarded at a stop.
pub open spec fn after_stop(
    timetable: &Timetable,
    args: RoutingAlgorithmArgs,
    s: SearchState,
    stop_id: i32,
    round: usize,
) -> SearchState {
    match boarding_at(args, s, stop_id, round) {
        Some(b) => after_boarding(timetable, s, b),
        None => s,
    }
}

/// The arrival with which a round boards lies in the calendar, and so do the ends of the exchanges
/// from it.
pub open spec fn can_process(
    timetable: &Timetable,
    args: RoutingAlgorithmArgs,
    s: SearchState,
    stop_id: i32,
    round: usize,
) -> bool {
    boarding_at(args, s, stop_id, round) matches Some(b) ==> {
        let today = boarding_day(b);
        let tomorrow = following_day(b);
        &&& b.wf()
        &&& exchanges_fit(
            timetable,
            Set::empty(),
            b,
            today,
            departures_on(timetable, b, today),
        )
        &&& is_late(b) ==> exchanges_fit(
            timetable,
            after_today(timetable, s, b).1,
            b,
            tomorrow,
            departures_on(timetable, b, tomorrow),
        )
    }
}

/// Boards the journeys that leave a stop: those of the day on which it was reached, and those of
/// the following day if it was reached late in the evening.
pub fn process_stop_journeys(
    timetable: &Timetable,
    state: &mut RaptorState,
    stop_id: i32,
    round: usize,
    args: &RoutingAlgorithmArgs,
)
    requires
        round < usize::MAX,
        can_process(timetable, *args, old(state)@, stop_id, round),
    ensures
        final(state)@ == after_stop(timetable, *args, old(state)@, stop_id, round),
{
    let (arrival_label, source_round) = match state.get_previous_label(stop_id, round) {
        Some((label, source_round)) => (*label, source_round),
        None => {
            return;
        },
    };
    let time_limit = match args.mode() {
        RoutingAlgorithmMode::SolveFromDepartureStopToReachableArrivalStops => Some(
            args.time_limit(),
        ),
        _ => None,
    };
    let target_stop_id = match args.mode() {
        RoutingAlgorithmMode::SolveFromDepartureStopToArrivalStop => Some(args.arrival_stop_id()),
        _ => None,
    };
    let boarding = Boarding {
        stop_id,
        arrival_time: arrival_label.arrival_time,
        previous_journey_id: arrival_label.journey_id,
        round,
        source_round,
        time_limit,
        target_stop_id,
    };
    assert(boarding_at(*args, old(state)@, stop_id, round) == Some(boarding));
    let day = date(boarding.arrival_time);
    let mut processed_routes: FxHashSet<u64> = FxHashSet::default();
    let journeys = timetable.get_operating_journeys(day, stop_id);
    process_journeys_for_date(
        timetable,
        state,
        &journeys,
        &boarding,
        day,
        &mut processed_routes,
    );
    if hour(boarding.arrival_time) >= LATE_EVENING {
        let next_day = match succ_opt(day) {
            Some(next_day) => next_day,
            None => day,
        };
        let journeys_next_day = timetable.get_operating_journeys(next_day, stop_id);
        process_journeys_for_date(
            timetable,
            state,
            &journeys_next_day,
            &boarding,
            next_day,
            &mut processed_routes,
        );
    }
}

/// The label of a walk of the connection from a stop that was reached at `arrival_time`.
pub open spec fn walk_label(
    stop_id: i32,
    arrival_time: i64,
    connection: StopConnection,
    round: usize,
) -> RaptorLabel {
    RaptorLabel {
        arrival_time: after_minutes(arrival_time as int, connection.duration as int) as i64,
        journey_id: None,
        from_stop_id: stop_id,
        boarding_stop_id: stop_id,
        transfer_duration: Some(connection.duration),
        source_round: round,
    }
}

/// The state after the walk of the connection was offered.
pub open spec fn after_walk(
    s: SearchState,
    stop_id: i32,
    arrival_time: i64,
    connection: StopConnection,
    round: usize,
    time_limit: Option<i64>,
) -> SearchState {
    s.improve(
        connection.stop_id_2,
        walk_label(stop_id, arrival_time, connection, round),
        round as int,
        arrival_time,
        time_limit,
        true,
    )
}

/// The state after the first `n` walks from the departure stop.
pub open spec fn after_initial_walks(
    s: SearchState,
    stop_id: i32,
    departure_at: i64,
    connections: Seq<StopConnection>,
    n: int,
) -> SearchState
    decreases n,
{
    if n <= 0 {
        s
    } else {
        after_walk(
            after_initial_walks(s, stop_id, departure_at, connections, n - 1),
            stop_id,
            departure_at,
            connections[n - 1],
            0,
            None,
        )
    }
}

/// The state after the first `n` walks from a stop. A walk to a stop that is not known is
/// passed over.
pub open spec fn after_walks(
    timetable: &Timetable,
    s: SearchState,
    stop_id: i32,
    arrival_time: i64,
    connections: Seq<StopConnection>,
    round: usize,
    time_limit: Option<i64>,
    n: int,
) -> SearchState
    decreases n,
{
    if n <= 0 {
        s
    } else {
        let before = after_walks(
            timetable,
            s,
            stop_id,
            arrival_time,
            connections,
            round,
            time_limit,
            n - 1,
        );
        if timetable.has_stop(connections[n - 1].stop_id_2) {
            after_walk(before, stop_id, arrival_time, connections[n - 1], round, time_limit)
        } else {
            before
        }
    }
}

/// The state with which the rounds start: the departure stop and the walks from it.
pub open spec fn start(
    timetable: &Timetable,
    departure_stop_id: i32,
    departure_at: i64,
) -> SearchState {
    let connections = timetable.connections(departure_stop_id);
    after_initial_walks(
        origin(departure_stop_id, departure_at),
        departure_stop_id,
        departure_at,
        connections,
        connections.len() as int,
    )
}

/// The state after the walks from a stop that was reached in the round. Walks start at exchange
/// points only.
pub open spec fn after_transfers(
    timetable: &Timetable,
    args: RoutingAlgorithmArgs,
    s: SearchState,
    stop_id: i32,
    round: usize,
) -> SearchState {
    let connections = timetable.connections(stop_id);
    if timetable.is_exchange_point(stop_id) && s.has(round as int, stop_id) {
        after_walks(
            timetable,
            s,
            stop_id,
            s.label(round as int, stop_id).arrival_time,
            connections,
            round,
            args.limit(),
            connections.len() as int,
        )
    } else {
        s
    }
}

/// A walk of the connection that starts at `time` ends in the calendar.
pub open spec fn walk_fits(time: i64, connection: StopConnection) -> bool {
    is_instant(after_minutes(time as int, connection.duration as int))
}

/// The instant of departure lies in the calendar, and so do the ends of the walks from the
/// departure stop.
pub open spec fn can_depart(
    timetable: &Timetable,
    departure_stop_id: i32,
    departure_at: i64,
) -> bool {
    &&& is_instant(departure_at as int)
    &&& forall|k: int|
        0 <= k < timetable.connections(departure_stop_id).len() ==> walk_fits(
            departure_at,
            #[trigger] timetable.connections(departure_stop_id)[k],
        )
}

/// Walks from the departure stop.
pub fn process_initial_transfers(
    timetable: &Timetable,
    state: &mut RaptorState,
    departure_stop_id: i32,
    departure_at: i64,
)
    requires
        can_depart(timetable, departure_stop_id, departure_at),
    ensures
        final(state)@ == after_initial_walks(
            old(state)@,
            departure_stop_id,
            departure_at,
            timetable.connections(departure_stop_id),
            timetable.connections(departure_stop_id).len() as int,
        ),
{
    if let Some(connections) = timetable.get_stop_connections(departure_stop_id) {
        let mut i: usize = 0;
        while i < connections.len()
            invariant
                i <= connections@.len(),
                connections@ == timetable.connections(departure_stop_id),
                is_instant(departure_at as int),
                forall|k: int|
                    0 <= k < connections@.len() ==> walk_fits(
                        departure_at,
                        #[trigger] connections@[k],
                    ),
                state@ == after_initial_walks(
                    old(state)@,
                    departure_stop_id,
                    departure_at,
                    connections@,
                    i as int,
                ),
            decreases connections@.len() - i,
        {
            let connection = connections[i];
            let arrival_time = add_minutes_to_date_time(departure_at, connection.duration);
            state.try_improve(
                connection.stop_id_2,
                RaptorLabel {
                    arrival_time,
                    journey_id: None,
                    from_stop_id: departure_stop_id,
                    boarding_stop_id: departure_stop_id,
                    transfer_duration: Some(connection.duration),
                    source_round: 0,
                },
                0,
                departure_at,
                None,
                true,
            );
            i += 1;
        }
    }
}

/// Where the round walks from the stop, the arrival there lies in the calendar, and so do the ends
/// of the walks to known stops.
pub open spec fn can_walk(
    timetable: &Timetable,
    s: SearchState,
    stop_id: i32,
    round: usize,
) -> bool {
    let time = s.label(round as int, stop_id).arrival_time;
    timetable.is_exchange_point(stop_id) && s.has(round as int, stop_id) ==> {
        &&& is_instant(time as int)
        &&& forall|k: int|
            0 <= k < timetable.connections(stop_id).len() && timetable.has_stop(
                (#[trigger] timetable.connections(stop_id)[k]).stop_id_2,
            ) ==> walk_fits(time, timetable.connections(stop_id)[k])
    }
}

/// Walks from a stop that was reached in the round.
pub fn process_transfers(
    timetable: &Timetable,
    state: &mut RaptorState,
    stop_id: i32,
    round: usize,
    args: &RoutingAlgorithmArgs,
)
    requires
        round < usize::MAX,
        can_walk(timetable, old(state)@, stop_id, round),
    ensures
        final(state)@ == after_transfers(timetable, *args, old(state)@, stop_id, round),
{
    match map_get(&timetable.stops, &stop_id) {
        Some(stop) => {
            if !stop.can_be_used_as_exchange_point() {
                return;
            }
        },
        None => {
            return;
        },
    }
    let arrival_time = match state.get_label(stop_id, round) {
        Some(label) => label.arrival_time,
        None => {
            return;
        },
    };
    let time_limit = match args.mode() {
        RoutingAlgorithmMode::SolveFromDepartureStopToReachableArrivalStops => Some(
            args.time_limit(),
        ),
        _ => None,
    };
    assert(time_limit == args.limit());
    if let Some(connections) = timetable.get_stop_connections(stop_id) {
        let mut i: usize = 0;
        while i < connections.len()
            invariant
                i <= connections@.len(),
                connections@ == timetable.connections(stop_id),
                is_instant(arrival_time as int),
                forall|k: int|
                    0 <= k < connections@.len() && timetable.has_stop(
                        (#[trigger] connections@[k]).stop_id_2,
                    ) ==> walk_fits(arrival_time, connections@[k]),
                round < usize::MAX,
                state@ == after_walks(
                    timetable,
                    old(state)@,
                    stop_id,
                    arrival_time,
                    connections@,
                    round,
                    time_limit,
                    i as int,
                ),
            decreases connections@.len() - i,
        {
            let connection = connections[i];
            if map_get(&timetable.stops, &connection.stop_id_2).is_some() {
                let transfer_arrival = add_minutes_to_date_time(arrival_time, connection.duration);
                state.try_improve(
                    connection.stop_id_2,
                    RaptorLabel {
                        arrival_time: transfer_arrival,
                        journey_id: None,
                        from_stop_id: stop_id,
                        boarding_stop_id: stop_id,
                        transfer_duration: Some(connection.duration),
                        source_round: round,
                    },
                    round,
                    arrival_time,
                    time_limit,
                    true,
                );
            }
            i += 1;
        }
    }
}

} // verus!
