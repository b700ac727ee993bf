//! What holds of the departures that are boarded at a stop.

use crate::routing::completeness::{
    boarding_after, departures_are_taken, hashes_on, lemma_hashes_on, reached_by, ride_counts,
    ride_is_taken,
};
use crate::routing::exploration::{
    after_calls, after_departures, after_list, after_stop, after_today, boarding_at, boarding_day,
    by_departure, can_depart, departure_from, departures, departures_on, following_day, in_order,
    is_boarded, is_late, is_new_route, lemma_in_order, lemma_slot, lemma_taken, route_hashes, slot,
    Boarding, Departure,
};
use crate::routing::laws::{outcome_is_sound, query, routes_connect};
use crate::routing::models::{Route, RoutingAlgorithmArgs};
use crate::routing::raptor::{is_outcome, may_return};
use crate::routing::reconstruction::{are_results, route_to};
use crate::routing::soundness::{label_ok, lemma_listed};
use crate::routing::state::SearchState;
use crate::timetable::{arrival_of, hash_of, JourneyView, Timetable};
use vstd::prelude::*;
use vstd::relations::{sorted_by, total_ordering};
use vstd::seq_lib::{lemma_sorted_unique, to_multiset_build, to_multiset_insert};

verus! {

/// The departures come in the order of their times.
pub open spec fn is_sorted(s: Seq<Departure>) -> bool {
    forall|i: int, j: int|
        0 <= i <= j < s.len() ==> (#[trigger] s[i]).departure_time <= (
        #[trigger] s[j]).departure_time
}

/// The departures at the instant, in the order in which they are in the sequence.
pub open spec fn at_time(s: Seq<Departure>, time: i64) -> Seq<Departure> {
    s.filter(|d: Departure| d.departure_time == time)
}

/// The slot of an instant in a sorted sequence parts the departures that are not after it from
/// those that are.
proof fn lemma_slot_parts(s: Seq<Departure>, time: i64, n: int)
    requires
        is_sorted(s),
        0 <= n <= s.len(),
    ensures
        0 <= slot(s, time, n) <= n,
        forall|i: int| 0 <= i < slot(s, time, n) ==> (#[trigger] s[i]).departure_time <= time,
        forall|i: int| slot(s, time, n) <= i < n ==> (#[trigger] s[i]).departure_time > time,
    decreases n,
{
    if n > 0 && s[n - 1].departure_time > time {
        lemma_slot_parts(s, time, n - 1);
    }
}

/// A round takes the departures from a stop in the order of their times.
pub proof fn departures_are_sorted(s: Seq<Departure>)
    ensures
        by_departure(s).len() == s.len(),
        is_sorted(by_departure(s)),
    decreases s.len(),
{
    if s.len() > 0 {
        let before = by_departure(s.drop_last());
        departures_are_sorted(s.drop_last());
        lemma_slot_parts(before, s.last().departure_time, before.len() as int);
    }
}

/// A sequence without a departure at the instant has none to hand out.
proof fn lemma_none_at_time(s: Seq<Departure>, time: i64)
    requires
        forall|i: int| 0 <= i < s.len() ==> (#[trigger] s[i]).departure_time != time,
    ensures
        at_time(s, time) == Seq::<Departure>::empty(),
    decreases s.len(),
{
    reveal(Seq::filter);
    if s.len() > 0 {
        lemma_none_at_time(s.drop_last(), time);
    }
}

/// Sorting keeps every departure, and departures at the same instant stay in the order in which
/// they were.
pub proof fn sorting_is_stable(s: Seq<Departure>, time: i64)
    ensures
        at_time(by_departure(s), time) == at_time(s, time),
    decreases s.len(),
{
    reveal(Seq::filter);
    if s.len() > 0 {
        let keep = |d: Departure| d.departure_time == time;
        let d = s.last();
        let rest = s.drop_last();
        let before = by_departure(rest);
        let n = before.len() as int;
        let p = slot(before, d.departure_time, n);
        sorting_is_stable(rest, time);
        departures_are_sorted(rest);
        lemma_slot_parts(before, d.departure_time, n);
        let head = before.take(p);
        let tail = before.skip(p);
        assert(before =~= head + tail);
        assert(by_departure(s) =~= head.push(d) + tail);
        Seq::filter_distributes_over_add(head, tail, keep);
        Seq::filter_distributes_over_add(head.push(d), tail, keep);
        assert(head.push(d).drop_last() =~= head);
        if d.departure_time == time {
            lemma_none_at_time(tail, time);
            assert(at_time(by_departure(s), time) =~= at_time(head, time).push(d));
            assert(at_time(before, time) =~= at_time(head, time));
        }
    }
}

/// No two of the departures are at the same instant.
pub open spec fn have_distinct_times(s: Seq<Departure>) -> bool {
    forall|i: int, j: int|
        0 <= i < j < s.len() ==> (#[trigger] s[i]).departure_time != (
        #[trigger] s[j]).departure_time
}

/// Sorting keeps every departure.
proof fn lemma_sorting_permutes(s: Seq<Departure>)
    ensures
        by_departure(s).to_multiset() == s.to_multiset(),
    decreases s.len(),
{
    if s.len() > 0 {
        let d = s.last();
        let rest = s.drop_last();
        let before = by_departure(rest);
        let n = before.len() as int;
        lemma_sorting_permutes(rest);
        lemma_slot(before, d.departure_time, n);
        to_multiset_insert(before, slot(before, d.departure_time, n), d);
        to_multiset_build(rest, d);
        assert(rest.push(d) =~= s);
    }
}

/// Departures in another order still have distinct times.
proof fn lemma_distinct_times_permute(a: Seq<Departure>, b: Seq<Departure>)
    requires
        have_distinct_times(a),
        a.to_multiset() == b.to_multiset(),
    ensures
        have_distinct_times(b),
{
    a.to_multiset_ensures();
    b.to_multiset_ensures();
    assert(a.no_duplicates());
    a.lemma_multiset_has_no_duplicates();
    b.lemma_multiset_has_no_duplicates_conv();
    assert forall|i: int, j: int| 0 <= i < j < b.len() implies (
    #[trigger] b[i]).departure_time != (#[trigger] b[j]).departure_time by {
        assert(b.contains(b[i]) && b.contains(b[j]));
        assert(a.to_multiset().count(b[i]) > 0 && a.to_multiset().count(b[j]) > 0);
        assert(a.contains(b[i]) && a.contains(b[j]));
        let k = choose|k: int| 0 <= k < a.len() && a[k] == b[i];
        let l = choose|l: int| 0 <= l < a.len() && a[l] == b[j];
        assert(a[k] != a[l]);
    }
}

/// Departures with distinct times have one order by time.
proof fn lemma_one_order(a: Seq<Departure>, b: Seq<Departure>)
    requires
        is_sorted(a),
        is_sorted(b),
        have_distinct_times(a),
        have_distinct_times(b),
        a.to_multiset() == b.to_multiset(),
    ensures
        a == b,
{
    let leq = |c: Departure, d: Departure|
        c.departure_time < d.departure_time || (c.departure_time == d.departure_time && c.journey_id
            <= d.journey_id);
    assert(sorted_by(a, leq));
    assert(sorted_by(b, leq));
    assert(total_ordering(leq));
    lemma_sorted_unique(a, b, leq);
}

/// The first `n` journeys have the departure as often as they hold its journey, if it is the
/// departure of that journey.
proof fn lemma_departure_count(
    timetable: &Timetable,
    b: Boarding,
    day: i32,
    journey_ids: Seq<i32>,
    n: int,
    d: Departure,
)
    requires
        0 <= n <= journey_ids.len(),
    ensures
        departures(timetable, b, day, journey_ids, n).to_multiset().count(d)
            == if departure_from(timetable, b, day, d.journey_id) == Some(d) {
            journey_ids.take(n).to_multiset().count(d.journey_id)
        } else {
            0
        },
    decreases n,
{
    broadcast use {vstd::multiset::group_multiset_axioms, vstd::seq_lib::group_to_multiset_ensures};

    if n > 0 {
        let before = departures(timetable, b, day, journey_ids, n - 1);
        let id = journey_ids[n - 1];
        lemma_departure_count(timetable, b, day, journey_ids, n - 1, d);
        assert(journey_ids.take(n) =~= journey_ids.take(n - 1).push(id));
        to_multiset_build(journey_ids.take(n - 1), id);
        if let Some(e) = departure_from(timetable, b, day, id) {
            to_multiset_build(before, e);
        }
    } else {
        assert(journey_ids.take(0) =~= Seq::<i32>::empty());
    }
}

/// Journeys are taken in the order of their departures, not in that in which they are given: if
/// no two of them leave the stop at the same instant, the same journeys in another order leave it
/// in the same order, and boarding them leads to the same state, with the same hashes taken.
pub proof fn order_of_journeys_does_not_matter(
    timetable: &Timetable,
    s: SearchState,
    taken: Set<u64>,
    b: Boarding,
    day: i32,
    journey_ids: Seq<i32>,
    permuted_ids: Seq<i32>,
)
    requires
        journey_ids.to_multiset() == permuted_ids.to_multiset(),
        have_distinct_times(
            departures(timetable, b, day, journey_ids, journey_ids.len() as int),
        ),
    ensures
        in_order(timetable, b, day, journey_ids) == in_order(timetable, b, day, permuted_ids),
        after_list(
            timetable,
            s,
            taken,
            b,
            day,
            in_order(timetable, b, day, journey_ids),
        ) == after_list(
            timetable,
            s,
            taken,
            b,
            day,
            in_order(timetable, b, day, permuted_ids),
        ),
{
    let given = departures(timetable, b, day, journey_ids, journey_ids.len() as int);
    let permuted = departures(timetable, b, day, permuted_ids, permuted_ids.len() as int);
    assert(given.to_multiset() =~= permuted.to_multiset()) by {
        assert forall|d: Departure| given.to_multiset().count(d) == permuted.to_multiset().count(
            d,
        ) by {
            lemma_departure_count(timetable, b, day, journey_ids, journey_ids.len() as int, d);
            lemma_departure_count(timetable, b, day, permuted_ids, permuted_ids.len() as int, d);
            assert(journey_ids.take(journey_ids.len() as int) =~= journey_ids);
            assert(permuted_ids.take(permuted_ids.len() as int) =~= permuted_ids);
        }
    }
    lemma_sorting_permutes(given);
    lemma_sorting_permutes(permuted);
    departures_are_sorted(given);
    departures_are_sorted(permuted);
    lemma_distinct_times_permute(given, by_departure(given));
    lemma_distinct_times_permute(given, by_departure(permuted));
    lemma_one_order(by_departure(given), by_departure(permuted));
}

/// The label of the stop in the round was written between `s` and `t`.
pub open spec fn is_written(s: SearchState, t: SearchState, round: int, stop_id: i32) -> bool {
    t.has(round, stop_id) && !(s.has(round, stop_id) && s.label(round, stop_id) == t.label(
        round,
        stop_id,
    ))
}

/// The labels that were written between `s` and `t` are those of rides with the journeys.
spec fn writes_rides_of(s: SearchState, t: SearchState, round: int, ids: Set<i32>) -> bool {
    forall|x: i32| #[trigger]
        t.has(round, x) && is_written(s, t, round, x) ==> t.label(round, x).journey_id is Some
            && ids.contains(t.label(round, x).journey_id->0)
}

/// What is written in two parts is written in one of them.
proof fn lemma_writes(
    s: SearchState,
    m: SearchState,
    t: SearchState,
    round: int,
    first: Set<i32>,
    second: Set<i32>,
)
    requires
        writes_rides_of(s, m, round, first),
        writes_rides_of(m, t, round, second),
    ensures
        writes_rides_of(s, t, round, first.union(second)),
{
    assert forall|x: i32| #[trigger] t.has(round, x) && is_written(s, t, round, x) implies t.label(
        round,
        x,
    ).journey_id is Some && first.union(second).contains(t.label(round, x).journey_id->0) by {
        if !is_written(m, t, round, x) {
            assert(m.has(round, x));
            assert(is_written(s, m, round, x));
        }
    }
}

/// The calls of a journey write rides with it.
proof fn lemma_calls_write(
    timetable: &Timetable,
    s: SearchState,
    b: Boarding,
    journey: JourneyView,
    day: i32,
    n: int,
)
    ensures
        writes_rides_of(
            s,
            after_calls(timetable, s, b, journey, day, n),
            b.round as int,
            set![journey.id],
        ),
    decreases n,
{
    if n > 0 {
        let m = after_calls(timetable, s, b, journey, day, n - 1);
        let t = after_calls(timetable, s, b, journey, day, n);
        lemma_calls_write(timetable, s, b, journey, day, n - 1);
        assert(writes_rides_of(m, t, b.round as int, set![journey.id]));
        lemma_writes(s, m, t, b.round as int, set![journey.id], set![journey.id]);
        assert(set![journey.id].union(set![journey.id]) =~= set![journey.id]);
    }
}

/// The journeys of the first `n` departures whose routes are new.
spec fn new_ids(
    taken: Set<u64>,
    list: Seq<Departure>,
    hashes: Seq<Option<u64>>,
    n: int,
) -> Set<i32> {
    Set::new(
        |id: i32|
            exists|k: int|
                0 <= k < n && #[trigger] is_new_route(taken, hashes, k) && list[k].journey_id == id,
    )
}

/// Boarding departures writes rides with those whose routes are new.
proof fn lemma_departures_write(
    timetable: &Timetable,
    s: SearchState,
    taken: Set<u64>,
    b: Boarding,
    day: i32,
    list: Seq<Departure>,
    hashes: Seq<Option<u64>>,
    n: int,
)
    requires
        n <= list.len(),
        forall|k: int|
            0 <= k < list.len() ==> timetable.journey((#[trigger] list[k]).journey_id) is Some
                && timetable.journey(list[k].journey_id)->0.id == list[k].journey_id,
    ensures
        writes_rides_of(
            s,
            after_departures(timetable, s, taken, b, day, list, hashes, n).0,
            b.round as int,
            new_ids(taken, list, hashes, n),
        ),
    decreases n,
{
    if n > 0 {
        let (m, done) = after_departures(timetable, s, taken, b, day, list, hashes, n - 1);
        let t = after_departures(timetable, s, taken, b, day, list, hashes, n).0;
        let journey = timetable.journey(list[n - 1].journey_id)->0;
        let earlier = new_ids(taken, list, hashes, n - 1);
        let now = new_ids(taken, list, hashes, n);
        lemma_departures_write(timetable, s, taken, b, day, list, hashes, n - 1);
        lemma_taken(timetable, s, taken, b, day, list, hashes, n - 1);
        lemma_calls_write(timetable, m, b, journey, day, journey.route.len() as int);
        if hashes[n - 1] is Some && done.contains(hashes[n - 1]->0) {
            assert(t == m);
        } else {
            assert(is_new_route(taken, hashes, n - 1)) by {
                if let Some(hash) = hashes[n - 1] {
                    assert(!done.contains(hash));
                }
            }
            assert(now.contains(journey.id));
            lemma_writes(s, m, t, b.round as int, earlier, set![journey.id]);
        }
        assert forall|id: i32| earlier.contains(id) implies now.contains(id) by {
            let k = choose|k: int|
                0 <= k < n - 1 && #[trigger] is_new_route(taken, hashes, k) && list[k].journey_id
                    == id;
            assert(is_new_route(taken, hashes, k));
        }
    }
}

/// At most one journey per route is ridden from a stop, over the day of the arrival and the
/// following day together: of the labels that boarding at the stop has written, two whose journeys
/// have the same hash for their routes from the stop on are of the same journey.
pub proof fn one_journey_per_route(
    timetable: &Timetable,
    args: RoutingAlgorithmArgs,
    s: SearchState,
    stop_id: i32,
    round: usize,
    x: i32,
    y: i32,
)
    requires
        timetable.wf(),
        is_written(s, after_stop(timetable, args, s, stop_id, round), round as int, x),
        is_written(s, after_stop(timetable, args, s, stop_id, round), round as int, y),
    ensures
        ({
            let t = after_stop(timetable, args, s, stop_id, round);
            let first = t.label(round as int, x).journey_id;
            let second = t.label(round as int, y).journey_id;
            &&& first is Some && timetable.journey(first->0) is Some
            &&& second is Some && timetable.journey(second->0) is Some
            &&& hash_of(timetable.journey(first->0)->0.route, stop_id) == hash_of(
                timetable.journey(second->0)->0.route,
                stop_id,
            ) ==> first == second
        }),
{
    let t = after_stop(timetable, args, s, stop_id, round);
    let b = boarding_at(args, s, stop_id, round)->0;
    let day = boarding_day(b);
    let next_day = following_day(b);
    let today = departures_on(timetable, b, day);
    let tomorrow = departures_on(timetable, b, next_day);
    let hashes = route_hashes(timetable, today, stop_id);
    let later = route_hashes(timetable, tomorrow, stop_id);
    let none = Set::<u64>::empty();
    let (s1, taken) = after_today(timetable, s, b);
    let ids = new_ids(none, today, hashes, today.len() as int);
    let later_ids = new_ids(taken, tomorrow, later, tomorrow.len() as int);
    lemma_departures_known(timetable, b, day);
    lemma_departures_known(timetable, b, next_day);
    lemma_departures_write(timetable, s, none, b, day, today, hashes, today.len() as int);
    lemma_hashes_on(timetable, s, b);
    if is_late(b) {
        lemma_departures_write(
            timetable,
            s1,
            taken,
            b,
            next_day,
            tomorrow,
            later,
            tomorrow.len() as int,
        );
        lemma_writes(s, s1, t, round as int, ids, later_ids);
    }
    let first = t.label(round as int, x).journey_id->0;
    let second = t.label(round as int, y).journey_id->0;
    assert(t.has(round as int, x) && t.has(round as int, y));
    lemma_ids_by_hash(timetable, b, first, second);
    lemma_ids_by_hash(timetable, b, second, first);
}

/// The departures are those of journeys of the timetable that call at the stop.
pub proof fn lemma_departures_known(timetable: &Timetable, b: Boarding, day: i32)
    requires
        timetable.wf(),
    ensures
        forall|k: int|
            0 <= k < departures_on(timetable, b, day).len() ==> timetable.journey(
                (#[trigger] departures_on(timetable, b, day)[k]).journey_id,
            ) is Some && timetable.journey(departures_on(timetable, b, day)[k].journey_id)->0.id
                == departures_on(timetable, b, day)[k].journey_id && hash_of(
                timetable.journey(departures_on(timetable, b, day)[k].journey_id)->0.route,
                b.stop_id,
            ) is Some,
{
    let list = departures_on(timetable, b, day);
    lemma_in_order(timetable, b, day, timetable.operating(day, b.stop_id));
    assert forall|k: int| 0 <= k < list.len() implies timetable.journey(
        (#[trigger] list[k]).journey_id,
    ) is Some && timetable.journey(list[k].journey_id)->0.id == list[k].journey_id && hash_of(
        timetable.journey(list[k].journey_id)->0.route,
        b.stop_id,
    ) is Some by {
        assert(timetable.journeys@.contains_key(list[k].journey_id));
    }
}

/// Two journeys with new routes and the same hash are one.
proof fn lemma_ids_by_hash(timetable: &Timetable, b: Boarding, first: i32, second: i32)
    requires
        timetable.wf(),
    ensures
        ({
            let day = boarding_day(b);
            let next_day = following_day(b);
            let today = departures_on(timetable, b, day);
            let tomorrow = departures_on(timetable, b, next_day);
            let ids = new_ids(
                Set::empty(),
                today,
                route_hashes(timetable, today, b.stop_id),
                today.len() as int,
            );
            let later_ids = new_ids(
                hashes_on(timetable, b, day),
                tomorrow,
                route_hashes(timetable, tomorrow, b.stop_id),
                tomorrow.len() as int,
            );
            hash_of(timetable.journey(first)->0.route, b.stop_id) == hash_of(
                timetable.journey(second)->0.route,
                b.stop_id,
            ) ==> {
                &&& ids.contains(first) && ids.contains(second) ==> first == second
                &&& later_ids.contains(first) && later_ids.contains(second) ==> first == second
                &&& !(ids.contains(first) && later_ids.contains(second))
            }
        }),
{
    let day = boarding_day(b);
    let today = departures_on(timetable, b, day);
    let tomorrow = departures_on(timetable, b, following_day(b));
    let hashes = route_hashes(timetable, today, b.stop_id);
    let later = route_hashes(timetable, tomorrow, b.stop_id);
    let none = Set::<u64>::empty();
    let taken = hashes_on(timetable, b, day);
    let ids = new_ids(none, today, hashes, today.len() as int);
    let later_ids = new_ids(taken, tomorrow, later, tomorrow.len() as int);
    lemma_departures_known(timetable, b, day);
    lemma_departures_known(timetable, b, following_day(b));
    if hash_of(timetable.journey(first)->0.route, b.stop_id) == hash_of(
        timetable.journey(second)->0.route,
        b.stop_id,
    ) {
        if ids.contains(first) && ids.contains(second) {
            lemma_same_new_id(timetable, b.stop_id, none, today, first, second);
        }
        if later_ids.contains(first) && later_ids.contains(second) {
            lemma_same_new_id(timetable, b.stop_id, taken, tomorrow, first, second);
        }
        if ids.contains(first) && later_ids.contains(second) {
            let k = choose|k: int|
                0 <= k < today.len() && #[trigger] is_new_route(none, hashes, k)
                    && today[k].journey_id == first;
            let l = choose|l: int|
                0 <= l < tomorrow.len() && #[trigger] is_new_route(taken, later, l)
                    && tomorrow[l].journey_id == second;
            assert(hashes[k] == later[l]);
            assert(taken.contains(hashes[k]->0));
        }
    }
}

/// Two departures with new routes and the same hash are those of one journey.
proof fn lemma_same_new_id(
    timetable: &Timetable,
    stop_id: i32,
    taken: Set<u64>,
    list: Seq<Departure>,
    first: i32,
    second: i32,
)
    requires
        forall|k: int|
            0 <= k < list.len() ==> hash_of(
                timetable.journey((#[trigger] list[k]).journey_id)->0.route,
                stop_id,
            ) is Some,
        hash_of(timetable.journey(first)->0.route, stop_id) == hash_of(
            timetable.journey(second)->0.route,
            stop_id,
        ),
        ({
            let hashes = route_hashes(timetable, list, stop_id);
            let ids = new_ids(taken, list, hashes, list.len() as int);
            ids.contains(first) && ids.contains(second)
        }),
    ensures
        first == second,
{
    let hashes = route_hashes(timetable, list, stop_id);
    let k = choose|k: int|
        0 <= k < list.len() && #[trigger] is_new_route(taken, hashes, k) && list[k].journey_id
            == first;
    let l = choose|l: int|
        0 <= l < list.len() && #[trigger] is_new_route(taken, hashes, l) && list[l].journey_id
            == second;
    assert(hashes[k] == hashes[l] && hashes[k] is Some);
}

/// How the first round boards at the departure stop.
pub open spec fn first_boarding(
    args: RoutingAlgorithmArgs,
    departure_stop_id: i32,
    departure_at: i64,
) -> Boarding {
    Boarding {
        stop_id: departure_stop_id,
        arrival_time: departure_at,
        previous_journey_id: None,
        round: 1,
        source_round: 0,
        time_limit: args.limit(),
        target_stop_id: args.target(),
    }
}

/// A search rides with every journey that leaves the departure stop on the day of the departure
/// as the first with the hash of its route: where its ride may end, it is no earlier than the
/// route that the search has found.
pub proof fn first_journeys_of_a_route_are_taken(
    timetable: &Timetable,
    args: RoutingAlgorithmArgs,
    departure_stop_id: i32,
    departure_at: i64,
    max_rounds: i32,
    t: SearchState,
    k: int,
    i: int,
)
    requires
        timetable.wf(),
        can_depart(timetable, departure_stop_id, departure_at),
        0 <= max_rounds < i32::MAX,
        is_outcome(timetable, args, departure_stop_id, departure_at, max_rounds, t),
        ({
            let b = first_boarding(args, departure_stop_id, departure_at);
            let day = boarding_day(b);
            let list = departures_on(timetable, b, day);
            &&& 0 <= k < list.len()
            &&& is_new_route(
                Set::empty(),
                route_hashes(timetable, list, departure_stop_id),
                k,
            )
            &&& ride_counts(timetable, b, timetable.journey(list[k].journey_id)->0, day, i)
        }),
    ensures
        ({
            let b = first_boarding(args, departure_stop_id, departure_at);
            let day = boarding_day(b);
            let journey = timetable.journey(
                departures_on(timetable, b, day)[k].journey_id,
            )->0;
            let stop_id = journey.route[i].stop_id;
            let arrival = arrival_of(journey.route, stop_id, day as int, departure_stop_id)->0;
            &&& reached_by(t, stop_id, arrival)
            &&& route_to(t, departure_stop_id, stop_id) matches Some(route)
                ==> route.sections.last().arrival_at <= arrival
        }),
{
    let q = query(args, departure_stop_id, departure_at);
    let b = first_boarding(args, departure_stop_id, departure_at);
    let day = boarding_day(b);
    let list = departures_on(timetable, b, day);
    let journey = timetable.journey(list[k].journey_id)->0;
    let stop_id = journey.route[i].stop_id;
    assert(b == boarding_after(args, t, 0, departure_stop_id) && t.has(0, departure_stop_id)) by {
        outcome_is_sound(timetable, args, departure_stop_id, departure_at, max_rounds, t);
        assert(label_ok(timetable, q, t, 0, departure_stop_id));
    }
    departures_are_taken(
        timetable,
        args,
        departure_stop_id,
        departure_at,
        max_rounds,
        t,
        0,
        departure_stop_id,
    );
    lemma_in_order(timetable, b, day, timetable.operating(day, b.stop_id));
    assert(departure_from(timetable, b, day, list[k].journey_id) == Some(list[k]));
    assert(is_boarded(timetable, b, journey, day));
    assert(ride_is_taken(timetable, b, journey, day, t));
    routes_connect(
        timetable,
        args,
        departure_stop_id,
        departure_at,
        max_rounds,
        t,
        stop_id,
    );
}

/// The departure of one of the journeys is in the list.
pub proof fn lemma_in_list(
    timetable: &Timetable,
    b: Boarding,
    day: i32,
    ids: Seq<i32>,
    d: Departure,
)
    requires
        ids.contains(d.journey_id),
        departure_from(timetable, b, day, d.journey_id) == Some(d),
    ensures
        in_order(timetable, b, day, ids).contains(d),
{
    lemma_departure_count(timetable, b, day, ids, ids.len() as int, d);
    assert(ids.take(ids.len() as int) =~= ids);
    ids.to_multiset_ensures();
    lemma_sorting_permutes(departures(timetable, b, day, ids, ids.len() as int));
    in_order(timetable, b, day, ids).to_multiset_ensures();
}

/// The departure of a journey that operates on the day is in the list.
pub proof fn lemma_is_listed(timetable: &Timetable, b: Boarding, day: i32, d: Departure)
    requires
        timetable.operating(day, b.stop_id).contains(d.journey_id),
        departure_from(timetable, b, day, d.journey_id) == Some(d),
    ensures
        departures_on(timetable, b, day).contains(d),
{
    lemma_in_list(timetable, b, day, timetable.operating(day, b.stop_id), d);
}

/// The position of a departure that comes before all those of other journeys with the same hash,
/// which is none of those taken.
pub proof fn lemma_new_of_its_route(
    timetable: &Timetable,
    b: Boarding,
    day: i32,
    taken: Set<u64>,
    d: Departure,
) -> (k: int)
    requires
        timetable.operating(day, b.stop_id).contains(d.journey_id),
        departure_from(timetable, b, day, d.journey_id) == Some(d),
        leaves_first(timetable, b, day, d),
        hash_of(timetable.journey(d.journey_id)->0.route, b.stop_id) matches Some(hash)
            ==> !taken.contains(hash),
    ensures
        0 <= k < departures_on(timetable, b, day).len(),
        departures_on(timetable, b, day)[k] == d,
        is_new_route(
            taken,
            route_hashes(timetable, departures_on(timetable, b, day), b.stop_id),
            k,
        ),
{
    let ids = timetable.operating(day, b.stop_id);
    let all = departures(timetable, b, day, ids, ids.len() as int);
    let list = departures_on(timetable, b, day);
    let hashes = route_hashes(timetable, list, b.stop_id);
    lemma_is_listed(timetable, b, day, d);
    let k = list.index_of_first(d)->0;
    list.index_of_first_ensures(d);
    departures_are_sorted(all);
    lemma_in_order(timetable, b, day, ids);
    assert(is_new_route(taken, hashes, k)) by {
        assert forall|j: int| 0 <= j < k implies #[trigger] hashes[j] != hashes[k] by {
            let e = list[j];
            assert(departure_from(timetable, b, day, e.journey_id) == Some(e));
            assert(e != d);
            assert(e.departure_time <= list[k].departure_time);
            if hashes[j] == hashes[k] {
                lemma_listed(timetable, b, day, ids, j);
            }
        }
    }
    k
}

/// The position of a departure that comes before all those of other journeys with the same hash.
proof fn lemma_first_of_its_route(timetable: &Timetable, b: Boarding, day: i32, d: Departure) -> (k:
    int)
    requires
        timetable.operating(day, b.stop_id).contains(d.journey_id),
        departure_from(timetable, b, day, d.journey_id) == Some(d),
        leaves_first(timetable, b, day, d),
    ensures
        0 <= k < departures_on(timetable, b, day).len(),
        departures_on(timetable, b, day)[k] == d,
        is_new_route(
            Set::empty(),
            route_hashes(timetable, departures_on(timetable, b, day), b.stop_id),
            k,
        ),
{
    lemma_new_of_its_route(timetable, b, day, Set::empty(), d)
}

/// No other journey with the same hash for its route from the stop on leaves the stop on the day,
/// in time to be boarded, but after the departure.
pub open spec fn leaves_first(
    timetable: &Timetable,
    b: Boarding,
    day: i32,
    d: Departure,
) -> bool {
    forall|id: i32| #[trigger]
        timetable.operating(day, b.stop_id).contains(id) && id != d.journey_id && hash_of(
            timetable.journey(id)->0.route,
            b.stop_id,
        ) == hash_of(timetable.journey(d.journey_id)->0.route, b.stop_id) ==> (departure_from(
            timetable,
            b,
            day,
            id,
        ) matches Some(e) ==> d.departure_time < e.departure_time)
}

/// No direct journey beats the answer: if a journey leaves the departure stop on the day of the
/// departure, before all others with the hash of its route, and its ride may end at a stop to
/// which there is an answer, then the answer arrives no later than the journey.
pub proof fn direct_journeys_do_not_beat_the_answer(
    timetable: &Timetable,
    departure_stop_id: i32,
    departure_at: i64,
    max_rounds: i32,
    verbose: bool,
    args: RoutingAlgorithmArgs,
    results: Map<i32, Route>,
    journey_id: i32,
    i: int,
)
    requires
        timetable.wf(),
        can_depart(timetable, departure_stop_id, departure_at),
        0 <= max_rounds < i32::MAX,
        may_return(
            timetable,
            departure_stop_id,
            departure_at,
            max_rounds,
            verbose,
            args,
            results,
        ),
        ({
            let b = first_boarding(args, departure_stop_id, departure_at);
            let day = boarding_day(b);
            &&& timetable.operating(day, departure_stop_id).contains(journey_id)
            &&& departure_from(timetable, b, day, journey_id) matches Some(d)
            &&& leaves_first(timetable, b, day, d)
            &&& ride_counts(timetable, b, timetable.journey(journey_id)->0, day, i)
        }),
    ensures
        ({
            let route = timetable.journey(journey_id)->0.route;
            let day = boarding_day(first_boarding(args, departure_stop_id, departure_at));
            let stop_id = route[i].stop_id;
            results.contains_key(stop_id) ==> results[stop_id]@.sections.last().arrival_at
                <= arrival_of(route, stop_id, day as int, departure_stop_id)->0
        }),
{
    let b = first_boarding(args, departure_stop_id, departure_at);
    let day = boarding_day(b);
    let d = departure_from(timetable, b, day, journey_id)->0;
    let t = choose|t: SearchState| #[trigger]
        is_outcome(timetable, args, departure_stop_id, departure_at, max_rounds, t) && are_results(
            t,
            departure_stop_id,
            args,
            results,
        );
    let k = lemma_first_of_its_route(timetable, b, day, d);
    first_journeys_of_a_route_are_taken(
        timetable,
        args,
        departure_stop_id,
        departure_at,
        max_rounds,
        t,
        k,
        i,
    );
}

} // verus!
