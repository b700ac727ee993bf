//! What the lookups in a timetable say, entry by entry.

use crate::calendar::{
    after_minutes, day_after, day_of, hour_of, in_calendar, DAY, HOUR, MAX_DAY, MINUTE, MIN_DAY,
    SECOND,
};
use crate::timetable::{
    applies, arrival_of, departure_of, first_exchange, first_through, hash_of, last_stop, position,
    stops_ahead, ExchangeTime, JourneyView, RouteEntry, StopConnection, StopService, ThroughService,
    Timetable,
};
use vstd::prelude::*;

verus! {

/// The call at position `i` is the first at the stop from position `from` on.
pub open spec fn is_first_call(route: Seq<RouteEntry>, stop_id: i32, from: int, i: int) -> bool {
    &&& 0 <= from <= i < route.len()
    &&& route[i].stop_id == stop_id
    &&& forall|k: int| from <= k < i ==> (#[trigger] route[k]).stop_id != stop_id
}

/// A call at the stop is found if and only if it is the first from the position on.
pub proof fn first_calls_are_found(route: Seq<RouteEntry>, stop_id: i32, from: int)
    requires
        0 <= from,
    ensures
        forall|i: int|
            position(route, stop_id, from) == Some(i) <==> #[trigger] is_first_call(
                route,
                stop_id,
                from,
                i,
            ),
    decreases route.len() - from,
{
    if from < route.len() && route[from].stop_id != stop_id {
        first_calls_are_found(route, stop_id, from + 1);
        assert forall|i: int| position(route, stop_id, from) == Some(i)
            <==> #[trigger] is_first_call(route, stop_id, from, i) by {
            if is_first_call(route, stop_id, from, i) {
                assert(is_first_call(route, stop_id, from + 1, i));
            }
            if position(route, stop_id, from) == Some(i) {
                assert(is_first_call(route, stop_id, from + 1, i));
            }
        }
    } else if from < route.len() {
        assert forall|i: int| position(route, stop_id, from) == Some(i)
            <==> #[trigger] is_first_call(route, stop_id, from, i) by {
            if is_first_call(route, stop_id, from, i) && i > from {
                assert(route[from].stop_id != stop_id);
            }
        }
    }
}

/// A journey leaves a stop at the time of its first call there: on the day, or on the day after it
/// where that time of day comes before that of the first departure. It leaves nowhere else.
pub proof fn departures_are_those_of_first_calls(route: Seq<RouteEntry>, stop_id: i32, day: int)
    ensures
        forall|k: int| #[trigger]
            is_first_call(route, stop_id, 0, k) ==> departure_of(route, stop_id, day) == match (
                route[k].departure_time,
                route[0].departure_time,
            ) {
                (Some(time), Some(first)) => {
                    let on = day + if time < first {
                        1int
                    } else {
                        0
                    };
                    if in_calendar(on) {
                        Some(on * DAY + time * SECOND)
                    } else {
                        None
                    }
                },
                _ => None,
            },
        (forall|k: int| 0 <= k < route.len() ==> (#[trigger] route[k]).stop_id != stop_id)
            ==> departure_of(route, stop_id, day) is None,
{
    first_calls_are_found(route, stop_id, 0);
    if let Some(i) = position(route, stop_id, 0) {
        assert(is_first_call(route, stop_id, 0, i));
        assert(route[i].stop_id == stop_id);
    }
}

/// A journey that leaves `origin` on the day reaches a stop at the time of its first call there
/// after its start: on the day if both times of day come before that of the first departure or
/// neither does, on the day after it if only that of the arrival does, and on the day before it if
/// only that of the departure does. It reaches no stop at which it does not call.
pub proof fn arrivals_are_those_of_later_calls(
    route: Seq<RouteEntry>,
    stop_id: i32,
    day: int,
    origin: i32,
)
    ensures
        forall|i: int, k: int|
            #![trigger is_first_call(route, stop_id, 1, i), is_first_call(route, origin, 0, k)]
            is_first_call(route, stop_id, 1, i) && is_first_call(route, origin, 0, k)
                ==> arrival_of(route, stop_id, day, origin) == match (
                route[i].arrival_time,
                route[k].departure_time,
                route[0].departure_time,
            ) {
                (Some(arrival), Some(departure), Some(first)) => {
                    let on = day + if (arrival < first) == (departure < first) {
                        0int
                    } else if arrival < first {
                        1
                    } else {
                        -1
                    };
                    if in_calendar(on) {
                        Some(on * DAY + arrival * SECOND)
                    } else {
                        None
                    }
                },
                _ => None,
            },
        (forall|i: int| 1 <= i < route.len() ==> (#[trigger] route[i]).stop_id != stop_id)
            ==> arrival_of(route, stop_id, day, origin) is None,
        (forall|k: int| 0 <= k < route.len() ==> (#[trigger] route[k]).stop_id != origin)
            ==> arrival_of(route, stop_id, day, origin) is None,
{
    first_calls_are_found(route, stop_id, 1);
    first_calls_are_found(route, origin, 0);
    if let Some(i) = position(route, stop_id, 1) {
        assert(is_first_call(route, stop_id, 1, i));
        assert(route[i].stop_id == stop_id);
    }
    if let Some(k) = position(route, origin, 0) {
        assert(is_first_call(route, origin, 0, k));
        assert(route[k].stop_id == origin);
    }
}

/// A journey goes on from a stop unless its last call is there; one that ends where it starts goes
/// on from every stop.
pub open spec fn goes_on(route: Seq<RouteEntry>, stop_id: i32) -> bool {
    route.len() > 0 && (route.last().stop_id != stop_id || route.last().stop_id
        == route.first().stop_id)
}

/// The last stop of a journey is that of its last call. Where loops are left out of account, a
/// journey that ends where it starts has none; a journey without calls has none in any case.
pub proof fn last_stops_are_those_of_last_calls(route: Seq<RouteEntry>, stop_id: i32)
    ensures
        last_stop(route, stop_id, true) == Some(false) <==> goes_on(route, stop_id),
        last_stop(route, stop_id, true) == Some(true) <==> route.len() > 0 && !goes_on(
            route,
            stop_id,
        ),
        last_stop(route, stop_id, false) == Some(true) <==> route.len() > 0
            && route.last().stop_id == stop_id,
        last_stop(route, stop_id, false) == Some(false) <==> route.len() > 0
            && route.last().stop_id != stop_id,
{
}

/// Journeys over the same stops from a stop on share the hash of their routes there, in whatever
/// order and however often they call; a journey has one exactly where it calls at the stop.
pub proof fn hashes_are_shared_over_the_same_stops(
    first: Seq<RouteEntry>,
    first_stop_id: i32,
    i: int,
    second: Seq<RouteEntry>,
    second_stop_id: i32,
    k: int,
)
    requires
        is_first_call(first, first_stop_id, 0, i),
        is_first_call(second, second_stop_id, 0, k),
        forall|n: int|
            i <= n < first.len() ==> exists|m: int|
                k <= m < second.len() && (#[trigger] second[m]).stop_id == (
                #[trigger] first[n]).stop_id,
        forall|m: int|
            k <= m < second.len() ==> exists|n: int|
                i <= n < first.len() && (#[trigger] first[n]).stop_id == (
                #[trigger] second[m]).stop_id,
    ensures
        hash_of(first, first_stop_id) is Some,
        hash_of(first, first_stop_id) == hash_of(second, second_stop_id),
{
    first_calls_are_found(first, first_stop_id, 0);
    first_calls_are_found(second, second_stop_id, 0);
    let a = stops_ahead(first, first_stop_id)->0;
    let b = stops_ahead(second, second_stop_id)->0;
    assert forall|x: i32| a.contains(x) == b.contains(x) by {
        if a.contains(x) {
            let n = choose|n: int| i <= n < first.len() && (#[trigger] first[n]).stop_id == x;
            assert(first[n].stop_id == x);
            let m = choose|m: int|
                k <= m < second.len() && (#[trigger] second[m]).stop_id == first[n].stop_id;
            assert(second[m].stop_id == x);
        }
        if b.contains(x) {
            let m = choose|m: int| k <= m < second.len() && (#[trigger] second[m]).stop_id == x;
            assert(second[m].stop_id == x);
            let n = choose|n: int|
                i <= n < first.len() && (#[trigger] first[n]).stop_id == second[m].stop_id;
            assert(first[n].stop_id == x);
        }
    }
    assert(a =~= b);
}

/// A route has no hash from a stop on at which it does not call.
pub proof fn no_hash_without_a_call(route: Seq<RouteEntry>, stop_id: i32)
    requires
        forall|k: int| 0 <= k < route.len() ==> (#[trigger] route[k]).stop_id != stop_id,
    ensures
        hash_of(route, stop_id) is None,
{
    first_calls_are_found(route, stop_id, 0);
    if let Some(i) = position(route, stop_id, 0) {
        assert(is_first_call(route, stop_id, 0, i));
        assert(route[i].stop_id == stop_id);
    }
}

/// The bit field is one of those of the day.
pub open spec fn is_on(timetable: &Timetable, day: i32, bit_field_id: i32) -> bool {
    timetable.bit_fields_by_day@.contains_key(day)
        && timetable.bit_fields_by_day@[day]@.contains(bit_field_id)
}

/// The timetable lists the journey at the stop with a bit field of the day.
pub open spec fn runs(timetable: &Timetable, day: i32, stop_id: i32, journey_id: i32) -> bool {
    timetable.services@.contains_key(stop_id) && exists|n: int|
        0 <= n < timetable.services@[stop_id]@.len() && (
        #[trigger] timetable.services@[stop_id]@[n]).journey_id == journey_id && is_on(
            timetable,
            day,
            timetable.services@[stop_id]@[n].bit_field_id,
        )
}

/// How many of the first `n` services have a bit field of the day.
pub open spec fn count_on(
    timetable: &Timetable,
    day: i32,
    services: Seq<StopService>,
    n: int,
) -> nat
    decreases n,
{
    if n <= 0 {
        0
    } else if is_on(timetable, day, services[n - 1].bit_field_id) {
        count_on(timetable, day, services, n - 1) + 1
    } else {
        count_on(timetable, day, services, n - 1)
    }
}

/// The services that are kept are those with a bit field of the day, in order.
proof fn lemma_kept_in_order(
    timetable: &Timetable,
    day: i32,
    services: Seq<StopService>,
    keep: spec_fn(StopService) -> bool,
    n: int,
)
    requires
        0 <= n <= services.len(),
        forall|s: StopService| #[trigger] keep(s) == is_on(timetable, day, s.bit_field_id),
    ensures
        services.take(n).filter(keep).len() == count_on(timetable, day, services, n),
        forall|k: int|
            0 <= k < n && is_on(timetable, day, (#[trigger] services[k]).bit_field_id) ==> count_on(
                timetable,
                day,
                services,
                k,
            ) < count_on(timetable, day, services, n) && services.take(n).filter(keep)[count_on(
                timetable,
                day,
                services,
                k,
            ) as int] == services[k],
    decreases n,
{
    reveal(Seq::filter);
    if n > 0 {
        lemma_kept_in_order(timetable, day, services, keep, n - 1);
        assert(services.take(n).drop_last() =~= services.take(n - 1));
        assert(services.take(n).last() == services[n - 1]);
        assert(keep(services[n - 1]) == is_on(timetable, day, services[n - 1].bit_field_id));
    }
}

/// The journeys that operate at a stop on a day are those that the timetable lists there with a
/// bit field of the day, each as often as it is listed, and in the order of the list.
pub proof fn operating_journeys_are_those_that_run(timetable: &Timetable, day: i32, stop_id: i32)
    ensures
        forall|id: i32|
            timetable.operating(day, stop_id).contains(id) <==> #[trigger] runs(
                timetable,
                day,
                stop_id,
                id,
            ),
        !timetable.services@.contains_key(stop_id) ==> timetable.operating(day, stop_id).len() == 0,
        timetable.services@.contains_key(stop_id) ==> {
            let services = timetable.services@[stop_id]@;
            &&& timetable.operating(day, stop_id).len() == count_on(
                timetable,
                day,
                services,
                services.len() as int,
            )
            &&& forall|n: int|
                0 <= n < services.len() && is_on(
                    timetable,
                    day,
                    (#[trigger] services[n]).bit_field_id,
                ) ==> timetable.operating(day, stop_id)[count_on(
                    timetable,
                    day,
                    services,
                    n,
                ) as int] == services[n].journey_id
        },
{
    let services = timetable.services_at(stop_id);
    let keep = |s: StopService| timetable.active(day).contains(s.bit_field_id);
    let kept = services.filter(keep);
    let ids = timetable.operating(day, stop_id);
    reveal(Seq::filter);
    lemma_kept_in_order(timetable, day, services, keep, services.len() as int);
    assert(services.take(services.len() as int) =~= services);
    assert forall|id: i32| ids.contains(id) <==> #[trigger] runs(timetable, day, stop_id, id) by {
        if ids.contains(id) {
            let i = choose|i: int| 0 <= i < ids.len() && ids[i] == id;
            services.lemma_filter_pred(keep, i);
            assert(kept.contains(kept[i]));
            services.lemma_filter_contains_rev(keep, kept[i]);
            assert(keep(kept[i]));
            let n = choose|n: int| 0 <= n < services.len() && services[n] == kept[i];
            assert(services[n].journey_id == id);
        }
        if runs(timetable, day, stop_id, id) {
            let n = choose|n: int|
                0 <= n < timetable.services@[stop_id]@.len() && (
                #[trigger] timetable.services@[stop_id]@[n]).journey_id == id && is_on(
                    timetable,
                    day,
                    timetable.services@[stop_id]@[n].bit_field_id,
                );
            let i = count_on(timetable, day, services, n) as int;
            assert(is_on(timetable, day, services[n].bit_field_id));
            assert(ids[i] == id);
        }
    }
}

/// The entry names the two journeys, by their legacy ids and administrations.
pub open spec fn names(entry: ThroughService, first: JourneyView, second: JourneyView) -> bool {
    (entry.legacy_id_1, entry.administration_1@, entry.legacy_id_2, entry.administration_2@) == (
        first.legacy_id,
        first.administration,
        second.legacy_id,
        second.administration,
    )
}

/// The entry at position `n` is the first that names the two journeys.
pub open spec fn is_first_to_name(
    entries: Seq<ThroughService>,
    first: JourneyView,
    second: JourneyView,
    n: int,
) -> bool {
    &&& 0 <= n < entries.len()
    &&& names(entries[n], first, second)
    &&& forall|m: int| 0 <= m < n ==> !names(#[trigger] entries[m], first, second)
}

/// Passengers stay on board between two journeys at a stop on a day if and only if the first entry
/// of the stop that names them has a bit field of the day.
pub proof fn through_services_are_listed(
    timetable: &Timetable,
    day: i32,
    first: JourneyView,
    second: JourneyView,
    stop_id: i32,
)
    ensures
        timetable.is_through(day, first, second, stop_id) <==> {
            &&& timetable.through_services@.contains_key(stop_id)
            &&& exists|n: int| #[trigger]
                is_first_to_name(timetable.through_services@[stop_id]@, first, second, n) && is_on(
                    timetable,
                    day,
                    timetable.through_services@[stop_id]@[n].bit_field_id,
                )
        },
{
    if timetable.through_services@.contains_key(stop_id) {
        let entries = timetable.through_services@[stop_id]@;
        lemma_first_through(entries, first, second, 0);
        if let Some(b) = first_through(entries, first, second, 0) {
            let n = choose|n: int|
                0 <= n < entries.len() && names(#[trigger] entries[n], first, second)
                    && entries[n].bit_field_id == b && forall|m: int|
                    0 <= m < n ==> !names(#[trigger] entries[m], first, second);
            assert(is_first_to_name(entries, first, second, n));
            assert forall|m: int| is_first_to_name(entries, first, second, m) implies m == n by {
                assert(names(entries[m], first, second));
            }
        }
    }
}

/// The first entry that joins the journeys, if there is one.
proof fn lemma_first_through(
    entries: Seq<ThroughService>,
    first: JourneyView,
    second: JourneyView,
    from: int,
)
    requires
        0 <= from,
    ensures
        match first_through(entries, first, second, from) {
            Some(b) => exists|n: int|
                from <= n < entries.len() && names(#[trigger] entries[n], first, second)
                    && entries[n].bit_field_id == b && forall|m: int|
                    from <= m < n ==> !names(#[trigger] entries[m], first, second),
            None => forall|n: int|
                from <= n < entries.len() ==> !names(#[trigger] entries[n], first, second),
        },
    decreases entries.len() - from,
{
    if from < entries.len() {
        assert(names(entries[from], first, second) == entries[from].joins(first, second));
        if !entries[from].joins(first, second) {
            lemma_first_through(entries, first, second, from + 1);
            if let Some(b) = first_through(entries, first, second, from + 1) {
                let n = choose|n: int|
                    from + 1 <= n < entries.len() && names(#[trigger] entries[n], first, second)
                        && entries[n].bit_field_id == b && forall|m: int|
                        from + 1 <= m < n ==> !names(#[trigger] entries[m], first, second);
                assert(names(entries[n], first, second));
            }
        }
    }
}

/// Everything that the entry gives, the change has: the legacy ids, the administrations, two
/// InterCity journeys, and a bit field of the day.
pub open spec fn concerns(
    timetable: &Timetable,
    entry: ExchangeTime,
    from: JourneyView,
    to: JourneyView,
    day: i32,
) -> bool {
    &&& entry.legacy_ids is None || entry.legacy_ids == Some((from.legacy_id, to.legacy_id))
    &&& match entry.administrations {
        Some(names) => (names.0@, names.1@) == (from.administration, to.administration),
        None => true,
    }
    &&& !entry.intercity || (from.intercity && to.intercity)
    &&& match entry.bit_field_id {
        Some(b) => is_on(timetable, day, b),
        None => true,
    }
}

/// The entry at position `n` is the first that concerns the change.
pub open spec fn is_first_of(
    timetable: &Timetable,
    entries: Seq<ExchangeTime>,
    from: JourneyView,
    to: JourneyView,
    day: i32,
    n: int,
) -> bool {
    &&& 0 <= n < entries.len()
    &&& concerns(timetable, entries[n], from, to, day)
    &&& forall|m: int| 0 <= m < n ==> !concerns(timetable, #[trigger] entries[m], from, to, day)
}

/// No entry concerns the change.
pub open spec fn none_concerns(
    timetable: &Timetable,
    entries: Seq<ExchangeTime>,
    from: JourneyView,
    to: JourneyView,
    day: i32,
) -> bool {
    forall|m: int|
        0 <= m < entries.len() ==> !concerns(timetable, #[trigger] entries[m], from, to, day)
}

/// A change takes the minutes of the first entry of the stop that concerns it; where there is none,
/// those of the first entry of all stops that does; and where there is none either, the default.
pub proof fn changes_take_the_minutes_of_the_first_entry(
    timetable: &Timetable,
    stop_id: i32,
    from: JourneyView,
    to: JourneyView,
    day: i32,
)
    ensures
        ({
            let minutes = timetable.exchange_minutes(stop_id, from, to, day);
            let own = timetable.exchange_times_by_stop@[stop_id]@;
            let all = timetable.exchange_times@;
            let listed = timetable.exchange_times_by_stop@.contains_key(stop_id);
            let none_here = !listed || none_concerns(timetable, own, from, to, day);
            &&& forall|n: int|
                listed && #[trigger] is_first_of(timetable, own, from, to, day, n) ==> minutes
                    == own[n].duration
            &&& forall|n: int|
                none_here && #[trigger] is_first_of(timetable, all, from, to, day, n) ==> minutes
                    == all[n].duration
            &&& none_here && none_concerns(timetable, all, from, to, day) ==> minutes
                == timetable.default_exchange_time
        }),
{
    let own = timetable.exchange_times_by_stop@[stop_id]@;
    lemma_first_exchange(timetable, own, from, to, day, 0);
    lemma_first_exchange(timetable, timetable.exchange_times@, from, to, day, 0);
}

/// The duration of the first entry that concerns the change, if there is one.
proof fn lemma_first_exchange(
    timetable: &Timetable,
    entries: Seq<ExchangeTime>,
    from: JourneyView,
    to: JourneyView,
    day: i32,
    from_index: int,
)
    requires
        0 <= from_index,
    ensures
        ({
            let found = first_exchange(entries, from, to, timetable.active(day), from_index);
            &&& forall|n: int|
                from_index <= n < entries.len() && concerns(
                    timetable,
                    #[trigger] entries[n],
                    from,
                    to,
                    day,
                ) && (forall|m: int|
                    from_index <= m < n ==> !concerns(
                        timetable,
                        #[trigger] entries[m],
                        from,
                        to,
                        day,
                    )) ==> found == Some(entries[n].duration)
            &&& (forall|m: int|
                from_index <= m < entries.len() ==> !concerns(
                    timetable,
                    #[trigger] entries[m],
                    from,
                    to,
                    day,
                )) ==> found is None
        }),
    decreases entries.len() - from_index,
{
    if from_index < entries.len() {
        assert(concerns(timetable, entries[from_index], from, to, day) == applies(
            entries[from_index],
            from,
            to,
            timetable.active(day),
        ));
        if !applies(entries[from_index], from, to, timetable.active(day)) {
            lemma_first_exchange(timetable, entries, from, to, day, from_index + 1);
        }
    }
}

/// The walks from a stop are those that the timetable lists there; a stop without a list has none.
pub proof fn walks_are_listed(timetable: &Timetable, stop_id: i32)
    ensures
        timetable.stop_connections@.contains_key(stop_id) ==> timetable.connections(stop_id)
            == timetable.stop_connections@[stop_id]@,
        !timetable.stop_connections@.contains_key(stop_id) ==> timetable.connections(stop_id)
            == Seq::<StopConnection>::empty(),
{
}

/// Journeys are changed at the stops of the timetable whose exchange flag is not zero.
pub proof fn exchange_points_have_a_flag(timetable: &Timetable, stop_id: i32)
    ensures
        timetable.is_exchange_point(stop_id) <==> timetable.stops@.contains_key(stop_id)
            && timetable.stops@[stop_id].exchange_flag != 0,
{
}

/// The day and the hour of an instant are those in whose span it lies.
pub proof fn instants_lie_in_their_hour(time: int)
    ensures
        0 <= hour_of(time) < 24,
        day_of(time) * DAY + hour_of(time) * HOUR <= time,
        time < day_of(time) * DAY + (hour_of(time) + 1) * HOUR,
{
}

/// An hour has 60 minutes of 60 seconds, and a day 24 hours; minutes are added as such, and the day
/// after a day is the next, but for the last of the calendar.
pub proof fn minutes_and_days_are_counted(time: int, minutes: int, day: int)
    ensures
        DAY == 24 * HOUR && HOUR == 60 * MINUTE && MINUTE == 60 * SECOND && SECOND == 1_000_000,
        after_minutes(time, minutes) == time + minutes * 60_000_000,
        day != MAX_DAY ==> day_after(day) == day + 1,
        day_after(MAX_DAY as int) == MAX_DAY,
{
}

/// A timetable is as it has to be if and only if its journeys are filed under their ids, with times
/// of day, and its days leave room for the longest rides, walks and changes.
pub proof fn timetables_file_journeys_under_their_ids(timetable: &Timetable)
    ensures
        timetable.wf() <==> {
            &&& forall|id: i32|
                timetable.journeys@.contains_key(id) ==> (
                #[trigger] timetable.journeys@[id])@.id == id
            &&& forall|id: i32, i: int|
                timetable.journeys@.contains_key(id) && 0 <= i
                    < timetable.journeys@[id]@.route.len() ==> {
                    let call = #[trigger] timetable.journeys@[id]@.route[i];
                    &&& call.arrival_time is None || call.arrival_time->0 < 86_400
                    &&& call.departure_time is None || call.departure_time->0 < 86_400
                }
            &&& forall|day: i32| #[trigger]
                timetable.bit_fields_by_day@.contains_key(day) ==> MIN_DAY + 24 <= day <= MAX_DAY
                    - 24
        },
{
    if timetable.wf() {
        assert forall|id: i32, i: int|
            timetable.journeys@.contains_key(id) && 0 <= i
                < timetable.journeys@[id]@.route.len() implies {
            let call = #[trigger] timetable.journeys@[id]@.route[i];
            &&& call.arrival_time is None || call.arrival_time->0 < 86_400
            &&& call.departure_time is None || call.departure_time->0 < 86_400
        } by {
            assert(timetable.journeys@[id]@.wf());
            assert(timetable.journeys@[id]@.route[i].wf());
        }
    } else {
        if exists|id: i32|
            timetable.journeys@.contains_key(id) && !(#[trigger] timetable.journeys@[id])@.wf() {
            let id = choose|id: i32|
                timetable.journeys@.contains_key(id) && !(#[trigger] timetable.journeys@[id])@.wf();
            let i = choose|i: int|
                0 <= i < timetable.journeys@[id]@.route.len() && !(
                #[trigger] timetable.journeys@[id]@.route[i]).wf();
            let call = timetable.journeys@[id]@.route[i];
            assert(!call.wf());
        }
    }
}

} // verus!
