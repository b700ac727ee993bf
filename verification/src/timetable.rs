//! The timetable that the router searches.
//!
//! Everything the router reads is held as plain values. A journey also keeps the `Journey` of
//! `hrdf_parser` that was built from those values, and asks it for its times of arrival and
//! departure.

use crate::calendar::{date, day_of, in_calendar, is_instant, DAY, SECOND};
use crate::fx::{lists, map_get, map_keys, set_contains};
use chrono::{NaiveDate, NaiveTime};
use hrdf_parser::{Journey, JourneyRouteEntry};
use rustc_hash::{FxHashMap, FxHashSet};
use vstd::prelude::*;

verus! {

/// Seconds in a day.
pub const SECONDS_PER_DAY: u32 = 86_400;

/// A call of a journey at a stop. The times are seconds from midnight; the first call of a
/// journey has no arrival and the last no departure.
#[derive(Clone, Copy, Debug, PartialEq, Eq, Structural)]
pub struct RouteEntry {
    pub stop_id: i32,
    pub arrival_time: Option<u32>,
    pub departure_time: Option<u32>,
}

impl RouteEntry {
    /// The times that are given are times of day.
    pub open spec fn wf(self) -> bool {
        &&& self.arrival_time matches Some(t) ==> t < SECONDS_PER_DAY
        &&& self.departure_time matches Some(t) ==> t < SECONDS_PER_DAY
    }
}

/// The first position from `from` on at which the route calls at `stop_id`.
pub open spec fn position(route: Seq<RouteEntry>, stop_id: i32, from: int) -> Option<int>
    decreases route.len() - from,
{
    if from >= route.len() {
        None
    } else if route[from].stop_id == stop_id {
        Some(from)
    } else {
        position(route, stop_id, from + 1)
    }
}

/// The instant at which a time of day falls on `day`, if the day is in the calendar.
pub open spec fn instant_on(day: int, time: u32) -> Option<int> {
    if in_calendar(day) {
        Some(day * DAY + time * SECOND)
    } else {
        None
    }
}

/// Whether `stop_id` is the last stop of the route. A route that ends where it started has no
/// last stop if `ignore_loop` is set. `None` if the route is empty.
pub open spec fn last_stop(route: Seq<RouteEntry>, stop_id: i32, ignore_loop: bool) -> Option<
    bool,
> {
    if route.len() == 0 {
        None
    } else if ignore_loop && route[0].stop_id == route.last().stop_id {
        Some(false)
    } else {
        Some(stop_id == route.last().stop_id)
    }
}

/// A position that was found lies on the route and is a call at the stop.
pub proof fn lemma_position(route: Seq<RouteEntry>, stop_id: i32, from: int)
    requires
        0 <= from,
    ensures
        position(route, stop_id, from) matches Some(i) ==> {
            &&& from <= i < route.len()
            &&& route[i].stop_id == stop_id
        },
        position(route, stop_id, from) is None ==> forall|k: int|
            from <= k < route.len() ==> (#[trigger] route[k]).stop_id != stop_id,
    decreases route.len() - from,
{
    if from < route.len() && route[from].stop_id != stop_id {
        lemma_position(route, stop_id, from + 1);
    }
}

/// When the journey leaves `stop_id` if it left its first stop on `day`. A time of day before
/// that of the first departure belongs to the following day.
pub open spec fn departure_of(route: Seq<RouteEntry>, stop_id: i32, day: int) -> Option<int> {
    match position(route, stop_id, 0) {
        Some(i) => match (route[i].departure_time, route[0].departure_time) {
            (Some(departure), Some(first)) => instant_on(
                if departure < first {
                    day + 1
                } else {
                    day
                },
                departure,
            ),
            _ => None,
        },
        None => None,
    }
}

/// When the journey reaches `stop_id` if `day` is the day on which it leaves `origin`.
pub open spec fn arrival_of(
    route: Seq<RouteEntry>,
    stop_id: i32,
    day: int,
    origin: i32,
) -> Option<int> {
    match (position(route, stop_id, 1), position(route, origin, 0)) {
        (Some(i), Some(k)) => match (
            route[i].arrival_time,
            route[k].departure_time,
            route[0].departure_time,
        ) {
            (Some(arrival), Some(departure), Some(first)) => instant_on(
                if arrival < first && departure >= first {
                    day + 1
                } else if arrival >= first && departure < first {
                    day - 1
                } else {
                    day
                },
                arrival,
            ),
            _ => None,
        },
        _ => None,
    }
}

/// The calls that a `Journey` of `hrdf_parser` holds, in order, with their times in seconds.
pub uninterp spec fn journey_route(journey: Journey) -> Seq<RouteEntry>;

/// The times of the calls that a `Journey` of `hrdf_parser` holds are whole seconds, as all times
/// of an HRDF timetable are.
pub uninterp spec fn has_whole_seconds(journey: Journey) -> bool;

/// The id, the legacy id and the administration that a `Journey` of `hrdf_parser` was made with.
pub uninterp spec fn journey_identity(journey: Journey) -> (i32, i32, Seq<char>);

/// A journey of `hrdf_parser`.
#[verifier::external_type_specification]
#[verifier::external_body]
pub struct ExJourney(Journey);

/// Calls `Journey::new`: a journey with the given identity and no calls.
#[verifier::external_body]
fn new_journey(id: i32, legacy_id: i32, administration: String) -> (r: Journey)
    ensures
        journey_route(r) == Seq::<RouteEntry>::empty(),
        has_whole_seconds(r),
        journey_identity(r) == (id, legacy_id, administration@),
{
    Journey::new(id, legacy_id, administration)
}

/// Calls `Journey::add_route_entry`: the call is added at the end.
#[verifier::external_body]
fn add_route_entry(journey: &mut Journey, entry: RouteEntry)
    requires
        entry.wf(),
    ensures
        journey_route(*final(journey)) == journey_route(*old(journey)).push(entry),
        has_whole_seconds(*old(journey)) ==> has_whole_seconds(*final(journey)),
        journey_identity(*final(journey)) == journey_identity(*old(journey)),
{
    let time = |t: u32| NaiveTime::from_num_seconds_from_midnight_opt(t, 0).unwrap();
    journey.add_route_entry(
        JourneyRouteEntry::new(
            entry.stop_id,
            entry.arrival_time.map(time),
            entry.departure_time.map(time),
        ),
    );
}

/// Calls `Journey::is_last_stop`, with `None` for its error, which is that of a journey without
/// calls.
#[verifier::external_body]
fn is_last_stop(journey: &Journey, stop_id: i32, ignore_loop: bool) -> (r: Option<bool>)
    ensures
        r == last_stop(journey_route(*journey), stop_id, ignore_loop),
{
    journey.is_last_stop(stop_id, ignore_loop).ok()
}

/// Calls `Journey::departure_at_of`, with `None` for its error: the journey does not call at the
/// stop, a departure time that is needed is missing, or the day lies outside the calendar.
#[verifier::external_body]
fn departure_at_of(journey: &Journey, stop_id: i32, day: i32) -> (r: Option<i64>)
    requires
        has_whole_seconds(*journey),
        in_calendar(day as int),
    ensures
        r is Some <==> departure_of(journey_route(*journey), stop_id, day as int) is Some,
        r matches Some(t) ==> departure_of(journey_route(*journey), stop_id, day as int) == Some(
            t as int,
        ),
{
    let date = NaiveDate::from_epoch_days(day).unwrap();
    journey.departure_at_of(stop_id, date).ok().map(|t| t.and_utc().timestamp_micros())
}

/// Calls `Journey::arrival_at_of_with_origin` with the day of the departure from the origin, with
/// `None` for its error: the journey does not call at one of the stops, a time that is needed is
/// missing, or the day lies outside the calendar.
#[verifier::external_body]
fn arrival_at_of_with_origin(
    journey: &Journey,
    stop_id: i32,
    day: i32,
    origin_stop_id: i32,
) -> (r: Option<i64>)
    requires
        has_whole_seconds(*journey),
        in_calendar(day as int),
    ensures
        r is Some <==> arrival_of(journey_route(*journey), stop_id, day as int, origin_stop_id)
            is Some,
        r matches Some(t) ==> arrival_of(
            journey_route(*journey),
            stop_id,
            day as int,
            origin_stop_id,
        ) == Some(t as int),
{
    let date = NaiveDate::from_epoch_days(day).unwrap();
    let arrival = journey.arrival_at_of_with_origin(stop_id, date, true, origin_stop_id);
    arrival.ok().map(|t| t.and_utc().timestamp_micros())
}

/// The stops at which the route calls from its first call at `stop_id` on, if it calls there.
pub open spec fn stops_ahead(route: Seq<RouteEntry>, stop_id: i32) -> Option<Set<i32>> {
    match position(route, stop_id, 0) {
        Some(i) => Some(
            Set::new(
                |x: i32|
                    exists|k: int| i <= k < route.len() && (#[trigger] route[k]).stop_id == x,
            ),
        ),
        None => None,
    }
}

/// Declares `Journey::hash_route`, so that contracts can speak of what it returns: a hash if and
/// only if the journey calls at the stop.
pub assume_specification[ Journey::hash_route ](
    journey: &Journey,
    departure_stop_id: i32,
) -> (r: Option<u64>)
    ensures
        r is Some <==> stops_ahead(journey_route(*journey), departure_stop_id) is Some,
;

/// `Journey::hash_route` may return the hash for a journey with these stops ahead.
pub open spec fn is_route_hash(stops: Set<i32>, hash: u64) -> bool {
    exists|journey: Journey, stop_id: i32|
        stops_ahead(journey_route(journey), stop_id) == Some(stops) && #[trigger] call_ensures(
            Journey::hash_route,
            (&journey, stop_id),
            Some(hash),
        )
}

/// The hash that `Journey::hash_route` returns, as this program runs it, for journeys with these
/// stops ahead. Which number it is rests on the hasher of the standard library and on the machine,
/// and nothing is said of it.
pub open spec fn route_hash(stops: Set<i32>) -> u64 {
    choose|hash: u64| is_route_hash(stops, hash)
}

/// The hash of the route from the stop on, if the route calls there.
pub open spec fn hash_of(route: Seq<RouteEntry>, stop_id: i32) -> Option<u64> {
    match stops_ahead(route, stop_id) {
        Some(stops) => Some(route_hash(stops)),
        None => None,
    }
}

/// Calls `Journey::hash_route`: what it returns is made from the set of stops ahead alone, by a
/// hasher without a seed, so that within a program the journeys with the same stops ahead get the
/// same hash.
#[verifier::external_body]
fn hash_route(journey: &Journey, departure_stop_id: i32) -> (r: Option<u64>)
    ensures
        r == hash_of(journey_route(*journey), departure_stop_id),
{
    journey.hash_route(departure_stop_id)
}

/// A departure lies on the day or the day after it, in the calendar.
pub proof fn lemma_departure_day(journey: JourneyView, stop_id: i32, day: int)
    requires
        journey.wf(),
    ensures
        departure_of(journey.route, stop_id, day) matches Some(t) ==> {
            &&& is_instant(t)
            &&& day * DAY <= t < (day + 2) * DAY
            &&& position(journey.route, stop_id, 0) is Some
        },
{
    lemma_position(journey.route, stop_id, 0);
}

/// An arrival lies on the day, the day before or the day after it, in the calendar.
pub proof fn lemma_arrival_day(journey: JourneyView, stop_id: i32, day: int, origin: i32)
    requires
        journey.wf(),
    ensures
        arrival_of(journey.route, stop_id, day, origin) matches Some(t) ==> {
            &&& is_instant(t)
            &&& (day - 1) * DAY <= t < (day + 2) * DAY
        },
{
    lemma_position(journey.route, stop_id, 1);
    lemma_position(journey.route, origin, 0);
}

/// What a journey is made of.
pub struct JourneyView {
    pub id: i32,
    pub legacy_id: i32,
    pub administration: Seq<char>,
    pub intercity: bool,
    pub route: Seq<RouteEntry>,
}

impl JourneyView {
    /// The times of the calls are times of day.
    pub open spec fn wf(self) -> bool {
        forall|i: int| 0 <= i < self.route.len() ==> (#[trigger] self.route[i]).wf()
    }
}

/// A journey of the timetable.
#[derive(Debug)]
pub struct TransitJourney {
    id: i32,
    legacy_id: i32,
    administration: String,
    intercity: bool,
    route: Vec<RouteEntry>,
    journey: Journey,
}

impl View for TransitJourney {
    type V = JourneyView;

    /// What the journey was made of. The invariant ties the `Journey` of `hrdf_parser` to it.
    closed spec fn view(&self) -> JourneyView {
        JourneyView {
            id: self.id,
            legacy_id: self.legacy_id,
            administration: self.administration@,
            intercity: self.intercity,
            route: self.route@,
        }
    }
}

impl TransitJourney {
    #[verifier::type_invariant]
    spec fn inv(self) -> bool {
        &&& journey_route(self.journey) == self.route@
        &&& has_whole_seconds(self.journey)
        &&& journey_identity(self.journey) == (self.id, self.legacy_id, self.administration@)
        &&& self@.wf()
    }

    /// A journey that calls at the stops of `route` in order.
    pub fn new(
        id: i32,
        legacy_id: i32,
        administration: String,
        intercity: bool,
        route: Vec<RouteEntry>,
    ) -> (r: Self)
        requires
            forall|i: int| 0 <= i < route@.len() ==> (#[trigger] route@[i]).wf(),
        ensures
            r@ == (JourneyView {
                id,
                legacy_id,
                administration: administration@,
                intercity,
                route: route@,
            }),
    {
        let mut journey = new_journey(id, legacy_id, administration.clone());
        let mut i: usize = 0;
        while i < route.len()
            invariant
                i <= route@.len(),
                forall|k: int| 0 <= k < route@.len() ==> (#[trigger] route@[k]).wf(),
                journey_route(journey) == route@.take(i as int),
                has_whole_seconds(journey),
                journey_identity(journey) == (id, legacy_id, administration@),
            decreases route@.len() - i,
        {
            assert(route@.take(i + 1) =~= route@.take(i as int).push(route@[i as int]));
            add_route_entry(&mut journey, route[i]);
            i += 1;
        }
        assert(route@.take(i as int) =~= route@);
        TransitJourney { id, legacy_id, administration, intercity, route, journey }
    }

    pub fn id(&self) -> (r: i32)
        ensures
            r == self@.id,
    {
        self.id
    }

    pub fn legacy_id(&self) -> (r: i32)
        ensures
            r == self@.legacy_id,
    {
        self.legacy_id
    }

    pub fn administration(&self) -> (r: &String)
        ensures
            r@ == self@.administration,
    {
        &self.administration
    }

    pub fn intercity(&self) -> (r: bool)
        ensures
            r == self@.intercity,
    {
        self.intercity
    }

    pub fn route(&self) -> (r: &Vec<RouteEntry>)
        ensures
            r@ == self@.route,
    {
        &self.route
    }

    /// Whether the journey ends at `stop_id`; `None` for a journey without calls.
    pub fn is_last_stop(&self, stop_id: i32, ignore_loop: bool) -> (r: Option<bool>)
        ensures
            r == last_stop(self@.route, stop_id, ignore_loop),
    {
        proof {
            use_type_invariant(self);
        }
        is_last_stop(&self.journey, stop_id, ignore_loop)
    }

    /// When the journey that starts on `day` leaves `stop_id`.
    pub fn departure_at_of(&self, stop_id: i32, day: i32) -> (r: Option<i64>)
        requires
            in_calendar(day as int),
        ensures
            r is Some <==> departure_of(self@.route, stop_id, day as int) is Some,
            r matches Some(t) ==> is_instant(t as int) && departure_of(
                self@.route,
                stop_id,
                day as int,
            ) == Some(t as int),
    {
        proof {
            use_type_invariant(self);
            lemma_departure_day(self@, stop_id, day as int);
        }
        departure_at_of(&self.journey, stop_id, day)
    }

    /// When the journey that leaves `origin_stop_id` on `day` reaches `stop_id`.
    pub fn arrival_at_of_with_origin(
        &self,
        stop_id: i32,
        day: i32,
        origin_stop_id: i32,
    ) -> (r: Option<i64>)
        requires
            in_calendar(day as int),
        ensures
            r is Some <==> arrival_of(self@.route, stop_id, day as int, origin_stop_id) is Some,
            r matches Some(t) ==> arrival_of(self@.route, stop_id, day as int, origin_stop_id)
                == Some(t as int),
    {
        proof {
            use_type_invariant(self);
        }
        arrival_at_of_with_origin(&self.journey, stop_id, day, origin_stop_id)
    }

    /// A hash of the set of stops from `departure_stop_id` on, which journeys over the same
    /// stops share; `None` if the journey does not call there.
    pub fn hash_route(&self, departure_stop_id: i32) -> (r: Option<u64>)
        ensures
            r == hash_of(self@.route, departure_stop_id),
    {
        proof {
            use_type_invariant(self);
        }
        hash_route(&self.journey, departure_stop_id)
    }
}

/// A stop. A stop whose exchange flag is not zero can be used to change between journeys.
#[derive(Clone, Copy, Debug)]
pub struct Stop {
    pub exchange_flag: i16,
}

impl Stop {
    pub open spec fn is_exchange_point(self) -> bool {
        self.exchange_flag != 0
    }

    pub fn can_be_used_as_exchange_point(&self) -> (r: bool)
        ensures
            r == self.is_exchange_point(),
    {
        self.exchange_flag != 0
    }
}

/// A walk to another stop, with its duration in minutes.
#[derive(Clone, Copy, Debug)]
pub struct StopConnection {
    pub stop_id_2: i32,
    pub duration: i16,
}

/// A journey that calls at a stop, on the days on which the bit field is active.
#[derive(Clone, Copy, Debug)]
pub struct StopService {
    pub bit_field_id: i32,
    pub journey_id: i32,
}

/// Passengers of the first journey may stay on board at its last stop, and travel on as the
/// second, on the days on which the bit field is active.
#[derive(Debug)]
pub struct ThroughService {
    pub legacy_id_1: i32,
    pub administration_1: String,
    pub legacy_id_2: i32,
    pub administration_2: String,
    pub bit_field_id: i32,
}

impl ThroughService {
    /// The entry leads from the first journey to the second.
    pub open spec fn joins(self, first: JourneyView, second: JourneyView) -> bool {
        &&& self.legacy_id_1 == first.legacy_id
        &&& self.administration_1@ == first.administration
        &&& self.legacy_id_2 == second.legacy_id
        &&& self.administration_2@ == second.administration
    }
}

/// The minutes that a change of journeys takes. What is not given, any journey and any day has.
#[derive(Debug)]
pub struct ExchangeTime {
    /// The legacy ids of the journeys that are left and boarded.
    pub legacy_ids: Option<(i32, i32)>,
    /// Their administrations.
    pub administrations: Option<(String, String)>,
    /// Only between two InterCity journeys.
    pub intercity: bool,
    /// Only on the days on which the bit field is active.
    pub bit_field_id: Option<i32>,
    pub duration: i16,
}

/// The first day on which a journey may start: the days before it have room for every change and
/// every walk of a negative duration.
pub const FIRST_SERVICE_DAY: i32 = -96_465_268;

/// The last day on which a journey may start: the days that follow hold every ride that starts
/// by then, and the longest walk or change after it.
pub const LAST_SERVICE_DAY: i32 = 95_026_212;

/// A timetable. Days are counted as in `calendar`, and the keys of the maps are stop ids, journey
/// ids and days.
#[derive(Debug)]
pub struct Timetable {
    pub stops: FxHashMap<i32, Stop>,
    /// The walks that start at a stop.
    pub stop_connections: FxHashMap<i32, Vec<StopConnection>>,
    pub journeys: FxHashMap<i32, TransitJourney>,
    /// The journeys that call at a stop.
    pub services: FxHashMap<i32, Vec<StopService>>,
    /// The bit fields that are active on a day.
    pub bit_fields_by_day: FxHashMap<i32, FxHashSet<i32>>,
    /// The through services at a stop.
    pub through_services: FxHashMap<i32, Vec<ThroughService>>,
    /// The exchange times at a stop, the more specific first.
    pub exchange_times_by_stop: FxHashMap<i32, Vec<ExchangeTime>>,
    /// The exchange times where no entry of the stop itself applies, the more specific first.
    pub exchange_times: Vec<ExchangeTime>,
    /// The exchange time in minutes where no entry applies.
    pub default_exchange_time: i16,
}

/// The entry applies to a change from one journey to another on a day whose active bit fields
/// are `active`.
pub open spec fn applies(
    entry: ExchangeTime,
    from: JourneyView,
    to: JourneyView,
    active: Set<i32>,
) -> bool {
    &&& entry.legacy_ids matches Some((a, b)) ==> a == from.legacy_id && b == to.legacy_id
    &&& entry.administrations matches Some((a, b)) ==> a@ == from.administration && b@
        == to.administration
    &&& entry.intercity ==> from.intercity && to.intercity
    &&& entry.bit_field_id matches Some(b) ==> active.contains(b)
}

/// The duration of the first entry from position `from_index` on that applies.
pub open spec fn first_exchange(
    entries: Seq<ExchangeTime>,
    from: JourneyView,
    to: JourneyView,
    active: Set<i32>,
    from_index: int,
) -> Option<i16>
    decreases entries.len() - from_index,
{
    if from_index >= entries.len() {
        None
    } else if applies(entries[from_index], from, to, active) {
        Some(entries[from_index].duration)
    } else {
        first_exchange(entries, from, to, active, from_index + 1)
    }
}

/// The bit field of the first entry from position `from_index` on that joins the journeys.
pub open spec fn first_through(
    entries: Seq<ThroughService>,
    first: JourneyView,
    second: JourneyView,
    from_index: int,
) -> Option<i32>
    decreases entries.len() - from_index,
{
    if from_index >= entries.len() {
        None
    } else if entries[from_index].joins(first, second) {
        Some(entries[from_index].bit_field_id)
    } else {
        first_through(entries, first, second, from_index + 1)
    }
}

impl Timetable {
    /// The journeys are filed under their ids, their times are times of day, and they start on
    /// service days.
    pub open spec fn wf(&self) -> bool {
        &&& forall|id: i32| #[trigger]
            self.journeys@.contains_key(id) ==> self.journeys@[id]@.id == id
                && self.journeys@[id]@.wf()
        &&& forall|day: i32| #[trigger]
            self.bit_fields_by_day@.contains_key(day) ==> FIRST_SERVICE_DAY <= day
                <= LAST_SERVICE_DAY
    }

    /// The stop is known.
    pub open spec fn has_stop(&self, stop_id: i32) -> bool {
        self.stops@.contains_key(stop_id)
    }

    /// The stop is known, and journeys can be changed there.
    pub open spec fn is_exchange_point(&self, stop_id: i32) -> bool {
        self.stops@.contains_key(stop_id) && self.stops@[stop_id].is_exchange_point()
    }

    /// The walks from a stop; none from a stop without an entry.
    pub open spec fn connections(&self, stop_id: i32) -> Seq<StopConnection> {
        if self.stop_connections@.contains_key(stop_id) {
            self.stop_connections@[stop_id]@
        } else {
            Seq::empty()
        }
    }

    /// The journey with the id, if there is one.
    pub open spec fn journey(&self, journey_id: i32) -> Option<JourneyView> {
        if self.journeys@.contains_key(journey_id) {
            Some(self.journeys@[journey_id]@)
        } else {
            None
        }
    }

    /// The bit fields that are active on a day; none on a day outside the timetable.
    pub open spec fn active(&self, day: i32) -> Set<i32> {
        if self.bit_fields_by_day@.contains_key(day) {
            self.bit_fields_by_day@[day]@
        } else {
            Set::empty()
        }
    }

    /// The services at a stop; none at a stop without an entry.
    pub open spec fn services_at(&self, stop_id: i32) -> Seq<StopService> {
        if self.services@.contains_key(stop_id) {
            self.services@[stop_id]@
        } else {
            Seq::empty()
        }
    }

    /// The journeys that call at a stop and whose bit field is active on the day.
    pub open spec fn operating(&self, day: i32, stop_id: i32) -> Seq<i32> {
        self.services_at(stop_id).filter(
            |s: StopService| self.active(day).contains(s.bit_field_id),
        ).map_values(|s: StopService| s.journey_id)
    }

    /// Passengers may stay on board between the two journeys at the stop on the day.
    pub open spec fn is_through(
        &self,
        day: i32,
        first: JourneyView,
        second: JourneyView,
        stop_id: i32,
    ) -> bool {
        &&& self.through_services@.contains_key(stop_id)
        &&& first_through(self.through_services@[stop_id]@, first, second, 0) matches Some(b)
        &&& self.active(day).contains(b)
    }

    /// The minutes that a change at the stop takes for a departure on the day: the first entry of
    /// the stop that applies, else the first entry of all stops, else the default.
    pub open spec fn exchange_minutes(
        &self,
        stop_id: i32,
        from: JourneyView,
        to: JourneyView,
        day: i32,
    ) -> i16 {
        let own = if self.exchange_times_by_stop@.contains_key(stop_id) {
            first_exchange(
                self.exchange_times_by_stop@[stop_id]@,
                from,
                to,
                self.active(day),
                0,
            )
        } else {
            None
        };
        match own {
            Some(minutes) => minutes,
            None => match first_exchange(self.exchange_times@, from, to, self.active(day), 0) {
                Some(minutes) => minutes,
                None => self.default_exchange_time,
            },
        }
    }

    /// Whether the journeys are filed under their ids and start on service days.
    pub fn is_valid(&self) -> (r: bool)
        ensures
            r == self.wf(),
    {
        let days = map_keys(&self.bit_fields_by_day);
        let mut i: usize = 0;
        while i < days.len()
            invariant
                i <= days@.len(),
                lists(days@, self.bit_fields_by_day@.dom()),
                forall|k: int|
                    0 <= k < i ==> FIRST_SERVICE_DAY <= (#[trigger] days@[k]) <= LAST_SERVICE_DAY,
            decreases days@.len() - i,
        {
            if days[i] < FIRST_SERVICE_DAY || days[i] > LAST_SERVICE_DAY {
                assert(days@.contains(days@[i as int]));
                assert(self.bit_fields_by_day@.dom().contains(days@[i as int]));
                assert(self.bit_fields_by_day@.contains_key(days@[i as int]));
                return false;
            }
            i += 1;
        }
        let ids = map_keys(&self.journeys);
        i = 0;
        while i < ids.len()
            invariant
                i <= ids@.len(),
                lists(ids@, self.journeys@.dom()),
                forall|k: int|
                    0 <= k < i ==> self.journeys@[#[trigger] ids@[k]]@.id == ids@[k]
                        && self.journeys@[ids@[k]]@.wf(),
            decreases ids@.len() - i,
        {
            assert(ids@.contains(ids@[i as int]));
            assert(self.journeys@.dom().contains(ids@[i as int]));
            let journey = map_get(&self.journeys, &ids[i]).unwrap();
            proof {
                use_type_invariant(journey);
            }
            if journey.id() != ids[i] {
                assert(self.journeys@.contains_key(ids@[i as int]));
                return false;
            }
            i += 1;
        }
        assert forall|day: i32| #[trigger]
            self.bit_fields_by_day@.contains_key(day) implies FIRST_SERVICE_DAY <= day
            <= LAST_SERVICE_DAY by {
            assert(self.bit_fields_by_day@.dom().contains(day));
            assert(days@.contains(day));
        }
        assert forall|id: i32| #[trigger]
            self.journeys@.contains_key(id) implies self.journeys@[id]@.id == id
            && self.journeys@[id]@.wf() by {
            assert(self.journeys@.dom().contains(id));
            assert(ids@.contains(id));
        }
        true
    }

    /// Whether the bit field is active on the day.
    pub fn is_active(&self, day: i32, bit_field_id: i32) -> (r: bool)
        ensures
            r == self.active(day).contains(bit_field_id),
    {
        match map_get(&self.bit_fields_by_day, &day) {
            Some(bit_fields) => set_contains(bit_fields, &bit_field_id),
            None => false,
        }
    }

    /// The walks that start at the stop, if it has any entry.
    pub fn get_stop_connections(&self, stop_id: i32) -> (r: Option<&Vec<StopConnection>>)
        ensures
            r is Some <==> self.stop_connections@.contains_key(stop_id),
            r matches Some(v) ==> v@ == self.connections(stop_id),
    {
        map_get(&self.stop_connections, &stop_id)
    }

    /// The journeys that call at the stop and operate on the day, in the order of the timetable.
    pub fn get_operating_journeys(&self, day: i32, stop_id: i32) -> (r: Vec<i32>)
        ensures
            r@ == self.operating(day, stop_id),
    {
        let mut ids: Vec<i32> = Vec::new();
        let ghost services = self.services_at(stop_id);
        let ghost keep = |s: StopService| self.active(day).contains(s.bit_field_id);
        let ghost id = |s: StopService| s.journey_id;
        proof {
            reveal(Seq::filter);
        }
        if let Some(list) = map_get(&self.services, &stop_id) {
            let mut i: usize = 0;
            assert(ids@ =~= services.take(0).filter(keep).map_values(id));
            while i < list.len()
                invariant
                    i <= list@.len(),
                    services == list@,
                    keep == (|s: StopService| self.active(day).contains(s.bit_field_id)),
                    id == (|s: StopService| s.journey_id),
                    ids@ =~= services.take(i as int).filter(keep).map_values(id),
                decreases list@.len() - i,
            {
                proof {
                    reveal(Seq::filter);
                    assert(services.take(i + 1).drop_last() =~= services.take(i as int));
                }
                let service = list[i];
                if self.is_active(day, service.bit_field_id) {
                    ids.push(service.journey_id);
                }
                i += 1;
            }
            assert(services.take(i as int) =~= services);
        } else {
            assert(ids@ =~= services.filter(keep).map_values(id));
        }
        ids
    }

    /// The minutes that a change at the stop takes from one journey to another that leaves at
    /// `departure_at`.
    pub fn get_exchange_time(
        &self,
        stop_id: i32,
        from: &TransitJourney,
        to: &TransitJourney,
        departure_at: i64,
    ) -> (r: i16)
        requires
            is_instant(departure_at as int),
        ensures
            r == self.exchange_minutes(stop_id, from@, to@, day_of(departure_at as int) as i32),
    {
        let day = date(departure_at);
        if let Some(own) = map_get(&self.exchange_times_by_stop, &stop_id) {
            if let Some(minutes) = self.find_exchange(own, from, to, day) {
                return minutes;
            }
        }
        match self.find_exchange(&self.exchange_times, from, to, day) {
            Some(minutes) => minutes,
            None => self.default_exchange_time,
        }
    }

    /// The duration of the first entry that applies to the change on the day.
    fn find_exchange(
        &self,
        entries: &Vec<ExchangeTime>,
        from: &TransitJourney,
        to: &TransitJourney,
        day: i32,
    ) -> (r: Option<i16>)
        ensures
            r == first_exchange(entries@, from@, to@, self.active(day), 0),
    {
        let mut i: usize = 0;
        while i < entries.len()
            invariant
                i <= entries@.len(),
                first_exchange(entries@, from@, to@, self.active(day), 0) == first_exchange(
                    entries@,
                    from@,
                    to@,
                    self.active(day),
                    i as int,
                ),
            decreases entries@.len() - i,
        {
            let entry = &entries[i];
            let numbers = match &entry.legacy_ids {
                Some(ids) => ids.0 == from.legacy_id() && ids.1 == to.legacy_id(),
                None => true,
            };
            let operators = match &entry.administrations {
                Some(names) => names.0 == *from.administration() && names.1
                    == *to.administration(),
                None => true,
            };
            let class = !entry.intercity || (from.intercity() && to.intercity());
            let days = match entry.bit_field_id {
                Some(bit_field_id) => self.is_active(day, bit_field_id),
                None => true,
            };
            if numbers && operators && class && days {
                return Some(entry.duration);
            }
            i += 1;
        }
        None
    }

    /// Whether passengers of the first journey may stay on board at the stop and travel on as the
    /// second on the day.
    pub fn has_through_service(
        &self,
        day: i32,
        journey_1: &TransitJourney,
        journey_2: &TransitJourney,
        stop_id: i32,
    ) -> (r: bool)
        ensures
            r == self.is_through(day, journey_1@, journey_2@, stop_id),
    {
        let entries = match map_get(&self.through_services, &stop_id) {
            Some(entries) => entries,
            None => {
                return false;
            },
        };
        let mut i: usize = 0;
        while i < entries.len()
            invariant
                i <= entries@.len(),
                self.through_services@.contains_key(stop_id),
                entries@ == self.through_services@[stop_id]@,
                first_through(entries@, journey_1@, journey_2@, 0) == first_through(
                    entries@,
                    journey_1@,
                    journey_2@,
                    i as int,
                ),
            decreases entries@.len() - i,
        {
            let entry = &entries[i];
            if entry.legacy_id_1 == journey_1.legacy_id() && entry.administration_1
                == *journey_1.administration() && entry.legacy_id_2 == journey_2.legacy_id()
                && entry.administration_2 == *journey_2.administration() {
                return self.is_active(day, entry.bit_field_id);
            }
            i += 1;
        }
        false
    }
}

} // verus!
