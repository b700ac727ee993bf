//! What holds of every search, whatever the order in which it takes the stops.

use crate::routing::completeness::rounds_ride_on;
use crate::routing::exploration::{can_depart, start};
use crate::routing::models::{RouteSection, RoutingAlgorithmArgs};
use crate::routing::raptor::{is_end, is_outcome, is_round, lemma_round, lemma_traceable};
use crate::routing::reconstruction::{
    best_round, has_best_label, is_answered, is_best_label, is_best_round, is_traceable,
    lemma_best_round, lemma_way_back, route_to, section_of, sections_to,
};
use crate::routing::soundness::{
    follows, inv, is_ride, is_walk, label_ok, lemma_follows_transitive, lemma_previous_round,
    lemma_start, rides_on, up_to, Query,
};
use crate::routing::state::{RaptorLabel, SearchState};
use crate::timetable::Timetable;
use vstd::prelude::*;

verus! {

/// The last round of a search that allows `max_rounds` changes of journey; round 0 holds the walks
/// from the departure stop.
pub open spec fn last_round(max_rounds: i32) -> int {
    if max_rounds + 1 >= 0 {
        max_rounds + 1
    } else {
        0
    }
}

/// The question that a search with the arguments answers.
pub open spec fn query(
    args: RoutingAlgorithmArgs,
    departure_stop_id: i32,
    departure_at: i64,
) -> Query {
    Query { departure_stop_id, departure_at, time_limit: args.limit() }
}

/// The rounds of a search keep the invariant, and add no rounds beyond the last.
pub proof fn lemma_end(
    timetable: &Timetable,
    q: Query,
    args: RoutingAlgorithmArgs,
    s: SearchState,
    round: int,
    last: int,
    t: SearchState,
)
    requires
        timetable.wf(),
        args.limit() == q.time_limit,
        inv(timetable, q, s),
        1 <= round,
        last <= i32::MAX,
        up_to(s, round - 1),
        is_end(timetable, args, s, round, last, t),
    ensures
        inv(timetable, q, t),
        up_to(
            t,
            if last >= round {
                last
            } else {
                round - 1
            },
        ),
        follows(s, t, round),
    decreases last + 1 - round,
{
    if round <= last && !s.marked.is_empty() {
        let m = choose|m: SearchState| #[trigger]
            is_round(timetable, args, s, round as usize, m) && is_end(
                timetable,
                args,
                m,
                round + 1,
                last,
                t,
            );
        lemma_round(timetable, q, args, s, round as usize, m);
        lemma_end(timetable, q, args, m, round + 1, last, t);
        assert forall|r: int, x: i32| r < round implies (#[trigger] t.has(r, x) <==> m.has(r, x))
            && (m.has(r, x) ==> t.label(r, x) == m.label(r, x)) by {
            assert(r < round + 1);
        }
        assert(follows(m, t, round));
        lemma_follows_transitive(s, m, t, round);
    }
}

/// Every state in which a search may end meets the invariant of a search: each label leads on,
/// by a ride or a walk that can be taken, from the label that it names. There are no labels of
/// rounds beyond the last.
pub proof fn outcome_is_sound(
    timetable: &Timetable,
    args: RoutingAlgorithmArgs,
    departure_stop_id: i32,
    departure_at: i64,
    max_rounds: i32,
    t: SearchState,
)
    requires
        timetable.wf(),
        can_depart(timetable, departure_stop_id, departure_at),
        max_rounds < i32::MAX,
        is_outcome(timetable, args, departure_stop_id, departure_at, max_rounds, t),
    ensures
        inv(timetable, query(args, departure_stop_id, departure_at), t),
        up_to(t, last_round(max_rounds)),
        is_traceable(t, departure_stop_id),
{
    let q = query(args, departure_stop_id, departure_at);
    lemma_start(timetable, q);
    lemma_end(
        timetable,
        q,
        args,
        start(timetable, departure_stop_id, departure_at),
        1,
        max_rounds + 1,
        t,
    );
    lemma_traceable(timetable, q, t);
}

/// The rounds never lose a stop or an arrival: what the walks from the departure stop have found
/// is still there when a search ends, and the arrival at a stop is no later.
pub proof fn search_never_worsens(
    timetable: &Timetable,
    args: RoutingAlgorithmArgs,
    departure_stop_id: i32,
    departure_at: i64,
    max_rounds: i32,
    t: SearchState,
)
    requires
        timetable.wf(),
        can_depart(timetable, departure_stop_id, departure_at),
        max_rounds < i32::MAX,
        is_outcome(timetable, args, departure_stop_id, departure_at, max_rounds, t),
    ensures
        follows(start(timetable, departure_stop_id, departure_at), t, 1),
{
    let q = query(args, departure_stop_id, departure_at);
    lemma_start(timetable, q);
    lemma_end(
        timetable,
        q,
        args,
        start(timetable, departure_stop_id, departure_at),
        1,
        max_rounds + 1,
        t,
    );
}

/// The stop at which the passenger is before section `i`.
pub open spec fn stop_before(departure_stop_id: i32, sections: Seq<RouteSection>, i: int) -> i32 {
    if i == 0 {
        departure_stop_id
    } else {
        sections[i - 1].arrival_stop_id
    }
}

/// The instant at which the passenger is there.
pub open spec fn time_before(departure_at: i64, sections: Seq<RouteSection>, i: int) -> i64 {
    if i == 0 {
        departure_at
    } else {
        sections[i - 1].arrival_at
    }
}

/// The journey that the passenger has left then, if the section before is a ride.
pub open spec fn journey_before(sections: Seq<RouteSection>, i: int) -> Option<i32> {
    if i == 0 {
        None
    } else {
        sections[i - 1].journey_id
    }
}

/// The sections follow each other: each starts where the one before ends, and arrives later.
pub open spec fn is_chain(
    departure_stop_id: i32,
    departure_at: i64,
    sections: Seq<RouteSection>,
) -> bool {
    forall|i: int|
        0 <= i < sections.len() ==> (#[trigger] sections[i]).departure_stop_id == stop_before(
            departure_stop_id,
            sections,
            i,
        ) && time_before(departure_at, sections, i) < sections[i].arrival_at
}

/// The section as a label.
pub open spec fn label_of(section: RouteSection) -> RaptorLabel {
    RaptorLabel {
        arrival_time: section.arrival_at,
        journey_id: section.journey_id,
        from_stop_id: section.departure_stop_id,
        boarding_stop_id: section.departure_stop_id,
        transfer_duration: section.duration,
        source_round: 0,
    }
}

/// The section can be travelled by a passenger who is at its start at `time`, after a ride with
/// the journey `left` if there is one: as a ride that the passenger can board with the exchange
/// time kept, or as a walk for which there is time.
pub open spec fn can_travel(
    timetable: &Timetable,
    time: i64,
    left: Option<i32>,
    section: RouteSection,
) -> bool {
    let source = RaptorLabel { arrival_time: time, journey_id: left, ..label_of(section) };
    match section.journey_id {
        Some(_) => is_ride(timetable, source, label_of(section), section.arrival_stop_id),
        None => is_walk(timetable, source, label_of(section), section.arrival_stop_id),
    }
}

/// Every section can be travelled after the one before.
pub open spec fn is_travelled(
    timetable: &Timetable,
    departure_at: i64,
    sections: Seq<RouteSection>,
) -> bool {
    forall|i: int|
        0 <= i < sections.len() ==> can_travel(
            timetable,
            time_before(departure_at, sections, i),
            journey_before(sections, i),
            #[trigger] sections[i],
        )
}

/// The number of rides.
pub open spec fn rides(sections: Seq<RouteSection>) -> int
    decreases sections.len(),
{
    if sections.len() == 0 {
        0
    } else {
        rides(sections.drop_last()) + if sections.last().journey_id is Some {
            1int
        } else {
            0
        }
    }
}

/// No stop is visited twice: the sections end at different stops, and not at the departure stop.
pub open spec fn has_no_cycle(departure_stop_id: i32, sections: Seq<RouteSection>) -> bool {
    &&& forall|i: int|
        0 <= i < sections.len() ==> (#[trigger] sections[i]).arrival_stop_id != departure_stop_id
    &&& forall|i: int, j: int|
        0 <= i < j < sections.len() ==> (#[trigger] sections[i]).arrival_stop_id != (
        #[trigger] sections[j]).arrival_stop_id
}

/// The section is that of a label of the stop where it ends, in the round or an earlier one.
spec fn is_labelled(s: SearchState, round: int, section: RouteSection) -> bool {
    exists|r: int|
        r <= round && #[trigger] s.has(r, section.arrival_stop_id) && s.label(
            r,
            section.arrival_stop_id,
        ).arrival_time == section.arrival_at
}

/// A label and its section lead on in the same way.
proof fn lemma_can_travel(
    timetable: &Timetable,
    source: RaptorLabel,
    label: RaptorLabel,
    stop_id: i32,
)
    requires
        label.boarding_stop_id == label.from_stop_id,
        match label.journey_id {
            Some(_) => is_ride(timetable, source, label, stop_id),
            None => is_walk(timetable, source, label, stop_id),
        },
    ensures
        can_travel(
            timetable,
            source.arrival_time,
            source.journey_id,
            section_of(label, stop_id),
        ),
{
    let section = section_of(label, stop_id);
    let before = RaptorLabel {
        arrival_time: source.arrival_time,
        journey_id: source.journey_id,
        ..label_of(section)
    };
    if label.journey_id is Some {
        let day = choose|day: i32| rides_on(timetable, source, label, stop_id, day);
        assert(rides_on(timetable, before, label_of(section), stop_id, day));
    }
}

/// What holds of the sections that lead to a label.
spec fn sections_ok(
    timetable: &Timetable,
    q: Query,
    s: SearchState,
    round: int,
    stop_id: i32,
    sections: Seq<RouteSection>,
) -> bool {
    let n = sections.len() as int;
    &&& stop_before(q.departure_stop_id, sections, n) == stop_id
    &&& time_before(q.departure_at, sections, n) == s.label(round, stop_id).arrival_time
    &&& journey_before(sections, n) == s.label(round, stop_id).journey_id
    &&& n == 0 <==> stop_id == q.departure_stop_id
    &&& is_chain(q.departure_stop_id, q.departure_at, sections)
    &&& is_travelled(timetable, q.departure_at, sections)
    &&& has_no_cycle(q.departure_stop_id, sections)
    &&& rides(sections) <= round
    &&& are_labelled(s, round, sections)
}

/// The sections are those of labels in the round or earlier ones.
spec fn are_labelled(s: SearchState, round: int, sections: Seq<RouteSection>) -> bool {
    forall|i: int| 0 <= i < sections.len() ==> is_labelled(s, round, #[trigger] sections[i])
}

/// One more section keeps the order of the stops and the times.
proof fn lemma_push_chain(
    timetable: &Timetable,
    departure_stop_id: i32,
    departure_at: i64,
    before: Seq<RouteSection>,
    section: RouteSection,
)
    requires
        is_chain(departure_stop_id, departure_at, before),
        is_travelled(timetable, departure_at, before),
        section.departure_stop_id == stop_before(
            departure_stop_id,
            before,
            before.len() as int,
        ),
        time_before(departure_at, before, before.len() as int) < section.arrival_at,
        can_travel(
            timetable,
            time_before(departure_at, before, before.len() as int),
            journey_before(before, before.len() as int),
            section,
        ),
    ensures
        is_chain(departure_stop_id, departure_at, before.push(section)),
        is_travelled(timetable, departure_at, before.push(section)),
{
    let sections = before.push(section);
    assert forall|i: int| 0 <= i < sections.len() implies can_travel(
        timetable,
        time_before(departure_at, sections, i),
        journey_before(sections, i),
        #[trigger] sections[i],
    ) by {
        assert(time_before(departure_at, sections, i) == time_before(departure_at, before, i));
        assert(journey_before(sections, i) == journey_before(before, i));
        if i < before.len() {
            assert(sections[i] == before[i]);
        }
    }
    assert forall|i: int| 0 <= i < sections.len() implies (
    #[trigger] sections[i]).departure_stop_id == stop_before(departure_stop_id, sections, i)
        && time_before(departure_at, sections, i) < sections[i].arrival_at by {
        assert(time_before(departure_at, sections, i) == time_before(departure_at, before, i));
        assert(stop_before(departure_stop_id, sections, i) == stop_before(
            departure_stop_id,
            before,
            i,
        ));
        if i < before.len() {
            assert(sections[i] == before[i]);
        }
    }
}

/// The arrivals of a chain are no later than its last.
proof fn lemma_chain_times(
    departure_stop_id: i32,
    departure_at: i64,
    sections: Seq<RouteSection>,
    i: int,
    j: int,
)
    requires
        is_chain(departure_stop_id, departure_at, sections),
        0 <= i <= j < sections.len(),
    ensures
        sections[i].arrival_at <= sections[j].arrival_at,
    decreases j - i,
{
    if i < j {
        lemma_chain_times(departure_stop_id, departure_at, sections, i, j - 1);
        assert(sections[j].departure_stop_id == stop_before(departure_stop_id, sections, j));
    }
}

/// A stop that is reached later than all stops of a chain is not one of them.
proof fn lemma_push_new_stop(
    departure_stop_id: i32,
    departure_at: i64,
    s: SearchState,
    before: Seq<RouteSection>,
    from_round: int,
    round: int,
    section: RouteSection,
)
    requires
        is_chain(departure_stop_id, departure_at, before),
        has_no_cycle(departure_stop_id, before),
        are_labelled(s, from_round, before),
        from_round <= round,
        s.has(round, section.arrival_stop_id),
        s.label(round, section.arrival_stop_id).arrival_time == section.arrival_at,
        section.arrival_stop_id != departure_stop_id,
        time_before(departure_at, before, before.len() as int) < section.arrival_at,
        forall|r1: int, r2: int, x: i32| #[trigger]
            s.has(r1, x) && #[trigger] s.has(r2, x) && r1 < r2 ==> s.label(r2, x).arrival_time
                < s.label(r1, x).arrival_time,
    ensures
        has_no_cycle(departure_stop_id, before.push(section)),
        are_labelled(s, round, before.push(section)),
{
    let sections = before.push(section);
    let n = before.len() as int;
    assert forall|i: int| 0 <= i < n implies (#[trigger] before[i]).arrival_stop_id
        != section.arrival_stop_id by {
        lemma_chain_times(departure_stop_id, departure_at, before, i, n - 1);
        assert(is_labelled(s, from_round, before[i]));
        let r = choose|r: int|
            r <= from_round && #[trigger] s.has(r, before[i].arrival_stop_id) && s.label(
                r,
                before[i].arrival_stop_id,
            ).arrival_time == before[i].arrival_at;
        if before[i].arrival_stop_id == section.arrival_stop_id {
            assert(s.has(r, section.arrival_stop_id));
        }
    }
    assert forall|i: int, j: int| 0 <= i < j < sections.len() implies (
    #[trigger] sections[i]).arrival_stop_id != (#[trigger] sections[j]).arrival_stop_id by {
        assert(sections[i] == before[i]);
        if j < n {
            assert(sections[j] == before[j]);
        }
    }
    assert forall|i: int| 0 <= i < sections.len() implies (#[trigger] sections[i]).arrival_stop_id
        != departure_stop_id by {
        if i < n {
            assert(sections[i] == before[i]);
        }
    }
    assert forall|i: int| 0 <= i < sections.len() implies is_labelled(
        s,
        round,
        #[trigger] sections[i],
    ) by {
        if i < n {
            assert(is_labelled(s, from_round, before[i]));
            let r = choose|r: int|
                r <= from_round && #[trigger] s.has(r, before[i].arrival_stop_id) && s.label(
                    r,
                    before[i].arrival_stop_id,
                ).arrival_time == before[i].arrival_at;
            assert(s.has(r, sections[i].arrival_stop_id));
        }
    }
}

/// The sections that lead to a label of a search.
proof fn lemma_sections(timetable: &Timetable, q: Query, s: SearchState, round: int, stop_id: i32)
    requires
        inv(timetable, q, s),
        s.has(round, stop_id),
    ensures
        is_traceable(s, q.departure_stop_id),
        sections_ok(
            timetable,
            q,
            s,
            round,
            stop_id,
            sections_to(s, q.departure_stop_id, round, stop_id),
        ),
    decreases s.label(round, stop_id).arrival_time - i64::MIN,
{
    lemma_traceable(timetable, q, s);
    assert(label_ok(timetable, q, s, round, stop_id));
    let label = s.label(round, stop_id);
    if stop_id != q.departure_stop_id {
        let from_round = label.source_round as int;
        let from = label.from_stop_id;
        lemma_sections(timetable, q, s, from_round, from);
        let before = sections_to(s, q.departure_stop_id, from_round, from);
        let section = section_of(label, stop_id);
        assert(before.push(section).drop_last() =~= before);
        lemma_can_travel(timetable, s.label(from_round, from), label, stop_id);
        lemma_push_chain(timetable, q.departure_stop_id, q.departure_at, before, section);
        lemma_push_new_stop(
            q.departure_stop_id,
            q.departure_at,
            s,
            before,
            from_round,
            round,
            section,
        );
    }
}

/// The route to a stop that was reached is that of the labels.
proof fn lemma_traceable_route(s: SearchState, departure_stop_id: i32, stop_id: i32)
    requires
        is_traceable(s, departure_stop_id),
    ensures
        route_to(s, departure_stop_id, stop_id) is Some <==> s.best.contains_key(stop_id) && stop_id
            != departure_stop_id,
        route_to(s, departure_stop_id, stop_id) matches Some(route) ==> {
            &&& is_best_round(s, stop_id, best_round(s, stop_id))
            &&& route.sections == sections_to(
                s,
                departure_stop_id,
                best_round(s, stop_id),
                stop_id,
            )
        },
{
    if s.best.contains_key(stop_id) && stop_id != departure_stop_id {
        assert(has_best_label(s, stop_id));
        let round = choose|round: int| #[trigger] is_best_label(s, stop_id, round);
        lemma_best_round(s, stop_id, round);
        lemma_way_back(s, departure_stop_id, best_round(s, stop_id), stop_id);
    }
}

/// What holds of the route to a stop when a search ends.
proof fn lemma_route(
    timetable: &Timetable,
    args: RoutingAlgorithmArgs,
    departure_stop_id: i32,
    departure_at: i64,
    max_rounds: i32,
    t: SearchState,
    stop_id: i32,
)
    requires
        timetable.wf(),
        can_depart(timetable, departure_stop_id, departure_at),
        max_rounds < i32::MAX,
        is_outcome(timetable, args, departure_stop_id, departure_at, max_rounds, t),
    ensures
        route_to(t, departure_stop_id, stop_id) is Some <==> t.best.contains_key(stop_id) && stop_id
            != departure_stop_id,
        route_to(t, departure_stop_id, stop_id) matches Some(route) ==> {
            let round = best_round(t, stop_id);
            let label = t.label(round, stop_id);
            &&& 0 <= round <= last_round(max_rounds)
            &&& label.arrival_time == t.best[stop_id]
            &&& round >= 1 ==> (args.limit() matches Some(limit) ==> label.arrival_time <= limit)
            &&& sections_ok(
                timetable,
                query(args, departure_stop_id, departure_at),
                t,
                round,
                stop_id,
                route.sections,
            )
        },
{
    let q = query(args, departure_stop_id, departure_at);
    outcome_is_sound(timetable, args, departure_stop_id, departure_at, max_rounds, t);
    lemma_traceable_route(t, departure_stop_id, stop_id);
    if route_to(t, departure_stop_id, stop_id) is Some {
        let round = best_round(t, stop_id);
        lemma_sections(timetable, q, t, round, stop_id);
        assert(label_ok(timetable, q, t, round, stop_id));
    }
}

/// A route to every stop: each stop that a search has reached, but the departure stop, has a
/// route.
pub proof fn reached_stops_have_routes(
    timetable: &Timetable,
    args: RoutingAlgorithmArgs,
    departure_stop_id: i32,
    departure_at: i64,
    max_rounds: i32,
    t: SearchState,
    stop_id: i32,
)
    requires
        timetable.wf(),
        can_depart(timetable, departure_stop_id, departure_at),
        max_rounds < i32::MAX,
        is_outcome(timetable, args, departure_stop_id, departure_at, max_rounds, t),
        t.best.contains_key(stop_id),
        stop_id != departure_stop_id,
    ensures
        route_to(t, departure_stop_id, stop_id) matches Some(route) && route.sections.len() > 0,
{
    lemma_route(timetable, args, departure_stop_id, departure_at, max_rounds, t, stop_id);
}

/// The sections of a route follow each other from the departure stop to the stop of the route,
/// each arriving later than the one before, and the last arrives at the best arrival that the
/// search has found.
pub proof fn routes_connect(
    timetable: &Timetable,
    args: RoutingAlgorithmArgs,
    departure_stop_id: i32,
    departure_at: i64,
    max_rounds: i32,
    t: SearchState,
    stop_id: i32,
)
    requires
        timetable.wf(),
        can_depart(timetable, departure_stop_id, departure_at),
        max_rounds < i32::MAX,
        is_outcome(timetable, args, departure_stop_id, departure_at, max_rounds, t),
    ensures
        route_to(t, departure_stop_id, stop_id) matches Some(route) ==> {
            &&& is_chain(departure_stop_id, departure_at, route.sections)
            &&& route.sections.last().arrival_stop_id == stop_id
            &&& route.sections.last().arrival_at == t.best[stop_id]
        },
{
    lemma_route(timetable, args, departure_stop_id, departure_at, max_rounds, t, stop_id);
}

/// A passenger can travel every section of a route: a ride operates on its day, leaves after the
/// passenger has arrived and has had the exchange time, and calls later where the section ends;
/// for a walk there is the time that it takes.
pub proof fn routes_can_be_travelled(
    timetable: &Timetable,
    args: RoutingAlgorithmArgs,
    departure_stop_id: i32,
    departure_at: i64,
    max_rounds: i32,
    t: SearchState,
    stop_id: i32,
)
    requires
        timetable.wf(),
        can_depart(timetable, departure_stop_id, departure_at),
        max_rounds < i32::MAX,
        is_outcome(timetable, args, departure_stop_id, departure_at, max_rounds, t),
    ensures
        route_to(t, departure_stop_id, stop_id) matches Some(route) ==> is_travelled(
            timetable,
            departure_at,
            route.sections,
        ),
{
    lemma_route(timetable, args, departure_stop_id, departure_at, max_rounds, t, stop_id);
}

/// A route visits no stop twice.
pub proof fn routes_visit_no_stop_twice(
    timetable: &Timetable,
    args: RoutingAlgorithmArgs,
    departure_stop_id: i32,
    departure_at: i64,
    max_rounds: i32,
    t: SearchState,
    stop_id: i32,
)
    requires
        timetable.wf(),
        can_depart(timetable, departure_stop_id, departure_at),
        max_rounds < i32::MAX,
        is_outcome(timetable, args, departure_stop_id, departure_at, max_rounds, t),
    ensures
        route_to(t, departure_stop_id, stop_id) matches Some(route) ==> has_no_cycle(
            departure_stop_id,
            route.sections,
        ),
{
    lemma_route(timetable, args, departure_stop_id, departure_at, max_rounds, t, stop_id);
}

/// The number of rides that lead to a label is its round.
proof fn lemma_rides_to(
    timetable: &Timetable,
    args: RoutingAlgorithmArgs,
    departure_stop_id: i32,
    departure_at: i64,
    max_rounds: i32,
    t: SearchState,
    round: int,
    stop_id: i32,
)
    requires
        timetable.wf(),
        can_depart(timetable, departure_stop_id, departure_at),
        max_rounds < i32::MAX,
        is_outcome(timetable, args, departure_stop_id, departure_at, max_rounds, t),
        inv(timetable, query(args, departure_stop_id, departure_at), t),
        is_traceable(t, departure_stop_id),
        t.has(round, stop_id),
    ensures
        rides(sections_to(t, departure_stop_id, round, stop_id)) == round,
    decreases t.label(round, stop_id).arrival_time - i64::MIN,
{
    let q = query(args, departure_stop_id, departure_at);
    assert(label_ok(timetable, q, t, round, stop_id));
    if stop_id != departure_stop_id {
        let label = t.label(round, stop_id);
        let before = sections_to(
            t,
            departure_stop_id,
            label.source_round as int,
            label.from_stop_id,
        );
        rounds_ride_on(
            timetable,
            args,
            departure_stop_id,
            departure_at,
            max_rounds,
            t,
            round,
            stop_id,
        );
        lemma_rides_to(
            timetable,
            args,
            departure_stop_id,
            departure_at,
            max_rounds,
            t,
            label.source_round as int,
            label.from_stop_id,
        );
        assert(before.push(section_of(label, stop_id)).drop_last() =~= before);
    }
}

/// Round `n` holds the arrivals after `n` rides: no more and no fewer lead to each of its labels.
pub proof fn rounds_count_rides(
    timetable: &Timetable,
    args: RoutingAlgorithmArgs,
    departure_stop_id: i32,
    departure_at: i64,
    max_rounds: i32,
    t: SearchState,
    round: int,
    stop_id: i32,
)
    requires
        timetable.wf(),
        can_depart(timetable, departure_stop_id, departure_at),
        max_rounds < i32::MAX,
        is_outcome(timetable, args, departure_stop_id, departure_at, max_rounds, t),
        t.has(round, stop_id),
    ensures
        rides(sections_to(t, departure_stop_id, round, stop_id)) == round,
{
    outcome_is_sound(timetable, args, departure_stop_id, departure_at, max_rounds, t);
    lemma_rides_to(
        timetable,
        args,
        departure_stop_id,
        departure_at,
        max_rounds,
        t,
        round,
        stop_id,
    );
}

/// A route has at most one ride more than the search allows changes of journey. Without any round
/// it has none.
pub proof fn rides_are_limited(
    timetable: &Timetable,
    args: RoutingAlgorithmArgs,
    departure_stop_id: i32,
    departure_at: i64,
    max_rounds: i32,
    t: SearchState,
    stop_id: i32,
)
    requires
        timetable.wf(),
        can_depart(timetable, departure_stop_id, departure_at),
        max_rounds < i32::MAX,
        is_outcome(timetable, args, departure_stop_id, departure_at, max_rounds, t),
    ensures
        route_to(t, departure_stop_id, stop_id) matches Some(route) ==> rides(route.sections)
            <= last_round(max_rounds),
{
    lemma_route(timetable, args, departure_stop_id, departure_at, max_rounds, t, stop_id);
}

/// Where there is a ride, the number of rides is positive.
pub proof fn lemma_some_ride(sections: Seq<RouteSection>, i: int)
    requires
        0 <= i < sections.len(),
        sections[i].journey_id is Some,
    ensures
        rides(sections) >= 1,
    decreases sections.len(),
{
    lemma_rides(sections.drop_last());
    if i < sections.len() - 1 {
        lemma_some_ride(sections.drop_last(), i);
    }
}

/// The number of rides is not negative.
proof fn lemma_rides(sections: Seq<RouteSection>)
    ensures
        rides(sections) >= 0,
    decreases sections.len(),
{
    if sections.len() > 0 {
        lemma_rides(sections.drop_last());
    }
}

/// A search for all stops answers only with routes that arrive by the time limit.
pub proof fn answers_keep_the_time_limit(
    timetable: &Timetable,
    args: RoutingAlgorithmArgs,
    departure_stop_id: i32,
    departure_at: i64,
    max_rounds: i32,
    t: SearchState,
    stop_id: i32,
)
    requires
        timetable.wf(),
        can_depart(timetable, departure_stop_id, departure_at),
        max_rounds < i32::MAX,
        is_outcome(timetable, args, departure_stop_id, departure_at, max_rounds, t),
        is_answered(t, departure_stop_id, args, stop_id),
    ensures
        args.limit() matches Some(limit) ==> t.best[stop_id] <= limit,
{
    lemma_route(timetable, args, departure_stop_id, departure_at, max_rounds, t, stop_id);
    let sections = route_to(t, departure_stop_id, stop_id)->0.sections;
    let i = choose|i: int| 0 <= i < sections.len() && (#[trigger] sections[i]).journey_id is Some;
    lemma_some_ride(sections, i);
}

/// A search without any round has no answer: there is nothing to ride.
pub proof fn no_answer_without_rounds(
    timetable: &Timetable,
    args: RoutingAlgorithmArgs,
    departure_stop_id: i32,
    departure_at: i64,
    max_rounds: i32,
    t: SearchState,
    stop_id: i32,
)
    requires
        timetable.wf(),
        can_depart(timetable, departure_stop_id, departure_at),
        max_rounds < 0,
        is_outcome(timetable, args, departure_stop_id, departure_at, max_rounds, t),
    ensures
        !is_answered(t, departure_stop_id, args, stop_id),
{
    if is_answered(t, departure_stop_id, args, stop_id) {
        rides_are_limited(
            timetable,
            args,
            departure_stop_id,
            departure_at,
            max_rounds,
            t,
            stop_id,
        );
        let sections = route_to(t, departure_stop_id, stop_id)->0.sections;
        let i = choose|i: int|
            0 <= i < sections.len() && (#[trigger] sections[i]).journey_id is Some;
        lemma_some_ride(sections, i);
    }
}

/// The departure stop is never an answer, nor is a route of walks alone.
pub proof fn answers_hold_a_ride(
    s: SearchState,
    departure_stop_id: i32,
    args: RoutingAlgorithmArgs,
    stop_id: i32,
)
    requires
        is_answered(s, departure_stop_id, args, stop_id),
    ensures
        stop_id != departure_stop_id,
        s.best.contains_key(stop_id),
        exists|i: int|
            0 <= i < route_to(s, departure_stop_id, stop_id)->0.sections.len() && (
            #[trigger] route_to(s, departure_stop_id, stop_id)->0.sections[i]).journey_id is Some,
{
}

/// Where a stop is reached earlier in each later round, its previous round is its earliest.
proof fn lemma_earliest(s: SearchState, stop_id: i32, current_round: int)
    requires
        forall|r1: int, r2: int|
            #[trigger] s.has(r1, stop_id) && #[trigger] s.has(r2, stop_id) && r1 < r2 ==> s.label(
                r2,
                stop_id,
            ).arrival_time < s.label(r1, stop_id).arrival_time,
    ensures
        s.previous_round(stop_id, current_round) matches Some(r) ==> forall|k: int|
            k < current_round && #[trigger] s.has(k, stop_id) ==> s.label(r, stop_id).arrival_time
                <= s.label(k, stop_id).arrival_time,
{
    lemma_previous_round(s, stop_id, current_round);
}

/// The label with which a round boards at a stop is the earliest arrival of all earlier rounds.
pub proof fn previous_label_is_earliest(
    timetable: &Timetable,
    q: Query,
    s: SearchState,
    stop_id: i32,
    current_round: int,
)
    requires
        inv(timetable, q, s),
    ensures
        match s.previous_round(stop_id, current_round) {
            Some(r) => {
                &&& r < current_round
                &&& s.has(r, stop_id)
                &&& forall|k: int|
                    k < current_round && #[trigger] s.has(k, stop_id) ==> s.label(
                        r,
                        stop_id,
                    ).arrival_time <= s.label(k, stop_id).arrival_time
            },
            None => forall|k: int| k < current_round ==> !#[trigger] s.has(k, stop_id),
        },
{
    lemma_previous_round(s, stop_id, current_round);
    lemma_earliest(s, stop_id, current_round);
}

/// An offer that is accepted is what the state holds for the stop afterwards, in its round and as
/// the best arrival; nothing else changes, and the best arrival was later or not known.
pub proof fn accepted_offer_is_held(
    s: SearchState,
    stop_id: i32,
    label: RaptorLabel,
    round: int,
    source_arrival_time: i64,
    time_limit: Option<i64>,
    mark_for_exploration: bool,
)
    requires
        round >= 0,
        s.accepts(stop_id, label.arrival_time, source_arrival_time, time_limit),
    ensures
        ({
            let t = s.improve(
                stop_id,
                label,
                round,
                source_arrival_time,
                time_limit,
                mark_for_exploration,
            );
            &&& t.has(round, stop_id)
            &&& t.label(round, stop_id) == label
            &&& t.best == s.best.insert(stop_id, label.arrival_time)
            &&& s.best.contains_key(stop_id) ==> t.best[stop_id] < s.best[stop_id]
            &&& forall|r: int, x: i32|
                r != round || x != stop_id ==> (#[trigger] t.has(r, x) <==> s.has(r, x)) && (s.has(
                    r,
                    x,
                ) ==> t.label(r, x) == s.label(r, x))
            &&& mark_for_exploration ==> t.marked == s.marked.insert(stop_id) && t.improved
                == s.improved.insert(stop_id)
            &&& !mark_for_exploration ==> t.marked == s.marked && t.improved == s.improved
        }),
{
}

/// The same offer is not accepted twice.
pub proof fn offer_is_accepted_once(
    s: SearchState,
    stop_id: i32,
    label: RaptorLabel,
    round: int,
    source_arrival_time: i64,
    time_limit: Option<i64>,
    mark_for_exploration: bool,
)
    requires
        round >= 0,
    ensures
        ({
            let t = s.improve(
                stop_id,
                label,
                round,
                source_arrival_time,
                time_limit,
                mark_for_exploration,
            );
            t.improve(
                stop_id,
                label,
                round,
                source_arrival_time,
                time_limit,
                mark_for_exploration,
            ) == t
        }),
{
}

} // verus!
