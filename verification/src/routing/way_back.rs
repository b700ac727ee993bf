//! What holds of routes that are read from any labels, whether a search has found them or not.

use crate::routing::laws::{has_no_cycle, stop_before};
use crate::routing::models::{Route, RouteSection, RoutingAlgorithmArgs};
use crate::routing::reconstruction::{
    are_results, best_round, has_best_label, is_best_label, lemma_best_round, lemma_stop_ids,
    route_to, section_of, stops_of, way_back, STOP_IDS,
};
use crate::routing::state::SearchState;
use vstd::prelude::*;

verus! {

/// Every label was boarded at the stop that it left.
pub open spec fn boards_where_left(s: SearchState) -> bool {
    forall|round: int, stop_id: i32| #[trigger]
        s.has(round, stop_id) ==> s.label(round, stop_id).boarding_stop_id == s.label(
            round,
            stop_id,
        ).from_stop_id
}

/// Each section departs from the stop where the one before arrived, the first from the departure
/// stop.
pub open spec fn connects(departure_stop_id: i32, sections: Seq<RouteSection>) -> bool {
    forall|i: int|
        0 <= i < sections.len() ==> (#[trigger] sections[i]).departure_stop_id == stop_before(
            departure_stop_id,
            sections,
            i,
        )
}

/// The sections end at none of the stops.
spec fn avoids(sections: Seq<RouteSection>, seen: Set<i32>) -> bool {
    forall|i: int|
        0 <= i < sections.len() ==> !seen.contains((#[trigger] sections[i]).arrival_stop_id)
}

/// What holds of the sections of a way back.
proof fn lemma_way(
    s: SearchState,
    departure_stop_id: i32,
    round: int,
    stop_id: i32,
    seen: Set<i32>,
    steps: nat,
)
    ensures
        way_back(s, departure_stop_id, round, stop_id, seen, steps) matches Some(sections) ==> {
            &&& stop_before(departure_stop_id, sections, sections.len() as int) == stop_id
            &&& sections.len() == 0 <==> stop_id == departure_stop_id
            &&& sections.len() > 0 ==> sections.last() == section_of(
                s.label(round, stop_id),
                stop_id,
            )
            &&& has_no_cycle(departure_stop_id, sections)
            &&& avoids(sections, seen)
            &&& boards_where_left(s) ==> connects(departure_stop_id, sections)
        },
    decreases steps,
{
    let way = way_back(s, departure_stop_id, round, stop_id, seen, steps);
    if stop_id != departure_stop_id && way is Some {
        let label = s.label(round, stop_id);
        let now = seen.insert(stop_id);
        let from_round = label.source_round as int;
        let from = label.from_stop_id;
        lemma_way(s, departure_stop_id, from_round, from, now, (steps - 1) as nat);
        let before = way_back(
            s,
            departure_stop_id,
            from_round,
            from,
            now,
            (steps - 1) as nat,
        )->0;
        let sections = way->0;
        let n = before.len() as int;
        assert(sections == before.push(section_of(label, stop_id)));
        assert forall|i: int| 0 <= i < sections.len() implies !seen.contains(
            (#[trigger] sections[i]).arrival_stop_id,
        ) && sections[i].arrival_stop_id != departure_stop_id by {
            if i < n {
                assert(sections[i] == before[i]);
                assert(!now.contains(before[i].arrival_stop_id));
            }
        }
        assert forall|i: int, j: int| 0 <= i < j < sections.len() implies (
        #[trigger] sections[i]).arrival_stop_id != (#[trigger] sections[j]).arrival_stop_id by {
            assert(sections[i] == before[i]);
            assert(!now.contains(before[i].arrival_stop_id));
            if j < n {
                assert(sections[j] == before[j]);
            }
        }
        if boards_where_left(s) {
            assert(s.has(round, stop_id));
            assert forall|i: int| 0 <= i < sections.len() implies (
            #[trigger] sections[i]).departure_stop_id == stop_before(
                departure_stop_id,
                sections,
                i,
            ) by {
                assert(stop_before(departure_stop_id, sections, i) == stop_before(
                    departure_stop_id,
                    before,
                    i,
                ));
                if i < n {
                    assert(sections[i] == before[i]);
                }
            }
        }
    }
}

/// A route of any labels ends at its stop at the best arrival there, and visits no stop twice: the
/// stops that it visits are the departure stop and those where its sections end. If every label
/// was boarded at the stop that it left, the sections connect from the departure stop on.
pub proof fn routes_of_any_labels_connect(s: SearchState, departure_stop_id: i32, stop_id: i32)
    ensures
        route_to(s, departure_stop_id, stop_id) matches Some(route) ==> {
            &&& route.sections.len() > 0
            &&& route.sections.last().arrival_stop_id == stop_id
            &&& route.sections.last().arrival_at == s.best[stop_id]
            &&& has_no_cycle(departure_stop_id, route.sections)
            &&& route.visited_stops == stops_of(departure_stop_id, route.sections)
            &&& boards_where_left(s) ==> connects(departure_stop_id, route.sections)
        },
{
    if route_to(s, departure_stop_id, stop_id) is Some {
        let held = choose|round: int| #[trigger] is_best_label(s, stop_id, round);
        lemma_best_round(s, stop_id, held);
        let round = best_round(s, stop_id);
        lemma_way(s, departure_stop_id, round, stop_id, Set::empty(), STOP_IDS as nat);
    }
}

/// Where several rounds hold a stop at its best arrival, the route is read from the earliest: its
/// last section is that of the label of this round.
pub proof fn ties_go_to_the_earliest_round(
    s: SearchState,
    departure_stop_id: i32,
    stop_id: i32,
    round: int,
)
    requires
        is_best_label(s, stop_id, round),
        forall|r: int| r < round ==> !#[trigger] is_best_label(s, stop_id, r),
    ensures
        route_to(s, departure_stop_id, stop_id) matches Some(route) ==> route.sections.last()
            == section_of(s.label(round, stop_id), stop_id),
{
    lemma_best_round(s, stop_id, round);
    let best = best_round(s, stop_id);
    assert(is_best_label(s, stop_id, best));
    assert(best == round);
    lemma_way(s, departure_stop_id, round, stop_id, Set::empty(), STOP_IDS as nat);
}

/// The round and the stop to which the labels lead back in `n` steps.
pub open spec fn back(s: SearchState, round: int, stop_id: i32, n: nat) -> (int, i32)
    decreases n,
{
    if n == 0 {
        (round, stop_id)
    } else {
        let label = s.label(round, stop_id);
        back(s, label.source_round as int, label.from_stop_id, (n - 1) as nat)
    }
}

/// The labels do not lead to the departure stop in the first `n` steps.
pub open spec fn is_away(
    s: SearchState,
    departure_stop_id: i32,
    round: int,
    stop_id: i32,
    n: nat,
) -> bool {
    forall|k: nat| k <= n ==> (#[trigger] back(s, round, stop_id, k)).1 != departure_stop_id
}

/// One step on, the labels are away from the departure stop for one step less.
proof fn lemma_away(s: SearchState, departure_stop_id: i32, round: int, stop_id: i32, n: nat)
    requires
        is_away(s, departure_stop_id, round, stop_id, n),
    ensures
        stop_id != departure_stop_id,
        n > 0 ==> is_away(
            s,
            departure_stop_id,
            s.label(round, stop_id).source_round as int,
            s.label(round, stop_id).from_stop_id,
            (n - 1) as nat,
        ),
{
    assert(back(s, round, stop_id, 0).1 == stop_id);
    if n > 0 {
        let label = s.label(round, stop_id);
        let from_round = label.source_round as int;
        let from = label.from_stop_id;
        assert forall|k: nat| k <= n - 1 implies (#[trigger] back(s, from_round, from, k)).1
            != departure_stop_id by {
            assert(back(s, round, stop_id, k + 1) == back(s, from_round, from, k));
        }
    }
}

/// There is no way back over a stop that was seen.
proof fn lemma_seen(
    s: SearchState,
    departure_stop_id: i32,
    round: int,
    stop_id: i32,
    seen: Set<i32>,
    steps: nat,
    n: nat,
)
    requires
        is_away(s, departure_stop_id, round, stop_id, n),
        seen.contains(back(s, round, stop_id, n).1),
    ensures
        way_back(s, departure_stop_id, round, stop_id, seen, steps) is None,
    decreases n,
{
    lemma_away(s, departure_stop_id, round, stop_id, n);
    if n > 0 && steps > 0 {
        let label = s.label(round, stop_id);
        lemma_seen(
            s,
            departure_stop_id,
            label.source_round as int,
            label.from_stop_id,
            seen.insert(stop_id),
            (steps - 1) as nat,
            (n - 1) as nat,
        );
    }
}

/// There is no way back over a label that is missing.
proof fn lemma_missing(
    s: SearchState,
    departure_stop_id: i32,
    round: int,
    stop_id: i32,
    seen: Set<i32>,
    steps: nat,
    n: nat,
)
    requires
        is_away(s, departure_stop_id, round, stop_id, n),
        !s.has(back(s, round, stop_id, n).0, back(s, round, stop_id, n).1),
    ensures
        way_back(s, departure_stop_id, round, stop_id, seen, steps) is None,
    decreases n,
{
    lemma_away(s, departure_stop_id, round, stop_id, n);
    if n > 0 && steps > 0 {
        let label = s.label(round, stop_id);
        lemma_missing(
            s,
            departure_stop_id,
            label.source_round as int,
            label.from_stop_id,
            seen.insert(stop_id),
            (steps - 1) as nat,
            (n - 1) as nat,
        );
    }
}

/// There is no way back over a stop that comes up twice.
proof fn lemma_circle(
    s: SearchState,
    departure_stop_id: i32,
    round: int,
    stop_id: i32,
    seen: Set<i32>,
    steps: nat,
    first: nat,
    again: nat,
)
    requires
        first < again,
        is_away(s, departure_stop_id, round, stop_id, again),
        back(s, round, stop_id, first).1 == back(s, round, stop_id, again).1,
    ensures
        way_back(s, departure_stop_id, round, stop_id, seen, steps) is None,
    decreases again,
{
    lemma_away(s, departure_stop_id, round, stop_id, again);
    if steps > 0 {
        let label = s.label(round, stop_id);
        let from_round = label.source_round as int;
        let from = label.from_stop_id;
        let now = seen.insert(stop_id);
        let left = (steps - 1) as nat;
        if first == 0 {
            assert(now.contains(back(s, from_round, from, (again - 1) as nat).1));
            lemma_seen(s, departure_stop_id, from_round, from, now, left, (again - 1) as nat);
        } else {
            lemma_circle(
                s,
                departure_stop_id,
                from_round,
                from,
                now,
                left,
                (first - 1) as nat,
                (again - 1) as nat,
            );
        }
    }
}

/// Where the labels lead back to one that is missing, before they lead to the departure stop,
/// there is no route.
pub proof fn gaps_give_no_route(s: SearchState, departure_stop_id: i32, stop_id: i32, n: nat)
    requires
        is_away(s, departure_stop_id, best_round(s, stop_id), stop_id, n),
        ({
            let (round, stop) = back(s, best_round(s, stop_id), stop_id, n);
            !s.has(round, stop)
        }),
    ensures
        route_to(s, departure_stop_id, stop_id) is None,
{
    lemma_missing(
        s,
        departure_stop_id,
        best_round(s, stop_id),
        stop_id,
        Set::empty(),
        STOP_IDS as nat,
        n,
    );
}

/// Where the labels lead back to the same stop twice, before they lead to the departure stop,
/// there is no route.
pub proof fn circles_give_no_route(
    s: SearchState,
    departure_stop_id: i32,
    stop_id: i32,
    first: nat,
    again: nat,
)
    requires
        first < again,
        is_away(s, departure_stop_id, best_round(s, stop_id), stop_id, again),
        back(s, best_round(s, stop_id), stop_id, first).1 == back(
            s,
            best_round(s, stop_id),
            stop_id,
            again,
        ).1,
    ensures
        route_to(s, departure_stop_id, stop_id) is None,
{
    lemma_circle(
        s,
        departure_stop_id,
        best_round(s, stop_id),
        stop_id,
        Set::empty(),
        STOP_IDS as nat,
        first,
        again,
    );
}

/// There is no route to the departure stop, to a stop that was not reached, and to one whose best
/// arrival no round holds.
pub proof fn no_route_without_a_label(s: SearchState, departure_stop_id: i32, stop_id: i32)
    requires
        stop_id == departure_stop_id || !s.best.contains_key(stop_id) || (forall|round: int|
            !#[trigger] is_best_label(s, stop_id, round)),
    ensures
        route_to(s, departure_stop_id, stop_id) is None,
{
}

/// The results of a search for one stop are those of a search for all stops, restricted to that
/// stop.
pub proof fn one_stop_is_a_restriction(
    s: SearchState,
    departure_stop_id: i32,
    target: i32,
    one: RoutingAlgorithmArgs,
    all: RoutingAlgorithmArgs,
    results_for_one: Map<i32, Route>,
    results_for_all: Map<i32, Route>,
)
    requires
        one.target() == Some(target),
        all.target() == None::<i32>,
        are_results(s, departure_stop_id, one, results_for_one),
        are_results(s, departure_stop_id, all, results_for_all),
    ensures
        forall|stop_id: i32| #[trigger]
            results_for_one.contains_key(stop_id) <==> stop_id == target
                && results_for_all.contains_key(stop_id),
        results_for_one.contains_key(target) ==> results_for_one[target]@
            == results_for_all[target]@,
{
    assert(results_for_one.contains_key(target) == results_for_all.contains_key(target));
}

/// Section `i` is that of the label of its last stop in its round, which was left from the stop,
/// and from the round, that the section before has reached.
pub open spec fn is_of_label(
    s: SearchState,
    departure_stop_id: i32,
    sections: Seq<RouteSection>,
    rounds: Seq<int>,
    i: int,
) -> bool {
    let section = sections[i];
    let label = s.label(rounds[i], section.arrival_stop_id);
    &&& s.has(rounds[i], section.arrival_stop_id)
    &&& section.journey_id == label.journey_id
    &&& section.departure_stop_id == label.boarding_stop_id
    &&& section.arrival_at == label.arrival_time
    &&& section.duration == label.transfer_duration
    &&& i == 0 ==> label.from_stop_id == departure_stop_id
    &&& i > 0 ==> label.from_stop_id == sections[i - 1].arrival_stop_id && label.source_round
        == rounds[i - 1]
}

/// The sections are those of labels, each of which leads on from the one before.
pub open spec fn follow_labels(
    s: SearchState,
    departure_stop_id: i32,
    sections: Seq<RouteSection>,
    rounds: Seq<int>,
) -> bool {
    &&& rounds.len() == sections.len()
    &&& forall|i: int|
        0 <= i < sections.len() ==> #[trigger] is_of_label(
            s,
            departure_stop_id,
            sections,
            rounds,
            i,
        )
}

/// The rounds of the labels on a way back.
proof fn lemma_way_rounds(
    s: SearchState,
    departure_stop_id: i32,
    round: int,
    stop_id: i32,
    seen: Set<i32>,
    steps: nat,
) -> (rounds: Seq<int>)
    requires
        way_back(s, departure_stop_id, round, stop_id, seen, steps) is Some,
    ensures
        ({
            let sections = way_back(s, departure_stop_id, round, stop_id, seen, steps)->0;
            &&& follow_labels(s, departure_stop_id, sections, rounds)
            &&& stop_id != departure_stop_id ==> rounds.len() > 0 && rounds.last() == round
        }),
    decreases steps,
{
    if stop_id == departure_stop_id {
        Seq::empty()
    } else {
        let label = s.label(round, stop_id);
        let now = seen.insert(stop_id);
        let less = (steps - 1) as nat;
        let source = label.source_round as int;
        let before = way_back(s, departure_stop_id, source, label.from_stop_id, now, less)->0;
        let earlier = lemma_way_rounds(
            s,
            departure_stop_id,
            source,
            label.from_stop_id,
            now,
            less,
        );
        lemma_way(s, departure_stop_id, source, label.from_stop_id, now, less);
        let sections = before.push(section_of(label, stop_id));
        let rounds = earlier.push(round);
        assert forall|i: int| 0 <= i < sections.len() implies #[trigger] is_of_label(
            s,
            departure_stop_id,
            sections,
            rounds,
            i,
        ) by {
            if i < before.len() {
                assert(is_of_label(s, departure_stop_id, before, earlier, i));
            }
        }
        rounds
    }
}

/// The round is the earliest that has reached the stop at its best arrival.
pub open spec fn is_earliest_best(s: SearchState, stop_id: i32, round: int) -> bool {
    &&& s.best.contains_key(stop_id)
    &&& s.has(round, stop_id)
    &&& s.label(round, stop_id).arrival_time == s.best[stop_id]
    &&& forall|r: int| #[trigger]
        s.has(r, stop_id) && r < round ==> s.label(r, stop_id).arrival_time != s.best[stop_id]
}

/// There is one earliest round with the best arrival, and it is the best round.
proof fn lemma_earliest_best(s: SearchState, stop_id: i32, round: int)
    ensures
        is_earliest_best(s, stop_id, round) <==> has_best_label(s, stop_id) && round == best_round(
            s,
            stop_id,
        ),
{
    if has_best_label(s, stop_id) {
        let held = choose|r: int| #[trigger] is_best_label(s, stop_id, r);
        lemma_best_round(s, stop_id, held);
        let best = best_round(s, stop_id);
        assert forall|r: int| #[trigger] s.has(r, stop_id) && r < best implies s.label(
            r,
            stop_id,
        ).arrival_time != s.best[stop_id] by {
            assert(!is_best_label(s, stop_id, r));
        }
    }
    if is_earliest_best(s, stop_id, round) {
        assert(is_best_label(s, stop_id, round));
        lemma_best_round(s, stop_id, round);
        assert(is_best_label(s, stop_id, best_round(s, stop_id)));
    }
}

/// A route is read from the labels: it ends with that of the best arrival at its stop, in the
/// earliest round that holds it, and each section goes on from the label that its own names. It
/// visits the departure stop and the stops where its sections end, and no others.
pub proof fn routes_follow_the_labels(
    s: SearchState,
    departure_stop_id: i32,
    stop_id: i32,
) -> (rounds: Seq<int>)
    requires
        route_to(s, departure_stop_id, stop_id) is Some,
    ensures
        ({
            let route = route_to(s, departure_stop_id, stop_id)->0;
            &&& stop_id != departure_stop_id
            &&& route.sections.len() > 0
            &&& follow_labels(s, departure_stop_id, route.sections, rounds)
            &&& route.sections.last().arrival_stop_id == stop_id
            &&& is_earliest_best(s, stop_id, rounds.last())
            &&& forall|x: i32| #[trigger]
                route.visited_stops.contains(x) <==> x == departure_stop_id || exists|i: int|
                    0 <= i < route.sections.len() && (
                    #[trigger] route.sections[i]).arrival_stop_id == x
        }),
{
    let round = best_round(s, stop_id);
    lemma_earliest_best(s, stop_id, round);
    routes_of_any_labels_connect(s, departure_stop_id, stop_id);
    lemma_way_rounds(s, departure_stop_id, round, stop_id, Set::empty(), STOP_IDS as nat)
}

/// The way back along labels that lead to the departure stop.
proof fn lemma_labels_lead_back(
    s: SearchState,
    departure_stop_id: i32,
    sections: Seq<RouteSection>,
    rounds: Seq<int>,
    n: int,
    seen: Set<i32>,
    steps: nat,
)
    requires
        follow_labels(s, departure_stop_id, sections, rounds),
        has_no_cycle(departure_stop_id, sections),
        0 < n <= sections.len(),
        n <= steps,
        forall|i: int|
            0 <= i < n ==> !seen.contains((#[trigger] sections[i]).arrival_stop_id),
    ensures
        way_back(
            s,
            departure_stop_id,
            rounds[n - 1],
            sections[n - 1].arrival_stop_id,
            seen,
            steps,
        ) == Some(sections.take(n)),
    decreases n,
{
    let section = sections[n - 1];
    let stop_id = section.arrival_stop_id;
    let label = s.label(rounds[n - 1], stop_id);
    assert(is_of_label(s, departure_stop_id, sections, rounds, n - 1));
    assert(section_of(label, stop_id) == section);
    assert(sections.take(n) =~= sections.take(n - 1).push(section));
    let rest = way_back(
        s,
        departure_stop_id,
        label.source_round as int,
        label.from_stop_id,
        seen.insert(stop_id),
        (steps - 1) as nat,
    );
    assert(stop_id != departure_stop_id && !seen.contains(stop_id));
    if n > 1 {
        lemma_labels_lead_back(
            s,
            departure_stop_id,
            sections,
            rounds,
            n - 1,
            seen.insert(stop_id),
            (steps - 1) as nat,
        );
    } else {
        assert(sections.take(0) =~= Seq::empty());
    }
    assert(rest == Some(sections.take(n - 1)));
}

/// Labels that lead back to the departure stop without visiting a stop twice give the route, and
/// the route is that of no other labels.
pub proof fn labels_that_lead_back_give_the_route(
    s: SearchState,
    departure_stop_id: i32,
    sections: Seq<RouteSection>,
    rounds: Seq<int>,
)
    requires
        sections.len() > 0,
        follow_labels(s, departure_stop_id, sections, rounds),
        is_earliest_best(s, sections.last().arrival_stop_id, rounds.last()),
        has_no_cycle(departure_stop_id, sections),
    ensures
        route_to(s, departure_stop_id, sections.last().arrival_stop_id) matches Some(route)
            && route.sections == sections,
{
    let n = sections.len() as int;
    let stops = Seq::new(sections.len(), |i: int| sections[i].arrival_stop_id);
    assert(stops.no_duplicates());
    stops.unique_seq_to_set();
    lemma_stop_ids(stops.to_set());
    lemma_earliest_best(s, sections.last().arrival_stop_id, rounds.last());
    lemma_labels_lead_back(
        s,
        departure_stop_id,
        sections,
        rounds,
        n,
        Set::empty(),
        STOP_IDS as nat,
    );
    assert(sections.take(n) =~= sections);
}

} // verus!
