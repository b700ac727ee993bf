//! The routes that the labels of a search describe.

use crate::fx::{lists, map_contains_key, map_get, map_insert, map_keys, set_contains, set_insert};
use crate::routing::models::{
    Route, RouteSection, RouteView, RoutingAlgorithmArgs, RoutingAlgorithmMode,
};
use crate::routing::state::{RaptorLabel, RaptorState, SearchState};
use rustc_hash::{FxHashMap, FxHashSet};
use vstd::prelude::*;
use vstd::set_lib::{lemma_int_range, lemma_len_subset, lemma_map_size_bound, set_int_range};

verus! {

/// The label leads on from an earlier arrival in the same round or an earlier one.
pub open spec fn leads_back(s: SearchState, round: int, stop_id: i32) -> bool {
    let label = s.label(round, stop_id);
    &&& label.source_round <= round
    &&& s.has(label.source_round as int, label.from_stop_id)
    &&& s.label(label.source_round as int, label.from_stop_id).arrival_time < label.arrival_time
}

/// The labels can be followed back to the departure stop: each leads on from an earlier arrival
/// in the same round or an earlier one, a stop is reached earlier in each later round that
/// reaches it, and the best arrival is that of a label.
pub open spec fn is_traceable(s: SearchState, departure_stop_id: i32) -> bool {
    &&& forall|round: int, stop_id: i32|
        s.has(round, stop_id) && stop_id != departure_stop_id ==> #[trigger] leads_back(
            s,
            round,
            stop_id,
        )
    &&& forall|r1: int, r2: int, stop_id: i32| #[trigger]
        s.has(r1, stop_id) && #[trigger] s.has(r2, stop_id) && r1 < r2 ==> s.label(
            r2,
            stop_id,
        ).arrival_time < s.label(r1, stop_id).arrival_time
    &&& forall|stop_id: i32| #[trigger] s.best.contains_key(stop_id) ==> has_best_label(s, stop_id)
}

/// The section of a route that a label stands for.
pub open spec fn section_of(label: RaptorLabel, stop_id: i32) -> RouteSection {
    RouteSection {
        journey_id: label.journey_id,
        departure_stop_id: label.boarding_stop_id,
        arrival_stop_id: stop_id,
        arrival_at: label.arrival_time,
        duration: label.transfer_duration,
    }
}

/// The sections that lead from the departure stop to the label of the stop in the round: those
/// that lead to the label from which it leads on, and then its own.
pub open spec fn sections_to(
    s: SearchState,
    departure_stop_id: i32,
    round: int,
    stop_id: i32,
) -> Seq<RouteSection>
    decreases s.label(round, stop_id).arrival_time - i64::MIN,
    when is_traceable(s, departure_stop_id) && s.has(round, stop_id)
{
    let label = s.label(round, stop_id);
    if stop_id == departure_stop_id {
        Seq::empty()
    } else {
        proof {
            assert(leads_back(s, round, stop_id));
        }
        sections_to(
            s,
            departure_stop_id,
            label.source_round as int,
            label.from_stop_id,
        ).push(section_of(label, stop_id))
    }
}

/// The stop was reached in the round at its best arrival.
pub open spec fn is_best_label(s: SearchState, stop_id: i32, round: int) -> bool {
    s.has(round, stop_id) && s.label(round, stop_id).arrival_time == s.best[stop_id]
}

/// The earliest round in which the stop was reached at its best arrival.
pub open spec fn is_best_round(s: SearchState, stop_id: i32, round: int) -> bool {
    &&& is_best_label(s, stop_id, round)
    &&& forall|r: int| r < round ==> !#[trigger] is_best_label(s, stop_id, r)
}

/// The earliest round in which the stop was reached at its best arrival.
pub open spec fn best_round(s: SearchState, stop_id: i32) -> int {
    choose|round: int| is_best_round(s, stop_id, round)
}

/// Where a round holds the best arrival, the best round is the earliest that does.
pub proof fn lemma_best_round(s: SearchState, stop_id: i32, round: int)
    requires
        is_best_label(s, stop_id, round),
    ensures
        is_best_round(s, stop_id, best_round(s, stop_id)),
    decreases round,
{
    if exists|r: int| r < round && #[trigger] is_best_label(s, stop_id, r) {
        let r = choose|r: int| r < round && #[trigger] is_best_label(s, stop_id, r);
        lemma_best_round(s, stop_id, r);
    } else {
        assert(is_best_round(s, stop_id, round));
    }
}

/// There is a best arrival at the stop, and a label for it.
pub open spec fn has_best_label(s: SearchState, stop_id: i32) -> bool {
    s.best.contains_key(stop_id) && exists|round: int| #[trigger] is_best_label(s, stop_id, round)
}

/// How many stop ids there are.
pub const STOP_IDS: u64 = 0x1_0000_0000;

/// The sections on the way back from the label of the stop in the round to the departure stop, in
/// the order in which they are travelled. There is no way back where a label is missing, or where
/// a stop comes up that is in `seen` or came up before. It has at most `steps` sections.
pub open spec fn way_back(
    s: SearchState,
    departure_stop_id: i32,
    round: int,
    stop_id: i32,
    seen: Set<i32>,
    steps: nat,
) -> Option<Seq<RouteSection>>
    decreases steps,
{
    if stop_id == departure_stop_id {
        Some(Seq::empty())
    } else if steps == 0 || !s.has(round, stop_id) || seen.contains(stop_id) {
        None
    } else {
        let label = s.label(round, stop_id);
        match way_back(
            s,
            departure_stop_id,
            label.source_round as int,
            label.from_stop_id,
            seen.insert(stop_id),
            (steps - 1) as nat,
        ) {
            Some(before) => Some(before.push(section_of(label, stop_id))),
            None => None,
        }
    }
}

/// A set of stop ids is finite, with no more members than there are stop ids.
pub proof fn lemma_stop_ids(seen: Set<i32>)
    ensures
        seen.finite(),
        seen.len() <= STOP_IDS,
{
    let numbers = set_int_range(i32::MIN as int, i32::MAX + 1);
    let f = |i: int| i as i32;
    let all = numbers.map(f);
    lemma_int_range(i32::MIN as int, i32::MAX + 1);
    lemma_map_size_bound(numbers, all, f);
    assert forall|x: i32| #[trigger] seen.contains(x) implies all.contains(x) by {
        assert(numbers.contains(x as int));
        assert(f(x as int) == x);
    }
    lemma_len_subset(seen, all);
}

/// A set of stop ids that lacks one has fewer members than there are stop ids.
proof fn lemma_stop_ids_left(seen: Set<i32>, stop_id: i32)
    requires
        !seen.contains(stop_id),
    ensures
        seen.len() < STOP_IDS,
        seen.insert(stop_id).len() == seen.len() + 1,
{
    lemma_stop_ids(seen);
    lemma_stop_ids(seen.insert(stop_id));
}

/// The stops that came up on the way back have later arrivals than that of the stop in the round.
spec fn are_later(s: SearchState, round: int, stop_id: i32, seen: Set<i32>) -> bool {
    forall|x: i32| #[trigger] seen.contains(x) ==> is_later(s, round, stop_id, x)
}

/// The stop `x` was reached in the round or a later one, later than `stop_id` in the round.
spec fn is_later(s: SearchState, round: int, stop_id: i32, x: i32) -> bool {
    exists|r: int|
        round <= r && #[trigger] s.has(r, x) && s.label(r, x).arrival_time > s.label(
            round,
            stop_id,
        ).arrival_time
}

/// Where the labels can be followed back, the way back is that of the labels.
pub proof fn lemma_way_back(
    s: SearchState,
    departure_stop_id: i32,
    round: int,
    stop_id: i32,
)
    requires
        is_traceable(s, departure_stop_id),
        s.has(round, stop_id),
    ensures
        way_back(
            s,
            departure_stop_id,
            round,
            stop_id,
            Set::empty(),
            STOP_IDS as nat,
        ) == Some(sections_to(s, departure_stop_id, round, stop_id)),
{
    lemma_way_back_from(s, departure_stop_id, round, stop_id, Set::empty(), STOP_IDS as nat);
}

/// The same from a label on the way, with the stops that came up before it.
proof fn lemma_way_back_from(
    s: SearchState,
    departure_stop_id: i32,
    round: int,
    stop_id: i32,
    seen: Set<i32>,
    steps: nat,
)
    requires
        is_traceable(s, departure_stop_id),
        s.has(round, stop_id),
        steps + seen.len() == STOP_IDS,
        are_later(s, round, stop_id, seen),
    ensures
        way_back(s, departure_stop_id, round, stop_id, seen, steps) == Some(
            sections_to(s, departure_stop_id, round, stop_id),
        ),
    decreases s.label(round, stop_id).arrival_time - i64::MIN,
{
    if stop_id != departure_stop_id {
        let label = s.label(round, stop_id);
        assert(leads_back(s, round, stop_id));
        if seen.contains(stop_id) {
            assert(is_later(s, round, stop_id, stop_id));
        }
        lemma_stop_ids_left(seen, stop_id);
        let now = seen.insert(stop_id);
        let from_round = label.source_round as int;
        let from = label.from_stop_id;
        assert forall|x: i32| #[trigger] now.contains(x) implies is_later(
            s,
            from_round,
            from,
            x,
        ) by {
            if x == stop_id {
                assert(s.has(round, x));
            } else {
                assert(is_later(s, round, stop_id, x));
                let r = choose|r: int|
                    round <= r && #[trigger] s.has(r, x) && s.label(r, x).arrival_time > s.label(
                        round,
                        stop_id,
                    ).arrival_time;
                assert(s.has(r, x));
            }
        }
        lemma_way_back_from(s, departure_stop_id, from_round, from, now, (steps - 1) as nat);
    }
}

/// The stops at which the sections of a route start and end.
pub open spec fn stops_of(departure_stop_id: i32, sections: Seq<RouteSection>) -> Set<i32> {
    Set::new(
        |stop_id: i32|
            stop_id == departure_stop_id || exists|i: int|
                0 <= i < sections.len() && (#[trigger] sections[i]).arrival_stop_id == stop_id,
    )
}

/// The route to a stop, read from the label of its best arrival: of the earliest round where
/// several rounds hold it. There is none to the departure stop, to a stop without such a label,
/// and where the labels do not lead back to the departure stop.
pub open spec fn route_to(s: SearchState, departure_stop_id: i32, stop_id: i32) -> Option<
    RouteView,
> {
    if stop_id != departure_stop_id && has_best_label(s, stop_id) {
        match way_back(
            s,
            departure_stop_id,
            best_round(s, stop_id),
            stop_id,
            Set::empty(),
            STOP_IDS as nat,
        ) {
            Some(sections) => Some(
                RouteView { sections, visited_stops: stops_of(departure_stop_id, sections) },
            ),
            None => None,
        }
    } else {
        None
    }
}

/// The route holds a ride, and no walk at its start or end stands alone or next to another walk.
pub open spec fn is_valid(sections: Seq<RouteSection>) -> bool {
    let n = sections.len() as int;
    &&& exists|i: int| 0 <= i < n && (#[trigger] sections[i]).journey_id is Some
    &&& sections[0].journey_id is None ==> n >= 2 && sections[1].journey_id is Some
    &&& sections[n - 1].journey_id is None ==> n >= 2 && sections[n - 2].journey_id is Some
}

/// A search with the arguments is answered with a route to the stop.
pub open spec fn is_answered(
    s: SearchState,
    departure_stop_id: i32,
    args: RoutingAlgorithmArgs,
    stop_id: i32,
) -> bool {
    &&& args.target() matches Some(target) ==> stop_id == target
    &&& route_to(s, departure_stop_id, stop_id) matches Some(route)
    &&& is_valid(route.sections)
}

/// The results are the routes with which the search is answered.
pub open spec fn are_results(
    s: SearchState,
    departure_stop_id: i32,
    args: RoutingAlgorithmArgs,
    results: Map<i32, Route>,
) -> bool {
    forall|stop_id: i32|
        {
            &&& #[trigger] results.contains_key(stop_id) <==> is_answered(
                s,
                departure_stop_id,
                args,
                stop_id,
            )
            &&& results.contains_key(stop_id) ==> Some(results[stop_id]@) == route_to(
                s,
                departure_stop_id,
                stop_id,
            )
        }
}

/// Whether a route can be handed out: it holds a ride, and a walk at its start or end has a ride
/// next to it.
pub fn is_valid_route(route: &Route) -> (r: bool)
    ensures
        r == is_valid(route@.sections),
{
    let sections = route.sections();
    if sections.len() == 0 {
        return false;
    }
    let mut has_transit = false;
    let mut i: usize = 0;
    while i < sections.len()
        invariant
            i <= sections@.len(),
            has_transit <==> exists|k: int|
                0 <= k < i && (#[trigger] sections@[k]).journey_id is Some,
        decreases sections@.len() - i,
    {
        if sections[i].journey_id().is_some() {
            assert(sections@[i as int].journey_id is Some);
            has_transit = true;
        }
        i += 1;
    }
    if !has_transit {
        return false;
    }
    if sections[0].journey_id().is_none() {
        if sections.len() < 2 || sections[1].journey_id().is_none() {
            return false;
        }
    }
    if sections[sections.len() - 1].journey_id().is_none() {
        if sections.len() < 2 || sections[sections.len() - 2].journey_id().is_none() {
            return false;
        }
    }
    true
}

/// The earliest round in which the stop was reached at its best arrival, if there is one.
fn find_best_round(state: &RaptorState, stop_id: i32) -> (r: Option<usize>)
    ensures
        r is Some <==> has_best_label(state@, stop_id),
        r matches Some(round) ==> round == best_round(state@, stop_id),
{
    let best_arrival = match map_get(&state.best_arrival, &stop_id) {
        Some(t) => *t,
        None => {
            return None;
        },
    };
    let mut round: usize = 0;
    while round < state.labels_per_round.len()
        invariant
            round <= state@.labels.len(),
            state.labels_per_round@.len() == state@.labels.len(),
            state@.best.contains_key(stop_id),
            best_arrival == state@.best[stop_id],
            forall|r: int| r < round ==> !#[trigger] is_best_label(state@, stop_id, r),
        decreases state@.labels.len() - round,
    {
        if let Some(label) = state.get_label(stop_id, round) {
            if label.arrival_time == best_arrival {
                assert(is_best_label(state@, stop_id, round as int));
                assert(is_best_round(state@, stop_id, round as int));
                assert(is_best_round(state@, stop_id, best_round(state@, stop_id)));
                return Some(round);
            }
        }
        round += 1;
    }
    None
}

/// The route to a stop, by following the labels back to the departure stop.
pub fn reconstruct_route(
    state: &RaptorState,
    departure_stop_id: i32,
    target_stop_id: i32,
) -> (r: Option<Route>)
    ensures
        match r {
            Some(route) => Some(route@) == route_to(state@, departure_stop_id, target_stop_id),
            None => route_to(state@, departure_stop_id, target_stop_id) is None,
        },
{
    let mut sections: Vec<RouteSection> = Vec::new();
    let mut visited_stops: FxHashSet<i32> = FxHashSet::default();
    let mut current_stop = target_stop_id;
    let best = match find_best_round(state, target_stop_id) {
        Some(round) => round,
        None => {
            return None;
        },
    };
    let mut round: usize = best;
    let ghost all = way_back(
        state@,
        departure_stop_id,
        best as int,
        target_stop_id,
        Set::empty(),
        STOP_IDS as nat,
    );
    assert(all is Some ==> all->0 =~= all->0 + sections@.reverse());
    while current_stop != departure_stop_id
        invariant
            all == way_back(
                state@,
                departure_stop_id,
                best_round(state@, target_stop_id),
                target_stop_id,
                Set::empty(),
                STOP_IDS as nat,
            ),
            visited_stops@.len() == sections@.len(),
            sections@.len() <= STOP_IDS,
            ({
                let rest = way_back(
                    state@,
                    departure_stop_id,
                    round as int,
                    current_stop,
                    visited_stops@,
                    (STOP_IDS - sections@.len()) as nat,
                );
                &&& all is Some <==> rest is Some
                &&& all is Some ==> all->0 == rest->0 + sections@.reverse()
            }),
            forall|x: i32|
                visited_stops@.contains(x) <==> exists|i: int|
                    0 <= i < sections@.len() && (#[trigger] sections@[i]).arrival_stop_id == x,
            sections@.len() == 0 ==> current_stop == target_stop_id,
        decreases STOP_IDS - sections@.len(),
    {
        let label = match state.get_label(current_stop, round) {
            Some(label) => *label,
            None => {
                return None;
            },
        };
        if set_contains(&visited_stops, &current_stop) {
            return None;
        }
        proof {
            lemma_stop_ids_left(visited_stops@, current_stop);
        }
        let ghost before = sections@;
        let ghost seen = visited_stops@;
        let section = RouteSection::new(
            label.journey_id,
            label.boarding_stop_id,
            current_stop,
            label.arrival_time,
            label.transfer_duration,
        );
        set_insert(&mut visited_stops, current_stop);
        sections.push(section);
        proof {
            let rest = way_back(
                state@,
                departure_stop_id,
                label.source_round as int,
                label.from_stop_id,
                visited_stops@,
                (STOP_IDS - sections@.len()) as nat,
            );
            if rest is Some {
                assert(rest->0.push(section) + before.reverse() =~= rest->0 + sections@.reverse());
            }
            assert forall|x: i32| visited_stops@.contains(x) <==> exists|i: int|
                0 <= i < sections@.len() && (#[trigger] sections@[i]).arrival_stop_id == x by {
                if seen.contains(x) {
                    let i = choose|i: int|
                        0 <= i < before.len() && (#[trigger] before[i]).arrival_stop_id == x;
                    assert(sections@[i].arrival_stop_id == x);
                }
                if x == current_stop {
                    assert(sections@[before.len() as int].arrival_stop_id == x);
                }
                if exists|i: int|
                    0 <= i < sections@.len() && (#[trigger] sections@[i]).arrival_stop_id == x {
                    let i = choose|i: int|
                        0 <= i < sections@.len() && (#[trigger] sections@[i]).arrival_stop_id == x;
                    if i < before.len() {
                        assert(before[i].arrival_stop_id == x);
                    }
                }
            }
        }
        current_stop = label.from_stop_id;
        round = label.source_round;
    }
    if sections.len() == 0 {
        return None;
    }
    set_insert(&mut visited_stops, departure_stop_id);
    let ghost backwards = sections@;
    let mut forwards: Vec<RouteSection> = Vec::new();
    let mut i: usize = sections.len();
    while i > 0
        invariant
            i <= sections@.len(),
            sections@ == backwards,
            forwards@ == backwards.skip(i as int).reverse(),
        decreases i,
    {
        i -= 1;
        forwards.push(sections[i]);
        assert(forwards@ =~= backwards.skip(i as int).reverse());
    }
    assert(backwards.skip(0) =~= backwards);
    proof {
        let all = all->0;
        assert(all =~= forwards@);
        assert(visited_stops@ =~= stops_of(departure_stop_id, all)) by {
            assert forall|x: i32| visited_stops@.contains(x) == stops_of(
                departure_stop_id,
                all,
            ).contains(x) by {
                if exists|i: int|
                    0 <= i < backwards.len() && (#[trigger] backwards[i]).arrival_stop_id == x {
                    let i = choose|i: int|
                        0 <= i < backwards.len() && (#[trigger] backwards[i]).arrival_stop_id == x;
                    assert(all[backwards.len() - 1 - i].arrival_stop_id == x);
                }
                if exists|i: int|
                    0 <= i < all.len() && (#[trigger] all[i]).arrival_stop_id == x {
                    let i = choose|i: int|
                        0 <= i < all.len() && (#[trigger] all[i]).arrival_stop_id == x;
                    assert(backwards[backwards.len() - 1 - i].arrival_stop_id == x);
                }
            }
        }
    }
    Some(Route::new(forwards, visited_stops))
}

/// Adds the route to a stop to the results, if there is a valid one.
fn add_result(
    state: &RaptorState,
    departure_stop_id: i32,
    stop_id: i32,
    results: &mut FxHashMap<i32, Route>,
)
    ensures
        match route_to(state@, departure_stop_id, stop_id) {
            Some(route) => if is_valid(route.sections) {
                exists|r: Route|
                    r@ == route && #[trigger] old(results)@.insert(stop_id, r) == final(results)@
            } else {
                final(results)@ == old(results)@
            },
            None => final(results)@ == old(results)@,
        },
{
    if let Some(route) = reconstruct_route(state, departure_stop_id, stop_id) {
        if is_valid_route(&route) {
            let ghost added = old(results)@.insert(stop_id, route);
            map_insert(results, stop_id, route);
            assert(results@ == added);
        }
    }
}

/// The routes with which a search is answered: to its target, or to every stop that was reached.
pub fn reconstruct_results(
    state: &RaptorState,
    departure_stop_id: i32,
    args: &RoutingAlgorithmArgs,
) -> (results: FxHashMap<i32, Route>)
    ensures
        are_results(state@, departure_stop_id, *args, results@),
{
    let mut results: FxHashMap<i32, Route> = FxHashMap::default();
    match args.mode() {
        RoutingAlgorithmMode::SolveFromDepartureStopToArrivalStop => {
            let target = args.arrival_stop_id();
            if map_contains_key(&state.best_arrival, &target) {
                add_result(state, departure_stop_id, target, &mut results);
            }
        },
        RoutingAlgorithmMode::SolveFromDepartureStopToReachableArrivalStops => {
            let stops = map_keys(&state.best_arrival);
            let mut i: usize = 0;
            while i < stops.len()
                invariant
                    i <= stops@.len(),
                    lists(stops@, state@.best.dom()),
                    forall|x: i32|
                        {
                            &&& #[trigger] results@.contains_key(x) <==> stops@.take(
                                i as int,
                            ).contains(x) && route_to(state@, departure_stop_id, x) is Some
                                && is_valid(route_to(state@, departure_stop_id, x)->0.sections)
                            &&& results@.contains_key(x) ==> Some(results@[x]@) == route_to(
                                state@,
                                departure_stop_id,
                                x,
                            )
                        },
                decreases stops@.len() - i,
            {
                let stop_id = stops[i];
                if stop_id != departure_stop_id {
                    add_result(state, departure_stop_id, stop_id, &mut results);
                }
                proof {
                    let now = stops@.take(i + 1);
                    let then = stops@.take(i as int);
                    assert(now =~= then.push(stop_id));
                    assert forall|x: i32| now.contains(x) == (then.contains(x) || x == stop_id) by {
                        if then.contains(x) {
                            let k = choose|k: int| 0 <= k < then.len() && then[k] == x;
                            assert(now[k] == x);
                        }
                        if x == stop_id {
                            assert(now[i as int] == x);
                        }
                    }
                    assert forall|x: i32|
                        {
                            &&& #[trigger] results@.contains_key(x) <==> now.contains(x)
                                && route_to(state@, departure_stop_id, x) is Some && is_valid(
                                route_to(state@, departure_stop_id, x)->0.sections,
                            )
                            &&& results@.contains_key(x) ==> Some(results@[x]@) == route_to(
                                state@,
                                departure_stop_id,
                                x,
                            )
                        } by {
                        assert(now.contains(x) == (then.contains(x) || x == stop_id));
                    }
                }
                i += 1;
            }
            assert(stops@.take(i as int) =~= stops@);
            assert forall|x: i32| stops@.contains(x) == state@.best.contains_key(x) by {
                assert(state@.best.dom().contains(x) == stops@.contains(x));
            }
        },
    }
    results
}

} // verus!
