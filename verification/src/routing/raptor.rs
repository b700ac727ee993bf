//! RAPTOR, the round-based public transit router.
//!
//! Round 0 holds the departure stop and the stops within a walk of it. Each round then boards
//! journeys at the stops that the round before improved, and walks on from the stops that it
//! reached by a ride. A round adds one ride, so round `n` holds routes with `n` rides.

use crate::calendar::has_room;
use crate::fx::{lists, map_contains_key, set_drain};
use crate::routing::exploration::{
    after_stop, after_transfers, can_depart, can_process, process_initial_transfers,
    process_stop_journeys, process_transfers, start,
};
use crate::routing::models::{Route, RoutingAlgorithmArgs, RoutingAlgorithmMode};
use crate::routing::reconstruction::{
    are_results, has_best_label, is_best_label, is_traceable, leads_back, reconstruct_results,
};
use crate::routing::soundness::{
    best_is_labelled, follows, inv, label_ok, lemma_boards, lemma_follows_transitive,
    lemma_previous_round, lemma_start, lemma_transfers, up_to, Query,
};
use crate::routing::state::{RaptorState, SearchState};
use crate::timetable::Timetable;
use rustc_hash::FxHashMap;
use vstd::prelude::*;

verus! {

/// The state after a round has boarded at the first `n` stops in turn.
pub open spec fn after_stops(
    timetable: &Timetable,
    args: RoutingAlgorithmArgs,
    s: SearchState,
    stops: Seq<i32>,
    round: usize,
    n: int,
) -> SearchState
    decreases n,
{
    if n <= 0 {
        s
    } else {
        after_stop(
            timetable,
            args,
            after_stops(timetable, args, s, stops, round, n - 1),
            stops[n - 1],
            round,
        )
    }
}

/// The stops that were improved and that the round reached by a ride.
pub open spec fn reached_by_ride(s: SearchState, round: usize) -> Set<i32> {
    Set::new(
        |stop_id: i32|
            s.improved.contains(stop_id) && s.has(round as int, stop_id) && s.label(
                round as int,
                stop_id,
            ).journey_id is Some,
    )
}

/// The state after the walks from the first `n` stops.
pub open spec fn after_all_transfers(
    timetable: &Timetable,
    args: RoutingAlgorithmArgs,
    s: SearchState,
    stops: Seq<i32>,
    round: usize,
    n: int,
) -> SearchState
    decreases n,
{
    if n <= 0 {
        s
    } else {
        after_transfers(
            timetable,
            args,
            after_all_transfers(timetable, args, s, stops, round, n - 1),
            stops[n - 1],
            round,
        )
    }
}

/// The state after a round has boarded at the marked stops in the order `order`.
pub open spec fn after_rides(
    timetable: &Timetable,
    args: RoutingAlgorithmArgs,
    s: SearchState,
    round: usize,
    order: Seq<i32>,
) -> SearchState {
    after_stops(
        timetable,
        args,
        SearchState { marked: Set::empty(), ..s },
        order,
        round,
        order.len() as int,
    )
}

/// The state after a round has boarded at the marked stops in the order `order`, and walked from
/// the stops that it reached by a ride in the order `walkers`.
pub open spec fn after_round(
    timetable: &Timetable,
    args: RoutingAlgorithmArgs,
    s: SearchState,
    round: usize,
    order: Seq<i32>,
    walkers: Seq<i32>,
) -> SearchState {
    after_all_transfers(
        timetable,
        args,
        SearchState { improved: Set::empty(), ..after_rides(timetable, args, s, round, order) },
        walkers,
        round,
        walkers.len() as int,
    )
}

/// A round may take the stops in these orders: `order` lists the marked stops, and `walkers` those
/// that the round reaches by a ride.
pub open spec fn are_orders(
    timetable: &Timetable,
    args: RoutingAlgorithmArgs,
    s: SearchState,
    round: usize,
    order: Seq<i32>,
    walkers: Seq<i32>,
) -> bool {
    &&& lists(order, s.marked)
    &&& lists(walkers, reached_by_ride(after_rides(timetable, args, s, round, order), round))
}

/// `t` may follow `s` by a round. In which order a round takes the stops is left open.
pub open spec fn is_round(
    timetable: &Timetable,
    args: RoutingAlgorithmArgs,
    s: SearchState,
    round: usize,
    t: SearchState,
) -> bool {
    exists|order: Seq<i32>, walkers: Seq<i32>| #[trigger]
        are_orders(timetable, args, s, round, order, walkers) && t == after_round(
            timetable,
            args,
            s,
            round,
            order,
            walkers,
        )
}

/// `t` may be the state in which the rounds from `round` to `last` end when they start with `s`.
/// They end early when no stop is marked.
pub open spec fn is_end(
    timetable: &Timetable,
    args: RoutingAlgorithmArgs,
    s: SearchState,
    round: int,
    last: int,
    t: SearchState,
) -> bool
    decreases last + 1 - round,
{
    if round > last || s.marked.is_empty() {
        t == s
    } else {
        exists|m: SearchState| #[trigger]
            is_round(timetable, args, s, round as usize, m) && is_end(
                timetable,
                args,
                m,
                round + 1,
                last,
                t,
            )
    }
}

/// `t` may be the state in which a search ends that allows `max_rounds` changes of journey.
pub open spec fn is_outcome(
    timetable: &Timetable,
    args: RoutingAlgorithmArgs,
    departure_stop_id: i32,
    departure_at: i64,
    max_rounds: i32,
    t: SearchState,
) -> bool {
    is_end(
        timetable,
        args,
        start(timetable, departure_stop_id, departure_at),
        1,
        max_rounds + 1,
        t,
    )
}

/// The results are the routes of a state in which a search with the arguments may end.
pub open spec fn may_return(
    timetable: &Timetable,
    departure_stop_id: i32,
    departure_at: i64,
    max_rounds: i32,
    _verbose: bool,
    args: RoutingAlgorithmArgs,
    results: Map<i32, Route>,
) -> bool {
    exists|t: SearchState| #[trigger]
        is_outcome(timetable, args, departure_stop_id, departure_at, max_rounds, t) && are_results(
            t,
            departure_stop_id,
            args,
            results,
        )
}

/// The labels of a search can be followed back.
pub proof fn lemma_traceable(timetable: &Timetable, q: Query, s: SearchState)
    requires
        inv(timetable, q, s),
    ensures
        is_traceable(s, q.departure_stop_id),
{
    assert forall|round: int, stop_id: i32|
        s.has(round, stop_id) && stop_id != q.departure_stop_id implies #[trigger] leads_back(
        s,
        round,
        stop_id,
    ) by {
        assert(label_ok(timetable, q, s, round, stop_id));
    }
    assert forall|stop_id: i32| #[trigger] s.best.contains_key(stop_id) implies has_best_label(
        s,
        stop_id,
    ) by {
        assert(best_is_labelled(s, stop_id));
        let round = choose|round: int|
            #[trigger] s.has(round, stop_id) && s.label(round, stop_id).arrival_time
                == s.best[stop_id];
        assert(is_best_label(s, stop_id, round));
    }
}

/// The stops of the list that the round reached by a ride.
fn keep_reached_by_ride(state: &RaptorState, stops: &Vec<i32>, round: usize) -> (r: Vec<i32>)
    requires
        stops@.no_duplicates(),
    ensures
        r@.no_duplicates(),
        forall|x: i32| #[trigger]
            r@.contains(x) <==> stops@.contains(x) && state@.has(round as int, x) && state@.label(
                round as int,
                x,
            ).journey_id is Some,
{
    let mut kept: Vec<i32> = Vec::new();
    let mut i: usize = 0;
    while i < stops.len()
        invariant
            i <= stops@.len(),
            stops@.no_duplicates(),
            kept@.no_duplicates(),
            forall|x: i32| #[trigger]
                kept@.contains(x) <==> stops@.take(i as int).contains(x) && state@.has(
                    round as int,
                    x,
                ) && state@.label(round as int, x).journey_id is Some,
        decreases stops@.len() - i,
    {
        let stop_id = stops[i];
        let by_ride = match state.get_label(stop_id, round) {
            Some(label) => label.journey_id.is_some(),
            None => false,
        };
        let ghost before = kept@;
        let ghost then = stops@.take(i as int);
        let ghost now = stops@.take(i + 1);
        proof {
            assert(now =~= then.push(stop_id));
            assert(!then.contains(stop_id));
            assert(!before.contains(stop_id));
        }
        if by_ride {
            kept.push(stop_id);
        }
        proof {
            assert forall|x: i32| now.contains(x) == (then.contains(x) || x == stop_id) by {
                if then.contains(x) {
                    let k = choose|k: int| 0 <= k < then.len() && then[k] == x;
                    assert(now[k] == x);
                }
                if x == stop_id {
                    assert(now[i as int] == x);
                }
            }
            assert forall|x: i32| kept@.contains(x) == (before.contains(x) || (by_ride && x
                == stop_id)) by {
                if before.contains(x) {
                    let k = choose|k: int| 0 <= k < before.len() && before[k] == x;
                    assert(kept@[k] == x);
                }
                if by_ride && x == stop_id {
                    assert(kept@[before.len() as int] == x);
                }
            }
            assert forall|x: i32| #[trigger] kept@.contains(x) <==> now.contains(x) && state@.has(
                round as int,
                x,
            ) && state@.label(round as int, x).journey_id is Some by {
                assert(before.contains(x) <==> then.contains(x) && state@.has(round as int, x)
                    && state@.label(round as int, x).journey_id is Some);
                assert(now.contains(x) == (then.contains(x) || x == stop_id));
                assert(by_ride == (state@.has(round as int, stop_id) && state@.label(
                    round as int,
                    stop_id,
                ).journey_id is Some));
            }
        }
        i += 1;
    }
    assert(stops@.take(i as int) =~= stops@);
    kept
}

/// The state meets the invariant of a search and holds no label of a round after `round`.
#[verifier::opaque]
pub open spec fn is_sound(timetable: &Timetable, q: Query, s: SearchState, round: int) -> bool {
    inv(timetable, q, s) && up_to(s, round)
}

/// Which stops are marked does not matter to the invariant.
pub proof fn lemma_marks(
    timetable: &Timetable,
    q: Query,
    s: SearchState,
    t: SearchState,
    round: int,
)
    requires
        inv(timetable, q, s),
        up_to(s, round),
        t.labels == s.labels,
        t.best == s.best,
    ensures
        inv(timetable, q, t),
        up_to(t, round),
        follows(s, t, round),
{
    assert forall|r: int, x: i32| t.has(r, x) == s.has(r, x) && t.label(r, x) == s.label(
        r,
        x,
    ) by {}
    assert forall|r: int, x: i32| t.has(r, x) implies #[trigger] label_ok(
        timetable,
        q,
        t,
        r,
        x,
    ) by {
        assert(s.has(r, x));
        assert(label_ok(timetable, q, s, r, x));
        assert(t.has(s.label(r, x).source_round as int, s.label(r, x).from_stop_id) == s.has(
            s.label(r, x).source_round as int,
            s.label(r, x).from_stop_id,
        ));
    }
    assert forall|x: i32| #[trigger] t.best.contains_key(x) implies best_is_labelled(t, x) by {
        assert(best_is_labelled(s, x));
        let r = choose|r: int| #[trigger] s.has(r, x) && s.label(r, x).arrival_time == s.best[x];
        assert(t.has(r, x));
    }
    assert forall|r1: int, r2: int, x: i32| #[trigger] t.has(r1, x) && #[trigger] t.has(r2, x) && r1
        < r2 implies t.label(r2, x).arrival_time < t.label(r1, x).arrival_time by {
        assert(s.has(r1, x) && s.has(r2, x));
    }
    assert(t.has(0, q.departure_stop_id) == s.has(0, q.departure_stop_id));
}

/// A round can board with the labels of a search.
proof fn lemma_can_process(
    timetable: &Timetable,
    q: Query,
    args: RoutingAlgorithmArgs,
    s: SearchState,
    stop_id: i32,
    round: usize,
)
    requires
        round < usize::MAX,
        inv(timetable, q, s),
    ensures
        can_process(timetable, args, s, stop_id, round),
{
    lemma_previous_round(s, stop_id, round as int);
    if let Some(r) = s.previous_round(stop_id, round as int) {
        assert(label_ok(timetable, q, s, r, stop_id));
    }
}

/// Boarding at stops in turn keeps the invariant.
pub proof fn lemma_stops(
    timetable: &Timetable,
    q: Query,
    args: RoutingAlgorithmArgs,
    s: SearchState,
    stops: Seq<i32>,
    round: usize,
    n: int,
)
    requires
        timetable.wf(),
        args.limit() == q.time_limit,
        inv(timetable, q, s),
        up_to(s, round as int),
    ensures
        ({
            let t = after_stops(timetable, args, s, stops, round, n);
            inv(timetable, q, t) && up_to(t, round as int) && follows(s, t, round as int)
        }),
    decreases n,
{
    if n > 0 {
        let m = after_stops(timetable, args, s, stops, round, n - 1);
        lemma_stops(timetable, q, args, s, stops, round, n - 1);
        lemma_boards(timetable, q, args, m, stops[n - 1], round);
        lemma_follows_transitive(
            s,
            m,
            after_stop(timetable, args, m, stops[n - 1], round),
            round as int,
        );
    }
}

/// The round reached each of the stops by a ride.
pub open spec fn are_walkers(s: SearchState, stops: Seq<i32>, round: usize) -> bool {
    forall|k: int|
        0 <= k < stops.len() ==> s.has(round as int, #[trigger] stops[k]) && s.label(
            round as int,
            stops[k],
        ).journey_id is Some
}

/// The stops from which a round walks were reached by a ride.
pub proof fn lemma_walkers(
    middle: SearchState,
    settled: SearchState,
    walkers: Seq<i32>,
    round: usize,
)
    requires
        lists(walkers, reached_by_ride(middle, round)),
        settled.labels == middle.labels,
    ensures
        are_walkers(settled, walkers, round),
{
    assert forall|k: int| 0 <= k < walkers.len() implies settled.has(
        round as int,
        #[trigger] walkers[k],
    ) && settled.label(round as int, walkers[k]).journey_id is Some by {
        assert(walkers.contains(walkers[k]));
        assert(reached_by_ride(middle, round).contains(walkers[k]));
    }
}

/// Walks from a stop that was reached by a ride end in the calendar, also after later
/// improvements.
proof fn lemma_walker(
    timetable: &Timetable,
    q: Query,
    s: SearchState,
    t: SearchState,
    stop_id: i32,
    round: int,
)
    requires
        inv(timetable, q, s),
        inv(timetable, q, t),
        follows(s, t, round),
        s.has(round, stop_id),
        s.label(round, stop_id).journey_id is Some,
    ensures
        t.has(round, stop_id),
        has_room(t.label(round, stop_id).arrival_time as int),
{
    assert(label_ok(timetable, q, s, round, stop_id));
    assert(t.has(round, stop_id));
    assert(label_ok(timetable, q, t, round, stop_id));
}

/// Walking from stops in turn keeps the invariant.
pub proof fn lemma_all_transfers(
    timetable: &Timetable,
    q: Query,
    args: RoutingAlgorithmArgs,
    s: SearchState,
    stops: Seq<i32>,
    round: usize,
    n: int,
)
    requires
        args.limit() == q.time_limit,
        inv(timetable, q, s),
        up_to(s, round as int),
        are_walkers(s, stops, round),
        n <= stops.len(),
    ensures
        ({
            let t = after_all_transfers(timetable, args, s, stops, round, n);
            inv(timetable, q, t) && up_to(t, round as int) && follows(s, t, round as int)
        }),
    decreases n,
{
    if n > 0 {
        let m = after_all_transfers(timetable, args, s, stops, round, n - 1);
        let stop_id = stops[n - 1];
        lemma_all_transfers(timetable, q, args, s, stops, round, n - 1);
        lemma_walker(timetable, q, s, m, stop_id, round as int);
        lemma_transfers(timetable, q, args, m, stop_id, round);
        lemma_follows_transitive(
            s,
            m,
            after_transfers(timetable, args, m, stop_id, round),
            round as int,
        );
    }
}

/// A round keeps the invariant.
pub proof fn lemma_round(
    timetable: &Timetable,
    q: Query,
    args: RoutingAlgorithmArgs,
    s: SearchState,
    round: usize,
    t: SearchState,
)
    requires
        timetable.wf(),
        args.limit() == q.time_limit,
        inv(timetable, q, s),
        up_to(s, round as int),
        is_round(timetable, args, s, round, t),
    ensures
        inv(timetable, q, t),
        up_to(t, round as int),
        follows(s, t, round as int),
{
    let (order, walkers) = choose|order: Seq<i32>, walkers: Seq<i32>| #[trigger]
        are_orders(timetable, args, s, round, order, walkers) && t == after_round(
            timetable,
            args,
            s,
            round,
            order,
            walkers,
        );
    let middle = after_rides(timetable, args, s, round, order);
    let unmarked = SearchState { marked: Set::empty(), ..s };
    let settled = SearchState { improved: Set::empty(), ..middle };
    lemma_marks(timetable, q, s, unmarked, round as int);
    lemma_stops(timetable, q, args, unmarked, order, round, order.len() as int);
    lemma_marks(timetable, q, middle, settled, round as int);
    lemma_walkers(middle, settled, walkers, round);
    lemma_all_transfers(
        timetable,
        q,
        args,
        settled,
        walkers,
        round,
        walkers.len() as int,
    );
    lemma_follows_transitive(s, unmarked, middle, round as int);
    lemma_follows_transitive(s, middle, settled, round as int);
    lemma_follows_transitive(s, settled, t, round as int);
}

/// A round can board at the next stop.
proof fn lemma_next_boarding(
    timetable: &Timetable,
    q: Query,
    args: RoutingAlgorithmArgs,
    s: SearchState,
    stops: Seq<i32>,
    round: usize,
    n: int,
)
    requires
        timetable.wf(),
        round < usize::MAX,
        args.limit() == q.time_limit,
        is_sound(timetable, q, s, round as int),
    ensures
        can_process(
            timetable,
            args,
            after_stops(timetable, args, s, stops, round, n),
            stops[n],
            round,
        ),
{
    let t = after_stops(timetable, args, s, stops, round, n);
    reveal(is_sound);
    lemma_stops(timetable, q, args, s, stops, round, n);
    lemma_can_process(timetable, q, args, t, stops[n], round);
}

/// The next stop was reached in the round, and the walks from it end in the calendar.
pub proof fn lemma_next_walk(
    timetable: &Timetable,
    q: Query,
    args: RoutingAlgorithmArgs,
    s: SearchState,
    stops: Seq<i32>,
    round: usize,
    n: int,
)
    requires
        args.limit() == q.time_limit,
        is_sound(timetable, q, s, round as int),
        are_walkers(s, stops, round),
        0 <= n < stops.len(),
    ensures
        ({
            let t = after_all_transfers(timetable, args, s, stops, round, n);
            t.has(round as int, stops[n]) && has_room(
                t.label(round as int, stops[n]).arrival_time as int,
            )
        }),
{
    reveal(is_sound);
    let t = after_all_transfers(timetable, args, s, stops, round, n);
    lemma_all_transfers(timetable, q, args, s, stops, round, n);
    lemma_walker(timetable, q, s, t, stops[n], round as int);
}

/// Boards at the stops in turn.
fn board_stops(
    timetable: &Timetable,
    state: &mut RaptorState,
    stops: &Vec<i32>,
    round: usize,
    args: &RoutingAlgorithmArgs,
    Ghost(q): Ghost<Query>,
)
    requires
        timetable.wf(),
        round < usize::MAX,
        args.limit() == q.time_limit,
        is_sound(timetable, q, old(state)@, round as int),
    ensures
        final(state)@ == after_stops(
            timetable,
            *args,
            old(state)@,
            stops@,
            round,
            stops@.len() as int,
        ),
{
    let mut i: usize = 0;
    while i < stops.len()
        invariant
            i <= stops@.len(),
            timetable.wf(),
            round < usize::MAX,
            args.limit() == q.time_limit,
            is_sound(timetable, q, old(state)@, round as int),
            state@ == after_stops(timetable, *args, old(state)@, stops@, round, i as int),
        decreases stops@.len() - i,
    {
        proof {
            lemma_next_boarding(timetable, q, *args, old(state)@, stops@, round, i as int);
        }
        process_stop_journeys(timetable, state, stops[i], round, args);
        i += 1;
    }
}

/// Walks from the stops in turn.
fn walk_from_stops(
    timetable: &Timetable,
    state: &mut RaptorState,
    stops: &Vec<i32>,
    round: usize,
    args: &RoutingAlgorithmArgs,
    Ghost(q): Ghost<Query>,
)
    requires
        round < usize::MAX,
        args.limit() == q.time_limit,
        is_sound(timetable, q, old(state)@, round as int),
        are_walkers(old(state)@, stops@, round),
    ensures
        final(state)@ == after_all_transfers(
            timetable,
            *args,
            old(state)@,
            stops@,
            round,
            stops@.len() as int,
        ),
{
    let mut i: usize = 0;
    while i < stops.len()
        invariant
            i <= stops@.len(),
            round < usize::MAX,
            args.limit() == q.time_limit,
            is_sound(timetable, q, old(state)@, round as int),
            are_walkers(old(state)@, stops@, round),
            state@ == after_all_transfers(
                timetable,
                *args,
                old(state)@,
                stops@,
                round,
                i as int,
            ),
        decreases stops@.len() - i,
    {
        proof {
            lemma_next_walk(timetable, q, *args, old(state)@, stops@, round, i as int);
        }
        process_transfers(timetable, state, stops[i], round, args);
        i += 1;
    }
}

/// Runs a round: boards at every marked stop, and walks from every stop that was reached by a
/// ride.
fn process_round(
    timetable: &Timetable,
    state: &mut RaptorState,
    round: usize,
    args: &RoutingAlgorithmArgs,
    Ghost(q): Ghost<Query>,
)
    requires
        timetable.wf(),
        round < usize::MAX,
        args.limit() == q.time_limit,
        is_sound(timetable, q, old(state)@, round as int),
    ensures
        is_round(timetable, *args, old(state)@, round, final(state)@),
{
    let stops_to_process = set_drain(&mut state.marked_stops);
    let ghost unmarked = SearchState { marked: Set::empty(), ..old(state)@ };
    assert(state@ == unmarked);
    assert(is_sound(timetable, q, unmarked, round as int)) by {
        reveal(is_sound);
        lemma_marks(timetable, q, old(state)@, unmarked, round as int);
    }
    board_stops(timetable, state, &stops_to_process, round, args, Ghost(q));
    let ghost middle = state@;
    let improved = set_drain(&mut state.round_improved_stops);
    let ghost settled = SearchState { improved: Set::empty(), ..middle };
    assert(state@ == settled);
    assert(is_sound(timetable, q, settled, round as int)) by {
        reveal(is_sound);
        lemma_stops(
            timetable,
            q,
            *args,
            unmarked,
            stops_to_process@,
            round,
            stops_to_process@.len() as int,
        );
        lemma_marks(timetable, q, middle, settled, round as int);
    }
    let walkers = keep_reached_by_ride(state, &improved, round);
    proof {
        assert forall|x: i32| #[trigger] walkers@.contains(x) <==> reached_by_ride(
            middle,
            round,
        ).contains(x) by {
            assert(improved@.contains(x) <==> middle.improved.contains(x));
            assert(settled.has(round as int, x) == middle.has(round as int, x));
        }
        lemma_walkers(middle, settled, walkers@, round);
    }
    walk_from_stops(timetable, state, &walkers, round, args, Ghost(q));
    assert(are_orders(
        timetable,
        *args,
        old(state)@,
        round,
        stops_to_process@,
        walkers@,
    ));
}

/// Searches routes from a stop and an instant of departure, with at most `max_rounds` changes of
/// journey. The results are the valid routes of a state in which such a search may end.
pub fn raptor_compute(
    timetable: &Timetable,
    departure_stop_id: i32,
    departure_at: i64,
    max_rounds: i32,
    _verbose: bool,
    args: RoutingAlgorithmArgs,
) -> (results: FxHashMap<i32, Route>)
    requires
        timetable.wf(),
        can_depart(timetable, departure_stop_id, departure_at),
        max_rounds < i32::MAX,
    ensures
        may_return(
            timetable,
            departure_stop_id,
            departure_at,
            max_rounds,
            _verbose,
            args,
            results@,
        ),
{
    let ghost q = Query { departure_stop_id, departure_at, time_limit: args.limit() };
    let mut state = RaptorState::new(departure_stop_id, departure_at);
    process_initial_transfers(timetable, &mut state, departure_stop_id, departure_at);
    let ghost first = state@;
    assert(is_sound(timetable, q, first, 0)) by {
        reveal(is_sound);
        lemma_start(timetable, q);
    }
    let max_transit_legs: i32 = max_rounds + 1;
    let ghost last = max_transit_legs as int;
    let mut round: i64 = 1;
    while round <= max_transit_legs as i64
        invariant
            timetable.wf(),
            1 <= round <= i32::MAX + 1,
            last == max_transit_legs,
            args.limit() == q.time_limit,
            q.departure_stop_id == departure_stop_id,
            is_sound(timetable, q, state@, round - 1),
            forall|t: SearchState| #[trigger]
                is_end(timetable, args, state@, round as int, last, t) ==> is_end(
                    timetable,
                    args,
                    first,
                    1,
                    last,
                    t,
                ),
            round > last ==> is_end(timetable, args, first, 1, last, state@),
        ensures
            is_end(timetable, args, first, 1, last, state@),
        decreases max_transit_legs + 1 - round,
    {
        if state.marked_stops.is_empty() {
            assert(is_end(timetable, args, state@, round as int, last, state@));
            break;
        }
        let ghost before = state@;
        assert(is_sound(timetable, q, before, round as int)) by {
            reveal(is_sound);
        }
        process_round(timetable, &mut state, round as usize, &args, Ghost(q));
        assert(is_sound(timetable, q, state@, round as int)) by {
            reveal(is_sound);
            lemma_round(timetable, q, args, before, round as usize, state@);
        }
        assert forall|t: SearchState| #[trigger]
            is_end(timetable, args, state@, round + 1, last, t) implies is_end(
            timetable,
            args,
            first,
            1,
            last,
            t,
        ) by {
            assert(is_round(timetable, args, before, round as usize, state@));
            assert(is_end(timetable, args, before, round as int, last, t));
        }
        round += 1;
        assert(round > last ==> is_end(timetable, args, state@, round as int, last, state@));
        match args.mode() {
            RoutingAlgorithmMode::SolveFromDepartureStopToArrivalStop => {
                let target = args.arrival_stop_id();
                if map_contains_key(&state.best_arrival, &target)
                    && state.marked_stops.is_empty() {
                    assert(is_end(timetable, args, state@, round as int, last, state@));
                    break;
                }
            },
            _ => {},
        }
    }
    assert(is_outcome(
        timetable,
        args,
        departure_stop_id,
        departure_at,
        max_rounds,
        state@,
    ));
    reconstruct_results(&state, departure_stop_id, &args)
}

} // verus!
