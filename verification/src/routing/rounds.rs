//! How two searches compare that differ in the number of rounds or in the verbose flag.

use crate::fx::lists;
use crate::routing::exploration::{can_depart, start};
use crate::routing::laws::{last_round, lemma_end, query};
use crate::routing::models::{Route, RoutingAlgorithmArgs};
use crate::routing::raptor::{
    after_rides, after_round, are_orders, is_end, is_outcome, is_round, is_sound, lemma_round,
    may_return, reached_by_ride,
};
use crate::routing::reconstruction::{are_results, lemma_stop_ids, route_to};
use crate::routing::soundness::{follows, lemma_start, Query};
use crate::routing::state::SearchState;
use crate::routing::way_back::routes_of_any_labels_connect;
use crate::timetable::Timetable;
use vstd::prelude::*;

verus! {

/// Every set of stops can be listed.
proof fn lemma_can_list(s: Set<i32>) -> (v: Seq<i32>)
    ensures
        lists(v, s),
    decreases s.len(),
{
    lemma_stop_ids(s);
    if s.is_empty() {
        Seq::empty()
    } else {
        let x = s.choose();
        let before = lemma_can_list(s.remove(x));
        let v = before.push(x);
        assert(!before.contains(x)) by {
            assert(!s.remove(x).contains(x));
        }
        assert forall|k: i32| v.contains(k) <==> #[trigger] s.contains(k) by {
            assert(before.contains(k) <==> s.remove(x).contains(k));
            if before.contains(k) {
                let i = choose|i: int| 0 <= i < before.len() && before[i] == k;
                assert(v[i] == k);
            }
            if k == x {
                assert(v[before.len() as int] == k);
            }
        }
        v
    }
}

/// A round leads to some state.
proof fn lemma_can_round(
    timetable: &Timetable,
    args: RoutingAlgorithmArgs,
    s: SearchState,
    round: usize,
) -> (t: SearchState)
    ensures
        is_round(timetable, args, s, round, t),
{
    let order = lemma_can_list(s.marked);
    let middle = after_rides(timetable, args, s, round, order);
    let walkers = lemma_can_list(reached_by_ride(middle, round));
    assert(are_orders(timetable, args, s, round, order, walkers));
    after_round(timetable, args, s, round, order, walkers)
}

/// Rounds lead to some state.
proof fn lemma_can_end(
    timetable: &Timetable,
    args: RoutingAlgorithmArgs,
    s: SearchState,
    round: int,
    last: int,
) -> (t: SearchState)
    ensures
        is_end(timetable, args, s, round, last, t),
    decreases last + 1 - round,
{
    if round > last || s.marked.is_empty() {
        s
    } else {
        let m = lemma_can_round(timetable, args, s, round as usize);
        lemma_can_end(timetable, args, m, round + 1, last)
    }
}

/// Where some rounds lead, more rounds lead on.
proof fn lemma_lead_on(
    timetable: &Timetable,
    q: Query,
    args: RoutingAlgorithmArgs,
    s: SearchState,
    round: int,
    last: int,
    later: int,
    t: SearchState,
) -> (u: SearchState)
    requires
        timetable.wf(),
        args.limit() == q.time_limit,
        is_sound(timetable, q, s, round - 1),
        1 <= round,
        round == 1 || round <= last + 1,
        last <= later <= i32::MAX,
        is_end(timetable, args, s, round, last, t),
    ensures
        is_end(timetable, args, s, round, later, u),
        follows(
            t,
            u,
            if last >= 0 {
                last + 1
            } else {
                1
            },
        ),
    decreases last + 1 - round,
{
    if s.marked.is_empty() {
        s
    } else if round > last {
        let u = lemma_can_end(timetable, args, s, round, later);
        reveal(is_sound);
        lemma_end(timetable, q, args, s, round, later, u);
        u
    } else {
        let m = choose|m: SearchState| #[trigger]
            is_round(timetable, args, s, round as usize, m) && is_end(
                timetable,
                args,
                m,
                round + 1,
                last,
                t,
            );
        assert(is_sound(timetable, q, m, round)) by {
            reveal(is_sound);
            lemma_round(timetable, q, args, s, round as usize, m);
        }
        lemma_lead_on(timetable, q, args, m, round + 1, last, later, t)
    }
}

/// Where more rounds lead, some rounds have led before.
proof fn lemma_come_from(
    timetable: &Timetable,
    q: Query,
    args: RoutingAlgorithmArgs,
    s: SearchState,
    round: int,
    last: int,
    later: int,
    u: SearchState,
) -> (t: SearchState)
    requires
        timetable.wf(),
        args.limit() == q.time_limit,
        is_sound(timetable, q, s, round - 1),
        1 <= round,
        round == 1 || round <= last + 1,
        last <= later <= i32::MAX,
        is_end(timetable, args, s, round, later, u),
    ensures
        is_end(timetable, args, s, round, last, t),
        follows(
            t,
            u,
            if last >= 0 {
                last + 1
            } else {
                1
            },
        ),
    decreases last + 1 - round,
{
    if s.marked.is_empty() {
        s
    } else if round > last {
        reveal(is_sound);
        lemma_end(timetable, q, args, s, round, later, u);
        s
    } else {
        let m = choose|m: SearchState| #[trigger]
            is_round(timetable, args, s, round as usize, m) && is_end(
                timetable,
                args,
                m,
                round + 1,
                later,
                u,
            );
        assert(is_sound(timetable, q, m, round)) by {
            reveal(is_sound);
            lemma_round(timetable, q, args, s, round as usize, m);
        }
        lemma_come_from(timetable, q, args, m, round + 1, last, later, u)
    }
}

/// No route of `u` arrives later than that of `t` to the same stop.
pub open spec fn arrives_no_later(departure_stop_id: i32, t: SearchState, u: SearchState) -> bool {
    forall|stop_id: i32|
        #![trigger route_to(t, departure_stop_id, stop_id)]
        #![trigger route_to(u, departure_stop_id, stop_id)]
        match (route_to(t, departure_stop_id, stop_id), route_to(u, departure_stop_id, stop_id)) {
            (Some(before), Some(after)) => after.sections.last().arrival_at
                <= before.sections.last().arrival_at,
            _ => true,
        }
}

/// Where no arrival gets later, no route arrives later.
proof fn lemma_no_later(departure_stop_id: i32, t: SearchState, u: SearchState, round: int)
    requires
        follows(t, u, round),
    ensures
        arrives_no_later(departure_stop_id, t, u),
{
    assert forall|stop_id: i32|
        #![trigger route_to(t, departure_stop_id, stop_id)]
        #![trigger route_to(u, departure_stop_id, stop_id)]
        match (route_to(t, departure_stop_id, stop_id), route_to(u, departure_stop_id, stop_id)) {
            (Some(before), Some(after)) => after.sections.last().arrival_at
                <= before.sections.last().arrival_at,
            _ => true,
        } by {
        routes_of_any_labels_connect(t, departure_stop_id, stop_id);
        routes_of_any_labels_connect(u, departure_stop_id, stop_id);
        if route_to(t, departure_stop_id, stop_id) is Some {
            assert(t.best.contains_key(stop_id));
        }
    }
}

/// More allowed changes never make an answer later: wherever a search may end, a search with more
/// rounds may go on from there, and then no stop is lost, no label of the earlier rounds changes,
/// and no route arrives later.
pub proof fn more_rounds_lead_on(
    timetable: &Timetable,
    args: RoutingAlgorithmArgs,
    departure_stop_id: i32,
    departure_at: i64,
    max_rounds: i32,
    more_rounds: i32,
    t: SearchState,
)
    requires
        timetable.wf(),
        can_depart(timetable, departure_stop_id, departure_at),
        max_rounds <= more_rounds < i32::MAX,
        is_outcome(timetable, args, departure_stop_id, departure_at, max_rounds, t),
    ensures
        exists|u: SearchState|
            {
                &&& #[trigger] is_outcome(
                    timetable,
                    args,
                    departure_stop_id,
                    departure_at,
                    more_rounds,
                    u,
                )
                &&& follows(t, u, last_round(max_rounds) + 1)
                &&& arrives_no_later(departure_stop_id, t, u)
            },
{
    let q = query(args, departure_stop_id, departure_at);
    let s = start(timetable, departure_stop_id, departure_at);
    assert(is_sound(timetable, q, s, 0)) by {
        reveal(is_sound);
        lemma_start(timetable, q);
    }
    let u = lemma_lead_on(timetable, q, args, s, 1, max_rounds + 1, more_rounds + 1, t);
    lemma_no_later(departure_stop_id, t, u, last_round(max_rounds) + 1);
    assert(is_outcome(timetable, args, departure_stop_id, departure_at, more_rounds, u));
}

/// Wherever a search with more rounds may end, it comes from a state in which one with fewer may
/// end, and it has lost no stop, changed no label of the earlier rounds, and has no route that
/// arrives later.
pub proof fn fewer_rounds_come_before(
    timetable: &Timetable,
    args: RoutingAlgorithmArgs,
    departure_stop_id: i32,
    departure_at: i64,
    max_rounds: i32,
    more_rounds: i32,
    u: SearchState,
)
    requires
        timetable.wf(),
        can_depart(timetable, departure_stop_id, departure_at),
        max_rounds <= more_rounds < i32::MAX,
        is_outcome(timetable, args, departure_stop_id, departure_at, more_rounds, u),
    ensures
        exists|t: SearchState|
            {
                &&& #[trigger] is_outcome(
                    timetable,
                    args,
                    departure_stop_id,
                    departure_at,
                    max_rounds,
                    t,
                )
                &&& follows(t, u, last_round(max_rounds) + 1)
                &&& arrives_no_later(departure_stop_id, t, u)
            },
{
    let q = query(args, departure_stop_id, departure_at);
    let s = start(timetable, departure_stop_id, departure_at);
    assert(is_sound(timetable, q, s, 0)) by {
        reveal(is_sound);
        lemma_start(timetable, q);
    }
    let t = lemma_come_from(timetable, q, args, s, 1, max_rounds + 1, more_rounds + 1, u);
    lemma_no_later(departure_stop_id, t, u, last_round(max_rounds) + 1);
    assert(is_outcome(timetable, args, departure_stop_id, departure_at, max_rounds, t));
}

/// The orders in which a round takes the stops at which it boards, and those from which it walks.
pub struct RoundOrders {
    pub boarding: Seq<i32>,
    pub walking: Seq<i32>,
}

/// `t` is the state in which the rounds from `round` to `last` end when they start with `s` and
/// take the stops in the orders that are given for each round.
pub open spec fn is_end_in(
    timetable: &Timetable,
    args: RoutingAlgorithmArgs,
    orders: spec_fn(int) -> RoundOrders,
    s: SearchState,
    round: int,
    last: int,
    t: SearchState,
) -> bool
    decreases last + 1 - round,
{
    if round > last || s.marked.is_empty() {
        t == s
    } else {
        let boarding = orders(round).boarding;
        let walking = orders(round).walking;
        &&& are_orders(timetable, args, s, round as usize, boarding, walking)
        &&& is_end_in(
            timetable,
            args,
            orders,
            after_round(timetable, args, s, round as usize, boarding, walking),
            round + 1,
            last,
            t,
        )
    }
}

/// `t` is the state in which a search that takes the stops in the given orders ends.
pub open spec fn is_outcome_in(
    timetable: &Timetable,
    args: RoutingAlgorithmArgs,
    orders: spec_fn(int) -> RoundOrders,
    departure_stop_id: i32,
    departure_at: i64,
    max_rounds: i32,
    t: SearchState,
) -> bool {
    is_end_in(
        timetable,
        args,
        orders,
        start(timetable, departure_stop_id, departure_at),
        1,
        max_rounds + 1,
        t,
    )
}

/// The results are those of a search that takes the stops in the given orders.
pub open spec fn returns_in(
    timetable: &Timetable,
    orders: spec_fn(int) -> RoundOrders,
    departure_stop_id: i32,
    departure_at: i64,
    max_rounds: i32,
    _verbose: bool,
    args: RoutingAlgorithmArgs,
    results: Map<i32, Route>,
) -> bool {
    exists|t: SearchState| #[trigger]
        is_outcome_in(
            timetable,
            args,
            orders,
            departure_stop_id,
            departure_at,
            max_rounds,
            t,
        ) && are_results(t, departure_stop_id, args, results)
}

/// Which orders are given for earlier rounds does not matter to later ones.
proof fn lemma_later_orders(
    timetable: &Timetable,
    args: RoutingAlgorithmArgs,
    orders: spec_fn(int) -> RoundOrders,
    others: spec_fn(int) -> RoundOrders,
    s: SearchState,
    round: int,
    last: int,
    t: SearchState,
)
    requires
        is_end_in(timetable, args, orders, s, round, last, t),
        forall|r: int| round <= r ==> #[trigger] orders(r) == others(r),
    ensures
        is_end_in(timetable, args, others, s, round, last, t),
    decreases last + 1 - round,
{
    if round <= last && !s.marked.is_empty() {
        assert(orders(round) == others(round));
        let m = after_round(
            timetable,
            args,
            s,
            round as usize,
            orders(round).boarding,
            orders(round).walking,
        );
        lemma_later_orders(timetable, args, orders, others, m, round + 1, last, t);
    }
}

/// Rounds take the stops in some orders.
proof fn lemma_have_orders(
    timetable: &Timetable,
    args: RoutingAlgorithmArgs,
    s: SearchState,
    round: int,
    last: int,
    t: SearchState,
) -> (orders: spec_fn(int) -> RoundOrders)
    requires
        is_end(timetable, args, s, round, last, t),
    ensures
        is_end_in(timetable, args, orders, s, round, last, t),
    decreases last + 1 - round,
{
    if round > last || s.marked.is_empty() {
        |r: int| RoundOrders { boarding: Seq::empty(), walking: Seq::empty() }
    } else {
        let m = choose|m: SearchState| #[trigger]
            is_round(timetable, args, s, round as usize, m) && is_end(
                timetable,
                args,
                m,
                round + 1,
                last,
                t,
            );
        let (boarding, walking) = choose|boarding: Seq<i32>, walking: Seq<i32>| #[trigger]
            are_orders(timetable, args, s, round as usize, boarding, walking) && m == after_round(
                timetable,
                args,
                s,
                round as usize,
                boarding,
                walking,
            );
        let later = lemma_have_orders(timetable, args, m, round + 1, last, t);
        let orders = |r: int|
            if r == round {
                RoundOrders { boarding, walking }
            } else {
                later(r)
            };
        lemma_later_orders(timetable, args, later, orders, m, round + 1, last, t);
        orders
    }
}

/// Rounds that take the stops in given orders lead where rounds may lead.
proof fn lemma_end_in(
    timetable: &Timetable,
    args: RoutingAlgorithmArgs,
    orders: spec_fn(int) -> RoundOrders,
    s: SearchState,
    round: int,
    last: int,
    t: SearchState,
)
    requires
        is_end_in(timetable, args, orders, s, round, last, t),
    ensures
        is_end(timetable, args, s, round, last, t),
    decreases last + 1 - round,
{
    if round <= last && !s.marked.is_empty() {
        let o = orders(round);
        let m = after_round(timetable, args, s, round as usize, o.boarding, o.walking);
        assert(are_orders(timetable, args, s, round as usize, o.boarding, o.walking));
        assert(is_round(timetable, args, s, round as usize, m));
        lemma_end_in(timetable, args, orders, m, round + 1, last, t);
    }
}

/// A search may return what one that takes the stops in some orders returns, and nothing else.
pub proof fn searches_have_orders(
    timetable: &Timetable,
    departure_stop_id: i32,
    departure_at: i64,
    max_rounds: i32,
    verbose: bool,
    args: RoutingAlgorithmArgs,
    results: Map<i32, Route>,
)
    ensures
        may_return(
            timetable,
            departure_stop_id,
            departure_at,
            max_rounds,
            verbose,
            args,
            results,
        ) <==> exists|orders: spec_fn(int) -> RoundOrders| #[trigger]
            returns_in(
                timetable,
                orders,
                departure_stop_id,
                departure_at,
                max_rounds,
                verbose,
                args,
                results,
            ),
{
    let s = start(timetable, departure_stop_id, departure_at);
    let last = max_rounds + 1;
    if may_return(
        timetable,
        departure_stop_id,
        departure_at,
        max_rounds,
        verbose,
        args,
        results,
    ) {
        let t = choose|t: SearchState| #[trigger]
            is_outcome(timetable, args, departure_stop_id, departure_at, max_rounds, t)
                && are_results(t, departure_stop_id, args, results);
        let orders = lemma_have_orders(timetable, args, s, 1, last, t);
        assert(is_outcome_in(
            timetable,
            args,
            orders,
            departure_stop_id,
            departure_at,
            max_rounds,
            t,
        ));
        assert(returns_in(
            timetable,
            orders,
            departure_stop_id,
            departure_at,
            max_rounds,
            verbose,
            args,
            results,
        ));
    }
    if exists|orders: spec_fn(int) -> RoundOrders| #[trigger]
        returns_in(
            timetable,
            orders,
            departure_stop_id,
            departure_at,
            max_rounds,
            verbose,
            args,
            results,
        ) {
        let orders = choose|orders: spec_fn(int) -> RoundOrders| #[trigger]
            returns_in(
                timetable,
                orders,
                departure_stop_id,
                departure_at,
                max_rounds,
                verbose,
                args,
                results,
            );
        let t = choose|t: SearchState| #[trigger]
            is_outcome_in(
                timetable,
                args,
                orders,
                departure_stop_id,
                departure_at,
                max_rounds,
                t,
            ) && are_results(t, departure_stop_id, args, results);
        lemma_end_in(timetable, args, orders, s, 1, last, t);
        assert(is_outcome(timetable, args, departure_stop_id, departure_at, max_rounds, t));
    }
}

/// Of rounds that take the stops in the same orders, more go on from where fewer end.
proof fn lemma_same_orders(
    timetable: &Timetable,
    q: Query,
    args: RoutingAlgorithmArgs,
    orders: spec_fn(int) -> RoundOrders,
    s: SearchState,
    round: int,
    last: int,
    later: int,
    t: SearchState,
    u: SearchState,
)
    requires
        timetable.wf(),
        args.limit() == q.time_limit,
        is_sound(timetable, q, s, round - 1),
        1 <= round,
        round == 1 || round <= last + 1,
        last <= later <= i32::MAX,
        is_end_in(timetable, args, orders, s, round, last, t),
        is_end_in(timetable, args, orders, s, round, later, u),
    ensures
        last == later ==> t == u,
        follows(
            t,
            u,
            if last >= 0 {
                last + 1
            } else {
                1
            },
        ),
    decreases last + 1 - round,
{
    if s.marked.is_empty() {
    } else if round > last {
        lemma_end_in(timetable, args, orders, s, round, later, u);
        reveal(is_sound);
        lemma_end(timetable, q, args, s, round, later, u);
    } else {
        let o = orders(round);
        let m = after_round(timetable, args, s, round as usize, o.boarding, o.walking);
        assert(are_orders(timetable, args, s, round as usize, o.boarding, o.walking));
        assert(is_round(timetable, args, s, round as usize, m));
        assert(is_sound(timetable, q, m, round)) by {
            reveal(is_sound);
            lemma_round(timetable, q, args, s, round as usize, m);
        }
        lemma_same_orders(timetable, q, args, orders, m, round + 1, last, later, t, u);
    }
}

/// More rounds never make an answer later: of two searches that take the stops in the same orders,
/// the one with more rounds has no route that arrives later than that of the other to the same
/// stop.
pub proof fn more_rounds_arrive_no_later(
    timetable: &Timetable,
    orders: spec_fn(int) -> RoundOrders,
    departure_stop_id: i32,
    departure_at: i64,
    max_rounds: i32,
    more_rounds: i32,
    verbose: bool,
    args: RoutingAlgorithmArgs,
    results: Map<i32, Route>,
    more_results: Map<i32, Route>,
)
    requires
        timetable.wf(),
        can_depart(timetable, departure_stop_id, departure_at),
        max_rounds <= more_rounds < i32::MAX,
        returns_in(
            timetable,
            orders,
            departure_stop_id,
            departure_at,
            max_rounds,
            verbose,
            args,
            results,
        ),
        returns_in(
            timetable,
            orders,
            departure_stop_id,
            departure_at,
            more_rounds,
            verbose,
            args,
            more_results,
        ),
    ensures
        forall|stop_id: i32| #[trigger]
            results.contains_key(stop_id) && #[trigger] more_results.contains_key(stop_id)
                ==> more_results[stop_id]@.sections.last().arrival_at
                <= results[stop_id]@.sections.last().arrival_at,
{
    let q = query(args, departure_stop_id, departure_at);
    let s = start(timetable, departure_stop_id, departure_at);
    let t = choose|t: SearchState| #[trigger]
        is_outcome_in(
            timetable,
            args,
            orders,
            departure_stop_id,
            departure_at,
            max_rounds,
            t,
        ) && are_results(t, departure_stop_id, args, results);
    let u = choose|u: SearchState| #[trigger]
        is_outcome_in(
            timetable,
            args,
            orders,
            departure_stop_id,
            departure_at,
            more_rounds,
            u,
        ) && are_results(u, departure_stop_id, args, more_results);
    assert(is_sound(timetable, q, s, 0)) by {
        reveal(is_sound);
        lemma_start(timetable, q);
    }
    let (last, later) = (max_rounds + 1, more_rounds + 1);
    lemma_same_orders(timetable, q, args, orders, s, 1, last, later, t, u);
    lemma_no_later(departure_stop_id, t, u, last_round(max_rounds) + 1);
    assert forall|stop_id: i32| #[trigger]
        results.contains_key(stop_id) && #[trigger] more_results.contains_key(
            stop_id,
        ) implies more_results[stop_id]@.sections.last().arrival_at
        <= results[stop_id]@.sections.last().arrival_at by {
        assert(Some(results[stop_id]@) == route_to(t, departure_stop_id, stop_id));
        assert(Some(more_results[stop_id]@) == route_to(u, departure_stop_id, stop_id));
    }
}

/// The verbose flag does not matter: two searches that differ only in it, and that take the stops
/// in the same orders, return the same routes to the same stops.
pub proof fn verbose_does_not_matter(
    timetable: &Timetable,
    orders: spec_fn(int) -> RoundOrders,
    departure_stop_id: i32,
    departure_at: i64,
    max_rounds: i32,
    verbose: bool,
    other_verbose: bool,
    args: RoutingAlgorithmArgs,
    results: Map<i32, Route>,
    other_results: Map<i32, Route>,
)
    requires
        timetable.wf(),
        can_depart(timetable, departure_stop_id, departure_at),
        max_rounds < i32::MAX,
        returns_in(
            timetable,
            orders,
            departure_stop_id,
            departure_at,
            max_rounds,
            verbose,
            args,
            results,
        ),
        returns_in(
            timetable,
            orders,
            departure_stop_id,
            departure_at,
            max_rounds,
            other_verbose,
            args,
            other_results,
        ),
    ensures
        forall|stop_id: i32|
            #[trigger] results.contains_key(stop_id) <==> other_results.contains_key(stop_id),
        forall|stop_id: i32| #[trigger]
            results.contains_key(stop_id) ==> results[stop_id]@ == other_results[stop_id]@,
{
    let q = query(args, departure_stop_id, departure_at);
    let s = start(timetable, departure_stop_id, departure_at);
    let t = choose|t: SearchState| #[trigger]
        is_outcome_in(
            timetable,
            args,
            orders,
            departure_stop_id,
            departure_at,
            max_rounds,
            t,
        ) && are_results(t, departure_stop_id, args, results);
    let u = choose|u: SearchState| #[trigger]
        is_outcome_in(
            timetable,
            args,
            orders,
            departure_stop_id,
            departure_at,
            max_rounds,
            u,
        ) && are_results(u, departure_stop_id, args, other_results);
    assert(is_sound(timetable, q, s, 0)) by {
        reveal(is_sound);
        lemma_start(timetable, q);
    }
    let last = max_rounds + 1;
    lemma_same_orders(timetable, q, args, orders, s, 1, last, last, t, u);
    assert forall|stop_id: i32|
        #[trigger] results.contains_key(stop_id) <==> other_results.contains_key(stop_id) by {}
    assert forall|stop_id: i32| #[trigger] results.contains_key(stop_id) implies results[stop_id]@
        == other_results[stop_id]@ by {
        assert(other_results.contains_key(stop_id));
    }
}

} // verus!
