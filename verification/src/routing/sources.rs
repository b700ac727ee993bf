//! Where the labels of a search come from.

use crate::calendar::has_room;
use crate::routing::exploration::{after_stop, after_transfers, can_depart, can_walk, start};
use crate::routing::laws::query;
use crate::routing::models::RoutingAlgorithmArgs;
use crate::routing::raptor::{
    after_all_transfers, after_rides, after_round, after_stops, are_orders, are_walkers, is_end,
    is_outcome, is_round, is_sound, lemma_all_transfers, lemma_marks, lemma_next_walk, lemma_round,
    lemma_stops, lemma_walkers,
};
use crate::routing::soundness::{
    follows, inv, label_ok, lemma_boards, lemma_previous_round, lemma_start, lemma_transfers, up_to,
};
use crate::routing::state::{origin, RaptorLabel, SearchState};
use crate::routing::steps::{
    boarding_with, is_new_label, is_ride_from, is_walk_from, searches_start_with_the_departure_stop,
    stops_that_were_not_reached_are_not_boarded, stops_write_only_rides_from_them,
    stops_write_only_walks_from_them, walks_from_the_departure_stop_are_taken_first, writes_only,
};
use crate::timetable::Timetable;
use vstd::prelude::*;

verus! {

/// The label of a stop in a round, but for that of the departure stop, is one of a ride from the
/// stop that it names, as the round that it names has reached it; in round 0, one of a walk from
/// the departure stop at the departure; or, later, one of a walk from a stop with an exchange flag
/// to a known stop.
pub open spec fn has_source(
    timetable: &Timetable,
    args: RoutingAlgorithmArgs,
    departure_stop_id: i32,
    departure_at: i64,
    s: SearchState,
    round: int,
    stop_id: i32,
) -> bool {
    let label = s.label(round, stop_id);
    &&& stop_id != departure_stop_id && label.journey_id is Some ==> is_ride_from(
        timetable,
        boarding_with(
            args,
            s,
            label.from_stop_id,
            round as usize,
            label.source_round as int,
        ),
        round,
        stop_id,
        label,
    )
    &&& stop_id != departure_stop_id && round == 0 ==> is_walk_from(
        timetable,
        departure_stop_id,
        departure_at,
        None,
        0,
        0,
        stop_id,
        label,
    )
    &&& stop_id != departure_stop_id && round >= 1 && label.journey_id is None ==> {
        &&& timetable.stops@.contains_key(label.from_stop_id)
        &&& timetable.stops@[label.from_stop_id].exchange_flag != 0
        &&& timetable.stops@.contains_key(stop_id)
    }
}

/// Every label has its source.
pub open spec fn have_sources(
    timetable: &Timetable,
    args: RoutingAlgorithmArgs,
    departure_stop_id: i32,
    departure_at: i64,
    s: SearchState,
) -> bool {
    forall|r: int, x: i32|
        s.has(r, x) ==> #[trigger] has_source(
            timetable,
            args,
            departure_stop_id,
            departure_at,
            s,
            r,
            x,
        )
}

/// A label that stays has its source where the labels of earlier rounds stay.
proof fn lemma_source_stays(
    timetable: &Timetable,
    args: RoutingAlgorithmArgs,
    departure_stop_id: i32,
    departure_at: i64,
    s: SearchState,
    t: SearchState,
    round: int,
    r: int,
    x: i32,
)
    requires
        inv(timetable, query(args, departure_stop_id, departure_at), s),
        up_to(s, round),
        follows(s, t, round),
        have_sources(timetable, args, departure_stop_id, departure_at, s),
        s.has(r, x),
        t.label(r, x) == s.label(r, x),
    ensures
        has_source(timetable, args, departure_stop_id, departure_at, t, r, x),
{
    let label = s.label(r, x);
    let source_round = label.source_round as int;
    assert(has_source(timetable, args, departure_stop_id, departure_at, s, r, x));
    assert(label_ok(timetable, query(args, departure_stop_id, departure_at), s, r, x));
    if x != departure_stop_id && label.journey_id is Some {
        assert(t.has(source_round, label.from_stop_id));
    }
}

/// Boarding at a stop writes labels with sources.
proof fn lemma_stop_sources(
    timetable: &Timetable,
    args: RoutingAlgorithmArgs,
    departure_stop_id: i32,
    departure_at: i64,
    s: SearchState,
    stop_id: i32,
    round: usize,
)
    requires
        timetable.wf(),
        round >= 1,
        inv(timetable, query(args, departure_stop_id, departure_at), s),
        up_to(s, round as int),
        have_sources(timetable, args, departure_stop_id, departure_at, s),
    ensures
        have_sources(
            timetable,
            args,
            departure_stop_id,
            departure_at,
            after_stop(timetable, args, s, stop_id, round),
        ),
{
    let q = query(args, departure_stop_id, departure_at);
    let t = after_stop(timetable, args, s, stop_id, round);
    lemma_boards(timetable, q, args, s, stop_id, round);
    lemma_previous_round(s, stop_id, round as int);
    match s.previous_round(stop_id, round as int) {
        Some(source_round) => {
            assert(label_ok(timetable, q, s, source_round, stop_id));
            stops_write_only_rides_from_them(timetable, args, s, stop_id, round, source_round);
            let b = boarding_with(args, s, stop_id, round, source_round);
            let p = |r: int, x: i32, label: RaptorLabel| is_ride_from(timetable, b, r, x, label);
            assert(writes_only(s, t, p));
            assert forall|r: int, x: i32| t.has(r, x) implies #[trigger] has_source(
                timetable,
                args,
                departure_stop_id,
                departure_at,
                t,
                r,
                x,
            ) by {
                if s.has(r, x) && s.label(r, x) == t.label(r, x) {
                    lemma_source_stays(
                        timetable,
                        args,
                        departure_stop_id,
                        departure_at,
                        s,
                        t,
                        round as int,
                        r,
                        x,
                    );
                } else {
                    assert(is_new_label(s, t, p, r, x));
                    assert(t.has(source_round, stop_id));
                    assert(boarding_with(args, t, stop_id, round, source_round) == b);
                }
            }
        },
        None => {
            stops_that_were_not_reached_are_not_boarded(timetable, args, s, stop_id, round);
        },
    }
}

/// Boarding at stops in turn writes labels with sources.
proof fn lemma_stops_sources(
    timetable: &Timetable,
    args: RoutingAlgorithmArgs,
    departure_stop_id: i32,
    departure_at: i64,
    s: SearchState,
    stops: Seq<i32>,
    round: usize,
    n: int,
)
    requires
        timetable.wf(),
        round >= 1,
        inv(timetable, query(args, departure_stop_id, departure_at), s),
        up_to(s, round as int),
        have_sources(timetable, args, departure_stop_id, departure_at, s),
    ensures
        have_sources(
            timetable,
            args,
            departure_stop_id,
            departure_at,
            after_stops(timetable, args, s, stops, round, n),
        ),
    decreases n,
{
    if n > 0 {
        let q = query(args, departure_stop_id, departure_at);
        let m = after_stops(timetable, args, s, stops, round, n - 1);
        lemma_stops_sources(
            timetable,
            args,
            departure_stop_id,
            departure_at,
            s,
            stops,
            round,
            n - 1,
        );
        lemma_stops(timetable, q, args, s, stops, round, n - 1);
        lemma_stop_sources(
            timetable,
            args,
            departure_stop_id,
            departure_at,
            m,
            stops[n - 1],
            round,
        );
    }
}

/// Walking from a stop writes labels with sources.
proof fn lemma_walk_sources(
    timetable: &Timetable,
    args: RoutingAlgorithmArgs,
    departure_stop_id: i32,
    departure_at: i64,
    s: SearchState,
    stop_id: i32,
    round: usize,
)
    requires
        round >= 1,
        inv(timetable, query(args, departure_stop_id, departure_at), s),
        up_to(s, round as int),
        have_sources(timetable, args, departure_stop_id, departure_at, s),
        s.has(round as int, stop_id),
        has_room(s.label(round as int, stop_id).arrival_time as int),
    ensures
        have_sources(
            timetable,
            args,
            departure_stop_id,
            departure_at,
            after_transfers(timetable, args, s, stop_id, round),
        ),
{
    let q = query(args, departure_stop_id, departure_at);
    let t = after_transfers(timetable, args, s, stop_id, round);
    let time = s.label(round as int, stop_id).arrival_time;
    lemma_transfers(timetable, q, args, s, stop_id, round);
    assert(can_walk(timetable, s, stop_id, round));
    stops_write_only_walks_from_them(timetable, args, s, stop_id, round);
    let p = |r: int, x: i32, label: RaptorLabel|
        is_walk_from(timetable, stop_id, time, args.limit(), round as int, r, x, label)
            && timetable.stops@.contains_key(x);
    assert(writes_only(s, t, p));
    assert forall|r: int, x: i32| t.has(r, x) implies #[trigger] has_source(
        timetable,
        args,
        departure_stop_id,
        departure_at,
        t,
        r,
        x,
    ) by {
        if s.has(r, x) && s.label(r, x) == t.label(r, x) {
            lemma_source_stays(
                timetable,
                args,
                departure_stop_id,
                departure_at,
                s,
                t,
                round as int,
                r,
                x,
            );
        } else {
            assert(is_new_label(s, t, p, r, x));
        }
    }
}

/// Walking from stops in turn writes labels with sources.
proof fn lemma_walks_sources(
    timetable: &Timetable,
    args: RoutingAlgorithmArgs,
    departure_stop_id: i32,
    departure_at: i64,
    s: SearchState,
    stops: Seq<i32>,
    round: usize,
    n: int,
)
    requires
        round >= 1,
        is_sound(timetable, query(args, departure_stop_id, departure_at), s, round as int),
        have_sources(timetable, args, departure_stop_id, departure_at, s),
        are_walkers(s, stops, round),
        n <= stops.len(),
    ensures
        have_sources(
            timetable,
            args,
            departure_stop_id,
            departure_at,
            after_all_transfers(timetable, args, s, stops, round, n),
        ),
    decreases n,
{
    if n > 0 {
        let q = query(args, departure_stop_id, departure_at);
        let m = after_all_transfers(timetable, args, s, stops, round, n - 1);
        lemma_walks_sources(
            timetable,
            args,
            departure_stop_id,
            departure_at,
            s,
            stops,
            round,
            n - 1,
        );
        lemma_next_walk(timetable, q, args, s, stops, round, n - 1);
        reveal(is_sound);
        lemma_all_transfers(timetable, q, args, s, stops, round, n - 1);
        lemma_walk_sources(
            timetable,
            args,
            departure_stop_id,
            departure_at,
            m,
            stops[n - 1],
            round,
        );
    }
}

/// Which stops are marked does not matter to the sources.
proof fn lemma_marks_sources(
    timetable: &Timetable,
    args: RoutingAlgorithmArgs,
    departure_stop_id: i32,
    departure_at: i64,
    s: SearchState,
    t: SearchState,
)
    requires
        t.labels == s.labels,
        have_sources(timetable, args, departure_stop_id, departure_at, s),
    ensures
        have_sources(timetable, args, departure_stop_id, departure_at, t),
{
    assert forall|r: int, x: i32| t.has(r, x) implies #[trigger] has_source(
        timetable,
        args,
        departure_stop_id,
        departure_at,
        t,
        r,
        x,
    ) by {
        assert(has_source(timetable, args, departure_stop_id, departure_at, s, r, x));
    }
}

/// A round writes labels with sources.
proof fn lemma_round_sources(
    timetable: &Timetable,
    args: RoutingAlgorithmArgs,
    departure_stop_id: i32,
    departure_at: i64,
    s: SearchState,
    round: usize,
    t: SearchState,
)
    requires
        timetable.wf(),
        round >= 1,
        inv(timetable, query(args, departure_stop_id, departure_at), s),
        up_to(s, round as int),
        have_sources(timetable, args, departure_stop_id, departure_at, s),
        is_round(timetable, args, s, round, t),
    ensures
        have_sources(timetable, args, departure_stop_id, departure_at, t),
{
    let q = query(args, departure_stop_id, departure_at);
    let (order, walkers) = choose|order: Seq<i32>, walkers: Seq<i32>| #[trigger]
        are_orders(timetable, args, s, round, order, walkers) && t == after_round(
            timetable,
            args,
            s,
            round,
            order,
            walkers,
        );
    let middle = after_rides(timetable, args, s, round, order);
    let unmarked = SearchState { marked: Set::empty(), ..s };
    let settled = SearchState { improved: Set::empty(), ..middle };
    let n = order.len() as int;
    lemma_marks(timetable, q, s, unmarked, round as int);
    lemma_marks_sources(timetable, args, departure_stop_id, departure_at, s, unmarked);
    lemma_stops(timetable, q, args, unmarked, order, round, n);
    lemma_stops_sources(
        timetable,
        args,
        departure_stop_id,
        departure_at,
        unmarked,
        order,
        round,
        n,
    );
    lemma_marks(timetable, q, middle, settled, round as int);
    lemma_marks_sources(timetable, args, departure_stop_id, departure_at, middle, settled);
    lemma_walkers(middle, settled, walkers, round);
    assert(is_sound(timetable, q, settled, round as int)) by {
        reveal(is_sound);
    }
    lemma_walks_sources(
        timetable,
        args,
        departure_stop_id,
        departure_at,
        settled,
        walkers,
        round,
        walkers.len() as int,
    );
}

/// The rounds of a search write labels with sources.
proof fn lemma_end_sources(
    timetable: &Timetable,
    args: RoutingAlgorithmArgs,
    departure_stop_id: i32,
    departure_at: i64,
    s: SearchState,
    round: int,
    last: int,
    t: SearchState,
)
    requires
        timetable.wf(),
        inv(timetable, query(args, departure_stop_id, departure_at), s),
        1 <= round,
        last <= i32::MAX,
        up_to(s, round - 1),
        have_sources(timetable, args, departure_stop_id, departure_at, s),
        is_end(timetable, args, s, round, last, t),
    ensures
        have_sources(timetable, args, departure_stop_id, departure_at, t),
    decreases last + 1 - round,
{
    if round <= last && !s.marked.is_empty() {
        let q = query(args, departure_stop_id, departure_at);
        let m = choose|m: SearchState| #[trigger]
            is_round(timetable, args, s, round as usize, m) && is_end(
                timetable,
                args,
                m,
                round + 1,
                last,
                t,
            );
        lemma_round_sources(
            timetable,
            args,
            departure_stop_id,
            departure_at,
            s,
            round as usize,
            m,
        );
        lemma_round(timetable, q, args, s, round as usize, m);
        lemma_end_sources(
            timetable,
            args,
            departure_stop_id,
            departure_at,
            m,
            round + 1,
            last,
            t,
        );
    }
}

/// When a search ends, every label has its source: a ride, of a day that counts, with the earliest
/// journey of its route for which the passenger is in time, to a stop where it may end; or a walk
/// that the timetable lists.
pub proof fn labels_have_sources(
    timetable: &Timetable,
    args: RoutingAlgorithmArgs,
    departure_stop_id: i32,
    departure_at: i64,
    max_rounds: i32,
    t: SearchState,
)
    requires
        timetable.wf(),
        can_depart(timetable, departure_stop_id, departure_at),
        max_rounds < i32::MAX,
        is_outcome(timetable, args, departure_stop_id, departure_at, max_rounds, t),
    ensures
        have_sources(timetable, args, departure_stop_id, departure_at, t),
{
    let q = query(args, departure_stop_id, departure_at);
    let s = origin(departure_stop_id, departure_at);
    let m = start(timetable, departure_stop_id, departure_at);
    lemma_start(timetable, q);
    searches_start_with_the_departure_stop(departure_stop_id, departure_at);
    walks_from_the_departure_stop_are_taken_first(timetable, s, departure_stop_id, departure_at);
    let p = |r: int, x: i32, label: RaptorLabel|
        is_walk_from(timetable, departure_stop_id, departure_at, None, 0, r, x, label);
    assert(writes_only(s, m, p));
    assert forall|r: int, x: i32| m.has(r, x) implies #[trigger] has_source(
        timetable,
        args,
        departure_stop_id,
        departure_at,
        m,
        r,
        x,
    ) by {
        if !(s.has(r, x) && s.label(r, x) == m.label(r, x)) {
            assert(is_new_label(s, m, p, r, x));
        }
    }
    lemma_end_sources(
        timetable,
        args,
        departure_stop_id,
        departure_at,
        m,
        1,
        max_rounds + 1,
        t,
    );
}

} // verus!
