//! The labels that a search has found so far.

use crate::fx::{map_get, map_insert, set_insert};
use rustc_hash::{FxHashMap, FxHashSet};
use vstd::prelude::*;

verus! {

/// How a stop was reached in a round.
#[derive(Clone, Copy, Debug, PartialEq, Eq, Structural)]
pub struct RaptorLabel {
    /// The instant of arrival at the stop.
    pub arrival_time: i64,
    /// The journey that was taken, or `None` after a walk.
    pub journey_id: Option<i32>,
    /// The stop that was left.
    pub from_stop_id: i32,
    /// The stop at which the journey was boarded, which is the one that was left.
    pub boarding_stop_id: i32,
    /// The minutes of a walk.
    pub transfer_duration: Option<i16>,
    /// The round in which the stop that was left had been reached.
    pub source_round: usize,
}

/// What a search has found so far, as a value.
#[verifier::ext_equal]
pub struct SearchState {
    /// The labels of each round, by stop.
    pub labels: Seq<Map<i32, RaptorLabel>>,
    /// The earliest known arrival at each stop that was reached.
    pub best: Map<i32, i64>,
    /// The stops from which the next round boards.
    pub marked: Set<i32>,
    /// The stops whose arrival was improved and that still have to be looked at for walks.
    pub improved: Set<i32>,
}

/// Where a search starts: at the departure stop, in round 0.
pub open spec fn origin_label(departure_stop_id: i32, departure_at: i64) -> RaptorLabel {
    RaptorLabel {
        arrival_time: departure_at,
        journey_id: None,
        from_stop_id: departure_stop_id,
        boarding_stop_id: departure_stop_id,
        transfer_duration: None,
        source_round: 0,
    }
}

/// The state in which only the departure stop is known.
pub open spec fn origin(departure_stop_id: i32, departure_at: i64) -> SearchState {
    SearchState {
        labels: seq![
            Map::empty().insert(departure_stop_id, origin_label(departure_stop_id, departure_at)),
        ],
        best: Map::empty().insert(departure_stop_id, departure_at),
        marked: Set::empty().insert(departure_stop_id),
        improved: Set::empty(),
    }
}

/// The labels with an empty round added for each that is missing up to `round`.
pub open spec fn with_round(labels: Seq<Map<i32, RaptorLabel>>, round: int) -> Seq<
    Map<i32, RaptorLabel>,
> {
    if labels.len() > round {
        labels
    } else {
        labels + Seq::new((round + 1 - labels.len()) as nat, |i: int| Map::empty())
    }
}

impl SearchState {
    /// The stop was reached in the round.
    pub open spec fn has(self, round: int, stop_id: i32) -> bool {
        0 <= round < self.labels.len() && self.labels[round].contains_key(stop_id)
    }

    /// How the stop was reached in the round.
    pub open spec fn label(self, round: int, stop_id: i32) -> RaptorLabel {
        self.labels[round][stop_id]
    }

    /// The arrival keeps the time limit, comes after the arrival where it started, and is
    /// earlier than any that is known at the stop.
    pub open spec fn accepts(
        self,
        stop_id: i32,
        arrival_time: i64,
        source_arrival_time: i64,
        time_limit: Option<i64>,
    ) -> bool {
        &&& time_limit matches Some(limit) ==> arrival_time <= limit
        &&& arrival_time > source_arrival_time
        &&& self.best.contains_key(stop_id) ==> arrival_time < self.best[stop_id]
    }

    /// The state after the label was recorded at the stop in the round.
    pub open spec fn record(
        self,
        stop_id: i32,
        label: RaptorLabel,
        round: int,
        mark_for_exploration: bool,
    ) -> SearchState {
        let labels = with_round(self.labels, round);
        SearchState {
            labels: labels.update(round, labels[round].insert(stop_id, label)),
            best: self.best.insert(stop_id, label.arrival_time),
            marked: if mark_for_exploration {
                self.marked.insert(stop_id)
            } else {
                self.marked
            },
            improved: if mark_for_exploration {
                self.improved.insert(stop_id)
            } else {
                self.improved
            },
        }
    }

    /// The state after the label was offered: recorded if the arrival is accepted, else as it was.
    pub open spec fn improve(
        self,
        stop_id: i32,
        label: RaptorLabel,
        round: int,
        source_arrival_time: i64,
        time_limit: Option<i64>,
        mark_for_exploration: bool,
    ) -> SearchState {
        if self.accepts(stop_id, label.arrival_time, source_arrival_time, time_limit) {
            self.record(stop_id, label, round, mark_for_exploration)
        } else {
            self
        }
    }

    /// The latest round before `current_round` in which the stop was reached.
    pub open spec fn previous_round(self, stop_id: i32, current_round: int) -> Option<int>
        decreases current_round,
    {
        if current_round <= 0 {
            None
        } else if self.has(current_round - 1, stop_id) {
            Some(current_round - 1)
        } else {
            self.previous_round(stop_id, current_round - 1)
        }
    }
}

/// The state of a search.
#[derive(Debug)]
pub struct RaptorState {
    /// The labels of each round, by stop.
    pub labels_per_round: Vec<FxHashMap<i32, RaptorLabel>>,
    /// The earliest known arrival at each stop that was reached.
    pub best_arrival: FxHashMap<i32, i64>,
    /// The stops from which the next round boards.
    pub marked_stops: FxHashSet<i32>,
    /// The stops whose arrival was improved and that still have to be looked at for walks.
    pub round_improved_stops: FxHashSet<i32>,
}

impl View for RaptorState {
    type V = SearchState;

    open spec fn view(&self) -> SearchState {
        SearchState {
            labels: self.labels_per_round@.map_values(|m: FxHashMap<i32, RaptorLabel>| m@),
            best: self.best_arrival@,
            marked: self.marked_stops@,
            improved: self.round_improved_stops@,
        }
    }
}

impl RaptorState {
    /// The state in which only the departure stop is known.
    pub fn new(departure_stop_id: i32, departure_at: i64) -> (r: Self)
        ensures
            r@ == origin(departure_stop_id, departure_at),
    {
        let mut labels_per_round: Vec<FxHashMap<i32, RaptorLabel>> = Vec::new();
        let mut round_0: FxHashMap<i32, RaptorLabel> = FxHashMap::default();
        map_insert(
            &mut round_0,
            departure_stop_id,
            RaptorLabel {
                arrival_time: departure_at,
                journey_id: None,
                from_stop_id: departure_stop_id,
                boarding_stop_id: departure_stop_id,
                transfer_duration: None,
                source_round: 0,
            },
        );
        labels_per_round.push(round_0);

        let mut best_arrival: FxHashMap<i32, i64> = FxHashMap::default();
        map_insert(&mut best_arrival, departure_stop_id, departure_at);

        let mut marked_stops: FxHashSet<i32> = FxHashSet::default();
        set_insert(&mut marked_stops, departure_stop_id);

        let r = RaptorState {
            labels_per_round,
            best_arrival,
            marked_stops,
            round_improved_stops: FxHashSet::default(),
        };
        assert(r@ =~= origin(departure_stop_id, departure_at));
        r
    }

    /// Makes sure that there is a map of labels for the round.
    pub fn ensure_round(&mut self, round: usize)
        requires
            round < usize::MAX,
        ensures
            final(self)@ == (SearchState {
                labels: with_round(old(self)@.labels, round as int),
                ..old(self)@
            }),
    {
        while self.labels_per_round.len() <= round
            invariant
                round < usize::MAX,
                self@ == (SearchState { labels: self@.labels, ..old(self)@ }),
                with_round(self@.labels, round as int) == with_round(
                    old(self)@.labels,
                    round as int,
                ),
                self@.labels.len() <= round + 1 || self@.labels == old(self)@.labels,
            decreases round + 1 - self.labels_per_round@.len(),
        {
            let ghost before = self@.labels;
            self.labels_per_round.push(FxHashMap::default());
            assert(self@.labels =~= before.push(Map::empty()));
            assert(with_round(self@.labels, round as int) =~= with_round(before, round as int));
        }
    }

    /// Offers an arrival at a stop. Returns whether it was recorded. The stop is marked for the
    /// next round only if `mark_for_exploration` is set.
    pub fn try_improve(
        &mut self,
        stop_id: i32,
        label: RaptorLabel,
        round: usize,
        source_arrival_time: i64,
        time_limit: Option<i64>,
        mark_for_exploration: bool,
    ) -> (r: bool)
        requires
            round < usize::MAX,
        ensures
            r == old(self)@.accepts(
                stop_id,
                label.arrival_time,
                source_arrival_time,
                time_limit,
            ),
            final(self)@ == old(self)@.improve(
                stop_id,
                label,
                round as int,
                source_arrival_time,
                time_limit,
                mark_for_exploration,
            ),
    {
        if let Some(limit) = time_limit {
            if label.arrival_time > limit {
                return false;
            }
        }
        if label.arrival_time <= source_arrival_time {
            return false;
        }
        let dominated = match map_get(&self.best_arrival, &stop_id) {
            Some(best) => label.arrival_time >= *best,
            None => false,
        };
        if dominated {
            return false;
        }
        map_insert(&mut self.best_arrival, stop_id, label.arrival_time);
        self.ensure_round(round);
        let ghost labels = self@.labels;
        assert(labels.len() == self.labels_per_round@.len());
        map_insert(&mut self.labels_per_round[round], stop_id, label);
        assert(self@.labels =~= labels.update(
            round as int,
            labels[round as int].insert(stop_id, label),
        ));
        if mark_for_exploration {
            set_insert(&mut self.marked_stops, stop_id);
            set_insert(&mut self.round_improved_stops, stop_id);
        }
        true
    }

    /// The label of a stop in a round.
    pub fn get_label(&self, stop_id: i32, round: usize) -> (r: Option<&RaptorLabel>)
        ensures
            r == if self@.has(round as int, stop_id) {
                Some(&self@.label(round as int, stop_id))
            } else {
                None
            },
    {
        if round < self.labels_per_round.len() {
            map_get(&self.labels_per_round[round], &stop_id)
        } else {
            None
        }
    }

    /// The label of a stop in the latest round before `current_round` in which it was reached,
    /// with that round.
    pub fn get_previous_label(&self, stop_id: i32, current_round: usize) -> (r: Option<
        (&RaptorLabel, usize),
    >)
        ensures
            match self@.previous_round(stop_id, current_round as int) {
                Some(round) => r == Some((&self@.label(round, stop_id), round as usize)),
                None => r is None,
            },
    {
        let mut round: usize = current_round;
        while round > 0
            invariant
                round <= current_round,
                self@.previous_round(stop_id, current_round as int) == self@.previous_round(
                    stop_id,
                    round as int,
                ),
            decreases round,
        {
            round -= 1;
            if let Some(label) = self.get_label(stop_id, round) {
                return Some((label, round));
            }
        }
        None
    }
}

} // verus!
