//! What a search is asked for and what it answers.

use rustc_hash::FxHashSet;
use vstd::prelude::*;

verus! {

/// What the search is to find.
#[derive(Clone, Copy, Debug, PartialEq, Eq, Structural)]
pub enum RoutingAlgorithmMode {
    /// A route to one stop.
    SolveFromDepartureStopToArrivalStop,
    /// A route to every stop that can be reached by a time limit.
    SolveFromDepartureStopToReachableArrivalStops,
}

/// The arguments of a search, according to its mode.
#[derive(Clone, Copy, Debug)]
pub struct RoutingAlgorithmArgs {
    mode: RoutingAlgorithmMode,
    arrival_stop_id: Option<i32>,
    time_limit: Option<i64>,
}

impl RoutingAlgorithmArgs {
    #[verifier::type_invariant]
    spec fn inv(self) -> bool {
        match self.mode {
            RoutingAlgorithmMode::SolveFromDepartureStopToArrivalStop => {
                self.arrival_stop_id is Some && self.time_limit is None
            },
            RoutingAlgorithmMode::SolveFromDepartureStopToReachableArrivalStops => {
                self.arrival_stop_id is None && self.time_limit is Some
            },
        }
    }

    /// The stop to reach, if the search is for one stop.
    pub closed spec fn target(self) -> Option<i32> {
        self.arrival_stop_id
    }

    /// The instant by which to arrive, if the search is for all stops.
    pub closed spec fn limit(self) -> Option<i64> {
        self.time_limit
    }

    /// A search for a route to one stop.
    pub fn solve_from_departure_stop_to_arrival_stop(arrival_stop_id: i32) -> (r: Self)
        ensures
            r.target() == Some(arrival_stop_id),
            r.limit() == None::<i64>,
    {
        RoutingAlgorithmArgs {
            mode: RoutingAlgorithmMode::SolveFromDepartureStopToArrivalStop,
            arrival_stop_id: Some(arrival_stop_id),
            time_limit: None,
        }
    }

    /// A search for routes to all stops that can be reached by the time limit.
    pub fn solve_from_departure_stop_to_reachable_arrival_stops(time_limit: i64) -> (r: Self)
        ensures
            r.target() == None::<i32>,
            r.limit() == Some(time_limit),
    {
        RoutingAlgorithmArgs {
            mode: RoutingAlgorithmMode::SolveFromDepartureStopToReachableArrivalStops,
            arrival_stop_id: None,
            time_limit: Some(time_limit),
        }
    }

    /// What the search is to find.
    pub fn mode(&self) -> (r: RoutingAlgorithmMode)
        ensures
            (r == RoutingAlgorithmMode::SolveFromDepartureStopToArrivalStop) == (self.target()
                is Some),
            (r == RoutingAlgorithmMode::SolveFromDepartureStopToReachableArrivalStops) == (
            self.limit() is Some),
    {
        proof {
            use_type_invariant(self);
        }
        self.mode
    }

    /// The stop to reach, of a search for one stop.
    pub fn arrival_stop_id(&self) -> (r: i32)
        requires
            self.target() is Some,
        ensures
            self.target() == Some(r),
    {
        self.arrival_stop_id.unwrap()
    }

    /// The instant by which to arrive, of a search for all stops.
    pub fn time_limit(&self) -> (r: i64)
        requires
            self.limit() is Some,
        ensures
            self.limit() == Some(r),
    {
        self.time_limit.unwrap()
    }
}

/// One part of a route: a ride with a journey, or a walk if there is no journey.
#[derive(Clone, Copy, Debug, PartialEq, Eq, Structural)]
pub struct RouteSection {
    pub journey_id: Option<i32>,
    pub departure_stop_id: i32,
    pub arrival_stop_id: i32,
    pub arrival_at: i64,
    /// The minutes of a walk.
    pub duration: Option<i16>,
}

impl RouteSection {
    pub fn new(
        journey_id: Option<i32>,
        departure_stop_id: i32,
        arrival_stop_id: i32,
        arrival_at: i64,
        duration: Option<i16>,
    ) -> (r: Self)
        ensures
            r == (RouteSection {
                journey_id,
                departure_stop_id,
                arrival_stop_id,
                arrival_at,
                duration,
            }),
    {
        RouteSection { journey_id, departure_stop_id, arrival_stop_id, arrival_at, duration }
    }

    pub fn journey_id(&self) -> (r: Option<i32>)
        ensures
            r == self.journey_id,
    {
        self.journey_id
    }
}

/// What a route is made of.
#[verifier::ext_equal]
pub struct RouteView {
    pub sections: Seq<RouteSection>,
    pub visited_stops: Set<i32>,
}

/// A route, with the stops at which its sections start and end.
#[derive(Debug)]
pub struct Route {
    sections: Vec<RouteSection>,
    visited_stops: FxHashSet<i32>,
}

impl View for Route {
    type V = RouteView;

    closed spec fn view(&self) -> RouteView {
        RouteView { sections: self.sections@, visited_stops: self.visited_stops@ }
    }
}

impl Route {
    pub fn new(sections: Vec<RouteSection>, visited_stops: FxHashSet<i32>) -> (r: Self)
        ensures
            r@ == (RouteView { sections: sections@, visited_stops: visited_stops@ }),
    {
        Route { sections, visited_stops }
    }

    pub fn sections(&self) -> (r: &Vec<RouteSection>)
        ensures
            r@ == self@.sections,
    {
        &self.sections
    }

    pub fn visited_stops(&self) -> (r: &FxHashSet<i32>)
        ensures
            r@ == self@.visited_stops,
    {
        &self.visited_stops
    }
}

} // verus!
