# raptor_routing

A round-based public transit router (RAPTOR), verified with Verus.

A search starts at a stop and an instant and runs in rounds. Round 0 holds the departure stop and
the stops within a walk of it. Each round then boards journeys at the stops that the round before
has reached, and walks on from the exchange points that it reaches by a ride, so round `n` holds
the arrivals after `n` rides. A search answers with a route to one stop, or with a route to every
stop that can be reached by a time limit.

- `src/calendar.rs`: instants and days as integers, with the calendar of `chrono` behind them.
- `src/fx.rs`: the operations on the hash maps and sets of `rustc_hash` that the router uses.
- `src/timetable.rs`: the timetable, as plain values, with the journeys of `hrdf_parser`.
- `src/routing/state.rs`: the labels that a search has found.
- `src/routing/exploration.rs`: boarding and walking.
- `src/routing/reconstruction.rs`: from labels to routes.
- `src/routing/raptor.rs`: the rounds, and `raptor_compute`.
- `src/routing/soundness.rs`: the invariant of a search.
- `src/routing/laws.rs`: what holds of every route that a search finds.
- `src/routing/completeness.rs`: what a search does not miss.
- `src/routing/departures.rs`: which departures are boarded, and in which order.
- `src/routing/rounds.rs`: how searches with more and with fewer rounds compare.
- `src/routing/way_back.rs`: what holds of routes that are read from any labels.
- `app/lib.rs`: the router on the data that `hrdf_parser` loads.
