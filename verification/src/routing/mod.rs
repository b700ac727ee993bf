//! The round-based search.

pub mod answers;
pub mod calls;
pub mod completeness;
pub mod departures;
pub mod exploration;
pub mod laws;
pub mod models;
pub mod raptor;
pub mod reconstruction;
pub mod rounds;
pub mod soundness;
pub mod sources;
pub mod state;
pub mod steps;
pub mod way_back;
