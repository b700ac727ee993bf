//! Public transport routing by rounds.

pub mod calendar;
pub mod fx;
pub mod lookups;
pub mod routing;
pub mod timetable;
