//! Verified core of a personal travel and meal logbook.
//!
//! The library models commute trips (origin, destination, distance, duration,
//! date, return-trip flag) and meal-subsidy days, groups trips into date
//! intervals or calendar months, computes distance and time totals, ranks
//! favorite routes, and renders fixed-width text reports.  Distances are held
//! in tenths of a kilometre and durations in whole minutes, so every quantity
//! is an exact integer.  Dates are plain calendar values with a validity
//! invariant.  Persistence, clocks and the user interface live outside the
//! library and hand it plain values.

pub mod checkpoints;
pub mod customtrips;
pub mod date;
pub mod dateset;
pub mod destinations;
pub mod favorites;
pub mod interval;
pub mod killring;
pub mod meals;
pub mod month;
pub mod report;
pub mod summary;
pub mod text;
pub mod trip;
pub mod trips;
