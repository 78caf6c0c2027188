//! Resolution of the event that is active on a given calendar date.

pub mod date;
pub mod order;
pub mod event;
