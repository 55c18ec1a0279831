//! The textual form of the operations.

pub mod building;
pub mod grammar;
pub mod names;
pub mod naming;
pub mod outside;
pub mod printing;
pub mod read_back;
pub mod reading;
pub mod round_trip;
pub mod spacing;
pub mod spelling;
pub mod wording;
