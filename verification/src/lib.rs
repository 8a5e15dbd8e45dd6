//! Verified core of a checker for vehicle-routing solutions.
//!
//! The crate parses routing instances (two textual dialects, with or without
//! pickup-and-delivery pairs) and solution files, checks a solution against an
//! instance (visitation, capacity, time windows, pickup/delivery ordering) and
//! computes the travelled distance with high-precision arithmetic.

pub mod numeric;
pub mod instance;
pub mod laws;
pub mod point;
pub mod solution;
pub mod text;
pub mod verify;
