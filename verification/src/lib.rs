//! An immutable date value in the proleptic Gregorian calendar, with
//! epoch-day and Unix-timestamp conversion, calendar field access and
//! mutation, calendar arithmetic, and a pattern-based text formatter.

pub mod calendar;
pub mod date;
pub mod error;
pub mod pattern;
