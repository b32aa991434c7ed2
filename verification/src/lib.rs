//! Running-balance ledgers with recurring transactions.
//!
//! Each named ledger is an ordered log of entries with a materialised running
//! balance, a table of recurrence rules and the instant of the last scheduler
//! run. Every operation is verified against a mathematical model of the log.

pub mod calendar;
pub mod error;
pub mod ledger;
pub mod names;
pub mod query;
pub mod registry;
pub mod schedule;
pub mod scheduler;
