//! Reconciliation of a general ledger against a trial balance.
//!
//! Amounts are fixed-point values in micro-units (millionths of a currency
//! unit). The library checks dataset schemas, reports the lines of journal
//! entries that do not balance, and reconciles ledger activity per account
//! with the opening and ending balances of the trial balance.
pub mod amount;
pub mod completeness;
pub mod records;
pub mod schema;
pub mod text;
pub mod unbalanced;
