//! Reconciliation of offline presence events into per-day work sessions and
//! summaries, with the count-check synchronisation protocol around it.
//!
//! - `event`: events, calendar-day bucketing, stable time ordering.
//! - `session`: sessions and the matcher's state machine, with the midnight lookback.
//! - `summary`: the per-day aggregate over sessions.
//! - `ledger`: one user's event log and sessions; incremental sync, count-check, history.
//! - `report`: monthly attendance and configuration status.
//! - `admin`: administrator sessions and role rules.
//! - `models`: request records and the response envelope.
pub mod event;
pub mod session;
pub mod summary;
pub mod ledger;
pub mod models;
pub mod admin;
pub mod report;
