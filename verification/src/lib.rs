//! A cron-class scheduling library.
//!
//! The library holds the logic of a small scheduling daemon: calendar
//! arithmetic that decides when a timing rule next fires, a due-time queue
//! ordered by instant, and the decisions the dispatcher and execution
//! workers make. Everything here is verified; the surrounding process
//! (configuration files, subprocesses, threads) lives outside.

pub mod datetime;
pub mod dispatch;
pub mod queue;
pub mod rules;
pub mod task;
