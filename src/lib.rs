//! A durable timer engine: a deadline-ordered timer queue, a payload store,
//! an append-only operation log with replay, and a duration parser.
//!
//! Everything here is verified. Opening the log file, the background
//! dispatcher thread and the locking around the engine live in the
//! application crate, which drives the state machine defined here.

pub mod clock;
pub mod duration;
pub mod oplog;
pub mod queue;
pub mod recovery;
pub mod store;
pub mod text;
pub mod timer_ship;
pub mod timer;
