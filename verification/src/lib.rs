//! Analytical core for timed-task training sessions: an option language that
//! selects analyses, and a statistics engine that evaluates them over a
//! session's ordered record sequence.

pub mod dates;
pub mod options;
pub mod parser;
pub mod record;
pub mod session;
pub mod stats;
pub mod text;
pub mod time;
