//! A small job bookkeeping library: jobs with a lifecycle state, a
//! classifier for optional integers, and a line-oriented `key = value`
//! parser.

pub mod classify;
pub mod job;
pub mod pairs;

pub use classify::classify;
pub use job::Job;
pub use job::State;
pub use pairs::parse_pairs;
pub use pairs::PairMap;
