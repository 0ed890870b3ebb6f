//! A log of the branch decisions an agent takes: the options it considered,
//! the option it chose, why, and (later) what came of it.

pub mod external;
pub mod id;
pub mod decision;
pub mod jsonl;

pub use decision::{Decision, DecisionLog};
