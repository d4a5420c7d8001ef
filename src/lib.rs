//! Causal analysis of a recorded distributed execution: vector clocks,
//! the happens-before relation, consistent cuts and recovery lines.

pub mod event;
pub mod clock;
pub mod order;
pub mod cuts;
pub mod recovery;
pub mod ring;
