//! A base-6 cellular automaton performing digit-serial carry propagation,
//! with a replayable generation history.
//!
//! The automaton works on a sequence of encoded cells, each holding two
//! carry components, a parity bit and a tail flag.  One generation applies
//! a synchronous carry-ripple rule over the whole sequence; a history
//! manager records every generation and supports cached forward/backward
//! navigation.

pub mod state;
pub mod state_controller;
pub mod transition;

pub use state::{CCAError, CCAState, TritBitDomino};
pub use state_controller::CCAStateController;
