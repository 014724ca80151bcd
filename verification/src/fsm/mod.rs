//! A state machine over states and transitions of the user's own making.

pub mod engine;
pub mod machine;
pub mod preset;
pub mod trace;

pub use engine::{Edge, Fsm, Node, State, Transition};
pub use preset::{PresetState, PresetTransition, TickPlan};
pub use trace::{ticks_to, Trace};
pub use machine::{Link, Machine, NodeView, StateId, TransitionId};
