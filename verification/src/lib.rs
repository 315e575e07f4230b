//! A generic, embeddable hierarchical state-machine engine.
//!
//! The engine owns an ordered stack of states and a running flag. A host
//! drives it through lifecycle entry points (`start`, `update`,
//! `fixed_update`, `event`, `stop`); each state answers with a [`Trans`]
//! value that the engine interprets by mutating the stack, possibly invoking
//! further lifecycle calls on newly supplied states.
//!
//! The engine comes in two argument-passing modes sharing one algorithm: an
//! owned mode, which clones the argument once per lifecycle call of a pass
//! (`StateMachine` with `A: Clone`), and an exclusive-reference mode, which
//! threads one `&mut` context through every call unduplicated
//! (`StateMachineRef`).
//!
//! Every lifecycle call the engine issues is recorded in a ghost history —
//! for the transition-returning calls together with the [`Answer`] the state
//! gave — and the engine's contracts prove, for each recorded answer, the
//! exact calls, stack and flags that result, and that the history always
//! obeys the lifecycle protocol: `start` first, `stop` exactly once and only
//! on a paused state, and every `pause` followed (within that state's own
//! calls) only by `resume` or `stop`.

mod lifecycle;
mod machine;

pub use lifecycle::{Answer, Call, Ev, Phase};
pub use lifecycle::{lifecycle_ok, phase_of, step, stops_of};
pub use lifecycle::{
    lemma_pause_then_resume_or_stop, lemma_start_comes_first, lemma_stop_follows_pause,
    lemma_stop_is_terminal, lemma_valid_prefix,
};
pub use machine::{Ref, State, StateMachine, StateMachineRef, Trans};
pub use machine::{answer_of, lemma_machine_lifecycle};
