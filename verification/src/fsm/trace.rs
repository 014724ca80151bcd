use vstd::prelude::*;
use crate::fsm::engine::{State, Transition};
use crate::fsm::machine::{Machine, TransitionId};

verus! {

/// What happened in one tick of a machine that had not exited: what the
/// calls on the user's states and transitions made of the machine and of the
/// context, step by step.
pub struct Trace<C, S, T> {
    /// Whether the current state had finished once its tick was over.
    pub finished: bool,
    /// The machine after the tick of the current state.
    pub ticked: Machine<S, T>,
    /// The context after the tick of the current state.
    pub ticked_ctx: C,
    /// The transitions that were asked whether they are satisfied, in the
    /// order in which they were asked.
    pub asked: Seq<TransitionId>,
    /// The context before each question, and after the last.
    pub contexts: Seq<C>,
    /// The transition that was followed, if one was.
    pub fired: Option<TransitionId>,
    /// The context after the questions.
    pub asked_ctx: C,
    /// The machine after the current state was left.
    pub left: Machine<S, T>,
    /// The context after the current state was left.
    pub left_ctx: C,
    /// The machine after the move, before the new state was entered.
    pub moved: Machine<S, T>,
}

/// The tick of the current state. A state that has finished is not ticked
/// again, and nothing changes. One that has not is ticked once: its own
/// state and the context become what its `tick` makes of them, and
/// `finished` is what its `tick` says.
pub open spec fn state_ticked<C, S: State<C>, T: Transition<C, S>>(
    m: Machine<S, T>,
    ctx: C,
    next: Machine<S, T>,
    ctx_after: C,
    finished: bool,
) -> bool {
    if m.curr_finished {
        next == m && ctx_after == ctx && finished
    } else {
        &&& next == m.with_payload(m.curr, next.nodes[m.curr].state)
        &&& m.nodes[m.curr].state.ticks(ctx, &next.nodes[m.curr].state, ctx_after, finished)
    }
}

/// The questions to the transitions out of the current state. Each is asked
/// at most once, one after the other, with the current state and the state
/// it leads to. Every one but the last says that it is not satisfied. The
/// last says that it is satisfied where a transition fires, and it is the
/// one that fires; where none fires, every transition out of the current
/// state was asked.
pub open spec fn asked_in_turn<C, S: State<C>, T: Transition<C, S>>(
    m: Machine<S, T>,
    ctx: C,
    asked: Seq<TransitionId>,
    contexts: Seq<C>,
    fired: Option<TransitionId>,
    ctx_after: C,
) -> bool {
    &&& asked.no_duplicates()
    &&& contexts.len() == asked.len() + 1
    &&& contexts[0] == ctx
    &&& contexts[asked.len() as int] == ctx_after
    &&& forall|i: int|
        0 <= i < asked.len() ==> {
            &&& m.nodes[m.curr].out_set.contains(#[trigger] asked[i])
            &&& m.links[asked[i]].transition.answers(
                contexts[i],
                &m.nodes[m.curr].state,
                &m.nodes[m.links[asked[i]].dst].state,
                contexts[i + 1],
                fired is Some && i == asked.len() - 1,
            )
        }
    &&& match fired {
        Some(t) => asked.len() > 0 && asked[asked.len() - 1] == t,
        None => asked.to_set() == m.nodes[m.curr].out_set,
    }
}

/// The questions of a tick: the transitions are asked once the current state
/// has finished, and not before.
pub open spec fn transitions_asked<C, S: State<C>, T: Transition<C, S>>(
    m: Machine<S, T>,
    ctx: C,
    finished: bool,
    asked: Seq<TransitionId>,
    contexts: Seq<C>,
    fired: Option<TransitionId>,
    ctx_after: C,
) -> bool {
    if finished {
        asked_in_turn(m, ctx, asked, contexts, fired, ctx_after)
    } else {
        asked.len() == 0 && fired is None && ctx_after == ctx
    }
}

/// Leaving the current state. Where a transition fires, `exit` is called on
/// the current state once: its own state and the context become what its
/// `exit` makes of them. Where none fires, nothing changes.
pub open spec fn state_left<C, S: State<C>, T: Transition<C, S>>(
    m: Machine<S, T>,
    ctx: C,
    fired: Option<TransitionId>,
    next: Machine<S, T>,
    ctx_after: C,
) -> bool {
    if fired is Some {
        &&& next == m.with_payload(m.curr, next.nodes[m.curr].state)
        &&& m.nodes[m.curr].state.exits(ctx, &next.nodes[m.curr].state, ctx_after)
    } else {
        next == m && ctx_after == ctx
    }
}

/// Entering the new current state. Where a transition has fired, `enter` is
/// called once on the state that the machine has moved to: its own state and
/// the context become what its `enter` makes of them. Where none has fired,
/// nothing changes.
pub open spec fn state_entered<C, S: State<C>, T: Transition<C, S>>(
    m: Machine<S, T>,
    ctx: C,
    fired: Option<TransitionId>,
    next: Machine<S, T>,
    ctx_after: C,
) -> bool {
    if fired is Some {
        &&& next == m.with_payload(m.curr, next.nodes[m.curr].state)
        &&& m.nodes[m.curr].state.enters(ctx, &next.nodes[m.curr].state, ctx_after)
    } else {
        next == m && ctx_after == ctx
    }
}

/// Whether the tick that `trace` tells of leads from the machine `m` in the
/// context `ctx` to the machine `next` in the context `ctx_after`: the
/// current state is ticked unless it has finished; once it has finished its
/// transitions are asked in turn; where one is satisfied the current state
/// is left, the machine moves along that transition, and the state it comes
/// to is entered.
pub open spec fn follows<C, S: State<C>, T: Transition<C, S>>(
    m: Machine<S, T>,
    ctx: C,
    trace: Trace<C, S, T>,
    next: Machine<S, T>,
    ctx_after: C,
) -> bool {
    &&& state_ticked(m, ctx, trace.ticked, trace.ticked_ctx, trace.finished)
    &&& transitions_asked(
        trace.ticked,
        trace.ticked_ctx,
        trace.finished,
        trace.asked,
        trace.contexts,
        trace.fired,
        trace.asked_ctx,
    )
    &&& state_left(trace.ticked, trace.asked_ctx, trace.fired, trace.left, trace.left_ctx)
    &&& trace.moved == trace.left.advanced(trace.finished, trace.fired)
    &&& state_entered(trace.moved, trace.left_ctx, trace.fired, next, ctx_after)
}

/// Whether one tick may lead from the machine `m` in the context `ctx` to
/// the machine `next` in the context `ctx_after`. A machine that has exited
/// stays as it is, and so does the context. Any other goes through the
/// steps of a tick.
pub open spec fn ticks_to<C, S: State<C>, T: Transition<C, S>>(
    m: Machine<S, T>,
    ctx: C,
    next: Machine<S, T>,
    ctx_after: C,
) -> bool {
    if m.exited {
        next == m && ctx_after == ctx
    } else {
        exists|trace: Trace<C, S, T>| follows(m, ctx, trace, next, ctx_after)
    }
}

} // verus!
