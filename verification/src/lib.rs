//! Building blocks of a rate-heterogeneous dataflow actor runtime.
//!
//! A model is a collection of actors. Each actor owns one client (the compute
//! kernel), a list of input ports and a list of output ports, together with
//! the integer sampling rates of its input side (`NI`) and its output side
//! (`NO`). Actors exchange immutable data envelopes over bounded channels;
//! the scheduler interleaves the actors deterministically, one micro-step at
//! a time, so that every channel operation and every rate adaptation is
//! accounted for.

use vstd::prelude::*;

pub mod actor;
pub mod check;
pub mod clients;
pub mod io;
pub mod laws;
pub mod model;

verus! {

/// Everything that can end an actor's loop or fail a model validation.
#[derive(Debug, Clone, PartialEq, Eq)]
pub enum ActorError {
    /// A receiver lost all of its senders; the upstream actor is gone.
    DropRecv,
    /// A sender lost its receiver; the downstream actor is gone.
    DropSend,
    /// The client's `write` returned no envelope: orderly end of stream.
    NoData,
    /// An operation that needs inputs ran on an actor without any.
    NoInputs,
    /// An operation that needs outputs ran on an actor without any.
    NoOutputs,
    /// No client was assigned to the actor.
    NoClient,
    /// The output of the named actor has been shut down.
    Disconnected(usize),
    /// The named actor has inputs but declares a zero input rate.
    SomeInputsZeroRate(usize),
    /// The named actor has no inputs but declares a positive input rate.
    NoInputsPositiveRate(usize),
    /// The named actor has outputs but declares a zero output rate.
    SomeOutputsZeroRate(usize),
    /// The named actor has no outputs but declares a positive output rate.
    NoOutputsPositiveRate(usize),
    /// The rates of a linked producer/consumer pair do not divide evenly.
    RateMismatch(usize, usize),
    /// A feedback cycle through the listed actors has no bootstrapped output.
    CycleWithoutBootstrap(Vec<usize>),
    /// No actor could take a step although some were still running.
    Stalled,
    /// The sweep budget ran out before every actor had finished.
    Incomplete,
}

/// Equality of errors up to the contents of listed actors: two cycle
/// reports agree when they list the same actors in the same order.
pub open spec fn same_error(a: ActorError, b: ActorError) -> bool {
    match (a, b) {
        (ActorError::CycleWithoutBootstrap(v1), ActorError::CycleWithoutBootstrap(v2)) => v1@
            == v2@,
        _ => a == b,
    }
}

impl ActorError {
    /// A value equal to this error, rebuilt field by field.
    pub fn duplicate(&self) -> (r: ActorError)
        ensures
            same_error(r, *self),
    {
        match self {
            ActorError::DropRecv => ActorError::DropRecv,
            ActorError::DropSend => ActorError::DropSend,
            ActorError::NoData => ActorError::NoData,
            ActorError::NoInputs => ActorError::NoInputs,
            ActorError::NoOutputs => ActorError::NoOutputs,
            ActorError::NoClient => ActorError::NoClient,
            ActorError::Disconnected(p) => ActorError::Disconnected(*p),
            ActorError::SomeInputsZeroRate(i) => ActorError::SomeInputsZeroRate(*i),
            ActorError::NoInputsPositiveRate(i) => ActorError::NoInputsPositiveRate(*i),
            ActorError::SomeOutputsZeroRate(i) => ActorError::SomeOutputsZeroRate(*i),
            ActorError::NoOutputsPositiveRate(i) => ActorError::NoOutputsPositiveRate(*i),
            ActorError::RateMismatch(u, v) => ActorError::RateMismatch(*u, *v),
            ActorError::CycleWithoutBootstrap(v) => {
                let mut copy: Vec<usize> = Vec::new();
                let n: usize = v.len();
                let mut i: usize = 0;
                while i < n
                    invariant
                        i <= n,
                        n == v@.len(),
                        copy@.len() == i,
                        forall|x: int| 0 <= x < i ==> copy@[x] == v@[x],
                    decreases n - i,
                {
                    copy.push(v[i]);
                    i = i + 1;
                }
                proof {
                    assert(copy@ =~= v@);
                }
                ActorError::CycleWithoutBootstrap(copy)
            },
            ActorError::Stalled => ActorError::Stalled,
            ActorError::Incomplete => ActorError::Incomplete,
        }
    }
}

} // verus!
