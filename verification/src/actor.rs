//! The actor: one client, its ports, its rates, and its resumable loop.
//!
//! An actor advances through micro-steps, each touching at most one channel:
//! a bootstrap prologue that fires the flagged outputs, then cycles of
//! gathering one envelope per input, routing them to the client, updating
//! it, and distributing the client's writes to every output channel. The
//! sampling rates `NI` and `NO` fix how many gather rounds pair with how
//! many distribute rounds in one cycle.

use vstd::prelude::*;
use std::sync::Arc;
use crate::ActorError;

verus! {

/// A receiver port: the channel it drains.
pub struct Input {
    pub channel: usize,
}

/// A sender port: the channels it fans out to, one per consumer, and the
/// flag that makes it fire during the bootstrap prologue. `emitted` records
/// every envelope the owning client ever wrote to this port.
pub struct Output<P> {
    pub channels: Vec<usize>,
    pub bootstrap: bool,
    pub emitted: Ghost<Seq<Arc<P>>>,
}

/// Where an actor stands inside its loop.
#[derive(Clone, Copy)]
pub enum Phase {
    /// Bootstrap prologue: firing flagged output `port`, consumer `chan`
    /// next, in prologue round `round`.
    Boot { round: usize, port: usize, chan: usize },
    /// Collect round `k` of the cycle: waiting to drain input `j`.
    Gather { k: usize, j: usize },
    /// Collect round `k` of the cycle: routing the buffered envelope of
    /// input `j` to the client.
    Scatter { k: usize, j: usize },
    /// Distribute round `round` of the cycle: writing output `port`,
    /// consumer `chan` next.
    Distribute { round: usize, port: usize, chan: usize },
    /// The loop has exited; `outcome` says how.
    Done,
}

/// One cooperative task: a client's ports, rates and loop position. The
/// client itself lives beside the actor in the model, under the same index.
pub struct Actor<P> {
    /// Ratio of the simulation rate to the input sampling rate; zero when
    /// the actor has no inputs.
    pub ni: usize,
    /// Ratio of the simulation rate to the output sampling rate; zero when
    /// the actor has no outputs.
    pub no: usize,
    pub inputs: Vec<Input>,
    pub outputs: Vec<Output<P>>,
    /// A name for diagnostics.
    pub tag: Option<String>,
    pub phase: Phase,
    /// The envelope written but not yet delivered to every consumer.
    pub pending: Option<Arc<P>>,
    /// The envelopes gathered this round, one per input already drained.
    pub buf: Vec<Arc<P>>,
    /// How the loop ended: `None` is an orderly exit.
    pub outcome: Option<ActorError>,
    /// Completed collect rounds.
    pub coll_rounds: Ghost<int>,
    /// Completed distribute rounds of the normal loop.
    pub dist_rounds: Ghost<int>,
    /// Completed rounds of the bootstrap prologue.
    pub boot_rounds: Ghost<int>,
    /// Completed cycles: full runs of collect rounds plus distribute
    /// rounds.
    pub cycles: Ghost<int>,
}

impl<P> Actor<P> {
    /// Collect rounds per cycle: none without inputs, one per cycle unless
    /// the output side is slower, then one per output tick.
    pub open spec fn collect_target(&self) -> int {
        if self.inputs.len() == 0 {
            0
        } else if self.outputs.len() == 0 {
            1
        } else if self.no >= self.ni {
            self.no as int / self.ni as int
        } else {
            1
        }
    }

    /// Distribute rounds per cycle: none without outputs, one per cycle
    /// unless the input side is slower, then one per input tick.
    pub open spec fn dist_target(&self) -> int {
        if self.outputs.len() == 0 {
            0
        } else if self.inputs.len() == 0 {
            1
        } else if self.ni > self.no {
            self.ni as int / self.no as int
        } else {
            1
        }
    }

    /// Whether any output takes part in the bootstrap prologue.
    pub open spec fn has_boot_port(&self) -> bool {
        exists|p: int| 0 <= p < self.outputs.len() && self.outputs[p].bootstrap
    }

    /// Bootstrap rounds: flagged outputs fire as often as a normal cycle
    /// distributes.
    pub open spec fn boot_target(&self) -> int {
        if self.has_boot_port() {
            self.dist_target()
        } else {
            0
        }
    }

    /// The declared rates agree with the attached ports and divide evenly
    /// in the direction of the ratio.
    pub open spec fn rates_ok(&self) -> bool {
        &&& (self.inputs.len() > 0 <==> self.ni >= 1)
        &&& (self.outputs.len() > 0 <==> self.no >= 1)
        &&& (self.inputs.len() > 0 && self.outputs.len() > 0 ==> {
            if self.no >= self.ni {
                self.no as int % self.ni as int == 0
            } else {
                self.ni as int % self.no as int == 0
            }
        })
    }

    pub open spec fn is_done(&self) -> bool {
        self.phase is Done
    }

    /// The actor has not taken a single step yet.
    pub open spec fn unstarted(&self) -> bool {
        &&& self.phase == (Phase::Boot { round: 0, port: 0, chan: 0 })
        &&& self.pending is None
        &&& self.buf@.len() == 0
        &&& self.coll_rounds@ == 0
        &&& self.dist_rounds@ == 0
        &&& self.boot_rounds@ == 0
        &&& self.cycles@ == 0
    }

    /// A fresh, unwired actor with the given rates, ready to bootstrap.
    pub fn new(ni: usize, no: usize) -> (r: Self)
        ensures
            r.ni == ni,
            r.no == no,
            r.inputs@.len() == 0,
            r.outputs@.len() == 0,
            r.tag is None,
            r.phase == (Phase::Boot { round: 0, port: 0, chan: 0 }),
            r.pending is None,
            r.buf@.len() == 0,
            r.outcome is None,
            r.coll_rounds@ == 0,
            r.dist_rounds@ == 0,
            r.boot_rounds@ == 0,
            r.cycles@ == 0,
    {
        Actor {
            ni,
            no,
            inputs: Vec::new(),
            outputs: Vec::new(),
            tag: None,
            phase: Phase::Boot { round: 0, port: 0, chan: 0 },
            pending: None,
            buf: Vec::new(),
            outcome: None,
            coll_rounds: Ghost(0),
            dist_rounds: Ghost(0),
            boot_rounds: Ghost(0),
            cycles: Ghost(0),
        }
    }

    /// Names the actor for diagnostics.
    pub fn tag(self, tag: String) -> (r: Self)
        ensures
            r.tag == Some(tag),
            r.ni == self.ni,
            r.no == self.no,
            r.inputs == self.inputs,
            r.outputs == self.outputs,
            r.phase == self.phase,
            r.pending == self.pending,
            r.buf == self.buf,
            r.outcome == self.outcome,
    {
        Actor { tag: Some(tag), ..self }
    }
}

/// Builder for an actor without outputs: a sink.
pub struct Terminator {
}

impl Terminator {
    /// An actor that only collects, at input rate `ni`.
    pub fn build<P>(ni: usize) -> (r: Actor<P>)
        ensures
            r.ni == ni,
            r.no == 0,
            r.inputs@.len() == 0,
            r.outputs@.len() == 0,
            r.phase == (Phase::Boot { round: 0, port: 0, chan: 0 }),
            r.outcome is None,
    {
        Actor::new(ni, 0)
    }
}

/// Builder for an actor without inputs: a source.
pub struct Initiator {
}

impl Initiator {
    /// An actor that only distributes, at output rate `no`.
    pub fn build<P>(no: usize) -> (r: Actor<P>)
        ensures
            r.ni == 0,
            r.no == no,
            r.inputs@.len() == 0,
            r.outputs@.len() == 0,
            r.phase == (Phase::Boot { round: 0, port: 0, chan: 0 }),
            r.outcome is None,
    {
        Actor::new(0, no)
    }
}

} // verus!
