//! The model: every actor, every client and every channel of one
//! simulation, with the wiring interface, the topology check and the
//! deterministic cooperative scheduler.

use vstd::prelude::*;
use std::sync::Arc;
use crate::ActorError;
use crate::actor::{Actor, Input, Output, Phase};
use crate::clients::Update;
use crate::io::{share, Channel};
use vstd::string::StringExecFns;

verus! {

/// Builder for one actor output: how many consumers it feeds, with which
/// channel capacity, and whether it fires during the bootstrap prologue.
pub struct ActorOutputBuilder {
    capacity: Vec<usize>,
    bootstrap: bool,
}

impl ActorOutputBuilder {
    pub closed spec fn spec_capacity(&self) -> Seq<usize> {
        self.capacity@
    }

    pub closed spec fn spec_bootstrap(&self) -> bool {
        self.bootstrap
    }

    /// A builder multiplexed `n` times, every channel at capacity one.
    pub fn new(n: usize) -> (r: Self)
        ensures
            r.spec_capacity().len() == n,
            forall|i: int| 0 <= i < n ==> r.spec_capacity()[i] == 1,
            !r.spec_bootstrap(),
    {
        let mut capacity: Vec<usize> = Vec::new();
        let mut i: usize = 0;
        while i < n
            invariant
                i <= n,
                capacity@.len() == i,
                forall|j: int| 0 <= j < i ==> capacity@[j] == 1,
            decreases n - i,
        {
            capacity.push(1);
            i = i + 1;
        }
        ActorOutputBuilder { capacity, bootstrap: false }
    }

    /// Lifts the capacity bound on every channel of this output.
    pub fn unbounded(self) -> (r: Self)
        ensures
            r.spec_capacity().len() == self.spec_capacity().len(),
            forall|i: int|
                0 <= i < r.spec_capacity().len() ==> r.spec_capacity()[i]
                    == crate::io::UNBOUNDED,
            r.spec_bootstrap() == self.spec_bootstrap(),
    {
        let n: usize = self.capacity.len();
        let mut capacity: Vec<usize> = Vec::new();
        let mut i: usize = 0;
        while i < n
            invariant
                i <= n,
                capacity@.len() == i,
                forall|j: int| 0 <= j < i ==> capacity@[j] == crate::io::UNBOUNDED,
            decreases n - i,
        {
            capacity.push(crate::io::UNBOUNDED);
            i = i + 1;
        }
        ActorOutputBuilder { capacity, bootstrap: self.bootstrap }
    }

    /// Flags the output for the bootstrap prologue.
    pub fn bootstrap(self) -> (r: Self)
        ensures
            r.spec_capacity() == self.spec_capacity(),
            r.spec_bootstrap(),
    {
        ActorOutputBuilder { bootstrap: true, ..self }
    }

    /// Multiplexes the output `n` times, every channel at the capacity of
    /// the first.
    pub fn multiplex(self, n: usize) -> (r: Self)
        requires
            self.spec_capacity().len() > 0,
        ensures
            r.spec_capacity().len() == n,
            forall|i: int| 0 <= i < n ==> r.spec_capacity()[i] == self.spec_capacity()[0],
            r.spec_bootstrap() == self.spec_bootstrap(),
    {
        let c0: usize = self.capacity[0];
        let mut capacity: Vec<usize> = Vec::new();
        let mut i: usize = 0;
        while i < n
            invariant
                i <= n,
                capacity@.len() == i,
                forall|j: int| 0 <= j < i ==> capacity@[j] == c0,
            decreases n - i,
        {
            capacity.push(c0);
            i = i + 1;
        }
        ActorOutputBuilder { capacity, bootstrap: self.bootstrap }
    }
}

impl Default for ActorOutputBuilder {
    /// A builder with no consumer yet and no bootstrap flag.
    fn default() -> (r: Self)
        ensures
            r.spec_capacity() =~= Seq::<usize>::empty(),
            !r.spec_bootstrap(),
    {
        ActorOutputBuilder { capacity: Vec::new(), bootstrap: false }
    }
}

/// The consumer ends minted by [`Model::add_output`], waiting to be turned
/// into actor inputs, one per call of [`Model::into_input`].
pub struct OutputRx {
    rxs: Vec<usize>,
}

impl OutputRx {
    /// The channels still waiting for a consumer, in minting order.
    pub closed spec fn spec_rxs(&self) -> Seq<usize> {
        self.rxs@
    }
}

/// The character of one decimal digit.
pub open spec fn spec_digit(d: int) -> char {
    if d == 0 {
        '0'
    } else if d == 1 {
        '1'
    } else if d == 2 {
        '2'
    } else if d == 3 {
        '3'
    } else if d == 4 {
        '4'
    } else if d == 5 {
        '5'
    } else if d == 6 {
        '6'
    } else if d == 7 {
        '7'
    } else if d == 8 {
        '8'
    } else {
        '9'
    }
}

/// The decimal digits of `n`, most significant first.
pub open spec fn spec_decimal(n: int) -> Seq<char>
    decreases n,
{
    if n <= 0 {
        seq!['0']
    } else if n < 10 {
        seq![spec_digit(n)]
    } else {
        spec_decimal(n / 10).push(spec_digit(n % 10))
    }
}

/// One decimal digit as text.
fn digit_str(d: usize) -> (r: &'static str)
    requires
        d < 10,
    ensures
        r@ == seq![spec_digit(d as int)],
{
    let r: &'static str = match d {
        0 => "0",
        1 => "1",
        2 => "2",
        3 => "3",
        4 => "4",
        5 => "5",
        6 => "6",
        7 => "7",
        8 => "8",
        _ => "9",
    };
    proof {
        reveal_strlit("0");
        reveal_strlit("1");
        reveal_strlit("2");
        reveal_strlit("3");
        reveal_strlit("4");
        reveal_strlit("5");
        reveal_strlit("6");
        reveal_strlit("7");
        reveal_strlit("8");
        reveal_strlit("9");
        assert(r@ =~= seq![spec_digit(d as int)]);
    }
    r
}

/// Renders `n` in decimal, most significant digit first.
fn decimal(n: usize) -> (r: String)
    ensures
        r@ == spec_decimal(n as int),
    decreases n,
{
    if n < 10 {
        String::from_str(digit_str(n))
    } else {
        let mut s = decimal(n / 10);
        s.append(digit_str(n % 10));
        proof {
            assert(s@ =~= spec_decimal(n as int));
        }
        s
    }
}

/// One interaction between the scheduler and a client, as recorded in the
/// model's ghost event log: what reached which client, and what it
/// answered.
pub enum Event<P> {
    /// The client of actor `actor` was handed the envelope gathered on its
    /// input `input`.
    Read { actor: int, input: int, data: Arc<P> },
    /// The client of actor `actor` advanced one tick.
    Update { actor: int },
    /// The client of actor `actor` was asked for output `port` and
    /// answered `data`; `None` ends the stream.
    Write { actor: int, port: int, answer: Option<Arc<P>> },
}

/// A complete simulation: `clients[i]` is the compute kernel of
/// `actors[i]`, and every port of every actor points into `channels`.
/// `log` records every interaction between the scheduler and a client, in
/// order, so that contracts can say which envelope reached which client.
pub struct Model<P, C> {
    pub clients: Vec<C>,
    pub actors: Vec<Actor<P>>,
    pub channels: Vec<Channel<P>>,
    pub tag: Option<String>,
    pub log: Ghost<Seq<Event<P>>>,
}

impl<P, C: Update<P>> Model<P, C> {
    /// Every port of actor `i` points at an existing channel.
    pub open spec fn wired_actor(&self, i: int) -> bool {
        let a = self.actors[i];
        &&& forall|j: int|
            0 <= j < a.inputs.len() ==> (#[trigger] a.inputs[j]).channel
                < self.channels.len()
        &&& forall|p: int, k: int|
            0 <= p < a.outputs.len() && 0 <= k < a.outputs[p].channels.len()
                ==> (#[trigger] a.outputs[p].channels[k]) < self.channels.len()
    }

    /// One client per actor, every port wired, every channel well formed.
    pub open spec fn wf(&self) -> bool {
        &&& self.clients.len() == self.actors.len()
        &&& forall|i: int| 0 <= i < self.actors.len() ==> #[trigger] self.wired_actor(i)
        &&& forall|c: int| 0 <= c < self.channels.len() ==> (#[trigger] self.channels[c]).wf()
    }

    /// The channel behind fan-out slot `k` of output `p` of actor `i`.
    pub open spec fn out_chan(&self, i: int, p: int, k: int) -> int {
        self.actors[i].outputs[p].channels[k] as int
    }

    /// The channel behind input `l` of actor `i`.
    pub open spec fn in_chan(&self, i: int, l: int) -> int {
        self.actors[i].inputs[l].channel as int
    }

    /// Every channel knows its one sender slot and its one receiver slot,
    /// which makes ports pairwise disjoint.
    pub open spec fn coords_core(actors: Seq<Actor<P>>, channels: Seq<Channel<P>>) -> bool {
        &&& forall|i: int, p: int, k: int|
            0 <= i < actors.len() && 0 <= p < actors[i].outputs.len() && 0 <= k
                < actors[i].outputs[p].channels.len()
                ==> channels[#[trigger] actors[i].outputs[p].channels[k] as int]
                .spec_producer() == Some((i, p, k))
        &&& forall|i: int, l: int|
            0 <= i < actors.len() && 0 <= l < actors[i].inputs.len()
                ==> channels[#[trigger] actors[i].inputs[l].channel as int].spec_consumer()
                == Some((i, l))
    }

    /// Every actor declares rates that fit its ports.
    pub open spec fn rates_ok_all(&self) -> bool {
        forall|i: int|
            0 <= i < self.actors.len() ==> (#[trigger] self.actors[i]).rates_ok()
    }

    /// What a port must have written in the current round sweep, standing
    /// at `port` with a write in flight or not: ports already passed hold
    /// one more than the rounds completed.
    pub open spec fn swept(p: int, round: int, port: int, wrote: bool) -> int {
        if p < port {
            round + 1
        } else if p == port && wrote {
            round + 1
        } else {
            round
        }
    }

    /// All fan-out channels of the port carry exactly what it emitted.
    pub open spec fn port_synced_at(channels: Seq<Channel<P>>, o: Output<P>) -> bool {
        forall|k: int|
            0 <= k < o.channels.len() ==> channels[
                #[trigger] o.channels[k] as int].spec_history() == o.emitted@
    }

    /// The port is mid-delivery: consumers before `chan` have the last
    /// emitted envelope, the rest still miss it.
    pub open spec fn port_split_at(channels: Seq<Channel<P>>, o: Output<P>, chan: int) -> bool {
        &&& o.emitted@.len() >= 1
        &&& forall|k: int|
            0 <= k < chan ==> channels[#[trigger] o.channels[k] as int].spec_history()
                == o.emitted@
        &&& forall|k: int|
            chan <= k < o.channels.len() ==> channels[
                #[trigger] o.channels[k] as int].spec_history() == o.emitted@.drop_last()
    }

    /// Every fan-out channel of the port misses at most the last emitted
    /// envelope: what holds of a stopped actor.
    pub open spec fn port_weak_at(channels: Seq<Channel<P>>, o: Output<P>) -> bool {
        forall|k: int|
            0 <= k < o.channels.len() ==> {
                let h = channels[#[trigger] o.channels[k] as int].spec_history();
                h == o.emitted@ || h == o.emitted@.drop_last()
            }
    }

    /// Bootstrap envelopes owed to a port so far: none unless flagged.
    pub open spec fn boot_share(a: Actor<P>, p: int) -> int {
        if a.outputs[p].bootstrap {
            a.boot_target()
        } else {
            0
        }
    }

    /// The book-keeping of one actor against the channels: its counters,
    /// its phase indices, its ports' emission records and its inputs'
    /// reception records all agree.
    pub open spec fn acc_one(a: Actor<P>, channels: Seq<Channel<P>>) -> bool {
        let ct = a.collect_target();
        let dt = a.dist_target();
        let bt = a.boot_target();
        &&& a.cycles@ >= 0
        &&& match a.phase {
            Phase::Boot { round, port, chan } => {
                &&& a.buf@.len() == 0
                &&& a.coll_rounds@ == 0
                &&& a.dist_rounds@ == 0
                &&& a.cycles@ == 0
                &&& a.boot_rounds@ == round
                &&& (bt == 0 ==> round == 0 && port == 0 && chan == 0 && a.pending is None)
                &&& (bt > 0 ==> round < bt)
                &&& port <= a.outputs.len()
                &&& forall|l: int|
                    0 <= l < a.inputs.len() ==> channels[
                        #[trigger] a.inputs[l].channel as int].spec_received().len() == 0
                &&& (a.pending is None ==> {
                    &&& chan == 0
                    &&& forall|p: int|
                        0 <= p < a.outputs.len() ==> (#[trigger] a.outputs[p]).emitted@.len()
                            == (if a.outputs[p].bootstrap {
                            Self::swept(p, round as int, port as int, false)
                        } else {
                            0int
                        })
                    &&& forall|p: int|
                        0 <= p < a.outputs.len() ==> Self::port_synced_at(
                            channels,
                            #[trigger] a.outputs[p],
                        )
                })
                &&& (a.pending matches Some(v) ==> {
                    &&& port < a.outputs.len()
                    &&& a.outputs[port as int].bootstrap
                    &&& chan <= a.outputs[port as int].channels.len()
                    &&& a.outputs[port as int].emitted@.len() >= 1
                    &&& v == a.outputs[port as int].emitted@.last()
                    &&& forall|p: int|
                        0 <= p < a.outputs.len() ==> (#[trigger] a.outputs[p]).emitted@.len()
                            == (if a.outputs[p].bootstrap {
                            Self::swept(p, round as int, port as int, true)
                        } else {
                            0int
                        })
                    &&& forall|p: int|
                        0 <= p < a.outputs.len() && p != port ==> Self::port_synced_at(
                            channels,
                            #[trigger] a.outputs[p],
                        )
                    &&& Self::port_split_at(channels, a.outputs[port as int], chan as int)
                })
            },
            Phase::Gather { k, j } => {
                &&& a.pending is None
                &&& a.boot_rounds@ == bt
                &&& a.coll_rounds@ == a.cycles@ * ct + k
                &&& a.dist_rounds@ == a.cycles@ * dt
                &&& (a.inputs.len() == 0 ==> k == 0 && j == 0 && a.buf@.len() == 0)
                &&& (a.inputs.len() > 0 ==> k < ct && j < a.inputs.len() && a.buf@.len() == j)
                &&& forall|p: int|
                    0 <= p < a.outputs.len() ==> (#[trigger] a.outputs[p]).emitted@.len()
                        == Self::boot_share(a, p) + a.dist_rounds@
                &&& forall|p: int|
                    0 <= p < a.outputs.len() ==> Self::port_synced_at(
                        channels,
                        #[trigger] a.outputs[p],
                    )
                &&& forall|l: int|
                    0 <= l < a.inputs.len() ==> channels[
                        #[trigger] a.inputs[l].channel as int].spec_received().len()
                        == a.coll_rounds@ + if l < j {
                        1int
                    } else {
                        0int
                    }
            },
            Phase::Scatter { k, j } => {
                &&& a.pending is None
                &&& a.boot_rounds@ == bt
                &&& a.inputs.len() > 0
                &&& j < a.inputs.len()
                &&& a.buf@.len() == a.inputs.len() - j
                &&& a.coll_rounds@ == a.cycles@ * ct + k
                &&& k < ct
                &&& a.dist_rounds@ == a.cycles@ * dt
                &&& forall|p: int|
                    0 <= p < a.outputs.len() ==> (#[trigger] a.outputs[p]).emitted@.len()
                        == Self::boot_share(a, p) + a.dist_rounds@
                &&& forall|p: int|
                    0 <= p < a.outputs.len() ==> Self::port_synced_at(
                        channels,
                        #[trigger] a.outputs[p],
                    )
                &&& forall|l: int|
                    0 <= l < a.inputs.len() ==> channels[
                        #[trigger] a.inputs[l].channel as int].spec_received().len()
                        == a.coll_rounds@ + 1
            },
            Phase::Distribute { round, port, chan } => {
                &&& a.buf@.len() == 0
                &&& a.boot_rounds@ == bt
                &&& a.outputs.len() > 0
                &&& a.coll_rounds@ == a.cycles@ * ct + ct
                &&& a.dist_rounds@ == a.cycles@ * dt + round
                &&& round < dt
                &&& port <= a.outputs.len()
                &&& forall|l: int|
                    0 <= l < a.inputs.len() ==> channels[
                        #[trigger] a.inputs[l].channel as int].spec_received().len()
                        == a.coll_rounds@
                &&& (a.pending is None ==> {
                    &&& chan == 0
                    &&& forall|p: int|
                        0 <= p < a.outputs.len() ==> (#[trigger] a.outputs[p]).emitted@.len()
                            == Self::boot_share(a, p) + a.cycles@ * dt + Self::swept(
                            p,
                            round as int,
                            port as int,
                            false,
                        )
                    &&& forall|p: int|
                        0 <= p < a.outputs.len() ==> Self::port_synced_at(
                            channels,
                            #[trigger] a.outputs[p],
                        )
                })
                &&& (a.pending matches Some(v) ==> {
                    &&& port < a.outputs.len()
                    &&& chan <= a.outputs[port as int].channels.len()
                    &&& a.outputs[port as int].emitted@.len() >= 1
                    &&& v == a.outputs[port as int].emitted@.last()
                    &&& forall|p: int|
                        0 <= p < a.outputs.len() ==> (#[trigger] a.outputs[p]).emitted@.len()
                            == Self::boot_share(a, p) + a.cycles@ * dt + Self::swept(
                            p,
                            round as int,
                            port as int,
                            true,
                        )
                    &&& forall|p: int|
                        0 <= p < a.outputs.len() && p != port ==> Self::port_synced_at(
                            channels,
                            #[trigger] a.outputs[p],
                        )
                    &&& Self::port_split_at(channels, a.outputs[port as int], chan as int)
                })
            },
            Phase::Done => {
                forall|p: int|
                    0 <= p < a.outputs.len() ==> Self::port_weak_at(
                        channels,
                        #[trigger] a.outputs[p],
                    )
            },
        }
    }

    /// The book-keeping of every actor.
    pub open spec fn acc_all(actors: Seq<Actor<P>>, channels: Seq<Channel<P>>) -> bool {
        forall|i: int|
            0 <= i < actors.len() ==> Self::acc_one(#[trigger] actors[i], channels)
    }

    /// An actor's book-keeping only reads the channels its own ports name:
    /// as long as those hold the same values, the book-keeping carries over.
    pub proof fn lemma_acc_frame(a: Actor<P>, ch1: Seq<Channel<P>>, ch2: Seq<Channel<P>>)
        requires
            Self::acc_one(a, ch1),
            forall|l: int|
                0 <= l < a.inputs.len() ==> {
                    let c = (#[trigger] a.inputs[l]).channel as int;
                    &&& 0 <= c < ch1.len()
                    &&& 0 <= c < ch2.len()
                    &&& ch2[c].spec_received() == ch1[c].spec_received()
                },
            forall|p: int, k: int|
                0 <= p < a.outputs.len() && 0 <= k < a.outputs[p].channels.len() ==> {
                    let c = (#[trigger] a.outputs[p].channels[k]) as int;
                    &&& 0 <= c < ch1.len()
                    &&& 0 <= c < ch2.len()
                    &&& ch2[c].spec_history() == ch1[c].spec_history()
                },
        ensures
            Self::acc_one(a, ch2),
    {
        assert forall|p: int| 0 <= p < a.outputs.len() && Self::port_synced_at(
            ch1,
            #[trigger] a.outputs[p],
        ) implies Self::port_synced_at(ch2, a.outputs[p]) by {
            let o = a.outputs[p];
            assert forall|k: int| 0 <= k < o.channels.len() implies ch2[
                #[trigger] o.channels[k] as int].spec_history() == o.emitted@ by {
                assert(ch2[o.channels[k] as int].spec_history() == ch1[o.channels[k]
                    as int].spec_history());
            }
        }
        if a.pending is Some {
            let port_chan: (int, int) = match a.phase {
                Phase::Boot { round, port, chan } => (port as int, chan as int),
                Phase::Distribute { round, port, chan } => (port as int, chan as int),
                _ => (0, 0),
            };
            let port = port_chan.0;
            let chan = port_chan.1;
            if 0 <= port < a.outputs.len() && Self::port_split_at(
                ch1,
                a.outputs[port],
                chan,
            ) {
                let o = a.outputs[port];
                assert forall|k: int| 0 <= k < chan implies ch2[
                    #[trigger] o.channels[k] as int].spec_history() == o.emitted@ by {
                    if 0 <= k < o.channels.len() {
                        assert(ch2[o.channels[k] as int].spec_history() == ch1[o.channels[k]
                            as int].spec_history());
                    } else {
                        assert(Self::port_split_at(ch1, o, chan));
                    }
                }
                assert forall|k: int| chan <= k < o.channels.len() implies ch2[
                    #[trigger] o.channels[k] as int].spec_history() == o.emitted@.drop_last()
                    by {
                    assert(ch2[o.channels[k] as int].spec_history() == ch1[o.channels[k]
                        as int].spec_history());
                }
                assert(Self::port_split_at(ch2, o, chan));
            }
        }
        assert forall|p: int| 0 <= p < a.outputs.len() && Self::port_weak_at(
            ch1,
            #[trigger] a.outputs[p],
        ) implies Self::port_weak_at(ch2, a.outputs[p]) by {
            let o = a.outputs[p];
            assert forall|k: int| 0 <= k < o.channels.len() implies {
                let h = ch2[#[trigger] o.channels[k] as int].spec_history();
                h == o.emitted@ || h == o.emitted@.drop_last()
            } by {
                assert(ch2[o.channels[k] as int].spec_history() == ch1[o.channels[k]
                    as int].spec_history());
            }
        }
        assert forall|l: int| 0 <= l < a.inputs.len() implies ch2[
            #[trigger] a.inputs[l].channel as int].spec_received() == ch1[a.inputs[l].channel
            as int].spec_received() by {
        }
    }

    /// Book-keeping carries over whenever every channel keeps its history
    /// and its record of received envelopes, whatever happens to its flags.
    pub proof fn lemma_acc_all_frame(
        actors: Seq<Actor<P>>,
        ch1: Seq<Channel<P>>,
        ch2: Seq<Channel<P>>,
    )
        requires
            Self::acc_all(actors, ch1),
            ch2.len() == ch1.len(),
            forall|i: int, l: int|
                0 <= i < actors.len() && 0 <= l < actors[i].inputs.len()
                    ==> (#[trigger] actors[i].inputs[l].channel) < ch1.len(),
            forall|i: int, p: int, k: int|
                0 <= i < actors.len() && 0 <= p < actors[i].outputs.len() && 0 <= k
                    < actors[i].outputs[p].channels.len()
                    ==> (#[trigger] actors[i].outputs[p].channels[k]) < ch1.len(),
            forall|c: int|
                0 <= c < ch1.len() ==> {
                    &&& (#[trigger] ch2[c]).spec_history() == ch1[c].spec_history()
                    &&& ch2[c].spec_received() == ch1[c].spec_received()
                },
        ensures
            Self::acc_all(actors, ch2),
    {
        assert forall|i: int| 0 <= i < actors.len() implies Self::acc_one(
            #[trigger] actors[i],
            ch2,
        ) by {
            assert(Self::acc_one(actors[i], ch1));
            Self::lemma_acc_frame(actors[i], ch1, ch2);
        }
    }

    /// The full scheduler invariant: structure, ownership and accounting.
    pub open spec fn inv(&self) -> bool {
        &&& self.wf()
        &&& Self::coords_core(self.actors@, self.channels@)
        &&& Self::acc_all(self.actors@, self.channels@)
    }

    /// An empty model.
    pub fn new() -> (r: Self)
        ensures
            r.wf(),
            r.inv(),
            r.actors@.len() == 0,
            r.channels@.len() == 0,
            r.tag is None,
            r.log@ =~= Seq::<Event<P>>::empty(),
    {
        Model {
            clients: Vec::new(),
            actors: Vec::new(),
            channels: Vec::new(),
            tag: None,
            log: Ghost(Seq::empty()),
        }
    }

    /// Names the model for diagnostics.
    pub fn name(self, tag: String) -> (r: Self)
        ensures
            r.tag == Some(tag),
            r.clients == self.clients,
            r.actors == self.actors,
            r.channels == self.channels,
            r.log == self.log,
            self.wf() ==> r.wf(),
            self.inv() ==> r.inv(),
    {
        let r = Model { tag: Some(tag), ..self };
        proof {
            if self.wf() {
                assert forall|i: int| 0 <= i < r.actors.len() implies #[trigger] r.wired_actor(
                    i,
                ) by {
                    assert(self.wired_actor(i));
                }
            }
        }
        r
    }

    /// Adds one actor and its client; the index returned names them both.
    /// The actor is wired afterwards, through [`Model::add_output`] and
    /// [`Model::into_input`].
    pub fn add_actor(&mut self, client: C, actor: Actor<P>) -> (i: usize)
        requires
            old(self).inv(),
            actor.unstarted(),
            actor.inputs@.len() == 0,
            actor.outputs@.len() == 0,
        ensures
            final(self).wf(),
            final(self).inv(),
            i == old(self).actors@.len(),
            final(self).actors@ =~= old(self).actors@.push(actor),
            final(self).clients@ =~= old(self).clients@.push(client),
            final(self).channels == old(self).channels,
            final(self).tag == old(self).tag,
            final(self).log == old(self).log,
    {
        let i = self.actors.len();
        self.actors.push(actor);
        self.clients.push(client);
        proof {
            assert forall|x: int| 0 <= x < self.actors.len() implies self.wired_actor(
                x,
            ) by {
                if x < i {
                    assert(old(self).wired_actor(x));
                }
            }
            assert forall|x: int| 0 <= x < self.actors@.len() implies Self::acc_one(
                #[trigger] self.actors@[x],
                self.channels@,
            ) by {
                if x < i {
                    assert(Self::acc_one(old(self).actors@[x], old(self).channels@));
                    assert(self.actors@[x] == old(self).actors@[x]);
                }
            }
        }
        i
    }

    /// Mints the channels of one new output on actor `who` and attaches the
    /// sender side; the returned handle carries the consumer ends.
    pub fn add_output(&mut self, who: usize, builder: ActorOutputBuilder) -> (rx: OutputRx)
        requires
            old(self).inv(),
            who < old(self).actors@.len(),
            old(self).actors@[who as int].unstarted(),
            old(self).channels@.len() + builder.spec_capacity().len() <= usize::MAX,
        ensures
            final(self).wf(),
            final(self).inv(),
            final(self).actors@[who as int].unstarted(),
            final(self).actors@.len() == old(self).actors@.len(),
            final(self).clients == old(self).clients,
            final(self).tag == old(self).tag,
            final(self).log == old(self).log,
            // the new channels, one per consumer, carry the asked capacities
            final(self).channels@.len() == old(self).channels@.len()
                + builder.spec_capacity().len(),
            forall|k: int|
                0 <= k < old(self).channels@.len() ==> final(self).channels@[k] == old(
                    self,
                ).channels@[k],
            forall|k: int|
                0 <= k < builder.spec_capacity().len() ==> {
                    let ch = #[trigger] final(self).channels@[old(self).channels@.len() + k];
                    &&& ch.spec_capacity() == builder.spec_capacity()[k]
                    &&& ch.spec_history() =~= Seq::<Arc<P>>::empty()
                    &&& ch.spec_queue() =~= Seq::<Arc<P>>::empty()
                    &&& !ch.spec_tx_closed()
                    &&& !ch.spec_rx_closed()
                    &&& !ch.spec_rx_attached()
                    &&& ch.spec_consumer() is None
                },
            // the handle lists exactly the new channels, in minting order
            rx.spec_rxs().len() == builder.spec_capacity().len(),
            forall|k: int|
                0 <= k < rx.spec_rxs().len() ==> #[trigger] rx.spec_rxs()[k] == old(
                    self,
                ).channels@.len() + k,
            // the new output stands last on the actor, fanning out to them
            final(self).actors@[who as int].outputs@.len() == old(
                self,
            ).actors@[who as int].outputs@.len() + 1,
            forall|p: int|
                0 <= p < old(self).actors@[who as int].outputs@.len()
                    ==> #[trigger] final(self).actors@[who as int].outputs@[p] == old(
                    self,
                ).actors@[who as int].outputs@[p],
            ({
                let port = final(self).actors@[who as int].outputs@.last();
                &&& port.channels@ =~= rx.spec_rxs()
                &&& port.bootstrap == builder.spec_bootstrap()
                &&& port.emitted@ =~= Seq::<Arc<P>>::empty()
            }),
            final(self).actors@[who as int].inputs == old(self).actors@[who as int].inputs,
            final(self).actors@[who as int].ni == old(self).actors@[who as int].ni,
            final(self).actors@[who as int].no == old(self).actors@[who as int].no,
            final(self).actors@[who as int].phase == old(self).actors@[who as int].phase,
            final(self).actors@[who as int].pending == old(self).actors@[who as int].pending,
            final(self).actors@[who as int].buf == old(self).actors@[who as int].buf,
            final(self).actors@[who as int].outcome == old(self).actors@[who as int].outcome,
            final(self).actors@[who as int].tag == old(self).actors@[who as int].tag,
            forall|x: int|
                0 <= x < final(self).actors@.len() && x != who ==> final(self).actors@[x]
                    == old(self).actors@[x],
    {
        let n: usize = builder.capacity.len();
        let base: usize = self.channels.len();
        let ghost p_new: int = self.actors@[who as int].outputs@.len() as int;
        let mut ids: Vec<usize> = Vec::new();
        let mut k: usize = 0;
        while k < n
            invariant
                k <= n,
                ids@.len() == k,
                self.channels@.len() == base + k,
                base + n <= usize::MAX,
                builder.spec_capacity().len() == n,
                forall|j: int| 0 <= j < base ==> self.channels@[j] == old(self).channels@[j],
                forall|j: int| 0 <= j < k ==> ids@[j] == base + j,
                forall|j: int|
                    0 <= j < k ==> {
                        let ch = #[trigger] self.channels@[base + j];
                        &&& ch.spec_capacity() == builder.spec_capacity()[j]
                        &&& ch.spec_history() =~= Seq::<Arc<P>>::empty()
                        &&& ch.spec_queue() =~= Seq::<Arc<P>>::empty()
                        &&& !ch.spec_tx_closed()
                        &&& !ch.spec_rx_closed()
                        &&& !ch.spec_rx_attached()
                        &&& ch.spec_consumer() is None
                        &&& ch.spec_producer() == Some((who as int, p_new, j))
                        &&& ch.wf()
                    },
                self.clients == old(self).clients,
                self.actors == old(self).actors,
                self.tag == old(self).tag,
                self.log == old(self).log,
            decreases n - k,
        {
            proof {
                vstd::std_specs::vec::axiom_spec_len(&self.channels);
            }
            let mut ch: Channel<P> = Channel::new(builder.capacity[k]);
            ch.record_producer(Ghost((who as int, p_new, k as int)));
            self.channels.push(ch);
            ids.push(base + k);
            k = k + 1;
        }
        let port: Output<P> = Output {
            channels: ids,
            bootstrap: builder.bootstrap,
            emitted: Ghost(Seq::empty()),
        };
        let rxs: Vec<usize> = port.channels.clone();
        let a = &mut self.actors[who];
        a.outputs.push(port);
        proof {
            assert forall|x: int| 0 <= x < self.actors.len() implies self.wired_actor(
                x,
            ) by {
                assert(old(self).wired_actor(x));
                if x != who {
                    assert(self.actors@[x] == old(self).actors@[x]);
                }
            }
            assert forall|c: int| 0 <= c < self.channels.len() implies (
            #[trigger] self.channels@[c]).wf() by {
                if c < base {
                    assert(self.channels@[c] == old(self).channels@[c]);
                } else {
                    let j = c - base;
                    assert(self.channels@[base + j].wf());
                }
            }
            assert forall|i2: int, p2: int, k2: int|
                0 <= i2 < self.actors@.len() && 0 <= p2 < self.actors@[i2].outputs.len()
                    && 0 <= k2 < self.actors@[i2].outputs[p2].channels.len()
                implies self.channels@[
                    #[trigger] self.actors@[i2].outputs[p2].channels[k2] as int
                ].spec_producer() == Some((i2, p2, k2)) by {
                if i2 == who as int && p2 == p_new {
                    assert(self.actors@[i2].outputs[p2].channels@ =~= ids@);
                    assert(self.actors@[i2].outputs[p2].channels[k2] == base + k2);
                } else {
                    assert(self.actors@[i2].outputs[p2] == old(self).actors@[i2].outputs[p2]);
                    assert(old(self).wired_actor(i2));
                    let c = old(self).actors@[i2].outputs[p2].channels[k2] as int;
                    assert(self.channels@[c] == old(self).channels@[c]);
                }
            }
            assert forall|i2: int, l2: int|
                0 <= i2 < self.actors@.len() && 0 <= l2 < self.actors@[i2].inputs.len()
                implies self.channels@[
                    #[trigger] self.actors@[i2].inputs[l2].channel as int
                ].spec_consumer() == Some((i2, l2)) by {
                assert(self.actors@[i2].inputs == old(self).actors@[i2].inputs);
                assert(old(self).wired_actor(i2));
                let c = old(self).actors@[i2].inputs[l2].channel as int;
                assert(self.channels@[c] == old(self).channels@[c]);
            }
            assert forall|x: int| 0 <= x < self.actors@.len() implies Self::acc_one(
                #[trigger] self.actors@[x],
                self.channels@,
            ) by {
                assert(old(self).wired_actor(x));
                if x != who as int {
                    assert(self.actors@[x] == old(self).actors@[x]);
                    Self::lemma_acc_frame(self.actors@[x], old(self).channels@, self.channels@);
                } else {
                    let a = self.actors@[x];
                    let oa = old(self).actors@[x];
                    assert(a.phase == (Phase::Boot { round: 0, port: 0, chan: 0 }));
                    assert forall|l: int| 0 <= l < a.inputs.len() implies self.channels@[
                        #[trigger] a.inputs[l].channel as int].spec_received().len() == 0 by {
                        assert(a.inputs[l] == oa.inputs[l]);
                        let c = a.inputs[l].channel as int;
                        assert(self.channels@[c] == old(self).channels@[c]);
                        assert(Self::acc_one(oa, old(self).channels@));
                    }
                    assert forall|p: int| 0 <= p < a.outputs.len() implies (
                    #[trigger] a.outputs[p]).emitted@.len() == (if a.outputs[p].bootstrap {
                        Self::swept(p, 0, 0, false)
                    } else {
                        0int
                    }) by {
                        if p < p_new {
                            assert(a.outputs[p] == oa.outputs[p]);
                            assert(Self::acc_one(oa, old(self).channels@));
                        }
                    }
                    assert forall|p: int| 0 <= p < a.outputs.len() implies Self::port_synced_at(
                        self.channels@,
                        #[trigger] a.outputs[p],
                    ) by {
                        if p < p_new {
                            assert(a.outputs[p] == oa.outputs[p]);
                            assert(Self::acc_one(oa, old(self).channels@));
                            assert(Self::port_synced_at(old(self).channels@, oa.outputs[p]));
                            let o = a.outputs[p];
                            assert forall|k2: int| 0 <= k2 < o.channels.len() implies
                                self.channels@[#[trigger] o.channels[k2] as int].spec_history()
                                == o.emitted@ by {
                                let c = o.channels[k2] as int;
                                assert(self.channels@[c] == old(self).channels@[c]);
                            }
                        } else {
                            let o = a.outputs[p];
                            assert forall|k2: int| 0 <= k2 < o.channels.len() implies
                                self.channels@[#[trigger] o.channels[k2] as int].spec_history()
                                == o.emitted@ by {
                                assert(o.channels[k2] == base + k2);
                            }
                        }
                    }
                }
            }
        }
        OutputRx { rxs }
    }

    /// Takes the most recently minted consumer end off the handle and
    /// attaches it as the next input of actor `who`; the remaining handle
    /// is returned so several consumers can be chained. An exhausted
    /// handle passes through unchanged.
    pub fn into_input(&mut self, rx: OutputRx, who: usize) -> (rest: OutputRx)
        requires
            old(self).inv(),
            who < old(self).actors@.len(),
            old(self).actors@[who as int].unstarted(),
            forall|k: int|
                0 <= k < rx.spec_rxs().len() ==> #[trigger] rx.spec_rxs()[k] < old(
                    self,
                ).channels@.len(),
            rx.spec_rxs().len() > 0 ==> {
                let c = rx.spec_rxs().last() as int;
                &&& !old(self).channels@[c].spec_rx_attached()
                &&& old(self).channels@[c].spec_consumer() is None
                &&& old(self).channels@[c].spec_history().len() == 0
            },
        ensures
            final(self).wf(),
            final(self).inv(),
            final(self).actors@[who as int].unstarted(),
            rx.spec_rxs().len() == 0 ==> *final(self) == *old(self) && rest.spec_rxs()
                =~= rx.spec_rxs(),
            rx.spec_rxs().len() > 0 ==> {
                let c = rx.spec_rxs().last() as int;
                &&& rest.spec_rxs() =~= rx.spec_rxs().drop_last()
                &&& final(self).actors@[who as int].inputs@ =~= old(
                    self,
                ).actors@[who as int].inputs@.push(Input { channel: c as usize })
                &&& final(self).channels@[c].spec_rx_attached()
                &&& final(self).channels@[c].spec_history() =~= old(
                    self,
                ).channels@[c].spec_history()
                &&& final(self).channels@[c].spec_queue() =~= old(
                    self,
                ).channels@[c].spec_queue()
                &&& final(self).channels@[c].spec_capacity() == old(
                    self,
                ).channels@[c].spec_capacity()
                &&& !final(self).channels@[c].spec_tx_closed() == !old(
                    self,
                ).channels@[c].spec_tx_closed()
                &&& final(self).channels@[c].spec_rx_closed() == old(
                    self,
                ).channels@[c].spec_rx_closed()
                &&& forall|x: int|
                    0 <= x < final(self).channels@.len() && x != c
                        ==> final(self).channels@[x] == old(self).channels@[x]
                &&& forall|x: int|
                    0 <= x < final(self).actors@.len() && x != who
                        ==> final(self).actors@[x] == old(self).actors@[x]
                &&& final(self).actors@[who as int].outputs == old(
                    self,
                ).actors@[who as int].outputs
                &&& final(self).actors@[who as int].ni == old(self).actors@[who as int].ni
                &&& final(self).actors@[who as int].no == old(self).actors@[who as int].no
                &&& final(self).actors@[who as int].phase == old(
                    self,
                ).actors@[who as int].phase
                &&& final(self).actors@[who as int].outcome == old(
                    self,
                ).actors@[who as int].outcome
                &&& final(self).channels@.len() == old(self).channels@.len()
            },
            final(self).clients == old(self).clients,
            final(self).tag == old(self).tag,
            final(self).log == old(self).log,
    {
        let mut rx = rx;
        if rx.rxs.len() == 0 {
            return rx;
        }
        let c: usize = rx.rxs.pop().unwrap();
        let ghost l: int = self.actors[who as int].inputs@.len() as int;
        self.channels[c].attach_rx(Ghost((who as int, l)));
        let a = &mut self.actors[who];
        a.inputs.push(Input { channel: c });
        proof {
            assert forall|x: int| 0 <= x < self.actors.len() implies self.wired_actor(
                x,
            ) by {
                assert(old(self).wired_actor(x));
                if x != who {
                    assert(self.actors@[x] == old(self).actors@[x]);
                }
            }
            assert forall|x: int| 0 <= x < self.channels.len() implies (
            #[trigger] self.channels@[x]).wf() by {
                if x != c {
                    assert(self.channels@[x] == old(self).channels@[x]);
                }
            }
            assert forall|i2: int, p2: int, k2: int|
                0 <= i2 < self.actors@.len() && 0 <= p2 < self.actors@[i2].outputs.len()
                    && 0 <= k2 < self.actors@[i2].outputs[p2].channels.len()
                implies self.channels@[
                    #[trigger] self.actors@[i2].outputs[p2].channels[k2] as int
                ].spec_producer() == Some((i2, p2, k2)) by {
                assert(self.actors@[i2].outputs == old(self).actors@[i2].outputs);
                assert(old(self).wired_actor(i2));
                let c2 = old(self).actors@[i2].outputs[p2].channels[k2] as int;
                if c2 != c as int {
                    assert(self.channels@[c2] == old(self).channels@[c2]);
                }
            }
            assert forall|i2: int, l2: int|
                0 <= i2 < self.actors@.len() && 0 <= l2 < self.actors@[i2].inputs.len()
                implies self.channels@[
                    #[trigger] self.actors@[i2].inputs[l2].channel as int
                ].spec_consumer() == Some((i2, l2)) by {
                if i2 == who as int && l2 == l {
                    assert(self.actors@[i2].inputs[l2].channel == c);
                } else {
                    assert(self.actors@[i2].inputs[l2] == old(self).actors@[i2].inputs[l2]);
                    assert(old(self).wired_actor(i2));
                    let c2 = old(self).actors@[i2].inputs[l2].channel as int;
                    assert(old(self).channels@[c2].spec_consumer() == Some((i2, l2)));
                    assert(c2 != c as int);
                    assert(self.channels@[c2] == old(self).channels@[c2]);
                }
            }
            assert forall|x: int| 0 <= x < self.actors@.len() implies Self::acc_one(
                #[trigger] self.actors@[x],
                self.channels@,
            ) by {
                assert(old(self).wired_actor(x));
                assert(self.channels@[c as int].spec_history() == old(self).channels@[
                    c as int].spec_history());
                assert(self.channels@[c as int].spec_received() == old(self).channels@[
                    c as int].spec_received());
                if x != who as int {
                    assert(self.actors@[x] == old(self).actors@[x]);
                    assert forall|l2: int| 0 <= l2 < self.actors@[x].inputs.len() implies {
                        let c2 = (#[trigger] self.actors@[x].inputs[l2]).channel as int;
                        self.channels@[c2].spec_received() == old(self).channels@[c2]
                            .spec_received()
                    } by {
                        let c2 = self.actors@[x].inputs[l2].channel as int;
                        if c2 != c as int {
                            assert(self.channels@[c2] == old(self).channels@[c2]);
                        }
                    }
                    assert forall|p2: int, k2: int|
                        0 <= p2 < self.actors@[x].outputs.len() && 0 <= k2
                            < self.actors@[x].outputs[p2].channels.len()
                    implies {
                        let c2 = (#[trigger] self.actors@[x].outputs[p2].channels[k2]) as int;
                        self.channels@[c2].spec_history() == old(self).channels@[c2]
                            .spec_history()
                    } by {
                        let c2 = self.actors@[x].outputs[p2].channels[k2] as int;
                        if c2 != c as int {
                            assert(self.channels@[c2] == old(self).channels@[c2]);
                        }
                    }
                    Self::lemma_acc_frame(self.actors@[x], old(self).channels@, self.channels@);
                } else {
                    let a = self.actors@[x];
                    let oa = old(self).actors@[x];
                    assert(a.phase == (Phase::Boot { round: 0, port: 0, chan: 0 }));
                    assert(Self::acc_one(oa, old(self).channels@));
                    assert forall|l2: int| 0 <= l2 < a.inputs.len() implies self.channels@[
                        #[trigger] a.inputs[l2].channel as int].spec_received().len() == 0 by {
                        if l2 < l {
                            assert(a.inputs[l2] == oa.inputs[l2]);
                            let c2 = a.inputs[l2].channel as int;
                            if c2 != c as int {
                                assert(self.channels@[c2] == old(self).channels@[c2]);
                            }
                        } else {
                            assert(a.inputs[l2].channel == c);
                            assert(old(self).channels@[c as int].spec_history().len() == 0);
                        }
                    }
                    assert forall|p2: int| 0 <= p2 < a.outputs.len() implies
                        Self::port_synced_at(self.channels@, #[trigger] a.outputs[p2]) by {
                        assert(a.outputs[p2] == oa.outputs[p2]);
                        assert(Self::port_synced_at(old(self).channels@, oa.outputs[p2]));
                        let o = a.outputs[p2];
                        assert forall|k2: int| 0 <= k2 < o.channels.len() implies
                            self.channels@[#[trigger] o.channels[k2] as int].spec_history()
                            == o.emitted@ by {
                            let c2 = o.channels[k2] as int;
                            if c2 != c as int {
                                assert(self.channels@[c2] == old(self).channels@[c2]);
                            }
                        }
                    }
                }
            }
        }
        rx
    }

    /// The per-cycle round targets of actor `i`: collect rounds,
    /// distribute rounds, bootstrap rounds.
    pub fn targets(&self, i: usize) -> (r: (usize, usize, usize))
        requires
            self.inv(),
            self.rates_ok_all(),
            i < self.actors@.len(),
        ensures
            r.0 == self.actors@[i as int].collect_target(),
            r.1 == self.actors@[i as int].dist_target(),
            r.2 == self.actors@[i as int].boot_target(),
    {
        let a = &self.actors[i];
        proof {
            assert(a.rates_ok());
        }
        let ct: usize = if a.inputs.len() == 0 {
            0
        } else if a.outputs.len() == 0 {
            1
        } else if a.no >= a.ni {
            a.no / a.ni
        } else {
            1
        };
        let dt: usize = if a.outputs.len() == 0 {
            0
        } else if a.inputs.len() == 0 {
            1
        } else if a.ni > a.no {
            a.ni / a.no
        } else {
            1
        };
        let mut flagged: bool = false;
        let mut p: usize = 0;
        let n: usize = a.outputs.len();
        while p < n
            invariant
                p <= n,
                n == a.outputs.len(),
                flagged == exists|q: int| 0 <= q < p && a.outputs[q].bootstrap,
            decreases n - p,
        {
            if a.outputs[p].bootstrap {
                flagged = true;
                proof {
                    assert(a.outputs[p as int].bootstrap);
                }
            }
            p = p + 1;
        }
        proof {
            assert(flagged == a.has_boot_port());
        }
        let bt: usize = if flagged {
            dt
        } else {
            0
        };
        (ct, dt, bt)
    }

    /// The two channel ends keep their identity, their bookkeeping and
    /// their flags: only the queue and the history may differ.
    pub open spec fn chan_same_flags(c1: Channel<P>, c2: Channel<P>) -> bool {
        &&& c2.spec_capacity() == c1.spec_capacity()
        &&& c2.spec_tx_closed() == c1.spec_tx_closed()
        &&& c2.spec_rx_closed() == c1.spec_rx_closed()
        &&& c2.spec_rx_attached() == c1.spec_rx_attached()
        &&& c2.spec_producer() == c1.spec_producer()
        &&& c2.spec_consumer() == c1.spec_consumer()
    }

    /// Nothing outside actor `i` and its client moved: every other actor
    /// and client is exactly as before, and so are the model's name and
    /// sizes.
    pub open spec fn frame_others(m1: Self, m2: Self, i: int) -> bool {
        &&& m2.actors@.len() == m1.actors@.len()
        &&& m2.clients@.len() == m1.clients@.len()
        &&& m2.channels@.len() == m1.channels@.len()
        &&& m2.tag == m1.tag
        &&& forall|x: int|
            0 <= x < m1.actors@.len() && x != i ==> m2.actors@[x] == m1.actors@[x]
        &&& forall|x: int|
            0 <= x < m1.clients@.len() && x != i ==> m2.clients@[x] == m1.clients@[x]
    }

    /// The actor kept its ports, rates, name and outcome.
    pub open spec fn same_shape(a1: Actor<P>, a2: Actor<P>) -> bool {
        &&& a2.inputs == a1.inputs
        &&& a2.outputs == a1.outputs
        &&& a2.ni == a1.ni
        &&& a2.no == a1.no
        &&& a2.tag == a1.tag
        &&& a2.outcome == a1.outcome
    }

    /// The actor kept every loop counter.
    pub open spec fn same_counters(a1: Actor<P>, a2: Actor<P>) -> bool {
        &&& a2.coll_rounds == a1.coll_rounds
        &&& a2.dist_rounds == a1.dist_rounds
        &&& a2.boot_rounds == a1.boot_rounds
        &&& a2.cycles == a1.cycles
    }

    /// Whether channel `c` feeds one of the actor's inputs.
    pub open spec fn names_input(a: Actor<P>, c: int) -> bool {
        exists|l: int| 0 <= l < a.inputs.len() && a.inputs[l].channel == c
    }

    /// Whether channel `c` carries one of the actor's outputs.
    pub open spec fn names_output(a: Actor<P>, c: int) -> bool {
        exists|p: int, k: int|
            0 <= p < a.outputs.len() && 0 <= k < a.outputs[p].channels.len()
                && a.outputs[p].channels[k] == c
    }

    /// Actor `i` ended with `outcome`: its phase is `Done`, its ports,
    /// rates, buffers and counters are untouched, the consumer end of
    /// each of its input channels and the sender end of each of its
    /// output channels are closed — so every neighbour observes the
    /// shutdown — and no channel loses an envelope, a record or a flag it
    /// had.
    pub open spec fn halted(m1: Self, m2: Self, i: int, outcome: Option<ActorError>) -> bool {
        let a1 = m1.actors@[i];
        let a2 = m2.actors@[i];
        &&& Self::frame_others(m1, m2, i)
        &&& a2.phase is Done
        &&& a2.outcome == outcome
        &&& a2.inputs == a1.inputs
        &&& a2.outputs == a1.outputs
        &&& a2.ni == a1.ni
        &&& a2.no == a1.no
        &&& a2.tag == a1.tag
        &&& a2.pending == a1.pending
        &&& a2.buf == a1.buf
        &&& Self::same_counters(a1, a2)
        &&& forall|c: int|
            0 <= c < m1.channels@.len() ==> {
                &&& (#[trigger] m2.channels@[c]).spec_history() == m1.channels@[
                    c].spec_history()
                &&& m2.channels@[c].spec_queue() == m1.channels@[c].spec_queue()
                &&& m2.channels@[c].spec_capacity() == m1.channels@[c].spec_capacity()
                &&& m2.channels@[c].spec_rx_attached() == m1.channels@[c].spec_rx_attached()
                &&& m2.channels@[c].spec_producer() == m1.channels@[c].spec_producer()
                &&& m2.channels@[c].spec_consumer() == m1.channels@[c].spec_consumer()
                &&& m2.channels@[c].spec_rx_closed() == (m1.channels@[c].spec_rx_closed()
                    || Self::names_input(a1, c))
                &&& m2.channels@[c].spec_tx_closed() == (m1.channels@[c].spec_tx_closed()
                    || Self::names_output(a1, c))
            }
    }

    /// One gather micro-step of actor `i`: drain the head of the input
    /// the actor waits on into its buffer, or end on a dead input — a
    /// sink ends orderly, anyone upstream reports the lost sender. An
    /// actor with no ports at all ends at once, orderly; an initiator
    /// ticks its client and turns to distribution. Receiving fails
    /// exactly when every sender is gone and the queue is drained; an
    /// empty queue that may still be fed is no step at all.
    pub open spec fn gather_step(m1: Self, m2: Self, i: int) -> bool {
        let a1 = m1.actors@[i];
        match a1.phase {
            Phase::Gather { k, j } => {
                if a1.inputs.len() == 0 && a1.outputs.len() == 0 {
                    &&& Self::halted(m1, m2, i, None)
                    &&& m2.clients == m1.clients
                    &&& m2.log == m1.log
                } else if a1.inputs.len() == 0 {
                    &&& Self::frame_others(m1, m2, i)
                    &&& m2.channels == m1.channels
                    &&& m2.log@ == m1.log@.push(Event::Update { actor: i })
                    &&& ({
                        let a2 = m2.actors@[i];
                        &&& Self::same_shape(a1, a2)
                        &&& Self::same_counters(a1, a2)
                        &&& a2.pending == a1.pending
                        &&& a2.buf == a1.buf
                        &&& a2.phase == (Phase::Distribute { round: 0, port: 0, chan: 0 })
                    })
                } else {
                    let c = a1.inputs[j as int].channel as int;
                    let c1 = m1.channels@[c];
                    if c1.spec_queue().len() > 0 {
                        let v = c1.spec_queue()[0];
                        &&& Self::frame_others(m1, m2, i)
                        &&& m2.clients == m1.clients
                        &&& m2.log == m1.log
                        &&& forall|x: int|
                            0 <= x < m1.channels@.len() && x != c ==> m2.channels@[x]
                                == m1.channels@[x]
                        &&& ({
                            let c2 = m2.channels@[c];
                            &&& c2.spec_history() == c1.spec_history()
                            &&& c2.spec_queue() == c1.spec_queue().skip(1)
                            &&& Self::chan_same_flags(c1, c2)
                        })
                        &&& ({
                            let a2 = m2.actors@[i];
                            &&& Self::same_shape(a1, a2)
                            &&& Self::same_counters(a1, a2)
                            &&& a2.pending == a1.pending
                            &&& a2.buf@ == a1.buf@.push(v)
                            &&& a2.phase == (if j + 1 == a1.inputs.len() {
                                Phase::Scatter { k, j: 0 }
                            } else {
                                Phase::Gather { k, j: (j + 1) as usize }
                            })
                        })
                    } else if c1.spec_tx_closed() {
                        &&& m2.clients == m1.clients
                        &&& m2.log == m1.log
                        &&& if a1.outputs.len() == 0 {
                            Self::halted(m1, m2, i, None)
                        } else {
                            Self::halted(m1, m2, i, Some(ActorError::DropRecv))
                        }
                    } else {
                        false
                    }
                }
            },
            _ => false,
        }
    }

    /// One scatter micro-step of actor `i`: the oldest buffered envelope
    /// goes to the client as input `j`, in input-list order; after the
    /// last input of the round the client ticks once, and the finished
    /// round decides whether to gather again or to distribute — the
    /// four-way dispatch between initiator, terminator, decimation and
    /// upsampling lives in the round targets.
    pub open spec fn scatter_step(m1: Self, m2: Self, i: int) -> bool {
        let a1 = m1.actors@[i];
        match a1.phase {
            Phase::Scatter { k, j } => {
                let v = a1.buf@[0];
                &&& a1.buf@.len() > 0
                &&& Self::frame_others(m1, m2, i)
                &&& m2.channels == m1.channels
                &&& ({
                    let a2 = m2.actors@[i];
                    &&& Self::same_shape(a1, a2)
                    &&& a2.pending == a1.pending
                    &&& a2.buf@ == a1.buf@.skip(1)
                    &&& a2.dist_rounds == a1.dist_rounds
                    &&& a2.boot_rounds == a1.boot_rounds
                    &&& if j + 1 == a1.inputs.len() {
                        &&& m2.log@ == m1.log@.push(
                            Event::Read { actor: i, input: j as int, data: v },
                        ).push(Event::Update { actor: i })
                        &&& a2.coll_rounds@ == a1.coll_rounds@ + 1
                        &&& if k + 1 == a1.collect_target() {
                            if a1.outputs.len() == 0 {
                                &&& a2.phase == (Phase::Gather { k: 0, j: 0 })
                                &&& a2.cycles@ == a1.cycles@ + 1
                            } else {
                                &&& a2.phase == (Phase::Distribute {
                                    round: 0,
                                    port: 0,
                                    chan: 0,
                                })
                                &&& a2.cycles == a1.cycles
                            }
                        } else {
                            &&& a2.phase == (Phase::Gather { k: (k + 1) as usize, j: 0 })
                            &&& a2.cycles == a1.cycles
                        }
                    } else {
                        &&& m2.log@ == m1.log@.push(
                            Event::Read { actor: i, input: j as int, data: v },
                        )
                        &&& a2.phase == (Phase::Scatter { k, j: (j + 1) as usize })
                        &&& a2.coll_rounds == a1.coll_rounds
                        &&& a2.cycles == a1.cycles
                    }
                })
            },
            _ => false,
        }
    }

    /// One distribute micro-step of actor `i`: ask the client for the
    /// next output and record the answer — an envelope becomes pending
    /// and is noted on the port's emission record, `None` ends the actor
    /// with the no-data outcome and closes its channels; deliver the
    /// pending envelope to the next consumer in fan-out order; advance
    /// past a completed port or round; or, on a lost consumer, end with
    /// the disconnect naming the port. A full channel whose consumer
    /// lives is no step at all.
    pub open spec fn dist_step(m1: Self, m2: Self, i: int) -> bool {
        let a1 = m1.actors@[i];
        match a1.phase {
            Phase::Distribute { round, port, chan } => {
                if port == a1.outputs.len() {
                    &&& Self::frame_others(m1, m2, i)
                    &&& m2.clients == m1.clients
                    &&& m2.channels == m1.channels
                    &&& m2.log == m1.log
                    &&& ({
                        let a2 = m2.actors@[i];
                        &&& Self::same_shape(a1, a2)
                        &&& a2.pending == a1.pending
                        &&& a2.buf == a1.buf
                        &&& a2.coll_rounds == a1.coll_rounds
                        &&& a2.boot_rounds == a1.boot_rounds
                        &&& a2.dist_rounds@ == a1.dist_rounds@ + 1
                        &&& if round + 1 == a1.dist_target() {
                            &&& a2.phase == (Phase::Gather { k: 0, j: 0 })
                            &&& a2.cycles@ == a1.cycles@ + 1
                        } else {
                            &&& a2.phase == (Phase::Distribute {
                                round: (round + 1) as usize,
                                port: 0,
                                chan: 0,
                            })
                            &&& a2.cycles == a1.cycles
                        }
                    })
                } else if a1.pending is None {
                    let a2 = m2.actors@[i];
                    if a2.phase is Done {
                        &&& Self::halted(m1, m2, i, Some(ActorError::NoData))
                        &&& m2.log@ == m1.log@.push(
                            Event::Write { actor: i, port: port as int, answer: None },
                        )
                    } else {
                        let v = a2.pending.unwrap();
                        &&& a2.pending is Some
                        &&& m2.log@ == m1.log@.push(
                            Event::Write { actor: i, port: port as int, answer: Some(v) },
                        )
                        &&& Self::frame_others(m1, m2, i)
                        &&& m2.channels == m1.channels
                        &&& a2.inputs == a1.inputs
                        &&& a2.ni == a1.ni
                        &&& a2.no == a1.no
                        &&& a2.tag == a1.tag
                        &&& a2.outcome == a1.outcome
                        &&& a2.buf == a1.buf
                        &&& Self::same_counters(a1, a2)
                        &&& a2.outputs@.len() == a1.outputs@.len()
                        &&& forall|p2: int|
                            0 <= p2 < a1.outputs@.len() && p2 != port ==> a2.outputs@[p2]
                                == a1.outputs@[p2]
                        &&& a2.outputs@[port as int].channels == a1.outputs@[
                            port as int].channels
                        &&& a2.outputs@[port as int].bootstrap == a1.outputs@[
                            port as int].bootstrap
                        &&& a2.outputs@[port as int].emitted@ == a1.outputs@[
                            port as int].emitted@.push(v)
                        &&& a2.phase == (Phase::Distribute { round, port, chan: 0 })
                    }
                } else if chan == a1.outputs[port as int].channels.len() {
                    &&& Self::frame_others(m1, m2, i)
                    &&& m2.clients == m1.clients
                    &&& m2.channels == m1.channels
                    &&& m2.log == m1.log
                    &&& ({
                        let a2 = m2.actors@[i];
                        &&& Self::same_shape(a1, a2)
                        &&& a2.buf == a1.buf
                        &&& Self::same_counters(a1, a2)
                        &&& a2.pending is None
                        &&& a2.phase == (Phase::Distribute {
                            round,
                            port: (port + 1) as usize,
                            chan: 0,
                        })
                    })
                } else {
                    let c = a1.outputs[port as int].channels[chan as int] as int;
                    let c1 = m1.channels@[c];
                    if c1.spec_rx_closed() || !c1.spec_rx_attached() {
                        &&& m2.clients == m1.clients
                        &&& m2.log == m1.log
                        &&& Self::halted(m1, m2, i, Some(ActorError::Disconnected(port)))
                    } else if c1.spec_queue().len() >= c1.spec_capacity() {
                        false
                    } else {
                        &&& Self::frame_others(m1, m2, i)
                        &&& m2.clients == m1.clients
                        &&& m2.log == m1.log
                        &&& forall|x: int|
                            0 <= x < m1.channels@.len() && x != c ==> m2.channels@[x]
                                == m1.channels@[x]
                        &&& ({
                            let c2 = m2.channels@[c];
                            &&& c2.spec_history() == c1.spec_history().push(
                                a1.pending.unwrap(),
                            )
                            &&& c2.spec_queue() == c1.spec_queue().push(a1.pending.unwrap())
                            &&& Self::chan_same_flags(c1, c2)
                        })
                        &&& ({
                            let a2 = m2.actors@[i];
                            &&& Self::same_shape(a1, a2)
                            &&& a2.buf == a1.buf
                            &&& Self::same_counters(a1, a2)
                            &&& a2.pending == a1.pending
                            &&& a2.phase == (Phase::Distribute {
                                round,
                                port,
                                chan: (chan + 1) as usize,
                            })
                        })
                    }
                }
            },
            _ => false,
        }
    }

    /// One bootstrap micro-step of actor `i`: with no flagged output the
    /// prologue is over at once; otherwise each prologue round writes and
    /// delivers every flagged output and skips the rest, exactly as a
    /// distribute round does, and after the last round the normal loop
    /// begins with the first collect round.
    pub open spec fn boot_step(m1: Self, m2: Self, i: int) -> bool {
        let a1 = m1.actors@[i];
        match a1.phase {
            Phase::Boot { round, port, chan } => {
                if a1.boot_target() == 0 {
                    &&& Self::frame_others(m1, m2, i)
                    &&& m2.clients == m1.clients
                    &&& m2.channels == m1.channels
                    &&& m2.log == m1.log
                    &&& ({
                        let a2 = m2.actors@[i];
                        &&& Self::same_shape(a1, a2)
                        &&& Self::same_counters(a1, a2)
                        &&& a2.pending == a1.pending
                        &&& a2.buf == a1.buf
                        &&& a2.phase == (Phase::Gather { k: 0, j: 0 })
                    })
                } else if port == a1.outputs.len() {
                    &&& Self::frame_others(m1, m2, i)
                    &&& m2.clients == m1.clients
                    &&& m2.channels == m1.channels
                    &&& m2.log == m1.log
                    &&& ({
                        let a2 = m2.actors@[i];
                        &&& Self::same_shape(a1, a2)
                        &&& a2.pending == a1.pending
                        &&& a2.buf == a1.buf
                        &&& a2.coll_rounds == a1.coll_rounds
                        &&& a2.dist_rounds == a1.dist_rounds
                        &&& a2.cycles == a1.cycles
                        &&& a2.boot_rounds@ == a1.boot_rounds@ + 1
                        &&& a2.phase == (if round + 1 == a1.boot_target() {
                            Phase::Gather { k: 0, j: 0 }
                        } else {
                            Phase::Boot { round: (round + 1) as usize, port: 0, chan: 0 }
                        })
                    })
                } else if a1.pending is None {
                    if !a1.outputs[port as int].bootstrap {
                        &&& Self::frame_others(m1, m2, i)
                        &&& m2.clients == m1.clients
                        &&& m2.channels == m1.channels
                        &&& m2.log == m1.log
                        &&& ({
                            let a2 = m2.actors@[i];
                            &&& Self::same_shape(a1, a2)
                            &&& Self::same_counters(a1, a2)
                            &&& a2.pending == a1.pending
                            &&& a2.buf == a1.buf
                            &&& a2.phase == (Phase::Boot {
                                round,
                                port: (port + 1) as usize,
                                chan: 0,
                            })
                        })
                    } else {
                        let a2 = m2.actors@[i];
                        if a2.phase is Done {
                            &&& Self::halted(m1, m2, i, Some(ActorError::NoData))
                            &&& m2.log@ == m1.log@.push(
                                Event::Write { actor: i, port: port as int, answer: None },
                            )
                        } else {
                            let v = a2.pending.unwrap();
                            &&& a2.pending is Some
                            &&& m2.log@ == m1.log@.push(
                                Event::Write { actor: i, port: port as int, answer: Some(v) },
                            )
                            &&& Self::frame_others(m1, m2, i)
                            &&& m2.channels == m1.channels
                            &&& a2.inputs == a1.inputs
                            &&& a2.ni == a1.ni
                            &&& a2.no == a1.no
                            &&& a2.tag == a1.tag
                            &&& a2.outcome == a1.outcome
                            &&& a2.buf == a1.buf
                            &&& Self::same_counters(a1, a2)
                            &&& a2.outputs@.len() == a1.outputs@.len()
                            &&& forall|p2: int|
                                0 <= p2 < a1.outputs@.len() && p2 != port ==> a2.outputs@[
                                    p2] == a1.outputs@[p2]
                            &&& a2.outputs@[port as int].channels == a1.outputs@[
                                port as int].channels
                            &&& a2.outputs@[port as int].bootstrap == a1.outputs@[
                                port as int].bootstrap
                            &&& a2.outputs@[port as int].emitted@ == a1.outputs@[
                                port as int].emitted@.push(v)
                            &&& a2.phase == (Phase::Boot { round, port, chan: 0 })
                        }
                    }
                } else if chan == a1.outputs[port as int].channels.len() {
                    &&& Self::frame_others(m1, m2, i)
                    &&& m2.clients == m1.clients
                    &&& m2.channels == m1.channels
                    &&& m2.log == m1.log
                    &&& ({
                        let a2 = m2.actors@[i];
                        &&& Self::same_shape(a1, a2)
                        &&& a2.buf == a1.buf
                        &&& Self::same_counters(a1, a2)
                        &&& a2.pending is None
                        &&& a2.phase == (Phase::Boot {
                            round,
                            port: (port + 1) as usize,
                            chan: 0,
                        })
                    })
                } else {
                    let c = a1.outputs[port as int].channels[chan as int] as int;
                    let c1 = m1.channels@[c];
                    if c1.spec_rx_closed() || !c1.spec_rx_attached() {
                        &&& m2.clients == m1.clients
                        &&& m2.log == m1.log
                        &&& Self::halted(m1, m2, i, Some(ActorError::Disconnected(port)))
                    } else if c1.spec_queue().len() >= c1.spec_capacity() {
                        false
                    } else {
                        &&& Self::frame_others(m1, m2, i)
                        &&& m2.clients == m1.clients
                        &&& m2.log == m1.log
                        &&& forall|x: int|
                            0 <= x < m1.channels@.len() && x != c ==> m2.channels@[x]
                                == m1.channels@[x]
                        &&& ({
                            let c2 = m2.channels@[c];
                            &&& c2.spec_history() == c1.spec_history().push(
                                a1.pending.unwrap(),
                            )
                            &&& c2.spec_queue() == c1.spec_queue().push(a1.pending.unwrap())
                            &&& Self::chan_same_flags(c1, c2)
                        })
                        &&& ({
                            let a2 = m2.actors@[i];
                            &&& Self::same_shape(a1, a2)
                            &&& a2.buf == a1.buf
                            &&& Self::same_counters(a1, a2)
                            &&& a2.pending == a1.pending
                            &&& a2.phase == (Phase::Boot {
                                round,
                                port,
                                chan: (chan + 1) as usize,
                            })
                        })
                    }
                }
            },
            _ => false,
        }
    }

    /// One micro-step of actor `i`, whatever its phase: the complete
    /// transition relation of the scheduler, one branch per exit of the
    /// step functions.
    #[verifier::opaque]
    pub open spec fn micro_step(m1: Self, m2: Self, i: int) -> bool {
        ||| Self::boot_step(m1, m2, i)
        ||| Self::gather_step(m1, m2, i)
        ||| Self::scatter_step(m1, m2, i)
        ||| Self::dist_step(m1, m2, i)
    }

    /// Whether actor `i` cannot move right now: it is done, or it waits
    /// to receive on an empty input that may still be fed, or it waits to
    /// deliver into a full channel whose consumer is still there. In
    /// every other state a micro-step makes progress; in particular a
    /// scattering actor always moves.
    pub open spec fn blocked(m: Self, i: int) -> bool {
        let a = m.actors@[i];
        match a.phase {
            Phase::Done => true,
            Phase::Gather { k, j } => a.inputs.len() > 0 && {
                let c = m.channels@[a.inputs[j as int].channel as int];
                &&& c.spec_queue().len() == 0
                &&& !c.spec_tx_closed()
            },
            Phase::Scatter { k, j } => false,
            Phase::Boot { round, port, chan } => {
                &&& a.boot_target() != 0
                &&& port < a.outputs.len()
                &&& a.pending is Some
                &&& chan < a.outputs[port as int].channels.len()
                &&& ({
                    let c = m.channels@[a.outputs[port as int].channels[chan as int] as int];
                    &&& !c.spec_rx_closed()
                    &&& c.spec_rx_attached()
                    &&& c.spec_queue().len() >= c.spec_capacity()
                })
            },
            Phase::Distribute { round, port, chan } => {
                &&& port < a.outputs.len()
                &&& a.pending is Some
                &&& chan < a.outputs[port as int].channels.len()
                &&& ({
                    let c = m.channels@[a.outputs[port as int].channels[chan as int] as int];
                    &&& !c.spec_rx_closed()
                    &&& c.spec_rx_attached()
                    &&& c.spec_queue().len() >= c.spec_capacity()
                })
            },
        }
    }

    /// Ends actor `i` with the given outcome, dropping both ends of all its
    /// channels so that neighbours observe the shutdown.
    #[verifier::loop_isolation(false)]
    fn halt(&mut self, i: usize, outcome: Option<ActorError>)
        requires
            old(self).inv(),
            old(self).rates_ok_all(),
            i < old(self).actors@.len(),
        ensures
            final(self).inv(),
            final(self).rates_ok_all(),
            final(self).actors@.len() == old(self).actors@.len(),
            final(self).channels@.len() == old(self).channels@.len(),
            final(self).clients == old(self).clients,
            final(self).tag == old(self).tag,
            final(self).log == old(self).log,
            final(self).actors@[i as int].phase is Done,
            final(self).actors@[i as int].outcome == outcome,
            Self::halted(*old(self), *final(self), i as int, outcome),
            forall|x: int|
                0 <= x < old(self).actors@.len() && x != i ==> final(self).actors@[x] == old(
                    self,
                ).actors@[x],
            forall|c: int|
                0 <= c < old(self).channels@.len() ==> {
                    &&& (#[trigger] final(self).channels@[c]).spec_history() == old(
                        self,
                    ).channels@[c].spec_history()
                    &&& final(self).channels@[c].spec_received() == old(
                        self,
                    ).channels@[c].spec_received()
                    &&& final(self).channels@[c].spec_queue() == old(
                        self,
                    ).channels@[c].spec_queue()
                },
    {
        proof {
            assert(Self::acc_one(old(self).actors@[i as int], old(self).channels@));
        }
        let ghost pre = *self;
        let a = &mut self.actors[i];
        a.phase = Phase::Done;
        a.outcome = outcome;
        let ghost adone = self.actors@[i as int];
        proof {
            assert(adone.inputs == pre.actors@[i as int].inputs);
            assert(adone.outputs == pre.actors@[i as int].outputs);
            assert(adone.pending == pre.actors@[i as int].pending);
            assert(adone.buf == pre.actors@[i as int].buf);
            assert(Self::same_counters(pre.actors@[i as int], adone));
        }
        proof {
            assert(self.actors@ =~= old(self).actors@.update(
                i as int,
                self.actors@[i as int],
            ));
            assert forall|x: int| 0 <= x < self.actors@.len() implies #[trigger]
                self.wired_actor(x) by {
                assert(old(self).wired_actor(x));
            }
            assert forall|x: int| 0 <= x < self.actors@.len() implies Self::acc_one(
                #[trigger] self.actors@[x],
                self.channels@,
            ) by {
                if x != i {
                    assert(self.actors@[x] == old(self).actors@[x]);
                    assert(Self::acc_one(old(self).actors@[x], old(self).channels@));
                } else {
                    let a2 = self.actors@[x];
                    let oa = old(self).actors@[x];
                    assert forall|p: int| 0 <= p < a2.outputs.len() implies
                        Self::port_weak_at(self.channels@, #[trigger] a2.outputs[p]) by {
                        Self::lemma_any_phase_weak(oa, old(self).channels@, p);
                        assert(a2.outputs[p] == oa.outputs[p]);
                    }
                }
            }
            assert forall|i2: int, p2: int, k2: int|
                0 <= i2 < self.actors@.len() && 0 <= p2 < self.actors@[i2].outputs.len()
                    && 0 <= k2 < self.actors@[i2].outputs[p2].channels.len()
                implies self.channels@[
                    #[trigger] self.actors@[i2].outputs[p2].channels[k2] as int
                ].spec_producer() == Some((i2, p2, k2)) by {
                assert(self.actors@[i2].outputs == old(self).actors@[i2].outputs);
            }
            assert forall|i2: int, l2: int|
                0 <= i2 < self.actors@.len() && 0 <= l2 < self.actors@[i2].inputs.len()
                implies self.channels@[
                    #[trigger] self.actors@[i2].inputs[l2].channel as int
                ].spec_consumer() == Some((i2, l2)) by {
                assert(self.actors@[i2].inputs == old(self).actors@[i2].inputs);
            }
            assert forall|x: int| 0 <= x < self.actors@.len() implies (
            #[trigger] self.actors@[x]).rates_ok() by {
                assert(old(self).actors@[x].rates_ok());
                if x != i {
                    assert(self.actors@[x] == old(self).actors@[x]);
                }
            }
        }
        let n_in: usize = self.actors[i].inputs.len();
        let mut l: usize = 0;
        while l < n_in
            invariant
                self.inv(),
                self.rates_ok_all(),
                i < self.actors@.len(),
                l <= n_in,
                n_in == self.actors@[i as int].inputs.len(),
                self.actors@ == pre.actors@.update(i as int, adone),
                self.clients == pre.clients,
                self.tag == pre.tag,
                self.log == pre.log,
                self.channels@.len() == pre.channels@.len(),
                forall|c: int|
                    0 <= c < self.channels@.len() ==> {
                        &&& (#[trigger] self.channels@[c]).spec_history() == pre.channels@[
                            c].spec_history()
                        &&& self.channels@[c].spec_received() == pre.channels@[
                            c].spec_received()
                        &&& self.channels@[c].spec_queue() == pre.channels@[c].spec_queue()
                        &&& self.channels@[c].spec_producer() == pre.channels@[
                            c].spec_producer()
                        &&& self.channels@[c].spec_consumer() == pre.channels@[
                            c].spec_consumer()
                        &&& self.channels@[c].spec_capacity() == pre.channels@[
                            c].spec_capacity()
                        &&& self.channels@[c].spec_rx_attached() == pre.channels@[
                            c].spec_rx_attached()
                        &&& self.channels@[c].spec_tx_closed() == pre.channels@[
                            c].spec_tx_closed()
                        &&& self.channels@[c].spec_rx_closed() == (pre.channels@[
                            c].spec_rx_closed() || exists|l2: int|
                            0 <= l2 < l && pre.actors@[i as int].inputs[l2].channel == c)
                    },
            decreases n_in - l,
        {
            let ghost mid = *self;
            let c: usize = self.actors[i].inputs[l].channel;
            proof {
                assert(self.wired_actor(i as int));
            }
            self.channels[c].close_rx();
            proof {
                Self::lemma_one_channel_flags(mid, *self, c as int);
                assert(self.actors@[i as int] == adone);
                assert(adone.inputs@ == pre.actors@[i as int].inputs@);
                assert(c == pre.actors@[i as int].inputs[l as int].channel);
                assert forall|x: int| 0 <= x < self.channels@.len() implies (
                #[trigger] self.channels@[x]).spec_rx_closed() == (pre.channels@[
                    x].spec_rx_closed() || exists|l2: int|
                    0 <= l2 < l + 1 && pre.actors@[i as int].inputs[l2].channel == x) by {
                    if x == c as int {
                        assert(pre.actors@[i as int].inputs[l as int].channel == x);
                        assert(self.channels@[x].spec_rx_closed());
                    } else {
                        assert(self.channels@[x] == mid.channels@[x]);
                        if exists|l2: int|
                            0 <= l2 < l + 1 && pre.actors@[i as int].inputs[l2].channel
                                == x {
                            let w = choose|l2: int|
                                0 <= l2 < l + 1 && pre.actors@[i as int].inputs[l2].channel
                                    == x;
                            assert(pre.actors@[i as int].inputs[w].channel == x);
                            assert(w != l);
                            assert(0 <= w < l && pre.actors@[i as int].inputs[w].channel
                                == x);
                        }
                    }
                }
            }
            l = l + 1;
        }
        proof {
            assert forall|c: int| 0 <= c < self.channels@.len() implies (
            #[trigger] self.channels@[c]).spec_rx_closed() == (pre.channels@[
                c].spec_rx_closed() || Self::names_input(pre.actors@[i as int], c)) by {
                if Self::names_input(pre.actors@[i as int], c) {
                    let w = choose|l2: int|
                        0 <= l2 < pre.actors@[i as int].inputs.len() && pre.actors@[
                            i as int].inputs[l2].channel == c;
                    assert(0 <= w < n_in && pre.actors@[i as int].inputs[w].channel == c);
                }
                if exists|l2: int|
                    0 <= l2 < n_in && pre.actors@[i as int].inputs[l2].channel == c {
                    let w = choose|l2: int|
                        0 <= l2 < n_in && pre.actors@[i as int].inputs[l2].channel == c;
                    assert(Self::names_input(pre.actors@[i as int], c));
                }
            }
        }
        let n_out: usize = self.actors[i].outputs.len();
        let mut p: usize = 0;
        while p < n_out
            invariant
                self.inv(),
                self.rates_ok_all(),
                i < self.actors@.len(),
                p <= n_out,
                n_out == self.actors@[i as int].outputs.len(),
                self.actors@ == pre.actors@.update(i as int, adone),
                self.clients == pre.clients,
                self.tag == pre.tag,
                self.log == pre.log,
                self.channels@.len() == pre.channels@.len(),
                forall|c: int|
                    0 <= c < self.channels@.len() ==> {
                        &&& (#[trigger] self.channels@[c]).spec_history() == pre.channels@[
                            c].spec_history()
                        &&& self.channels@[c].spec_received() == pre.channels@[
                            c].spec_received()
                        &&& self.channels@[c].spec_queue() == pre.channels@[c].spec_queue()
                        &&& self.channels@[c].spec_producer() == pre.channels@[
                            c].spec_producer()
                        &&& self.channels@[c].spec_consumer() == pre.channels@[
                            c].spec_consumer()
                        &&& self.channels@[c].spec_capacity() == pre.channels@[
                            c].spec_capacity()
                        &&& self.channels@[c].spec_rx_attached() == pre.channels@[
                            c].spec_rx_attached()
                        &&& self.channels@[c].spec_rx_closed() == (pre.channels@[
                            c].spec_rx_closed() || Self::names_input(
                            pre.actors@[i as int],
                            c,
                        ))
                        &&& self.channels@[c].spec_tx_closed() == (pre.channels@[
                            c].spec_tx_closed() || exists|p2: int, k2: int|
                            0 <= p2 < p && 0 <= k2 < pre.actors@[i as int].outputs[
                                p2].channels.len() && pre.actors@[i as int].outputs[
                                p2].channels[k2] == c)
                    },
            decreases n_out - p,
        {
            let n_fan: usize = self.actors[i].outputs[p].channels.len();
            let mut k: usize = 0;
            while k < n_fan
                invariant
                    self.inv(),
                    self.rates_ok_all(),
                    i < self.actors@.len(),
                    p < n_out,
                    k <= n_fan,
                    n_out == self.actors@[i as int].outputs.len(),
                    n_fan == self.actors@[i as int].outputs[p as int].channels.len(),
                    self.actors@ == pre.actors@.update(i as int, adone),
                    self.clients == pre.clients,
                    self.tag == pre.tag,
                    self.log == pre.log,
                    self.channels@.len() == pre.channels@.len(),
                    forall|c: int|
                        0 <= c < self.channels@.len() ==> {
                            &&& (#[trigger] self.channels@[c]).spec_history()
                                == pre.channels@[c].spec_history()
                            &&& self.channels@[c].spec_received() == pre.channels@[
                                c].spec_received()
                            &&& self.channels@[c].spec_queue() == pre.channels@[
                                c].spec_queue()
                            &&& self.channels@[c].spec_producer() == pre.channels@[
                                c].spec_producer()
                            &&& self.channels@[c].spec_consumer() == pre.channels@[
                                c].spec_consumer()
                            &&& self.channels@[c].spec_capacity() == pre.channels@[
                                c].spec_capacity()
                            &&& self.channels@[c].spec_rx_attached() == pre.channels@[
                                c].spec_rx_attached()
                            &&& self.channels@[c].spec_rx_closed() == (pre.channels@[
                                c].spec_rx_closed() || Self::names_input(
                                pre.actors@[i as int],
                                c,
                            ))
                            &&& self.channels@[c].spec_tx_closed() == (pre.channels@[
                                c].spec_tx_closed() || exists|p2: int, k2: int|
                                0 <= p2 <= p && 0 <= k2 < pre.actors@[i as int].outputs[
                                    p2].channels.len() && (p2 < p || k2 < k)
                                    && pre.actors@[i as int].outputs[p2].channels[k2] == c)
                        },
                decreases n_fan - k,
            {
                let ghost mid = *self;
                let c: usize = self.actors[i].outputs[p].channels[k];
                proof {
                    assert(self.wired_actor(i as int));
                }
                self.channels[c].close_tx();
                proof {
                    Self::lemma_one_channel_flags(mid, *self, c as int);
                    assert(self.actors@[i as int] == adone);
                    assert(adone.outputs@ == pre.actors@[i as int].outputs@);
                    assert(c == pre.actors@[i as int].outputs[p as int].channels[
                        k as int]);
                    assert forall|x: int| 0 <= x < self.channels@.len() implies (
                    #[trigger] self.channels@[x]).spec_tx_closed() == (pre.channels@[
                        x].spec_tx_closed() || exists|p2: int, k2: int|
                        0 <= p2 <= p && 0 <= k2 < pre.actors@[i as int].outputs[
                            p2].channels.len() && (p2 < p || k2 < k + 1) && pre.actors@[
                            i as int].outputs[p2].channels[k2] == x) by {
                        if x == c as int {
                            assert(0 <= p < n_out && 0 <= k < n_fan && (p < p || k < k + 1)
                                && pre.actors@[i as int].outputs[p as int].channels[
                                k as int] == x);
                            assert(self.channels@[x].spec_tx_closed());
                        } else {
                            assert(self.channels@[x] == mid.channels@[x]);
                            if exists|p2: int, k2: int|
                                0 <= p2 <= p && 0 <= k2 < pre.actors@[i as int].outputs[
                                    p2].channels.len() && (p2 < p || k2 < k + 1)
                                    && pre.actors@[i as int].outputs[p2].channels[k2]
                                    == x {
                                let (w2, w3) = choose|p2: int, k2: int|
                                    0 <= p2 <= p && 0 <= k2 < pre.actors@[
                                        i as int].outputs[p2].channels.len() && (p2 < p
                                        || k2 < k + 1) && pre.actors@[i as int].outputs[
                                        p2].channels[k2] == x;
                                assert(!(w2 == p as int && w3 == k as int));
                                assert(0 <= w2 <= p && 0 <= w3 < pre.actors@[
                                    i as int].outputs[w2].channels.len() && (w2 < p || w3
                                    < k) && pre.actors@[i as int].outputs[w2].channels[
                                    w3] == x);
                            }
                        }
                    }
                }
                k = k + 1;
            }
            proof {
                assert forall|x: int| 0 <= x < self.channels@.len() implies (
                #[trigger] self.channels@[x]).spec_tx_closed() == (pre.channels@[
                    x].spec_tx_closed() || exists|p2: int, k2: int|
                    0 <= p2 < p + 1 && 0 <= k2 < pre.actors@[i as int].outputs[
                        p2].channels.len() && pre.actors@[i as int].outputs[p2].channels[
                        k2] == x) by {
                    if exists|p2: int, k2: int|
                        0 <= p2 < p + 1 && 0 <= k2 < pre.actors@[i as int].outputs[
                            p2].channels.len() && pre.actors@[i as int].outputs[
                            p2].channels[k2] == x {
                        let (w2, w3) = choose|p2: int, k2: int|
                            0 <= p2 < p + 1 && 0 <= k2 < pre.actors@[i as int].outputs[
                                p2].channels.len() && pre.actors@[i as int].outputs[
                                p2].channels[k2] == x;
                        assert(0 <= w2 <= p && 0 <= w3 < pre.actors@[i as int].outputs[
                            w2].channels.len() && (w2 < p || w3 < n_fan) && pre.actors@[
                            i as int].outputs[w2].channels[w3] == x);
                    }
                    if exists|p2: int, k2: int|
                        0 <= p2 <= p && 0 <= k2 < pre.actors@[i as int].outputs[
                            p2].channels.len() && (p2 < p || k2 < n_fan) && pre.actors@[
                            i as int].outputs[p2].channels[k2] == x {
                        let (w2, w3) = choose|p2: int, k2: int|
                            0 <= p2 <= p && 0 <= k2 < pre.actors@[i as int].outputs[
                                p2].channels.len() && (p2 < p || k2 < n_fan)
                                && pre.actors@[i as int].outputs[p2].channels[k2] == x;
                        assert(0 <= w2 < p + 1 && 0 <= w3 < pre.actors@[i as int].outputs[
                            w2].channels.len() && pre.actors@[i as int].outputs[
                            w2].channels[w3] == x);
                    }
                }
            }
            p = p + 1;
        }
        proof {
            let a1 = pre.actors@[i as int];
            assert forall|c: int| 0 <= c < self.channels@.len() implies (
            #[trigger] self.channels@[c]).spec_tx_closed() == (pre.channels@[
                c].spec_tx_closed() || Self::names_output(a1, c)) by {
                if Self::names_output(a1, c) {
                    let (w2, w3) = choose|p2: int, k2: int|
                        0 <= p2 < a1.outputs.len() && 0 <= k2 < a1.outputs[
                            p2].channels.len() && a1.outputs[p2].channels[k2] == c;
                    assert(0 <= w2 < n_out && 0 <= w3 < a1.outputs[w2].channels.len()
                        && a1.outputs[w2].channels[w3] == c);
                }
                if exists|p2: int, k2: int|
                    0 <= p2 < n_out && 0 <= k2 < a1.outputs[p2].channels.len()
                        && a1.outputs[p2].channels[k2] == c {
                    let (w2, w3) = choose|p2: int, k2: int|
                        0 <= p2 < n_out && 0 <= k2 < a1.outputs[p2].channels.len()
                            && a1.outputs[p2].channels[k2] == c;
                    assert(Self::names_output(a1, c));
                }
            }
            assert(Self::halted(pre, *self, i as int, outcome));
            assert(pre == *old(self));
        }
    }

    /// Whatever an actor's phase, its ports miss at most their last
    /// emitted envelope.
    pub proof fn lemma_any_phase_weak(a: Actor<P>, channels: Seq<Channel<P>>, p: int)
        requires
            Self::acc_one(a, channels),
            0 <= p < a.outputs.len(),
        ensures
            Self::port_weak_at(channels, a.outputs[p]),
    {
        match a.phase {
            Phase::Boot { round, port, chan } => {
                if a.pending is Some && p == port {
                    assert(Self::port_split_at(channels, a.outputs[p], chan as int));
                } else {
                    assert(Self::port_synced_at(channels, a.outputs[p]));
                }
            },
            Phase::Distribute { round, port, chan } => {
                if a.pending is Some && p == port {
                    assert(Self::port_split_at(channels, a.outputs[p], chan as int));
                } else {
                    assert(Self::port_synced_at(channels, a.outputs[p]));
                }
            },
            Phase::Gather { k, j } => {
                assert(Self::port_synced_at(channels, a.outputs[p]));
            },
            Phase::Scatter { k, j } => {
                assert(Self::port_synced_at(channels, a.outputs[p]));
            },
            Phase::Done => {
            },
        }
    }

    /// Re-establishes the invariant after one channel changed only its
    /// flags: history, queue and received are untouched.
    pub proof fn lemma_one_channel_flags(m1: Self, m2: Self, c: int)
        requires
            m1.inv(),
            m1.rates_ok_all(),
            m2.actors == m1.actors,
            m2.clients == m1.clients,
            m2.channels@.len() == m1.channels@.len(),
            0 <= c < m1.channels@.len(),
            m2.channels@[c].wf(),
            m2.channels@[c].spec_history() == m1.channels@[c].spec_history(),
            m2.channels@[c].spec_received() == m1.channels@[c].spec_received(),
            m2.channels@[c].spec_queue() == m1.channels@[c].spec_queue(),
            m2.channels@[c].spec_producer() == m1.channels@[c].spec_producer(),
            m2.channels@[c].spec_consumer() == m1.channels@[c].spec_consumer(),
            forall|x: int|
                0 <= x < m1.channels@.len() && x != c ==> m2.channels@[x] == m1.channels@[x],
        ensures
            m2.inv(),
            m2.rates_ok_all(),
    {
        assert forall|x: int| 0 <= x < m2.actors@.len() implies #[trigger] m2.wired_actor(
            x,
        ) by {
            assert(m1.wired_actor(x));
        }
        assert forall|x: int| 0 <= x < m2.channels@.len() implies (
        #[trigger] m2.channels@[x]).wf() by {
            if x != c {
                assert(m2.channels@[x] == m1.channels@[x]);
            }
        }
        assert forall|c2: int| 0 <= c2 < m2.channels@.len() implies {
            &&& (#[trigger] m2.channels@[c2]).spec_history() == m1.channels@[
                c2].spec_history()
            &&& m2.channels@[c2].spec_received() == m1.channels@[c2].spec_received()
            &&& m2.channels@[c2].spec_producer() == m1.channels@[c2].spec_producer()
            &&& m2.channels@[c2].spec_consumer() == m1.channels@[c2].spec_consumer()
        } by {
            if c2 != c {
                assert(m2.channels@[c2] == m1.channels@[c2]);
            }
        }
        assert forall|i2: int, p2: int, k2: int|
            0 <= i2 < m2.actors@.len() && 0 <= p2 < m2.actors@[i2].outputs.len() && 0 <= k2
                < m2.actors@[i2].outputs[p2].channels.len()
            implies m2.channels@[
                #[trigger] m2.actors@[i2].outputs[p2].channels[k2] as int
            ].spec_producer() == Some((i2, p2, k2)) by {
            assert(m1.wired_actor(i2));
        }
        assert forall|i2: int, l2: int|
            0 <= i2 < m2.actors@.len() && 0 <= l2 < m2.actors@[i2].inputs.len()
            implies m2.channels@[
                #[trigger] m2.actors@[i2].inputs[l2].channel as int
            ].spec_consumer() == Some((i2, l2)) by {
            assert(m1.wired_actor(i2));
        }
        assert forall|i2: int, l2: int|
            0 <= i2 < m2.actors@.len() && 0 <= l2 < m2.actors@[i2].inputs.len() implies (
        #[trigger] m2.actors@[i2].inputs[l2].channel) < m1.channels@.len() by {
            assert(m1.wired_actor(i2));
            assert(m2.actors@[i2] == m1.actors@[i2]);
        }
        assert forall|i2: int, p2: int, k2: int|
            0 <= i2 < m2.actors@.len() && 0 <= p2 < m2.actors@[i2].outputs.len() && 0 <= k2
                < m2.actors@[i2].outputs[p2].channels.len() implies (
        #[trigger] m2.actors@[i2].outputs[p2].channels[k2]) < m1.channels@.len() by {
            assert(m1.wired_actor(i2));
            assert(m2.actors@[i2] == m1.actors@[i2]);
        }
        Self::lemma_acc_all_frame(m2.actors@, m1.channels@, m2.channels@);
    }

    /// One micro-step of actor `i` in its gather phase: drain the next
    /// input, or finish on a dead one, or report no progress on an empty
    /// one. An actor without ports finishes at once.
    fn step_gather(&mut self, i: usize) -> (progress: bool)
        requires
            old(self).inv(),
            old(self).rates_ok_all(),
            i < old(self).actors@.len(),
            old(self).actors@[i as int].phase is Gather,
        ensures
            final(self).inv(),
            final(self).rates_ok_all(),
            final(self).actors@.len() == old(self).actors@.len(),
            final(self).channels@.len() == old(self).channels@.len(),
            final(self).tag == old(self).tag,
            progress ==> Self::gather_step(*old(self), *final(self), i as int),
            !progress ==> *final(self) == *old(self) && Self::blocked(*old(self), i as int),
    {
        let ph: Phase = self.actors[i].phase;
        if let Phase::Gather { k, j } = ph {
            let n_in: usize = self.actors[i].inputs.len();
            let n_out: usize = self.actors[i].outputs.len();
            if n_in == 0 && n_out == 0 {
                self.halt(i, None);
                return true;
            }
            if n_in == 0 {
                // an initiator updates once, then distributes
                let ghost m0 = *self;
                self.clients[i].update();
                proof {
                    self.log@ = self.log@.push(Event::Update { actor: i as int });
                }
                let a = &mut self.actors[i];
                a.phase = Phase::Distribute { round: 0, port: 0, chan: 0 };
                proof {
                    assert(m0.inv()) by {
                        assert(*old(self) == m0);
                    }
                    assert(Self::acc_one(m0.actors@[i as int], m0.channels@));
                    Self::lemma_actor_only_change(m0, *self, i as int);
                    assert(Self::gather_step(m0, *self, i as int));
                }
                return true;
            }
            let c: usize = self.actors[i].inputs[j].channel;
            proof {
                assert(self.wired_actor(i as int));
                assert(Self::acc_one(self.actors@[i as int], self.channels@));
            }
            if self.channels[c].is_ready() {
                let ghost m0 = *self;
                let v = self.channels[c].pop();
                let ghost m1 = *self;
                let a = &mut self.actors[i];
                a.buf.push(v);
                if j + 1 == n_in {
                    a.phase = Phase::Scatter { k, j: 0 };
                } else {
                    a.phase = Phase::Gather { k, j: j + 1 };
                }
                proof {
                    assert forall|x: int| 0 <= x < self.actors@.len() implies #[trigger]
                        self.wired_actor(x) by {
                        assert(m0.wired_actor(x));
                        if x != i {
                            assert(self.actors@[x] == m0.actors@[x]);
                        }
                    }
                    assert forall|c2: int| 0 <= c2 < self.channels@.len() implies (
                    #[trigger] self.channels@[c2]).wf() by {
                        if c2 != c {
                            assert(self.channels@[c2] == m0.channels@[c2]);
                        }
                    }
                    assert forall|i2: int, p2: int, k2: int|
                        0 <= i2 < self.actors@.len() && 0 <= p2
                            < self.actors@[i2].outputs.len() && 0 <= k2
                            < self.actors@[i2].outputs[p2].channels.len()
                        implies self.channels@[
                            #[trigger] self.actors@[i2].outputs[p2].channels[k2] as int
                        ].spec_producer() == Some((i2, p2, k2)) by {
                        assert(self.actors@[i2].outputs == m0.actors@[i2].outputs);
                        assert(m0.wired_actor(i2));
                        let c2 = self.actors@[i2].outputs[p2].channels[k2] as int;
                        if c2 != c as int {
                            assert(self.channels@[c2] == m0.channels@[c2]);
                        }
                    }
                    assert forall|i2: int, l2: int|
                        0 <= i2 < self.actors@.len() && 0 <= l2
                            < self.actors@[i2].inputs.len()
                        implies self.channels@[
                            #[trigger] self.actors@[i2].inputs[l2].channel as int
                        ].spec_consumer() == Some((i2, l2)) by {
                        assert(self.actors@[i2].inputs == m0.actors@[i2].inputs);
                        assert(m0.wired_actor(i2));
                        let c2 = self.actors@[i2].inputs[l2].channel as int;
                        if c2 != c as int {
                            assert(self.channels@[c2] == m0.channels@[c2]);
                        }
                    }
                    assert forall|x: int| 0 <= x < self.actors@.len() implies (
                    #[trigger] self.actors@[x]).rates_ok() by {
                        assert(m0.actors@[x].rates_ok());
                        if x != i {
                            assert(self.actors@[x] == m0.actors@[x]);
                        }
                    }
                    assert forall|x: int| 0 <= x < self.actors@.len() implies Self::acc_one(
                        #[trigger] self.actors@[x],
                        self.channels@,
                    ) by {
                        if x != i {
                            assert(self.actors@[x] == m0.actors@[x]);
                            assert(Self::acc_one(m0.actors@[x], m0.channels@));
                            assert(m0.wired_actor(x));
                            assert forall|l2: int|
                                0 <= l2 < self.actors@[x].inputs.len() implies {
                                let c2 = (#[trigger] self.actors@[x].inputs[l2]).channel
                                    as int;
                                self.channels@[c2].spec_received() == m0.channels@[
                                    c2].spec_received()
                            } by {
                                let c2 = self.actors@[x].inputs[l2].channel as int;
                                if c2 == c as int {
                                    assert(m0.channels@[c2].spec_consumer() == Some((
                                        x,
                                        l2,
                                    )));
                                    assert(m0.channels@[c as int].spec_consumer() == Some((
                                        i as int,
                                        j as int,
                                    )));
                                    assert(false);
                                } else {
                                    assert(self.channels@[c2] == m0.channels@[c2]);
                                }
                            }
                            assert forall|p2: int, k2: int|
                                0 <= p2 < self.actors@[x].outputs.len() && 0 <= k2
                                    < self.actors@[x].outputs[p2].channels.len()
                            implies {
                                let c2 = (#[trigger] self.actors@[x].outputs[p2].channels[
                                    k2]) as int;
                                self.channels@[c2].spec_history() == m0.channels@[
                                    c2].spec_history()
                            } by {
                                let c2 = self.actors@[x].outputs[p2].channels[k2] as int;
                                if c2 != c as int {
                                    assert(self.channels@[c2] == m0.channels@[c2]);
                                }
                            }
                            Self::lemma_acc_frame(self.actors@[x], m0.channels@,
                                self.channels@);
                        } else {
                            let a2 = self.actors@[x];
                            let oa = m0.actors@[x];
                            assert(Self::acc_one(oa, m0.channels@));
                            assert forall|l2: int|
                                0 <= l2 < a2.inputs.len() implies self.channels@[
                                #[trigger] a2.inputs[l2].channel as int].spec_received()
                                .len() == a2.coll_rounds@ + if l2 < (j + 1) as int {
                                1int
                            } else {
                                0int
                            } by {
                                let c2 = a2.inputs[l2].channel as int;
                                if l2 == j as int {
                                    assert(c2 == c as int);
                                } else {
                                    if c2 == c as int {
                                        assert(m0.channels@[c2].spec_consumer() == Some((
                                            x,
                                            l2,
                                        )));
                                        assert(m0.channels@[c as int].spec_consumer()
                                            == Some((i as int, j as int)));
                                        assert(false);
                                    }
                                    assert(self.channels@[c2] == m0.channels@[c2]);
                                }
                            }
                            assert forall|p2: int|
                                0 <= p2 < a2.outputs.len() implies Self::port_synced_at(
                                self.channels@,
                                #[trigger] a2.outputs[p2],
                            ) by {
                                assert(a2.outputs[p2] == oa.outputs[p2]);
                                assert(Self::port_synced_at(m0.channels@, oa.outputs[p2]));
                                let o = a2.outputs[p2];
                                assert forall|k2: int|
                                    0 <= k2 < o.channels.len() implies self.channels@[
                                    #[trigger] o.channels[k2] as int].spec_history()
                                    == o.emitted@ by {
                                    let c2 = o.channels[k2] as int;
                                    assert(m0.wired_actor(x));
                                    if c2 == c as int {
                                        assert(self.channels@[c2].spec_history()
                                            == m0.channels@[c2].spec_history());
                                    } else {
                                        assert(self.channels@[c2] == m0.channels@[c2]);
                                    }
                                }
                            }
                        }
                    }
                    assert(self.actors@[i as int].buf@ == m0.actors@[i as int].buf@.push(
                        m0.channels@[c as int].spec_queue()[0],
                    ));
                    assert(Self::chan_same_flags(
                        m0.channels@[c as int],
                        self.channels@[c as int],
                    ));
                    assert(Self::gather_step(m0, *self, i as int));
                }
                true
            } else if self.channels[c].tx_closed() {
                let ghost m0 = *self;
                let orderly: bool = n_out == 0;
                self.halt(
                    i,
                    if orderly {
                        None
                    } else {
                        Some(ActorError::DropRecv)
                    },
                );
                proof {
                    assert(Self::gather_step(m0, *self, i as int));
                }
                true
            } else {
                proof {
                    assert(Self::blocked(*old(self), i as int));
                }
                false
            }
        } else {
            proof {
                assert(false);
            }
            false
        }
    }

    /// Nothing but actor `i` changed, and only in its loop position,
    /// buffers and counters: ports, rates and all channels are as before.
    /// The invariant follows once actor `i` satisfies its book-keeping.
    proof fn lemma_actor_only_change(m1: Self, m2: Self, i: int)
        requires
            m1.inv(),
            m1.rates_ok_all(),
            0 <= i < m1.actors@.len(),
            m2.channels == m1.channels,
            m2.clients@.len() == m1.clients@.len(),
            m2.actors@.len() == m1.actors@.len(),
            forall|x: int|
                0 <= x < m1.actors@.len() && x != i ==> m2.actors@[x] == m1.actors@[x],
            m2.actors@[i].inputs == m1.actors@[i].inputs,
            m2.actors@[i].outputs@.len() == m1.actors@[i].outputs@.len(),
            forall|p: int|
                0 <= p < m1.actors@[i].outputs@.len() ==> {
                    &&& (#[trigger] m2.actors@[i].outputs@[p]).channels == m1.actors@[
                        i].outputs@[p].channels
                    &&& m2.actors@[i].outputs@[p].bootstrap == m1.actors@[i].outputs@[
                        p].bootstrap
                },
            m2.actors@[i].ni == m1.actors@[i].ni,
            m2.actors@[i].no == m1.actors@[i].no,
            Self::acc_one(m2.actors@[i], m2.channels@),
        ensures
            m2.inv(),
            m2.rates_ok_all(),
    {
        assert forall|x: int| 0 <= x < m2.actors@.len() implies #[trigger] m2.wired_actor(
            x,
        ) by {
            assert(m1.wired_actor(x));
        }
        assert forall|x: int| 0 <= x < m2.actors@.len() implies (
        #[trigger] m2.actors@[x]).rates_ok() by {
            assert(m1.actors@[x].rates_ok());
        }
        assert forall|i2: int, p2: int, k2: int|
            0 <= i2 < m2.actors@.len() && 0 <= p2 < m2.actors@[i2].outputs.len() && 0 <= k2
                < m2.actors@[i2].outputs[p2].channels.len()
            implies m2.channels@[
                #[trigger] m2.actors@[i2].outputs[p2].channels[k2] as int
            ].spec_producer() == Some((i2, p2, k2)) by {
            if i2 != i {
                assert(m2.actors@[i2].outputs == m1.actors@[i2].outputs);
            } else {
                assert(m2.actors@[i2].outputs@[p2].channels == m1.actors@[i2].outputs@[
                    p2].channels);
            }
        }
        assert forall|i2: int, l2: int|
            0 <= i2 < m2.actors@.len() && 0 <= l2 < m2.actors@[i2].inputs.len()
            implies m2.channels@[
                #[trigger] m2.actors@[i2].inputs[l2].channel as int
            ].spec_consumer() == Some((i2, l2)) by {
            assert(m2.actors@[i2].inputs == m1.actors@[i2].inputs);
        }
        assert forall|x: int| 0 <= x < m2.actors@.len() implies Self::acc_one(
            #[trigger] m2.actors@[x],
            m2.channels@,
        ) by {
            if x != i {
                assert(m2.actors@[x] == m1.actors@[x]);
                assert(Self::acc_one(m1.actors@[x], m1.channels@));
            }
        }
    }

    /// One micro-step of actor `i` in its scatter phase: route the next
    /// buffered envelope to the client; after the last one, update the
    /// client and move on, to more gathering or to distribution.
    fn step_scatter(&mut self, i: usize) -> (progress: bool)
        requires
            old(self).inv(),
            old(self).rates_ok_all(),
            i < old(self).actors@.len(),
            old(self).actors@[i as int].phase is Scatter,
        ensures
            final(self).inv(),
            final(self).rates_ok_all(),
            final(self).actors@.len() == old(self).actors@.len(),
            final(self).channels@.len() == old(self).channels@.len(),
            final(self).tag == old(self).tag,
            progress,
            Self::scatter_step(*old(self), *final(self), i as int),
    {
        let ph: Phase = self.actors[i].phase;
        if let Phase::Scatter { k, j } = ph {
            let ghost m0 = *self;
            let (ct, dt, bt) = self.targets(i);
            proof {
                assert(Self::acc_one(self.actors@[i as int], self.channels@));
                assert(self.actors@[i as int].rates_ok());
            }
            let n_in: usize = self.actors[i].inputs.len();
            let a = &mut self.actors[i];
            let v = a.buf.remove(0);
            let ghost gv = v;
            self.clients[i].read(j, v);
            proof {
                self.log@ = self.log@.push(
                    Event::Read { actor: i as int, input: j as int, data: gv },
                );
            }
            if j + 1 == n_in {
                self.clients[i].update();
                proof {
                    self.log@ = self.log@.push(Event::Update { actor: i as int });
                }
                let a = &mut self.actors[i];
                proof {
                    a.coll_rounds@ = a.coll_rounds@ + 1;
                }
                if k + 1 == ct {
                    if a.outputs.len() == 0 {
                        proof {
                            a.cycles@ = a.cycles@ + 1;
                        }
                        a.phase = Phase::Gather { k: 0, j: 0 };
                        proof {
                            assert((m0.actors@[i as int].cycles@ + 1) * (ct as int)
                                == m0.actors@[i as int].cycles@ * (ct as int) + ct as int)
                                by (nonlinear_arith);
                        }
                    } else {
                        a.phase = Phase::Distribute { round: 0, port: 0, chan: 0 };
                    }
                } else {
                    a.phase = Phase::Gather { k: k + 1, j: 0 };
                }
            } else {
                let a = &mut self.actors[i];
                a.phase = Phase::Scatter { k, j: j + 1 };
            }
            proof {
                let oa = m0.actors@[i as int];
                let a2 = self.actors@[i as int];
                assert(a2.inputs == oa.inputs);
                assert(a2.outputs == oa.outputs);
                assert(a2.collect_target() == ct as int);
                if oa.has_boot_port() {
                    let w = choose|q: int|
                        0 <= q < oa.outputs.len() && oa.outputs[q].bootstrap;
                    assert(a2.outputs[w].bootstrap);
                }
                if a2.has_boot_port() {
                    let w = choose|q: int|
                        0 <= q < a2.outputs.len() && a2.outputs[q].bootstrap;
                    assert(oa.outputs[w].bootstrap);
                }
                assert(a2.dist_target() == dt as int);
                assert(a2.boot_target() == bt as int);
                assert forall|p2: int| 0 <= p2 < a2.outputs.len() implies
                    Self::port_synced_at(self.channels@, #[trigger] a2.outputs[p2]) by {
                    assert(a2.outputs[p2] == oa.outputs[p2]);
                    assert(Self::port_synced_at(m0.channels@, oa.outputs[p2]));
                }
                assert forall|p2: int| 0 <= p2 < a2.outputs.len() implies (
                #[trigger] a2.outputs[p2]).emitted@.len() == Self::boot_share(a2, p2)
                    + oa.dist_rounds@ by {
                    assert(a2.outputs[p2] == oa.outputs[p2]);
                }
                assert forall|l2: int| 0 <= l2 < a2.inputs.len() implies self.channels@[
                    #[trigger] a2.inputs[l2].channel as int].spec_received().len()
                    == oa.coll_rounds@ + 1 by {
                    assert(a2.inputs[l2] == oa.inputs[l2]);
                }
                if a2.inputs.len() > 0 && a2.outputs.len() > 0 {
                    if a2.no >= a2.ni {
                        assert(a2.no as int / a2.ni as int >= 1) by (nonlinear_arith)
                            requires
                                a2.ni >= 1,
                                a2.no >= a2.ni,
                        ;
                    } else {
                        assert(a2.ni as int / a2.no as int >= 1) by (nonlinear_arith)
                            requires
                                a2.no >= 1,
                                a2.ni >= a2.no,
                        ;
                    }
                }
                assert(oa.cycles@ * (ct as int) + ct as int == (oa.cycles@ + 1) * (
                ct as int)) by (nonlinear_arith);
                assert(oa.cycles@ * (dt as int) + dt as int == (oa.cycles@ + 1) * (
                dt as int)) by (nonlinear_arith);
                assert(Self::acc_one(a2, self.channels@));
                Self::lemma_actor_only_change(m0, *self, i as int);
                assert(a2.buf@ =~= oa.buf@.skip(1));
                assert(gv == oa.buf@[0]);
                assert(Self::scatter_step(m0, *self, i as int));
            }
            true
        } else {
            proof {
                assert(false);
            }
            false
        }
    }

    /// One micro-step of actor `i` in its distribute phase: write the next
    /// output, deliver the written envelope to the next consumer, or close
    /// down on an ended stream or a vanished consumer.
    fn step_dist(&mut self, i: usize) -> (progress: bool)
        requires
            old(self).inv(),
            old(self).rates_ok_all(),
            i < old(self).actors@.len(),
            old(self).actors@[i as int].phase is Distribute,
        ensures
            final(self).inv(),
            final(self).rates_ok_all(),
            final(self).actors@.len() == old(self).actors@.len(),
            final(self).channels@.len() == old(self).channels@.len(),
            final(self).tag == old(self).tag,
            progress ==> Self::dist_step(*old(self), *final(self), i as int),
            !progress ==> *final(self) == *old(self) && Self::blocked(*old(self), i as int),
    {
        let ph: Phase = self.actors[i].phase;
        if let Phase::Distribute { round, port, chan } = ph {
            let ghost m0 = *self;
            let (ct, dt, bt) = self.targets(i);
            proof {
                assert(Self::acc_one(self.actors@[i as int], self.channels@));
                assert(self.actors@[i as int].rates_ok());
            }
            let n_out: usize = self.actors[i].outputs.len();
            if port == n_out {
                let a = &mut self.actors[i];
                proof {
                    a.dist_rounds@ = a.dist_rounds@ + 1;
                }
                if round + 1 == dt {
                    proof {
                        a.cycles@ = a.cycles@ + 1;
                    }
                    a.phase = Phase::Gather { k: 0, j: 0 };
                } else {
                    a.phase = Phase::Distribute { round: round + 1, port: 0, chan: 0 };
                }
                proof {
                    let oa = m0.actors@[i as int];
                    let a2 = self.actors@[i as int];
                    assert(a2.inputs == oa.inputs);
                    assert(a2.outputs == oa.outputs);
                    assert(a2.collect_target() == ct as int);
                    if oa.has_boot_port() {
                        let w = choose|q: int|
                            0 <= q < oa.outputs.len() && oa.outputs[q].bootstrap;
                        assert(a2.outputs[w].bootstrap);
                    }
                    if a2.has_boot_port() {
                        let w = choose|q: int|
                            0 <= q < a2.outputs.len() && a2.outputs[q].bootstrap;
                        assert(oa.outputs[w].bootstrap);
                    }
                    assert(a2.dist_target() == dt as int);
                    assert(a2.boot_target() == bt as int);
                    assert forall|p2: int| 0 <= p2 < a2.outputs.len() implies
                        Self::port_synced_at(self.channels@, #[trigger] a2.outputs[p2]) by {
                        assert(a2.outputs[p2] == oa.outputs[p2]);
                        assert(Self::port_synced_at(m0.channels@, oa.outputs[p2]));
                    }
                    assert forall|p2: int| 0 <= p2 < a2.outputs.len() implies (
                    #[trigger] a2.outputs[p2]).emitted@.len() == Self::boot_share(a2, p2)
                        + oa.cycles@ * (dt as int) + round + 1 by {
                        assert(a2.outputs[p2] == oa.outputs[p2]);
                        assert(Self::swept(p2, round as int, n_out as int, false) == round
                            + 1);
                    }
                    assert forall|l2: int| 0 <= l2 < a2.inputs.len() implies self.channels@[
                        #[trigger] a2.inputs[l2].channel as int].spec_received().len()
                        == oa.coll_rounds@ by {
                        assert(a2.inputs[l2] == oa.inputs[l2]);
                    }
                    if a2.inputs.len() > 0 {
                        if a2.no >= a2.ni {
                            assert(a2.no as int / a2.ni as int >= 1) by (nonlinear_arith)
                                requires
                                    a2.ni >= 1,
                                    a2.no >= a2.ni,
                            ;
                        } else {
                            assert(a2.ni as int / a2.no as int >= 1) by (nonlinear_arith)
                                requires
                                    a2.no >= 1,
                                    a2.ni >= a2.no,
                            ;
                        }
                    }
                    assert(oa.cycles@ * (ct as int) + ct as int == (oa.cycles@ + 1) * (
                    ct as int)) by (nonlinear_arith);
                    assert(oa.cycles@ * (dt as int) + dt as int == (oa.cycles@ + 1) * (
                    dt as int)) by (nonlinear_arith);
                    assert(Self::acc_one(a2, self.channels@));
                    Self::lemma_actor_only_change(m0, *self, i as int);
                    assert(Self::dist_step(m0, *self, i as int));
                }
                true
            } else if self.actors[i].pending.is_none() {
                let w = self.clients[i].write(port);
                proof {
                    self.log@ = self.log@.push(
                        Event::Write { actor: i as int, port: port as int, answer: w },
                    );
                }
                match w {
                    Some(v) => {
                        let ghost m1 = *self;
                        let a = &mut self.actors[i];
                        let o = &mut a.outputs[port];
                        proof {
                            o.emitted@ = o.emitted@.push(v);
                        }
                        a.pending = Some(v);
                        a.phase = Phase::Distribute { round, port, chan: 0 };
                        proof {
                            let oa = m0.actors@[i as int];
                            let a2 = self.actors@[i as int];
                            assert(a2.inputs == oa.inputs);
                            assert(a2.outputs@ =~= oa.outputs@.update(
                                port as int,
                                a2.outputs@[port as int],
                            ));
                            assert(a2.outputs@[port as int].channels == oa.outputs@[
                                port as int].channels);
                            assert(a2.outputs@[port as int].bootstrap == oa.outputs@[
                                port as int].bootstrap);
                            assert(a2.outputs@[port as int].emitted@ == oa.outputs@[
                                port as int].emitted@.push(v));
                            Self::lemma_same_shape_targets(oa, a2);
                            assert forall|p2: int|
                                0 <= p2 < a2.outputs.len() && p2 != port implies
                                Self::port_synced_at(self.channels@, #[trigger] a2.outputs[
                                p2]) by {
                                assert(a2.outputs[p2] == oa.outputs[p2]);
                                assert(Self::port_synced_at(m0.channels@, oa.outputs[p2]));
                            }
                            let e2 = a2.outputs@[port as int].emitted@;
                            assert(e2.drop_last() =~= oa.outputs@[port as int].emitted@);
                            assert(e2.last() == v);
                            assert(Self::port_split_at(self.channels@, a2.outputs@[
                                port as int], 0)) by {
                                let o2 = a2.outputs@[port as int];
                                assert forall|k2: int| 0 <= k2 < o2.channels.len() implies
                                    self.channels@[#[trigger] o2.channels[k2] as int]
                                    .spec_history() == e2.drop_last() by {
                                    assert(Self::port_synced_at(m0.channels@, oa.outputs@[
                                        port as int]));
                                    assert(oa.outputs@[port as int].channels[k2]
                                        == o2.channels[k2]);
                                }
                            }
                            assert forall|p2: int| 0 <= p2 < a2.outputs.len() implies (
                            #[trigger] a2.outputs[p2]).emitted@.len() == Self::boot_share(
                                a2,
                                p2,
                            ) + oa.cycles@ * (dt as int) + Self::swept(
                                p2,
                                round as int,
                                port as int,
                                true,
                            ) by {
                                if p2 != port {
                                    assert(a2.outputs[p2] == oa.outputs[p2]);
                                }
                            }
                            assert forall|l2: int|
                                0 <= l2 < a2.inputs.len() implies self.channels@[
                                #[trigger] a2.inputs[l2].channel as int].spec_received()
                                .len() == oa.coll_rounds@ by {
                                assert(a2.inputs[l2] == oa.inputs[l2]);
                            }
                            assert(Self::acc_one(a2, self.channels@));
                            Self::lemma_actor_only_change(m0, *self, i as int);
                            assert(Self::dist_step(m0, *self, i as int));
                        }
                        true
                    },
                    None => {
                        proof {
                            assert forall|x: int| 0 <= x < self.actors@.len() implies
                                #[trigger] self.wired_actor(x) by {
                                assert(m0.wired_actor(x));
                            }
                            assert forall|x: int| 0 <= x < self.actors@.len() implies (
                            #[trigger] self.actors@[x]).rates_ok() by {
                                assert(m0.actors@[x].rates_ok());
                            }
                            assert(self.inv());
                        }
                        let ghost m1 = *self;
                        self.halt(i, Some(ActorError::NoData));
                        proof {
                            assert(Self::halted(m1, *self, i as int, Some(
                                ActorError::NoData,
                            )));
                            assert(Self::halted(m0, *self, i as int, Some(
                                ActorError::NoData,
                            )));
                            assert(Self::dist_step(m0, *self, i as int));
                        }
                        true
                    },
                }
            } else {
                let n_fan: usize = self.actors[i].outputs[port].channels.len();
                if chan == n_fan {
                    let a = &mut self.actors[i];
                    a.pending = None;
                    a.phase = Phase::Distribute { round, port: port + 1, chan: 0 };
                    proof {
                        let oa = m0.actors@[i as int];
                        let a2 = self.actors@[i as int];
                        assert(a2.inputs == oa.inputs);
                        assert(a2.outputs == oa.outputs);
                        Self::lemma_same_shape_targets(oa, a2);
                        assert(Self::port_split_at(m0.channels@, oa.outputs@[port as int],
                            n_fan as int));
                        assert forall|p2: int| 0 <= p2 < a2.outputs.len() implies
                            Self::port_synced_at(self.channels@, #[trigger] a2.outputs[p2])
                            by {
                            assert(a2.outputs[p2] == oa.outputs[p2]);
                            if p2 == port {
                                let o2 = a2.outputs[p2];
                                assert forall|k2: int| 0 <= k2 < o2.channels.len() implies
                                    self.channels@[#[trigger] o2.channels[k2] as int]
                                    .spec_history() == o2.emitted@ by {
                                    assert(oa.outputs@[port as int].channels[k2]
                                        == o2.channels[k2]);
                                }
                            } else {
                                assert(Self::port_synced_at(m0.channels@, oa.outputs[p2]));
                            }
                        }
                        assert forall|p2: int| 0 <= p2 < a2.outputs.len() implies (
                        #[trigger] a2.outputs[p2]).emitted@.len() == Self::boot_share(
                            a2,
                            p2,
                        ) + oa.cycles@ * (dt as int) + Self::swept(
                            p2,
                            round as int,
                            port as int + 1,
                            false,
                        ) by {
                            assert(a2.outputs[p2] == oa.outputs[p2]);
                            assert(Self::swept(p2, round as int, port as int, true)
                                == Self::swept(p2, round as int, port as int + 1, false));
                        }
                        assert forall|l2: int| 0 <= l2 < a2.inputs.len() implies
                            self.channels@[#[trigger] a2.inputs[l2].channel as int]
                            .spec_received().len() == oa.coll_rounds@ by {
                            assert(a2.inputs[l2] == oa.inputs[l2]);
                        }
                        assert(Self::acc_one(a2, self.channels@));
                        Self::lemma_actor_only_change(m0, *self, i as int);
                        assert(Self::dist_step(m0, *self, i as int));
                    }
                    true
                } else {
                    let c: usize = self.actors[i].outputs[port].channels[chan];
                    proof {
                        assert(self.wired_actor(i as int));
                    }
                    if self.channels[c].rx_closed() || !self.channels[c].rx_attached() {
                        self.halt(i, Some(ActorError::Disconnected(port)));
                        proof {
                            assert(Self::dist_step(m0, *self, i as int));
                        }
                        true
                    } else if self.channels[c].is_full() {
                        proof {
                            assert(Self::blocked(*old(self), i as int));
                        }
                        false
                    } else {
                        let vshare: Arc<P>;
                        match &self.actors[i].pending {
                            Some(d) => {
                                vshare = share(d);
                            },
                            None => {
                                proof {
                                    assert(false);
                                }
                                return false;
                            },
                        }
                        self.channels[c].push(vshare);
                        let a = &mut self.actors[i];
                        a.phase = Phase::Distribute { round, port, chan: chan + 1 };
                        proof {
                            Self::lemma_after_push(m0, *self, i as int, port as int,
                                chan as int, c as int);
                            assert(Self::chan_same_flags(
                                m0.channels@[c as int],
                                self.channels@[c as int],
                            ));
                            assert(Self::dist_step(m0, *self, i as int));
                        }
                        true
                    }
                }
            }
        } else {
            proof {
                assert(false);
            }
            false
        }
    }

    /// Two actors with the same ports and rates share the same round
    /// targets.
    proof fn lemma_same_shape_targets(a1: Actor<P>, a2: Actor<P>)
        requires
            a2.inputs == a1.inputs,
            a2.outputs@.len() == a1.outputs@.len(),
            forall|p: int|
                0 <= p < a1.outputs@.len() ==> (#[trigger] a2.outputs@[p]).bootstrap
                    == a1.outputs@[p].bootstrap,
            a2.ni == a1.ni,
            a2.no == a1.no,
        ensures
            a2.collect_target() == a1.collect_target(),
            a2.dist_target() == a1.dist_target(),
            a2.boot_target() == a1.boot_target(),
    {
        if a1.has_boot_port() {
            let w = choose|q: int| 0 <= q < a1.outputs.len() && a1.outputs[q].bootstrap;
            assert(a2.outputs[w].bootstrap);
        }
        if a2.has_boot_port() {
            let w = choose|q: int| 0 <= q < a2.outputs.len() && a2.outputs[q].bootstrap;
            assert(a1.outputs[w].bootstrap);
        }
    }

    /// Re-establishes the invariant after actor `i` delivered its pending
    /// envelope to consumer `chan` of port `port` over channel `c`: the
    /// delivery front of that port moved one consumer forward.
    proof fn lemma_after_push(m1: Self, m2: Self, i: int, port: int, chan: int, c: int)
        requires
            m1.inv(),
            m1.rates_ok_all(),
            0 <= i < m1.actors@.len(),
            m2.actors@.len() == m1.actors@.len(),
            m2.clients@.len() == m1.clients@.len(),
            m2.channels@.len() == m1.channels@.len(),
            forall|x: int|
                0 <= x < m1.actors@.len() && x != i ==> m2.actors@[x] == m1.actors@[x],
            // the stepped actor only advanced its delivery front
            m2.actors@[i].inputs == m1.actors@[i].inputs,
            m2.actors@[i].outputs == m1.actors@[i].outputs,
            m2.actors@[i].ni == m1.actors@[i].ni,
            m2.actors@[i].no == m1.actors@[i].no,
            m2.actors@[i].pending == m1.actors@[i].pending,
            m2.actors@[i].buf == m1.actors@[i].buf,
            m2.actors@[i].coll_rounds == m1.actors@[i].coll_rounds,
            m2.actors@[i].dist_rounds == m1.actors@[i].dist_rounds,
            m2.actors@[i].boot_rounds == m1.actors@[i].boot_rounds,
            m2.actors@[i].cycles == m1.actors@[i].cycles,
            ({
                ||| (m1.actors@[i].phase matches Phase::Distribute { round, port: p1, chan: c1 }
                    && p1 == port && c1 == chan && m2.actors@[i].phase == (
                Phase::Distribute { round, port: p1, chan: (c1 + 1) as usize }))
                ||| (m1.actors@[i].phase matches Phase::Boot { round, port: p1, chan: c1 }
                    && p1 == port && c1 == chan && m2.actors@[i].phase == (
                Phase::Boot { round, port: p1, chan: (c1 + 1) as usize }))
            }),
            m1.actors@[i].pending is Some,
            0 <= port < m1.actors@[i].outputs.len(),
            0 <= chan < m1.actors@[i].outputs[port].channels.len(),
            c == m1.actors@[i].outputs[port].channels[chan] as int,
            // the channel took exactly the pending envelope
            m2.channels@[c].wf(),
            m2.channels@[c].spec_history() == m1.channels@[c].spec_history().push(
                m1.actors@[i].pending.unwrap(),
            ),
            m2.channels@[c].spec_received() == m1.channels@[c].spec_received(),
            m2.channels@[c].spec_producer() == m1.channels@[c].spec_producer(),
            m2.channels@[c].spec_consumer() == m1.channels@[c].spec_consumer(),
            forall|x: int|
                0 <= x < m1.channels@.len() && x != c ==> m2.channels@[x] == m1.channels@[x],
        ensures
            m2.inv(),
            m2.rates_ok_all(),
    {
        assert(Self::acc_one(m1.actors@[i], m1.channels@));
        assert forall|x: int| 0 <= x < m2.actors@.len() implies #[trigger] m2.wired_actor(
            x,
        ) by {
            assert(m1.wired_actor(x));
            if x != i {
                assert(m2.actors@[x] == m1.actors@[x]);
            }
        }
        assert forall|c2: int| 0 <= c2 < m2.channels@.len() implies (
        #[trigger] m2.channels@[c2]).wf() by {
            if c2 != c {
                assert(m2.channels@[c2] == m1.channels@[c2]);
            }
        }
        assert forall|x: int| 0 <= x < m2.actors@.len() implies (
        #[trigger] m2.actors@[x]).rates_ok() by {
            assert(m1.actors@[x].rates_ok());
            if x != i {
                assert(m2.actors@[x] == m1.actors@[x]);
            }
        }
        assert forall|i2: int, p2: int, k2: int|
            0 <= i2 < m2.actors@.len() && 0 <= p2 < m2.actors@[i2].outputs.len() && 0 <= k2
                < m2.actors@[i2].outputs[p2].channels.len()
            implies m2.channels@[
                #[trigger] m2.actors@[i2].outputs[p2].channels[k2] as int
            ].spec_producer() == Some((i2, p2, k2)) by {
            assert(m2.actors@[i2].outputs == m1.actors@[i2].outputs);
            assert(m1.wired_actor(i2));
            let c2 = m2.actors@[i2].outputs[p2].channels[k2] as int;
            if c2 != c {
                assert(m2.channels@[c2] == m1.channels@[c2]);
            }
        }
        assert forall|i2: int, l2: int|
            0 <= i2 < m2.actors@.len() && 0 <= l2 < m2.actors@[i2].inputs.len()
            implies m2.channels@[
                #[trigger] m2.actors@[i2].inputs[l2].channel as int
            ].spec_consumer() == Some((i2, l2)) by {
            assert(m2.actors@[i2].inputs == m1.actors@[i2].inputs);
            assert(m1.wired_actor(i2));
            let c2 = m2.actors@[i2].inputs[l2].channel as int;
            if c2 != c {
                assert(m2.channels@[c2] == m1.channels@[c2]);
            }
        }
        assert forall|x: int| 0 <= x < m2.actors@.len() implies Self::acc_one(
            #[trigger] m2.actors@[x],
            m2.channels@,
        ) by {
            assert(m1.wired_actor(x));
            if x != i {
                assert(m2.actors@[x] == m1.actors@[x]);
                assert(Self::acc_one(m1.actors@[x], m1.channels@));
                assert forall|l2: int| 0 <= l2 < m2.actors@[x].inputs.len() implies {
                    let c2 = (#[trigger] m2.actors@[x].inputs[l2]).channel as int;
                    m2.channels@[c2].spec_received() == m1.channels@[c2].spec_received()
                } by {
                    let c2 = m2.actors@[x].inputs[l2].channel as int;
                    if c2 != c {
                        assert(m2.channels@[c2] == m1.channels@[c2]);
                    }
                }
                assert forall|p2: int, k2: int|
                    0 <= p2 < m2.actors@[x].outputs.len() && 0 <= k2
                        < m2.actors@[x].outputs[p2].channels.len()
                implies {
                    let c2 = (#[trigger] m2.actors@[x].outputs[p2].channels[k2]) as int;
                    m2.channels@[c2].spec_history() == m1.channels@[c2].spec_history()
                } by {
                    let c2 = m2.actors@[x].outputs[p2].channels[k2] as int;
                    if c2 == c {
                        assert(m1.channels@[c2].spec_producer() == Some((x, p2, k2)));
                        assert(m1.channels@[c].spec_producer() == Some((i, port, chan)));
                        assert(false);
                    } else {
                        assert(m2.channels@[c2] == m1.channels@[c2]);
                    }
                }
                Self::lemma_acc_frame(m2.actors@[x], m1.channels@, m2.channels@);
            } else {
                let a1 = m1.actors@[x];
                let a2 = m2.actors@[x];
                let e = a1.outputs[port].emitted@;
                let v = a1.pending.unwrap();
                assert(v == e.last());
                assert(e.drop_last().push(e.last()) =~= e);
                assert(Self::port_split_at(m1.channels@, a1.outputs[port], chan));
                assert forall|l2: int| 0 <= l2 < a2.inputs.len() implies {
                    let c2 = (#[trigger] a2.inputs[l2]).channel as int;
                    m2.channels@[c2].spec_received() == m1.channels@[c2].spec_received()
                } by {
                    let c2 = a2.inputs[l2].channel as int;
                    if c2 != c {
                        assert(m2.channels@[c2] == m1.channels@[c2]);
                    }
                }
                assert forall|p2: int|
                    0 <= p2 < a2.outputs.len() && p2 != port implies Self::port_synced_at(
                    m2.channels@,
                    #[trigger] a2.outputs[p2],
                ) by {
                    assert(a2.outputs[p2] == a1.outputs[p2]);
                    assert(Self::port_synced_at(m1.channels@, a1.outputs[p2]));
                    let o = a2.outputs[p2];
                    assert forall|k2: int| 0 <= k2 < o.channels.len() implies m2.channels@[
                        #[trigger] o.channels[k2] as int].spec_history() == o.emitted@ by {
                        let c2 = o.channels[k2] as int;
                        if c2 == c {
                            assert(m1.channels@[c2].spec_producer() == Some((x, p2, k2)));
                            assert(m1.channels@[c].spec_producer() == Some((
                                i,
                                port,
                                chan,
                            )));
                            assert(false);
                        } else {
                            assert(m2.channels@[c2] == m1.channels@[c2]);
                        }
                    }
                }
                assert(Self::port_split_at(m2.channels@, a2.outputs[port], chan + 1)) by {
                    let o = a2.outputs[port];
                    assert forall|k2: int| 0 <= k2 < chan + 1 implies m2.channels@[
                        #[trigger] o.channels[k2] as int].spec_history() == o.emitted@ by {
                        let c2 = o.channels[k2] as int;
                        if k2 == chan {
                            assert(c2 == c);
                            assert(m1.channels@[c].spec_history() == e.drop_last());
                        } else {
                            if c2 == c {
                                assert(m1.channels@[c2].spec_producer() == Some((
                                    x,
                                    port,
                                    k2,
                                )));
                                assert(m1.channels@[c].spec_producer() == Some((
                                    i,
                                    port,
                                    chan,
                                )));
                                assert(false);
                            }
                            assert(m2.channels@[c2] == m1.channels@[c2]);
                        }
                    }
                    assert forall|k2: int| chan + 1 <= k2 < o.channels.len() implies
                        m2.channels@[#[trigger] o.channels[k2] as int].spec_history()
                        == o.emitted@.drop_last() by {
                        let c2 = o.channels[k2] as int;
                        if c2 == c {
                            assert(m1.channels@[c2].spec_producer() == Some((x, port, k2)));
                            assert(m1.channels@[c].spec_producer() == Some((
                                i,
                                port,
                                chan,
                            )));
                            assert(false);
                        }
                        assert(m2.channels@[c2] == m1.channels@[c2]);
                    }
                }
                assert(Self::acc_one(a2, m2.channels@));
            }
        }
    }

    /// One micro-step of actor `i` in its bootstrap prologue: fire the
    /// next flagged output, skip the others, and enter the normal loop
    /// once every prologue round is done.
    fn step_boot(&mut self, i: usize) -> (progress: bool)
        requires
            old(self).inv(),
            old(self).rates_ok_all(),
            i < old(self).actors@.len(),
            old(self).actors@[i as int].phase is Boot,
        ensures
            final(self).inv(),
            final(self).rates_ok_all(),
            final(self).actors@.len() == old(self).actors@.len(),
            final(self).channels@.len() == old(self).channels@.len(),
            final(self).tag == old(self).tag,
            progress ==> Self::boot_step(*old(self), *final(self), i as int),
            !progress ==> *final(self) == *old(self) && Self::blocked(*old(self), i as int),
    {
        let ph: Phase = self.actors[i].phase;
        if let Phase::Boot { round, port, chan } = ph {
            let ghost m0 = *self;
            let (ct, dt, bt) = self.targets(i);
            proof {
                assert(Self::acc_one(self.actors@[i as int], self.channels@));
                assert(self.actors@[i as int].rates_ok());
            }
            let n_out: usize = self.actors[i].outputs.len();
            if bt == 0 {
                let a = &mut self.actors[i];
                a.phase = Phase::Gather { k: 0, j: 0 };
                proof {
                    let oa = m0.actors@[i as int];
                    let a2 = self.actors@[i as int];
                    assert(a2.outputs == oa.outputs);
                    Self::lemma_same_shape_targets(oa, a2);
                    assert forall|p2: int| 0 <= p2 < a2.outputs.len() implies
                        Self::port_synced_at(self.channels@, #[trigger] a2.outputs[p2]) by {
                        assert(Self::port_synced_at(m0.channels@, oa.outputs[p2]));
                    }
                    if a2.inputs.len() > 0 && a2.outputs.len() > 0 {
                        if a2.no >= a2.ni {
                            assert(a2.no as int / a2.ni as int >= 1) by (nonlinear_arith)
                                requires
                                    a2.ni >= 1,
                                    a2.no >= a2.ni,
                            ;
                        } else {
                            assert(a2.ni as int / a2.no as int >= 1) by (nonlinear_arith)
                                requires
                                    a2.no >= 1,
                                    a2.ni >= a2.no,
                            ;
                        }
                    }
                    assert(Self::acc_one(a2, self.channels@));
                    Self::lemma_actor_only_change(m0, *self, i as int);
                    assert(Self::boot_step(m0, *self, i as int));
                }
                true
            } else if port == n_out {
                let a = &mut self.actors[i];
                proof {
                    a.boot_rounds@ = a.boot_rounds@ + 1;
                }
                if round + 1 == bt {
                    a.phase = Phase::Gather { k: 0, j: 0 };
                } else {
                    a.phase = Phase::Boot { round: round + 1, port: 0, chan: 0 };
                }
                proof {
                    let oa = m0.actors@[i as int];
                    let a2 = self.actors@[i as int];
                    assert(a2.outputs == oa.outputs);
                    Self::lemma_same_shape_targets(oa, a2);
                    assert forall|p2: int| 0 <= p2 < a2.outputs.len() implies
                        Self::port_synced_at(self.channels@, #[trigger] a2.outputs[p2]) by {
                        assert(Self::port_synced_at(m0.channels@, oa.outputs[p2]));
                    }
                    assert forall|p2: int| 0 <= p2 < a2.outputs.len() implies (
                    #[trigger] a2.outputs[p2]).emitted@.len() == (if a2.outputs[
                        p2].bootstrap {
                        round + 1int
                    } else {
                        0int
                    }) by {
                        assert(Self::swept(p2, round as int, n_out as int, false) == round
                            + 1);
                    }
                    assert forall|l2: int| 0 <= l2 < a2.inputs.len() implies self.channels@[
                        #[trigger] a2.inputs[l2].channel as int].spec_received().len()
                        == 0 by {
                        assert(a2.inputs[l2] == oa.inputs[l2]);
                    }
                    if a2.inputs.len() > 0 && a2.outputs.len() > 0 {
                        if a2.no >= a2.ni {
                            assert(a2.no as int / a2.ni as int >= 1) by (nonlinear_arith)
                                requires
                                    a2.ni >= 1,
                                    a2.no >= a2.ni,
                            ;
                        } else {
                            assert(a2.ni as int / a2.no as int >= 1) by (nonlinear_arith)
                                requires
                                    a2.no >= 1,
                                    a2.ni >= a2.no,
                            ;
                        }
                    }
                    assert(Self::acc_one(a2, self.channels@));
                    Self::lemma_actor_only_change(m0, *self, i as int);
                    assert(Self::boot_step(m0, *self, i as int));
                }
                true
            } else if self.actors[i].pending.is_none() {
                if !self.actors[i].outputs[port].bootstrap {
                    let a = &mut self.actors[i];
                    a.phase = Phase::Boot { round, port: port + 1, chan: 0 };
                    proof {
                        let oa = m0.actors@[i as int];
                        let a2 = self.actors@[i as int];
                        assert(a2.outputs == oa.outputs);
                        Self::lemma_same_shape_targets(oa, a2);
                        assert forall|p2: int| 0 <= p2 < a2.outputs.len() implies
                            Self::port_synced_at(self.channels@, #[trigger] a2.outputs[p2])
                            by {
                            assert(Self::port_synced_at(m0.channels@, oa.outputs[p2]));
                        }
                        assert forall|p2: int| 0 <= p2 < a2.outputs.len() implies (
                        #[trigger] a2.outputs[p2]).emitted@.len() == (if a2.outputs[
                            p2].bootstrap {
                            Self::swept(p2, round as int, port as int + 1, false)
                        } else {
                            0int
                        }) by {
                            if a2.outputs[p2].bootstrap {
                                assert(Self::swept(p2, round as int, port as int, false)
                                    == Self::swept(p2, round as int, port as int + 1,
                                    false));
                            }
                        }
                        assert forall|l2: int| 0 <= l2 < a2.inputs.len() implies
                            self.channels@[#[trigger] a2.inputs[l2].channel as int]
                            .spec_received().len() == 0 by {
                            assert(a2.inputs[l2] == oa.inputs[l2]);
                        }
                        assert(Self::acc_one(a2, self.channels@));
                        Self::lemma_actor_only_change(m0, *self, i as int);
                        assert(Self::boot_step(m0, *self, i as int));
                    }
                    true
                } else {
                    let w = self.clients[i].write(port);
                    proof {
                        self.log@ = self.log@.push(
                            Event::Write { actor: i as int, port: port as int, answer: w },
                        );
                    }
                    match w {
                        Some(v) => {
                            let a = &mut self.actors[i];
                            let o = &mut a.outputs[port];
                            proof {
                                o.emitted@ = o.emitted@.push(v);
                            }
                            a.pending = Some(v);
                            a.phase = Phase::Boot { round, port, chan: 0 };
                            proof {
                                let oa = m0.actors@[i as int];
                                let a2 = self.actors@[i as int];
                                assert(a2.inputs == oa.inputs);
                                assert(a2.outputs@ =~= oa.outputs@.update(
                                    port as int,
                                    a2.outputs@[port as int],
                                ));
                                assert(a2.outputs@[port as int].channels == oa.outputs@[
                                    port as int].channels);
                                assert(a2.outputs@[port as int].bootstrap == oa.outputs@[
                                    port as int].bootstrap);
                                assert(a2.outputs@[port as int].emitted@ == oa.outputs@[
                                    port as int].emitted@.push(v));
                                Self::lemma_same_shape_targets(oa, a2);
                                assert forall|p2: int|
                                    0 <= p2 < a2.outputs.len() && p2 != port implies
                                    Self::port_synced_at(self.channels@, #[trigger]
                                    a2.outputs[p2]) by {
                                    assert(a2.outputs[p2] == oa.outputs[p2]);
                                    assert(Self::port_synced_at(m0.channels@, oa.outputs[
                                        p2]));
                                }
                                let e2 = a2.outputs@[port as int].emitted@;
                                assert(e2.drop_last() =~= oa.outputs@[port as int]
                                    .emitted@);
                                assert(Self::port_split_at(self.channels@, a2.outputs@[
                                    port as int], 0)) by {
                                    let o2 = a2.outputs@[port as int];
                                    assert forall|k2: int|
                                        0 <= k2 < o2.channels.len() implies self.channels@[
                                        #[trigger] o2.channels[k2] as int].spec_history()
                                        == e2.drop_last() by {
                                        assert(Self::port_synced_at(m0.channels@,
                                            oa.outputs@[port as int]));
                                        assert(oa.outputs@[port as int].channels[k2]
                                            == o2.channels[k2]);
                                    }
                                }
                                assert forall|p2: int| 0 <= p2 < a2.outputs.len() implies (
                                #[trigger] a2.outputs[p2]).emitted@.len() == (if a2.outputs[
                                    p2].bootstrap {
                                    Self::swept(p2, round as int, port as int, true)
                                } else {
                                    0int
                                }) by {
                                    if p2 != port {
                                        assert(a2.outputs[p2] == oa.outputs[p2]);
                                    }
                                }
                                assert forall|l2: int| 0 <= l2 < a2.inputs.len() implies
                                    self.channels@[#[trigger] a2.inputs[l2].channel as int]
                                    .spec_received().len() == 0 by {
                                    assert(a2.inputs[l2] == oa.inputs[l2]);
                                }
                                assert(Self::acc_one(a2, self.channels@));
                                Self::lemma_actor_only_change(m0, *self, i as int);
                                assert(Self::boot_step(m0, *self, i as int));
                            }
                            true
                        },
                        None => {
                            proof {
                                assert forall|x: int|
                                    0 <= x < self.actors@.len() implies #[trigger]
                                    self.wired_actor(x) by {
                                    assert(m0.wired_actor(x));
                                }
                                assert forall|x: int|
                                    0 <= x < self.actors@.len() implies (
                                #[trigger] self.actors@[x]).rates_ok() by {
                                    assert(m0.actors@[x].rates_ok());
                                }
                                assert(self.inv());
                            }
                            let ghost m1 = *self;
                            self.halt(i, Some(ActorError::NoData));
                            proof {
                                assert(Self::halted(m1, *self, i as int, Some(
                                    ActorError::NoData,
                                )));
                                assert(Self::halted(m0, *self, i as int, Some(
                                    ActorError::NoData,
                                )));
                                assert(Self::boot_step(m0, *self, i as int));
                            }
                            true
                        },
                    }
                }
            } else {
                let n_fan: usize = self.actors[i].outputs[port].channels.len();
                if chan == n_fan {
                    let a = &mut self.actors[i];
                    a.pending = None;
                    a.phase = Phase::Boot { round, port: port + 1, chan: 0 };
                    proof {
                        let oa = m0.actors@[i as int];
                        let a2 = self.actors@[i as int];
                        assert(a2.inputs == oa.inputs);
                        assert(a2.outputs == oa.outputs);
                        Self::lemma_same_shape_targets(oa, a2);
                        assert(Self::port_split_at(m0.channels@, oa.outputs@[port as int],
                            n_fan as int));
                        assert forall|p2: int| 0 <= p2 < a2.outputs.len() implies
                            Self::port_synced_at(self.channels@, #[trigger] a2.outputs[p2])
                            by {
                            assert(a2.outputs[p2] == oa.outputs[p2]);
                            if p2 == port {
                                let o2 = a2.outputs[p2];
                                assert forall|k2: int| 0 <= k2 < o2.channels.len() implies
                                    self.channels@[#[trigger] o2.channels[k2] as int]
                                    .spec_history() == o2.emitted@ by {
                                    assert(oa.outputs@[port as int].channels[k2]
                                        == o2.channels[k2]);
                                }
                            } else {
                                assert(Self::port_synced_at(m0.channels@, oa.outputs[p2]));
                            }
                        }
                        assert forall|p2: int| 0 <= p2 < a2.outputs.len() implies (
                        #[trigger] a2.outputs[p2]).emitted@.len() == (if a2.outputs[
                            p2].bootstrap {
                            Self::swept(p2, round as int, port as int + 1, false)
                        } else {
                            0int
                        }) by {
                            assert(a2.outputs[p2] == oa.outputs[p2]);
                            if a2.outputs[p2].bootstrap {
                                assert(Self::swept(p2, round as int, port as int, true)
                                    == Self::swept(p2, round as int, port as int + 1,
                                    false));
                            }
                        }
                        assert forall|l2: int| 0 <= l2 < a2.inputs.len() implies
                            self.channels@[#[trigger] a2.inputs[l2].channel as int]
                            .spec_received().len() == 0 by {
                            assert(a2.inputs[l2] == oa.inputs[l2]);
                        }
                        assert(Self::acc_one(a2, self.channels@));
                        Self::lemma_actor_only_change(m0, *self, i as int);
                        assert(Self::boot_step(m0, *self, i as int));
                    }
                    true
                } else {
                    let c: usize = self.actors[i].outputs[port].channels[chan];
                    proof {
                        assert(self.wired_actor(i as int));
                    }
                    if self.channels[c].rx_closed() || !self.channels[c].rx_attached() {
                        self.halt(i, Some(ActorError::Disconnected(port)));
                        proof {
                            assert(Self::boot_step(m0, *self, i as int));
                        }
                        true
                    } else if self.channels[c].is_full() {
                        proof {
                            assert(Self::blocked(*old(self), i as int));
                        }
                        false
                    } else {
                        let vshare: Arc<P>;
                        match &self.actors[i].pending {
                            Some(d) => {
                                vshare = share(d);
                            },
                            None => {
                                proof {
                                    assert(false);
                                }
                                return false;
                            },
                        }
                        self.channels[c].push(vshare);
                        let a = &mut self.actors[i];
                        a.phase = Phase::Boot { round, port, chan: chan + 1 };
                        proof {
                            Self::lemma_after_push(m0, *self, i as int, port as int,
                                chan as int, c as int);
                            assert(Self::chan_same_flags(
                                m0.channels@[c as int],
                                self.channels@[c as int],
                            ));
                            assert(Self::boot_step(m0, *self, i as int));
                        }
                        true
                    }
                }
            }
        } else {
            proof {
                assert(false);
            }
            false
        }
    }

    /// One micro-step of actor `i`, whatever its phase. Returns whether
    /// anything moved: a finished actor, or one waiting on a full or an
    /// empty channel, reports no progress and leaves the model untouched.
    pub fn step_actor(&mut self, i: usize) -> (progress: bool)
        requires
            old(self).inv(),
            old(self).rates_ok_all(),
            i < old(self).actors@.len(),
        ensures
            final(self).inv(),
            final(self).rates_ok_all(),
            final(self).actors@.len() == old(self).actors@.len(),
            final(self).channels@.len() == old(self).channels@.len(),
            final(self).tag == old(self).tag,
            progress ==> Self::micro_step(*old(self), *final(self), i as int),
            !progress ==> *final(self) == *old(self) && Self::blocked(*old(self), i as int),
    {
        proof {
            reveal(Model::micro_step);
        }
        let ph: Phase = self.actors[i].phase;
        match ph {
            Phase::Boot { .. } => self.step_boot(i),
            Phase::Gather { .. } => self.step_gather(i),
            Phase::Scatter { .. } => {
                self.step_scatter(i);
                true
            },
            Phase::Distribute { .. } => self.step_dist(i),
            Phase::Done => false,
        }
    }

    /// Whether actor `i` has finished its loop.
    pub fn is_done(&self, i: usize) -> (r: bool)
        requires
            i < self.actors@.len(),
        ensures
            r == self.actors@[i as int].is_done(),
    {
        match self.actors[i].phase {
            Phase::Done => true,
            _ => false,
        }
    }

    /// How actor `i`'s loop ended: `None` while it runs or after an
    /// orderly exit, the first error otherwise.
    pub fn outcome(&self, i: usize) -> (r: &Option<ActorError>)
        requires
            i < self.actors@.len(),
        ensures
            r == self.actors@[i as int].outcome,
    {
        &self.actors[i].outcome
    }

    /// Between the topology check and the sweeps, the scheduler closes
    /// the consumer end of every channel that never got one, so producers
    /// see the missing receiver instead of waiting forever; nothing else
    /// moves.
    pub open spec fn sealed(m1: Self, m2: Self) -> bool {
        &&& m2.actors == m1.actors
        &&& m2.clients == m1.clients
        &&& m2.tag == m1.tag
        &&& m2.log == m1.log
        &&& m2.channels@.len() == m1.channels@.len()
        &&& forall|c: int|
            0 <= c < m1.channels@.len() ==> {
                &&& (#[trigger] m2.channels@[c]).spec_history() == m1.channels@[
                    c].spec_history()
                &&& m2.channels@[c].spec_queue() == m1.channels@[c].spec_queue()
                &&& m2.channels@[c].spec_capacity() == m1.channels@[c].spec_capacity()
                &&& m2.channels@[c].spec_tx_closed() == m1.channels@[c].spec_tx_closed()
                &&& m2.channels@[c].spec_rx_attached() == m1.channels@[c].spec_rx_attached()
                &&& m2.channels@[c].spec_producer() == m1.channels@[c].spec_producer()
                &&& m2.channels@[c].spec_consumer() == m1.channels@[c].spec_consumer()
                &&& m2.channels@[c].spec_rx_closed() == (m1.channels@[c].spec_rx_closed()
                    || !m1.channels@[c].spec_rx_attached())
            }
    }

    /// Consecutive states of the trace are joined by micro-steps of some
    /// actor.
    pub open spec fn evolves(tr: Seq<Self>) -> bool {
        forall|t: int|
            #![trigger tr[t]]
            0 <= t < tr.len() - 1 ==> exists|i: int|
                0 <= i < tr[t].actors@.len() && #[trigger] Self::micro_step(
                    tr[t],
                    tr[t + 1],
                    i,
                )
    }

    /// `m2` is reached from `m1` by zero or more micro-steps.
    pub open spec fn reaches(m1: Self, m2: Self) -> bool {
        exists|tr: Seq<Self>|
            tr.len() >= 1 && tr[0] == m1 && tr.last() == m2 && #[trigger] Self::evolves(tr)
    }

    /// A state reaches itself by the empty run of micro-steps.
    pub proof fn lemma_reaches_refl(m: Self)
        ensures
            Self::reaches(m, m),
    {
        let tr = seq![m];
        assert(tr.len() >= 1 && tr[0] == m && tr.last() == m);
        assert(Self::evolves(tr));
    }

    /// One more micro-step extends a run.
    #[verifier::rlimit(100)]
    pub proof fn lemma_reaches_step(m1: Self, m2: Self, m3: Self, i: int)
        requires
            Self::reaches(m1, m2),
            0 <= i < m2.actors@.len(),
            Self::micro_step(m2, m3, i),
        ensures
            Self::reaches(m1, m3),
    {
        let tr = choose|tr: Seq<Self>|
            tr.len() >= 1 && tr[0] == m1 && tr.last() == m2 && #[trigger] Self::evolves(tr);
        let tr2 = tr.push(m3);
        assert forall|t: int| #![trigger tr2[t]] 0 <= t < tr2.len() - 1 implies exists|
            x: int,
        |
            0 <= x < tr2[t].actors@.len() && #[trigger] Self::micro_step(
                tr2[t],
                tr2[t + 1],
                x,
            ) by {
            if t < tr.len() - 1 {
                assert(tr2[t] == tr[t]);
                assert(tr2[t + 1] == tr[t + 1]);
                let x = choose|x: int|
                    0 <= x < tr[t].actors@.len() && #[trigger] Self::micro_step(
                        tr[t],
                        tr[t + 1],
                        x,
                    );
                assert(Self::micro_step(tr2[t], tr2[t + 1], x));
            } else {
                assert(tr2[t] == m2);
                assert(tr2[t + 1] == m3);
                assert(Self::micro_step(tr2[t], tr2[t + 1], i));
            }
        }
        assert(tr2.len() >= 1 && tr2[0] == m1 && tr2.last() == m3 && Self::evolves(tr2));
    }

    /// Validates the topology, then interleaves all actors until every
    /// one has finished. Progress is deterministic: each sweep offers one
    /// micro-step to each actor in index order, so the final state is
    /// reached from the checked and sealed initial state by micro-steps
    /// alone. A sweep in which nothing moves while some actor still runs
    /// means the graph cannot advance — every actor is blocked — and is
    /// reported as a stall; a run that outlives `max_sweeps` sweeps is
    /// reported as incomplete. Errors from `check` are returned before
    /// anything runs.
    #[verifier::loop_isolation(false)]
    #[verifier::rlimit(100)]
    pub fn run(&mut self, max_sweeps: usize) -> (r: Result<(), ActorError>)
        requires
            old(self).inv(),
        ensures
            final(self).inv(),
            r is Ok ==> forall|x: int|
                0 <= x < final(self).actors@.len() ==> (
                #[trigger] final(self).actors@[x]).is_done(),
            (r is Ok || r matches Err(ActorError::Stalled) || r matches Err(
                ActorError::Incomplete,
            )) ==> {
                &&& Self::check_result(old(self).actors@, Ok(()))
                &&& exists|mid: Self|
                    Self::sealed(*old(self), mid) && #[trigger] Self::reaches(
                        mid,
                        *final(self),
                    )
            },
            r matches Err(ActorError::Stalled) ==> forall|x: int|
                0 <= x < final(self).actors@.len() ==> Self::blocked(*final(self), x),
            !(r matches Err(ActorError::Stalled)) && !(r matches Err(
                ActorError::Incomplete,
            )) && r is Err ==> *final(self) == *old(self) && Self::check_result(
                old(self).actors@,
                Err(r->Err_0),
            ),
    {
        let checked = self.check();
        if let Err(e) = checked {
            proof {
                assert(!(e is Stalled) && !(e is Incomplete));
            }
            return Err(e);
        }
        // mark channels that never got a consumer, so their producers see
        // the missing receiver instead of waiting forever
        let n_chan: usize = self.channels.len();
        let mut c: usize = 0;
        while c < n_chan
            invariant
                self.inv(),
                self.rates_ok_all(),
                c <= n_chan,
                n_chan == self.channels@.len(),
                self.actors == old(self).actors,
                self.clients == old(self).clients,
                self.tag == old(self).tag,
                self.log == old(self).log,
                forall|x: int|
                    0 <= x < n_chan ==> {
                        &&& (#[trigger] self.channels@[x]).spec_history() == old(
                            self,
                        ).channels@[x].spec_history()
                        &&& self.channels@[x].spec_queue() == old(self).channels@[
                            x].spec_queue()
                        &&& self.channels@[x].spec_capacity() == old(self).channels@[
                            x].spec_capacity()
                        &&& self.channels@[x].spec_tx_closed() == old(self).channels@[
                            x].spec_tx_closed()
                        &&& self.channels@[x].spec_rx_attached() == old(self).channels@[
                            x].spec_rx_attached()
                        &&& self.channels@[x].spec_producer() == old(self).channels@[
                            x].spec_producer()
                        &&& self.channels@[x].spec_consumer() == old(self).channels@[
                            x].spec_consumer()
                        &&& self.channels@[x].spec_rx_closed() == (if x < c {
                            old(self).channels@[x].spec_rx_closed() || !old(
                                self,
                            ).channels@[x].spec_rx_attached()
                        } else {
                            old(self).channels@[x].spec_rx_closed()
                        })
                    },
            decreases n_chan - c,
        {
            let ghost mid = *self;
            if !self.channels[c].rx_attached() {
                self.channels[c].close_rx();
                proof {
                    Self::lemma_one_channel_flags(mid, *self, c as int);
                }
            }
            c = c + 1;
        }
        proof {
            assert(Self::sealed(*old(self), *self));
        }
        let ghost m_sealed = *self;
        proof {
            Self::lemma_reaches_refl(m_sealed);
        }
        let n: usize = self.actors.len();
        let mut sweeps: usize = 0;
        while sweeps < max_sweeps
            invariant
                self.inv(),
                self.rates_ok_all(),
                n == self.actors@.len(),
                sweeps <= max_sweeps,
                Self::sealed(*old(self), m_sealed),
                Self::reaches(m_sealed, *self),
            decreases max_sweeps - sweeps,
        {
            let ghost m_sweep = *self;
            let mut moved: bool = false;
            let mut i: usize = 0;
            while i < n
                invariant
                    self.inv(),
                    self.rates_ok_all(),
                    n == self.actors@.len(),
                    i <= n,
                    Self::reaches(m_sealed, *self),
                    !moved ==> *self == m_sweep && forall|y: int|
                        0 <= y < i ==> Self::blocked(*self, y),
                decreases n - i,
            {
                if !self.is_done(i) {
                    let ghost pre = *self;
                    let p = self.step_actor(i);
                    if p {
                        moved = true;
                        proof {
                            Self::lemma_reaches_step(m_sealed, pre, *self, i as int);
                        }
                    }
                } else {
                    proof {
                        assert(Self::blocked(*self, i as int));
                    }
                }
                i = i + 1;
            }
            let mut all: bool = true;
            let mut x: usize = 0;
            while x < n
                invariant
                    self.inv(),
                    self.rates_ok_all(),
                    n == self.actors@.len(),
                    x <= n,
                    all == forall|y: int|
                        0 <= y < x ==> (#[trigger] self.actors@[y]).is_done(),
                decreases n - x,
            {
                if !self.is_done(x) {
                    all = false;
                }
                x = x + 1;
            }
            if all {
                proof {
                    assert(Self::sealed(*old(self), m_sealed) && Self::reaches(
                        m_sealed,
                        *self,
                    ));
                }
                return Ok(());
            }
            if !moved {
                proof {
                    assert(Self::sealed(*old(self), m_sealed) && Self::reaches(
                        m_sealed,
                        *self,
                    ));
                }
                return Err(ActorError::Stalled);
            }
            sweeps = sweeps + 1;
        }
        proof {
            assert(Self::sealed(*old(self), m_sealed) && Self::reaches(m_sealed, *self));
        }
        Err(ActorError::Incomplete)
    }

    /// Whether an outcome belongs to the orderly shutdown cascade: the
    /// ends of stream that a finite run produces on purpose.
    pub open spec fn orderly(e: ActorError) -> bool {
        match e {
            ActorError::NoData => true,
            ActorError::DropRecv => true,
            ActorError::DropSend => true,
            ActorError::Disconnected(_) => true,
            _ => false,
        }
    }

    /// The first actor from `k` on whose outcome is not orderly.
    pub open spec fn first_fault_from(actors: Seq<Actor<P>>, k: int) -> Option<int>
        decreases actors.len() - k,
    {
        if k < 0 || k >= actors.len() {
            None
        } else {
            match actors[k].outcome {
                Some(e) => if !Self::orderly(e) {
                    Some(k)
                } else {
                    Self::first_fault_from(actors, k + 1)
                },
                None => Self::first_fault_from(actors, k + 1),
            }
        }
    }

    /// The textual name of actor `i` in the flowchart: its tag, or its
    /// index.
    pub open spec fn spec_actor_name(a: Actor<P>, i: int) -> Seq<char> {
        match a.tag {
            Some(t) => t@,
            None => seq!['a', 'c', 't', 'o', 'r', ' '] + spec_decimal(i),
        }
    }

    /// One node line: the actor's name and its two rates.
    pub open spec fn spec_node_line(a: Actor<P>, i: int) -> Seq<char> {
        seq!['n', 'o', 'd', 'e', ' '] + Self::spec_actor_name(a, i) + seq![' ', 'n', 'i', ' ']
            + spec_decimal(a.ni as int) + seq![' ', 'n', 'o', ' '] + spec_decimal(a.no as int)
            + seq!['\n']
    }

    /// One outgoing edge line: the producer's name, the port, the channel
    /// it feeds, that channel's capacity, and the bootstrap flag.
    pub open spec fn spec_out_edge(
        a: Actor<P>,
        channels: Seq<Channel<P>>,
        i: int,
        p: int,
        k: int,
    ) -> Seq<char> {
        let c = a.outputs[p].channels[k] as int;
        seq!['e', 'd', 'g', 'e', ' '] + Self::spec_actor_name(a, i) + seq![
            ' ',
            'p',
            'o',
            'r',
            't',
            ' ',
        ] + spec_decimal(p) + seq![' ', 'c', 'h', 'a', 'n', ' '] + spec_decimal(c) + seq![
            ' ',
            'c',
            'a',
            'p',
            ' ',
        ] + spec_decimal(channels[c].spec_capacity() as int) + (if a.outputs[p].bootstrap {
            seq![' ', 'b', 'o', 'o', 't']
        } else {
            Seq::<char>::empty()
        }) + seq!['\n']
    }

    /// One incoming edge line: the channel and the consumer's name and
    /// input slot.
    pub open spec fn spec_in_edge(a: Actor<P>, i: int, l: int) -> Seq<char> {
        seq!['e', 'd', 'g', 'e', ' ', 'c', 'h', 'a', 'n', ' '] + spec_decimal(
            a.inputs[l].channel as int,
        ) + seq![' ', 'i', 'n', 't', 'o', ' '] + Self::spec_actor_name(a, i) + seq![
            ' ',
            's',
            'l',
            'o',
            't',
            ' ',
        ] + spec_decimal(l) + seq!['\n']
    }

    /// The outgoing edge lines of port `p`, fan-out slots below `k`.
    pub open spec fn spec_out_fan_upto(
        a: Actor<P>,
        channels: Seq<Channel<P>>,
        i: int,
        p: int,
        k: int,
    ) -> Seq<char>
        decreases k,
    {
        if k <= 0 {
            Seq::empty()
        } else {
            Self::spec_out_fan_upto(a, channels, i, p, k - 1) + Self::spec_out_edge(
                a,
                channels,
                i,
                p,
                k - 1,
            )
        }
    }

    /// The outgoing edge lines of the ports below `p`.
    pub open spec fn spec_out_ports_upto(
        a: Actor<P>,
        channels: Seq<Channel<P>>,
        i: int,
        p: int,
    ) -> Seq<char>
        decreases p,
    {
        if p <= 0 {
            Seq::empty()
        } else {
            Self::spec_out_ports_upto(a, channels, i, p - 1) + Self::spec_out_fan_upto(
                a,
                channels,
                i,
                p - 1,
                a.outputs[p - 1].channels.len() as int,
            )
        }
    }

    /// The incoming edge lines of the inputs below `l`.
    pub open spec fn spec_in_upto(a: Actor<P>, i: int, l: int) -> Seq<char>
        decreases l,
    {
        if l <= 0 {
            Seq::empty()
        } else {
            Self::spec_in_upto(a, i, l - 1) + Self::spec_in_edge(a, i, l - 1)
        }
    }

    /// Everything the flowchart says about one actor: its node line, then
    /// its outgoing edges, then its incoming edges.
    pub open spec fn spec_actor_block(a: Actor<P>, channels: Seq<Channel<P>>, i: int) -> Seq<
        char,
    > {
        Self::spec_node_line(a, i) + Self::spec_out_ports_upto(
            a,
            channels,
            i,
            a.outputs.len() as int,
        ) + Self::spec_in_upto(a, i, a.inputs.len() as int)
    }

    /// The blocks of the actors below `i`, in index order.
    pub open spec fn spec_blocks_upto(
        actors: Seq<Actor<P>>,
        channels: Seq<Channel<P>>,
        i: int,
    ) -> Seq<char>
        decreases i,
    {
        if i <= 0 {
            Seq::empty()
        } else {
            Self::spec_blocks_upto(actors, channels, i - 1) + Self::spec_actor_block(
                actors[i - 1],
                channels,
                i - 1,
            )
        }
    }

    /// The whole flowchart: a header with the model's name, then one
    /// block per actor.
    pub open spec fn spec_flowchart(m: Self) -> Seq<char> {
        seq!['f', 'l', 'o', 'w', 'c', 'h', 'a', 'r', 't', ' '] + (match m.tag {
            Some(t) => t@,
            None => seq!['m', 'o', 'd', 'e', 'l'],
        }) + seq!['\n'] + Self::spec_blocks_upto(m.actors@, m.channels@, m.actors@.len() as int)
    }

    /// Appends actor `i`'s flowchart name to `out`.
    fn push_name(&self, out: &mut String, i: usize)
        requires
            i < self.actors@.len(),
        ensures
            final(out)@ == old(out)@ + Self::spec_actor_name(self.actors@[i as int], i as int),
    {
        match &self.actors[i].tag {
            Some(t) => {
                out.append(t.as_str());
            },
            None => {
                out.append("actor ");
                let d = decimal(i);
                out.append(d.as_str());
                proof {
                    reveal_strlit("actor ");
                    assert("actor "@ =~= seq!['a', 'c', 't', 'o', 'r', ' ']);
                    assert(out@ =~= old(out)@ + Self::spec_actor_name(
                        self.actors@[i as int],
                        i as int,
                    ));
                }
            },
        }
    }

    /// Appends actor `i`'s node line to `out`.
    fn push_node_line(&self, out: &mut String, i: usize)
        requires
            i < self.actors@.len(),
        ensures
            final(out)@ == old(out)@ + Self::spec_node_line(self.actors@[i as int], i as int),
    {
        proof {
            reveal_strlit("node ");
            reveal_strlit(" ni ");
            reveal_strlit(" no ");
            reveal_strlit("\n");
            assert("node "@ =~= seq!['n', 'o', 'd', 'e', ' ']);
            assert(" ni "@ =~= seq![' ', 'n', 'i', ' ']);
            assert(" no "@ =~= seq![' ', 'n', 'o', ' ']);
            assert("\n"@ =~= seq!['\n']);
        }
        out.append("node ");
        self.push_name(out, i);
        out.append(" ni ");
        let d = decimal(self.actors[i].ni);
        out.append(d.as_str());
        out.append(" no ");
        let d = decimal(self.actors[i].no);
        out.append(d.as_str());
        out.append("\n");
        proof {
            assert(out@ =~= old(out)@ + Self::spec_node_line(
                self.actors@[i as int],
                i as int,
            ));
        }
    }

    /// Appends the edge line of fan-out slot `k` of output `p` of actor
    /// `i` to `out`.
    fn push_out_edge(&self, out: &mut String, i: usize, p: usize, k: usize)
        requires
            self.wf(),
            i < self.actors@.len(),
            p < self.actors@[i as int].outputs@.len(),
            k < self.actors@[i as int].outputs@[p as int].channels@.len(),
        ensures
            final(out)@ == old(out)@ + Self::spec_out_edge(
                self.actors@[i as int],
                self.channels@,
                i as int,
                p as int,
                k as int,
            ),
    {
        proof {
            reveal_strlit("edge ");
            reveal_strlit(" port ");
            reveal_strlit(" chan ");
            reveal_strlit(" cap ");
            reveal_strlit(" boot");
            reveal_strlit("\n");
            assert("edge "@ =~= seq!['e', 'd', 'g', 'e', ' ']);
            assert(" port "@ =~= seq![' ', 'p', 'o', 'r', 't', ' ']);
            assert(" chan "@ =~= seq![' ', 'c', 'h', 'a', 'n', ' ']);
            assert(" cap "@ =~= seq![' ', 'c', 'a', 'p', ' ']);
            assert(" boot"@ =~= seq![' ', 'b', 'o', 'o', 't']);
            assert("\n"@ =~= seq!['\n']);
            assert(self.wired_actor(i as int));
        }
        let c: usize = self.actors[i].outputs[p].channels[k];
        out.append("edge ");
        self.push_name(out, i);
        out.append(" port ");
        let d = decimal(p);
        out.append(d.as_str());
        out.append(" chan ");
        let d = decimal(c);
        out.append(d.as_str());
        out.append(" cap ");
        let d = decimal(self.channels[c].capacity());
        out.append(d.as_str());
        if self.actors[i].outputs[p].bootstrap {
            out.append(" boot");
        }
        out.append("\n");
        proof {
            assert(out@ =~= old(out)@ + Self::spec_out_edge(
                self.actors@[i as int],
                self.channels@,
                i as int,
                p as int,
                k as int,
            ));
        }
    }

    /// Appends the edge line of input `l` of actor `i` to `out`.
    fn push_in_edge(&self, out: &mut String, i: usize, l: usize)
        requires
            i < self.actors@.len(),
            l < self.actors@[i as int].inputs@.len(),
        ensures
            final(out)@ == old(out)@ + Self::spec_in_edge(
                self.actors@[i as int],
                i as int,
                l as int,
            ),
    {
        proof {
            reveal_strlit("edge chan ");
            reveal_strlit(" into ");
            reveal_strlit(" slot ");
            reveal_strlit("\n");
            assert("edge chan "@ =~= seq!['e', 'd', 'g', 'e', ' ', 'c', 'h', 'a', 'n', ' ']);
            assert(" into "@ =~= seq![' ', 'i', 'n', 't', 'o', ' ']);
            assert(" slot "@ =~= seq![' ', 's', 'l', 'o', 't', ' ']);
            assert("\n"@ =~= seq!['\n']);
        }
        out.append("edge chan ");
        let d = decimal(self.actors[i].inputs[l].channel);
        out.append(d.as_str());
        out.append(" into ");
        self.push_name(out, i);
        out.append(" slot ");
        let d = decimal(l);
        out.append(d.as_str());
        out.append("\n");
        proof {
            assert(out@ =~= old(out)@ + Self::spec_in_edge(
                self.actors@[i as int],
                i as int,
                l as int,
            ));
        }
    }

    /// Appends everything the flowchart says about actor `i` to `out`.
    #[verifier::loop_isolation(false)]
    fn push_actor_block(&self, out: &mut String, i: usize)
        requires
            self.wf(),
            i < self.actors@.len(),
        ensures
            final(out)@ == old(out)@ + Self::spec_actor_block(
                self.actors@[i as int],
                self.channels@,
                i as int,
            ),
    {
        self.push_node_line(out, i);
        let ghost at_ports = out@;
        let n_out: usize = self.actors[i].outputs.len();
        let mut p: usize = 0;
        while p < n_out
            invariant
                p <= n_out,
                out@ == at_ports + Self::spec_out_ports_upto(
                    self.actors@[i as int],
                    self.channels@,
                    i as int,
                    p as int,
                ),
            decreases n_out - p,
        {
            let ghost at_fan = out@;
            let n_fan: usize = self.actors[i].outputs[p].channels.len();
            let mut k: usize = 0;
            while k < n_fan
                invariant
                    k <= n_fan,
                    out@ == at_fan + Self::spec_out_fan_upto(
                        self.actors@[i as int],
                        self.channels@,
                        i as int,
                        p as int,
                        k as int,
                    ),
                decreases n_fan - k,
            {
                self.push_out_edge(out, i, p, k);
                k = k + 1;
            }
            proof {
                assert(out@ =~= at_ports + Self::spec_out_ports_upto(
                    self.actors@[i as int],
                    self.channels@,
                    i as int,
                    p as int + 1,
                ));
            }
            p = p + 1;
        }
        let ghost at_ins = out@;
        let n_in: usize = self.actors[i].inputs.len();
        let mut l: usize = 0;
        while l < n_in
            invariant
                l <= n_in,
                out@ == at_ins + Self::spec_in_upto(
                    self.actors@[i as int],
                    i as int,
                    l as int,
                ),
            decreases n_in - l,
        {
            self.push_in_edge(out, i, l);
            l = l + 1;
        }
        proof {
            assert(out@ =~= old(out)@ + Self::spec_actor_block(
                self.actors@[i as int],
                self.channels@,
                i as int,
            ));
        }
    }

    /// Renders the model as a textual graph for diagnostics: one node
    /// line per actor with its name and rates, one edge line per fan-out
    /// channel with its capacity and bootstrap flag, and one edge line
    /// per consumed channel, all in index order.
    #[verifier::loop_isolation(false)]
    pub fn flowchart(&self) -> (r: String)
        requires
            self.wf(),
        ensures
            r@ == Self::spec_flowchart(*self),
    {
        let mut out = String::from_str("flowchart ");
        proof {
            reveal_strlit("flowchart ");
            assert(out@ =~= seq!['f', 'l', 'o', 'w', 'c', 'h', 'a', 'r', 't', ' ']);
        }
        match &self.tag {
            Some(t) => {
                out.append(t.as_str());
            },
            None => {
                out.append("model");
                proof {
                    reveal_strlit("model");
                    assert("model"@ =~= seq!['m', 'o', 'd', 'e', 'l']);
                }
            },
        }
        out.append("\n");
        proof {
            reveal_strlit("\n");
            assert("\n"@ =~= seq!['\n']);
        }
        let ghost header = out@;
        let n: usize = self.actors.len();
        let mut i: usize = 0;
        while i < n
            invariant
                i <= n,
                out@ == header + Self::spec_blocks_upto(self.actors@, self.channels@, i as int),
            decreases n - i,
        {
            self.push_actor_block(&mut out, i);
            proof {
                assert(out@ =~= header + Self::spec_blocks_upto(
                    self.actors@,
                    self.channels@,
                    i as int + 1,
                ));
            }
            i = i + 1;
        }
        proof {
            assert(out@ =~= Self::spec_flowchart(*self));
        }
        out
    }

    /// Joins the outcomes after a run: orderly ends of stream count as
    /// success; the first other error surfaces.
    pub fn wait(&self) -> (r: Result<(), ActorError>)
        ensures
            match Self::first_fault_from(self.actors@, 0) {
                Some(k) => r matches Err(e) && crate::same_error(
                    e,
                    self.actors@[k].outcome.unwrap(),
                ),
                None => r == Ok::<(), ActorError>(()),
            },
    {
        let n: usize = self.actors.len();
        let mut i: usize = 0;
        while i < n
            invariant
                i <= n,
                n == self.actors@.len(),
                Self::first_fault_from(self.actors@, 0) == Self::first_fault_from(
                    self.actors@,
                    i as int,
                ),
            decreases n - i,
        {
            match &self.actors[i].outcome {
                Some(e) => {
                    let orderly: bool = match e {
                        ActorError::NoData => true,
                        ActorError::DropRecv => true,
                        ActorError::DropSend => true,
                        ActorError::Disconnected(_) => true,
                        _ => false,
                    };
                    if !orderly {
                        return Err(e.duplicate());
                    }
                },
                None => {
                },
            }
            i = i + 1;
        }
        Ok(())
    }
}

} // verus!
