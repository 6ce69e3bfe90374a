//! The guarantees of the scheduler, stated on their own: rate adaptation,
//! fan-out equality, channel capacity, and the rejection of feedback
//! cycles without a bootstrapped output. Each law holds of every model
//! that satisfies the scheduler invariant, which building and running a
//! model preserve.

use vstd::prelude::*;
use crate::ActorError;
use crate::actor::{Actor, Phase};
use crate::clients::Update;
use crate::model::Model;

verus! {

impl<P, C: Update<P>> Model<P, C> {
    /// Whether the actor stands in the middle of delivering an envelope
    /// on output `p`: some consumers of `p` may not have it yet.
    pub open spec fn mid_delivery(a: Actor<P>, p: int) -> bool {
        a.pending is Some && match a.phase {
            Phase::Boot { round, port, chan } => port == p,
            Phase::Distribute { round, port, chan } => port == p,
            _ => false,
        }
    }

    /// Rate adaptation: at every cycle boundary, the distribute rounds
    /// and the collect rounds of an actor stand in the exact inverse
    /// ratio of its rates. A producer that collected `N` envelopes per
    /// input has distributed `N * max(1, NI/NO) / max(1, NO/NI)` rounds.
    pub proof fn law_rate_adaptation(m: Self, i: int)
        requires
            m.inv(),
            0 <= i < m.actors@.len(),
            m.actors@[i].phase matches Phase::Gather { k, j } && k == 0,
        ensures
            m.actors@[i].dist_rounds@ * m.actors@[i].collect_target() == m.actors@[
                i
            ].coll_rounds@ * m.actors@[i].dist_target(),
    {
        let a = m.actors@[i];
        assert(Self::acc_one(a, m.channels@));
        let ct = a.collect_target();
        let dt = a.dist_target();
        assert(a.coll_rounds@ == a.cycles@ * ct);
        assert(a.dist_rounds@ == a.cycles@ * dt);
        assert((a.cycles@ * dt) * ct == (a.cycles@ * ct) * dt) by (nonlinear_arith);
    }

    /// What a port has emitted at a cycle boundary: one envelope per
    /// distribute round, plus the bootstrap prologue if the port was
    /// flagged.
    pub proof fn law_port_emission(m: Self, i: int, p: int)
        requires
            m.inv(),
            0 <= i < m.actors@.len(),
            m.actors@[i].phase is Gather,
            0 <= p < m.actors@[i].outputs@.len(),
        ensures
            m.actors@[i].outputs@[p].emitted@.len() == m.actors@[i].dist_rounds@ + if m
                .actors@[i].outputs@[p].bootstrap {
                m.actors@[i].boot_target()
            } else {
                0int
            },
    {
        assert(Self::acc_one(m.actors@[i], m.channels@));
    }

    /// What an input has received while its actor gathers: one envelope
    /// per completed collect round, plus one for each input already
    /// drained in the round under way.
    pub proof fn law_input_reception(m: Self, i: int, l: int)
        requires
            m.inv(),
            0 <= i < m.actors@.len(),
            m.actors@[i].phase matches Phase::Gather { k, j },
            0 <= l < m.actors@[i].inputs@.len(),
        ensures
            ({
                let j = match m.actors@[i].phase {
                    Phase::Gather { k, j } => j as int,
                    _ => 0int,
                };
                m.channels@[m.in_chan(i, l)].spec_received().len() == m.actors@[
                    i
                ].coll_rounds@ + if l < j {
                    1int
                } else {
                    0int
                }
            }),
    {
        assert(Self::acc_one(m.actors@[i], m.channels@));
    }

    /// Fan-out equality: outside the delivery of a single envelope, all
    /// consumers of one multiplexed output have been handed exactly the
    /// same sequence of envelopes, in the same order.
    pub proof fn law_fan_out(m: Self, i: int, p: int, k1: int, k2: int)
        requires
            m.inv(),
            0 <= i < m.actors@.len(),
            !(m.actors@[i].phase is Done),
            !Self::mid_delivery(m.actors@[i], p),
            0 <= p < m.actors@[i].outputs@.len(),
            0 <= k1 < m.actors@[i].outputs@[p].channels@.len(),
            0 <= k2 < m.actors@[i].outputs@[p].channels@.len(),
        ensures
            m.channels@[m.out_chan(i, p, k1)].spec_history() == m.actors@[i].outputs@[
                p
            ].emitted@,
            m.channels@[m.out_chan(i, p, k1)].spec_history() == m.channels@[
                m.out_chan(i, p, k2)
            ].spec_history(),
    {
        let a = m.actors@[i];
        assert(Self::acc_one(a, m.channels@));
        match a.phase {
            Phase::Boot { round, port, chan } => {
                if a.pending is Some {
                    assert(p != port);
                    assert(Self::port_synced_at(m.channels@, a.outputs[p]));
                } else {
                    assert(Self::port_synced_at(m.channels@, a.outputs[p]));
                }
            },
            Phase::Distribute { round, port, chan } => {
                if a.pending is Some {
                    assert(p != port);
                    assert(Self::port_synced_at(m.channels@, a.outputs[p]));
                } else {
                    assert(Self::port_synced_at(m.channels@, a.outputs[p]));
                }
            },
            Phase::Gather { k, j } => {
                assert(Self::port_synced_at(m.channels@, a.outputs[p]));
            },
            Phase::Scatter { k, j } => {
                assert(Self::port_synced_at(m.channels@, a.outputs[p]));
            },
            Phase::Done => {
                assert(false);
            },
        }
    }

    /// Channel capacity: a producer never runs ahead of a consumer by
    /// more than the channel capacity plus the one envelope in flight.
    /// With capacity one, at most two written envelopes can be
    /// unreceived, which locks producer and consumer in step.
    pub proof fn law_channel_capacity(m: Self, i: int, p: int, k: int)
        requires
            m.inv(),
            0 <= i < m.actors@.len(),
            0 <= p < m.actors@[i].outputs@.len(),
            0 <= k < m.actors@[i].outputs@[p].channels@.len(),
        ensures
            m.actors@[i].outputs@[p].emitted@.len() <= m.channels@[
                m.out_chan(i, p, k)
            ].spec_received().len() + m.channels@[m.out_chan(i, p, k)].spec_capacity()
                + 1,
    {
        let a = m.actors@[i];
        assert(Self::acc_one(a, m.channels@));
        Self::lemma_any_phase_weak(a, m.channels@, p);
        let c = m.out_chan(i, p, k);
        assert(m.wired_actor(i));
        let ch = m.channels@[c];
        assert(ch.wf());
        assert(ch.spec_history().len() >= a.outputs@[p].emitted@.len() - 1);
        assert(ch.spec_received().len() == ch.spec_history().len() - ch.spec_queue().len());
        assert(ch.spec_queue().len() <= ch.spec_capacity());
    }

    /// Bootstrap completeness: a model with a feedback cycle whose edges
    /// all lack the bootstrap flag fails the check. `cyc` lists the
    /// actors around the cycle; each feeds the next over some
    /// non-bootstrapped channel, and the last feeds the first.
    #[verifier::rlimit(100)]
    #[verifier::spinoff_prover]
    pub proof fn law_cycle_rejected(
        actors: Seq<Actor<P>>,
        cyc: Seq<int>,
        r: Result<(), ActorError>,
    )
        requires
            cyc.len() >= 1,
            forall|x: int| 0 <= x < cyc.len() ==> 0 <= #[trigger] cyc[x] < actors.len(),
            forall|x: int|
                0 <= x < cyc.len() ==> Self::edge(
                    actors,
                    #[trigger] cyc[x],
                    cyc[(x + 1) % (cyc.len() as int)],
                ),
            Self::check_result(actors, r),
        ensures
            r is Err,
    {
        let blocked = cyc.to_set();
        assert forall|v: int| blocked.contains(v) implies 0 <= v < actors.len() && exists|
            u: int,
        |
            0 <= u < actors.len() && blocked.contains(u) && Self::edge(actors, u, v) by {
            let x = choose|x: int| 0 <= x < cyc.len() && cyc[x] == v;
            let n = cyc.len() as int;
            let w = if x == 0 {
                n - 1
            } else {
                x - 1
            };
            assert(0 <= w < cyc.len());
            assert((w + 1) % n == x) by {
                if x == 0 {
                    assert(n % n == 0) by (nonlinear_arith)
                        requires
                            n >= 1,
                    ;
                } else {
                    assert(x % n == x) by (nonlinear_arith)
                        requires
                            0 <= x < n,
                    ;
                }
            }
            assert(Self::edge(actors, cyc[w], cyc[(w + 1) % (cyc.len() as int)]));
            assert(blocked.contains(cyc[w]));
        }
        Self::lemma_stuck_never(actors, blocked, actors.len() as int);
        assert(blocked.contains(cyc[0]));
        assert(!Self::startable(actors, actors.len() as int).contains(cyc[0]));
        assert(!Self::boot_ok(actors));
        if r is Ok {
            match Self::first_rate_fault_from(actors, 0) {
                Some(kk) => {
                    assert(false);
                },
                None => {
                    match Self::first_bad_link_from(actors, 0) {
                        Some(uv) => {
                            assert(false);
                        },
                        None => {
                            assert(false);
                        },
                    }
                },
            }
        }
    }
}

} // verus!
