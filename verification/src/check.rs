//! Topology validation: rates against ports, divisibility across links,
//! and a bootstrapped output on every feedback cycle.
//!
//! The bootstrap condition is stated through a startability closure:
//! an actor is startable at stage `t + 1` when every producer it draws
//! from over a non-bootstrapped link is startable at stage `t`. A model
//! passes only when every actor is startable within as many stages as
//! there are actors; a cycle with no bootstrapped edge keeps all of its
//! members out of every stage, and is reported.

use vstd::prelude::*;
use crate::ActorError;
use crate::actor::Actor;
use crate::clients::Update;
use crate::model::Model;

verus! {

impl<P, C: Update<P>> Model<P, C> {
    /// Whether one rate divides the other, in the direction of the ratio.
    pub open spec fn divides_ok(pr: int, cr: int) -> bool {
        if pr >= cr {
            pr % cr == 0
        } else {
            cr % pr == 0
        }
    }

    /// Whether actor `i`, taken alone, declares faulty rates.
    pub open spec fn rate_fault_some(a: Actor<P>, i: int) -> bool {
        !a.rates_ok()
    }

    /// The error that names actor `i`'s rate fault, checked in this
    /// order: input side, output side, then the ratio of the two.
    pub open spec fn rate_fault_err(a: Actor<P>, i: int) -> ActorError {
        if a.inputs.len() > 0 && a.ni == 0 {
            ActorError::SomeInputsZeroRate(i as usize)
        } else if a.inputs.len() == 0 && a.ni > 0 {
            ActorError::NoInputsPositiveRate(i as usize)
        } else if a.outputs.len() > 0 && a.no == 0 {
            ActorError::SomeOutputsZeroRate(i as usize)
        } else if a.outputs.len() == 0 && a.no > 0 {
            ActorError::NoOutputsPositiveRate(i as usize)
        } else {
            ActorError::RateMismatch(i as usize, i as usize)
        }
    }

    /// The first actor from `k` on with a rate fault.
    pub open spec fn first_rate_fault_from(actors: Seq<Actor<P>>, k: int) -> Option<int>
        decreases actors.len() - k,
    {
        if k < 0 || k >= actors.len() {
            None
        } else if Self::rate_fault_some(actors[k], k) {
            Some(k)
        } else {
            Self::first_rate_fault_from(actors, k + 1)
        }
    }

    /// Whether some channel runs from output `p` of actor `u` into an
    /// input of actor `v`.
    pub open spec fn linked(actors: Seq<Actor<P>>, u: int, v: int) -> bool {
        exists|p: int, k: int, l: int|
            0 <= p < actors[u].outputs.len() && 0 <= k < actors[u].outputs[p].channels.len()
                && 0 <= l < actors[v].inputs.len() && actors[u].outputs[p].channels[k]
                == actors[v].inputs[l].channel
    }

    /// A link whose producer and consumer rates do not divide evenly.
    pub open spec fn bad_link(actors: Seq<Actor<P>>, u: int, v: int) -> bool {
        Self::linked(actors, u, v) && !Self::divides_ok(
            actors[u].no as int,
            actors[v].ni as int,
        )
    }

    /// The first consumer from `v` on that actor `u` feeds over a
    /// mismatched link.
    pub open spec fn first_bad_partner_from(actors: Seq<Actor<P>>, u: int, v: int) -> Option<
        int,
    >
        decreases actors.len() - v,
    {
        if v < 0 || v >= actors.len() {
            None
        } else if Self::bad_link(actors, u, v) {
            Some(v)
        } else {
            Self::first_bad_partner_from(actors, u, v + 1)
        }
    }

    /// The first mismatched link, producers in index order, consumers
    /// within.
    pub open spec fn first_bad_link_from(actors: Seq<Actor<P>>, u: int) -> Option<(int, int)>
        decreases actors.len() - u,
    {
        if u < 0 || u >= actors.len() {
            None
        } else {
            match Self::first_bad_partner_from(actors, u, 0) {
                Some(v) => Some((u, v)),
                None => Self::first_bad_link_from(actors, u + 1),
            }
        }
    }

    /// Whether a non-bootstrapped channel runs from actor `u` into actor
    /// `v`: the dependences that must start somewhere.
    pub open spec fn edge(actors: Seq<Actor<P>>, u: int, v: int) -> bool {
        exists|p: int, k: int, l: int|
            0 <= p < actors[u].outputs.len() && !actors[u].outputs[p].bootstrap && 0 <= k
                < actors[u].outputs[p].channels.len() && 0 <= l < actors[v].inputs.len()
                && actors[u].outputs[p].channels[k] == actors[v].inputs[l].channel
    }

    /// The actors startable within `t` stages: an actor enters stage
    /// `t + 1` when all its non-bootstrapped producers stand in stage `t`.
    pub open spec fn startable(actors: Seq<Actor<P>>, t: int) -> Set<int>
        decreases t,
    {
        if t <= 0 {
            Set::empty()
        } else {
            Set::new(
                |v: int|
                    0 <= v < actors.len() && forall|u: int|
                        0 <= u < actors.len() && Self::edge(actors, u, v)
                            ==> Self::startable(actors, t - 1).contains(u),
            )
        }
    }

    /// Every actor is startable: every cycle carries a bootstrapped
    /// output.
    pub open spec fn boot_ok(actors: Seq<Actor<P>>) -> bool {
        forall|v: int|
            0 <= v < actors.len() ==> Self::startable(actors, actors.len() as int).contains(
                v,
            )
    }

    /// The actors below `k` that are not startable, in ascending order.
    pub open spec fn stuck_seq(actors: Seq<Actor<P>>, k: int) -> Seq<usize>
        decreases k,
    {
        if k <= 0 {
            Seq::empty()
        } else if !Self::startable(actors, actors.len() as int).contains(k - 1) {
            Self::stuck_seq(actors, k - 1).push((k - 1) as usize)
        } else {
            Self::stuck_seq(actors, k - 1)
        }
    }

    /// One more stage never loses a startable actor.
    pub proof fn lemma_startable_step(actors: Seq<Actor<P>>, t: int)
        ensures
            Self::startable(actors, t).subset_of(Self::startable(actors, t + 1)),
        decreases t,
    {
        if t > 0 {
            Self::lemma_startable_step(actors, t - 1);
            assert forall|v: int|
                Self::startable(actors, t).contains(v) implies Self::startable(
                actors,
                t + 1,
            ).contains(v) by {
                assert forall|u: int|
                    0 <= u < actors.len() && Self::edge(actors, u, v) implies
                    Self::startable(actors, t).contains(u) by {
                    assert(Self::startable(actors, t - 1).contains(u));
                }
            }
        }
    }

    /// Startability only grows with the stage count.
    pub proof fn lemma_startable_monotone(actors: Seq<Actor<P>>, t1: int, t2: int)
        requires
            t1 <= t2,
        ensures
            Self::startable(actors, t1).subset_of(Self::startable(actors, t2)),
        decreases t2 - t1,
    {
        if t1 < t2 {
            Self::lemma_startable_monotone(actors, t1, t2 - 1);
            Self::lemma_startable_step(actors, t2 - 1);
        }
    }

    /// A set of actors in which every member depends on a member over a
    /// non-bootstrapped link is startable at no stage; in particular a
    /// cycle without a bootstrapped output never starts.
    #[verifier::rlimit(60)]
    pub proof fn lemma_stuck_never(actors: Seq<Actor<P>>, blocked: Set<int>, t: int)
        requires
            forall|v: int|
                blocked.contains(v) ==> 0 <= v < actors.len() && exists|u: int|
                    0 <= u < actors.len() && blocked.contains(u) && Self::edge(actors, u, v),
        ensures
            forall|v: int|
                blocked.contains(v) ==> !Self::startable(actors, t).contains(v),
        decreases t,
    {
        if t > 0 {
            Self::lemma_stuck_never(actors, blocked, t - 1);
            assert forall|v: int|
                blocked.contains(v) implies !Self::startable(actors, t).contains(v) by {
                let u = choose|u: int|
                    0 <= u < actors.len() && blocked.contains(u) && Self::edge(
                        actors,
                        u,
                        v,
                    );
                if Self::startable(actors, t).contains(v) {
                    assert(Self::startable(actors, t - 1).contains(u));
                    assert(!Self::startable(actors, t - 1).contains(u));
                    assert(false);
                }
            }
        }
    }

    /// What [`Model::check`] returns, determined by the actors alone:
    /// the first rate fault, else the first mismatched link, else the
    /// ascending list of unstartable actors, else success.
    pub open spec fn check_result(actors: Seq<Actor<P>>, r: Result<(), ActorError>) -> bool {
        match Self::first_rate_fault_from(actors, 0) {
            Some(k) => r == Err::<(), ActorError>(Self::rate_fault_err(actors[k], k)),
            None => match Self::first_bad_link_from(actors, 0) {
                Some(uv) => r == Err::<(), ActorError>(
                    ActorError::RateMismatch(uv.0 as usize, uv.1 as usize),
                ),
                None => if Self::boot_ok(actors) {
                    r == Ok::<(), ActorError>(())
                } else {
                    r matches Err(ActorError::CycleWithoutBootstrap(vv)) && vv@
                        == Self::stuck_seq(actors, actors.len() as int)
                },
            },
        }
    }

    /// Two results of the check on the same actors agree: the check has
    /// no room for choice. Lists of unstartable actors agree element for
    /// element.
    pub proof fn lemma_check_deterministic(
        actors: Seq<Actor<P>>,
        r1: Result<(), ActorError>,
        r2: Result<(), ActorError>,
    )
        requires
            Self::check_result(actors, r1),
            Self::check_result(actors, r2),
        ensures
            r1 is Ok <==> r2 is Ok,
            r1 is Ok ==> r1 == r2,
            ({
                match (r1, r2) {
                    (
                        Err(ActorError::CycleWithoutBootstrap(a1)),
                        Err(ActorError::CycleWithoutBootstrap(b1)),
                    ) => a1@ == b1@,
                    _ => true,
                }
            }),
            (r1 is Err && !(r1 matches Err(ActorError::CycleWithoutBootstrap(_)))) ==> r1
                == r2,
    {
    }

    /// Whether actor `u` feeds actor `v` over some channel.
    fn linked_exec(&self, u: usize, v: usize) -> (r: bool)
        requires
            self.inv(),
            u < self.actors@.len(),
            v < self.actors@.len(),
        ensures
            r == Self::linked(self.actors@, u as int, v as int),
    {
        let a = &self.actors[u];
        let b = &self.actors[v];
        let n_out: usize = a.outputs.len();
        let mut p: usize = 0;
        while p < n_out
            invariant
                p <= n_out,
                n_out == a.outputs.len(),
                a == &self.actors@[u as int],
                b == &self.actors@[v as int],
                forall|p2: int, k2: int, l2: int|
                    #![trigger a.outputs[p2].channels[k2], b.inputs[l2]]
                    0 <= p2 < p && 0 <= k2 < a.outputs[p2].channels.len() && 0 <= l2
                        < b.inputs.len() ==> a.outputs[p2].channels[k2]
                        != b.inputs[l2].channel,
            decreases n_out - p,
        {
            let n_fan: usize = a.outputs[p].channels.len();
            let mut k: usize = 0;
            while k < n_fan
                invariant
                    k <= n_fan,
                    p < n_out,
                    n_out == a.outputs.len(),
                    n_fan == a.outputs[p as int].channels.len(),
                    a == &self.actors@[u as int],
                    b == &self.actors@[v as int],
                    forall|p2: int, k2: int, l2: int|
                        #![trigger a.outputs[p2].channels[k2], b.inputs[l2]]
                        0 <= p2 < p && 0 <= k2 < a.outputs[p2].channels.len() && 0 <= l2
                            < b.inputs.len() ==> a.outputs[p2].channels[k2]
                            != b.inputs[l2].channel,
                    forall|k2: int, l2: int|
                        #![trigger a.outputs[p as int].channels[k2], b.inputs[l2]]
                        0 <= k2 < k && 0 <= l2 < b.inputs.len() ==> a.outputs[
                            p as int
                        ].channels[k2] != b.inputs[l2].channel,
                decreases n_fan - k,
            {
                let c: usize = a.outputs[p].channels[k];
                let n_in: usize = b.inputs.len();
                let mut l: usize = 0;
                while l < n_in
                    invariant
                        l <= n_in,
                        p < n_out,
                        k < n_fan,
                        n_out == a.outputs.len(),
                        n_fan == a.outputs[p as int].channels.len(),
                        n_in == b.inputs.len(),
                        a == &self.actors@[u as int],
                        b == &self.actors@[v as int],
                        c == a.outputs[p as int].channels[k as int],
                        forall|l2: int| 0 <= l2 < l ==> (#[trigger] b.inputs[l2]).channel
                            != c,
                    decreases n_in - l,
                {
                    if b.inputs[l].channel == c {
                        proof {
                            assert(Self::linked(self.actors@, u as int, v as int)) by {
                                assert(self.actors@[u as int].outputs[p as int].channels[
                                    k as int] == self.actors@[v as int].inputs[
                                    l as int].channel);
                            }
                        }
                        return true;
                    }
                    l = l + 1;
                }
                k = k + 1;
            }
            p = p + 1;
        }
        proof {
            assert forall|p2: int, k2: int, l2: int|
                !(0 <= p2 < self.actors@[u as int].outputs.len() && 0 <= k2
                    < self.actors@[u as int].outputs[p2].channels.len() && 0 <= l2
                    < self.actors@[v as int].inputs.len() && self.actors@[
                    u as int
                ].outputs[p2].channels[k2] == self.actors@[v as int].inputs[
                    l2
                ].channel) by {
                if 0 <= p2 < self.actors@[u as int].outputs.len() && 0 <= k2
                    < self.actors@[u as int].outputs[p2].channels.len() && 0 <= l2
                    < self.actors@[v as int].inputs.len() {
                    assert((a.outputs[p2].channels[k2]) != b.inputs[l2].channel);
                }
            }
        }
        false
    }

    /// Whether actor `u` feeds actor `v` over a non-bootstrapped channel.
    fn edge_exec(&self, u: usize, v: usize) -> (r: bool)
        requires
            self.inv(),
            u < self.actors@.len(),
            v < self.actors@.len(),
        ensures
            r == Self::edge(self.actors@, u as int, v as int),
    {
        let a = &self.actors[u];
        let b = &self.actors[v];
        let n_out: usize = a.outputs.len();
        let mut p: usize = 0;
        while p < n_out
            invariant
                p <= n_out,
                n_out == a.outputs.len(),
                a == &self.actors@[u as int],
                b == &self.actors@[v as int],
                forall|p2: int, k2: int, l2: int|
                    #![trigger a.outputs[p2].channels[k2], b.inputs[l2]]
                    0 <= p2 < p && !a.outputs[p2].bootstrap && 0 <= k2 < a.outputs[
                        p2
                    ].channels.len() && 0 <= l2 < b.inputs.len() ==> a.outputs[
                        p2
                    ].channels[k2] != b.inputs[l2].channel,
            decreases n_out - p,
        {
            if !a.outputs[p].bootstrap {
                let n_fan: usize = a.outputs[p].channels.len();
                let mut k: usize = 0;
                while k < n_fan
                    invariant
                        k <= n_fan,
                        p < n_out,
                        n_out == a.outputs.len(),
                        n_fan == a.outputs[p as int].channels.len(),
                        !a.outputs[p as int].bootstrap,
                        a == &self.actors@[u as int],
                        b == &self.actors@[v as int],
                        forall|p2: int, k2: int, l2: int|
                            #![trigger a.outputs[p2].channels[k2], b.inputs[l2]]
                            0 <= p2 < p && !a.outputs[p2].bootstrap && 0 <= k2 < a.outputs[
                                p2
                            ].channels.len() && 0 <= l2 < b.inputs.len()
                                ==> a.outputs[p2].channels[k2] != b.inputs[
                                l2
                            ].channel,
                        forall|k2: int, l2: int|
                            #![trigger a.outputs[p as int].channels[k2], b.inputs[l2]]
                            0 <= k2 < k && 0 <= l2 < b.inputs.len() ==>
                            a.outputs[p as int].channels[k2] != b.inputs[l2].channel,
                    decreases n_fan - k,
                {
                    let c: usize = a.outputs[p].channels[k];
                    let n_in: usize = b.inputs.len();
                    let mut l: usize = 0;
                    while l < n_in
                        invariant
                            l <= n_in,
                            p < n_out,
                            k < n_fan,
                            n_out == a.outputs.len(),
                            n_fan == a.outputs[p as int].channels.len(),
                            n_in == b.inputs.len(),
                            !a.outputs[p as int].bootstrap,
                            a == &self.actors@[u as int],
                            b == &self.actors@[v as int],
                            c == a.outputs[p as int].channels[k as int],
                            forall|l2: int|
                                0 <= l2 < l ==> (#[trigger] b.inputs[l2]).channel != c,
                        decreases n_in - l,
                    {
                        if b.inputs[l].channel == c {
                            proof {
                                assert(Self::edge(self.actors@, u as int, v as int)) by {
                                    assert(!self.actors@[u as int].outputs[
                                        p as int].bootstrap && self.actors@[
                                        u as int
                                    ].outputs[p as int].channels[k as int] == self.actors@[
                                        v as int
                                    ].inputs[l as int].channel);
                                }
                            }
                            return true;
                        }
                        l = l + 1;
                    }
                    k = k + 1;
                }
            }
            p = p + 1;
        }
        proof {
            assert forall|p2: int, k2: int, l2: int|
                !(0 <= p2 < self.actors@[u as int].outputs.len() && !self.actors@[
                    u as int
                ].outputs[p2].bootstrap && 0 <= k2 < self.actors@[u as int].outputs[
                    p2
                ].channels.len() && 0 <= l2 < self.actors@[v as int].inputs.len()
                    && self.actors@[u as int].outputs[p2].channels[k2] == self.actors@[
                    v as int
                ].inputs[l2].channel) by {
                if 0 <= p2 < self.actors@[u as int].outputs.len() && !self.actors@[
                    u as int
                ].outputs[p2].bootstrap && 0 <= k2 < self.actors@[u as int].outputs[
                    p2
                ].channels.len() && 0 <= l2 < self.actors@[v as int].inputs.len() {
                    assert((a.outputs[p2].channels[k2]) != b.inputs[l2].channel);
                }
            }
        }
        false
    }

    /// Validates every actor's declared rates against its ports.
    fn check_rates(&self) -> (r: Result<(), ActorError>)
        requires
            self.inv(),
        ensures
            match Self::first_rate_fault_from(self.actors@, 0) {
                Some(k) => r == Err::<(), ActorError>(
                    Self::rate_fault_err(self.actors@[k], k),
                ),
                None => r == Ok::<(), ActorError>(()),
            },
            r is Ok ==> self.rates_ok_all(),
    {
        let n: usize = self.actors.len();
        let mut i: usize = 0;
        while i < n
            invariant
                i <= n,
                n == self.actors@.len(),
                self.inv(),
                Self::first_rate_fault_from(self.actors@, 0) == Self::first_rate_fault_from(
                    self.actors@,
                    i as int,
                ),
                forall|x: int| 0 <= x < i ==> (#[trigger] self.actors@[x]).rates_ok(),
            decreases n - i,
        {
            let a = &self.actors[i];
            let fault: bool = if a.inputs.len() > 0 && a.ni == 0 {
                true
            } else if a.inputs.len() == 0 && a.ni > 0 {
                true
            } else if a.outputs.len() > 0 && a.no == 0 {
                true
            } else if a.outputs.len() == 0 && a.no > 0 {
                true
            } else if a.inputs.len() > 0 && a.outputs.len() > 0 {
                if a.no >= a.ni {
                    a.no % a.ni != 0
                } else {
                    a.ni % a.no != 0
                }
            } else {
                false
            };
            if fault {
                let e: ActorError = if a.inputs.len() > 0 && a.ni == 0 {
                    ActorError::SomeInputsZeroRate(i)
                } else if a.inputs.len() == 0 && a.ni > 0 {
                    ActorError::NoInputsPositiveRate(i)
                } else if a.outputs.len() > 0 && a.no == 0 {
                    ActorError::SomeOutputsZeroRate(i)
                } else if a.outputs.len() == 0 && a.no > 0 {
                    ActorError::NoOutputsPositiveRate(i)
                } else {
                    ActorError::RateMismatch(i, i)
                };
                proof {
                    assert(Self::rate_fault_some(self.actors@[i as int], i as int));
                    assert(e == Self::rate_fault_err(self.actors@[i as int], i as int));
                }
                return Err(e);
            }
            proof {
                assert(!Self::rate_fault_some(self.actors@[i as int], i as int));
            }
            i = i + 1;
        }
        Ok(())
    }

    /// Validates that the rates across every link divide evenly.
    fn check_links(&self) -> (r: Result<(), ActorError>)
        requires
            self.inv(),
            self.rates_ok_all(),
        ensures
            match Self::first_bad_link_from(self.actors@, 0) {
                Some(uv) => r == Err::<(), ActorError>(
                    ActorError::RateMismatch(uv.0 as usize, uv.1 as usize),
                ),
                None => r == Ok::<(), ActorError>(()),
            },
    {
        let n: usize = self.actors.len();
        let mut u: usize = 0;
        while u < n
            invariant
                u <= n,
                n == self.actors@.len(),
                self.inv(),
                self.rates_ok_all(),
                Self::first_bad_link_from(self.actors@, 0) == Self::first_bad_link_from(
                    self.actors@,
                    u as int,
                ),
            decreases n - u,
        {
            let mut v: usize = 0;
            while v < n
                invariant
                    u < n,
                    v <= n,
                    n == self.actors@.len(),
                    self.inv(),
                    self.rates_ok_all(),
                    Self::first_bad_link_from(self.actors@, 0) == Self::first_bad_link_from(
                        self.actors@,
                        u as int,
                    ),
                    Self::first_bad_partner_from(self.actors@, u as int, 0)
                        == Self::first_bad_partner_from(self.actors@, u as int, v as int),
                decreases n - v,
            {
                if self.linked_exec(u, v) {
                    proof {
                        let (p, k, l) = choose|p: int, k: int, l: int|
                            0 <= p < self.actors@[u as int].outputs.len() && 0 <= k
                                < self.actors@[u as int].outputs[p].channels.len() && 0 <= l
                                < self.actors@[v as int].inputs.len() && self.actors@[
                                u as int
                            ].outputs[p].channels[k] == self.actors@[v as int].inputs[
                                l
                            ].channel;
                        assert(self.actors@[u as int].outputs.len() > 0);
                        assert(self.actors@[v as int].inputs.len() > 0);
                        assert(self.actors@[u as int].rates_ok());
                        assert(self.actors@[v as int].rates_ok());
                    }
                    let pr: usize = self.actors[u].no;
                    let cr: usize = self.actors[v].ni;
                    let bad: bool = if pr >= cr {
                        pr % cr != 0
                    } else {
                        cr % pr != 0
                    };
                    if bad {
                        proof {
                            assert(Self::bad_link(self.actors@, u as int, v as int));
                        }
                        return Err(ActorError::RateMismatch(u, v));
                    }
                    proof {
                        assert(!Self::bad_link(self.actors@, u as int, v as int));
                    }
                } else {
                    proof {
                        assert(!Self::bad_link(self.actors@, u as int, v as int));
                    }
                }
                v = v + 1;
            }
            u = u + 1;
        }
        Ok(())
    }

    /// Peels startable actors off stage by stage; what remains, if
    /// anything, lies on cycles without a bootstrapped output and is
    /// returned in ascending order.
    #[verifier::rlimit(100)]
    fn check_boot(&self) -> (r: Option<Vec<usize>>)
        requires
            self.inv(),
        ensures
            r is None <==> Self::boot_ok(self.actors@),
            r matches Some(vv) ==> vv@ == Self::stuck_seq(
                self.actors@,
                self.actors@.len() as int,
            ),
    {
        let n: usize = self.actors.len();
        let mut started: Vec<bool> = Vec::new();
        let mut x: usize = 0;
        while x < n
            invariant
                x <= n,
                started@.len() == x,
                forall|y: int| 0 <= y < x ==> !started@[y],
            decreases n - x,
        {
            started.push(false);
            x = x + 1;
        }
        let ghost mut stage: int = 0;
        let ghost mut started_set: Set<int> = Set::empty();
        let mut n_started: usize = 0;
        let mut advanced: bool = true;
        while advanced
            invariant
                self.inv(),
                n == self.actors@.len(),
                started@.len() == n,
                started_set.finite(),
                started_set.subset_of(vstd::set_lib::set_int_range(0, n as int)),
                forall|y: int| 0 <= y < n ==> (started@[y] <==> started_set.contains(y)),
                n_started as int == started_set.len(),
                n_started <= n,
                stage == n_started as int,
                forall|y: int|
                    0 <= y < n && started@[y] ==> Self::startable(
                        self.actors@,
                        stage,
                    ).contains(y),
                !advanced ==> forall|y: int|
                    0 <= y < n && !started@[y] ==> exists|w: int|
                        0 <= w < n && !started@[w] && Self::edge(self.actors@, w, y),
            decreases n + 1 - n_started, (if advanced { 1int } else { 0int }),
        {
            advanced = false;
            let ghost ns0: int = n_started as int;
            let mut v: usize = 0;
            while v < n
                invariant
                    self.inv(),
                    n == self.actors@.len(),
                    started@.len() == n,
                    started_set.finite(),
                    started_set.subset_of(vstd::set_lib::set_int_range(0, n as int)),
                    forall|y: int|
                        0 <= y < n ==> (started@[y] <==> started_set.contains(y)),
                    n_started as int == started_set.len(),
                    n_started <= n,
                    stage == n_started as int,
                    v <= n,
                    forall|y: int|
                        0 <= y < n && started@[y] ==> Self::startable(
                            self.actors@,
                            stage,
                        ).contains(y),
                    !advanced ==> forall|y: int|
                        0 <= y < v && !started@[y] ==> exists|w: int|
                            0 <= w < n && !started@[w] && Self::edge(self.actors@, w, y),
                    ns0 <= n_started as int,
                    advanced ==> ns0 < n_started as int,
                decreases n - v,
            {
                if !started[v] {
                    // look for a producer not yet accounted for
                    let mut w: usize = 0;
                    let mut live: bool = false;
                    let ghost mut witness: int = 0;
                    while w < n && !live
                        invariant
                            self.inv(),
                            n == self.actors@.len(),
                            started@.len() == n,
                            v < n,
                            w <= n,
                            !live ==> forall|w2: int|
                                0 <= w2 < w && !started@[w2] ==> !Self::edge(
                                    self.actors@,
                                    w2,
                                    v as int,
                                ),
                            live ==> 0 <= witness < n && !started@[witness] && Self::edge(
                                self.actors@,
                                witness,
                                v as int,
                            ),
                        decreases n - w, (if live { 0int } else { 1int }),
                    {
                        if !started[w] && self.edge_exec(w, v) {
                            live = true;
                            proof {
                                witness = w as int;
                            }
                        } else {
                            w = w + 1;
                        }
                    }
                    if !live {
                        proof {
                            vstd::set_lib::lemma_int_range(0, n as int);
                            let ns = started_set.insert(v as int);
                            assert(!started_set.contains(v as int));
                            assert(ns.len() == started_set.len() + 1);
                            assert(ns.subset_of(vstd::set_lib::set_int_range(0, n as int)));
                            vstd::set_lib::lemma_len_subset(
                                ns,
                                vstd::set_lib::set_int_range(0, n as int),
                            );
                            assert(ns.len() <= n);
                            Self::lemma_startable_monotone(self.actors@, stage, stage + 1);
                            assert forall|u2: int|
                                0 <= u2 < n && Self::edge(self.actors@, u2, v as int)
                                    implies Self::startable(self.actors@, stage).contains(
                                u2,
                            ) by {
                                assert(started@[u2]);
                            }
                            assert(Self::startable(self.actors@, stage + 1).contains(
                                v as int,
                            ));
                            stage = stage + 1;
                            started_set = ns;
                        }
                        started[v] = true;
                        n_started = n_started + 1;
                        advanced = true;
                        proof {
                            assert forall|y: int|
                                0 <= y < n && started@[y] implies Self::startable(
                                self.actors@,
                                stage,
                            ).contains(y) by {
                                if y != v as int {
                                    assert(Self::startable(self.actors@, stage - 1)
                                        .contains(y));
                                }
                            }
                        }
                    }
                }
                v = v + 1;
            }
        }
        // nothing startable remains to peel; report what never started
        let mut all: bool = true;
        let mut y: usize = 0;
        while y < n
            invariant
                y <= n,
                n == self.actors@.len(),
                started@.len() == n,
                all == forall|z: int| 0 <= z < y ==> started@[z],
            decreases n - y,
        {
            if !started[y] {
                all = false;
            }
            y = y + 1;
        }
        proof {
            let blocked = Set::new(|z: int| 0 <= z < n && !started@[z]);
            assert forall|v: int| blocked.contains(v) implies 0 <= v < self.actors@.len()
                && exists|u: int|
                0 <= u < self.actors@.len() && blocked.contains(u) && Self::edge(
                    self.actors@,
                    u,
                    v,
                ) by {
                let w = choose|w: int|
                    0 <= w < n && !started@[w] && Self::edge(self.actors@, w, v);
                assert(blocked.contains(w) && Self::edge(self.actors@, w, v));
            }
            Self::lemma_stuck_never(self.actors@, blocked, n as int);
            Self::lemma_startable_monotone(self.actors@, stage, n as int);
            assert forall|z: int| 0 <= z < n && started@[z] implies Self::startable(
                self.actors@,
                n as int,
            ).contains(z) by {
                assert(Self::startable(self.actors@, stage).contains(z));
            }
            assert forall|z: int| 0 <= z < n && !started@[z] implies !Self::startable(
                self.actors@,
                n as int,
            ).contains(z) by {
                assert(blocked.contains(z));
            }
        }
        if all {
            proof {
                assert forall|z: int|
                    0 <= z < n implies Self::startable(self.actors@, n as int).contains(
                    z,
                ) by {
                    assert(started@[z]);
                }
            }
            None
        } else {
            let mut vv: Vec<usize> = Vec::new();
            let mut z: usize = 0;
            while z < n
                invariant
                    z <= n,
                    n == self.actors@.len(),
                    started@.len() == n,
                    forall|y2: int|
                        0 <= y2 < n && started@[y2] ==> Self::startable(
                            self.actors@,
                            n as int,
                        ).contains(y2),
                    forall|y2: int|
                        0 <= y2 < n && !started@[y2] ==> !Self::startable(
                            self.actors@,
                            n as int,
                        ).contains(y2),
                    vv@ == Self::stuck_seq(self.actors@, z as int),
                decreases n - z,
            {
                if !started[z] {
                    vv.push(z);
                }
                proof {
                    assert(vv@ =~= Self::stuck_seq(self.actors@, z as int + 1));
                }
                z = z + 1;
            }
            proof {
                let bad = choose|z2: int| 0 <= z2 < n && !started@[z2];
                assert(!Self::startable(self.actors@, n as int).contains(bad));
            }
            Some(vv)
        }
    }

    /// Validates the topology: rates fit ports, linked rates divide
    /// evenly, and every actor is startable, so that every feedback cycle
    /// carries a bootstrapped output. The result is a function of the
    /// actors alone; the model is not touched.
    pub fn check(&self) -> (r: Result<(), ActorError>)
        requires
            self.inv(),
        ensures
            Self::check_result(self.actors@, r),
            r is Ok ==> self.rates_ok_all(),
            r is Ok ==> Self::boot_ok(self.actors@),
    {
        let rates = self.check_rates();
        if let Err(e) = rates {
            return Err(e);
        }
        let links = self.check_links();
        if let Err(e) = links {
            return Err(e);
        }
        match self.check_boot() {
            None => Ok(()),
            Some(vv) => Err(ActorError::CycleWithoutBootstrap(vv)),
        }
    }
}

} // verus!
