//! Validation of model topologies: rate faults, link mismatches, feedback
//! cycles, and the behaviour of the check itself.

use dos_actors::actor::{Actor, Initiator, Terminator};
use dos_actors::clients::{Sampler, Signals, Update};
use dos_actors::io::Void;
use dos_actors::model::{ActorOutputBuilder, Model};
use dos_actors::ActorError;
use std::sync::Arc;

enum Node {
    Src(Signals<i64>),
    Samp(Sampler<i64, Void, Void>),
    Sink(Vec<i64>),
    Counter { writes: usize },
}

impl Update<i64> for Node {
    fn read(&mut self, input: usize, data: Arc<i64>) {
        match self {
            Node::Src(c) => c.read(input, data),
            Node::Samp(c) => c.read(input, data),
            Node::Sink(sunk) => sunk.push(*data),
            Node::Counter { .. } => {}
        }
    }
    fn write(&mut self, output: usize) -> Option<Arc<i64>> {
        match self {
            Node::Src(c) => c.write(output),
            Node::Samp(c) => c.write(output),
            Node::Sink(_) => None,
            Node::Counter { writes } => {
                *writes += 1;
                Some(Arc::new(0))
            }
        }
    }
}

fn sampler() -> Node {
    Node::Samp(Sampler::default())
}

#[test]
fn cycle_without_bootstrap_is_rejected() {
    let mut m: Model<i64, Node> = Model::new();
    let x = m.add_actor(sampler(), Actor::new(1, 1));
    let y = m.add_actor(sampler(), Actor::new(1, 1));
    let rx = m.add_output(x, ActorOutputBuilder::new(1));
    m.into_input(rx, y);
    let rx = m.add_output(y, ActorOutputBuilder::new(1));
    m.into_input(rx, x);
    let r = m.check();
    assert_eq!(r, Err(ActorError::CycleWithoutBootstrap(vec![x, y])));
    assert_eq!(m.run(1_000), Err(ActorError::CycleWithoutBootstrap(vec![x, y])));
}

#[test]
fn cycle_with_bootstrap_is_accepted() {
    let mut m: Model<i64, Node> = Model::new();
    let x = m.add_actor(sampler(), Actor::new(1, 1));
    let y = m.add_actor(sampler(), Actor::new(1, 1));
    let rx = m.add_output(x, ActorOutputBuilder::new(1));
    m.into_input(rx, y);
    let rx = m.add_output(y, ActorOutputBuilder::new(1).bootstrap());
    m.into_input(rx, x);
    assert!(m.check().is_ok());
    // the bootstrapped sampler seeds the loop with its default payload;
    // with no finite source the loop circulates it until the sweep
    // budget runs out, and nobody stalls or fails
    assert_eq!(m.run(1_000), Err(ActorError::Incomplete));
    assert!(!m.is_done(x));
    assert!(!m.is_done(y));
    assert_eq!(m.outcome(x), &None);
    assert_eq!(m.outcome(y), &None);
}

#[test]
fn check_is_idempotent() {
    let mut m: Model<i64, Node> = Model::new();
    let x = m.add_actor(sampler(), Actor::new(1, 1));
    let y = m.add_actor(sampler(), Actor::new(1, 1));
    let rx = m.add_output(x, ActorOutputBuilder::new(1));
    m.into_input(rx, y);
    let rx = m.add_output(y, ActorOutputBuilder::new(1));
    m.into_input(rx, x);
    let first = m.check();
    let second = m.check();
    assert_eq!(first, second);

    let mut ok: Model<i64, Node> = Model::new();
    let values: Vec<Arc<i64>> = vec![Arc::new(5)];
    let src = ok.add_actor(Node::Src(Signals::new(values)), Initiator::build(1));
    let sink = ok.add_actor(Node::Sink(Vec::new()), Terminator::build(1));
    let rx = ok.add_output(src, ActorOutputBuilder::new(1));
    ok.into_input(rx, sink);
    assert_eq!(ok.check(), Ok(()));
    assert_eq!(ok.check(), Ok(()));
}

#[test]
fn some_inputs_zero_rate_is_rejected() {
    let mut m: Model<i64, Node> = Model::new();
    let src = m.add_actor(Node::Src(Signals::new(Vec::new())), Initiator::build(1));
    let bad = m.add_actor(Node::Sink(Vec::new()), Terminator::build(0));
    let rx = m.add_output(src, ActorOutputBuilder::new(1));
    m.into_input(rx, bad);
    assert_eq!(m.check(), Err(ActorError::SomeInputsZeroRate(bad)));
}

#[test]
fn no_inputs_positive_rate_is_rejected() {
    let mut m: Model<i64, Node> = Model::new();
    m.add_actor(Node::Sink(Vec::new()), Terminator::build(1));
    assert_eq!(m.check(), Err(ActorError::NoInputsPositiveRate(0)));
}

#[test]
fn some_outputs_zero_rate_is_rejected() {
    let mut m: Model<i64, Node> = Model::new();
    let bad = m.add_actor(Node::Src(Signals::new(Vec::new())), Initiator::build(0));
    let sink = m.add_actor(Node::Sink(Vec::new()), Terminator::build(1));
    let rx = m.add_output(bad, ActorOutputBuilder::new(1));
    m.into_input(rx, sink);
    assert_eq!(m.check(), Err(ActorError::SomeOutputsZeroRate(bad)));
}

#[test]
fn no_outputs_positive_rate_is_rejected() {
    let mut m: Model<i64, Node> = Model::new();
    m.add_actor(Node::Src(Signals::new(Vec::new())), Initiator::build(1));
    assert_eq!(m.check(), Err(ActorError::NoOutputsPositiveRate(0)));
}

#[test]
fn uneven_actor_rates_are_rejected() {
    let mut m: Model<i64, Node> = Model::new();
    let src = m.add_actor(Node::Src(Signals::new(Vec::new())), Initiator::build(2));
    let bad = m.add_actor(sampler(), Actor::new(2, 3));
    let sink = m.add_actor(Node::Sink(Vec::new()), Terminator::build(3));
    let rx = m.add_output(src, ActorOutputBuilder::new(1));
    m.into_input(rx, bad);
    let rx = m.add_output(bad, ActorOutputBuilder::new(1));
    m.into_input(rx, sink);
    assert_eq!(m.check(), Err(ActorError::RateMismatch(bad, bad)));
}

#[test]
fn uneven_link_rates_are_rejected() {
    let mut m: Model<i64, Node> = Model::new();
    let src = m.add_actor(Node::Src(Signals::new(Vec::new())), Initiator::build(2));
    let sink = m.add_actor(Node::Sink(Vec::new()), Terminator::build(3));
    let rx = m.add_output(src, ActorOutputBuilder::new(1));
    m.into_input(rx, sink);
    assert_eq!(m.check(), Err(ActorError::RateMismatch(src, sink)));
}

#[test]
fn exhausted_sweep_budget_is_reported() {
    let mut m: Model<i64, Node> = Model::new();
    let values: Vec<Arc<i64>> = vec![Arc::new(1)];
    let src = m.add_actor(Node::Src(Signals::new(values)), Initiator::build(1));
    let sink = m.add_actor(Node::Sink(Vec::new()), Terminator::build(1));
    let rx = m.add_output(src, ActorOutputBuilder::new(1));
    m.into_input(rx, sink);
    assert_eq!(m.run(0), Err(ActorError::Incomplete));
}

#[test]
fn unconsumed_output_disconnects_its_actor() {
    // an output minted but never attached to a consumer behaves as a
    // dropped receiver: the producer stops with a disconnect
    let mut m: Model<i64, Node> = Model::new();
    let src = m.add_actor(Node::Counter { writes: 0 }, Initiator::build(1));
    let _rx = m.add_output(src, ActorOutputBuilder::new(1));
    assert!(m.check().is_ok());
    assert!(m.run(1_000).is_ok());
    assert_eq!(m.outcome(src), &Some(ActorError::Disconnected(0)));
}

#[test]
fn bounded_producer_stays_in_lock_step() {
    // capacity one and an idle consumer: the producer can complete one
    // send and write one envelope more, then it cannot advance
    let mut m: Model<i64, Node> = Model::new();
    let src = m.add_actor(Node::Counter { writes: 0 }, Initiator::build(1));
    let sink = m.add_actor(Node::Sink(Vec::new()), Terminator::build(1));
    let rx = m.add_output(src, ActorOutputBuilder::new(1));
    m.into_input(rx, sink);
    assert!(m.check().is_ok());
    let mut steps: usize = 0;
    while steps < 50 {
        m.step_actor(src);
        steps += 1;
    }
    match &m.clients[src] {
        Node::Counter { writes } => assert_eq!(*writes, 2),
        _ => panic!("counter expected"),
    }
    assert!(!m.is_done(src));
}

#[test]
fn tags_name_actors_and_models() {
    let mut m: Model<i64, Node> = Model::new();
    let values: Vec<Arc<i64>> = vec![Arc::new(2)];
    let src = m.add_actor(
        Node::Src(Signals::new(values)),
        Initiator::build(1).tag(String::from("source")),
    );
    let sink = m.add_actor(
        Node::Sink(Vec::new()),
        Terminator::build(1).tag(String::from("sink")),
    );
    let rx = m.add_output(src, ActorOutputBuilder::new(1));
    m.into_input(rx, sink);
    let mut m = m.name(String::from("two-stage"));
    assert_eq!(m.tag.as_deref(), Some("two-stage"));
    assert_eq!(m.actors[src].tag.as_deref(), Some("source"));
    assert!(m.run(1_000).is_ok());
    assert_eq!(m.wait(), Ok(()));
}

#[test]
fn flowchart_renders_nodes_and_edges() {
    let mut m: Model<i64, Node> = Model::new();
    let values: Vec<Arc<i64>> = vec![Arc::new(1)];
    let src = m.add_actor(
        Node::Src(Signals::new(values)),
        Initiator::build(1).tag(String::from("source")),
    );
    let sink = m.add_actor(Node::Sink(Vec::new()), Terminator::build(1));
    let rx = m.add_output(src, ActorOutputBuilder::new(1).bootstrap());
    m.into_input(rx, sink);
    assert_eq!(
        m.flowchart(),
        "flowchart model\n\
         node source ni 0 no 1\n\
         edge source port 0 chan 0 cap 1 boot\n\
         node actor 1 ni 1 no 0\n\
         edge chan 0 into actor 1 slot 0\n"
    );
    let m = m.name(String::from("demo"));
    assert!(m.flowchart().starts_with("flowchart demo\n"));
}

#[test]
fn unbounded_output_lifts_the_bound() {
    let mut m: Model<i64, Node> = Model::new();
    let src = m.add_actor(Node::Src(Signals::new(Vec::new())), Initiator::build(1));
    let rx = m.add_output(src, ActorOutputBuilder::new(1).unbounded());
    let rx2 = m.add_output(src, ActorOutputBuilder::new(1).multiplex(3));
    drop(rx);
    drop(rx2);
    assert_eq!(m.channels[0].capacity(), usize::MAX);
    assert_eq!(m.channels.len(), 4);
    assert_eq!(m.channels[1].capacity(), 1);
    assert_eq!(m.channels[3].capacity(), 1);
}
