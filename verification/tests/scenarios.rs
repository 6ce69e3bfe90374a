//! End-to-end scenarios: sources, rate adapters, feedback and logging.

use dos_actors::actor::{Actor, Initiator, Terminator};
use dos_actors::clients::{Logging, Sampler, Signals, Update};
use dos_actors::io::Void;
use dos_actors::model::{ActorOutputBuilder, Model};
use dos_actors::ActorError;
use std::sync::Arc;

enum VecClient {
    Src(Signals<Vec<f64>>),
    Samp(Sampler<Vec<f64>, Void, Void>),
    Log(Logging<f64>),
}

impl Update<Vec<f64>> for VecClient {
    fn update(&mut self) {
        match self {
            VecClient::Src(c) => c.update(),
            VecClient::Samp(c) => c.update(),
            VecClient::Log(c) => c.update(),
        }
    }
    fn read(&mut self, input: usize, data: Arc<Vec<f64>>) {
        match self {
            VecClient::Src(c) => c.read(input, data),
            VecClient::Samp(c) => c.read(input, data),
            VecClient::Log(c) => c.read(input, data),
        }
    }
    fn write(&mut self, output: usize) -> Option<Arc<Vec<f64>>> {
        match self {
            VecClient::Src(c) => c.write(output),
            VecClient::Samp(c) => c.write(output),
            VecClient::Log(c) => c.write(output),
        }
    }
}

#[test]
fn constant_source_to_logger() {
    let mut m: Model<Vec<f64>, VecClient> = Model::new();
    let values: Vec<Arc<Vec<f64>>> = vec![Arc::new(vec![3.14]); 5];
    let src = m.add_actor(VecClient::Src(Signals::new(values)), Initiator::build(1));
    let log = m.add_actor(VecClient::Log(Logging::default()), Terminator::build(1));
    let rx = m.add_output(src, ActorOutputBuilder::new(1));
    m.into_input(rx, log);
    assert!(m.check().is_ok());
    assert!(m.run(100_000).is_ok());
    match &m.clients[log] {
        VecClient::Log(lg) => {
            assert_eq!(lg.len(), 5);
            assert_eq!(lg.data(), &vec![3.14, 3.14, 3.14, 3.14, 3.14]);
        }
        _ => panic!("logger expected"),
    }
}

#[test]
fn sinusoid_source_decimated_to_logger() {
    // amplitude 1, 10 Hz signal sampled at 1000 Hz, held and decimated by 10
    let two_pi = 2.0 * std::f64::consts::PI;
    let mut values: Vec<Arc<Vec<f64>>> = Vec::new();
    for k in 0..100u32 {
        values.push(Arc::new(vec![(two_pi * 10.0 * f64::from(k) / 1000.0).sin()]));
    }
    let mut m: Model<Vec<f64>, VecClient> = Model::new();
    let src = m.add_actor(VecClient::Src(Signals::new(values)), Initiator::build(1));
    let dec = m.add_actor(VecClient::Samp(Sampler::default()), Actor::new(1, 10));
    let log = m.add_actor(VecClient::Log(Logging::default()), Terminator::build(10));
    let rx = m.add_output(src, ActorOutputBuilder::new(1));
    m.into_input(rx, dec);
    let rx = m.add_output(dec, ActorOutputBuilder::new(1));
    m.into_input(rx, log);
    assert!(m.run(1_000_000).is_ok());
    match &m.clients[log] {
        VecClient::Log(lg) => {
            assert_eq!(lg.len(), 10);
            // the hold hands on the last of each batch of ten samples
            let expected: Vec<f64> = (0..10u32)
                .map(|k| (two_pi * 10.0 * f64::from(10 * k + 9) / 1000.0).sin())
                .collect();
            assert_eq!(lg.data(), &expected);
        }
        _ => panic!("logger expected"),
    }
}

enum FbClient {
    Src(Signals<f64>),
    Comp { set_point: f64, feedback: f64 },
    Integ { mem: f64 },
    Log(Vec<f64>),
}

impl Update<f64> for FbClient {
    fn read(&mut self, input: usize, data: Arc<f64>) {
        match self {
            FbClient::Src(c) => c.read(input, data),
            FbClient::Comp { set_point, feedback } => {
                if input == 0 {
                    *set_point = *data;
                } else {
                    *feedback = *data;
                }
            }
            FbClient::Integ { mem } => *mem += 0.5 * *data,
            FbClient::Log(log) => log.push(*data),
        }
    }
    fn write(&mut self, output: usize) -> Option<Arc<f64>> {
        match self {
            FbClient::Src(c) => c.write(output),
            FbClient::Comp { set_point, feedback } => Some(Arc::new(*set_point - *feedback)),
            FbClient::Integ { mem } => Some(Arc::new(*mem)),
            FbClient::Log(_) => None,
        }
    }
}

#[test]
fn feedback_loop_with_bootstrapped_integrator() {
    // source of ones into a compensator closed over an integrator of
    // gain one half; the integrator output is bootstrapped at zero
    let mut m: Model<f64, FbClient> = Model::new();
    let values: Vec<Arc<f64>> = vec![Arc::new(1.0); 10];
    let src = m.add_actor(FbClient::Src(Signals::new(values)), Initiator::build(1));
    let comp = m.add_actor(
        FbClient::Comp { set_point: 0.0, feedback: 0.0 },
        Actor::new(1, 1),
    );
    let integ = m.add_actor(FbClient::Integ { mem: 0.0 }, Actor::new(1, 1));
    let log = m.add_actor(FbClient::Log(Vec::new()), Terminator::build(1));
    let rx = m.add_output(src, ActorOutputBuilder::new(1));
    m.into_input(rx, comp);
    let rx = m.add_output(comp, ActorOutputBuilder::new(1).multiplex(2));
    let rx = m.into_input(rx, integ);
    m.into_input(rx, log);
    let rx = m.add_output(integ, ActorOutputBuilder::new(1).bootstrap());
    m.into_input(rx, comp);
    assert!(m.check().is_ok());
    assert!(m.run(1_000_000).is_ok());
    match &m.clients[log] {
        FbClient::Log(lg) => {
            let expected: Vec<f64> = (0..10).map(|k| 0.5f64.powi(k)).collect();
            assert_eq!(lg, &expected);
        }
        _ => panic!("logger expected"),
    }
}

enum IntClient {
    Src(Signals<i64>),
    Samp(Sampler<i64, Void, Void>),
    Sink(Vec<i64>),
}

impl Update<i64> for IntClient {
    fn update(&mut self) {}
    fn read(&mut self, input: usize, data: Arc<i64>) {
        match self {
            IntClient::Src(c) => c.read(input, data),
            IntClient::Samp(c) => c.read(input, data),
            IntClient::Sink(sunk) => sunk.push(*data),
        }
    }
    fn write(&mut self, output: usize) -> Option<Arc<i64>> {
        match self {
            IntClient::Src(c) => c.write(output),
            IntClient::Samp(c) => c.write(output),
            IntClient::Sink(_) => None,
        }
    }
}

fn adapter_chain(input: Vec<i64>, src_rate: usize, ni: usize, no: usize) -> Vec<i64> {
    let mut m: Model<i64, IntClient> = Model::new();
    let values: Vec<Arc<i64>> = input.into_iter().map(Arc::new).collect();
    let src = m.add_actor(IntClient::Src(Signals::new(values)), Initiator::build(src_rate));
    let ad = m.add_actor(IntClient::Samp(Sampler::default()), Actor::new(ni, no));
    let sink = m.add_actor(IntClient::Sink(Vec::new()), Terminator::build(no));
    let rx = m.add_output(src, ActorOutputBuilder::new(1));
    m.into_input(rx, ad);
    let rx = m.add_output(ad, ActorOutputBuilder::new(1));
    m.into_input(rx, sink);
    assert!(m.run(1_000_000).is_ok());
    match m.clients.swap_remove(sink) {
        IntClient::Sink(sunk) => sunk,
        _ => panic!("sink expected"),
    }
}

#[test]
fn upsample_holds_each_sample_twice() {
    // source rate one feeding a doubled consumer rate: zero-order hold
    let got = adapter_chain(vec![1, 2, 3], 2, 2, 1);
    assert_eq!(got, vec![1, 1, 2, 2, 3, 3]);
}

#[test]
fn decimate_keeps_last_of_each_pair() {
    // two updates under the lock, then one write: the second one stays
    let got = adapter_chain(vec![1, 2, 3, 4], 1, 1, 2);
    assert_eq!(got, vec![2, 4]);
}

#[test]
fn rate_adaptation_by_three() {
    let got = adapter_chain(vec![1, 2, 3, 4, 5, 6], 1, 1, 3);
    assert_eq!(got, vec![3, 6]);
}

#[test]
fn termination_cascades_through_chain() {
    // a finite source drains a three-stage chain; every actor finishes
    let mut m: Model<i64, IntClient> = Model::new();
    let values: Vec<Arc<i64>> = vec![10, 20, 30, 40].into_iter().map(Arc::new).collect();
    let src = m.add_actor(IntClient::Src(Signals::new(values)), Initiator::build(1));
    let f1 = m.add_actor(IntClient::Samp(Sampler::default()), Actor::new(1, 1));
    let f2 = m.add_actor(IntClient::Samp(Sampler::default()), Actor::new(1, 1));
    let sink = m.add_actor(IntClient::Sink(Vec::new()), Terminator::build(1));
    let rx = m.add_output(src, ActorOutputBuilder::new(1));
    m.into_input(rx, f1);
    let rx = m.add_output(f1, ActorOutputBuilder::new(1));
    m.into_input(rx, f2);
    let rx = m.add_output(f2, ActorOutputBuilder::new(1));
    m.into_input(rx, sink);
    assert!(m.run(1_000_000).is_ok());
    for i in 0..4 {
        assert!(m.is_done(i));
    }
    assert_eq!(m.outcome(src), &Some(ActorError::NoData));
    assert_eq!(m.outcome(sink), &None);
    // the cascade is orderly from one end to the other
    assert_eq!(m.wait(), Ok(()));
    match &m.clients[sink] {
        IntClient::Sink(sunk) => assert_eq!(sunk, &vec![10, 20, 30, 40]),
        _ => panic!("sink expected"),
    }
}

enum LoopClient {
    Src(Signals<i64>),
    Samp(Sampler<i64, Void, Void>),
    Comp { set_point: i64, feedback: i64 },
    Sink(Vec<i64>),
}

impl Update<i64> for LoopClient {
    fn read(&mut self, input: usize, data: Arc<i64>) {
        match self {
            LoopClient::Src(c) => c.read(input, data),
            LoopClient::Samp(c) => c.read(input, data),
            LoopClient::Comp { set_point, feedback } => {
                if input == 0 {
                    *set_point = *data;
                } else {
                    *feedback = *data;
                }
            }
            LoopClient::Sink(sunk) => sunk.push(*data),
        }
    }
    fn write(&mut self, output: usize) -> Option<Arc<i64>> {
        match self {
            LoopClient::Src(c) => c.write(output),
            LoopClient::Samp(c) => c.write(output),
            LoopClient::Comp { set_point, feedback } => Some(Arc::new(*set_point - *feedback)),
            LoopClient::Sink(_) => None,
        }
    }
}

#[test]
fn bootstrapped_sampler_seeds_a_feedback_loop() {
    // the sample-and-hold on the delayed edge fires its default payload
    // during the prologue, so the cycle starts from a known zero
    let mut m: Model<i64, LoopClient> = Model::new();
    let values: Vec<Arc<i64>> = vec![1, 2, 3].into_iter().map(Arc::new).collect();
    let src = m.add_actor(LoopClient::Src(Signals::new(values)), Initiator::build(1));
    let comp = m.add_actor(
        LoopClient::Comp { set_point: 0, feedback: 0 },
        Actor::new(1, 1),
    );
    let hold = m.add_actor(LoopClient::Samp(Sampler::default()), Actor::new(1, 1));
    let sink = m.add_actor(LoopClient::Sink(Vec::new()), Terminator::build(1));
    let rx = m.add_output(src, ActorOutputBuilder::new(1));
    m.into_input(rx, comp);
    let rx = m.add_output(comp, ActorOutputBuilder::new(1).multiplex(2));
    let rx = m.into_input(rx, hold);
    m.into_input(rx, sink);
    let rx = m.add_output(hold, ActorOutputBuilder::new(1).bootstrap());
    m.into_input(rx, comp);
    assert!(m.check().is_ok());
    assert!(m.run(1_000_000).is_ok());
    match &m.clients[sink] {
        LoopClient::Sink(sunk) => {
            // out_k = sp_k - out_(k-1), seeded with out_0 = 0
            assert_eq!(sunk, &vec![1, 1, 2]);
        }
        _ => panic!("sink expected"),
    }
}

#[test]
fn fan_out_delivers_same_sequence_to_all() {
    let mut m: Model<i64, IntClient> = Model::new();
    let values: Vec<Arc<i64>> = vec![7, 8, 9].into_iter().map(Arc::new).collect();
    let src = m.add_actor(IntClient::Src(Signals::new(values)), Initiator::build(1));
    let s1 = m.add_actor(IntClient::Sink(Vec::new()), Terminator::build(1));
    let s2 = m.add_actor(IntClient::Sink(Vec::new()), Terminator::build(1));
    let rx = m.add_output(src, ActorOutputBuilder::new(1).multiplex(2));
    let rx = m.into_input(rx, s1);
    m.into_input(rx, s2);
    assert!(m.run(1_000_000).is_ok());
    let got1 = match &m.clients[s1] {
        IntClient::Sink(sunk) => sunk.clone(),
        _ => panic!("sink expected"),
    };
    let got2 = match &m.clients[s2] {
        IntClient::Sink(sunk) => sunk.clone(),
        _ => panic!("sink expected"),
    };
    assert_eq!(got1, vec![7, 8, 9]);
    assert_eq!(got1, got2);
}
