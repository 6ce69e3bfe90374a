//! The standard clients on their own: logger accounting, sample-and-hold,
//! concatenation and the integral controller.

use dos_actors::actor::{Actor, Initiator, Terminator};
use dos_actors::clients::{Concat, Integrator, Logging, Sampler, Signals, Update};
use dos_actors::io::{Data, Void};
use dos_actors::model::{ActorOutputBuilder, Model};
use std::sync::Arc;

#[test]
fn logging_counts_samples_and_entries() {
    let mut lg: Logging<f64> = Logging::default().n_entry(2).capacity(16);
    assert!(lg.is_empty());
    lg.read(0, Arc::new(vec![1.0, 2.0]));
    lg.read(1, Arc::new(vec![3.0, 4.0]));
    assert!(!lg.is_empty());
    assert_eq!(lg.len(), 1);
    assert_eq!(lg.n_data(), 4);
    assert_eq!(lg.data(), &vec![1.0, 2.0, 3.0, 4.0]);
    let chunks = lg.chunks();
    assert_eq!(chunks.len(), 1);
    assert_eq!(chunks[0], vec![1.0, 2.0, 3.0, 4.0]);
}

#[test]
fn logging_chunks_split_per_sample() {
    let mut lg: Logging<i64> = Logging::default();
    lg.read(0, Arc::new(vec![1, 2]));
    lg.read(0, Arc::new(vec![3, 4]));
    lg.read(0, Arc::new(vec![5, 6]));
    assert_eq!(lg.len(), 3);
    assert_eq!(lg.n_data(), 2);
    let chunks = lg.chunks();
    assert_eq!(chunks, vec![vec![1, 2], vec![3, 4], vec![5, 6]]);
}

#[test]
fn sampler_holds_the_last_sample() {
    let mut s: Sampler<i64, Void, Void> = Sampler::default();
    // before anything arrives the hold carries the default payload, and
    // the zero-order hold never ends the stream
    assert_eq!(*s.write(0).unwrap(), 0);
    assert_eq!(*s.write(0).unwrap(), 0);
    s.read(0, Arc::new(5));
    assert_eq!(*s.write(0).unwrap(), 5);
    assert_eq!(*s.write(0).unwrap(), 5);
    s.read(0, Arc::new(7));
    assert_eq!(*s.write(0).unwrap(), 7);
}

#[test]
fn logging_chunks_keep_a_short_tail() {
    // five elements over two samples: sample-sized chunks of two, the
    // final chunk shorter
    let mut lg: Logging<i64> = Logging::default();
    lg.read(0, Arc::new(vec![1, 2, 3]));
    lg.read(0, Arc::new(vec![4, 5]));
    assert_eq!(lg.len(), 2);
    assert_eq!(lg.n_data(), 2);
    let chunks = lg.chunks();
    assert_eq!(chunks, vec![vec![1, 2], vec![3, 4], vec![5]]);
}

#[test]
fn concat_accumulates_and_hands_over() {
    let mut c: Concat<i64> = Concat::default();
    c.read(1);
    c.read(2);
    c.read(3);
    assert_eq!(c.write(), vec![1, 2, 3]);
    assert_eq!(c.write(), Vec::<i64>::new());
}

#[test]
fn data_envelope_wraps_and_unwraps() {
    let d: Data<Vec<i64>, Void> = Data::new(vec![4, 5]);
    assert_eq!(d.payload(), &vec![4, 5]);
    assert_eq!(d.into_payload(), vec![4, 5]);
}

enum Tagged {
    Src(Signals<Data<i64, Void>>),
    Sink(Vec<i64>),
}

impl Update<Data<i64, Void>> for Tagged {
    fn read(&mut self, input: usize, data: Arc<Data<i64, Void>>) {
        match self {
            Tagged::Src(c) => c.read(input, data),
            Tagged::Sink(sunk) => sunk.push(*data.payload()),
        }
    }
    fn write(&mut self, output: usize) -> Option<Arc<Data<i64, Void>>> {
        match self {
            Tagged::Src(c) => c.write(output),
            Tagged::Sink(_) => None,
        }
    }
}

#[test]
fn data_envelope_rides_the_channels() {
    // the typed envelope as the channels' element type: the identifier
    // rides along and the payload comes out unchanged downstream
    let mut m: Model<Data<i64, Void>, Tagged> = Model::new();
    let values: Vec<Arc<Data<i64, Void>>> =
        vec![Arc::new(Data::new(4)), Arc::new(Data::new(9))];
    let src = m.add_actor(Tagged::Src(Signals::new(values)), Initiator::build(1));
    let sink = m.add_actor(Tagged::Sink(Vec::new()), Terminator::build(1));
    let rx = m.add_output(src, ActorOutputBuilder::new(1));
    m.into_input(rx, sink);
    assert!(m.run(1_000).is_ok());
    match &m.clients[sink] {
        Tagged::Sink(sunk) => assert_eq!(sunk, &vec![4, 9]),
        _ => panic!("sink expected"),
    }
}

#[test]
fn integrator_builders_shape_the_controller() {
    // a controller fresh out of the constructor is all defaults
    let z: Integrator<i64, Void> = Integrator::new(2);
    assert_eq!(z.output(), vec![0, 0]);
    let i: Integrator<i64, Void> = Integrator::new(3).gain(2).zero(vec![0, 0, 0]);
    // a fresh controller outputs its zero point
    assert_eq!(i.output(), vec![0, 0, 0]);
    let mut j: Integrator<i64, Void> = Integrator::new(2)
        .gain_vector(vec![1, 10])
        .zero(vec![100, 200]);
    assert_eq!(j.output(), vec![100, 200]);
    j.fold(&vec![101, 201]);
    // mem[k] -= gain[k] * (u[k] - zero[k])
    assert_eq!(j.output(), vec![99, 190]);
}

enum Plant {
    Src(Signals<Vec<i64>>),
    Ctrl(Integrator<i64, Void>),
    Sink(Vec<i64>),
}

impl Update<Vec<i64>> for Plant {
    fn read(&mut self, input: usize, data: Arc<Vec<i64>>) {
        match self {
            Plant::Src(c) => c.read(input, data),
            Plant::Ctrl(c) => c.read(input, data),
            Plant::Sink(sunk) => sunk.extend(data.iter().copied()),
        }
    }
    fn write(&mut self, output: usize) -> Option<Arc<Vec<i64>>> {
        match self {
            Plant::Src(c) => c.write(output),
            Plant::Ctrl(c) => c.write(output),
            Plant::Sink(_) => None,
        }
    }
}

#[test]
fn integrator_accumulates_against_constant_input() {
    let mut m: Model<Vec<i64>, Plant> = Model::new();
    let values: Vec<Arc<Vec<i64>>> = vec![Arc::new(vec![1]); 3];
    let src = m.add_actor(Plant::Src(Signals::new(values)), Initiator::build(1));
    let ctl = m.add_actor(
        Plant::Ctrl(Integrator::new(1).gain_vector(vec![2]).zero(vec![0])),
        Actor::new(1, 1),
    );
    let sink = m.add_actor(Plant::Sink(Vec::new()), Terminator::build(1));
    let rx = m.add_output(src, ActorOutputBuilder::new(1));
    m.into_input(rx, ctl);
    let rx = m.add_output(ctl, ActorOutputBuilder::new(1));
    m.into_input(rx, sink);
    assert!(m.run(1_000_000).is_ok());
    match &m.clients[sink] {
        Plant::Sink(sunk) => assert_eq!(sunk, &vec![-2, -4, -6]),
        _ => panic!("sink expected"),
    }
}
