use audio_effects::block::{Connection, Connectors, EndPoint, Input, Output};
use audio_effects::buffer::BUFFER_LEN;
use audio_effects::error::Error;
use audio_effects::processor::{About, Info, Process, Processor};
use audio_effects::unit::Unit;

/// Tick `t` writes `t * 1000 + i` plus the sum of what it reads at sample `i`.
struct Ramp {
    tick: u32,
    n_in: usize,
}

impl Ramp {
    fn new(n_in: usize) -> Ramp {
        Ramp { tick: 0, n_in }
    }
}

impl Info for Ramp {
    fn info(&self) -> About {
        About { name: "Ramp", desc: "Counts up, plus its inputs." }
    }

    fn input_info(&self, _idx: usize) -> About {
        About { name: "Input", desc: "Added to the ramp." }
    }

    fn output_info(&self, _idx: usize) -> About {
        About { name: "Output", desc: "The ramp." }
    }

    fn num_inputs(&self) -> usize {
        self.n_in
    }

    fn num_outputs(&self) -> usize {
        1
    }
}

impl Process<f32> for Ramp {
    fn process(&mut self, ins: &mut Vec<Input<f32>>, outs: &mut Vec<Output<f32>>) {
        for i in 0..BUFFER_LEN {
            let mut s = 0.0f32;
            for blk in ins.iter_mut() {
                s += blk.next_all().iter().sum::<f32>();
            }
            outs[0].put(self.tick as f32 * 1000.0 + i as f32 + s);
        }
        self.tick += 1;
    }

    fn reset(&mut self, ins: &mut Vec<Input<f32>>, _outs: &mut Vec<Output<f32>>) {
        self.tick = 0;
        for blk in ins.iter_mut() {
            blk.fill(0.0);
        }
    }
}

impl Processor<f32> for Ramp {}

fn wire(from: (usize, usize, usize), to: (usize, usize, usize)) -> Connection {
    Connection {
        from: EndPoint { proc: from.0, block: from.1, conn: from.2 },
        to: EndPoint { proc: to.0, block: to.1, conn: to.2 },
    }
}

fn pair() -> Unit<f32, Ramp> {
    let mut u = Unit::new(0.0f32);
    u.add(Ramp::new(0)).unwrap();
    u.add(Ramp::new(1)).unwrap();
    u.connect(wire((0, 0, 0), (1, 0, 0))).unwrap();
    u
}

#[test]
fn unit() {
    let mut u = pair();
    assert_eq!(u.start(), Ok(()));
    assert_eq!(u.ready().iter().copied().collect::<Vec<usize>>(), vec![0]);
    u.process_next();
    let produced: Vec<f32> = (0..BUFFER_LEN).map(|j| u.output(0, 0).buffer(0).get(j)).collect();
    assert_eq!(produced[5], 5.0);
    u.dispatch_next_forward();
    let delivered: Vec<f32> = (0..BUFFER_LEN).map(|j| u.input(1, 0).buffer(0).get(j)).collect();
    assert_eq!(delivered, produced);
    assert_eq!(u.input(1, 0).buffer(0).wrpos(), BUFFER_LEN);
    assert_eq!(u.output(0, 0).buffer(0).wrpos(), 0);
    assert_eq!(u.ready().iter().copied().collect::<Vec<usize>>(), vec![1]);
    assert_eq!(u.num_backward(), 1);
    assert_eq!(u.input(1, 0).full_cnt(), 0);
    assert_eq!(u.output(0, 0).empty_cnt(), 1);
    u.process_next();
    assert_eq!(u.output(1, 0).buffer(0).get(3), 3.0 + 3.0);
    assert_eq!(u.num_forward(), 1);
}

#[test]
fn drain_and_stop_empties_all_queues() {
    let mut u = pair();
    u.start().unwrap();
    u.process_next();
    u.dispatch_next_forward();
    u.process_next();
    u.dispatch_next_forward();
    u.dispatch_backward();
    u.process_next();
    assert!(u.ready().len() + u.num_forward() + u.num_backward() > 0);
    assert_eq!(u.drain_and_stop(), Ok(()));
    assert!(!u.started());
    assert_eq!(u.ready().len(), 0);
    assert_eq!(u.num_forward(), 0);
    assert_eq!(u.num_backward(), 0);
    assert_eq!(u.drain_and_stop(), Err(Error::Stopped));
}

#[test]
fn connecting_a_bound_slot_is_a_wiring_error() {
    let mut u = Unit::new(0.0f32);
    for _ in 0..3 {
        u.add(Ramp::new(1)).unwrap();
    }
    assert_eq!(u.connect(wire((0, 0, 0), (1, 0, 0))), Ok(()));
    assert_eq!(u.output(0, 0).num_cons(), 1);
    assert_eq!(u.connect(wire((0, 0, 0), (2, 0, 0))), Err(Error::AlreadyConnected));
    assert_eq!(u.output(0, 0).num_cons(), 1);
    assert_eq!(u.input(2, 0).num_cons(), 0);
    assert_eq!(u.connect(wire((2, 0, 1), (1, 0, 0))), Err(Error::AlreadyConnected));
    assert_eq!(u.output(2, 0).num_cons(), 0);
    assert_eq!(u.input(1, 0).num_cons(), 1);
}

#[test]
fn connect_then_disconnect() {
    let mut u = Unit::new(0.0f32);
    u.add(Ramp::new(0)).unwrap();
    u.add(Ramp::new(2)).unwrap();
    let c = wire((0, 0, 4), (1, 1, 6));
    assert!(!u.connection_exists(c));
    assert_eq!(u.connect(c), Ok(()));
    assert!(u.connection_exists(c));
    assert_eq!(u.connect(c), Err(Error::AlreadyConnected));
    assert!(!u.connection_exists(wire((0, 0, 4), (1, 1, 5))));
    assert_eq!(u.disconnect(wire((0, 0, 4), (1, 0, 6))), Err(Error::NoSuchConnection));
    assert_eq!(u.disconnect(c), Ok(()));
    assert!(!u.connection_exists(c));
    assert_eq!(u.disconnect(c), Err(Error::NoSuchConnection));
}

#[test]
fn start_set_follows_inputs() {
    let mut u = Unit::new(0.0f32);
    for _ in 0..3 {
        u.add(Ramp::new(1)).unwrap();
    }
    assert_eq!(u.start_nodes().iter().copied().collect::<Vec<usize>>(), vec![0, 1, 2]);
    u.connect(wire((0, 0, 0), (2, 0, 0))).unwrap();
    u.connect(wire((1, 0, 0), (2, 0, 1))).unwrap();
    assert_eq!(u.start_nodes().iter().copied().collect::<Vec<usize>>(), vec![0, 1]);
    u.disconnect(wire((0, 0, 0), (2, 0, 0))).unwrap();
    assert_eq!(u.start_nodes().iter().copied().collect::<Vec<usize>>(), vec![0, 1]);
    u.disconnect(wire((1, 0, 0), (2, 0, 1))).unwrap();
    assert_eq!(u.start_nodes().iter().copied().collect::<Vec<usize>>(), vec![0, 1, 2]);
    assert_eq!(u.ready().iter().copied().collect::<Vec<usize>>(), vec![2]);
}

#[test]
fn cycles_are_refused() {
    let mut u = Unit::new(0.0f32);
    for _ in 0..3 {
        u.add(Ramp::new(1)).unwrap();
    }
    u.connect(wire((0, 0, 0), (1, 0, 0))).unwrap();
    u.connect(wire((1, 0, 0), (2, 0, 0))).unwrap();
    assert_eq!(u.connect(wire((2, 0, 0), (0, 0, 0))), Err(Error::WouldCycle));
    assert_eq!(u.connect(wire((1, 0, 1), (1, 0, 1))), Err(Error::WouldCycle));
    assert_eq!(u.connect(wire((0, 0, 1), (2, 0, 1))), Ok(()));
}

#[test]
fn topology_is_frozen_while_started() {
    let mut u = pair();
    u.start().unwrap();
    assert_eq!(u.start(), Err(Error::Started));
    assert_eq!(u.add(Ramp::new(0)), Err(Error::Started));
    assert_eq!(u.connect(wire((1, 0, 0), (0, 0, 0))), Err(Error::Started));
    assert_eq!(u.disconnect(wire((0, 0, 0), (1, 0, 0))), Err(Error::Started));
    assert_eq!(u.num_processors(), 2);
    assert_eq!(Error::Started.describe(), "the unit is started");
}

#[test]
fn source_is_readmitted_after_its_outputs_drain() {
    let mut u = pair();
    u.start().unwrap();
    u.process_next();
    u.dispatch_next_forward();
    u.dispatch_backward();
    assert_eq!(u.ready().iter().copied().collect::<Vec<usize>>(), vec![1, 0]);
    assert_eq!(u.output(0, 0).empty_cnt(), 0);
    u.process_next();
    u.dispatch_next_forward();
    u.process_next();
    u.dispatch_next_forward();
    let second: Vec<f32> = (0..4).map(|j| u.input(1, 0).buffer(0).get(j)).collect();
    assert_eq!(second, vec![1000.0, 1001.0, 1002.0, 1003.0]);
}

#[test]
fn consumer_waits_for_every_input() {
    let mut u = Unit::new(0.0f32);
    u.add(Ramp::new(0)).unwrap();
    u.add(Ramp::new(0)).unwrap();
    u.add(Ramp::new(2)).unwrap();
    u.connect(wire((0, 0, 0), (2, 0, 0))).unwrap();
    u.connect(wire((1, 0, 0), (2, 1, 0))).unwrap();
    u.start().unwrap();
    u.process_next();
    u.dispatch_next_forward();
    assert_eq!(u.ready().iter().copied().collect::<Vec<usize>>(), vec![1]);
    assert_eq!(u.input(2, 0).full_cnt(), 1);
    u.process_next();
    u.dispatch_next_forward();
    assert_eq!(u.ready().iter().copied().collect::<Vec<usize>>(), vec![2]);
    assert_eq!(u.input(2, 0).full_cnt(), 0);
    assert_eq!(u.input(2, 1).full_cnt(), 0);
}

#[test]
fn reset_and_configure_through_the_unit() {
    let mut u = pair();
    u.fill_split_input(1, 0, 1, 2.0, 0.0);
    assert_eq!(u.input(1, 0).buffer(0).get(0), 2.0);
    assert_eq!(u.input(1, 0).buffer(1).get(0), 0.0);
    u.processor(0).tick = 5;
    u.reset(0);
    assert_eq!(u.processor(0).tick, 0);
    assert_eq!(u.processor(1).info().name, "Ramp");
}

#[test]
fn default_unit_is_empty_and_stopped() {
    let u: Unit<f32, Ramp> = Unit::default();
    assert_eq!(u.num_processors(), 0);
    assert!(!u.started());
    assert!(u.start_nodes().is_empty());
    assert_eq!(u.ready().len(), 0);
}

#[test]
fn connect_dequeues_a_fed_destination() {
    let mut u = Unit::new(0.0f32);
    u.add(Ramp::new(1)).unwrap(); // 0
    u.add(Ramp::new(1)).unwrap(); // 1
    u.add(Ramp::new(0)).unwrap(); // 2
    u.connect(wire((2, 0, 0), (0, 0, 0))).unwrap();
    u.disconnect(wire((2, 0, 0), (0, 0, 0))).unwrap();
    u.connect(wire((0, 0, 0), (1, 0, 0))).unwrap();
    assert_eq!(u.ready().iter().copied().collect::<Vec<usize>>(), vec![0]);
    u.process_next();
    u.dispatch_next_forward();
    assert_eq!(u.ready().iter().copied().collect::<Vec<usize>>(), vec![1]);
    assert!(!u.start_nodes().contains(&1));
    u.connect(wire((2, 0, 0), (1, 0, 1))).unwrap();
    assert!(u.ready().is_empty());
    assert!(!u.start_nodes().contains(&1));
}
