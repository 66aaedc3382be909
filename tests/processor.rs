use audio_effects::block::{Input, Output};
use audio_effects::buffer::BUFFER_LEN;
use audio_effects::processor::{About, Info, Process, Processor};

/// Collects the sum of its input slots, sample by sample.
struct Sink {
    seen: Vec<i64>,
}

impl Info for Sink {
    fn info(&self) -> About {
        About { name: "Sink", desc: "Keeps what it reads." }
    }

    fn input_info(&self, _idx: usize) -> About {
        About { name: "Input", desc: "Summed and kept." }
    }

    fn output_info(&self, _idx: usize) -> About {
        panic!("Index out of bounds.")
    }

    fn num_inputs(&self) -> usize {
        1
    }

    fn num_outputs(&self) -> usize {
        0
    }
}

impl Process<i64> for Sink {
    fn process(&mut self, ins: &mut Vec<Input<i64>>, _outs: &mut Vec<Output<i64>>) {
        for _ in 0..BUFFER_LEN {
            let s: i64 = ins[0].next_all().iter().sum();
            self.seen.push(s);
        }
    }

    fn reset(&mut self, _ins: &mut Vec<Input<i64>>, _outs: &mut Vec<Output<i64>>) {
        self.seen.clear();
    }
}

impl Processor<i64> for Sink {}

#[test]
fn processor() {
    let p = Sink { seen: Vec::new() };
    assert_eq!(p.num_inputs(), 1);
    assert_eq!(p.num_outputs(), 0);
    assert_eq!(p.info().name, "Sink");
}

#[test]
fn fout() {
    let mut p = Sink { seen: Vec::new() };
    let mut ins = vec![Input::new(0i64)];
    let mut outs: Vec<Output<i64>> = Vec::new();
    ins[0].fill_split(2, 3, 1);
    p.process(&mut ins, &mut outs);
    assert_eq!(p.seen.len(), BUFFER_LEN);
    assert!(p.seen.iter().all(|&s| s == 3 + 3 + 6));
    p.reset(&mut ins, &mut outs);
    assert!(p.seen.is_empty());
}

