use audio_effects::block::{Block, Connection, Connector, Connectors, EndPoint, Input, Output, BLOCK_LEN};
use audio_effects::error::Error;

fn wire(from: (usize, usize, usize), to: (usize, usize, usize)) -> Connection {
    Connection {
        from: EndPoint { proc: from.0, block: from.1, conn: from.2 },
        to: EndPoint { proc: to.0, block: to.1, conn: to.2 },
    }
}

#[test]
fn block() {
    let blk = Block::<f32>::default();
    assert_eq!(blk.num_cons(), 0);
    for i in 0..BLOCK_LEN {
        assert_eq!(blk.connector(i), Connector::Unconnected);
        assert!(blk.buffer(i).empty());
    }
}

#[test]
fn block_connect_twice_is_refused() {
    let mut out = Output::new(0.0f32);
    let c = wire((0, 0, 3), (1, 0, 0));
    assert_eq!(out.connect(c), Ok(()));
    assert_eq!(out.num_cons(), 1);
    assert_eq!(out.connector(3), Connector::ConnectedUsing(c));
    assert_eq!(out.connect(c), Err(Error::AlreadyConnected));
    assert_eq!(out.num_cons(), 1);
    assert_eq!(out.disconnect(3), Ok(()));
    assert_eq!(out.num_cons(), 0);
    assert_eq!(out.disconnect(3), Err(Error::NotConnected));
}

#[test]
fn full_count_stops_at_bound_slots() {
    let mut inp = Input::new(0.0f32);
    inp.inc_full_cnt();
    assert_eq!(inp.full_cnt(), 0);
    inp.connect(wire((1, 0, 0), (0, 0, 0))).unwrap();
    inp.connect(wire((1, 0, 2), (0, 0, 2))).unwrap();
    inp.inc_full_cnt();
    inp.inc_full_cnt();
    inp.inc_full_cnt();
    assert_eq!(inp.full_cnt(), 2);
    inp.rst_full_cnt();
    assert_eq!(inp.full_cnt(), 0);
}

#[test]
fn fill_split_seeds_first_slots() {
    let mut inp = Input::new(0.0f32);
    inp.fill_split(1, 440.0, 0.0);
    let first = inp.next_all();
    assert_eq!(first.len(), BLOCK_LEN);
    assert_eq!(first[0], 440.0);
    for v in &first[1..] {
        assert_eq!(*v, 0.0);
    }
    let mut out = Output::new(0i32);
    out.fill_slice(2, 3, 5);
    out.put(9);
    assert_eq!(out.buffer(0).get(0), 9);
    assert_eq!(out.buffer(2).get(0), 5);
    assert_eq!(out.buffer(4).get(BLOCK_LEN), 5);
    assert_eq!(out.buffer(5).wrpos(), 1);
}
