use audio_effects::buffer::{apply, distribute, Buffer, Size, BUFFER_LEN};

#[test]
fn buffer() {
    let mut buf = Buffer::<f32>::default();
    // put(), next()
    for k in 0..buf.size() {
        buf.put(k as f32);
        assert!(buf.wrpos() == k + 1);
    }
    for k in 0..buf.size() {
        assert!(buf.next() == k as f32);
        assert!(buf.rdpos() == k + 1);
    }
    // rewind
    buf.rewind();
    assert!(buf.rdpos() == 0);
    assert!(buf.wrpos() == buf.size());

    for k in 0..buf.size() {
        assert!(buf.next() == k as f32);
        assert!(buf.rdpos() == k + 1);
    }
    // reset
    buf.reset();
    assert!(buf.rdpos() == 0);
    assert!(buf.wrpos() == 0);
}

#[test]
fn hold_last_value_after_three_writes() {
    let mut buf = Buffer::<f32>::default();
    buf.put(1.5);
    buf.put(2.5);
    buf.put(3.5);
    let got: Vec<f32> = (0..6).map(|_| buf.next()).collect();
    assert_eq!(got, vec![1.5, 2.5, 3.5, 3.5, 3.5, 3.5]);
    assert_eq!(buf.rdpos(), 3);
}

#[test]
fn nothing_written_reads_zero() {
    let mut buf = Buffer::<f32>::default();
    for _ in 0..5 {
        assert_eq!(buf.next(), 0.0);
    }
    assert!(buf.empty());
    let mut seeded = Buffer::new(7i64);
    assert_eq!(seeded.next(), 7);
}

#[test]
fn fill_reads_constant_and_rewinds() {
    let mut buf = Buffer::<f32>::default();
    buf.put(9.0);
    buf.fill(0.25);
    assert_eq!(buf.rdpos(), 0);
    assert_eq!(buf.wrpos(), BUFFER_LEN);
    assert!(buf.full());
    for _ in 0..BUFFER_LEN + 10 {
        assert_eq!(buf.next(), 0.25);
    }
    buf.rewind();
    assert_eq!(buf.rdpos(), 0);
    assert_eq!(buf.wrpos(), BUFFER_LEN);
    assert_eq!(buf.next(), 0.25);
}

#[test]
fn reset_then_put_writes_at_start() {
    let mut buf = Buffer::<f32>::default();
    for k in 0..10 {
        buf.put(k as f32);
    }
    buf.next();
    buf.reset();
    assert!(buf.empty());
    buf.put(42.0);
    assert_eq!(buf.wrpos(), 1);
    assert_eq!(buf.get(0), 42.0);
    assert_eq!(buf.next(), 42.0);
}

#[test]
fn put_on_full_buffer_overwrites_last_slot() {
    let mut buf = Buffer::<u32>::default();
    for k in 0..BUFFER_LEN {
        buf.put(k as u32);
    }
    buf.put(1000);
    assert_eq!(buf.wrpos(), BUFFER_LEN);
    assert_eq!(buf.get(BUFFER_LEN - 1), 1000);
    assert_eq!(buf.get(BUFFER_LEN - 2), (BUFFER_LEN - 2) as u32);
}

#[test]
fn copy_from_takes_all_samples() {
    let mut src = Buffer::<f32>::default();
    src.put(3.0);
    src.put(4.0);
    let mut dst = Buffer::<f32>::default();
    dst.put(1.0);
    dst.next();
    dst.copy_from(&src);
    assert_eq!(dst.rdpos(), 0);
    assert_eq!(dst.wrpos(), BUFFER_LEN);
    assert_eq!(dst.next(), 3.0);
    assert_eq!(dst.next(), 4.0);
}

#[test]
fn buffers() {
    let fill = [98.6f32, 96.8, 89.6];
    let mut bufs = vec![Buffer::<f32>::default(), Buffer::<f32>::default(), Buffer::<f32>::default()];

    // fill() and distribute()
    for i in 0..bufs.len() {
        bufs[i].fill(fill[i]);
        assert!(bufs[i].rdpos() == 0);
        assert!(bufs[i].wrpos() == BUFFER_LEN);

        for j in 0..BUFFER_LEN {
            assert!(bufs[i].get(j) == fill[i]);
        }
    }

    distribute(&mut bufs, &[1], |_, b| b);
    for i in 0..bufs.len() {
        for j in 0..BUFFER_LEN {
            assert!(bufs[i].get(j) == fill[1]);
        }
    }

    // fill() and distribute()
    for i in 0..bufs.len() {
        bufs[i].fill(fill[i]);
    }

    distribute(&mut bufs, &[1, 2], |_, b| b);
    for i in 0..BUFFER_LEN {
        assert!(bufs[0].get(i) == fill[1]);
        assert!(bufs[1].get(i) == fill[2]);
        assert!(bufs[2].get(i) == fill[2]);
    }

    // fill() and distribute()
    for i in 0..bufs.len() {
        bufs[i].fill(fill[i]);
    }

    distribute(&mut bufs, &[1, 2, 2], |_, b| b);
    for i in 0..BUFFER_LEN {
        assert!(bufs[0].get(i) == fill[1]);
        assert!(bufs[1].get(i) == fill[2]);
        assert!(bufs[2].get(i) == fill[2]);
    }

    // fill() and apply()
    for i in 0..bufs.len() {
        bufs[i].fill(fill[i]);
    }

    apply(&mut bufs, &[0, 0], &[1, 2], &[0, 0], |l, r| l + r);

    for i in 0..BUFFER_LEN {
        assert!(bufs[0].get(i) == fill[0] + fill[1] + fill[2]);
        assert!(bufs[1].get(i) == fill[1]);
        assert!(bufs[2].get(i) == fill[2]);
    }
}

#[test]
fn distribute_leaves_self_mapped_buffers_alone() {
    let mut bufs = vec![Buffer::new(0i32), Buffer::new(0i32)];
    bufs[0].put(4);
    bufs[1].fill(10);
    distribute(&mut bufs, &[0, 0], |d, s| d * 100 + s);
    assert_eq!(bufs[0].wrpos(), 1);
    assert_eq!(bufs[0].get(0), 4);
    assert_eq!(bufs[1].get(0), 10 * 100 + 4);
    assert_eq!(bufs[1].get(1), 10 * 100);
    assert_eq!(bufs[1].rdpos(), 0);
}
