use vstd::prelude::*;
use crate::buffer::{BufView, Buffer, BUFFER_LEN};
use crate::error::Error;

verus! {

/// Number of parallel slots in one block.
pub const BLOCK_LEN: usize = 8;

/// One end of a wire: a processor, one of its blocks, and a slot of that block.
#[derive(Clone, Copy, PartialEq, Eq, Structural, Debug)]
pub struct EndPoint {
    pub proc: usize,
    pub block: usize,
    pub conn: usize,
}

/// A wire seen from one of its ends: `from` is the end that stores it.
#[derive(Clone, Copy, PartialEq, Eq, Structural, Debug)]
pub struct Connection {
    pub from: EndPoint,
    pub to: EndPoint,
}

impl Connection {
    /// The same wire seen from its other end.
    pub open spec fn mirror(self) -> Connection {
        Connection { from: self.to, to: self.from }
    }
}

/// The wiring state of one slot.
#[derive(Clone, Copy, PartialEq, Eq, Structural, Debug)]
pub enum Connector {
    Unconnected,
    ConnectedUsing(Connection),
}

/// Number of bound slots in a sequence of connectors.
pub open spec fn count_bound(cs: Seq<Connector>) -> nat
    decreases cs.len(),
{
    if cs.len() == 0 {
        0
    } else {
        count_bound(cs.drop_last()) + if cs.last() is ConnectedUsing {
            1nat
        } else {
            0nat
        }
    }
}

/// Replacing one connector changes the count by the difference of the two.
pub proof fn lemma_count_update(cs: Seq<Connector>, i: int, c: Connector)
    requires
        0 <= i < cs.len(),
    ensures
        count_bound(cs.update(i, c)) + (if cs[i] is ConnectedUsing {
            1int
        } else {
            0int
        }) == count_bound(cs) + (if c is ConnectedUsing {
            1int
        } else {
            0int
        }),
    decreases cs.len(),
{
    let u = cs.update(i, c);
    if i < cs.len() - 1 {
        lemma_count_update(cs.drop_last(), i, c);
        assert(u.drop_last() =~= cs.drop_last().update(i, c));
    } else {
        assert(u.drop_last() =~= cs.drop_last());
    }
}

/// A sequence with no bound connector counts zero, and conversely.
pub proof fn lemma_count_zero(cs: Seq<Connector>)
    ensures
        count_bound(cs) == 0 <==> forall|i: int| 0 <= i < cs.len() ==> cs[i] is Unconnected,
    decreases cs.len(),
{
    if cs.len() > 0 {
        lemma_count_zero(cs.drop_last());
        if count_bound(cs) == 0 {
            assert forall|i: int| 0 <= i < cs.len() implies cs[i] is Unconnected by {
                if i < cs.len() - 1 {
                    assert(cs[i] == cs.drop_last()[i]);
                }
            }
        }
        if forall|i: int| 0 <= i < cs.len() ==> cs[i] is Unconnected {
            assert forall|i: int| 0 <= i < cs.drop_last().len() implies cs.drop_last()[i] is Unconnected by {
                assert(cs.drop_last()[i] == cs[i]);
            }
        }
    }
}

/// The count never exceeds the number of connectors.
pub proof fn lemma_count_le(cs: Seq<Connector>)
    ensures
        count_bound(cs) <= cs.len(),
    decreases cs.len(),
{
    if cs.len() > 0 {
        lemma_count_le(cs.drop_last());
    }
}

/// The mathematical state of a [`Block`].
pub struct BlockView<S> {
    pub bufs: Seq<BufView<S>>,
    pub conns: Seq<Connector>,
    pub num_cons: nat,
}

impl<S> BlockView<S> {
    pub open spec fn wf(self) -> bool {
        &&& self.bufs.len() == BLOCK_LEN
        &&& self.conns.len() == BLOCK_LEN
        &&& self.num_cons == count_bound(self.conns)
        &&& forall|i: int| 0 <= i < BLOCK_LEN ==> (#[trigger] self.bufs[i]).wf()
    }

    /// The same block with slot `i` bound to `con`.
    pub open spec fn bind(self, i: int, con: Connection) -> Self {
        BlockView {
            bufs: self.bufs,
            conns: self.conns.update(i, Connector::ConnectedUsing(con)),
            num_cons: self.num_cons + 1,
        }
    }

    /// The same block with slot `i` unbound.
    pub open spec fn unbind(self, i: int) -> Self {
        BlockView {
            bufs: self.bufs,
            conns: self.conns.update(i, Connector::Unconnected),
            num_cons: (self.num_cons - 1) as nat,
        }
    }

    /// The same block with every buffer replaced by `f` of it.
    pub open spec fn map_bufs(self, f: spec_fn(int, BufView<S>) -> BufView<S>) -> Self {
        BlockView { bufs: self.bufs.map(f), conns: self.conns, num_cons: self.num_cons }
    }

    /// The same block with buffer `i` replaced.
    pub open spec fn set_buf(self, i: int, b: BufView<S>) -> Self {
        BlockView { bufs: self.bufs.update(i, b), conns: self.conns, num_cons: self.num_cons }
    }
}

/// A fixed number of parallel slots, each a sample buffer and a connector.
pub struct Block<S> {
    bufs: Vec<Buffer<S>>,
    conns: Vec<Connector>,
    num_cons: usize,
}

impl<S> View for Block<S> {
    type V = BlockView<S>;

    closed spec fn view(&self) -> BlockView<S> {
        BlockView {
            bufs: self.bufs@.map(|i: int, b: Buffer<S>| b@),
            conns: self.conns@,
            num_cons: self.num_cons as nat,
        }
    }
}

impl<S: Copy> Block<S> {
    /// A block with every slot unbound and every buffer empty, holding `zero`.
    pub fn new(zero: S) -> (r: Block<S>)
        ensures
            r@.wf(),
            r@.num_cons == 0,
            forall|i: int| 0 <= i < BLOCK_LEN ==> #[trigger] r@.conns[i] == Connector::Unconnected,
            forall|i: int|
                0 <= i < BLOCK_LEN ==> (#[trigger] r@.bufs[i]).rd == 0 && r@.bufs[i].wr == 0
                    && r@.bufs[i].zero == zero,
    {
        let mut bufs: Vec<Buffer<S>> = Vec::new();
        let mut conns: Vec<Connector> = Vec::new();
        let mut i: usize = 0;
        while i < BLOCK_LEN
            invariant
                i <= BLOCK_LEN,
                bufs@.len() == i,
                conns@.len() == i,
                forall|k: int| 0 <= k < i ==> #[trigger] conns@[k] == Connector::Unconnected,
                forall|k: int|
                    0 <= k < i ==> (#[trigger] bufs@[k])@.wf() && bufs@[k]@.rd == 0
                        && bufs@[k]@.wr == 0 && bufs@[k]@.zero == zero,
            decreases BLOCK_LEN - i,
        {
            bufs.push(Buffer::new(zero));
            conns.push(Connector::Unconnected);
            i = i + 1;
        }
        proof {
            lemma_count_zero(conns@);
        }
        Block { bufs, conns, num_cons: 0 }
    }

    /// Binds slot `con.from.conn` to `con` if it is unbound.
    pub fn connect(&mut self, con: Connection) -> (r: Result<(), Error>)
        requires
            old(self)@.wf(),
            con.from.conn < BLOCK_LEN,
        ensures
            final(self)@.wf(),
            old(self)@.conns[con.from.conn as int] is Unconnected ==> r is Ok && final(self)@
                == old(self)@.bind(con.from.conn as int, con),
            old(self)@.conns[con.from.conn as int] is ConnectedUsing ==> r == Err::<(), Error>(
                Error::AlreadyConnected,
            ) && final(self)@ == old(self)@,
    {
        let i = con.from.conn;
        match self.conns[i] {
            Connector::Unconnected => {
                proof {
                    lemma_count_update(self.conns@, i as int, Connector::ConnectedUsing(con));
                    lemma_count_le(self.conns@);
                }
                self.conns.set(i, Connector::ConnectedUsing(con));
                self.num_cons = self.num_cons + 1;
                Ok(())
            },
            Connector::ConnectedUsing(_) => Err(Error::AlreadyConnected),
        }
    }

    /// Unbinds slot `idx` if it is bound.
    pub fn disconnect(&mut self, idx: usize) -> (r: Result<(), Error>)
        requires
            old(self)@.wf(),
            idx < BLOCK_LEN,
        ensures
            final(self)@.wf(),
            old(self)@.conns[idx as int] is ConnectedUsing ==> r is Ok && final(self)@ == old(self)@.unbind(idx as int),
            old(self)@.conns[idx as int] is Unconnected ==> r == Err::<(), Error>(
                Error::NotConnected,
            ) && final(self)@ == old(self)@,
    {
        match self.conns[idx] {
            Connector::ConnectedUsing(_) => {
                proof {
                    lemma_count_update(self.conns@, idx as int, Connector::Unconnected);
                }
                self.conns.set(idx, Connector::Unconnected);
                self.num_cons = self.num_cons - 1;
                Ok(())
            },
            Connector::Unconnected => Err(Error::NotConnected),
        }
    }

    pub fn connector(&self, idx: usize) -> (r: Connector)
        requires
            self@.wf(),
            idx < BLOCK_LEN,
        ensures
            r == self@.conns[idx as int],
    {
        self.conns[idx]
    }

    pub fn num_cons(&self) -> (r: usize)
        ensures
            r == self@.num_cons,
    {
        self.num_cons
    }

    /// Replaces buffer `idx` with a full copy of `from`.
    pub fn copy_into(&mut self, idx: usize, from: &Buffer<S>)
        requires
            old(self)@.wf(),
            from@.wf(),
            idx < BLOCK_LEN,
        ensures
            final(self)@.wf(),
            final(self)@ == old(self)@.set_buf(
                idx as int,
                old(self)@.bufs[idx as int].copy_from(from@),
            ),
    {
        assert(self.bufs@[idx as int]@ == self@.bufs[idx as int]);
        self.bufs[idx].copy_from(from);
        assert(self@.bufs =~= old(self)@.bufs.update(idx as int, old(self)@.bufs[idx as int].copy_from(from@)));
    }

    /// Empties buffer `idx`.
    pub fn reset_buffer(&mut self, idx: usize)
        requires
            old(self)@.wf(),
            idx < BLOCK_LEN,
        ensures
            final(self)@.wf(),
            final(self)@ == old(self)@.set_buf(idx as int, old(self)@.bufs[idx as int].reset()),
    {
        assert(self.bufs@[idx as int]@ == self@.bufs[idx as int]);
        self.bufs[idx].reset();
        assert(self@.bufs =~= old(self)@.bufs.update(idx as int, old(self)@.bufs[idx as int].reset()));
    }

    /// Writes `val` into every buffer of the block.
    pub fn put(&mut self, val: S)
        requires
            old(self)@.wf(),
        ensures
            final(self)@.wf(),
            final(self)@ == old(self)@.map_bufs(|i: int, b: BufView<S>| b.put(val)),
    {
        let mut i: usize = 0;
        while i < BLOCK_LEN
            invariant
                i <= BLOCK_LEN,
                self@.wf(),
                self@.conns == old(self)@.conns,
                self@.num_cons == old(self)@.num_cons,
                forall|k: int| 0 <= k < i ==> #[trigger] self@.bufs[k] == old(self)@.bufs[k].put(val),
                forall|k: int| i <= k < BLOCK_LEN ==> #[trigger] self@.bufs[k] == old(self)@.bufs[k],
            decreases BLOCK_LEN - i,
        {
            let ghost prev = self@;
            assert(self.bufs@[i as int]@ == self@.bufs[i as int]);
            self.bufs[i].put(val);
            assert(self@.bufs =~= prev.bufs.update(i as int, self.bufs@[i as int]@));
            i = i + 1;
        }
        assert(self@.bufs =~= old(self)@.bufs.map(|i: int, b: BufView<S>| b.put(val)));
    }

    /// Fills buffers `beg .. beg + len` with `val`; the others are kept.
    pub fn fill_slice(&mut self, beg: usize, len: usize, val: S)
        requires
            old(self)@.wf(),
            beg + len <= BLOCK_LEN,
        ensures
            final(self)@.wf(),
            final(self)@ == old(self)@.map_bufs(
                |i: int, b: BufView<S>|
                    if beg <= i < beg + len {
                        b.fill(val)
                    } else {
                        b
                    },
            ),
    {
        let mut i: usize = beg;
        while i < beg + len
            invariant
                beg <= i <= beg + len,
                beg + len <= BLOCK_LEN,
                self@.wf(),
                self@.conns == old(self)@.conns,
                self@.num_cons == old(self)@.num_cons,
                forall|k: int| beg <= k < i ==> #[trigger] self@.bufs[k] == old(self)@.bufs[k].fill(val),
                forall|k: int|
                    0 <= k < BLOCK_LEN && !(beg <= k < i) ==> #[trigger] self@.bufs[k] == old(self)@.bufs[k],
            decreases beg + len - i,
        {
            let ghost prev = self@;
            assert(self.bufs@[i as int]@ == self@.bufs[i as int]);
            self.bufs[i].fill(val);
            assert(self@.bufs =~= prev.bufs.update(i as int, self.bufs@[i as int]@));
            i = i + 1;
        }
        assert(self@.bufs =~= old(self)@.bufs.map(
            |i: int, b: BufView<S>|
                if beg <= i < beg + len {
                    b.fill(val)
                } else {
                    b
                },
        ));
    }

    /// Fills every buffer with `val`.
    pub fn fill(&mut self, val: S)
        requires
            old(self)@.wf(),
        ensures
            final(self)@.wf(),
            final(self)@ == old(self)@.map_bufs(|i: int, b: BufView<S>| b.fill(val)),
    {
        self.fill_slice(0, BLOCK_LEN, val);
        assert(self@.bufs =~= old(self)@.bufs.map(|i: int, b: BufView<S>| b.fill(val)));
    }

    /// Fills the buffers before `idx` with `l_val` and the rest with `r_val`.
    pub fn fill_split(&mut self, idx: usize, l_val: S, r_val: S)
        requires
            old(self)@.wf(),
            idx <= BLOCK_LEN,
        ensures
            final(self)@.wf(),
            final(self)@ == old(self)@.map_bufs(
                |i: int, b: BufView<S>|
                    if i < idx {
                        b.fill(l_val)
                    } else {
                        b.fill(r_val)
                    },
            ),
    {
        self.fill_slice(0, idx, l_val);
        self.fill_slice(idx, BLOCK_LEN - idx, r_val);
        assert(self@.bufs =~= old(self)@.bufs.map(
            |i: int, b: BufView<S>|
                if i < idx {
                    b.fill(l_val)
                } else {
                    b.fill(r_val)
                },
        ));
    }

    /// Reads one sample from every buffer, in slot order.
    pub fn next_all(&mut self) -> (r: Vec<S>)
        requires
            old(self)@.wf(),
        ensures
            final(self)@.wf(),
            final(self)@ == old(self)@.map_bufs(|i: int, b: BufView<S>| b.advance()),
            r@ == old(self)@.bufs.map(|i: int, b: BufView<S>| b.next_value()),
    {
        let mut r: Vec<S> = Vec::new();
        let mut i: usize = 0;
        while i < BLOCK_LEN
            invariant
                i <= BLOCK_LEN,
                self@.wf(),
                self@.conns == old(self)@.conns,
                self@.num_cons == old(self)@.num_cons,
                r@.len() == i,
                forall|k: int| 0 <= k < i ==> #[trigger] r@[k] == old(self)@.bufs[k].next_value(),
                forall|k: int| 0 <= k < i ==> #[trigger] self@.bufs[k] == old(self)@.bufs[k].advance(),
                forall|k: int| i <= k < BLOCK_LEN ==> #[trigger] self@.bufs[k] == old(self)@.bufs[k],
            decreases BLOCK_LEN - i,
        {
            let ghost prev = self@;
            assert(self.bufs@[i as int]@ == self@.bufs[i as int]);
            let v = self.bufs[i].next();
            assert(self@.bufs =~= prev.bufs.update(i as int, self.bufs@[i as int]@));
            r.push(v);
            i = i + 1;
        }
        assert(self@.bufs =~= old(self)@.bufs.map(|i: int, b: BufView<S>| b.advance()));
        assert(r@ =~= old(self)@.bufs.map(|i: int, b: BufView<S>| b.next_value()));
        r
    }

    pub fn buffer(&self, idx: usize) -> (r: &Buffer<S>)
        requires
            self@.wf(),
            idx < BLOCK_LEN,
        ensures
            r@ == self@.bufs[idx as int],
    {
        &self.bufs[idx]
    }
}

impl<S: Copy + Default> Default for Block<S> {
    /// A block with every slot unbound and every buffer empty.
    fn default() -> (r: Block<S>)
        ensures
            r@.wf(),
            r@.num_cons == 0,
            forall|i: int| 0 <= i < BLOCK_LEN ==> #[trigger] r@.conns[i] == Connector::Unconnected,
    {
        Block::new(S::default())
    }
}

/// The mathematical state of an [`Input`] or [`Output`]: its block and its
/// readiness counter (slots filled this tick for an input, drained for an output).
pub struct PortView<S> {
    pub block: BlockView<S>,
    pub cnt: nat,
}

impl<S> PortView<S> {
    pub open spec fn wf(self) -> bool {
        self.block.wf()
    }

    pub open spec fn with_block(self, b: BlockView<S>) -> Self {
        PortView { block: b, cnt: self.cnt }
    }

    pub open spec fn with_cnt(self, c: nat) -> Self {
        PortView { block: self.block, cnt: c }
    }

    /// The counter after one more slot is counted, never past the number of bound slots.
    pub open spec fn counted(self) -> Self {
        if self.cnt < self.block.num_cons {
            self.with_cnt(self.cnt + 1)
        } else {
            self
        }
    }

    /// Every bound slot of the block has been counted.
    pub open spec fn complete(self) -> bool {
        self.cnt == self.block.num_cons
    }
}

/// What the scheduler reads and resets in an input or output block.
pub trait Port<S> {
    spec fn port(&self) -> PortView<S>;

    /// The connector of slot `idx`.
    fn slot(&self, idx: usize) -> (r: Connector)
        requires
            self.port().wf(),
            idx < BLOCK_LEN,
        ensures
            r == self.port().block.conns[idx as int],
    ;

    /// Sets the readiness counter back to 0.
    fn clear_count(&mut self)
        ensures
            final(self).port() == old(self).port().with_cnt(0),
    ;
}

/// Wiring operations shared by input and output blocks.
pub trait Connectors {
    spec fn slots(&self) -> Seq<Connector>;

    spec fn well_formed(&self) -> bool;

    /// Binds slot `con.from.conn` to `con` if it is unbound.
    fn connect(&mut self, con: Connection) -> (r: Result<(), Error>)
        requires
            old(self).well_formed(),
            con.from.conn < BLOCK_LEN,
        ensures
            final(self).well_formed(),
            old(self).slots()[con.from.conn as int] is Unconnected ==> r is Ok && final(self).slots() == old(self).slots().update(
                con.from.conn as int,
                Connector::ConnectedUsing(con),
            ),
            old(self).slots()[con.from.conn as int] is ConnectedUsing ==> r == Err::<(), Error>(
                Error::AlreadyConnected,
            ) && final(self).slots() == old(self).slots(),
    ;

    /// Unbinds slot `idx` if it is bound.
    fn disconnect(&mut self, idx: usize) -> (r: Result<(), Error>)
        requires
            old(self).well_formed(),
            idx < BLOCK_LEN,
        ensures
            final(self).well_formed(),
            old(self).slots()[idx as int] is ConnectedUsing ==> r is Ok && final(self).slots()
                == old(self).slots().update(idx as int, Connector::Unconnected),
            old(self).slots()[idx as int] is Unconnected ==> r == Err::<(), Error>(
                Error::NotConnected,
            ) && final(self).slots() == old(self).slots(),
    ;

    fn connector(&self, idx: usize) -> (r: Connector)
        requires
            self.well_formed(),
            idx < BLOCK_LEN,
        ensures
            r == self.slots()[idx as int],
    ;

    /// Number of bound slots.
    fn num_cons(&self) -> (r: usize)
        requires
            self.well_formed(),
        ensures
            r == count_bound(self.slots()),
    ;
}

/// An input block: buffers filled by upstream processors, with a count of the slots filled this tick.
pub struct Input<S> {
    b: Block<S>,
    full_cnt: usize,
}

impl<S> View for Input<S> {
    type V = PortView<S>;

    closed spec fn view(&self) -> PortView<S> {
        PortView { block: self.b@, cnt: self.full_cnt as nat }
    }
}

impl<S: Copy> Input<S> {
    /// A block with every slot unbound, every buffer empty, and the counter at 0.
    pub fn new(zero: S) -> (r: Input<S>)
        ensures
            r@.wf(),
            r@.cnt == 0,
            r@.block.num_cons == 0,
            forall|i: int| 0 <= i < BLOCK_LEN ==> #[trigger] r@.block.conns[i] == Connector::Unconnected,
            forall|i: int|
                0 <= i < BLOCK_LEN ==> (#[trigger] r@.block.bufs[i]).rd == 0 && r@.block.bufs[i].wr == 0
                    && r@.block.bufs[i].zero == zero,
    {
        Input { b: Block::new(zero), full_cnt: 0 }
    }

    /// Counts one more filled slot, never past the number of bound slots.
    pub fn inc_full_cnt(&mut self)
        requires
            old(self)@.wf(),
        ensures
            final(self)@ == old(self)@.counted(),
    {
        if self.full_cnt < self.b.num_cons() {
            self.full_cnt = self.full_cnt + 1;
        }
    }

    pub fn full_cnt(&self) -> (r: usize)
        ensures
            r == self@.cnt,
    {
        self.full_cnt
    }

    pub fn rst_full_cnt(&mut self)
        ensures
            final(self)@ == old(self)@.with_cnt(0),
    {
        self.full_cnt = 0;
    }

    /// The block of buffers and connectors.
    pub fn block(&self) -> (r: &Block<S>)
        ensures
            r@ == self@.block,
    {
        &self.b
    }

    /// Replaces buffer `idx` with a full copy of `from`.
    pub fn copy_into(&mut self, idx: usize, from: &Buffer<S>)
        requires
            old(self)@.wf(),
            from@.wf(),
            idx < BLOCK_LEN,
        ensures
            final(self)@.wf(),
            final(self)@ == old(self)@.with_block(
                old(self)@.block.set_buf(idx as int, old(self)@.block.bufs[idx as int].copy_from(from@)),
            ),
    {
        self.b.copy_into(idx, from);
    }

    /// Empties buffer `idx`.
    pub fn reset_buffer(&mut self, idx: usize)
        requires
            old(self)@.wf(),
            idx < BLOCK_LEN,
        ensures
            final(self)@.wf(),
            final(self)@ == old(self)@.with_block(
                old(self)@.block.set_buf(idx as int, old(self)@.block.bufs[idx as int].reset()),
            ),
    {
        self.b.reset_buffer(idx);
    }

    /// Writes `val` into every buffer.
    pub fn put(&mut self, val: S)
        requires
            old(self)@.wf(),
        ensures
            final(self)@.wf(),
            final(self)@ == old(self)@.with_block(
                old(self)@.block.map_bufs(|i: int, b: BufView<S>| b.put(val)),
            ),
    {
        self.b.put(val);
    }

    /// Fills every buffer with `val`.
    pub fn fill(&mut self, val: S)
        requires
            old(self)@.wf(),
        ensures
            final(self)@.wf(),
            final(self)@ == old(self)@.with_block(
                old(self)@.block.map_bufs(|i: int, b: BufView<S>| b.fill(val)),
            ),
    {
        self.b.fill(val);
    }

    /// Fills buffers `beg .. beg + len` with `val`.
    pub fn fill_slice(&mut self, beg: usize, len: usize, val: S)
        requires
            old(self)@.wf(),
            beg + len <= BLOCK_LEN,
        ensures
            final(self)@.wf(),
            final(self)@ == old(self)@.with_block(
                old(self)@.block.map_bufs(
                    |i: int, b: BufView<S>|
                        if beg <= i < beg + len {
                            b.fill(val)
                        } else {
                            b
                        },
                ),
            ),
    {
        self.b.fill_slice(beg, len, val);
    }

    /// Fills the buffers before `idx` with `l_val` and the rest with `r_val`.
    pub fn fill_split(&mut self, idx: usize, l_val: S, r_val: S)
        requires
            old(self)@.wf(),
            idx <= BLOCK_LEN,
        ensures
            final(self)@.wf(),
            final(self)@ == old(self)@.with_block(
                old(self)@.block.map_bufs(
                    |i: int, b: BufView<S>|
                        if i < idx {
                            b.fill(l_val)
                        } else {
                            b.fill(r_val)
                        },
                ),
            ),
    {
        self.b.fill_split(idx, l_val, r_val);
    }

    /// Reads one sample from every buffer, in slot order.
    pub fn next_all(&mut self) -> (r: Vec<S>)
        requires
            old(self)@.wf(),
        ensures
            final(self)@.wf(),
            final(self)@ == old(self)@.with_block(
                old(self)@.block.map_bufs(|i: int, b: BufView<S>| b.advance()),
            ),
            r@ == old(self)@.block.bufs.map(|i: int, b: BufView<S>| b.next_value()),
    {
        self.b.next_all()
    }

    pub fn buffer(&self, idx: usize) -> (r: &Buffer<S>)
        requires
            self@.wf(),
            idx < BLOCK_LEN,
        ensures
            r@ == self@.block.bufs[idx as int],
    {
        self.b.buffer(idx)
    }
}

impl<S: Copy + Default> Default for Input<S> {
    /// A block with every slot unbound, every buffer empty, and the counter at 0.
    fn default() -> (r: Input<S>)
        ensures
            r@.wf(),
            r@.cnt == 0,
            r@.block.num_cons == 0,
    {
        Input::new(S::default())
    }
}

impl<S: Copy> Port<S> for Input<S> {
    open spec fn port(&self) -> PortView<S> {
        self@
    }

    fn slot(&self, idx: usize) -> (r: Connector) {
        self.b.connector(idx)
    }

    fn clear_count(&mut self) {
        self.full_cnt = 0;
    }
}

impl<S: Copy> Connectors for Input<S> {
    open spec fn slots(&self) -> Seq<Connector> {
        self@.block.conns
    }

    open spec fn well_formed(&self) -> bool {
        self@.wf()
    }

    fn connect(&mut self, con: Connection) -> (r: Result<(), Error>)
        ensures
            old(self)@.block.conns[con.from.conn as int] is Unconnected ==> final(self)@
                == old(self)@.with_block(old(self)@.block.bind(con.from.conn as int, con)),
            old(self)@.block.conns[con.from.conn as int] is ConnectedUsing ==> final(self)@ == old(self)@,
    {
        self.b.connect(con)
    }

    fn disconnect(&mut self, idx: usize) -> (r: Result<(), Error>)
        ensures
            old(self)@.block.conns[idx as int] is ConnectedUsing ==> final(self)@ == old(self)@.with_block(old(self)@.block.unbind(idx as int)),
            old(self)@.block.conns[idx as int] is Unconnected ==> final(self)@ == old(self)@,
    {
        self.b.disconnect(idx)
    }

    fn connector(&self, idx: usize) -> (r: Connector) {
        self.b.connector(idx)
    }

    fn num_cons(&self) -> (r: usize) {
        self.b.num_cons()
    }
}

/// An output block: buffers written by its processor, with a count of the slots drained this tick.
pub struct Output<S> {
    b: Block<S>,
    empty_cnt: usize,
}

impl<S> View for Output<S> {
    type V = PortView<S>;

    closed spec fn view(&self) -> PortView<S> {
        PortView { block: self.b@, cnt: self.empty_cnt as nat }
    }
}

impl<S: Copy> Output<S> {
    /// A block with every slot unbound, every buffer empty, and the counter at 0.
    pub fn new(zero: S) -> (r: Output<S>)
        ensures
            r@.wf(),
            r@.cnt == 0,
            r@.block.num_cons == 0,
            forall|i: int| 0 <= i < BLOCK_LEN ==> #[trigger] r@.block.conns[i] == Connector::Unconnected,
            forall|i: int|
                0 <= i < BLOCK_LEN ==> (#[trigger] r@.block.bufs[i]).rd == 0 && r@.block.bufs[i].wr == 0
                    && r@.block.bufs[i].zero == zero,
    {
        Output { b: Block::new(zero), empty_cnt: 0 }
    }

    /// Counts one more drained slot, never past the number of bound slots.
    pub fn inc_empty_cnt(&mut self)
        requires
            old(self)@.wf(),
        ensures
            final(self)@ == old(self)@.counted(),
    {
        if self.empty_cnt < self.b.num_cons() {
            self.empty_cnt = self.empty_cnt + 1;
        }
    }

    pub fn empty_cnt(&self) -> (r: usize)
        ensures
            r == self@.cnt,
    {
        self.empty_cnt
    }

    pub fn rst_empty_cnt(&mut self)
        ensures
            final(self)@ == old(self)@.with_cnt(0),
    {
        self.empty_cnt = 0;
    }

    /// The block of buffers and connectors.
    pub fn block(&self) -> (r: &Block<S>)
        ensures
            r@ == self@.block,
    {
        &self.b
    }

    /// Replaces buffer `idx` with a full copy of `from`.
    pub fn copy_into(&mut self, idx: usize, from: &Buffer<S>)
        requires
            old(self)@.wf(),
            from@.wf(),
            idx < BLOCK_LEN,
        ensures
            final(self)@.wf(),
            final(self)@ == old(self)@.with_block(
                old(self)@.block.set_buf(idx as int, old(self)@.block.bufs[idx as int].copy_from(from@)),
            ),
    {
        self.b.copy_into(idx, from);
    }

    /// Empties buffer `idx`.
    pub fn reset_buffer(&mut self, idx: usize)
        requires
            old(self)@.wf(),
            idx < BLOCK_LEN,
        ensures
            final(self)@.wf(),
            final(self)@ == old(self)@.with_block(
                old(self)@.block.set_buf(idx as int, old(self)@.block.bufs[idx as int].reset()),
            ),
    {
        self.b.reset_buffer(idx);
    }

    /// Writes `val` into every buffer.
    pub fn put(&mut self, val: S)
        requires
            old(self)@.wf(),
        ensures
            final(self)@.wf(),
            final(self)@ == old(self)@.with_block(
                old(self)@.block.map_bufs(|i: int, b: BufView<S>| b.put(val)),
            ),
    {
        self.b.put(val);
    }

    /// Fills every buffer with `val`.
    pub fn fill(&mut self, val: S)
        requires
            old(self)@.wf(),
        ensures
            final(self)@.wf(),
            final(self)@ == old(self)@.with_block(
                old(self)@.block.map_bufs(|i: int, b: BufView<S>| b.fill(val)),
            ),
    {
        self.b.fill(val);
    }

    /// Fills buffers `beg .. beg + len` with `val`.
    pub fn fill_slice(&mut self, beg: usize, len: usize, val: S)
        requires
            old(self)@.wf(),
            beg + len <= BLOCK_LEN,
        ensures
            final(self)@.wf(),
            final(self)@ == old(self)@.with_block(
                old(self)@.block.map_bufs(
                    |i: int, b: BufView<S>|
                        if beg <= i < beg + len {
                            b.fill(val)
                        } else {
                            b
                        },
                ),
            ),
    {
        self.b.fill_slice(beg, len, val);
    }

    /// Fills the buffers before `idx` with `l_val` and the rest with `r_val`.
    pub fn fill_split(&mut self, idx: usize, l_val: S, r_val: S)
        requires
            old(self)@.wf(),
            idx <= BLOCK_LEN,
        ensures
            final(self)@.wf(),
            final(self)@ == old(self)@.with_block(
                old(self)@.block.map_bufs(
                    |i: int, b: BufView<S>|
                        if i < idx {
                            b.fill(l_val)
                        } else {
                            b.fill(r_val)
                        },
                ),
            ),
    {
        self.b.fill_split(idx, l_val, r_val);
    }

    /// Reads one sample from every buffer, in slot order.
    pub fn next_all(&mut self) -> (r: Vec<S>)
        requires
            old(self)@.wf(),
        ensures
            final(self)@.wf(),
            final(self)@ == old(self)@.with_block(
                old(self)@.block.map_bufs(|i: int, b: BufView<S>| b.advance()),
            ),
            r@ == old(self)@.block.bufs.map(|i: int, b: BufView<S>| b.next_value()),
    {
        self.b.next_all()
    }

    pub fn buffer(&self, idx: usize) -> (r: &Buffer<S>)
        requires
            self@.wf(),
            idx < BLOCK_LEN,
        ensures
            r@ == self@.block.bufs[idx as int],
    {
        self.b.buffer(idx)
    }
}

impl<S: Copy + Default> Default for Output<S> {
    /// A block with every slot unbound, every buffer empty, and the counter at 0.
    fn default() -> (r: Output<S>)
        ensures
            r@.wf(),
            r@.cnt == 0,
            r@.block.num_cons == 0,
    {
        Output::new(S::default())
    }
}

impl<S: Copy> Port<S> for Output<S> {
    open spec fn port(&self) -> PortView<S> {
        self@
    }

    fn slot(&self, idx: usize) -> (r: Connector) {
        self.b.connector(idx)
    }

    fn clear_count(&mut self) {
        self.empty_cnt = 0;
    }
}

impl<S: Copy> Connectors for Output<S> {
    open spec fn slots(&self) -> Seq<Connector> {
        self@.block.conns
    }

    open spec fn well_formed(&self) -> bool {
        self@.wf()
    }

    fn connect(&mut self, con: Connection) -> (r: Result<(), Error>)
        ensures
            old(self)@.block.conns[con.from.conn as int] is Unconnected ==> final(self)@
                == old(self)@.with_block(old(self)@.block.bind(con.from.conn as int, con)),
            old(self)@.block.conns[con.from.conn as int] is ConnectedUsing ==> final(self)@ == old(self)@,
    {
        self.b.connect(con)
    }

    fn disconnect(&mut self, idx: usize) -> (r: Result<(), Error>)
        ensures
            old(self)@.block.conns[idx as int] is ConnectedUsing ==> final(self)@ == old(self)@.with_block(old(self)@.block.unbind(idx as int)),
            old(self)@.block.conns[idx as int] is Unconnected ==> final(self)@ == old(self)@,
    {
        self.b.disconnect(idx)
    }

    fn connector(&self, idx: usize) -> (r: Connector) {
        self.b.connector(idx)
    }

    fn num_cons(&self) -> (r: usize) {
        self.b.num_cons()
    }
}

} // verus!
