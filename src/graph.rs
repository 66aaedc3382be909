//! The mathematical model of a unit: its state as plain values, the effect
//! of each scheduling step on it, and the facts proved about them.

use vstd::prelude::*;
use crate::block::{
    lemma_count_update, lemma_count_zero, Connection, Connector, EndPoint, PortView, BLOCK_LEN,
};
use crate::buffer::BUFFER_LEN;
use crate::error::Error;

verus! {

/// A batch of connections to dispatch, tagged with the processor it was made for.
pub struct Job {
    pub cons: Seq<Connection>,
    pub proc: usize,
}

/// The mathematical state of a [`Unit`].
pub struct UnitView<S, P> {
    pub procs: Seq<P>,
    pub ins: Seq<Seq<PortView<S>>>,
    pub outs: Seq<Seq<PortView<S>>>,
    /// Processors ready to run, oldest first.
    pub next: Seq<usize>,
    /// Forward dispatch jobs, oldest first.
    pub forward: Seq<Job>,
    /// Backward dispatch jobs, oldest first.
    pub backward: Seq<Job>,
    /// Processors with no bound input.
    pub start: Seq<usize>,
    pub started: bool,
    /// A ranking of the processors under which every connection climbs:
    /// the witness that the graph has no cycle.
    pub rank: Seq<nat>,
}

impl<S, P> UnitView<S, P> {
    pub open spec fn n(self) -> nat {
        self.procs.len()
    }

    pub open spec fn valid_out(self, e: EndPoint) -> bool {
        &&& e.proc < self.n()
        &&& e.block < self.outs[e.proc as int].len()
        &&& e.conn < BLOCK_LEN
    }

    pub open spec fn valid_in(self, e: EndPoint) -> bool {
        &&& e.proc < self.n()
        &&& e.block < self.ins[e.proc as int].len()
        &&& e.conn < BLOCK_LEN
    }

    /// `c` names an output slot as its source and an input slot as its destination.
    pub open spec fn valid_con(self, c: Connection) -> bool {
        self.valid_out(c.from) && self.valid_in(c.to)
    }

    pub open spec fn out_slot(self, e: EndPoint) -> Connector {
        self.outs[e.proc as int][e.block as int].block.conns[e.conn as int]
    }

    pub open spec fn in_slot(self, e: EndPoint) -> Connector {
        self.ins[e.proc as int][e.block as int].block.conns[e.conn as int]
    }

    pub open spec fn blocks_ok(self) -> bool {
        &&& self.n() <= usize::MAX
        &&& forall|p: int| 0 <= p < self.n() ==> (#[trigger] self.ins[p]).len() <= usize::MAX
        &&& forall|p: int| 0 <= p < self.n() ==> (#[trigger] self.outs[p]).len() <= usize::MAX
        &&& self.ins.len() == self.n()
        &&& self.outs.len() == self.n()
        &&& forall|p: int, b: int|
            0 <= p < self.n() && 0 <= b < self.ins[p].len() ==> (#[trigger] self.ins[p][b]).wf()
        &&& forall|p: int, b: int|
            0 <= p < self.n() && 0 <= b < self.outs[p].len() ==> (#[trigger] self.outs[p][b]).wf()
    }

    /// Every bound slot stores the wire from its own end, and the other end
    /// stores the mirror of it.
    pub open spec fn wiring_ok(self) -> bool {
        &&& forall|e: EndPoint|
            #![trigger self.out_slot(e)]
            self.valid_out(e) && self.out_slot(e) is ConnectedUsing ==> {
                let c = self.out_slot(e)->ConnectedUsing_0;
                &&& c.from == e
                &&& self.valid_in(c.to)
                &&& self.in_slot(c.to) == Connector::ConnectedUsing(c.mirror())
            }
        &&& forall|e: EndPoint|
            #![trigger self.in_slot(e)]
            self.valid_in(e) && self.in_slot(e) is ConnectedUsing ==> {
                let c = self.in_slot(e)->ConnectedUsing_0;
                &&& c.from == e
                &&& self.valid_out(c.to)
                &&& self.out_slot(c.to) == Connector::ConnectedUsing(c.mirror())
            }
    }

    /// No input block of processor `p` has a bound slot.
    pub open spec fn no_inputs(self, p: int) -> bool {
        forall|b: int| 0 <= b < self.ins[p].len() ==> (#[trigger] self.ins[p][b]).block.num_cons == 0
    }

    /// The start set holds exactly the processors without bound inputs, once each.
    pub open spec fn start_ok(self) -> bool {
        &&& self.start.no_duplicates()
        &&& forall|i: int| 0 <= i < self.start.len() ==> #[trigger] self.start[i] < self.n()
        &&& forall|p: int| 0 <= p < self.n() ==> (self.start.contains(p as usize) <==> self.no_inputs(p))
    }

    pub open spec fn job_ok(self, j: Job) -> bool {
        &&& j.proc < self.n()
        &&& forall|k: int| 0 <= k < j.cons.len() ==> self.valid_con(#[trigger] j.cons[k])
    }

    pub open spec fn queues_ok(self) -> bool {
        &&& forall|i: int| 0 <= i < self.next.len() ==> #[trigger] self.next[i] < self.n()
        &&& forall|i: int| 0 <= i < self.forward.len() ==> self.job_ok(#[trigger] self.forward[i])
        &&& forall|i: int| 0 <= i < self.backward.len() ==> self.job_ok(#[trigger] self.backward[i])
    }

    pub open spec fn rank_ok(self) -> bool {
        &&& self.rank.len() == self.n()
        &&& forall|e: EndPoint|
            #![trigger self.out_slot(e)]
            self.valid_out(e) && self.out_slot(e) is ConnectedUsing ==> self.rank[e.proc as int]
                < self.rank[self.out_slot(e)->ConnectedUsing_0.to.proc as int]
    }

    /// Every processor of `set` sends its wires only to processors of `set`.
    pub open spec fn closed(self, set: Set<int>) -> bool {
        forall|e: EndPoint|
            #![trigger self.out_slot(e)]
            self.valid_out(e) && set.contains(e.proc as int) && self.out_slot(e) is ConnectedUsing
                ==> set.contains(self.out_slot(e)->ConnectedUsing_0.to.proc as int)
    }

    /// Data produced by `q` can flow to `p`: every set that holds `q` and is
    /// closed under the wires holds `p`.
    pub open spec fn reaches(self, q: int, p: int) -> bool {
        forall|set: Set<int>| set.contains(q) && self.closed(set) ==> set.contains(p)
    }

    /// Every wire out of `x` leads to a processor marked in `marks`.
    pub open spec fn succs_marked(self, marks: Seq<bool>, x: int) -> bool {
        forall|e: EndPoint|
            #![trigger self.out_slot(e)]
            self.valid_out(e) && e.proc == x && self.out_slot(e) is ConnectedUsing
                ==> marks[self.out_slot(e)->ConnectedUsing_0.to.proc as int]
    }

    /// The wire `c` exists, registered at both of its ends.
    pub open spec fn has_connection(self, c: Connection) -> bool {
        &&& self.out_slot(c.from) == Connector::ConnectedUsing(c)
        &&& self.in_slot(c.to) == Connector::ConnectedUsing(c.mirror())
    }

    /// Both ends of `c` bound to it, and the start set not yet refreshed.
    pub open spec fn bind(self, c: Connection) -> Self {
        let (p, b, s) = (c.from.proc as int, c.from.block as int, c.from.conn as int);
        let (q, tb, ts) = (c.to.proc as int, c.to.block as int, c.to.conn as int);
        UnitView {
            outs: self.outs.update(p, self.outs[p].update(b, self.outs[p][b].with_block(self.outs[p][b].block.bind(s, c)))),
            ins: self.ins.update(q, self.ins[q].update(tb, self.ins[q][tb].with_block(self.ins[q][tb].block.bind(ts, c.mirror())))),
            ..self
        }
    }

    /// Both ends of `c` unbound, and the start set not yet refreshed.
    pub open spec fn unbind(self, c: Connection) -> Self {
        let (p, b, s) = (c.from.proc as int, c.from.block as int, c.from.conn as int);
        let (q, tb, ts) = (c.to.proc as int, c.to.block as int, c.to.conn as int);
        UnitView {
            outs: self.outs.update(p, self.outs[p].update(b, self.outs[p][b].with_block(self.outs[p][b].block.unbind(s)))),
            ins: self.ins.update(q, self.ins[q].update(tb, self.ins[q][tb].with_block(self.ins[q][tb].block.unbind(ts)))),
            ..self
        }
    }

    /// The start set and ready queue after processor `q`'s inputs changed:
    /// a processor without bound inputs joins both if it was not a start node;
    /// one with bound inputs leaves the start set, if there, and its first
    /// place in the ready queue, if any.
    pub open spec fn refresh_start(self, q: usize) -> Self {
        if self.no_inputs(q as int) {
            if self.start.contains(q) {
                self
            } else {
                UnitView { start: self.start.push(q), next: self.next.push(q), ..self }
            }
        } else {
            UnitView {
                start: if self.start.contains(q) {
                    self.start.remove(self.start.index_of(q))
                } else {
                    self.start
                },
                next: remove_first(self.next, q),
                ..self
            }
        }
    }

    /// Equal in everything but the ranking.
    pub open spec fn agrees(self, o: Self) -> bool {
        &&& self.procs == o.procs
        &&& self.ins == o.ins
        &&& self.outs == o.outs
        &&& self.next == o.next
        &&& self.forward == o.forward
        &&& self.backward == o.backward
        &&& self.start == o.start
        &&& self.started == o.started
    }

    /// The wires out of all output blocks of processors `ps`, in order.
    pub open spec fn outputs_of(self, ps: Seq<usize>) -> Seq<Connection>
        decreases ps.len(),
    {
        if ps.len() == 0 {
            Seq::empty()
        } else {
            self.outputs_of(ps.drop_last()) + stored_cons(self.outs[ps.last() as int])
        }
    }

    /// The processors that feed any input of `q`, each once.
    pub open spec fn feeders(self, q: int) -> Seq<usize> {
        far_procs(stored_cons(self.ins[q]))
    }

    /// The backward job made when `q` becomes ready: every wire out of every
    /// processor that feeds `q`.
    pub open spec fn back_job(self, q: usize) -> Job {
        Job { cons: self.outputs_of(self.feeders(q as int)), proc: q }
    }

    /// Moves the samples along `c`: the destination buffer takes a copy of
    /// the source buffer, which is emptied; both ends count the transfer.
    pub open spec fn deliver(self, c: Connection) -> Self {
        let (p, b, s) = (c.from.proc as int, c.from.block as int, c.from.conn as int);
        let (q, tb, ts) = (c.to.proc as int, c.to.block as int, c.to.conn as int);
        let src = self.outs[p][b].block.bufs[s];
        let dst = self.ins[q][tb];
        let out = self.outs[p][b];
        UnitView {
            ins: self.ins.update(q, self.ins[q].update(tb, dst.with_block(dst.block.set_buf(ts, dst.block.bufs[ts].copy_from(src))).counted())),
            outs: self.outs.update(p, self.outs[p].update(b, out.with_block(out.block.set_buf(s, src.reset())).counted())),
            ..self
        }
    }

    /// Every input block of `q` has counted all of its bound slots.
    pub open spec fn inputs_complete(self, q: int) -> bool {
        forall|b: int| 0 <= b < self.ins[q].len() ==> (#[trigger] self.ins[q][b]).complete()
    }

    /// Every output block of `x` has counted all of its bound slots.
    pub open spec fn outputs_complete(self, x: int) -> bool {
        forall|b: int| 0 <= b < self.outs[x].len() ==> (#[trigger] self.outs[x][b]).complete()
    }

    /// `q` is fed: its input counters restart, it joins the ready queue, and
    /// its backward job is queued.
    pub open spec fn enqueue_ready(self, q: usize) -> Self {
        UnitView {
            ins: self.ins.update(q as int, self.ins[q as int].map(|i: int, x: PortView<S>| x.with_cnt(0))),
            next: self.next.push(q),
            backward: self.backward.push(self.back_job(q)),
            ..self
        }
    }

    /// One connection of a forward job: deliver, then queue the destination
    /// if all of its inputs are now filled.
    pub open spec fn forward_one(self, c: Connection) -> Self {
        let w = self.deliver(c);
        if w.inputs_complete(c.to.proc as int) {
            w.enqueue_ready(c.to.proc)
        } else {
            w
        }
    }

    pub open spec fn forward_all(self, cons: Seq<Connection>) -> Self
        decreases cons.len(),
    {
        if cons.len() == 0 {
            self
        } else {
            self.forward_all(cons.drop_last()).forward_one(cons.last())
        }
    }

    /// The positions in `cs` at which delivery queued the destination to run.
    pub open spec fn admitted(self, cs: Seq<Connection>) -> Seq<int>
        decreases cs.len(),
    {
        if cs.len() == 0 {
            Seq::empty()
        } else {
            let w = self.forward_all(cs.drop_last());
            let a = self.admitted(cs.drop_last());
            if w.deliver(cs.last()).inputs_complete(cs.last().to.proc as int) {
                a.push(cs.len() - 1)
            } else {
                a
            }
        }
    }

    /// One connection of a backward job: if every output of its source has
    /// drained, the source's output counters restart and, if it is a start
    /// node, it is queued to run again.
    pub open spec fn backward_one(self, c: Connection) -> Self {
        let x = c.from.proc as int;
        if self.outputs_complete(x) {
            let w = UnitView {
                outs: self.outs.update(x, self.outs[x].map(|i: int, o: PortView<S>| o.with_cnt(0))),
                ..self
            };
            if self.start.contains(c.from.proc) {
                UnitView { next: w.next.push(c.from.proc), ..w }
            } else {
                w
            }
        } else {
            self
        }
    }

    pub open spec fn backward_all(self, cons: Seq<Connection>) -> Self
        decreases cons.len(),
    {
        if cons.len() == 0 {
            self
        } else {
            self.backward_all(cons.drop_last()).backward_one(cons.last())
        }
    }

    pub open spec fn backward_jobs(self, jobs: Seq<Job>) -> Self
        decreases jobs.len(),
    {
        if jobs.len() == 0 {
            self
        } else {
            self.backward_jobs(jobs.drop_last()).backward_all(jobs.last().cons)
        }
    }

    /// `o` is this state after processor `p` ran: `p`'s samples and internal
    /// state may differ, nothing else does.
    pub open spec fn ran(self, o: Self, p: int) -> bool {
        &&& o.procs.len() == self.procs.len()
        &&& forall|x: int| 0 <= x < self.n() && x != p ==> #[trigger] o.procs[x] == self.procs[x]
        &&& o.ins.len() == self.ins.len()
        &&& o.outs.len() == self.outs.len()
        &&& forall|x: int| 0 <= x < self.n() && x != p ==> #[trigger] o.ins[x] == self.ins[x]
        &&& forall|x: int| 0 <= x < self.n() && x != p ==> #[trigger] o.outs[x] == self.outs[x]
        &&& o.ins[p].len() == self.ins[p].len()
        &&& o.outs[p].len() == self.outs[p].len()
        &&& forall|b: int|
            0 <= b < self.ins[p].len() ==> {
                &&& (#[trigger] o.ins[p][b]).wf()
                &&& o.ins[p][b].block.conns == self.ins[p][b].block.conns
                &&& o.ins[p][b].block.num_cons == self.ins[p][b].block.num_cons
                &&& o.ins[p][b].cnt == self.ins[p][b].cnt
            }
        &&& forall|b: int|
            0 <= b < self.outs[p].len() ==> {
                &&& (#[trigger] o.outs[p][b]).wf()
                &&& o.outs[p][b].block.conns == self.outs[p][b].block.conns
                &&& o.outs[p][b].block.num_cons == self.outs[p][b].block.num_cons
                &&& o.outs[p][b].cnt == self.outs[p][b].cnt
            }
    }

    /// `m` is this state after one run step: the processor at the front of
    /// the ready queue ran, leaving every one of its output buffers fully
    /// written, left that queue, and its outgoing wires were queued as a
    /// forward job. With nothing ready, `m` is this state.
    pub open spec fn processed(self, m: Self) -> bool {
        if self.next.len() == 0 {
            m == self
        } else {
            let p = self.next[0];
            &&& self.ran(m, p as int)
            &&& m.next == self.next.drop_first()
            &&& m.forward == self.forward.push(Job { cons: stored_cons(self.outs[p as int]), proc: p })
            &&& m.backward == self.backward
            &&& m.start == self.start
            &&& m.started == self.started
            &&& m.rank == self.rank
            &&& forall|b: int, j: int|
                0 <= b < m.outs[p as int].len() && 0 <= j < BLOCK_LEN
                    ==> (#[trigger] m.outs[p as int][b].block.bufs[j]).wr == BUFFER_LEN
        }
    }

    /// This state after one forward dispatch step: the oldest forward job
    /// leaves its queue and is delivered wire by wire.
    pub open spec fn dispatched_forward(self) -> Self {
        if self.forward.len() == 0 {
            self
        } else {
            (UnitView { forward: self.forward.drop_first(), ..self }).forward_all(self.forward[0].cons)
        }
    }

    /// `b` is this state after one run step and then one forward dispatch step.
    pub open spec fn drain_step(self, b: Self) -> bool {
        exists|m: Self| #[trigger] self.processed(m) && b == m.dispatched_forward()
    }

    /// What `connect(c)` returns, on a stopped unit.
    pub open spec fn connect_outcome(self, c: Connection) -> Result<(), Error> {
        if self.started {
            Err(Error::Started)
        } else if self.reaches(c.to.proc as int, c.from.proc as int) {
            Err(Error::WouldCycle)
        } else if self.out_slot(c.from) is ConnectedUsing || self.in_slot(c.to) is ConnectedUsing {
            Err(Error::AlreadyConnected)
        } else {
            Ok(())
        }
    }

    /// What `disconnect(c)` returns.
    pub open spec fn disconnect_outcome(self, c: Connection) -> Result<(), Error> {
        if self.started {
            Err(Error::Started)
        } else if !self.has_connection(c) {
            Err(Error::NoSuchConnection)
        } else {
            Ok(())
        }
    }

    /// Well formed, except that processor `q` may be misfiled in the start set.
    pub open spec fn wf_but_start(self, q: int) -> bool {
        &&& self.blocks_ok()
        &&& self.wiring_ok()
        &&& self.queues_ok()
        &&& self.rank_ok()
        &&& self.start.no_duplicates()
        &&& forall|i: int| 0 <= i < self.start.len() ==> #[trigger] self.start[i] < self.n()
        &&& forall|p: int|
            0 <= p < self.n() && p != q ==> (self.start.contains(p as usize) <==> self.no_inputs(p))
    }

    pub open spec fn wf(self) -> bool {
        &&& self.blocks_ok()
        &&& self.wiring_ok()
        &&& self.start_ok()
        &&& self.queues_ok()
        &&& self.rank_ok()
    }

    /// `other` has the same processors, blocks, wires, ranking and start set.
    pub open spec fn same_graph(self, other: Self) -> bool {
        &&& other.n() == self.n()
        &&& other.rank == self.rank
        &&& other.start == self.start
        &&& other.ins.len() == self.ins.len()
        &&& other.outs.len() == self.outs.len()
        &&& forall|p: int| 0 <= p < self.n() ==> (#[trigger] other.ins[p]).len() == self.ins[p].len()
        &&& forall|p: int| 0 <= p < self.n() ==> (#[trigger] other.outs[p]).len() == self.outs[p].len()
        &&& forall|e: EndPoint| self.valid_in(e) ==> #[trigger] other.in_slot(e) == self.in_slot(e)
        &&& forall|e: EndPoint| self.valid_out(e) ==> #[trigger] other.out_slot(e) == self.out_slot(e)
    }
}

/// The connections stored in the bound slots of `cs`, in slot order.
pub open spec fn bound_of(cs: Seq<Connector>) -> Seq<Connection>
    decreases cs.len(),
{
    if cs.len() == 0 {
        Seq::empty()
    } else {
        bound_of(cs.drop_last()) + match cs.last() {
            Connector::ConnectedUsing(c) => seq![c],
            Connector::Unconnected => Seq::empty(),
        }
    }
}

/// The connections stored in the bound slots of `ports`, block by block.
pub open spec fn stored_cons<S>(ports: Seq<PortView<S>>) -> Seq<Connection>
    decreases ports.len(),
{
    if ports.len() == 0 {
        Seq::empty()
    } else {
        stored_cons(ports.drop_last()) + bound_of(ports.last().block.conns)
    }
}

/// The distinct processors at the far ends of `cs`, in order of first appearance.
pub open spec fn far_procs(cs: Seq<Connection>) -> Seq<usize>
    decreases cs.len(),
{
    if cs.len() == 0 {
        Seq::empty()
    } else {
        let d = far_procs(cs.drop_last());
        if d.contains(cs.last().to.proc) {
            d
        } else {
            d.push(cs.last().to.proc)
        }
    }
}

/// `s` without its first occurrence of `x`.
pub open spec fn remove_first(s: Seq<usize>, x: usize) -> Seq<usize>
    decreases s.len(),
{
    if s.len() == 0 {
        s
    } else if s[0] == x {
        s.drop_first()
    } else {
        seq![s[0]] + remove_first(s.drop_first(), x)
    }
}

/// Removing at the first index that holds `x` is removing the first occurrence.
pub proof fn lemma_remove_first(s: Seq<usize>, x: usize, k: int)
    requires
        0 <= k < s.len(),
        s[k] == x,
        forall|j: int| 0 <= j < k ==> s[j] != x,
    ensures
        remove_first(s, x) == s.remove(k),
    decreases s.len(),
{
    if k > 0 {
        lemma_remove_first(s.drop_first(), x, k - 1);
        assert(s.remove(k) =~= seq![s[0]] + s.drop_first().remove(k - 1));
    } else {
        assert(s.remove(0) =~= s.drop_first());
    }
}

/// When `x` does not occur, nothing is removed.
pub proof fn lemma_remove_first_absent(s: Seq<usize>, x: usize)
    requires
        !s.contains(x),
    ensures
        remove_first(s, x) == s,
    decreases s.len(),
{
    if s.len() > 0 {
        assert(!s.drop_first().contains(x)) by {
            if s.drop_first().contains(x) {
                let j = choose|j: int| 0 <= j < s.drop_first().len() && s.drop_first()[j] == x;
                assert(s[j + 1] == x);
            }
        }
        lemma_remove_first_absent(s.drop_first(), x);
        assert(s =~= seq![s[0]] + s.drop_first());
    }
}

pub proof fn lemma_push_contains(s: Seq<usize>, x: usize, y: usize)
    ensures
        s.push(x).contains(y) <==> (s.contains(y) || y == x),
{
    if s.contains(y) {
        let k = choose|k: int| 0 <= k < s.len() && s[k] == y;
        assert(s.push(x)[k] == y);
    }
    if y == x {
        assert(s.push(x)[s.len() as int] == x);
    }
    if s.push(x).contains(y) {
        let k = choose|k: int| 0 <= k < s.push(x).len() && s.push(x)[k] == y;
        if k < s.len() {
            assert(s[k] == y);
        }
    }
}

pub proof fn lemma_remove_contains(s: Seq<usize>, k: int, y: usize)
    requires
        0 <= k < s.len(),
        s.no_duplicates(),
    ensures
        s.remove(k).contains(y) <==> (s.contains(y) && y != s[k]),
        s.remove(k).no_duplicates(),
{
    let r = s.remove(k);
    if r.contains(y) {
        let i = choose|i: int| 0 <= i < r.len() && r[i] == y;
        let i2 = if i < k { i } else { i + 1 };
        assert(s[i2] == y);
    }
    if s.contains(y) && y != s[k] {
        let i = choose|i: int| 0 <= i < s.len() && s[i] == y;
        let i2 = if i < k { i } else { i - 1 };
        assert(r[i2] == y);
    }
    assert forall|i: int, j: int| 0 <= i < r.len() && 0 <= j < r.len() && i != j implies r[i] != r[j] by {
        let i2 = if i < k { i } else { i + 1 };
        let j2 = if j < k { j } else { j + 1 };
        assert(r[i] == s[i2]);
        assert(r[j] == s[j2]);
    }
}

/// `x` occurs at most once in `s`.
pub open spec fn at_most_once(s: Seq<usize>, x: usize) -> bool {
    forall|i: int, j: int| 0 <= i < s.len() && 0 <= j < s.len() && s[i] == x && s[j] == x ==> i == j
}

/// What is left after removing the first occurrence comes from the sequence.
pub proof fn lemma_remove_first_elems(s: Seq<usize>, x: usize)
    ensures
        forall|i: int|
            0 <= i < remove_first(s, x).len() ==> exists|j: int|
                0 <= j < s.len() && #[trigger] remove_first(s, x)[i] == s[j],
        remove_first(s, x).len() <= s.len(),
    decreases s.len(),
{
    if s.len() > 0 && s[0] != x {
        lemma_remove_first_elems(s.drop_first(), x);
        let r = remove_first(s, x);
        assert forall|i: int| 0 <= i < r.len() implies exists|j: int| 0 <= j < s.len() && #[trigger] r[i] == s[j] by {
            if i == 0 {
                assert(r[0] == s[0]);
            } else {
                let j = choose|j: int| 0 <= j < s.drop_first().len() && remove_first(s.drop_first(), x)[i - 1] == s.drop_first()[j];
                assert(r[i] == s[j + 1]);
            }
        }
    } else if s.len() > 0 {
        let r = remove_first(s, x);
        assert forall|i: int| 0 <= i < r.len() implies exists|j: int| 0 <= j < s.len() && #[trigger] r[i] == s[j] by {
            assert(r[i] == s[i + 1]);
        }
    }
}

/// Removing the first occurrence of an `x` that occurs at most once leaves none.
pub proof fn lemma_remove_first_once(s: Seq<usize>, x: usize)
    requires
        at_most_once(s, x),
    ensures
        !remove_first(s, x).contains(x),
{
    if s.contains(x) {
        let k = choose|k: int| 0 <= k < s.len() && s[k] == x;
        assert forall|j: int| 0 <= j < k implies s[j] != x by {
        }
        lemma_remove_first(s, x, k);
        let r = remove_first(s, x);
        assert forall|i: int| 0 <= i < r.len() implies r[i] != x by {
            if i < k {
                assert(r[i] == s[i]);
            } else {
                assert(r[i] == s[i + 1]);
            }
        }
    } else {
        lemma_remove_first_absent(s, x);
    }
}

/// The marked positions of `marks`, as a set.
pub open spec fn marked(marks: Seq<bool>) -> Set<int> {
    Set::new(|x: int| 0 <= x < marks.len() && marks[x])
}

/// Number of unmarked positions.
pub open spec fn count_unmarked(marks: Seq<bool>) -> nat
    decreases marks.len(),
{
    if marks.len() == 0 {
        0
    } else {
        count_unmarked(marks.drop_last()) + if marks.last() {
            0nat
        } else {
            1nat
        }
    }
}

/// Marking an unmarked position lowers the count by one.
pub proof fn lemma_mark(marks: Seq<bool>, i: int)
    requires
        0 <= i < marks.len(),
        !marks[i],
    ensures
        count_unmarked(marks.update(i, true)) + 1 == count_unmarked(marks),
    decreases marks.len(),
{
    let u = marks.update(i, true);
    if i < marks.len() - 1 {
        lemma_mark(marks.drop_last(), i);
        assert(u.drop_last() =~= marks.drop_last().update(i, true));
    } else {
        assert(u.drop_last() =~= marks.drop_last());
    }
}

/// Growing the set of processors, with the blocks of the old ones kept in
/// number, keeps every valid connection valid.
pub proof fn lemma_shape_kept<S, P>(a: UnitView<S, P>, b: UnitView<S, P>)
    requires
        a.blocks_ok(),
        b.blocks_ok(),
        a.n() <= b.n(),
        forall|p: int| 0 <= p < a.n() ==> (#[trigger] b.ins[p]).len() == a.ins[p].len(),
        forall|p: int| 0 <= p < a.n() ==> (#[trigger] b.outs[p]).len() == a.outs[p].len(),
    ensures
        forall|c: Connection| a.valid_con(c) ==> #[trigger] b.valid_con(c),
        forall|j: Job| a.job_ok(j) ==> #[trigger] b.job_ok(j),
        forall|e: EndPoint| a.valid_in(e) ==> #[trigger] b.valid_in(e),
        forall|e: EndPoint| a.valid_out(e) ==> #[trigger] b.valid_out(e),
{
    assert forall|c: Connection| a.valid_con(c) implies #[trigger] b.valid_con(c) by {
        assert(b.ins[c.to.proc as int].len() == a.ins[c.to.proc as int].len());
        assert(b.outs[c.from.proc as int].len() == a.outs[c.from.proc as int].len());
    }
    assert forall|e: EndPoint| a.valid_in(e) implies #[trigger] b.valid_in(e) by {
        assert(b.ins[e.proc as int].len() == a.ins[e.proc as int].len());
    }
    assert forall|e: EndPoint| a.valid_out(e) implies #[trigger] b.valid_out(e) by {
        assert(b.outs[e.proc as int].len() == a.outs[e.proc as int].len());
    }
}

/// Binding both ends of a wire whose ends were free keeps the blocks and the
/// wiring well formed, and changes exactly those two slots.
pub proof fn lemma_bind<S, P>(v: UnitView<S, P>, c: Connection)
    requires
        v.blocks_ok(),
        v.wiring_ok(),
        v.valid_con(c),
        v.out_slot(c.from) is Unconnected,
        v.in_slot(c.to) is Unconnected,
    ensures
        v.bind(c).blocks_ok(),
        v.bind(c).wiring_ok(),
        v.bind(c).n() == v.n(),
        forall|p: int| 0 <= p < v.n() ==> (#[trigger] v.bind(c).ins[p]).len() == v.ins[p].len(),
        forall|p: int| 0 <= p < v.n() ==> (#[trigger] v.bind(c).outs[p]).len() == v.outs[p].len(),
        forall|e: EndPoint|
            v.valid_out(e) ==> #[trigger] v.bind(c).out_slot(e) == if e == c.from {
                Connector::ConnectedUsing(c)
            } else {
                v.out_slot(e)
            },
        forall|e: EndPoint|
            v.valid_in(e) ==> #[trigger] v.bind(c).in_slot(e) == if e == c.to {
                Connector::ConnectedUsing(c.mirror())
            } else {
                v.in_slot(e)
            },
        forall|p: int| 0 <= p < v.n() && p != c.to.proc ==> (v.bind(c).no_inputs(p) <==> v.no_inputs(p)),
        !v.bind(c).no_inputs(c.to.proc as int),
{
    let w = v.bind(c);
    let (p, b, s) = (c.from.proc as int, c.from.block as int, c.from.conn as int);
    let (q, tb, ts) = (c.to.proc as int, c.to.block as int, c.to.conn as int);
    lemma_count_update(v.outs[p][b].block.conns, s, Connector::ConnectedUsing(c));
    lemma_count_update(v.ins[q][tb].block.conns, ts, Connector::ConnectedUsing(c.mirror()));
    assert(w.outs[p][b].wf());
    assert(w.ins[q][tb].wf());
    assert forall|e: EndPoint| v.valid_out(e) implies #[trigger] w.out_slot(e) == if e == c.from {
        Connector::ConnectedUsing(c)
    } else {
        v.out_slot(e)
    } by {
        if e.proc == p && e.block == b {
        }
    }
    assert forall|e: EndPoint| v.valid_in(e) implies #[trigger] w.in_slot(e) == if e == c.to {
        Connector::ConnectedUsing(c.mirror())
    } else {
        v.in_slot(e)
    } by {
        if e.proc == q && e.block == tb {
        }
    }
    assert forall|e: EndPoint| #![trigger w.out_slot(e)]
        w.valid_out(e) && w.out_slot(e) is ConnectedUsing implies {
            let d = w.out_slot(e)->ConnectedUsing_0;
            &&& d.from == e
            &&& w.valid_in(d.to)
            &&& w.in_slot(d.to) == Connector::ConnectedUsing(d.mirror())
        } by {
        assert(v.valid_out(e));
        if e != c.from {
            let d = v.out_slot(e)->ConnectedUsing_0;
            assert(v.valid_in(d.to));
            if d.to == c.to {
                assert(v.in_slot(c.to) is ConnectedUsing);
            }
        }
    }
    assert forall|e: EndPoint| #![trigger w.in_slot(e)]
        w.valid_in(e) && w.in_slot(e) is ConnectedUsing implies {
            let d = w.in_slot(e)->ConnectedUsing_0;
            &&& d.from == e
            &&& w.valid_out(d.to)
            &&& w.out_slot(d.to) == Connector::ConnectedUsing(d.mirror())
        } by {
        assert(v.valid_in(e));
        if e != c.to {
            let d = v.in_slot(e)->ConnectedUsing_0;
            assert(v.valid_out(d.to));
            if d.to == c.from {
                assert(v.out_slot(c.from) is ConnectedUsing);
            }
        }
    }
    assert forall|x: int| 0 <= x < v.n() && x != q implies (w.no_inputs(x) <==> v.no_inputs(x)) by {
        assert(w.ins[x] == v.ins[x]);
    }
    assert(w.ins[q][tb].block.num_cons > 0);
}

/// Unbinding both ends of an existing wire keeps the blocks and the wiring
/// well formed, and frees exactly those two slots.
pub proof fn lemma_unbind<S, P>(v: UnitView<S, P>, c: Connection)
    requires
        v.blocks_ok(),
        v.wiring_ok(),
        v.valid_con(c),
        v.has_connection(c),
    ensures
        v.unbind(c).blocks_ok(),
        v.unbind(c).wiring_ok(),
        v.unbind(c).n() == v.n(),
        forall|p: int| 0 <= p < v.n() ==> (#[trigger] v.unbind(c).ins[p]).len() == v.ins[p].len(),
        forall|p: int| 0 <= p < v.n() ==> (#[trigger] v.unbind(c).outs[p]).len() == v.outs[p].len(),
        forall|e: EndPoint|
            v.valid_out(e) ==> #[trigger] v.unbind(c).out_slot(e) == if e == c.from {
                Connector::Unconnected
            } else {
                v.out_slot(e)
            },
        forall|e: EndPoint|
            v.valid_in(e) ==> #[trigger] v.unbind(c).in_slot(e) == if e == c.to {
                Connector::Unconnected
            } else {
                v.in_slot(e)
            },
        forall|p: int| 0 <= p < v.n() && p != c.to.proc ==> (v.unbind(c).no_inputs(p) <==> v.no_inputs(p)),
{
    let w = v.unbind(c);
    let (p, b, s) = (c.from.proc as int, c.from.block as int, c.from.conn as int);
    let (q, tb, ts) = (c.to.proc as int, c.to.block as int, c.to.conn as int);
    lemma_count_update(v.outs[p][b].block.conns, s, Connector::Unconnected);
    lemma_count_update(v.ins[q][tb].block.conns, ts, Connector::Unconnected);
    assert(w.outs[p][b].wf());
    assert(w.ins[q][tb].wf());
    assert forall|e: EndPoint| v.valid_out(e) implies #[trigger] w.out_slot(e) == if e == c.from {
        Connector::Unconnected
    } else {
        v.out_slot(e)
    } by {
        if e.proc == p && e.block == b {
        }
    }
    assert forall|e: EndPoint| v.valid_in(e) implies #[trigger] w.in_slot(e) == if e == c.to {
        Connector::Unconnected
    } else {
        v.in_slot(e)
    } by {
        if e.proc == q && e.block == tb {
        }
    }
    assert forall|e: EndPoint| #![trigger w.out_slot(e)]
        w.valid_out(e) && w.out_slot(e) is ConnectedUsing implies {
            let d = w.out_slot(e)->ConnectedUsing_0;
            &&& d.from == e
            &&& w.valid_in(d.to)
            &&& w.in_slot(d.to) == Connector::ConnectedUsing(d.mirror())
        } by {
        assert(v.valid_out(e));
        let d = v.out_slot(e)->ConnectedUsing_0;
        assert(v.valid_in(d.to));
        if d.to == c.to {
            assert(v.in_slot(c.to) == Connector::ConnectedUsing(c.mirror()));
        }
    }
    assert forall|e: EndPoint| #![trigger w.in_slot(e)]
        w.valid_in(e) && w.in_slot(e) is ConnectedUsing implies {
            let d = w.in_slot(e)->ConnectedUsing_0;
            &&& d.from == e
            &&& w.valid_out(d.to)
            &&& w.out_slot(d.to) == Connector::ConnectedUsing(d.mirror())
        } by {
        assert(v.valid_in(e));
        let d = v.in_slot(e)->ConnectedUsing_0;
        assert(v.valid_out(d.to));
        if d.to == c.from {
            assert(v.out_slot(c.from) == Connector::ConnectedUsing(c));
        }
    }
    assert forall|x: int| 0 <= x < v.n() && x != q implies (w.no_inputs(x) <==> v.no_inputs(x)) by {
        assert(w.ins[x] == v.ins[x]);
    }
}

/// Wiring, ranking and shape depend on the blocks and ranks alone, not on
/// the queues or the start set.
pub proof fn lemma_graph_only<S, P>(a: UnitView<S, P>, b: UnitView<S, P>)
    requires
        a.procs.len() == b.procs.len(),
        a.ins == b.ins,
        a.outs == b.outs,
    ensures
        a.blocks_ok() ==> b.blocks_ok(),
        a.wiring_ok() ==> b.wiring_ok(),
        a.rank == b.rank && a.rank_ok() ==> b.rank_ok(),
        forall|c: Connection| #[trigger] b.valid_con(c) == a.valid_con(c),
        forall|e: EndPoint| #[trigger] b.out_slot(e) == a.out_slot(e),
        forall|e: EndPoint| #[trigger] b.in_slot(e) == a.in_slot(e),
        forall|e: EndPoint| #[trigger] b.valid_out(e) == a.valid_out(e),
        forall|e: EndPoint| #[trigger] b.valid_in(e) == a.valid_in(e),
        forall|p: int| #[trigger] b.no_inputs(p) == a.no_inputs(p),
        forall|x: int, y: int| #[trigger] b.reaches(x, y) == a.reaches(x, y),
{
    assert forall|set: Set<int>| #[trigger] b.closed(set) == a.closed(set) by {
        if a.closed(set) {
            assert forall|e: EndPoint| #![trigger b.out_slot(e)]
                b.valid_out(e) && set.contains(e.proc as int) && b.out_slot(e) is ConnectedUsing
                implies set.contains(b.out_slot(e)->ConnectedUsing_0.to.proc as int) by {
                assert(a.out_slot(e) == b.out_slot(e));
            }
        }
        if b.closed(set) {
            assert forall|e: EndPoint| #![trigger a.out_slot(e)]
                a.valid_out(e) && set.contains(e.proc as int) && a.out_slot(e) is ConnectedUsing
                implies set.contains(a.out_slot(e)->ConnectedUsing_0.to.proc as int) by {
                assert(a.out_slot(e) == b.out_slot(e));
            }
        }
    }
    if a.wiring_ok() {
        assert forall|e: EndPoint| #![trigger b.out_slot(e)]
            b.valid_out(e) && b.out_slot(e) is ConnectedUsing implies {
                let c = b.out_slot(e)->ConnectedUsing_0;
                &&& c.from == e
                &&& b.valid_in(c.to)
                &&& b.in_slot(c.to) == Connector::ConnectedUsing(c.mirror())
            } by {
            assert(a.out_slot(e) == b.out_slot(e));
            assert(a.in_slot(b.out_slot(e)->ConnectedUsing_0.to) == b.in_slot(b.out_slot(e)->ConnectedUsing_0.to));
        }
        assert forall|e: EndPoint| #![trigger b.in_slot(e)]
            b.valid_in(e) && b.in_slot(e) is ConnectedUsing implies {
                let c = b.in_slot(e)->ConnectedUsing_0;
                &&& c.from == e
                &&& b.valid_out(c.to)
                &&& b.out_slot(c.to) == Connector::ConnectedUsing(c.mirror())
            } by {
            assert(a.in_slot(e) == b.in_slot(e));
            assert(a.out_slot(b.in_slot(e)->ConnectedUsing_0.to) == b.out_slot(b.in_slot(e)->ConnectedUsing_0.to));
        }
    }
    if a.rank == b.rank && a.rank_ok() {
        assert forall|e: EndPoint| #![trigger b.out_slot(e)]
            b.valid_out(e) && b.out_slot(e) is ConnectedUsing implies b.rank[e.proc as int]
                < b.rank[b.out_slot(e)->ConnectedUsing_0.to.proc as int] by {
            assert(a.out_slot(e) == b.out_slot(e));
        }
    }
}

/// The stored connections depend on the wiring alone.
pub proof fn lemma_stored_cons_wiring<S>(a: Seq<PortView<S>>, b: Seq<PortView<S>>)
    requires
        a.len() == b.len(),
        forall|i: int| 0 <= i < a.len() ==> (#[trigger] a[i]).block.conns == b[i].block.conns,
    ensures
        stored_cons(a) == stored_cons(b),
    decreases a.len(),
{
    if a.len() > 0 {
        lemma_stored_cons_wiring(a.drop_last(), b.drop_last());
        assert(a.last().block.conns == b.last().block.conns);
    }
}

/// Every wire stored in an output of `p` is a valid connection.
pub proof fn lemma_stored_cons_valid<S, P>(v: UnitView<S, P>, p: int, k: int)
    requires
        v.wf(),
        0 <= p < v.n(),
        0 <= k < stored_cons(v.outs[p]).len(),
    ensures
        v.valid_con(stored_cons(v.outs[p])[k]),
        stored_cons(v.outs[p])[k].from.proc == p,
        v.rank[p] < v.rank[stored_cons(v.outs[p])[k].to.proc as int],
{
    assert(v.outs[p].take(v.outs[p].len() as int) =~= v.outs[p]);
    lemma_stored_cons_in(v, p, v.outs[p].len() as int, k);
}

/// The wires stored in the first `nb` output blocks of `p` are wires out of `p`.
proof fn lemma_stored_cons_in<S, P>(v: UnitView<S, P>, p: int, nb: int, k: int)
    requires
        v.wf(),
        0 <= p < v.n(),
        0 <= nb <= v.outs[p].len(),
        0 <= k < stored_cons(v.outs[p].take(nb)).len(),
    ensures
        v.valid_con(stored_cons(v.outs[p].take(nb))[k]),
        stored_cons(v.outs[p].take(nb))[k].from.proc == p,
        v.rank[p] < v.rank[stored_cons(v.outs[p].take(nb))[k].to.proc as int],
    decreases nb,
{
    let ports = v.outs[p].take(nb);
    assert(ports.drop_last() =~= v.outs[p].take(nb - 1));
    let head = stored_cons(ports.drop_last());
    assert(stored_cons(ports) == head + bound_of(v.outs[p][nb - 1].block.conns));
    if k < head.len() {
        lemma_stored_cons_in(v, p, nb - 1, k);
    } else {
        let cs = v.outs[p][nb - 1].block.conns;
        assert(v.outs[p][nb - 1].wf());
        assert(cs.take(BLOCK_LEN as int) =~= cs);
        lemma_bound_of_in(v, p, nb - 1, BLOCK_LEN as int, k - head.len());
    }
}

/// The wires stored in the first `ns` slots of output block `b` of `p` are wires out of `p`.
proof fn lemma_bound_of_in<S, P>(v: UnitView<S, P>, p: int, b: int, ns: int, k: int)
    requires
        v.wf(),
        0 <= p < v.n(),
        0 <= b < v.outs[p].len(),
        0 <= ns <= BLOCK_LEN,
        0 <= k < bound_of(v.outs[p][b].block.conns.take(ns)).len(),
    ensures
        v.valid_con(bound_of(v.outs[p][b].block.conns.take(ns))[k]),
        bound_of(v.outs[p][b].block.conns.take(ns))[k].from.proc == p,
        v.rank[p] < v.rank[bound_of(v.outs[p][b].block.conns.take(ns))[k].to.proc as int],
    decreases ns,
{
    let cs = v.outs[p][b].block.conns;
    assert(cs.take(ns).drop_last() =~= cs.take(ns - 1));
    if cs.len() == BLOCK_LEN && ns == BLOCK_LEN {
        assert(cs.take(ns) =~= cs);
    }
    let head = bound_of(cs.take(ns - 1));
    assert(cs.take(ns).last() == cs[ns - 1]);
    if k < head.len() {
        lemma_bound_of_in(v, p, b, ns - 1, k);
    } else {
        let e = EndPoint { proc: p as usize, block: b as usize, conn: (ns - 1) as usize };
        assert(v.out_slot(e) == cs[ns - 1]);
        assert(v.valid_out(e));
    }
}

/// Running a processor keeps everything that the invariant speaks of,
/// once the queues are accounted for.
pub proof fn lemma_ran_wf<S, P>(v: UnitView<S, P>, w: UnitView<S, P>, p: int)
    requires
        v.wf(),
        0 <= p < v.n(),
        v.ran(w, p),
        w.start == v.start,
        w.rank == v.rank,
        forall|i: int| 0 <= i < w.next.len() ==> #[trigger] w.next[i] < w.n(),
        forall|i: int| 0 <= i < w.forward.len() ==> v.job_ok(#[trigger] w.forward[i]),
        forall|i: int| 0 <= i < w.backward.len() ==> v.job_ok(#[trigger] w.backward[i]),
    ensures
        w.wf(),
        forall|e: EndPoint| #[trigger] w.out_slot(e) == v.out_slot(e) || !v.valid_out(e),
        forall|e: EndPoint| #[trigger] w.in_slot(e) == v.in_slot(e) || !v.valid_in(e),
{
    assert forall|e: EndPoint| #[trigger] w.out_slot(e) == v.out_slot(e) || !v.valid_out(e) by {
        if v.valid_out(e) && e.proc != p {
            assert(w.outs[e.proc as int] == v.outs[e.proc as int]);
        }
    }
    assert forall|e: EndPoint| #[trigger] w.in_slot(e) == v.in_slot(e) || !v.valid_in(e) by {
        if v.valid_in(e) && e.proc != p {
            assert(w.ins[e.proc as int] == v.ins[e.proc as int]);
        }
    }
    assert forall|x: int| 0 <= x < v.n() implies (#[trigger] w.ins[x]).len() == v.ins[x].len() by {
        if x != p {
            assert(w.ins[x] == v.ins[x]);
        }
    }
    assert forall|x: int| 0 <= x < v.n() implies (#[trigger] w.outs[x]).len() == v.outs[x].len() by {
        if x != p {
            assert(w.outs[x] == v.outs[x]);
        }
    }
    assert forall|x: int, b: int| 0 <= x < w.n() && 0 <= b < w.ins[x].len() implies (#[trigger] w.ins[x][b]).wf() by {
        if x != p {
            assert(w.ins[x] == v.ins[x]);
        }
    }
    assert forall|x: int, b: int| 0 <= x < w.n() && 0 <= b < w.outs[x].len() implies (#[trigger] w.outs[x][b]).wf() by {
        if x != p {
            assert(w.outs[x] == v.outs[x]);
        }
    }
    assert(w.blocks_ok());
    lemma_shape_kept(v, w);
    assert forall|e: EndPoint| #![trigger w.out_slot(e)]
        w.valid_out(e) && w.out_slot(e) is ConnectedUsing implies {
            let c = w.out_slot(e)->ConnectedUsing_0;
            &&& c.from == e
            &&& w.valid_in(c.to)
            &&& w.in_slot(c.to) == Connector::ConnectedUsing(c.mirror())
        } by {
        assert(v.valid_out(e));
        assert(v.valid_in(v.out_slot(e)->ConnectedUsing_0.to));
    }
    assert forall|e: EndPoint| #![trigger w.in_slot(e)]
        w.valid_in(e) && w.in_slot(e) is ConnectedUsing implies {
            let c = w.in_slot(e)->ConnectedUsing_0;
            &&& c.from == e
            &&& w.valid_out(c.to)
            &&& w.out_slot(c.to) == Connector::ConnectedUsing(c.mirror())
        } by {
        assert(v.valid_in(e));
        assert(v.valid_out(v.in_slot(e)->ConnectedUsing_0.to));
    }
    assert forall|e: EndPoint| #![trigger w.out_slot(e)]
        w.valid_out(e) && w.out_slot(e) is ConnectedUsing implies w.rank[e.proc as int]
            < w.rank[w.out_slot(e)->ConnectedUsing_0.to.proc as int] by {
        assert(v.valid_out(e));
    }
    assert forall|x: int| 0 <= x < w.n() implies (w.start.contains(x as usize) <==> w.no_inputs(x)) by {
        assert(v.start.contains(x as usize) <==> v.no_inputs(x));
        if x != p {
            assert(w.ins[x] == v.ins[x]);
        } else {
            assert forall|b: int| 0 <= b < w.ins[x].len() implies ((#[trigger] w.ins[x][b]).block.num_cons == 0 <==> v.ins[x][b].block.num_cons == 0) by {
            }
            if v.no_inputs(x) {
                assert forall|b: int| 0 <= b < w.ins[x].len() implies (#[trigger] w.ins[x][b]).block.num_cons == 0 by {
                    assert(v.ins[x][b].block.num_cons == 0);
                }
            }
            if w.no_inputs(x) {
                assert forall|b: int| 0 <= b < v.ins[x].len() implies (#[trigger] v.ins[x][b]).block.num_cons == 0 by {
                    assert(w.ins[x][b].block.num_cons == 0);
                }
            }
        }
    }
    assert(w.start_ok());
}


/// A state that differs from a well-formed one only in samples, counters
/// and queues (with valid entries) is well formed.
pub proof fn lemma_same_wiring_wf<S, P>(v: UnitView<S, P>, w: UnitView<S, P>)
    requires
        v.wf(),
        w.procs.len() == v.procs.len(),
        w.rank == v.rank,
        w.start == v.start,
        w.ins.len() == v.ins.len(),
        w.outs.len() == v.outs.len(),
        forall|x: int| 0 <= x < v.n() ==> (#[trigger] w.ins[x]).len() == v.ins[x].len(),
        forall|x: int| 0 <= x < v.n() ==> (#[trigger] w.outs[x]).len() == v.outs[x].len(),
        forall|x: int, b: int|
            0 <= x < v.n() && 0 <= b < v.ins[x].len() ==> (#[trigger] w.ins[x][b]).wf()
                && w.ins[x][b].block.conns == v.ins[x][b].block.conns
                && w.ins[x][b].block.num_cons == v.ins[x][b].block.num_cons,
        forall|x: int, b: int|
            0 <= x < v.n() && 0 <= b < v.outs[x].len() ==> (#[trigger] w.outs[x][b]).wf()
                && w.outs[x][b].block.conns == v.outs[x][b].block.conns
                && w.outs[x][b].block.num_cons == v.outs[x][b].block.num_cons,
        forall|i: int| 0 <= i < w.next.len() ==> #[trigger] w.next[i] < w.n(),
        forall|i: int| 0 <= i < w.forward.len() ==> v.job_ok(#[trigger] w.forward[i]),
        forall|i: int| 0 <= i < w.backward.len() ==> v.job_ok(#[trigger] w.backward[i]),
    ensures
        w.wf(),
        forall|e: EndPoint| v.valid_out(e) ==> #[trigger] w.out_slot(e) == v.out_slot(e),
        forall|e: EndPoint| v.valid_in(e) ==> #[trigger] w.in_slot(e) == v.in_slot(e),
        forall|x: int| 0 <= x < v.n() ==> (#[trigger] w.no_inputs(x) <==> v.no_inputs(x)),
{
    assert forall|e: EndPoint| v.valid_out(e) implies #[trigger] w.out_slot(e) == v.out_slot(e) by {
        assert(w.outs[e.proc as int][e.block as int].block.conns == v.outs[e.proc as int][e.block as int].block.conns);
    }
    assert forall|e: EndPoint| v.valid_in(e) implies #[trigger] w.in_slot(e) == v.in_slot(e) by {
        assert(w.ins[e.proc as int][e.block as int].block.conns == v.ins[e.proc as int][e.block as int].block.conns);
    }
    assert(w.blocks_ok());
    lemma_shape_kept(v, w);
    assert forall|e: EndPoint| #![trigger w.out_slot(e)]
        w.valid_out(e) && w.out_slot(e) is ConnectedUsing implies {
            let c = w.out_slot(e)->ConnectedUsing_0;
            &&& c.from == e
            &&& w.valid_in(c.to)
            &&& w.in_slot(c.to) == Connector::ConnectedUsing(c.mirror())
        } by {
        assert(v.valid_out(e));
        assert(v.valid_in(v.out_slot(e)->ConnectedUsing_0.to));
    }
    assert forall|e: EndPoint| #![trigger w.in_slot(e)]
        w.valid_in(e) && w.in_slot(e) is ConnectedUsing implies {
            let c = w.in_slot(e)->ConnectedUsing_0;
            &&& c.from == e
            &&& w.valid_out(c.to)
            &&& w.out_slot(c.to) == Connector::ConnectedUsing(c.mirror())
        } by {
        assert(v.valid_in(e));
        assert(v.valid_out(v.in_slot(e)->ConnectedUsing_0.to));
    }
    assert forall|e: EndPoint| #![trigger w.out_slot(e)]
        w.valid_out(e) && w.out_slot(e) is ConnectedUsing implies w.rank[e.proc as int]
            < w.rank[w.out_slot(e)->ConnectedUsing_0.to.proc as int] by {
        assert(v.valid_out(e));
    }
    assert forall|x: int| 0 <= x < v.n() implies (#[trigger] w.no_inputs(x) <==> v.no_inputs(x)) by {
        if v.no_inputs(x) {
            assert forall|b: int| 0 <= b < w.ins[x].len() implies (#[trigger] w.ins[x][b]).block.num_cons == 0 by {
                assert(v.ins[x][b].block.num_cons == 0);
            }
        }
        if w.no_inputs(x) {
            assert forall|b: int| 0 <= b < v.ins[x].len() implies (#[trigger] v.ins[x][b]).block.num_cons == 0 by {
                assert(w.ins[x][b].block.num_cons == 0);
            }
        }
    }
    assert forall|x: int| 0 <= x < w.n() implies (w.start.contains(x as usize) <==> w.no_inputs(x)) by {
        assert(v.start.contains(x as usize) <==> v.no_inputs(x));
    }
}

/// Every wire stored in an input of `q` comes from a valid output.
pub proof fn lemma_stored_in_valid<S, P>(v: UnitView<S, P>, q: int, k: int)
    requires
        v.wf(),
        0 <= q < v.n(),
        0 <= k < stored_cons(v.ins[q]).len(),
    ensures
        v.valid_out(stored_cons(v.ins[q])[k].to),
{
    assert(v.ins[q].take(v.ins[q].len() as int) =~= v.ins[q]);
    lemma_stored_in_prefix(v, q, v.ins[q].len() as int, k);
}

proof fn lemma_stored_in_prefix<S, P>(v: UnitView<S, P>, q: int, nb: int, k: int)
    requires
        v.wf(),
        0 <= q < v.n(),
        0 <= nb <= v.ins[q].len(),
        0 <= k < stored_cons(v.ins[q].take(nb)).len(),
    ensures
        v.valid_out(stored_cons(v.ins[q].take(nb))[k].to),
    decreases nb,
{
    let ports = v.ins[q].take(nb);
    assert(ports.drop_last() =~= v.ins[q].take(nb - 1));
    let head = stored_cons(ports.drop_last());
    assert(stored_cons(ports) == head + bound_of(v.ins[q][nb - 1].block.conns));
    if k < head.len() {
        lemma_stored_in_prefix(v, q, nb - 1, k);
    } else {
        let cs = v.ins[q][nb - 1].block.conns;
        assert(v.ins[q][nb - 1].wf());
        assert(cs.take(BLOCK_LEN as int) =~= cs);
        lemma_bound_in_prefix(v, q, nb - 1, BLOCK_LEN as int, k - head.len());
    }
}

proof fn lemma_bound_in_prefix<S, P>(v: UnitView<S, P>, q: int, b: int, ns: int, k: int)
    requires
        v.wf(),
        0 <= q < v.n(),
        0 <= b < v.ins[q].len(),
        0 <= ns <= BLOCK_LEN,
        0 <= k < bound_of(v.ins[q][b].block.conns.take(ns)).len(),
    ensures
        v.valid_out(bound_of(v.ins[q][b].block.conns.take(ns))[k].to),
    decreases ns,
{
    let cs = v.ins[q][b].block.conns;
    assert(cs.take(ns).drop_last() =~= cs.take(ns - 1));
    let head = bound_of(cs.take(ns - 1));
    assert(cs.take(ns).last() == cs[ns - 1]);
    if k < head.len() {
        lemma_bound_in_prefix(v, q, b, ns - 1, k);
    } else {
        let e = EndPoint { proc: q as usize, block: b as usize, conn: (ns - 1) as usize };
        assert(v.in_slot(e) == cs[ns - 1]);
        assert(v.valid_in(e));
    }
}

/// Each processor listed by `far_procs` is the far end of one of the wires.
pub proof fn lemma_far_procs(cs: Seq<Connection>)
    ensures
        forall|i: int|
            0 <= i < far_procs(cs).len() ==> exists|k: int|
                0 <= k < cs.len() && #[trigger] far_procs(cs)[i] == cs[k].to.proc,
    decreases cs.len(),
{
    if cs.len() > 0 {
        lemma_far_procs(cs.drop_last());
        let d = far_procs(cs.drop_last());
        assert forall|i: int| 0 <= i < far_procs(cs).len() implies exists|k: int|
            0 <= k < cs.len() && #[trigger] far_procs(cs)[i] == cs[k].to.proc by {
            if i < d.len() {
                let k = choose|k: int| 0 <= k < cs.drop_last().len() && d[i] == cs.drop_last()[k].to.proc;
                assert(cs[k] == cs.drop_last()[k]);
            } else {
                assert(far_procs(cs)[i] == cs[cs.len() - 1].to.proc);
            }
        }
    }
}

/// The wires out of processors that all exist are valid.
pub proof fn lemma_outputs_of_valid<S, P>(v: UnitView<S, P>, ps: Seq<usize>)
    requires
        v.wf(),
        forall|i: int| 0 <= i < ps.len() ==> #[trigger] ps[i] < v.n(),
    ensures
        forall|k: int| 0 <= k < v.outputs_of(ps).len() ==> v.valid_con(#[trigger] v.outputs_of(ps)[k]),
    decreases ps.len(),
{
    if ps.len() > 0 {
        lemma_outputs_of_valid(v, ps.drop_last());
        let head = v.outputs_of(ps.drop_last());
        assert forall|k: int| 0 <= k < v.outputs_of(ps).len() implies v.valid_con(#[trigger] v.outputs_of(ps)[k]) by {
            if k < head.len() {
                assert(v.outputs_of(ps)[k] == head[k]);
            } else {
                assert(ps.last() < v.n());
                lemma_stored_cons_valid(v, ps.last() as int, k - head.len());
            }
        }
    }
}

/// The backward job of an existing processor holds only valid wires.
pub proof fn lemma_back_job_ok<S, P>(v: UnitView<S, P>, q: usize)
    requires
        v.wf(),
        q < v.n(),
    ensures
        v.job_ok(v.back_job(q)),
{
    let cs = stored_cons(v.ins[q as int]);
    lemma_far_procs(cs);
    assert forall|i: int| 0 <= i < v.feeders(q as int).len() implies #[trigger] v.feeders(q as int)[i] < v.n() by {
        let k = choose|k: int| 0 <= k < cs.len() && far_procs(cs)[i] == cs[k].to.proc;
        lemma_stored_in_valid(v, q as int, k);
    }
    lemma_outputs_of_valid(v, v.feeders(q as int));
}

pub proof fn lemma_same_graph_trans<S, P>(a: UnitView<S, P>, b: UnitView<S, P>, c: UnitView<S, P>)
    requires
        a.same_graph(b),
        b.same_graph(c),
    ensures
        a.same_graph(c),
        forall|d: Connection| a.valid_con(d) ==> #[trigger] c.valid_con(d),
{
    assert forall|e: EndPoint| a.valid_in(e) implies #[trigger] c.in_slot(e) == a.in_slot(e) by {
        assert(b.ins[e.proc as int].len() == a.ins[e.proc as int].len());
        assert(b.valid_in(e));
    }
    assert forall|e: EndPoint| a.valid_out(e) implies #[trigger] c.out_slot(e) == a.out_slot(e) by {
        assert(b.outs[e.proc as int].len() == a.outs[e.proc as int].len());
        assert(b.valid_out(e));
    }
    assert forall|d: Connection| a.valid_con(d) implies #[trigger] c.valid_con(d) by {
        assert(b.outs[d.from.proc as int].len() == a.outs[d.from.proc as int].len());
        assert(b.ins[d.to.proc as int].len() == a.ins[d.to.proc as int].len());
        assert(c.outs[d.from.proc as int].len() == b.outs[d.from.proc as int].len());
        assert(c.ins[d.to.proc as int].len() == b.ins[d.to.proc as int].len());
    }
}

/// A processor is in the start set exactly when none of the slots of its
/// input blocks is bound.
pub proof fn lemma_start_nodes<S, P>(v: UnitView<S, P>, p: int)
    requires
        v.wf(),
        0 <= p < v.n(),
    ensures
        v.start.contains(p as usize) <==> forall|e: EndPoint|
            v.valid_in(e) && e.proc == p ==> #[trigger] v.in_slot(e) is Unconnected,
{
    assert(v.start.contains(p as usize) <==> v.no_inputs(p));
    if v.no_inputs(p) {
        assert forall|e: EndPoint| v.valid_in(e) && e.proc == p implies #[trigger] v.in_slot(e) is Unconnected by {
            let blk = v.ins[p][e.block as int];
            assert(blk.wf());
            lemma_count_zero(blk.block.conns);
        }
    } else {
        let b = choose|b: int| 0 <= b < v.ins[p].len() && (#[trigger] v.ins[p][b]).block.num_cons != 0;
        let blk = v.ins[p][b];
        assert(blk.wf());
        lemma_count_zero(blk.block.conns);
        let k = choose|k: int| 0 <= k < blk.block.conns.len() && !(blk.block.conns[k] is Unconnected);
        let e = EndPoint { proc: p as usize, block: b as usize, conn: k as usize };
        assert(v.valid_in(e));
        assert(!(v.in_slot(e) is Unconnected));
    }
}

/// Delivery keeps the number of processors' input lists.
pub proof fn lemma_forward_all_len<S, P>(v: UnitView<S, P>, cs: Seq<Connection>)
    requires
        forall|k: int| 0 <= k < cs.len() ==> (#[trigger] cs[k]).to.proc < v.ins.len(),
    ensures
        v.forward_all(cs).ins.len() == v.ins.len(),
    decreases cs.len(),
{
    if cs.len() > 0 {
        assert forall|k: int| 0 <= k < cs.drop_last().len() implies (#[trigger] cs.drop_last()[k]).to.proc < v.ins.len() by {
            assert(cs.drop_last()[k] == cs[k]);
        }
        lemma_forward_all_len(v, cs.drop_last());
        let w = v.forward_all(cs.drop_last());
        let c = cs.last();
        assert(cs[cs.len() - 1].to.proc < v.ins.len());
        let d = w.deliver(c);
        assert(d.ins.len() == w.ins.len());
        if d.inputs_complete(c.to.proc as int) {
            assert(d.enqueue_ready(c.to.proc).ins.len() == d.ins.len());
        }
    }
}

/// Readiness gating over a whole forward job `cs`: the ready queue grows by
/// exactly the destinations of the wires at the positions `admitted(cs)`, in
/// order, and by nothing else. At each such position, right after the
/// delivery along that wire, every input block of the destination had counted
/// all of its bound slots; just after it, all of the destination's input
/// counters are 0; and one backward job tagged with the destination is queued
/// for each admission.
pub proof fn lemma_forward_job_gating<S, P>(v: UnitView<S, P>, cs: Seq<Connection>)
    requires
        forall|k: int| 0 <= k < cs.len() ==> (#[trigger] cs[k]).to.proc < v.ins.len(),
    ensures
        v.forward_all(cs).next == v.next + v.admitted(cs).map_values(|k: int| cs[k].to.proc),
        v.forward_all(cs).backward.len() == v.backward.len() + v.admitted(cs).len(),
        v.forward_all(cs).backward.subrange(0, v.backward.len() as int) == v.backward,
        forall|i: int|
            0 <= i < v.admitted(cs).len() ==> {
                let k = #[trigger] v.admitted(cs)[i];
                let q = cs[k].to.proc;
                let before = v.forward_all(cs.take(k));
                &&& 0 <= k < cs.len()
                &&& before.deliver(cs[k]).inputs_complete(q as int)
                &&& forall|b: int|
                    0 <= b < before.forward_one(cs[k]).ins[q as int].len()
                        ==> (#[trigger] before.forward_one(cs[k]).ins[q as int][b]).cnt == 0
                &&& v.forward_all(cs).backward[v.backward.len() + i].proc == q
            },
    decreases cs.len(),
{
    if cs.len() > 0 {
        let c0 = cs.drop_last();
        assert forall|k: int| 0 <= k < c0.len() implies (#[trigger] c0[k]).to.proc < v.ins.len() by {
            assert(c0[k] == cs[k]);
        }
        lemma_forward_job_gating(v, c0);
        lemma_forward_all_len(v, c0);
        assert(cs[cs.len() - 1].to.proc < v.ins.len());
        let w = v.forward_all(c0);
        let ad0 = v.admitted(c0);
        let c = cs.last();
        let q = c.to.proc;
        let d = w.deliver(c);
        let r = v.forward_all(cs);
        assert(ad0.map_values(|k: int| c0[k].to.proc) =~= ad0.map_values(|k: int| cs[k].to.proc)) by {
            assert forall|i: int| 0 <= i < ad0.len() implies ad0[i] < c0.len() by {
                let k = ad0[i];
            }
        }
        assert(d.next == w.next && d.backward == w.backward);
        if d.inputs_complete(q as int) {
            let u = d.enqueue_ready(q);
            assert(r == u);
            assert(v.admitted(cs) == ad0.push(cs.len() - 1));
            assert(r.next =~= v.next + v.admitted(cs).map_values(|k: int| cs[k].to.proc));
            assert(r.backward.subrange(0, v.backward.len() as int) =~= v.backward) by {
                assert(r.backward == w.backward.push(d.back_job(q)));
            }
        } else {
            assert(r == d);
            assert(r.backward.subrange(0, v.backward.len() as int) =~= v.backward);
        }
        assert forall|i: int| 0 <= i < v.admitted(cs).len() implies {
            let k = #[trigger] v.admitted(cs)[i];
            let q2 = cs[k].to.proc;
            let before = v.forward_all(cs.take(k));
            &&& 0 <= k < cs.len()
            &&& before.deliver(cs[k]).inputs_complete(q2 as int)
            &&& forall|b: int|
                0 <= b < before.forward_one(cs[k]).ins[q2 as int].len()
                    ==> (#[trigger] before.forward_one(cs[k]).ins[q2 as int][b]).cnt == 0
            &&& r.backward[v.backward.len() + i].proc == q2
        } by {
            let k = v.admitted(cs)[i];
            if i < ad0.len() {
                assert(k == ad0[i]);
                assert(c0.take(k) =~= cs.take(k));
                assert(c0[k] == cs[k]);
                if d.inputs_complete(q as int) {
                    assert(r.backward == w.backward.push(d.back_job(q)));
                }
            } else {
                assert(k == cs.len() - 1);
                assert(cs.take(k) =~= c0);
                let before = w;
                let q2 = q;
                assert forall|b: int| 0 <= b < before.forward_one(c).ins[q2 as int].len()
                    implies (#[trigger] before.forward_one(c).ins[q2 as int][b]).cnt == 0 by {
                    assert(before.forward_one(c).ins[q2 as int][b] == d.ins[q2 as int][b].with_cnt(0));
                }
                assert(r.backward == w.backward.push(d.back_job(q)));
            }
        }
    } else {
        assert(v.forward_all(cs).next =~= v.next + v.admitted(cs).map_values(|k: int| cs[k].to.proc));
        assert(v.backward.subrange(0, v.backward.len() as int) =~= v.backward);
    }
}

/// Refreshing the start set after the inputs of `q` changed restores the
/// invariant: `q` is a start node exactly when it has no bound input, and the
/// start set keeps no repeats. A `q` that now has a bound input and was queued
/// to run at most once is no longer queued.
pub proof fn lemma_refresh_start<S, P>(v: UnitView<S, P>, q: usize)
    requires
        v.wf_but_start(q as int),
        q < v.n(),
    ensures
        v.refresh_start(q).wf(),
        v.refresh_start(q).start.contains(q) <==> v.no_inputs(q as int),
        !v.no_inputs(q as int) && at_most_once(v.next, q) ==> !v.refresh_start(q).next.contains(q),
{
    let w = v.refresh_start(q);
    lemma_graph_only(v, w);
    if v.no_inputs(q as int) {
        if !v.start.contains(q) {
            assert forall|i: int| 0 <= i < w.start.len() implies #[trigger] w.start[i] < w.n() by {
                if i < v.start.len() {
                    assert(w.start[i] == v.start[i]);
                }
            }
            assert(w.start.no_duplicates()) by {
                assert forall|i: int, j: int| 0 <= i < w.start.len() && 0 <= j < w.start.len() && i != j
                    implies w.start[i] != w.start[j] by {
                    if i == v.start.len() {
                        assert(v.start[j] != q);
                    } else if j == v.start.len() {
                        assert(v.start[i] != q);
                    }
                }
            }
            assert forall|p: int| 0 <= p < w.n() implies (w.start.contains(p as usize)
                <==> w.no_inputs(p)) by {
                lemma_push_contains(v.start, q, p as usize);
                if p != q {
                    assert(p as usize != q);
                    assert(v.start.contains(p as usize) <==> v.no_inputs(p));
                }
            }
            assert forall|i: int| 0 <= i < w.next.len() implies #[trigger] w.next[i] < w.n() by {
                if i < v.next.len() {
                    assert(w.next[i] == v.next[i]);
                }
            }
        }
    } else {
        lemma_remove_first_elems(v.next, q);
        assert forall|i: int| 0 <= i < w.next.len() implies #[trigger] w.next[i] < w.n() by {
            let j = choose|j: int| 0 <= j < v.next.len() && w.next[i] == v.next[j];
        }
        if v.start.contains(q) {
            let k = v.start.index_of(q);
            assert(v.start[k] == q);
            assert forall|i: int| 0 <= i < w.start.len() implies #[trigger] w.start[i] < w.n() by {
                if i < k {
                    assert(w.start[i] == v.start[i]);
                } else {
                    assert(w.start[i] == v.start[i + 1]);
                }
            }
            lemma_remove_contains(v.start, k, q);
            assert forall|p: int| 0 <= p < w.n() implies (w.start.contains(p as usize)
                <==> w.no_inputs(p)) by {
                lemma_remove_contains(v.start, k, p as usize);
                if p != q {
                    assert(p as usize != q);
                    assert(v.start.contains(p as usize) <==> v.no_inputs(p));
                }
            }
        } else {
            assert forall|p: int| 0 <= p < w.n() implies (w.start.contains(p as usize)
                <==> w.no_inputs(p)) by {
                if p != q {
                    assert(p as usize != q);
                    assert(v.start.contains(p as usize) <==> v.no_inputs(p));
                }
            }
        }
        if at_most_once(v.next, q) {
            lemma_remove_first_once(v.next, q);
        }
    }
    assert(w.forward == v.forward && w.backward == v.backward);
    assert(w.queues_ok());
    assert(w.start_ok());
    assert(w.start.contains((q as int) as usize) <==> w.no_inputs(q as int));
    assert(w.no_inputs(q as int) == v.no_inputs(q as int));
}

/// Connecting a wire makes it exist, a second connect of it is refused, and
/// disconnecting it again makes it disappear. After the connect, the start
/// set still holds exactly the processors without bound inputs, and the
/// destination is neither a start node nor, if it was queued at most once,
/// in the ready queue.
pub proof fn lemma_connect_disconnect<S, P>(v: UnitView<S, P>, c: Connection)
    requires
        v.wf(),
        v.valid_con(c),
        v.connect_outcome(c) is Ok,
    ensures
        v.bind(c).refresh_start(c.to.proc).has_connection(c),
        v.bind(c).refresh_start(c.to.proc).connect_outcome(c) is Err,
        v.bind(c).refresh_start(c.to.proc).disconnect_outcome(c) is Ok,
        !v.bind(c).refresh_start(c.to.proc).unbind(c).refresh_start(c.to.proc).has_connection(c),
        v.bind(c).refresh_start(c.to.proc).start_ok(),
        !v.bind(c).refresh_start(c.to.proc).start.contains(c.to.proc),
        at_most_once(v.next, c.to.proc) ==> !v.bind(c).refresh_start(c.to.proc).next.contains(c.to.proc),
{
    lemma_bind(v, c);
    let w = v.bind(c).refresh_start(c.to.proc);
    lemma_graph_only(v.bind(c), w);
    assert(w.out_slot(c.from) == Connector::ConnectedUsing(c));
    assert(w.in_slot(c.to) == Connector::ConnectedUsing(c.mirror()));
    let u = w.unbind(c);
    let x = u.refresh_start(c.to.proc);
    lemma_graph_only(u, x);
    let (p, b, s) = (c.from.proc as int, c.from.block as int, c.from.conn as int);
    assert(u.outs[p][b].block.conns[s] is Unconnected);
    let q = c.to.proc;
    let bv = v.bind(c);
    assert(!bv.no_inputs(q as int));
    assert(bv.start == v.start && bv.next == v.next);
    if at_most_once(v.next, q) {
        lemma_remove_first_once(v.next, q);
    }
    if v.start.contains(q) {
        let k = v.start.index_of(q);
        assert(v.start[k] == q);
        lemma_remove_contains(v.start, k, q);
        assert forall|i: int| 0 <= i < w.start.len() implies #[trigger] w.start[i] < w.n() by {
            if i < k {
                assert(w.start[i] == v.start[i]);
            } else {
                assert(w.start[i] == v.start[i + 1]);
            }
        }
        assert forall|x: int| 0 <= x < w.n() implies (w.start.contains(x as usize) <==> w.no_inputs(x)) by {
            lemma_remove_contains(v.start, k, x as usize);
            assert(v.start.contains(x as usize) <==> v.no_inputs(x));
            if x != q {
                assert(x as usize != q);
            }
        }
    } else {
        assert forall|x: int| 0 <= x < w.n() implies (w.start.contains(x as usize) <==> w.no_inputs(x)) by {
            assert(v.start.contains(x as usize) <==> v.no_inputs(x));
            if x != q {
                assert(x as usize != q);
            }
        }
    }
}

/// Forward dispatch along `c` puts a processor in the ready queue only when,
/// after the delivery, every input block of the destination has counted all
/// of its bound slots; the destination's counters then restart from zero.
/// The delivery counts one more filled slot at the destination block.
pub proof fn lemma_readiness_gating<S, P>(v: UnitView<S, P>, c: Connection)
    requires
        v.wf(),
        v.valid_con(c),
    ensures
        ({
            let old_in = v.ins[c.to.proc as int][c.to.block as int];
            v.deliver(c).ins[c.to.proc as int][c.to.block as int].cnt == if old_in.cnt
                < old_in.block.num_cons {
                old_in.cnt + 1
            } else {
                old_in.cnt
            }
        }),
        v.deliver(c).inputs_complete(c.to.proc as int) ==> {
            &&& v.forward_one(c).next == v.next.push(c.to.proc)
            &&& forall|b: int|
                0 <= b < v.forward_one(c).ins[c.to.proc as int].len()
                    ==> (#[trigger] v.forward_one(c).ins[c.to.proc as int][b]).cnt == 0
        },
        !v.deliver(c).inputs_complete(c.to.proc as int) ==> v.forward_one(c).next == v.next,
{
    let q = c.to.proc as int;
    let d = v.deliver(c);
    if d.inputs_complete(q) {
        let u = d.enqueue_ready(c.to.proc);
        assert forall|b: int| 0 <= b < u.ins[q].len() implies (#[trigger] u.ins[q][b]).cnt == 0 by {
            assert(u.ins[q][b] == d.ins[q][b].with_cnt(0));
        }
    }
}

/// `blocks` are `k` blocks with no bound slot, counters at 0 and empty buffers.
pub open spec fn fresh_blocks<S>(blocks: Seq<PortView<S>>) -> bool {
    forall|b: int|
        0 <= b < blocks.len() ==> {
            &&& (#[trigger] blocks[b]).wf()
            &&& blocks[b].cnt == 0
            &&& blocks[b].block.num_cons == 0
            &&& forall|s: int| 0 <= s < BLOCK_LEN ==> #[trigger] blocks[b].block.conns[s] is Unconnected
            &&& forall|s: int|
                0 <= s < BLOCK_LEN ==> (#[trigger] blocks[b].block.bufs[s]).rd == 0
                    && blocks[b].block.bufs[s].wr == 0
        }
}

} // verus!
