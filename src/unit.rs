use vstd::prelude::*;
use std::collections::VecDeque;
use crate::block::{Connection, Connector, Connectors, EndPoint, Input, Output, Port, PortView, BLOCK_LEN};
use crate::buffer::BUFFER_LEN;
use crate::error::Error;
use crate::graph::{
    bound_of, count_unmarked, far_procs, fresh_blocks, lemma_back_job_ok, lemma_bind, lemma_far_procs,
    lemma_graph_only, lemma_mark, lemma_ran_wf, lemma_refresh_start,
    lemma_remove_first, lemma_remove_first_absent, lemma_same_graph_trans, lemma_same_wiring_wf,
    lemma_shape_kept, lemma_stored_cons_valid, lemma_stored_cons_wiring, lemma_stored_in_valid,
    lemma_unbind, marked, remove_first, stored_cons, Job, UnitView,
};
use crate::processor::Processor;
use crate::progress::{
    lemma_backward_jobs_queues, lemma_forward_all_weight, lemma_jobs_weight_front,
    lemma_ready_weight_front, lemma_run_lighter, lemma_weights_exist, max_rank, total_blocks,
    weights_fit, work,
};

verus! {

struct Dispatch {
    cons: Vec<Connection>,
    proc: usize,
}

impl View for Dispatch {
    type V = Job;

    closed spec fn view(&self) -> Job {
        Job { cons: self.cons@, proc: self.proc }
    }
}

enum State {
    Started,
    Stopped,
}

fn fresh_inputs<S: Copy>(k: usize, zero: S) -> (r: Vec<Input<S>>)
    ensures
        r@.len() == k,
        fresh_blocks(r@.map(|j: int, x: Input<S>| x@)),
{
    let mut r: Vec<Input<S>> = Vec::new();
    let mut i: usize = 0;
    while i < k
        invariant
            i <= k,
            r@.len() == i,
            fresh_blocks(r@.map(|j: int, x: Input<S>| x@)),
        decreases k - i,
    {
        let ghost prev = r@.map(|j: int, x: Input<S>| x@);
        let x = Input::new(zero);
        r.push(x);
        assert(r@.map(|j: int, x: Input<S>| x@) =~= prev.push(x@));
        i = i + 1;
    }
    r
}

fn fresh_outputs<S: Copy>(k: usize, zero: S) -> (r: Vec<Output<S>>)
    ensures
        r@.len() == k,
        fresh_blocks(r@.map(|j: int, x: Output<S>| x@)),
{
    let mut r: Vec<Output<S>> = Vec::new();
    let mut i: usize = 0;
    while i < k
        invariant
            i <= k,
            r@.len() == i,
            fresh_blocks(r@.map(|j: int, x: Output<S>| x@)),
        decreases k - i,
    {
        let ghost prev = r@.map(|j: int, x: Output<S>| x@);
        let x = Output::new(zero);
        r.push(x);
        assert(r@.map(|j: int, x: Output<S>| x@) =~= prev.push(x@));
        i = i + 1;
    }
    r
}

/// The first index of `v` that holds `x`.
fn position(v: &VecDeque<usize>, x: usize) -> (r: Option<usize>)
    ensures
        r is None ==> !v@.contains(x),
        r matches Some(k) ==> k < v@.len() && v@[k as int] == x && forall|j: int|
            0 <= j < k ==> v@[j] != x,
{
    let mut i: usize = 0;
    while i < v.len()
        invariant
            i <= v@.len(),
            forall|j: int| 0 <= j < i ==> v@[j] != x,
        decreases v@.len() - i,
    {
        if v[i] == x {
            return Some(i);
        }
        i = i + 1;
    }
    None
}


/// The wires stored in `ports`, block by block and slot by slot.
fn gather<S: Copy, T: Port<S>>(ports: &Vec<T>) -> (r: Vec<Connection>)
    requires
        forall|b: int| 0 <= b < ports@.len() ==> (#[trigger] ports@[b]).port().wf(),
    ensures
        r@ == stored_cons(ports@.map(|i: int, x: T| x.port())),
{
    let ghost pv = ports@.map(|i: int, x: T| x.port());
    let mut r: Vec<Connection> = Vec::new();
    let mut b: usize = 0;
    while b < ports.len()
        invariant
            b <= ports@.len(),
            pv == ports@.map(|i: int, x: T| x.port()),
            forall|k: int| 0 <= k < ports@.len() ==> (#[trigger] ports@[k]).port().wf(),
            r@ == stored_cons(pv.take(b as int)),
        decreases ports@.len() - b,
    {
        let ghost cs = pv[b as int].block.conns;
        let mut k: usize = 0;
        while k < BLOCK_LEN
            invariant
                b < ports@.len(),
                k <= BLOCK_LEN,
                pv == ports@.map(|i: int, x: T| x.port()),
                cs == pv[b as int].block.conns,
                cs.len() == BLOCK_LEN,
                forall|j: int| 0 <= j < ports@.len() ==> (#[trigger] ports@[j]).port().wf(),
                r@ == stored_cons(pv.take(b as int)) + bound_of(cs.take(k as int)),
            decreases BLOCK_LEN - k,
        {
            assert(cs.take(k + 1).drop_last() =~= cs.take(k as int));
            assert(ports@[b as int].port().wf());
            let con = ports[b].slot(k);
            if let Connector::ConnectedUsing(c) = con {
                r.push(c);
                assert(r@ =~= stored_cons(pv.take(b as int)) + bound_of(cs.take(k + 1)));
            } else {
                assert(r@ =~= stored_cons(pv.take(b as int)) + bound_of(cs.take(k + 1)));
            }
            k = k + 1;
        }
        assert(pv.take(b + 1).drop_last() =~= pv.take(b as int));
        assert(cs.take(BLOCK_LEN as int) =~= cs);
        b = b + 1;
    }
    assert(pv.take(ports@.len() as int) =~= pv);
    r
}

/// Sets every readiness counter of `blocks` back to 0.
fn reset_counts<S: Copy, T: Port<S>>(blocks: &mut Vec<T>)
    ensures
        final(blocks)@.map(|i: int, x: T| x.port()) == old(blocks)@.map(|i: int, x: T| x.port()).map(
            |i: int, x: PortView<S>| x.with_cnt(0),
        ),
{
    let ghost pv = blocks@.map(|i: int, x: T| x.port());
    let mut b: usize = 0;
    while b < blocks.len()
        invariant
            b <= blocks@.len(),
            blocks@.len() == pv.len(),
            forall|k: int| 0 <= k < b ==> (#[trigger] blocks@[k]).port() == pv[k].with_cnt(0),
            forall|k: int| b <= k < pv.len() ==> (#[trigger] blocks@[k]).port() == pv[k],
        decreases pv.len() - b,
    {
        blocks[b].clear_count();
        b = b + 1;
    }
    assert(blocks@.map(|i: int, x: T| x.port()) =~= pv.map(|i: int, x: PortView<S>| x.with_cnt(0)));
}

/// Removes the first occurrence of `x`, if any.
fn remove_first_in(v: &mut VecDeque<usize>, x: usize)
    ensures
        final(v)@ == remove_first(old(v)@, x),
        forall|i: int| 0 <= i < final(v)@.len() ==> exists|j: int| 0 <= j < old(v)@.len() && #[trigger] final(v)@[i] == old(v)@[j],
{
    let ghost s = v@;
    match position(v, x) {
        Some(j) => {
            proof {
                lemma_remove_first(s, x, j as int);
            }
            v.remove(j);
            assert forall|i: int| 0 <= i < v@.len() implies exists|k: int| 0 <= k < s.len() && #[trigger] v@[i] == s[k] by {
                if i < j {
                    assert(v@[i] == s[i]);
                } else {
                    assert(v@[i] == s[i + 1]);
                }
            }
        },
        None => {
            proof {
                lemma_remove_first_absent(s, x);
            }
            assert forall|i: int| 0 <= i < v@.len() implies exists|k: int| 0 <= k < s.len() && #[trigger] v@[i] == s[k] by {
                assert(v@[i] == s[i]);
            }
        },
    }
}

/// Owns a set of processors and the wires between them, and drives them:
/// a ready queue of processors to run, a forward queue of produced data to
/// deliver, and a backward queue of drain acknowledgements.
pub struct Unit<S, P> {
    procs: Vec<P>,
    ins: Vec<Vec<Input<S>>>,
    outs: Vec<Vec<Output<S>>>,
    next: VecDeque<usize>,
    forward: VecDeque<Dispatch>,
    backward: VecDeque<Dispatch>,
    start: VecDeque<usize>,
    state: State,
    zero: S,
    rank: Ghost<Seq<nat>>,
}

impl<S: Copy + Default, P: Processor<S>> Default for Unit<S, P> {
    /// An empty, stopped unit.
    fn default() -> (r: Self)
        ensures
            r@.wf(),
            r@.n() == 0,
            !r@.started,
            r@.next.len() == 0,
            r@.forward.len() == 0,
            r@.backward.len() == 0,
            r@.start.len() == 0,
    {
        Unit::new(S::default())
    }
}

impl<S, P> View for Unit<S, P> {
    type V = UnitView<S, P>;

    closed spec fn view(&self) -> UnitView<S, P> {
        UnitView {
            procs: self.procs@,
            ins: self.ins@.map(|i: int, v: Vec<Input<S>>| v@.map(|j: int, x: Input<S>| x@)),
            outs: self.outs@.map(|i: int, v: Vec<Output<S>>| v@.map(|j: int, x: Output<S>| x@)),
            next: self.next@,
            forward: self.forward@.map(|i: int, d: Dispatch| d@),
            backward: self.backward@.map(|i: int, d: Dispatch| d@),
            start: self.start@,
            started: self.state is Started,
            rank: self.rank@,
        }
    }
}

impl<S: Copy, P: Processor<S>> Unit<S, P> {
    /// An empty, stopped unit; `zero` is the sample value its buffers hold
    /// before anything is written.
    pub fn new(zero: S) -> (r: Self)
        ensures
            r@.wf(),
            r@.n() == 0,
            !r@.started,
            r@.next.len() == 0,
            r@.forward.len() == 0,
            r@.backward.len() == 0,
            r@.start.len() == 0,
    {
        let r = Unit {
            procs: Vec::new(),
            ins: Vec::new(),
            outs: Vec::new(),
            next: VecDeque::new(),
            forward: VecDeque::new(),
            backward: VecDeque::new(),
            start: VecDeque::new(),
            state: State::Stopped,
            zero,
            rank: Ghost(Seq::empty()),
        };
        assert(r@.ins =~= Seq::empty());
        assert(r@.outs =~= Seq::empty());
        assert(r@.forward =~= Seq::empty());
        assert(r@.backward =~= Seq::empty());
        r
    }

    pub fn started(&self) -> (r: bool)
        ensures
            r == self@.started,
    {
        match self.state {
            State::Started => true,
            State::Stopped => false,
        }
    }

    /// Adds a processor, with fresh blocks for the inputs and outputs it
    /// declares. It gets the next index and, having no inputs, joins the start set.
    pub fn add(&mut self, proc: P) -> (r: Result<(), Error>)
        requires
            old(self)@.wf(),
        ensures
            final(self)@.wf(),
            old(self)@.started ==> r == Err::<(), Error>(Error::Started) && final(self)@ == old(self)@,
            !old(self)@.started ==> {
                &&& r is Ok
                &&& final(self)@.procs == old(self)@.procs.push(proc)
                &&& final(self)@.ins.drop_last() == old(self)@.ins
                &&& final(self)@.outs.drop_last() == old(self)@.outs
                &&& fresh_blocks(final(self)@.ins.last())
                &&& fresh_blocks(final(self)@.outs.last())
                &&& final(self)@.start == old(self)@.start.push(old(self)@.n() as usize)
                &&& final(self)@.next == old(self)@.next
                &&& final(self)@.forward == old(self)@.forward
                &&& final(self)@.backward == old(self)@.backward
                &&& !final(self)@.started
            },
    {
        if self.started() {
            return Err(Error::Started);
        }
        let ghost old_v = self@;
        let ni = proc.num_inputs();
        let no = proc.num_outputs();
        let n = self.procs.len();
        let ins = fresh_inputs(ni, self.zero);
        let outs = fresh_outputs(no, self.zero);
        // Reading the lengths records that they fit in a usize.
        let _ = ins.len();
        let _ = outs.len();
        self.start.push_back(n);
        self.procs.push(proc);
        self.ins.push(ins);
        self.outs.push(outs);
        self.rank = Ghost(self.rank@.push(0));
        let _ = self.procs.len(); // likewise for the new number of processors
        let ghost v = self@;
        assert(v.ins =~= old_v.ins.push(ins@.map(|j: int, x: Input<S>| x@)));
        assert(v.outs =~= old_v.outs.push(outs@.map(|j: int, x: Output<S>| x@)));
        assert(v.ins.drop_last() =~= old_v.ins);
        assert(v.outs.drop_last() =~= old_v.outs);
        assert(v.forward =~= old_v.forward);
        assert(v.backward =~= old_v.backward);
        assert(v.wiring_ok()) by {
            assert forall|e: EndPoint| #![trigger v.out_slot(e)]
                v.valid_out(e) && v.out_slot(e) is ConnectedUsing implies {
                    let c = v.out_slot(e)->ConnectedUsing_0;
                    &&& c.from == e
                    &&& v.valid_in(c.to)
                    &&& v.in_slot(c.to) == Connector::ConnectedUsing(c.mirror())
                } by {
                if e.proc < n {
                    assert(old_v.out_slot(e) == v.out_slot(e));
                    let c = v.out_slot(e)->ConnectedUsing_0;
                    assert(old_v.in_slot(c.to) == v.in_slot(c.to));
                }
            }
            assert forall|e: EndPoint| #![trigger v.in_slot(e)]
                v.valid_in(e) && v.in_slot(e) is ConnectedUsing implies {
                    let c = v.in_slot(e)->ConnectedUsing_0;
                    &&& c.from == e
                    &&& v.valid_out(c.to)
                    &&& v.out_slot(c.to) == Connector::ConnectedUsing(c.mirror())
                } by {
                if e.proc < n {
                    assert(old_v.in_slot(e) == v.in_slot(e));
                    let c = v.in_slot(e)->ConnectedUsing_0;
                    assert(old_v.out_slot(c.to) == v.out_slot(c.to));
                }
            }
        }
        assert(v.rank_ok()) by {
            assert forall|e: EndPoint| #![trigger v.out_slot(e)]
                v.valid_out(e) && v.out_slot(e) is ConnectedUsing implies v.rank[e.proc as int]
                    < v.rank[v.out_slot(e)->ConnectedUsing_0.to.proc as int] by {
                if e.proc < n {
                    assert(old_v.out_slot(e) == v.out_slot(e));
                }
            }
        }
        assert(v.start =~= old_v.start.push(n));
        assert(v.start_ok()) by {
            assert forall|p: int| 0 <= p < v.n() implies (v.start.contains(p as usize)
                <==> v.no_inputs(p)) by {
                if p < n {
                    assert(v.ins[p] == old_v.ins[p]);
                    assert(v.no_inputs(p) == old_v.no_inputs(p));
                    if old_v.start.contains(p as usize) {
                        let k = choose|k: int| 0 <= k < old_v.start.len() && old_v.start[k] == p as usize;
                        assert(v.start[k] == p as usize);
                    }
                    if v.start.contains(p as usize) {
                        let k = choose|k: int| 0 <= k < v.start.len() && v.start[k] == p as usize;
                        if k == old_v.start.len() {
                            assert(v.start[k] == n);
                        } else {
                            assert(old_v.start[k] == p as usize);
                        }
                    }
                } else {
                    assert(v.start[old_v.start.len() as int] == n);
                    assert(v.ins[p] == ins@.map(|j: int, x: Input<S>| x@));
                    assert(v.no_inputs(p));
                }
            }
            assert forall|i: int| 0 <= i < v.start.len() implies #[trigger] v.start[i] < v.n() by {
                if i < old_v.start.len() {
                    assert(v.start[i] == old_v.start[i]);
                }
            }
            assert(v.start.no_duplicates()) by {
                assert forall|i: int, j: int| 0 <= i < v.start.len() && 0 <= j < v.start.len() && i != j
                    implies v.start[i] != v.start[j] by {
                    if i < old_v.start.len() && j < old_v.start.len() {
                        assert(old_v.start[i] != old_v.start[j]);
                    } else if i < old_v.start.len() {
                        assert(old_v.start[i] < n);
                    } else if j < old_v.start.len() {
                        assert(old_v.start[j] < n);
                    }
                }
            }
        }
        assert(v.blocks_ok());
        proof {
            lemma_shape_kept(old_v, v);
        }
        assert forall|i: int| 0 <= i < v.forward.len() implies v.job_ok(#[trigger] v.forward[i]) by {
            assert(old_v.job_ok(old_v.forward[i]));
        }
        assert forall|i: int| 0 <= i < v.backward.len() implies v.job_ok(#[trigger] v.backward[i]) by {
            assert(old_v.job_ok(old_v.backward[i]));
        }
        assert(v.next == old_v.next);
        assert(v.n() == old_v.n() + 1);
        assert forall|i: int| 0 <= i < v.next.len() implies #[trigger] v.next[i] < v.n() by {
            assert(old_v.next[i] < old_v.n());
        }
        assert(v.queues_ok());
        Ok(())
    }

    /// Files processor `q` in or out of the start set after its inputs changed.
    fn update_start_list(&mut self, q: usize)
        requires
            old(self)@.wf_but_start(q as int),
            q < old(self)@.n(),
        ensures
            final(self)@.wf(),
            final(self)@ == old(self)@.refresh_start(q),
    {
        let ghost v = self@;
        let mut no_in = true;
        let mut b: usize = 0;
        while b < self.ins[q].len()
            invariant
                v == self@,
                v.blocks_ok(),
                q < v.n(),
                b <= v.ins[q as int].len(),
                no_in == forall|k: int| 0 <= k < b ==> (#[trigger] v.ins[q as int][k]).block.num_cons == 0,
            decreases v.ins[q as int].len() - b,
        {
            assert(v.ins[q as int][b as int] == self.ins@[q as int]@[b as int]@);
            if self.ins[q][b].num_cons() > 0 {
                no_in = false;
            }
            b = b + 1;
        }
        assert(no_in == v.no_inputs(q as int));
        let found = position(&self.start, q);
        if no_in {
            if found.is_none() {
                self.start.push_back(q);
                self.next.push_back(q);
            }
        } else {
            if let Some(k) = found {
                self.start.remove(k);
                assert(v.start.index_of(q) == k) by {
                    let j = v.start.index_of(q);
                    assert(v.start.contains(q));
                    assert(v.start[j] == q);
                }
            }
            remove_first_in(&mut self.next, q);
        }
        proof {
            assert(self@ == v.refresh_start(q));
            lemma_refresh_start(v, q);
        }
    }

    /// Marks every processor that `q` reaches.
    fn closure_from(&self, q: usize) -> (marks: Vec<bool>)
        requires
            self@.wf(),
            q < self@.n(),
        ensures
            marks@.len() == self@.n(),
            marks@[q as int],
            self@.closed(marked(marks@)),
            forall|set: Set<int>|
                set.contains(q as int) && self@.closed(set) ==> marked(marks@).subset_of(set),
    {
        let ghost v = self@;
        let n = self.procs.len();
        let mut marks: Vec<bool> = Vec::new();
        let mut i: usize = 0;
        while i < n
            invariant
                i <= n,
                marks@.len() == i,
                forall|k: int| 0 <= k < i ==> !marks@[k],
            decreases n - i,
        {
            marks.push(false);
            i = i + 1;
        }
        proof {
            lemma_mark(marks@, q as int);
        }
        marks.set(q, true);
        let mut stack: Vec<usize> = Vec::new();
        stack.push(q);
        let ghost mut done: Set<int> = Set::empty();
        assert(stack@[0] == q);
        assert forall|x: int| 0 <= x < n && marks@[x] implies done.contains(x) || stack@.contains(x as usize) by {
            assert(x == q);
        }
        assert forall|set: Set<int>| set.contains(q as int) && v.closed(set) implies marked(marks@).subset_of(set) by {
            assert forall|z: int| marked(marks@).contains(z) implies set.contains(z) by {
                assert(z == q);
            }
        }
        while stack.len() > 0
            invariant
                v == self@,
                v.wf(),
                n == v.n(),
                q < n,
                marks@.len() == n,
                marks@[q as int],
                forall|k: int| 0 <= k < stack@.len() ==> #[trigger] stack@[k] < n && marks@[stack@[k] as int],
                forall|x: int| 0 <= x < n && marks@[x] ==> done.contains(x) || stack@.contains(x as usize),
                forall|x: int| done.contains(x) ==> 0 <= x < n && marks@[x] && v.succs_marked(marks@, x),
                forall|set: Set<int>|
                    set.contains(q as int) && v.closed(set) ==> marked(marks@).subset_of(set),
            decreases 2 * count_unmarked(marks@) + stack@.len(),
        {
            let ghost full = stack@;
            let x = stack.pop().unwrap();
            assert(stack@ == full.drop_last());
            assert forall|y: int| 0 <= y < n && marks@[y] implies y == x || done.contains(y) || stack@.contains(y as usize) by {
                if !(y == x || done.contains(y)) {
                    let j = choose|j: int| 0 <= j < full.len() && full[j] == y as usize;
                    assert(j < full.len() - 1);
                    assert(stack@[j] == y as usize);
                }
            }
            let ghost m0 = 2 * count_unmarked(marks@) + stack@.len();
            let nb = self.outs[x].len();
            let mut b: usize = 0;
            while b < nb
                invariant
                    v == self@,
                    v.wf(),
                    n == v.n(),
                    q < n,
                    x < n,
                    nb == v.outs[x as int].len(),
                    b <= nb,
                    marks@.len() == n,
                    marks@[q as int],
                    marks@[x as int],
                    2 * count_unmarked(marks@) + stack@.len() <= m0,
                    forall|k: int| 0 <= k < stack@.len() ==> #[trigger] stack@[k] < n && marks@[stack@[k] as int],
                    forall|y: int| 0 <= y < n && marks@[y] ==> y == x || done.contains(y) || stack@.contains(y as usize),
                    forall|y: int| done.contains(y) ==> 0 <= y < n && marks@[y] && v.succs_marked(marks@, y),
                    forall|set: Set<int>|
                        set.contains(q as int) && v.closed(set) ==> marked(marks@).subset_of(set),
                    forall|e: EndPoint|
                        #![trigger v.out_slot(e)]
                        v.valid_out(e) && e.proc == x && e.block < b && v.out_slot(e) is ConnectedUsing
                            ==> marks@[v.out_slot(e)->ConnectedUsing_0.to.proc as int],
                decreases nb - b,
            {
                let mut k: usize = 0;
                while k < BLOCK_LEN
                    invariant
                        v == self@,
                        v.wf(),
                        n == v.n(),
                        q < n,
                        x < n,
                        nb == v.outs[x as int].len(),
                        b < nb,
                        k <= BLOCK_LEN,
                        marks@.len() == n,
                        marks@[q as int],
                        marks@[x as int],
                        2 * count_unmarked(marks@) + stack@.len() <= m0,
                        forall|j: int| 0 <= j < stack@.len() ==> #[trigger] stack@[j] < n && marks@[stack@[j] as int],
                        forall|y: int| 0 <= y < n && marks@[y] ==> y == x || done.contains(y) || stack@.contains(y as usize),
                        forall|y: int| done.contains(y) ==> 0 <= y < n && marks@[y] && v.succs_marked(marks@, y),
                        forall|set: Set<int>|
                            set.contains(q as int) && v.closed(set) ==> marked(marks@).subset_of(set),
                        forall|e: EndPoint|
                            #![trigger v.out_slot(e)]
                            v.valid_out(e) && e.proc == x && (e.block < b || (e.block == b && e.conn < k))
                                && v.out_slot(e) is ConnectedUsing
                                ==> marks@[v.out_slot(e)->ConnectedUsing_0.to.proc as int],
                    decreases BLOCK_LEN - k,
                {
                    let ghost e = EndPoint { proc: x, block: b, conn: k };
                    assert(v.outs[x as int][b as int] == self.outs@[x as int]@[b as int]@);
                    let con = self.outs[x][b].connector(k);
                    assert(con == v.out_slot(e));
                    if let Connector::ConnectedUsing(c) = con {
                        let y = c.to.proc;
                        assert(v.valid_in(c.to));
                        if !marks[y] {
                            let ghost before = marks@;
                            let ghost before_stack = stack@;
                            proof {
                                lemma_mark(marks@, y as int);
                                assert forall|set: Set<int>|
                                    set.contains(q as int) && v.closed(set) implies marked(
                                    before.update(y as int, true),
                                ).subset_of(set) by {
                                    assert(marked(before).contains(x as int));
                                    assert(set.contains(x as int));
                                    assert(v.valid_out(e) && set.contains(e.proc as int));
                                    assert(set.contains(y as int));
                                    assert forall|z: int| marked(before.update(y as int, true)).contains(z) implies set.contains(z) by {
                                        if z != y {
                                            assert(marked(before).contains(z));
                                        }
                                    }
                                }
                            }
                            marks.set(y, true);
                            stack.push(y);
                            proof {
                                assert forall|w: int| done.contains(w) implies 0 <= w < n && marks@[w] && v.succs_marked(marks@, w) by {
                                    assert(v.succs_marked(before, w));
                                }
                                assert forall|z: int| 0 <= z < n && marks@[z] implies z == x || done.contains(z) || stack@.contains(z as usize) by {
                                    if z == y {
                                        assert(stack@[stack@.len() - 1] == y);
                                    } else if !(z == x || done.contains(z)) {
                                        assert(before[z]);
                                        assert(stack@ == before_stack.push(y));
                                        let j = choose|j: int| 0 <= j < before_stack.len() && before_stack[j] == z as usize;
                                        assert(stack@[j] == z as usize);
                                    }
                                }
                            }
                        }
                    }
                    k = k + 1;
                }
                b = b + 1;
            }
            proof {
                done = done.insert(x as int);
                assert(v.succs_marked(marks@, x as int));
                assert forall|z: int| 0 <= z < n && marks@[z] implies done.contains(z) || stack@.contains(z as usize) by {
                }
            }
        }
        proof {
            assert forall|x: int| 0 <= x < n && marks@[x] implies done.contains(x) by {
                if stack@.contains(x as usize) {
                    let j = choose|j: int| 0 <= j < stack@.len() && stack@[j] == x as usize;
                }
            }
            assert forall|e: EndPoint| #![trigger v.out_slot(e)]
                v.valid_out(e) && marked(marks@).contains(e.proc as int) && v.out_slot(e) is ConnectedUsing
                implies marked(marks@).contains(v.out_slot(e)->ConnectedUsing_0.to.proc as int) by {
                assert(done.contains(e.proc as int));
                assert(v.succs_marked(marks@, e.proc as int));
                assert(v.valid_in(v.out_slot(e)->ConnectedUsing_0.to));
            }
        }
        marks
    }

    /// Whether the wire `con` exists, registered at both of its ends.
    pub fn connection_exists(&self, con: Connection) -> (r: bool)
        requires
            self@.wf(),
            self@.valid_con(con),
        ensures
            r == self@.has_connection(con),
    {
        let ghost v = self@;
        assert(v.outs[con.from.proc as int][con.from.block as int] == self.outs@[con.from.proc as int]@[con.from.block as int]@);
        assert(v.ins[con.to.proc as int][con.to.block as int] == self.ins@[con.to.proc as int]@[con.to.block as int]@);
        if let Connector::ConnectedUsing(con_from) = self.outs[con.from.proc][con.from.block].connector(
            con.from.conn,
        ) {
            if con_from.from == con.from && con_from.to == con.to {
                if let Connector::ConnectedUsing(con_to) = self.ins[con.to.proc][con.to.block].connector(
                    con.to.conn,
                ) {
                    return con_to.from == con.to && con_to.to == con.from;
                }
            }
        }
        false
    }

    /// Wires output slot `con.from` to input slot `con.to`. Both ends are
    /// bound or neither is; the destination then leaves the start set.
    /// Refused while started, when the wire would close a cycle (a processor
    /// wired to itself included), and when either slot is already bound.
    pub fn connect(&mut self, con: Connection) -> (r: Result<(), Error>)
        requires
            old(self)@.wf(),
            old(self)@.valid_con(con),
        ensures
            final(self)@.wf(),
            r == old(self)@.connect_outcome(con),
            r is Err ==> final(self)@ == old(self)@,
            r is Ok ==> final(self)@.agrees(old(self)@.bind(con).refresh_start(con.to.proc)),
    {
        if self.started() {
            return Err(Error::Started);
        }
        let ghost v = self@;
        let p = con.from.proc;
        let q = con.to.proc;
        let marks = self.closure_from(q);
        proof {
            if marks@[p as int] {
                assert forall|set: Set<int>| set.contains(q as int) && v.closed(set) implies set.contains(p as int) by {
                    assert(marked(marks@).contains(p as int));
                }
            } else {
                assert(!marked(marks@).contains(p as int));
                assert(marked(marks@).contains(q as int));
            }
        }
        if marks[p] {
            return Err(Error::WouldCycle);
        }
        let ghost inner_out = self.outs@[p as int];
        assert(v.outs[p as int][con.from.block as int] == self.outs@[p as int]@[con.from.block as int]@);
        let r1 = self.outs[p][con.from.block].connect(con);
        if r1.is_err() {
            assert(self@.outs =~~= v.outs);
            return r1;
        }
        assert(self@.outs =~~= v.bind(con).outs);
        let mirror = Connection { from: con.to, to: con.from };
        assert(v.ins[q as int][con.to.block as int] == self.ins@[q as int]@[con.to.block as int]@);
        let r2 = self.ins[q][con.to.block].connect(mirror);
        if r2.is_err() {
            let _ = self.outs[p][con.from.block].disconnect(con.from.conn);
            let ghost op = v.outs[p as int][con.from.block as int];
            assert(op.block.conns.update(con.from.conn as int, Connector::ConnectedUsing(con)).update(
                con.from.conn as int,
                Connector::Unconnected,
            ) =~= op.block.conns);
            assert(self@.outs[p as int][con.from.block as int] == op);
            assert(self@.outs =~~= v.outs);
            assert(self@.ins =~~= v.ins);
            return r2;
        }
        assert(self@.ins =~~= v.bind(con).ins);
        proof {
            let n = v.n();
            let k = v.rank[p as int] + 1;
            let rank2 = Seq::new(n, |i: int| if marks@[i] { v.rank[i] + k } else { v.rank[i] });
            self.rank = Ghost(rank2);
            lemma_bind(v, con);
            let w = self@;
            let b = v.bind(con);
            lemma_graph_only(b, w);
            lemma_shape_kept(v, w);
            assert forall|e: EndPoint| #![trigger w.out_slot(e)]
                w.valid_out(e) && w.out_slot(e) is ConnectedUsing implies w.rank[e.proc as int]
                    < w.rank[w.out_slot(e)->ConnectedUsing_0.to.proc as int] by {
                assert(v.valid_out(e));
                if e != con.from {
                    let c = v.out_slot(e)->ConnectedUsing_0;
                    assert(v.valid_in(c.to));
                    if marks@[e.proc as int] {
                        assert(marked(marks@).contains(e.proc as int));
                        assert(marked(marks@).contains(c.to.proc as int));
                    }
                }
            }
            assert(w.rank_ok());
            assert forall|i: int| 0 <= i < w.forward.len() implies w.job_ok(#[trigger] w.forward[i]) by {
                assert(v.job_ok(v.forward[i]));
            }
            assert forall|i: int| 0 <= i < w.backward.len() implies w.job_ok(#[trigger] w.backward[i]) by {
                assert(v.job_ok(v.backward[i]));
            }
            assert(w.queues_ok());
            assert forall|x: int| 0 <= x < w.n() && x != q implies (w.start.contains(x as usize)
                <==> w.no_inputs(x)) by {
                assert(v.start.contains(x as usize) <==> v.no_inputs(x));
            }
            assert(w.wf_but_start(q as int));
        }
        self.update_start_list(q);
        Ok(())
    }

    /// Removes the wire `con`, from both of its ends, and refreshes the
    /// destination as `connect` does: if that was its last input it rejoins
    /// the start set and the ready queue; if other inputs stay bound, it
    /// leaves its first place in the ready queue, if any, since the inputs it
    /// was fed through have changed and it waits to be fed again. Refused
    /// while started and when the wire does not exist.
    pub fn disconnect(&mut self, con: Connection) -> (r: Result<(), Error>)
        requires
            old(self)@.wf(),
            old(self)@.valid_con(con),
        ensures
            final(self)@.wf(),
            r == old(self)@.disconnect_outcome(con),
            r is Err ==> final(self)@ == old(self)@,
            r is Ok ==> final(self)@ == old(self)@.unbind(con).refresh_start(con.to.proc),
    {
        if self.started() {
            return Err(Error::Started);
        }
        if !self.connection_exists(con) {
            return Err(Error::NoSuchConnection);
        }
        let ghost v = self@;
        let p = con.from.proc;
        let q = con.to.proc;
        assert(v.outs[p as int][con.from.block as int] == self.outs@[p as int]@[con.from.block as int]@);
        let _ = self.outs[p][con.from.block].disconnect(con.from.conn);
        assert(self@.outs =~~= v.unbind(con).outs);
        assert(v.ins[q as int][con.to.block as int] == self.ins@[q as int]@[con.to.block as int]@);
        let _ = self.ins[q][con.to.block].disconnect(con.to.conn);
        assert(self@.ins =~~= v.unbind(con).ins);
        proof {
            lemma_unbind(v, con);
            let w = self@;
            assert(w == v.unbind(con));
            lemma_shape_kept(v, w);
            assert forall|e: EndPoint| #![trigger w.out_slot(e)]
                w.valid_out(e) && w.out_slot(e) is ConnectedUsing implies w.rank[e.proc as int]
                    < w.rank[w.out_slot(e)->ConnectedUsing_0.to.proc as int] by {
                assert(v.valid_out(e));
            }
            assert forall|i: int| 0 <= i < w.forward.len() implies w.job_ok(#[trigger] w.forward[i]) by {
                assert(v.job_ok(v.forward[i]));
            }
            assert forall|i: int| 0 <= i < w.backward.len() implies w.job_ok(#[trigger] w.backward[i]) by {
                assert(v.job_ok(v.backward[i]));
            }
            assert forall|x: int| 0 <= x < w.n() && x != q implies (w.start.contains(x as usize)
                <==> w.no_inputs(x)) by {
                assert(v.start.contains(x as usize) <==> v.no_inputs(x));
            }
            assert(w.wf_but_start(q as int));
        }
        self.update_start_list(q);
        Ok(())
    }

    /// Puts the unit in the running state. If nothing is queued to run, every
    /// start node is queued, in start-set order. Refused if already started.
    pub fn start(&mut self) -> (r: Result<(), Error>)
        requires
            old(self)@.wf(),
        ensures
            final(self)@.wf(),
            old(self)@.started ==> r == Err::<(), Error>(Error::Started) && final(self)@ == old(self)@,
            !old(self)@.started ==> r is Ok && final(self)@ == (UnitView {
                started: true,
                next: if old(self)@.next.len() == 0 {
                    old(self)@.start
                } else {
                    old(self)@.next
                },
                ..old(self)@
            }),
    {
        if self.started() {
            return Err(Error::Started);
        }
        let ghost v = self@;
        if self.next.len() == 0 {
            let mut i: usize = 0;
            assert(v.start.take(0) =~= v.next);
            while i < self.start.len()
                invariant
                    v.next.len() == 0,
                    i <= v.start.len(),
                    self.start@ == v.start,
                    self.next@ == v.start.take(i as int),
                    self@ == (UnitView { next: v.start.take(i as int), ..v }),
                decreases v.start.len() - i,
            {
                let x = self.start[i];
                self.next.push_back(x);
                assert(self.next@ =~= v.start.take(i + 1));
                i = i + 1;
            }
            assert(v.start.take(v.start.len() as int) =~= v.start);
        }
        self.state = State::Started;
        proof {
            let w = self@;
            lemma_graph_only(v, w);
            assert forall|i: int| 0 <= i < w.next.len() implies #[trigger] w.next[i] < w.n() by {
                if v.next.len() == 0 {
                    assert(w.next[i] == v.start[i]);
                } else {
                    assert(w.next[i] == v.next[i]);
                }
            }
            assert forall|i: int| 0 <= i < w.forward.len() implies w.job_ok(#[trigger] w.forward[i]) by {
                assert(v.job_ok(v.forward[i]));
            }
            assert forall|i: int| 0 <= i < w.backward.len() implies w.job_ok(#[trigger] w.backward[i]) by {
                assert(v.job_ok(v.backward[i]));
            }
        }
        Ok(())
    }

    /// Runs the processor at the front of the ready queue, if any: its compute
    /// step leaves every one of its output buffers fully written. Then queues
    /// a forward job with every wire out of its outputs.
    pub fn process_next(&mut self)
        requires
            old(self)@.wf(),
        ensures
            final(self)@.wf(),
            old(self)@.same_graph(final(self)@),
            old(self)@.next.len() == 0 ==> final(self)@ == old(self)@,
            old(self)@.next.len() > 0 ==> {
                let p = old(self)@.next[0];
                &&& old(self)@.ran(final(self)@, p as int)
                &&& final(self)@.next == old(self)@.next.drop_first()
                &&& final(self)@.forward == old(self)@.forward.push(
                    Job { cons: stored_cons(old(self)@.outs[p as int]), proc: p },
                )
                &&& final(self)@.backward == old(self)@.backward
                &&& final(self)@.start == old(self)@.start
                &&& final(self)@.started == old(self)@.started
                &&& final(self)@.rank == old(self)@.rank
                &&& forall|b: int, j: int|
                    0 <= b < final(self)@.outs[p as int].len() && 0 <= j < BLOCK_LEN
                        ==> (#[trigger] final(self)@.outs[p as int][b].block.bufs[j]).wr == BUFFER_LEN
            },
    {
        let ghost v = self@;
        if self.next.len() == 0 {
            return;
        }
        let p = self.next.pop_front().unwrap();
        assert(p < v.n());
        assert(forall|b: int| 0 <= b < self.ins@[p as int]@.len() ==> (#[trigger] self.ins@[p as int]@[b])@ == v.ins[p as int][b]);
        assert(forall|b: int| 0 <= b < self.outs@[p as int]@.len() ==> (#[trigger] self.outs@[p as int]@[b])@ == v.outs[p as int][b]);
        self.procs[p].process(&mut self.ins[p], &mut self.outs[p]);
        proof {
            assert forall|b: int, j: int|
                0 <= b < self@.outs[p as int].len() && 0 <= j < BLOCK_LEN implies (#[trigger] self@.outs[p as int][b].block.bufs[j]).wr
                    == BUFFER_LEN by {
                assert(self@.outs[p as int][b] == self.outs@[p as int]@[b]@);
            }
        }
        let cons = gather(&self.outs[p]);
        let ghost w0 = self@;
        proof {
            assert(self.outs@[p as int]@.map(|i: int, x: Output<S>| x.port()) =~= self.outs@[p as int]@.map(|i: int, x: Output<S>| x@));
            assert(w0.outs[p as int] =~= self.outs@[p as int]@.map(|i: int, x: Output<S>| x@));
            assert(stored_cons(w0.outs[p as int]) == stored_cons(v.outs[p as int])) by {
                lemma_stored_cons_wiring(w0.outs[p as int], v.outs[p as int]);
            }
        }
        self.forward.push_back(Dispatch { cons, proc: p });
        proof {
            let w = self@;
            assert(w.forward =~= v.forward.push(Job { cons: stored_cons(v.outs[p as int]), proc: p }));
            assert(v.ran(w, p as int));
            assert(w.backward == v.backward);
            assert forall|i: int| 0 <= i < w.forward.len() implies v.job_ok(#[trigger] w.forward[i]) by {
                if i < v.forward.len() {
                    assert(w.forward[i] == v.forward[i]);
                } else {
                    assert forall|k: int| 0 <= k < w.forward[i].cons.len() implies v.valid_con(#[trigger] w.forward[i].cons[k]) by {
                        lemma_stored_cons_valid(v, p as int, k);
                    }
                }
            }
            assert forall|i: int| 0 <= i < w.next.len() implies #[trigger] w.next[i] < w.n() by {
                assert(w.next[i] == v.next[i + 1]);
            }
            lemma_ran_wf(v, w, p as int);
        }
    }

    /// Whether every input block of `q` has counted all of its bound slots.
    fn inputs_full(&self, q: usize) -> (r: bool)
        requires
            self@.wf(),
            q < self@.n(),
        ensures
            r == self@.inputs_complete(q as int),
    {
        let ghost v = self@;
        let mut b: usize = 0;
        while b < self.ins[q].len()
            invariant
                v == self@,
                v.wf(),
                q < v.n(),
                b <= v.ins[q as int].len(),
                forall|k: int| 0 <= k < b ==> (#[trigger] v.ins[q as int][k]).complete(),
            decreases v.ins[q as int].len() - b,
        {
            assert(v.ins[q as int][b as int] == self.ins@[q as int]@[b as int]@);
            if self.ins[q][b].full_cnt() != self.ins[q][b].num_cons() {
                return false;
            }
            b = b + 1;
        }
        true
    }

    /// Whether every output block of `x` has counted all of its bound slots.
    fn outputs_empty(&self, x: usize) -> (r: bool)
        requires
            self@.wf(),
            x < self@.n(),
        ensures
            r == self@.outputs_complete(x as int),
    {
        let ghost v = self@;
        let mut b: usize = 0;
        while b < self.outs[x].len()
            invariant
                v == self@,
                v.wf(),
                x < v.n(),
                b <= v.outs[x as int].len(),
                forall|k: int| 0 <= k < b ==> (#[trigger] v.outs[x as int][k]).complete(),
            decreases v.outs[x as int].len() - b,
        {
            assert(v.outs[x as int][b as int] == self.outs@[x as int]@[b as int]@);
            if self.outs[x][b].empty_cnt() != self.outs[x][b].num_cons() {
                return false;
            }
            b = b + 1;
        }
        true
    }

    /// Sets every input counter of `q` back to 0.
    fn reset_full_counts(&mut self, q: usize)
        requires
            q < old(self)@.n(),
            old(self)@.blocks_ok(),
        ensures
            final(self)@ == (UnitView {
                ins: old(self)@.ins.update(q as int, old(self)@.ins[q as int].map(|i: int, x: PortView<S>| x.with_cnt(0))),
                ..old(self)@
            }),
    {
        let ghost v = self@;
        assert(self.ins@[q as int]@.map(|i: int, x: Input<S>| x.port()) =~= v.ins[q as int]);
        reset_counts(&mut self.ins[q]);
        assert(self.ins@[q as int]@.map(|i: int, x: Input<S>| x.port()) =~= self.ins@[q as int]@.map(|i: int, x: Input<S>| x@));
        assert(self@.ins =~~= v.ins.update(q as int, v.ins[q as int].map(|i: int, x: PortView<S>| x.with_cnt(0))));
    }

    /// Sets every output counter of `x` back to 0.
    fn reset_empty_counts(&mut self, x: usize)
        requires
            x < old(self)@.n(),
            old(self)@.blocks_ok(),
        ensures
            final(self)@ == (UnitView {
                outs: old(self)@.outs.update(x as int, old(self)@.outs[x as int].map(|i: int, o: PortView<S>| o.with_cnt(0))),
                ..old(self)@
            }),
    {
        let ghost v = self@;
        assert(self.outs@[x as int]@.map(|i: int, o: Output<S>| o.port()) =~= v.outs[x as int]);
        reset_counts(&mut self.outs[x]);
        assert(self.outs@[x as int]@.map(|i: int, o: Output<S>| o.port()) =~= self.outs@[x as int]@.map(|i: int, o: Output<S>| o@));
        assert(self@.outs =~~= v.outs.update(x as int, v.outs[x as int].map(|i: int, o: PortView<S>| o.with_cnt(0))));
    }

    /// The backward job for `q`: every wire out of every processor feeding `q`.
    fn new_back_dispatch(&self, q: usize) -> (d: Dispatch)
        requires
            self@.wf(),
            q < self@.n(),
        ensures
            d@ == self@.back_job(q),
    {
        let ghost v = self@;
        assert forall|b: int| 0 <= b < self.ins@[q as int]@.len() implies (#[trigger] self.ins@[q as int]@[b])@.wf() by {
            assert(self.ins@[q as int]@[b]@ == v.ins[q as int][b]);
        }
        let in_cons = gather(&self.ins[q]);
        assert(self.ins@[q as int]@.map(|i: int, x: Input<S>| x.port()) =~= self.ins@[q as int]@.map(|i: int, x: Input<S>| x@));
        assert(self.ins@[q as int]@.map(|i: int, x: Input<S>| x@) == v.ins[q as int]);
        let mut feeders: VecDeque<usize> = VecDeque::new();
        let mut i: usize = 0;
        while i < in_cons.len()
            invariant
                i <= in_cons@.len(),
                in_cons@ == stored_cons(v.ins[q as int]),
                feeders@ == far_procs(in_cons@.take(i as int)),
            decreases in_cons@.len() - i,
        {
            assert(in_cons@.take(i + 1).drop_last() =~= in_cons@.take(i as int));
            let f = in_cons[i].to.proc;
            if position(&feeders, f).is_none() {
                feeders.push_back(f);
            }
            i = i + 1;
        }
        assert(in_cons@.take(in_cons@.len() as int) =~= in_cons@);
        proof {
            lemma_far_procs(in_cons@);
            assert forall|j: int| 0 <= j < feeders@.len() implies #[trigger] feeders@[j] < v.n() by {
                let k = choose|k: int| 0 <= k < in_cons@.len() && far_procs(in_cons@)[j] == in_cons@[k].to.proc;
                lemma_stored_in_valid(v, q as int, k);
            }
        }
        let mut cons: Vec<Connection> = Vec::new();
        let mut j: usize = 0;
        while j < feeders.len()
            invariant
                v == self@,
                v.wf(),
                j <= feeders@.len(),
                forall|k: int| 0 <= k < feeders@.len() ==> #[trigger] feeders@[k] < v.n(),
                cons@ == v.outputs_of(feeders@.take(j as int)),
            decreases feeders@.len() - j,
        {
            let f = feeders[j];
            assert(feeders@.take(j + 1).drop_last() =~= feeders@.take(j as int));
            assert(f < v.n());
            assert forall|b: int| 0 <= b < self.outs@[f as int]@.len() implies (#[trigger] self.outs@[f as int]@[b])@.wf() by {
                assert(self.outs@[f as int]@[b]@ == v.outs[f as int][b]);
            }
            let mut part = gather(&self.outs[f]);
            assert(self.outs@[f as int]@.map(|i: int, x: Output<S>| x.port()) =~= self.outs@[f as int]@.map(|i: int, x: Output<S>| x@));
            assert(self.outs@[f as int]@.map(|i: int, x: Output<S>| x@) == v.outs[f as int]);
            cons.append(&mut part);
            j = j + 1;
        }
        assert(feeders@.take(feeders@.len() as int) =~= feeders@);
        Dispatch { cons, proc: q }
    }

    /// Delivers along one wire and, if that completes the destination's
    /// inputs, queues it to run along with its backward job.
    fn forward_wire(&mut self, c: Connection)
        requires
            old(self)@.wf(),
            old(self)@.valid_con(c),
        ensures
            final(self)@.wf(),
            final(self)@ == old(self)@.forward_one(c),
            old(self)@.same_graph(final(self)@),
            forall|d: Connection| old(self)@.valid_con(d) ==> #[trigger] final(self)@.valid_con(d),
    {
        let ghost v = self@;
        let p = c.from.proc;
        let b = c.from.block;
        let s = c.from.conn;
        let q = c.to.proc;
        let tb = c.to.block;
        let ts = c.to.conn;
        assert(self.outs@[p as int]@[b as int]@ == v.outs[p as int][b as int]);
        assert(self.ins@[q as int]@[tb as int]@ == v.ins[q as int][tb as int]);
        assert(v.outs[p as int][b as int].wf());
        assert(v.ins[q as int][tb as int].wf());
        self.ins[q][tb].copy_into(ts, self.outs[p][b].buffer(s));
        self.outs[p][b].reset_buffer(s);
        self.ins[q][tb].inc_full_cnt();
        self.outs[p][b].inc_empty_cnt();
        let ghost w = v.deliver(c);
        assert(self@.ins =~~= w.ins);
        assert(self@.outs =~~= w.outs);
        assert(self@ == w);
        proof {
            assert forall|x: int, k: int| 0 <= x < v.n() && 0 <= k < v.ins[x].len() implies (#[trigger] w.ins[x][k]).wf()
                && w.ins[x][k].block.conns == v.ins[x][k].block.conns
                && w.ins[x][k].block.num_cons == v.ins[x][k].block.num_cons by {
                if x == q && k == tb {
                } else {
                    assert(w.ins[x][k] == v.ins[x][k]);
                }
            }
            assert forall|x: int, k: int| 0 <= x < v.n() && 0 <= k < v.outs[x].len() implies (#[trigger] w.outs[x][k]).wf()
                && w.outs[x][k].block.conns == v.outs[x][k].block.conns
                && w.outs[x][k].block.num_cons == v.outs[x][k].block.num_cons by {
                if x == p && k == b {
                } else {
                    assert(w.outs[x][k] == v.outs[x][k]);
                }
            }
            assert forall|i: int| 0 <= i < w.forward.len() implies v.job_ok(#[trigger] w.forward[i]) by {
            }
            assert forall|i: int| 0 <= i < w.backward.len() implies v.job_ok(#[trigger] w.backward[i]) by {
            }
            lemma_same_wiring_wf(v, w);
            lemma_shape_kept(v, w);
        }
        if self.inputs_full(q) {
            let job = self.new_back_dispatch(q);
            self.reset_full_counts(q);
            self.next.push_back(q);
            self.backward.push_back(job);
            proof {
                let u = self@;
                assert(u.backward =~= w.backward.push(w.back_job(q)));
                assert(u == w.enqueue_ready(q));
                lemma_back_job_ok(w, q);
                assert forall|x: int, k: int| 0 <= x < w.n() && 0 <= k < w.ins[x].len() implies (#[trigger] u.ins[x][k]).wf()
                    && u.ins[x][k].block.conns == w.ins[x][k].block.conns
                    && u.ins[x][k].block.num_cons == w.ins[x][k].block.num_cons by {
                    if x == q {
                        assert(u.ins[x][k] == w.ins[x][k].with_cnt(0));
                    }
                }
                assert forall|x: int, k: int| 0 <= x < w.n() && 0 <= k < w.outs[x].len() implies (#[trigger] u.outs[x][k]).wf()
                    && u.outs[x][k].block.conns == w.outs[x][k].block.conns
                    && u.outs[x][k].block.num_cons == w.outs[x][k].block.num_cons by {
                }
                assert forall|x: int| 0 <= x < w.n() implies (#[trigger] u.ins[x]).len() == w.ins[x].len() by {
                }
                assert forall|i: int| 0 <= i < u.next.len() implies #[trigger] u.next[i] < u.n() by {
                    if i < w.next.len() {
                        assert(u.next[i] == w.next[i]);
                    }
                }
                assert forall|i: int| 0 <= i < u.forward.len() implies w.job_ok(#[trigger] u.forward[i]) by {
                }
                assert forall|i: int| 0 <= i < u.backward.len() implies w.job_ok(#[trigger] u.backward[i]) by {
                    if i < w.backward.len() {
                        assert(u.backward[i] == w.backward[i]);
                    }
                }
                lemma_same_wiring_wf(w, u);
                lemma_shape_kept(v, u);
            }
        }
    }

    /// Takes the oldest forward job, if any, and delivers along each of its
    /// wires in order (see [`UnitView::forward_one`]).
    pub fn dispatch_next_forward(&mut self)
        requires
            old(self)@.wf(),
        ensures
            final(self)@.wf(),
            old(self)@.same_graph(final(self)@),
            old(self)@.forward.len() == 0 ==> final(self)@ == old(self)@,
            old(self)@.forward.len() > 0 ==> final(self)@ == (UnitView {
                forward: old(self)@.forward.drop_first(),
                ..old(self)@
            }).forward_all(old(self)@.forward[0].cons),
    {
        let ghost v = self@;
        if self.forward.len() == 0 {
            return;
        }
        let d = self.forward.pop_front().unwrap();
        let ghost base = self@;
        proof {
            assert(base.forward =~= v.forward.drop_first());
            assert(base == (UnitView { forward: v.forward.drop_first(), ..v }));
            assert(d@ == v.forward[0]);
            assert(v.job_ok(v.forward[0]));
            lemma_graph_only(v, base);
            assert forall|i: int| 0 <= i < base.forward.len() implies base.job_ok(#[trigger] base.forward[i]) by {
                assert(v.job_ok(v.forward[i + 1]));
                lemma_shape_kept(v, base);
            }
            lemma_shape_kept(v, base);
            assert forall|i: int| 0 <= i < base.backward.len() implies base.job_ok(#[trigger] base.backward[i]) by {
                assert(v.job_ok(v.backward[i]));
            }
            assert(base.wf());
            assert(d@.cons == d.cons@);
            assert forall|k: int| 0 <= k < d.cons@.len() implies base.valid_con(#[trigger] d.cons@[k]) by {
                assert(v.valid_con(d@.cons[k]));
            }
        }
        let mut i: usize = 0;
        while i < d.cons.len()
            invariant
                i <= d.cons@.len(),
                self@.wf(),
                self@ == base.forward_all(d.cons@.take(i as int)),
                forall|k: int| 0 <= k < d.cons@.len() ==> self@.valid_con(#[trigger] d.cons@[k]),
                v.same_graph(self@),
            decreases d.cons@.len() - i,
        {
            let c = d.cons[i];
            assert(d.cons@.take(i + 1).drop_last() =~= d.cons@.take(i as int));
            let ghost prev = self@;
            self.forward_wire(c);
            proof {
                lemma_same_graph_trans(v, prev, self@);
            }
            i = i + 1;
        }
        assert(d.cons@.take(d.cons@.len() as int) =~= d.cons@);
    }

    /// One wire of a backward job (see [`UnitView::backward_one`]).
    fn backward_wire(&mut self, c: Connection)
        requires
            old(self)@.wf(),
            old(self)@.valid_con(c),
        ensures
            final(self)@.wf(),
            final(self)@ == old(self)@.backward_one(c),
            old(self)@.same_graph(final(self)@),
            forall|d: Connection| old(self)@.valid_con(d) ==> #[trigger] final(self)@.valid_con(d),
    {
        let ghost v = self@;
        let x = c.from.proc;
        if self.outputs_empty(x) {
            self.reset_empty_counts(x);
            let in_start = position(&self.start, x).is_some();
            if in_start {
                self.next.push_back(x);
            }
            proof {
                let u = self@;
                assert(u == v.backward_one(c));
                assert forall|y: int, k: int| 0 <= y < v.n() && 0 <= k < v.ins[y].len() implies (#[trigger] u.ins[y][k]).wf()
                    && u.ins[y][k].block.conns == v.ins[y][k].block.conns
                    && u.ins[y][k].block.num_cons == v.ins[y][k].block.num_cons by {
                }
                assert forall|y: int, k: int| 0 <= y < v.n() && 0 <= k < v.outs[y].len() implies (#[trigger] u.outs[y][k]).wf()
                    && u.outs[y][k].block.conns == v.outs[y][k].block.conns
                    && u.outs[y][k].block.num_cons == v.outs[y][k].block.num_cons by {
                    if y == x {
                        assert(u.outs[y][k] == v.outs[y][k].with_cnt(0));
                    }
                }
                assert forall|y: int| 0 <= y < v.n() implies (#[trigger] u.outs[y]).len() == v.outs[y].len() by {
                }
                assert forall|i: int| 0 <= i < u.next.len() implies #[trigger] u.next[i] < u.n() by {
                    if i < v.next.len() {
                        assert(u.next[i] == v.next[i]);
                    }
                }
                assert forall|i: int| 0 <= i < u.forward.len() implies v.job_ok(#[trigger] u.forward[i]) by {
                }
                assert forall|i: int| 0 <= i < u.backward.len() implies v.job_ok(#[trigger] u.backward[i]) by {
                }
                lemma_same_wiring_wf(v, u);
                lemma_shape_kept(v, u);
            }
        }
    }

    /// Works off the whole backward queue, job by job and wire by wire (see
    /// [`UnitView::backward_one`]); the queue is left empty.
    pub fn dispatch_backward(&mut self)
        requires
            old(self)@.wf(),
        ensures
            final(self)@.wf(),
            old(self)@.same_graph(final(self)@),
            final(self)@ == (UnitView { backward: Seq::empty(), ..old(self)@ }).backward_jobs(
                old(self)@.backward,
            ),
    {
        let ghost v = self@;
        let mut jobs: VecDeque<Dispatch> = VecDeque::new();
        std::mem::swap(&mut jobs, &mut self.backward);
        let ghost js = jobs@.map(|i: int, d: Dispatch| d@);
        let ghost base = self@;
        proof {
            assert(js == v.backward);
            assert(base.backward =~= Seq::<Job>::empty());
            assert(base == (UnitView { backward: Seq::empty(), ..v }));
            lemma_graph_only(v, base);
            lemma_shape_kept(v, base);
            assert forall|i: int| 0 <= i < base.forward.len() implies base.job_ok(#[trigger] base.forward[i]) by {
                assert(v.job_ok(v.forward[i]));
            }
            assert(base.wf());
        }
        let mut i: usize = 0;
        while i < jobs.len()
            invariant
                i <= jobs@.len(),
                js == jobs@.map(|i: int, d: Dispatch| d@),
                js == v.backward,
                v.wf(),
                self@.wf(),
                self@ == base.backward_jobs(js.take(i as int)),
                forall|c: Connection| v.valid_con(c) ==> #[trigger] self@.valid_con(c),
                v.same_graph(self@),
            decreases jobs@.len() - i,
        {
            let d = &jobs[i];
            assert(d@ == js[i as int]);
            assert(v.job_ok(v.backward[i as int]));
            assert(d@.cons == d.cons@);
            assert forall|j: int| 0 <= j < d.cons@.len() implies v.valid_con(#[trigger] d.cons@[j]) by {
                assert(v.valid_con(d@.cons[j]));
            }
            let ghost mid = self@;
            let mut k: usize = 0;
            while k < d.cons.len()
                invariant
                    k <= d.cons@.len(),
                    self@.wf(),
                    self@ == mid.backward_all(d.cons@.take(k as int)),
                    forall|c: Connection| v.valid_con(c) ==> #[trigger] self@.valid_con(c),
                    forall|j: int| 0 <= j < d.cons@.len() ==> v.valid_con(#[trigger] d.cons@[j]),
                    v.same_graph(self@),
                decreases d.cons@.len() - k,
            {
                let c = d.cons[k];
                assert(d.cons@.take(k + 1).drop_last() =~= d.cons@.take(k as int));
                let ghost prev = self@;
                self.backward_wire(c);
                proof {
                    lemma_same_graph_trans(v, prev, self@);
                }
                k = k + 1;
            }
            assert(d.cons@.take(d.cons@.len() as int) =~= d.cons@);
            assert(js.take(i + 1).drop_last() =~= js.take(i as int));
            i = i + 1;
        }
        assert(js.take(js.len() as int) =~= js);
    }

    /// Flushes all in-flight work and stops: one backward sweep, then runs
    /// and forward dispatches until nothing is ready or queued forward, then a
    /// last backward sweep to settle the drain counters; what that sweep
    /// queues to run is dropped. Refused if not started.
    pub fn drain_and_stop(&mut self) -> (r: Result<(), Error>)
        requires
            old(self)@.wf(),
        ensures
            final(self)@.wf(),
            !old(self)@.started ==> r == Err::<(), Error>(Error::Stopped) && final(self)@ == old(self)@,
            old(self)@.started ==> {
                &&& r is Ok
                &&& !final(self)@.started
                &&& final(self)@.next.len() == 0
                &&& final(self)@.forward.len() == 0
                &&& final(self)@.backward.len() == 0
                &&& old(self)@.same_graph(final(self)@)
                &&& exists|t: Seq<UnitView<S, P>>|
                    {
                        &&& t.len() > 0
                        &&& t[0] == (UnitView { backward: Seq::empty(), ..old(self)@ }).backward_jobs(
                            old(self)@.backward,
                        )
                        &&& forall|k: int| 0 <= k < t.len() - 1 ==> #[trigger] t[k].drain_step(t[k + 1])
                        &&& t.last().next.len() == 0
                        &&& t.last().forward.len() == 0
                        &&& final(self)@ == (UnitView {
                            next: Seq::empty(),
                            started: false,
                            ..(UnitView { backward: Seq::empty(), ..t.last() }).backward_jobs(
                                t.last().backward,
                            )
                        })
                    }
            },
    {
        if !self.started() {
            return Err(Error::Stopped);
        }
        let ghost v0 = self@;
        self.dispatch_backward();
        let ghost v1 = self@;
        let ghost base = (1 + BLOCK_LEN * total_blocks(v1.outs)) as nat;
        let ghost top = 1 + max_rank(v1.rank);
        let ghost rank = v1.rank;
        proof {
            lemma_weights_exist(v1);
            lemma_backward_jobs_queues(UnitView { backward: Seq::empty(), ..v0 }, v0.backward);
        }
        let ghost mut trace: Seq<UnitView<S, P>> = seq![v1];
        while self.next.len() > 0 || self.forward.len() > 0
            invariant
                trace.len() > 0,
                trace[0] == v1,
                trace.last() == self@,
                forall|k: int| 0 <= k < trace.len() - 1 ==> #[trigger] trace[k].drain_step(trace[k + 1]),
                self@.wf(),
                v0.same_graph(self@),
                v1.same_graph(self@),
                rank == v1.rank,
                weights_fit(self@, base, top),
            decreases work(self@, rank, base, top),
        {
            let ghost a = self@;
            self.process_next();
            let ghost b = self@;
            proof {
                lemma_same_graph_trans(v0, a, b);
                lemma_same_graph_trans(v1, a, b);
                if a.next.len() > 0 {
                    let p = a.next[0];
                    lemma_run_lighter(a, base, top, p as int);
                    lemma_ready_weight_front(rank, base, top, a.next);
                    assert(b.forward.drop_last() =~= a.forward);
                }
                assert(work(b, rank, base, top) <= work(a, rank, base, top));
                assert(b.forward.len() > 0);
                assert forall|p: int| 0 <= p < b.n() implies BLOCK_LEN * (#[trigger] b.outs[p]).len() < base by {
                    assert(b.outs[p].len() == a.outs[p].len());
                }
            }
            self.dispatch_next_forward();
            proof {
                let c = self@;
                lemma_same_graph_trans(v0, b, c);
                lemma_same_graph_trans(v1, b, c);
                let bp = UnitView { forward: b.forward.drop_first(), ..b };
                lemma_forward_all_weight(bp, rank, base, top, b.forward[0].cons);
                lemma_jobs_weight_front(rank, base, top, b.forward);
                assert(work(c, rank, base, top) < work(b, rank, base, top));
                assert forall|p: int| 0 <= p < c.n() implies BLOCK_LEN * (#[trigger] c.outs[p]).len() < base by {
                    assert(c.outs[p].len() == b.outs[p].len());
                }
                assert(a.processed(b));
                assert(c == b.dispatched_forward());
                assert(a.drain_step(c));
                let t0 = trace;
                trace = trace.push(c);
                assert forall|k: int| 0 <= k < trace.len() - 1 implies #[trigger] trace[k].drain_step(trace[k + 1]) by {
                    if k < t0.len() - 1 {
                        assert(trace[k] == t0[k] && trace[k + 1] == t0[k + 1]);
                    } else {
                        assert(trace[k] == a);
                    }
                }
            }
        }
        let ghost v2 = self@;
        self.dispatch_backward();
        proof {
            lemma_backward_jobs_queues(UnitView { backward: Seq::empty(), ..v2 }, v2.backward);
            lemma_same_graph_trans(v0, v2, self@);
        }
        let ghost v3 = self@;
        self.next.clear();
        self.state = State::Stopped;
        proof {
            let w = self@;
            assert(w == (UnitView { next: Seq::empty(), started: false, ..v3 }));
            assert(trace.last() == v2);
            lemma_graph_only(v3, w);
            lemma_shape_kept(v3, w);
            assert(w.forward.len() == 0);
            assert(w.backward.len() == 0);
            assert(v3.same_graph(w));
            lemma_same_graph_trans(v0, v3, w);
        }
        Ok(())
    }

    /// The processor at position `idx`.
    pub fn processor(&mut self, idx: usize) -> (r: &mut P)
        requires
            idx < old(self)@.n(),
        ensures
            *r == old(self)@.procs[idx as int],
            final(self)@ == (UnitView { procs: old(self)@.procs.update(idx as int, *final(r)), ..old(self)@ }),
    {
        &mut self.procs[idx]
    }

    /// Input block `b` of processor `p`.
    pub fn input(&self, p: usize, b: usize) -> (r: &Input<S>)
        requires
            p < self@.n(),
            b < self@.ins[p as int].len(),
            self@.blocks_ok(),
        ensures
            r@ == self@.ins[p as int][b as int],
    {
        &self.ins[p][b]
    }

    /// Output block `b` of processor `p`.
    pub fn output(&self, p: usize, b: usize) -> (r: &Output<S>)
        requires
            p < self@.n(),
            b < self@.outs[p as int].len(),
            self@.blocks_ok(),
        ensures
            r@ == self@.outs[p as int][b as int],
    {
        &self.outs[p][b]
    }

    /// Resets processor `p`: its internal state and its default input values.
    pub fn reset(&mut self, p: usize)
        requires
            old(self)@.wf(),
            p < old(self)@.n(),
        ensures
            final(self)@.wf(),
            old(self)@.same_graph(final(self)@),
            old(self)@.ran(final(self)@, p as int),
            final(self)@.next == old(self)@.next,
            final(self)@.forward == old(self)@.forward,
            final(self)@.backward == old(self)@.backward,
            final(self)@.started == old(self)@.started,
    {
        let ghost v = self@;
        assert(forall|b: int| 0 <= b < self.ins@[p as int]@.len() ==> (#[trigger] self.ins@[p as int]@[b])@ == v.ins[p as int][b]);
        assert(forall|b: int| 0 <= b < self.outs@[p as int]@.len() ==> (#[trigger] self.outs@[p as int]@[b])@ == v.outs[p as int][b]);
        self.procs[p].reset(&mut self.ins[p], &mut self.outs[p]);
        proof {
            let w = self@;
            assert(v.ran(w, p as int));
            assert(w.forward == v.forward);
            assert(w.backward == v.backward);
            assert forall|i: int| 0 <= i < w.next.len() implies #[trigger] w.next[i] < w.n() by {
                assert(w.next[i] == v.next[i]);
            }
            lemma_ran_wf(v, w, p as int);
        }
    }

    /// Fills the buffers of input block `b` of processor `p` before slot `idx`
    /// with `l_val` and the rest with `r_val`: how a default parameter is seeded.
    pub fn fill_split_input(&mut self, p: usize, b: usize, idx: usize, l_val: S, r_val: S)
        requires
            old(self)@.wf(),
            p < old(self)@.n(),
            b < old(self)@.ins[p as int].len(),
            idx <= BLOCK_LEN,
        ensures
            final(self)@.wf(),
            final(self)@ == (UnitView {
                ins: old(self)@.ins.update(
                    p as int,
                    old(self)@.ins[p as int].update(
                        b as int,
                        old(self)@.ins[p as int][b as int].with_block(
                            old(self)@.ins[p as int][b as int].block.map_bufs(
                                |i: int, x: crate::buffer::BufView<S>|
                                    if i < idx {
                                        x.fill(l_val)
                                    } else {
                                        x.fill(r_val)
                                    },
                            ),
                        ),
                    ),
                ),
                ..old(self)@
            }),
    {
        let ghost v = self@;
        assert(self.ins@[p as int]@[b as int]@ == v.ins[p as int][b as int]);
        self.ins[p][b].fill_split(idx, l_val, r_val);
        proof {
            let w = self@;
            assert(w.ins =~~= v.ins.update(
                p as int,
                v.ins[p as int].update(
                    b as int,
                    v.ins[p as int][b as int].with_block(
                        v.ins[p as int][b as int].block.map_bufs(
                            |i: int, x: crate::buffer::BufView<S>|
                                if i < idx {
                                    x.fill(l_val)
                                } else {
                                    x.fill(r_val)
                                },
                        ),
                    ),
                ),
            ));
            assert forall|x: int, k: int| 0 <= x < v.n() && 0 <= k < v.ins[x].len() implies (#[trigger] w.ins[x][k]).wf()
                && w.ins[x][k].block.conns == v.ins[x][k].block.conns
                && w.ins[x][k].block.num_cons == v.ins[x][k].block.num_cons by {
                if x == p && k == b {
                } else {
                    assert(w.ins[x][k] == v.ins[x][k]);
                }
            }
            assert forall|x: int, k: int| 0 <= x < v.n() && 0 <= k < v.outs[x].len() implies (#[trigger] w.outs[x][k]).wf()
                && w.outs[x][k].block.conns == v.outs[x][k].block.conns
                && w.outs[x][k].block.num_cons == v.outs[x][k].block.num_cons by {
            }
            assert forall|x: int| 0 <= x < v.n() implies (#[trigger] w.ins[x]).len() == v.ins[x].len() by {
            }
            assert forall|i: int| 0 <= i < w.forward.len() implies v.job_ok(#[trigger] w.forward[i]) by {
            }
            assert forall|i: int| 0 <= i < w.backward.len() implies v.job_ok(#[trigger] w.backward[i]) by {
            }
            lemma_same_wiring_wf(v, w);
        }
    }

    /// The start set: processors with no bound input.
    pub fn start_nodes(&self) -> (r: &VecDeque<usize>)
        ensures
            r@ == self@.start,
    {
        &self.start
    }

    /// The ready queue, oldest first.
    pub fn ready(&self) -> (r: &VecDeque<usize>)
        ensures
            r@ == self@.next,
    {
        &self.next
    }

    /// Number of forward jobs waiting.
    pub fn num_forward(&self) -> (r: usize)
        ensures
            r == self@.forward.len(),
    {
        self.forward.len()
    }

    /// Number of backward jobs waiting.
    pub fn num_backward(&self) -> (r: usize)
        ensures
            r == self@.backward.len(),
    {
        self.backward.len()
    }

    /// Number of processors held.
    pub fn num_processors(&self) -> (r: usize)
        ensures
            r == self@.n(),
    {
        self.procs.len()
    }
}

} // verus!
