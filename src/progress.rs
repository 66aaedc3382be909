//! Why draining a unit terminates: on an acyclic graph every processor gets a
//! weight larger than the weights of everything it feeds, so running a
//! processor and delivering its output never adds back as much work as it
//! removes.

use vstd::prelude::*;
use vstd::arithmetic::power::{pow, lemma_pow_positive, lemma_pow_increases, lemma_pow_adds};
use crate::block::{Connection, PortView, BLOCK_LEN};
use crate::graph::{bound_of, lemma_stored_cons_valid, stored_cons, Job, UnitView};

verus! {

/// Number of output blocks over all processors.
pub open spec fn total_blocks<S>(outs: Seq<Seq<PortView<S>>>) -> nat
    decreases outs.len(),
{
    if outs.len() == 0 {
        0
    } else {
        total_blocks(outs.drop_last()) + outs.last().len()
    }
}

/// The largest rank, or 0.
pub open spec fn max_rank(rank: Seq<nat>) -> nat
    decreases rank.len(),
{
    if rank.len() == 0 {
        0
    } else {
        let m = max_rank(rank.drop_last());
        if rank.last() > m {
            rank.last()
        } else {
            m
        }
    }
}

/// The weight of processor `x`: `base` raised to how far `x` sits below `top`.
pub open spec fn weight(rank: Seq<nat>, base: nat, top: nat, x: int) -> nat {
    pow(base as int, (top - rank[x]) as nat) as nat
}

pub open spec fn ready_weight(rank: Seq<nat>, base: nat, top: nat, s: Seq<usize>) -> nat
    decreases s.len(),
{
    if s.len() == 0 {
        0
    } else {
        ready_weight(rank, base, top, s.drop_last()) + weight(rank, base, top, s.last() as int)
    }
}

/// The weight of the destinations of `cs`.
pub open spec fn cons_weight(rank: Seq<nat>, base: nat, top: nat, cs: Seq<Connection>) -> nat
    decreases cs.len(),
{
    if cs.len() == 0 {
        0
    } else {
        cons_weight(rank, base, top, cs.drop_last()) + weight(rank, base, top, cs.last().to.proc as int)
    }
}

pub open spec fn jobs_weight(rank: Seq<nat>, base: nat, top: nat, js: Seq<Job>) -> nat
    decreases js.len(),
{
    if js.len() == 0 {
        0
    } else {
        jobs_weight(rank, base, top, js.drop_last()) + 1 + cons_weight(rank, base, top, js.last().cons)
    }
}

/// The work left in a unit: the weight of its ready queue and forward queue.
pub open spec fn work<S, P>(v: UnitView<S, P>, rank: Seq<nat>, base: nat, top: nat) -> nat {
    ready_weight(rank, base, top, v.next) + jobs_weight(rank, base, top, v.forward)
}

pub proof fn lemma_total_blocks<S>(outs: Seq<Seq<PortView<S>>>, p: int)
    requires
        0 <= p < outs.len(),
    ensures
        outs[p].len() <= total_blocks(outs),
    decreases outs.len(),
{
    if p < outs.len() - 1 {
        lemma_total_blocks(outs.drop_last(), p);
    }
}

pub proof fn lemma_max_rank(rank: Seq<nat>, i: int)
    requires
        0 <= i < rank.len(),
    ensures
        rank[i] <= max_rank(rank),
    decreases rank.len(),
{
    if i < rank.len() - 1 {
        lemma_max_rank(rank.drop_last(), i);
    }
}

pub proof fn lemma_ready_weight_front(rank: Seq<nat>, base: nat, top: nat, s: Seq<usize>)
    requires
        s.len() > 0,
    ensures
        ready_weight(rank, base, top, s) == weight(rank, base, top, s[0] as int) + ready_weight(
            rank,
            base,
            top,
            s.drop_first(),
        ),
    decreases s.len(),
{
    if s.len() > 1 {
        lemma_ready_weight_front(rank, base, top, s.drop_last());
        assert(s.drop_last().drop_first() =~= s.drop_first().drop_last());
    } else {
        assert(s.drop_last() =~= s.drop_first());
    }
}

pub proof fn lemma_jobs_weight_front(rank: Seq<nat>, base: nat, top: nat, js: Seq<Job>)
    requires
        js.len() > 0,
    ensures
        jobs_weight(rank, base, top, js) == 1 + cons_weight(rank, base, top, js[0].cons)
            + jobs_weight(rank, base, top, js.drop_first()),
    decreases js.len(),
{
    if js.len() > 1 {
        lemma_jobs_weight_front(rank, base, top, js.drop_last());
        assert(js.drop_last().drop_first() =~= js.drop_first().drop_last());
    } else {
        assert(js.drop_last() =~= js.drop_first());
    }
}

/// Wires stored in a slot sequence number at most its length.
pub proof fn lemma_bound_of_len(cs: Seq<crate::block::Connector>)
    ensures
        bound_of(cs).len() <= cs.len(),
    decreases cs.len(),
{
    if cs.len() > 0 {
        lemma_bound_of_len(cs.drop_last());
    }
}

/// Wires stored in well-formed blocks number at most the slots they have.
pub proof fn lemma_stored_cons_len<S>(ports: Seq<PortView<S>>)
    requires
        forall|b: int| 0 <= b < ports.len() ==> (#[trigger] ports[b]).wf(),
    ensures
        stored_cons(ports).len() <= BLOCK_LEN * ports.len(),
    decreases ports.len(),
{
    if ports.len() > 0 {
        lemma_stored_cons_len(ports.drop_last());
        lemma_bound_of_len(ports.last().block.conns);
        assert(ports.last().wf());
    }
}

/// Destinations each weighing at most `m` weigh at most `m` times their number.
pub proof fn lemma_cons_weight_bound(rank: Seq<nat>, base: nat, top: nat, cs: Seq<Connection>, m: nat)
    requires
        forall|k: int| 0 <= k < cs.len() ==> weight(rank, base, top, #[trigger] cs[k].to.proc as int) <= m,
    ensures
        cons_weight(rank, base, top, cs) <= cs.len() * m,
    decreases cs.len(),
{
    if cs.len() > 0 {
        lemma_cons_weight_bound(rank, base, top, cs.drop_last(), m);
        assert(weight(rank, base, top, cs[cs.len() - 1].to.proc as int) <= m);
        assert((cs.len() - 1) * m + m == cs.len() * m) by (nonlinear_arith);
    }
}

/// The weights fit the unit: `base` exceeds every processor's number of
/// output slots, and `top` lies above every rank.
pub open spec fn weights_fit<S, P>(v: UnitView<S, P>, base: nat, top: nat) -> bool {
    &&& forall|p: int| 0 <= p < v.n() ==> BLOCK_LEN * (#[trigger] v.outs[p]).len() < base
    &&& forall|p: int| 0 <= p < v.n() ==> #[trigger] v.rank[p] < top
}

/// The weights that [`weights_fit`] asks for exist.
pub proof fn lemma_weights_exist<S, P>(v: UnitView<S, P>)
    requires
        v.wf(),
    ensures
        weights_fit(v, (1 + BLOCK_LEN * total_blocks(v.outs)) as nat, 1 + max_rank(v.rank)),
{
    assert forall|p: int| 0 <= p < v.n() implies BLOCK_LEN * (#[trigger] v.outs[p]).len() < 1
        + BLOCK_LEN * total_blocks(v.outs) by {
        lemma_total_blocks(v.outs, p);
        assert(BLOCK_LEN * v.outs[p].len() <= BLOCK_LEN * total_blocks(v.outs)) by (nonlinear_arith)
            requires
                v.outs[p].len() <= total_blocks(v.outs),
        ;
    }
    assert forall|p: int| 0 <= p < v.n() implies #[trigger] v.rank[p] < 1 + max_rank(v.rank) by {
        lemma_max_rank(v.rank, p);
    }
}

/// Running processor `p` queues a job that weighs less than `p` itself.
pub proof fn lemma_run_lighter<S, P>(v: UnitView<S, P>, base: nat, top: nat, p: int)
    requires
        v.wf(),
        weights_fit(v, base, top),
        0 <= p < v.n(),
    ensures
        1 + cons_weight(v.rank, base, top, stored_cons(v.outs[p])) <= weight(v.rank, base, top, p),
{
    let cs = stored_cons(v.outs[p]);
    let e = (top - v.rank[p]) as nat;
    assert(v.rank[p] < top);
    assert(e >= 1);
    let m = pow(base as int, (e - 1) as nat);
    assert(BLOCK_LEN * v.outs[p].len() < base);
    assert(base > 0);
    lemma_pow_positive(base as int, (e - 1) as nat);
    assert forall|k: int| 0 <= k < cs.len() implies weight(v.rank, base, top, #[trigger] cs[k].to.proc as int) <= m by {
        lemma_stored_cons_valid(v, p, k);
        let q = cs[k].to.proc as int;
        assert(v.rank[q] < top);
        assert(v.rank[p] < v.rank[q]);
        lemma_pow_positive(base as int, (top - v.rank[q]) as nat);
        lemma_pow_increases(base, (top - v.rank[q]) as nat, (e - 1) as nat);
    }
    lemma_cons_weight_bound(v.rank, base, top, cs, m as nat);
    assert forall|b: int| 0 <= b < v.outs[p].len() implies (#[trigger] v.outs[p][b]).wf() by {
    }
    lemma_stored_cons_len(v.outs[p]);
    lemma_pow_adds(base as int, 1, (e - 1) as nat);
    assert(pow(base as int, 1) == base) by {
        vstd::arithmetic::power::lemma_pow1(base as int);
    }
    assert(cs.len() < base);
    assert(cs.len() * m + 1 <= base * m) by (nonlinear_arith)
        requires
            cs.len() < base,
            m >= 1,
    ;
}

/// Delivering the wires `cs` adds to the ready queue at most the weight of
/// their destinations, and leaves the forward queue alone.
pub proof fn lemma_forward_all_weight<S, P>(
    v: UnitView<S, P>,
    rank: Seq<nat>,
    base: nat,
    top: nat,
    cs: Seq<Connection>,
)
    ensures
        v.forward_all(cs).forward == v.forward,
        ready_weight(rank, base, top, v.forward_all(cs).next) <= ready_weight(rank, base, top, v.next)
            + cons_weight(rank, base, top, cs),
    decreases cs.len(),
{
    if cs.len() > 0 {
        lemma_forward_all_weight(v, rank, base, top, cs.drop_last());
        let w = v.forward_all(cs.drop_last());
        let c = cs.last();
        let d = w.deliver(c);
        assert(d.next == w.next && d.forward == w.forward);
        if d.inputs_complete(c.to.proc as int) {
            let u = d.enqueue_ready(c.to.proc);
            assert(u.next.drop_last() =~= w.next);
        }
    }
}

/// Backward jobs leave both forward and backward queues as they are.
pub proof fn lemma_backward_jobs_queues<S, P>(v: UnitView<S, P>, js: Seq<Job>)
    ensures
        v.backward_jobs(js).forward == v.forward,
        v.backward_jobs(js).backward == v.backward,
    decreases js.len(),
{
    if js.len() > 0 {
        lemma_backward_jobs_queues(v, js.drop_last());
        lemma_backward_all_queues(v.backward_jobs(js.drop_last()), js.last().cons);
    }
}

pub proof fn lemma_backward_all_queues<S, P>(v: UnitView<S, P>, cs: Seq<Connection>)
    ensures
        v.backward_all(cs).forward == v.forward,
        v.backward_all(cs).backward == v.backward,
    decreases cs.len(),
{
    if cs.len() > 0 {
        lemma_backward_all_queues(v, cs.drop_last());
    }
}

} // verus!
