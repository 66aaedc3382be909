use vstd::prelude::*;

verus! {

/// Number of samples that one buffer holds: one tick's worth of data.
pub const BUFFER_LEN: usize = 256;

/// The mathematical state of a [`Buffer`]: its storage, its two cursors and
/// the value that stands for "nothing written".
pub struct BufView<S> {
    pub data: Seq<S>,
    pub rd: nat,
    pub wr: nat,
    pub zero: S,
}

impl<S> BufView<S> {
    pub open spec fn wf(self) -> bool {
        &&& self.rd <= self.wr <= BUFFER_LEN
        &&& self.data.len() == BUFFER_LEN
    }

    pub open spec fn is_empty(self) -> bool {
        self.rd == self.wr
    }

    pub open spec fn is_full(self) -> bool {
        self.wr == BUFFER_LEN
    }

    /// The most recently written sample, or the zero value if nothing was written.
    pub open spec fn last(self) -> S {
        if self.wr == 0 {
            self.zero
        } else {
            self.data[self.wr - 1]
        }
    }

    /// What one read returns: the next unread sample, or the last one held.
    pub open spec fn next_value(self) -> S {
        if self.rd < self.wr {
            self.data[self.rd as int]
        } else {
            self.last()
        }
    }

    /// The state after one read.
    pub open spec fn advance(self) -> Self {
        if self.rd < self.wr {
            BufView { data: self.data, rd: self.rd + 1, wr: self.wr, zero: self.zero }
        } else {
            self
        }
    }

    /// The state after writing one sample; a full buffer overwrites its last slot.
    pub open spec fn put(self, v: S) -> Self {
        if self.wr >= BUFFER_LEN {
            BufView {
                data: self.data.update(BUFFER_LEN - 1, v),
                rd: self.rd,
                wr: self.wr,
                zero: self.zero,
            }
        } else {
            BufView {
                data: self.data.update(self.wr as int, v),
                rd: self.rd,
                wr: self.wr + 1,
                zero: self.zero,
            }
        }
    }

    /// The state after writing each sample of `vs` in order.
    pub open spec fn put_all(self, vs: Seq<S>) -> Self
        decreases vs.len(),
    {
        if vs.len() == 0 {
            self
        } else {
            self.put_all(vs.drop_last()).put(vs.last())
        }
    }

    /// The samples that `n` successive reads return.
    pub open spec fn reads(self, n: nat) -> Seq<S>
        decreases n,
    {
        if n == 0 {
            Seq::empty()
        } else {
            seq![self.next_value()] + self.advance().reads((n - 1) as nat)
        }
    }

    pub open spec fn fill(self, v: S) -> Self {
        BufView { data: Seq::new(BUFFER_LEN as nat, |i: int| v), rd: 0, wr: BUFFER_LEN as nat, zero: self.zero }
    }

    pub open spec fn rewind(self) -> Self {
        BufView { data: self.data, rd: 0, wr: self.wr, zero: self.zero }
    }

    pub open spec fn reset(self) -> Self {
        BufView { data: self.data, rd: 0, wr: 0, zero: self.zero }
    }

    /// The state after taking over all of `other`'s samples, fully written and unread.
    pub open spec fn copy_from(self, other: Self) -> Self {
        BufView { data: other.data, rd: 0, wr: BUFFER_LEN as nat, zero: self.zero }
    }
}

/// Each read of `b` yields the unread samples in order, then the last one held.
pub proof fn lemma_reads<S>(b: BufView<S>, n: nat)
    requires
        b.wf(),
    ensures
        b.reads(n).len() == n,
        forall|i: int|
            0 <= i < n ==> #[trigger] b.reads(n)[i] == (if b.rd + i < b.wr {
                b.data[b.rd + i]
            } else {
                b.last()
            }),
    decreases n,
{
    if n > 0 {
        let a = b.advance();
        lemma_reads(a, (n - 1) as nat);
        assert forall|i: int| 0 <= i < n implies #[trigger] b.reads(n)[i] == (if b.rd + i < b.wr {
            b.data[b.rd + i]
        } else {
            b.last()
        }) by {
            if i > 0 {
                assert(b.reads(n)[i] == a.reads((n - 1) as nat)[i - 1]);
            }
        }
    }
}

/// Writing `vs` into a buffer with room for it places the samples after the
/// write cursor and moves the cursor past them.
pub proof fn lemma_put_all<S>(b: BufView<S>, vs: Seq<S>)
    requires
        b.wf(),
        b.wr + vs.len() <= BUFFER_LEN,
    ensures
        b.put_all(vs).wf(),
        b.put_all(vs).rd == b.rd,
        b.put_all(vs).wr == b.wr + vs.len(),
        b.put_all(vs).zero == b.zero,
        forall|i: int| 0 <= i < b.wr ==> #[trigger] b.put_all(vs).data[i] == b.data[i],
        forall|i: int| 0 <= i < vs.len() ==> #[trigger] b.put_all(vs).data[b.wr + i] == vs[i],
    decreases vs.len(),
{
    if vs.len() > 0 {
        lemma_put_all(b, vs.drop_last());
        let p = b.put_all(vs.drop_last());
        assert forall|i: int| 0 <= i < vs.len() implies #[trigger] b.put_all(vs).data[b.wr + i]
            == vs[i] by {
            if i < vs.len() - 1 {
                assert(p.data[b.wr + i] == vs.drop_last()[i]);
            }
        }
    }
}

/// Hold-last-value: after `vs` is written into an empty buffer, reading
/// `vs.len() + k` times returns `vs` and then `k` copies of its last sample
/// (of the zero value when `vs` is empty).
pub proof fn lemma_hold_last_value<S>(b: BufView<S>, vs: Seq<S>, k: nat)
    requires
        b.wf(),
        b.rd == 0,
        b.wr == 0,
        vs.len() <= BUFFER_LEN,
    ensures
        b.put_all(vs).reads(vs.len() + k) == vs + Seq::new(
            k,
            |i: int|
                if vs.len() == 0 {
                    b.zero
                } else {
                    vs.last()
                },
        ),
{
    let w = b.put_all(vs);
    lemma_put_all(b, vs);
    lemma_reads(w, vs.len() + k);
    let held = Seq::new(k, |i: int| if vs.len() == 0 { b.zero } else { vs.last() });
    assert(w.reads(vs.len() + k) =~= vs + held) by {
        assert forall|i: int| 0 <= i < vs.len() + k implies #[trigger] w.reads(vs.len() + k)[i]
            == (vs + held)[i] by {
            if i >= vs.len() && vs.len() > 0 {
                assert(w.data[w.wr - 1] == w.data[b.wr + (vs.len() - 1)]);
            }
        }
    }
}

/// After `fill(v)`, every read returns `v`.
pub proof fn lemma_fill_reads<S>(b: BufView<S>, v: S, n: nat)
    requires
        b.wf(),
    ensures
        b.fill(v).reads(n) == Seq::new(n, |i: int| v),
{
    lemma_reads(b.fill(v), n);
    assert(b.fill(v).reads(n) =~= Seq::new(n, |i: int| v));
}

/// `rewind` keeps the written samples, and reading again yields all of them.
pub proof fn lemma_rewind_rereads<S>(b: BufView<S>)
    requires
        b.wf(),
    ensures
        b.rewind().data == b.data,
        b.rewind().wr == b.wr,
        b.rewind().reads(b.wr) == b.data.subrange(0, b.wr as int),
{
    lemma_reads(b.rewind(), b.wr);
    assert(b.rewind().reads(b.wr) =~= b.data.subrange(0, b.wr as int));
}

/// After `reset`, the buffer is empty and the next write lands at position 0.
pub proof fn lemma_reset_then_put<S>(b: BufView<S>, v: S)
    requires
        b.wf(),
    ensures
        b.reset().is_empty(),
        b.reset().put(v).wr == 1,
        b.reset().put(v).data[0] == v,
        b.reset().put(v).rd == 0,
{
}

/// A fixed-capacity sequence of samples with independent read and write cursors.
pub struct Buffer<S> {
    rdpos: usize,
    wrpos: usize,
    buf: Vec<S>,
    zero: S,
}

impl<S> View for Buffer<S> {
    type V = BufView<S>;

    closed spec fn view(&self) -> BufView<S> {
        BufView { data: self.buf@, rd: self.rdpos as nat, wr: self.wrpos as nat, zero: self.zero }
    }
}

impl<S: Copy> Buffer<S> {
    /// An empty buffer whose held value, before anything is written, is `zero`.
    pub fn new(zero: S) -> (r: Buffer<S>)
        ensures
            r@.wf(),
            r@.rd == 0,
            r@.wr == 0,
            r@.zero == zero,
            r@.data == Seq::new(BUFFER_LEN as nat, |i: int| zero),
    {
        let mut buf: Vec<S> = Vec::new();
        let mut i: usize = 0;
        while i < BUFFER_LEN
            invariant
                i <= BUFFER_LEN,
                buf@ == Seq::new(i as nat, |k: int| zero),
            decreases BUFFER_LEN - i,
        {
            buf.push(zero);
            i = i + 1;
            assert(buf@ =~= Seq::new(i as nat, |k: int| zero));
        }
        Buffer { rdpos: 0, wrpos: 0, buf, zero }
    }

    /// Reads one sample. When nothing is left unread, the last written sample
    /// (or the zero value, if nothing was written) is returned again.
    pub fn next(&mut self) -> (r: S)
        requires
            old(self)@.wf(),
        ensures
            final(self)@.wf(),
            r == old(self)@.next_value(),
            final(self)@ == old(self)@.advance(),
    {
        let idx = self.rdpos;
        if idx == self.wrpos {
            if idx == 0 {
                self.zero
            } else {
                self.buf[idx - 1]
            }
        } else {
            self.rdpos = self.rdpos + 1;
            self.buf[idx]
        }
    }

    /// Moves the read cursor back to the start; written data is kept.
    pub fn rewind(&mut self)
        requires
            old(self)@.wf(),
        ensures
            final(self)@.wf(),
            final(self)@ == old(self)@.rewind(),
    {
        self.rdpos = 0;
    }

    pub fn empty(&self) -> (r: bool)
        ensures
            r == self@.is_empty(),
    {
        self.rdpos == self.wrpos
    }

    pub fn rdpos(&self) -> (r: usize)
        ensures
            r == self@.rd,
    {
        self.rdpos
    }

    /// Writes one sample at the write cursor; a full buffer has its last slot overwritten.
    pub fn put(&mut self, val: S)
        requires
            old(self)@.wf(),
        ensures
            final(self)@.wf(),
            final(self)@ == old(self)@.put(val),
    {
        if self.wrpos == BUFFER_LEN {
            self.buf.set(BUFFER_LEN - 1, val);
        } else {
            let w = self.wrpos;
            self.buf.set(w, val);
            self.wrpos = w + 1;
        }
    }

    /// Sets every slot to `val`; the buffer then reads as fully written.
    pub fn fill(&mut self, val: S)
        requires
            old(self)@.wf(),
        ensures
            final(self)@.wf(),
            final(self)@ == old(self)@.fill(val),
    {
        let mut i: usize = 0;
        while i < BUFFER_LEN
            invariant
                i <= BUFFER_LEN,
                self.buf@.len() == BUFFER_LEN,
                self.rdpos <= self.wrpos <= BUFFER_LEN,
                self.zero == old(self).zero,
                forall|k: int| 0 <= k < i ==> self.buf@[k] == val,
            decreases BUFFER_LEN - i,
        {
            self.buf.set(i, val);
            i = i + 1;
        }
        self.rdpos = 0;
        self.wrpos = BUFFER_LEN;
        assert(self.buf@ =~= Seq::new(BUFFER_LEN as nat, |k: int| val));
    }

    /// Empties the buffer logically: both cursors go back to 0.
    pub fn reset(&mut self)
        requires
            old(self)@.wf(),
        ensures
            final(self)@.wf(),
            final(self)@ == old(self)@.reset(),
    {
        self.rdpos = 0;
        self.wrpos = 0;
    }

    pub fn full(&self) -> (r: bool)
        ensures
            r == self@.is_full(),
    {
        self.wrpos == BUFFER_LEN
    }

    /// Replaces the contents with `from`'s; the result is fully written and unread.
    pub fn copy_from(&mut self, from: &Buffer<S>)
        requires
            old(self)@.wf(),
            from@.wf(),
        ensures
            final(self)@.wf(),
            final(self)@ == old(self)@.copy_from(from@),
    {
        let mut i: usize = 0;
        while i < BUFFER_LEN
            invariant
                i <= BUFFER_LEN,
                self.buf@.len() == BUFFER_LEN,
                from.buf@.len() == BUFFER_LEN,
                self.rdpos <= self.wrpos <= BUFFER_LEN,
                self.zero == old(self).zero,
                forall|k: int| 0 <= k < i ==> self.buf@[k] == from.buf@[k],
            decreases BUFFER_LEN - i,
        {
            self.buf.set(i, from.buf[i]);
            i = i + 1;
        }
        self.rdpos = 0;
        self.wrpos = BUFFER_LEN;
        assert(self.buf@ =~= from.buf@);
    }

    /// Takes `data` as its samples; the buffer then reads as fully written.
    pub fn load(&mut self, data: Vec<S>)
        requires
            old(self)@.wf(),
            data@.len() == BUFFER_LEN,
        ensures
            final(self)@.wf(),
            final(self)@ == loaded(old(self)@, data@),
    {
        self.buf = data;
        self.rdpos = 0;
        self.wrpos = BUFFER_LEN;
    }

    pub fn wrpos(&self) -> (r: usize)
        ensures
            r == self@.wr,
    {
        self.wrpos
    }

    /// The sample stored at slot `idx`, whatever the cursors say.
    pub fn get(&self, idx: usize) -> (r: S)
        requires
            self@.wf(),
            idx < BUFFER_LEN,
        ensures
            r == self@.data[idx as int],
    {
        self.buf[idx]
    }
}

/// `r` holds, slot by slot, a result of `f` on the samples of `a` and `b`.
pub open spec fn combines<S, G: Fn(S, S) -> S>(f: G, a: Seq<S>, b: Seq<S>, r: Seq<S>) -> bool {
    &&& r.len() == BUFFER_LEN
    &&& forall|j: int| 0 <= j < BUFFER_LEN ==> f.ensures((a[j], b[j]), #[trigger] r[j])
}

/// The buffer after taking `data` as its samples, fully written and unread.
pub open spec fn loaded<S>(b: BufView<S>, data: Seq<S>) -> BufView<S> {
    BufView { data, rd: 0, wr: BUFFER_LEN as nat, zero: b.zero }
}

/// Applies `f` slot by slot to the samples of `a` and `b`.
fn zip_with<S: Copy, G: Fn(S, S) -> S>(a: &Buffer<S>, b: &Buffer<S>, f: &G) -> (r: Vec<S>)
    requires
        a@.wf(),
        b@.wf(),
        forall|x: S, y: S| f.requires((x, y)),
    ensures
        combines(*f, a@.data, b@.data, r@),
{
    let mut r: Vec<S> = Vec::new();
    let mut j: usize = 0;
    while j < BUFFER_LEN
        invariant
            j <= BUFFER_LEN,
            a@.wf(),
            b@.wf(),
            forall|x: S, y: S| f.requires((x, y)),
            r@.len() == j,
            forall|k: int| 0 <= k < j ==> f.ensures((a@.data[k], b@.data[k]), #[trigger] r@[k]),
        decreases BUFFER_LEN - j,
    {
        let v = f(a.get(j), b.get(j));
        r.push(v);
        j = j + 1;
    }
    r
}

/// For every buffer `i`, combines it with buffer `map[i % map.len()]` through
/// `f(own, source)`, in increasing order of `i`, so a source already visited
/// contributes its new samples. A buffer mapped to itself is left alone.
pub fn distribute<S: Copy, G: Fn(S, S) -> S>(bufs: &mut Vec<Buffer<S>>, map: &[usize], f: G)
    requires
        forall|i: int| 0 <= i < old(bufs)@.len() ==> (#[trigger] old(bufs)@[i])@.wf(),
        map@.len() > 0,
        forall|k: int| 0 <= k < map@.len() ==> #[trigger] map@[k] < old(bufs)@.len(),
        forall|x: S, y: S| f.requires((x, y)),
    ensures
        final(bufs)@.len() == old(bufs)@.len(),
        forall|i: int| 0 <= i < final(bufs)@.len() ==> (#[trigger] final(bufs)@[i])@.wf(),
        forall|i: int|
            0 <= i < old(bufs)@.len() ==> {
                let m = map@[i % map@.len() as int] as int;
                let src = if m < i {
                    final(bufs)@[m]@
                } else {
                    old(bufs)@[m]@
                };
                if m == i {
                    #[trigger] final(bufs)@[i]@ == old(bufs)@[i]@
                } else {
                    &&& final(bufs)@[i]@ == loaded(old(bufs)@[i]@, final(bufs)@[i]@.data)
                    &&& combines(f, old(bufs)@[i]@.data, src.data, final(bufs)@[i]@.data)
                }
            },
{
    let n = bufs.len();
    let mut i: usize = 0;
    while i < n
        invariant
            i <= n,
            n == old(bufs)@.len(),
            bufs@.len() == n,
            map@.len() > 0,
            forall|k: int| 0 <= k < map@.len() ==> #[trigger] map@[k] < n,
            forall|x: S, y: S| f.requires((x, y)),
            forall|k: int| 0 <= k < n ==> (#[trigger] bufs@[k])@.wf(),
            forall|k: int| i <= k < n ==> (#[trigger] bufs@[k])@ == old(bufs)@[k]@,
            forall|k: int|
                0 <= k < i ==> {
                    let m = map@[k % map@.len() as int] as int;
                    let src = if m < k {
                        bufs@[m]@
                    } else {
                        old(bufs)@[m]@
                    };
                    if m == k {
                        #[trigger] bufs@[k]@ == old(bufs)@[k]@
                    } else {
                        &&& bufs@[k]@ == loaded(old(bufs)@[k]@, bufs@[k]@.data)
                        &&& combines(f, old(bufs)@[k]@.data, src.data, bufs@[k]@.data)
                    }
                },
        decreases n - i,
    {
        let src = map[i % map.len()];
        if i != src {
            let data = zip_with(&bufs[i], &bufs[src], &f);
            let ghost before = bufs@;
            bufs[i].load(data);
            assert forall|k: int| 0 <= k < n && k != i implies (#[trigger] bufs@[k])@ == before[k]@ by {
            }
        }
        i = i + 1;
    }
}

/// For `k` in `0 .. max(left.len(), right.len(), dest.len())`, in order:
/// buffer `dest[k % dest.len()] % bufs.len()` takes, slot by slot,
/// `f(left sample, right sample)` of buffers `left[k % left.len()] % bufs.len()`
/// and `right[k % right.len()] % bufs.len()`, and reads as fully written.
pub fn apply<S: Copy, G: Fn(S, S) -> S>(
    bufs: &mut Vec<Buffer<S>>,
    left: &[usize],
    right: &[usize],
    dest: &[usize],
    f: G,
)
    requires
        forall|i: int| 0 <= i < old(bufs)@.len() ==> (#[trigger] old(bufs)@[i])@.wf(),
        old(bufs)@.len() > 0,
        left@.len() > 0,
        right@.len() > 0,
        dest@.len() > 0,
        forall|x: S, y: S| f.requires((x, y)),
    ensures
        final(bufs)@.len() == old(bufs)@.len(),
        forall|i: int| 0 <= i < final(bufs)@.len() ==> (#[trigger] final(bufs)@[i])@.wf(),
        exists|trace: Seq<Seq<BufView<S>>>|
            {
                &&& trace.len() == steps(left@.len(), right@.len(), dest@.len()) + 1
                &&& trace[0] == views(old(bufs)@)
                &&& trace.last() == views(final(bufs)@)
                &&& forall|k: int|
                    0 <= k < trace.len() - 1 ==> apply_step(
                        f,
                        #[trigger] trace[k],
                        trace[k + 1],
                        (left@[k % left@.len() as int] as int) % (old(bufs)@.len() as int),
                        (right@[k % right@.len() as int] as int) % (old(bufs)@.len() as int),
                        (dest@[k % dest@.len() as int] as int) % (old(bufs)@.len() as int),
                    )
            },
{
    let mut maxlen: usize = 0;
    if maxlen < left.len() {
        maxlen = left.len();
    }
    if maxlen < right.len() {
        maxlen = right.len();
    }
    if maxlen < dest.len() {
        maxlen = dest.len();
    }
    let n = bufs.len();
    let ghost mut trace: Seq<Seq<BufView<S>>> = seq![views(bufs@)];
    let mut i: usize = 0;
    while i < maxlen
        invariant
            i <= maxlen,
            maxlen == steps(left@.len(), right@.len(), dest@.len()),
            n == old(bufs)@.len(),
            n > 0,
            bufs@.len() == n,
            left@.len() > 0,
            right@.len() > 0,
            dest@.len() > 0,
            forall|x: S, y: S| f.requires((x, y)),
            forall|k: int| 0 <= k < n ==> (#[trigger] bufs@[k])@.wf(),
            trace.len() == i + 1,
            trace[0] == views(old(bufs)@),
            trace.last() == views(bufs@),
            forall|k: int|
                0 <= k < trace.len() - 1 ==> apply_step(
                    f,
                    #[trigger] trace[k],
                    trace[k + 1],
                    (left@[k % left@.len() as int] as int) % (n as int),
                    (right@[k % right@.len() as int] as int) % (n as int),
                    (dest@[k % dest@.len() as int] as int) % (n as int),
                ),
        decreases maxlen - i,
    {
        let l_idx = left[i % left.len()] % n;
        let r_idx = right[i % right.len()] % n;
        let d_idx = dest[i % dest.len()] % n;
        let data = zip_with(&bufs[l_idx], &bufs[r_idx], &f);
        let ghost before = bufs@;
        let ghost dv = data@;
        bufs[d_idx].load(data);
        proof {
            assert(views(before)[l_idx as int] == before[l_idx as int]@);
            assert(views(before)[r_idx as int] == before[r_idx as int]@);
            assert(views(before)[d_idx as int] == before[d_idx as int]@);
            assert(combines(f, views(before)[l_idx as int].data, views(before)[r_idx as int].data, dv));
            assert(views(bufs@) =~= views(before).update(d_idx as int, loaded(before[d_idx as int]@, dv)));
            assert(apply_step(f, views(before), views(bufs@), l_idx as int, r_idx as int, d_idx as int));
            trace = trace.push(views(bufs@));
        }
        i = i + 1;
    }
}

/// How many steps `apply` takes: the longest of the three index lists.
pub open spec fn steps(l: nat, r: nat, d: nat) -> nat {
    if l >= r && l >= d {
        l
    } else if r >= d {
        r
    } else {
        d
    }
}

pub open spec fn views<S>(bufs: Seq<Buffer<S>>) -> Seq<BufView<S>> {
    bufs.map(|i: int, b: Buffer<S>| b@)
}

/// One step of `apply`: buffer `d` takes `f` of buffers `l` and `r`.
pub open spec fn apply_step<S, G: Fn(S, S) -> S>(
    f: G,
    a: Seq<BufView<S>>,
    b: Seq<BufView<S>>,
    l: int,
    r: int,
    d: int,
) -> bool {
    exists|data: Seq<S>|
        combines(f, a[l].data, a[r].data, data) && b == a.update(d, loaded(a[d], data))
}

/// Capacity of a sample container.
pub trait Size {
    fn size(&self) -> (r: usize)
        ensures
            r == BUFFER_LEN,
    ;
}

impl<S> Size for Buffer<S> {
    fn size(&self) -> (r: usize) {
        BUFFER_LEN
    }
}

impl<S: Copy + Default> Default for Buffer<S> {
    /// An empty buffer whose held value is the sample type's default.
    fn default() -> (r: Buffer<S>)
        ensures
            r@.wf(),
            r@.rd == 0,
            r@.wr == 0,
            r@.data == Seq::new(BUFFER_LEN as nat, |i: int| r@.zero),
    {
        Buffer::new(S::default())
    }
}

} // verus!
