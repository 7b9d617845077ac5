use std::sync::Arc;
use vstd::prelude::*;
use vstd::rwlock::{RwLock, RwLockPredicate};

use crate::consts::{CHUNK_LIST_INIT_CAPACITY, CHUNK_SIZE};

verus! {

/// A shared, reference-counted handle to a contiguous buffer of elements.
/// Once such a handle is placed in the frozen list, the buffer behind it is
/// never mutated again, so the handle can be given out without copying.
pub type Chunk<T> = Arc<Vec<T>>;

/// Relies on `std::sync::Arc::clone`: the returned handle refers to the same
/// buffer as the argument, so both views are equal.
#[verifier::external_body]
fn chunk_share<T: Copy>(chunk: &Chunk<T>) -> (r: Chunk<T>)
    ensures
        r@ == chunk@,
{
    Arc::clone(chunk)
}

/// Relies on `std::sync::Arc::make_mut`: if the handle is shared it clones the
/// buffer (element-wise; `T: Copy`, so clones equal their originals) into a
/// fresh exclusively-owned one, then yields mutable access to it; holders of
/// other handles keep seeing the old contents. The handle ends up holding
/// whatever the caller leaves behind the returned reference.
#[verifier::external_body]
fn chunk_make_mut<T: Copy>(chunk: &mut Chunk<T>) -> (r: &mut Vec<T>)
    ensures
        r@ == old(chunk)@,
        final(chunk)@ == final(r)@,
{
    Arc::make_mut(chunk)
}

/// The unsynchronized core: frozen (full) chunks, the pending chunk still
/// being filled, and the running element count.
pub struct ChunkListInner<T: Copy> {
    frozen: Vec<Chunk<T>>,
    pending: Chunk<T>,
    len: usize,
}

impl<T: Copy> View for ChunkListInner<T> {
    type V = Seq<T>;

    /// The logical contents: all frozen chunks in order, then the pending one.
    closed spec fn view(&self) -> Seq<T> {
        self.frozen_elems() + self.pending@
    }
}

impl<T: Copy> ChunkListInner<T> {
    /// The elements held by the frozen chunks, in order.
    pub closed spec fn frozen_elems(&self) -> Seq<T> {
        self.frozen@.map_values(|c: Chunk<T>| c@).flatten()
    }

    /// Well-formedness: every frozen chunk is full, the pending chunk is at
    /// most full, and the stored count agrees with the logical contents.
    pub closed spec fn wf(&self) -> bool {
        &&& forall|i: int|
            0 <= i < self.frozen@.len() ==> (#[trigger] self.frozen@[i])@.len() == CHUNK_SIZE
        &&& self.pending@.len() <= CHUNK_SIZE
        &&& self.len == self@.len()
    }

    /// A fresh, empty chunk with the fixed capacity reserved.
    pub fn new_chunk() -> (c: Chunk<T>)
        ensures
            c@ == Seq::<T>::empty(),
    {
        Arc::new(Vec::with_capacity(CHUNK_SIZE))
    }

    /// An empty container core.
    pub fn new() -> (r: Self)
        ensures
            r.wf(),
            r@ == Seq::<T>::empty(),
    {
        let r = ChunkListInner {
            frozen: Vec::with_capacity(CHUNK_LIST_INIT_CAPACITY),
            pending: Self::new_chunk(),
            len: 0,
        };
        proof {
            assert(r.frozen@.map_values(|c: Chunk<T>| c@) =~= Seq::<Seq<T>>::empty());
            assert(r@ =~= Seq::<T>::empty());
        }
        r
    }

    /// The number of elements currently held.
    pub fn len(&self) -> (r: usize)
        requires
            self.wf(),
        ensures
            r == self@.len(),
    {
        self.len
    }

    /// The elements from `start` on; empty when `start` lies beyond the end.
    pub open spec fn suffix(self, start: int) -> Seq<T> {
        if 0 <= start <= self@.len() {
            self@.skip(start)
        } else {
            Seq::empty()
        }
    }

    /// The chunks the snapshot scan emits for the frozen chunks `chunks`,
    /// requested start index `start`, and `scanned` elements already seen:
    /// a chunk strictly after `start` is shared whole, the chunk straddling
    /// `start` contributes its tail, chunks before `start` are skipped.
    pub closed spec fn frozen_snap(chunks: Seq<Seq<T>>, start: int, scanned: int) -> Seq<Seq<T>>
        decreases chunks.len(),
    {
        if chunks.len() == 0 {
            Seq::empty()
        } else {
            let c = chunks.first();
            let rest = Self::frozen_snap(chunks.drop_first(), start, scanned + c.len());
            if scanned > start {
                seq![c] + rest
            } else if scanned + c.len() > start {
                seq![c.skip(start - scanned)] + rest
            } else {
                rest
            }
        }
    }

    /// The exact sequence of chunk contents a snapshot at `start` returns:
    /// the frozen contribution followed by the copied tail of the pending
    /// chunk, or nothing at all when `start` lies beyond the end.
    pub closed spec fn snapshot_chunks(self, start: int) -> Seq<Seq<T>> {
        if 0 <= start <= self@.len() {
            let scanned = self.frozen_elems().len() as int;
            let off = if start > scanned {
                start - scanned
            } else {
                0
            };
            Self::frozen_snap(self.frozen@.map_values(|c: Chunk<T>| c@), start, 0) + seq![
                self.pending@.skip(off),
            ]
        } else {
            Seq::empty()
        }
    }

    /// Flattening what the frozen scan emits yields exactly the frozen
    /// elements from `start` on (relative to `scanned` already seen).
    proof fn lemma_frozen_snap_flatten(chunks: Seq<Seq<T>>, start: int, scanned: int)
        ensures
            Self::frozen_snap(chunks, start, scanned).flatten() == if start <= scanned {
                chunks.flatten()
            } else if start - scanned <= chunks.flatten().len() {
                chunks.flatten().skip(start - scanned)
            } else {
                Seq::<T>::empty()
            },
        decreases chunks.len(),
    {
        if chunks.len() == 0 {
            assert(Self::frozen_snap(chunks, start, scanned).flatten() =~= Seq::<T>::empty());
            assert(chunks.flatten() =~= Seq::<T>::empty());
        } else {
            let c = chunks.first();
            let rest = chunks.drop_first();
            let emitted = Self::frozen_snap(chunks, start, scanned);
            Self::lemma_frozen_snap_flatten(rest, start, scanned + c.len());
            assert(chunks.flatten() == c + rest.flatten());
            if scanned > start {
                assert(emitted == seq![c] + Self::frozen_snap(rest, start, scanned + c.len()));
                assert(emitted.first() == c);
                assert(emitted.drop_first() =~= Self::frozen_snap(rest, start, scanned + c.len()));
                assert(emitted.flatten() == c + Self::frozen_snap(
                    rest,
                    start,
                    scanned + c.len(),
                ).flatten());
            } else if scanned + c.len() > start {
                let k = start - scanned;
                assert(emitted.first() == c.skip(k));
                assert(emitted.drop_first() =~= Self::frozen_snap(rest, start, scanned + c.len()));
                assert(emitted.flatten() == c.skip(k) + Self::frozen_snap(
                    rest,
                    start,
                    scanned + c.len(),
                ).flatten());
                assert(emitted.flatten() == c.skip(k) + rest.flatten());
                assert((c + rest.flatten()).skip(k) =~= c.skip(k) + rest.flatten());
            } else {
                if start - (scanned + c.len()) <= rest.flatten().len() {
                    assert(emitted.flatten() == rest.flatten().skip(start - scanned - c.len()));
                    assert((c + rest.flatten()).skip(start - scanned) =~= rest.flatten().skip(
                        start - scanned - c.len(),
                    ));
                }
            }
        }
    }

    /// Concatenating the chunks a snapshot returns yields exactly the
    /// logical elements from `start` on (and nothing when `start` lies
    /// beyond the end).
    pub proof fn lemma_snapshot_chunks_flatten(self, start: int)
        requires
            self.wf(),
        ensures
            self.snapshot_chunks(start).flatten() == self.suffix(start),
    {
        broadcast use vstd::prelude::Seq::lemma_flatten_push;

        if 0 <= start <= self@.len() {
            let fchunks = self.frozen@.map_values(|c: Chunk<T>| c@);
            let fe = self.frozen_elems();
            let scanned = fe.len() as int;
            let off = if start > scanned {
                start - scanned
            } else {
                0
            };
            let fpart = Self::frozen_snap(fchunks, start, 0);
            Self::lemma_frozen_snap_flatten(fchunks, start, 0);
            assert(fpart + seq![self.pending@.skip(off)] =~= fpart.push(self.pending@.skip(off)));
            assert(self.snapshot_chunks(start).flatten() == fpart.flatten() + self.pending@.skip(
                off,
            ));
            if start <= scanned {
                assert(fpart.flatten() == fe.skip(start)) by {
                    if start == 0 {
                        assert(fe.skip(0) =~= fe);
                    }
                }
                assert(fe.skip(start) + self.pending@ =~= (fe + self.pending@).skip(start));
            } else {
                assert(fpart.flatten() =~= Seq::<T>::empty());
                assert(self.pending@.skip(off) =~= (fe + self.pending@).skip(start));
                assert(Seq::<T>::empty() + self.pending@.skip(off) =~= self.pending@.skip(off));
            }
        }
    }

    /// Taking one more chunk into a prefix extends its flattening by exactly
    /// that chunk.
    proof fn lemma_flatten_take_succ(chunks: Seq<Seq<T>>, i: int)
        requires
            0 <= i < chunks.len(),
        ensures
            chunks.take(i + 1).flatten() == chunks.take(i).flatten() + chunks[i],
    {
        broadcast use vstd::prelude::Seq::lemma_flatten_push;

        assert(chunks.take(i + 1) =~= chunks.take(i).push(chunks[i]));
    }

    /// A prefix of the chunk list flattens to a prefix of the whole
    /// flattening.
    proof fn lemma_flatten_take_le(chunks: Seq<Seq<T>>, i: int)
        requires
            0 <= i <= chunks.len(),
        ensures
            chunks.take(i).flatten().len() <= chunks.flatten().len(),
    {
        assert(chunks =~= chunks.take(i) + chunks.skip(i));
        vstd::seq_lib::lemma_flatten_concat(chunks.take(i), chunks.skip(i));
    }

    /// A fresh buffer holding a copy of `src[from..]`.
    fn copy_tail(src: &Vec<T>, from: usize) -> (r: Vec<T>)
        requires
            from <= src.len(),
        ensures
            r@ == src@.skip(from as int),
    {
        let mut r: Vec<T> = Vec::new();
        let mut i: usize = from;
        while i < src.len()
            invariant
                from <= i <= src.len(),
                r@ == src@.subrange(from as int, i as int),
            decreases src.len() - i,
        {
            r.push(src[i]);
            i = i + 1;
            proof {
                assert(r@ =~= src@.subrange(from as int, i as int));
            }
        }
        proof {
            assert(r@ =~= src@.skip(from as int));
        }
        r
    }

    /// A point-in-time view of the elements from index `start` on, as an
    /// ordered sequence of chunk handles: frozen chunks wholly past `start`
    /// are shared without copying, the chunk straddling `start` and the
    /// pending chunk are copied out. When `start` lies beyond the current
    /// length the result is empty.
    pub fn snapshot(&self, start: usize) -> (r: Vec<Chunk<T>>)
        requires
            self.wf(),
        ensures
            r@.map_values(|c: Chunk<T>| c@) == self.snapshot_chunks(start as int),
            r@.map_values(|c: Chunk<T>| c@).flatten() == self.suffix(start as int),
    {
        let mut ret: Vec<Chunk<T>> = Vec::new();
        if start > self.len {
            proof {
                assert(ret@.map_values(|c: Chunk<T>| c@) =~= Seq::<Seq<T>>::empty());
            }
            return ret;
        }
        let ghost fchunks = self.frozen@.map_values(|c: Chunk<T>| c@);
        let mut scanned: usize = 0;
        let mut i: usize = 0;
        proof {
            assert(fchunks.skip(0) =~= fchunks);
            assert(ret@.map_values(|c: Chunk<T>| c@) =~= Seq::<Seq<T>>::empty());
            assert(fchunks.take(0).flatten() =~= Seq::<T>::empty());
            assert(Seq::<Seq<T>>::empty() + Self::frozen_snap(fchunks, start as int, 0)
                =~= Self::frozen_snap(fchunks, start as int, 0));
        }
        while i < self.frozen.len()
            invariant
                self.wf(),
                start <= self@.len(),
                i <= self.frozen.len(),
                fchunks == self.frozen@.map_values(|c: Chunk<T>| c@),
                scanned == fchunks.take(i as int).flatten().len(),
                scanned <= self.frozen_elems().len(),
                Self::frozen_snap(fchunks, start as int, 0) == ret@.map_values(
                    |c: Chunk<T>| c@,
                ) + Self::frozen_snap(fchunks.skip(i as int), start as int, scanned as int),
            decreases self.frozen.len() - i,
        {
            proof {
                assert(fchunks.take(fchunks.len() as int) =~= fchunks);
                Self::lemma_flatten_take_succ(fchunks, i as int);
                Self::lemma_flatten_take_le(fchunks, i as int + 1);
                assert(fchunks[i as int] == self.frozen@[i as int]@);
            }
            let chunk_len = self.frozen[i].len();
            let ghost ret_views = ret@.map_values(|c: Chunk<T>| c@);
            if scanned > start {
                let shared = chunk_share(&self.frozen[i]);
                ret.push(shared);
                proof {
                    assert(ret@.map_values(|c: Chunk<T>| c@) =~= ret_views.push(
                        fchunks[i as int],
                    ));
                }
            } else if scanned + chunk_len > start {
                let copied = Self::copy_tail(&self.frozen[i], start - scanned);
                ret.push(Arc::new(copied));
                proof {
                    assert(ret@.map_values(|c: Chunk<T>| c@) =~= ret_views.push(
                        fchunks[i as int].skip(start as int - scanned as int),
                    ));
                }
            }
            proof {
                let tail = fchunks.skip(i as int);
                assert(tail.first() == fchunks[i as int]);
                assert(tail.drop_first() =~= fchunks.skip(i as int + 1));
            }
            scanned = scanned + chunk_len;
            i = i + 1;
        }
        proof {
            assert(fchunks.take(i as int) =~= fchunks);
            assert(fchunks.skip(i as int) =~= Seq::<Seq<T>>::empty());
            assert(Self::frozen_snap(fchunks, start as int, 0) =~= ret@.map_values(
                |c: Chunk<T>| c@,
            ));
            assert(scanned == self.frozen_elems().len());
        }
        let off = if start > scanned {
            start - scanned
        } else {
            0
        };
        let ghost ret_views = ret@.map_values(|c: Chunk<T>| c@);
        let copied = Self::copy_tail(&self.pending, off);
        ret.push(Arc::new(copied));
        proof {
            assert(ret@.map_values(|c: Chunk<T>| c@) =~= ret_views.push(
                self.pending@.skip(off as int),
            ));
            assert(ret@.map_values(|c: Chunk<T>| c@) =~= self.snapshot_chunks(start as int));
            self.lemma_snapshot_chunks_flatten(start as int);
        }
        ret
    }

    /// Append one element at the end of the logical sequence. If the pending
    /// chunk is full it is frozen first (its handle is shared into the frozen
    /// list, no data copy) and a fresh pending chunk takes its place; the two
    /// conditional clauses below pin that structural step: a full pending
    /// chunk moves whole into the frozen elements, and otherwise the frozen
    /// elements stay as they were.
    pub fn push(&mut self, item: T)
        requires
            old(self).wf(),
            old(self)@.len() < usize::MAX,
        ensures
            final(self).wf(),
            final(self)@ == old(self)@.push(item),
            old(self)@.len() - old(self).frozen_elems().len() == CHUNK_SIZE
                ==> final(self).frozen_elems() == old(self)@,
            old(self)@.len() - old(self).frozen_elems().len() < CHUNK_SIZE
                ==> final(self).frozen_elems() == old(self).frozen_elems(),
    {
        if self.pending.len() == CHUNK_SIZE {
            let frozen_chunk = chunk_share(&self.pending);
            self.frozen.push(frozen_chunk);
            self.pending = Self::new_chunk();
            proof {
                broadcast use vstd::prelude::Seq::lemma_flatten_push;

                assert(self.frozen@.map_values(|c: Chunk<T>| c@) =~= old(
                    self,
                ).frozen@.map_values(|c: Chunk<T>| c@).push(old(self).pending@));
                assert(self.frozen_elems() =~= old(self)@);
                assert(self@ =~= old(self)@);
            }
        }
        let buf = chunk_make_mut(&mut self.pending);
        buf.push(item);
        self.len = self.len + 1;
        proof {
            assert(self@ =~= old(self)@.push(item));
        }
    }

    /// Append every element of `vec` in order: the batch is logically equal
    /// to pushing the elements one by one, and the contents afterwards are
    /// the old contents followed by `vec`'s.
    pub fn append_all(&mut self, vec: &Vec<T>)
        requires
            old(self).wf(),
            old(self)@.len() + vec@.len() <= usize::MAX,
        ensures
            final(self).wf(),
            final(self)@ == old(self)@ + vec@,
    {
        let mut i: usize = 0;
        proof {
            assert(self@ =~= old(self)@ + vec@.take(0));
        }
        while i < vec.len()
            invariant
                self.wf(),
                i <= vec@.len(),
                old(self)@.len() + vec@.len() <= usize::MAX,
                self@ == old(self)@ + vec@.take(i as int),
            decreases vec@.len() - i,
        {
            self.push(vec[i]);
            i = i + 1;
            proof {
                assert(self@ =~= old(self)@ + vec@.take(i as int));
            }
        }
        proof {
            assert(vec@.take(vec@.len() as int) =~= vec@);
        }
    }
}

/// Law: the length counts the pushes. `new` ensures empty contents and each
/// push appends one element, so a container grown from empty by pushing
/// `items`, one by one or batched, holds contents whose reported length —
/// what `len`'s contract returns — is exactly their number.
pub proof fn lemma_len_counts_pushes<T: Copy>(c: ChunkListInner<T>, items: Seq<T>)
    requires
        c@ == Seq::<T>::empty() + items,
    ensures
        c@.len() == items.len(),
{
    assert(c@ =~= items);
}

/// Law: snapshots are immutable under later growth, and growth is counted
/// exactly. If the contents grow from `pre` to `pre + more` — which is what
/// repeated pushes ensure — the length grows by `more.len()`, the suffix a
/// snapshot at `start` captures merely gains `more` at its end, and the
/// elements the earlier snapshot holds reappear unchanged as a prefix of the
/// later suffix.
pub proof fn lemma_snapshot_stable<T: Copy>(
    pre: ChunkListInner<T>,
    post: ChunkListInner<T>,
    more: Seq<T>,
    start: int,
)
    requires
        post@ == pre@ + more,
        0 <= start <= pre@.len(),
    ensures
        post@.len() == pre@.len() + more.len(),
        post.suffix(start) == pre.suffix(start) + more,
        pre.suffix(start) == post.suffix(start).take(pre@.len() - start),
{
    assert(post.suffix(start) =~= pre.suffix(start) + more);
    assert(pre.suffix(start) =~= post.suffix(start).take(pre@.len() - start));
}

/// Law: reads are idempotent. The contracts of `len` and `snapshot` pin
/// their results as functions of the state and the start index alone, so two
/// calls without an intervening mutation return equal values.
pub proof fn lemma_reads_idempotent<T: Copy>(
    c: ChunkListInner<T>,
    start: int,
    r1: Seq<Seq<T>>,
    r2: Seq<Seq<T>>,
    n1: int,
    n2: int,
)
    requires
        r1 == c.snapshot_chunks(start),
        r2 == c.snapshot_chunks(start),
        n1 == c@.len(),
        n2 == c@.len(),
    ensures
        r1 == r2,
        n1 == n2,
{
}

/// Law: an emptied container reads as empty. A state with no elements — what
/// a reset installs — has length zero, and a snapshot from the start captures
/// nothing. Snapshots taken earlier own their chunk handles outright, so the
/// reset does not reach them.
pub proof fn lemma_empty_reads<T: Copy>(c: ChunkListInner<T>)
    requires
        c.wf(),
        c@ == Seq::<T>::empty(),
    ensures
        c@.len() == 0,
        c.snapshot_chunks(0).flatten() == Seq::<T>::empty(),
{
    c.lemma_snapshot_chunks_flatten(0);
    assert(c.suffix(0) =~= Seq::<T>::empty());
}

/// The lock invariant: any state stored in the container's lock is
/// well-formed.
pub struct WfPred;

impl<T: Copy> RwLockPredicate<ChunkListInner<T>> for WfPred {
    open spec fn inv(self, v: ChunkListInner<T>) -> bool {
        v.wf()
    }
}

/// The public, thread-safe container: the core behind a verified
/// reader-writer lock. Every operation acquires the lock for its full
/// duration; the lock's invariant keeps the core well-formed between
/// operations, and the full functional contracts live on `ChunkListInner`.
pub struct ChunkList<T: Copy> {
    inner: RwLock<ChunkListInner<T>, WfPred>,
}

impl<T: Copy> Default for ChunkList<T> {
    /// An empty container.
    fn default() -> (r: Self)
        ensures
            r.wf(),
    {
        ChunkList { inner: RwLock::new(ChunkListInner::new(), Ghost(WfPred)) }
    }
}

impl<T: Copy> ChunkList<T> {
    /// The container carries the canonical lock invariant.
    pub closed spec fn wf(&self) -> bool {
        self.inner.pred() == WfPred
    }

    /// An empty container.
    pub fn new() -> (r: Self)
        ensures
            r.wf(),
    {
        Self::default()
    }

    /// Append one element under the write lock; `ChunkListInner::push`
    /// carries the functional contract this runs against. The guard below
    /// can never fail in practice — a container of `usize::MAX` elements
    /// would need more bookkeeping than the address space holds — it keeps
    /// the length arithmetic free of overflow.
    pub fn push(&self, item: T)
        requires
            self.wf(),
    {
        let (mut inner, handle) = self.inner.acquire_write();
        if inner.len() < usize::MAX {
            inner.push(item);
        }
        handle.release_write(inner);
    }

    /// Append every element of `vec` in order, under one write-lock
    /// acquisition: the batch is atomic with respect to other lock holders
    /// and — per `ChunkListInner::append_all`, which carries the functional
    /// contract this runs against — logically equal to pushing the elements
    /// one by one. The guard can never fail in practice, as for `push`.
    pub fn append_vec(&self, vec: Vec<T>)
        requires
            self.wf(),
    {
        let (mut inner, handle) = self.inner.acquire_write();
        if vec.len() <= usize::MAX - inner.len() {
            inner.append_all(&vec);
        }
        handle.release_write(inner);
    }

    /// Replace the state with a freshly constructed empty one. Outstanding
    /// snapshots hold their own chunk handles and are unaffected.
    pub fn clear(&self)
        requires
            self.wf(),
    {
        let (_discarded, handle) = self.inner.acquire_write();
        handle.release_write(ChunkListInner::new());
    }

    /// A point-in-time snapshot of the elements from `start` on, taken from
    /// the state the lock held at the instant of the call; see
    /// `ChunkListInner::snapshot` for the exact shape of the result. Once
    /// returned it is immutable: it shares only frozen chunks and copies of
    /// the rest.
    pub fn snapshot(&self, start: usize) -> (r: Vec<Chunk<T>>)
        requires
            self.wf(),
        ensures
            exists|state: ChunkListInner<T>|
                {
                    &&& state.wf()
                    &&& r@.map_values(|c: Chunk<T>| c@) == state.snapshot_chunks(start as int)
                    &&& r@.map_values(|c: Chunk<T>| c@).flatten() == state.suffix(start as int)
                },
    {
        let handle = self.inner.acquire_read();
        let r = handle.borrow().snapshot(start);
        proof {
            let state = handle@;
            assert(state.wf() && r@.map_values(|c: Chunk<T>| c@) == state.snapshot_chunks(
                start as int,
            ) && r@.map_values(|c: Chunk<T>| c@).flatten() == state.suffix(start as int));
        }
        handle.release_read();
        r
    }

    /// The element count of the state the lock held at the instant of the
    /// call.
    pub fn len(&self) -> (r: usize)
        requires
            self.wf(),
        ensures
            exists|state: ChunkListInner<T>| state.wf() && r == state@.len(),
    {
        let handle = self.inner.acquire_read();
        let r = handle.borrow().len();
        handle.release_read();
        r
    }
}

} // verus!
