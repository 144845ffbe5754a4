//! Fixed-capacity sliding window: the ring-buffer primitive every threshold
//! state machine stores its history in.
//!
//! The abstract contents of a window are a sequence in chronological order,
//! oldest first.  A push appends; once the window is full, each push also
//! evicts exactly the oldest element and returns it.

use vstd::prelude::*;

verus! {

/// One push into a ring of capacity `cap`: append, dropping the oldest
/// element first when the ring is already full.
pub open spec fn ring_push<T>(s: Seq<T>, cap: nat, v: T) -> Seq<T> {
    if s.len() < cap {
        s.push(v)
    } else {
        s.drop_first().push(v)
    }
}

/// What a push into a ring of capacity `cap` evicts: the oldest element,
/// present exactly when the ring is already full.
pub open spec fn ring_evicted<T>(s: Seq<T>, cap: nat) -> Option<T> {
    if s.len() < cap {
        None
    } else {
        Some(s.first())
    }
}

/// The contents of a ring of capacity `cap` after pushing the values `vs`,
/// in order, into an empty ring.
pub open spec fn ring_run<T>(cap: nat, vs: Seq<T>) -> Seq<T>
    decreases vs.len(),
{
    if vs.len() == 0 {
        Seq::empty()
    } else {
        ring_push(ring_run(cap, vs.drop_last()), cap, vs.last())
    }
}

/// Fixed-capacity ring buffer over copyable elements.
///
/// The backing storage is supplied at construction and never reallocated;
/// its length is the capacity.
pub struct SlidingWindow<T> {
    buffer: Vec<T>,
    idx: usize,
    full: bool,
}

impl<T> View for SlidingWindow<T> {
    type V = Seq<T>;

    /// The held elements in chronological order, oldest first.
    closed spec fn view(&self) -> Seq<T> {
        if self.full {
            self.buffer@.subrange(self.idx as int, self.buffer@.len() as int)
                + self.buffer@.subrange(0, self.idx as int)
        } else {
            self.buffer@.subrange(0, self.idx as int)
        }
    }
}

impl<T: Copy> SlidingWindow<T> {
    /// Capacity of the window: the length of its backing storage.
    pub closed spec fn capacity_spec(&self) -> nat {
        self.buffer@.len()
    }

    /// Internal consistency: non-empty storage and an in-range write cursor.
    pub closed spec fn wf(&self) -> bool {
        1 <= self.buffer@.len() && self.idx < self.buffer@.len()
    }

    /// How far the storage-order copy handed out by [`Self::iter_unordered`]
    /// is rotated against the chronological contents.
    pub closed spec fn unorder_shift(&self) -> int {
        if self.full {
            self.buffer@.len() - self.idx
        } else {
            0
        }
    }

    /// Wraps the given storage as an empty window.
    pub fn new(buffer: Vec<T>) -> (w: Self)
        requires
            buffer@.len() >= 1,
        ensures
            w.wf(),
            w@ == Seq::<T>::empty(),
            w.capacity_spec() == buffer@.len(),
    {
        let w = SlidingWindow { buffer, idx: 0, full: false };
        proof {
            assert(w@ =~= Seq::<T>::empty());
        }
        w
    }

    /// Empties the window; the storage and capacity are kept.
    pub fn clear(&mut self)
        requires
            old(self).wf(),
        ensures
            final(self).wf(),
            final(self)@ == Seq::<T>::empty(),
            final(self).capacity_spec() == old(self).capacity_spec(),
    {
        self.idx = 0;
        self.full = false;
        proof {
            assert(self@ =~= Seq::<T>::empty());
        }
    }

    pub fn capacity(&self) -> (c: usize)
        ensures
            c == self.capacity_spec(),
    {
        self.buffer.len()
    }

    /// Number of elements currently held.
    pub fn len(&self) -> (n: usize)
        requires
            self.wf(),
        ensures
            n == self@.len(),
    {
        if self.full {
            self.buffer.len()
        } else {
            self.idx
        }
    }

    /// The most recently pushed element, if any.
    pub fn last(&self) -> (r: Option<T>)
        requires
            self.wf(),
        ensures
            match r {
                Some(v) => self@.len() > 0 && v == self@.last(),
                None => self@.len() == 0,
            },
    {
        let idx = if self.idx == 0 {
            if self.full {
                self.buffer.len()
            } else {
                return None;
            }
        } else {
            self.idx
        };
        Some(self.buffer[idx - 1])
    }

    pub fn is_empty(&self) -> (r: bool)
        requires
            self.wf(),
        ensures
            r == (self@.len() == 0),
    {
        !self.full && self.idx == 0
    }

    pub fn is_full(&self) -> (r: bool)
        requires
            self.wf(),
        ensures
            r == (self@.len() == self.capacity_spec()),
    {
        self.full
    }

    /// Pushes an element; once the window is full, each push evicts and
    /// returns exactly the chronologically oldest element.
    pub fn push(&mut self, sample: T) -> (evicted: Option<T>)
        requires
            old(self).wf(),
        ensures
            final(self).wf(),
            final(self).capacity_spec() == old(self).capacity_spec(),
            final(self)@ == ring_push(old(self)@, old(self).capacity_spec(), sample),
            evicted == ring_evicted(old(self)@, old(self).capacity_spec()),
    {
        let ghost prev = *self;
        let cap = self.buffer.len();
        let evicted = if self.full {
            Some(self.buffer[self.idx])
        } else {
            None
        };
        self.buffer.set(self.idx, sample);
        self.idx = self.idx + 1;
        if self.idx == cap {
            self.idx = 0;
            self.full = true;
        }
        proof {
            if prev.full {
                assert(prev@.len() == prev.capacity_spec());
                assert(self@ =~= prev@.drop_first().push(sample));
            } else {
                assert(prev@.len() < prev.capacity_spec());
                assert(self@ =~= prev@.push(sample));
            }
        }
        evicted
    }

    /// A copy of the currently held elements in storage order, which is the
    /// chronological order rotated by [`Self::unorder_shift`].  Callers must
    /// only use it for order-independent folds such as sums and maxima.
    pub fn iter_unordered(&self) -> (items: Vec<T>)
        requires
            self.wf(),
        ensures
            items@.len() == self@.len(),
            0 <= self.unorder_shift() <= self@.len(),
            items@ == self@.subrange(self.unorder_shift(), self@.len() as int)
                + self@.subrange(0, self.unorder_shift()),
    {
        let n = self.len();
        let mut items: Vec<T> = Vec::new();
        let mut i: usize = 0;
        while i < n
            invariant
                0 <= i <= n,
                n == self@.len(),
                self.wf(),
                n <= self.buffer@.len(),
                items@ =~= self.buffer@.subrange(0, i as int),
            decreases n - i,
        {
            items.push(self.buffer[i]);
            proof {
                assert(items@ =~= self.buffer@.subrange(0, i + 1));
            }
            i = i + 1;
        }
        proof {
            if self.full {
                assert(items@ =~= self.buffer@);
                assert(self@.subrange(self.unorder_shift(), self@.len() as int)
                    =~= self.buffer@.subrange(0, self.idx as int));
                assert(self@.subrange(0, self.unorder_shift())
                    =~= self.buffer@.subrange(self.idx as int, self.buffer@.len() as int));
                assert(items@ =~= self@.subrange(self.unorder_shift(), self@.len() as int)
                    + self@.subrange(0, self.unorder_shift()));
            } else {
                assert(items@ =~= self@.subrange(0, self@.len() as int));
                assert(self@.subrange(0, self@.len() as int) =~= self@);
                assert(self@.subrange(0, 0) =~= Seq::<T>::empty());
                assert(items@ =~= self@.subrange(self.unorder_shift(), self@.len() as int)
                    + self@.subrange(0, self.unorder_shift()));
            }
        }
        items
    }
}

/// A well-formed window has at least one slot and never holds more than
/// its capacity.
pub proof fn lemma_window_capacity<T: Copy>(w: &SlidingWindow<T>)
    requires
        w.wf(),
    ensures
        w.capacity_spec() >= 1,
        w@.len() <= w.capacity_spec(),
{
}

/// A vector holding `len` copies of `value`: backing storage for a window.
pub fn filled<T: Copy>(value: T, len: usize) -> (v: Vec<T>)
    ensures
        v@ == Seq::new(len as nat, |i: int| value),
{
    let mut v: Vec<T> = Vec::new();
    let mut i: usize = 0;
    while i < len
        invariant
            0 <= i <= len,
            v@ =~= Seq::new(i as nat, |j: int| value),
        decreases len - i,
    {
        v.push(value);
        proof {
            assert(v@ =~= Seq::new((i + 1) as nat, |j: int| value));
        }
        i = i + 1;
    }
    proof {
        assert(v@ =~= Seq::new(len as nat, |i: int| value));
    }
    v
}

/// Pushing into a ring of machine integers and then reading the contents as
/// mathematical integers is the same as pushing into the abstract ring.
pub proof fn lemma_ring_push_to_int(s: Seq<i64>, cap: nat, v: i64)
    requires
        cap >= 1,
    ensures
        crate::folds::seq_to_int(ring_push(s, cap, v)) == ring_push(
            crate::folds::seq_to_int(s),
            cap,
            v as int,
        ),
{
    if s.len() < cap {
        assert(crate::folds::seq_to_int(s.push(v)) =~= crate::folds::seq_to_int(s).push(
            v as int,
        ));
    } else {
        assert(crate::folds::seq_to_int(s.drop_first().push(v))
            =~= crate::folds::seq_to_int(s).drop_first().push(v as int));
    }
}

/// Pushing into a ring of unsigned machine integers and then reading the
/// contents as mathematical integers is the same as pushing into the
/// abstract ring.
pub proof fn lemma_ring_push_u32_to_int(s: Seq<u32>, cap: nat, v: u32)
    requires
        cap >= 1,
    ensures
        crate::folds::seq_u32_to_int(ring_push(s, cap, v)) == ring_push(
            crate::folds::seq_u32_to_int(s),
            cap,
            v as int,
        ),
{
    if s.len() < cap {
        assert(crate::folds::seq_u32_to_int(s.push(v)) =~= crate::folds::seq_u32_to_int(s).push(
            v as int,
        ));
    } else {
        assert(crate::folds::seq_u32_to_int(s.drop_first().push(v))
            =~= crate::folds::seq_u32_to_int(s).drop_first().push(v as int));
    }
}

/// While a ring has spare capacity, pushes only append: after at most
/// `cap` pushes the contents are exactly the pushed values, in order.
pub proof fn lemma_ring_run_prefix<T>(cap: nat, vs: Seq<T>)
    requires
        vs.len() <= cap,
    ensures
        ring_run(cap, vs) == vs,
    decreases vs.len(),
{
    if vs.len() == 0 {
        assert(ring_run(cap, vs) =~= vs);
    } else {
        lemma_ring_run_prefix(cap, vs.drop_last());
        assert(ring_run(cap, vs) =~= vs);
    }
}

/// The window never holds more than its capacity, and holds exactly the
/// number of values pushed until the capacity is reached.
pub proof fn lemma_ring_run_len<T>(cap: nat, vs: Seq<T>)
    requires
        cap >= 1,
    ensures
        ring_run(cap, vs).len() <= cap,
        vs.len() <= cap ==> ring_run(cap, vs).len() == vs.len(),
        vs.len() >= cap ==> ring_run(cap, vs).len() == cap,
    decreases vs.len(),
{
    if vs.len() > 0 {
        lemma_ring_run_len(cap, vs.drop_last());
    }
}

/// FIFO law, first half: after any non-empty sequence of pushes, the last
/// element of the window is the most recently pushed value.
pub proof fn lemma_ring_run_last<T>(cap: nat, vs: Seq<T>)
    requires
        cap >= 1,
        vs.len() >= 1,
    ensures
        ring_run(cap, vs).len() >= 1,
        ring_run(cap, vs).last() == vs.last(),
{
    lemma_ring_run_len(cap, vs.drop_last());
}

/// FIFO law, second half: the push that first exceeds the capacity evicts
/// exactly the first-pushed value, and later pushes evict the oldest
/// surviving value, so that the window is always the last `cap` values.
pub proof fn lemma_ring_run_suffix<T>(cap: nat, vs: Seq<T>)
    requires
        cap >= 1,
    ensures
        vs.len() >= cap ==> ring_run(cap, vs) == vs.subrange(
            vs.len() - cap,
            vs.len() as int,
        ),
        vs.len() == cap ==> ring_evicted(ring_run(cap, vs), cap) == Some(vs[0]),
    decreases vs.len(),
{
    if vs.len() == 0 {
    } else if vs.len() <= cap {
        lemma_ring_run_prefix(cap, vs);
        if vs.len() == cap {
            assert(vs.subrange(vs.len() - cap, vs.len() as int) =~= vs);
        }
    } else {
        lemma_ring_run_suffix(cap, vs.drop_last());
        lemma_ring_run_len(cap, vs.drop_last());
        assert(ring_run(cap, vs) =~= vs.subrange(vs.len() - cap, vs.len() as int));
    }
}

} // verus!
