use vstd::prelude::*;
use crate::scalar::Scalar;

verus! {

/// A run of consecutive cells of an arena, named by arena-relative indices.
#[derive(Clone, Copy, Debug)]
pub struct Region {
    pub start: usize,
    pub len: usize,
}

impl Region {
    /// The index one past the last cell of the region.
    pub open spec fn end(&self) -> int {
        self.start + self.len
    }

    /// The two regions share no cell.
    pub open spec fn disjoint(&self, other: Region) -> bool {
        self.end() <= other.start || other.end() <= self.start
    }

    /// `index` names a cell of the region.
    pub open spec fn contains(&self, index: int) -> bool {
        self.start <= index < self.end()
    }
}

/// A flat buffer of fixed capacity handed out front to back by a moving
/// cursor, and reclaimed in bulk by moving the cursor back.
pub struct Arena<T> {
    buf: Vec<T>,
    offset: usize,
    peak: usize,
}

impl<T: Scalar> Arena<T> {
    /// The cells of the buffer, used and free alike.
    pub closed spec fn view(&self) -> Seq<T> {
        self.buf@
    }

    /// The cursor: the number of cells handed out and not yet retired.
    pub closed spec fn used(&self) -> int {
        self.offset as int
    }

    /// The highest position that the cursor has reached so far.
    pub closed spec fn peak(&self) -> int {
        self.peak as int
    }

    /// The number of cells of the buffer, fixed at creation.
    pub open spec fn capacity(&self) -> int {
        self@.len() as int
    }

    /// The cursor never passes the high-water mark, the high-water mark
    /// never passes the capacity, and the capacity is a length that a buffer
    /// in memory can have.
    pub open spec fn wf(&self) -> bool {
        0 <= self.used() <= self.peak() <= self.capacity() <= usize::MAX
    }

    /// The cells of `r`, in order.
    pub open spec fn slice(&self, r: Region) -> Seq<T> {
        self@.subrange(r.start as int, r.end())
    }

    /// `other` differs from `self` at most in the cells of `r`.
    pub open spec fn same_outside(&self, other: &Arena<T>, r: Region) -> bool {
        &&& other.used() == self.used()
        &&& other.peak() == self.peak()
        &&& other@.len() == self@.len()
        &&& forall|k: int| 0 <= k < self@.len() && !r.contains(k) ==> #[trigger] other@[k] == self@[k]
        &&& forall|s: Region|
            #![trigger other.slice(s)]
            #![trigger self.slice(s)]
            s.end() <= self.capacity() && s.disjoint(r) ==> other.slice(s) == self.slice(s)
    }

    /// Two arenas that agree on cursor, high-water mark and every cell
    /// outside `r` agree on every region that shares no cell with `r`.
    pub proof fn lemma_same_outside(&self, other: &Arena<T>, r: Region)
        requires
            other.used() == self.used(),
            other.peak() == self.peak(),
            other@.len() == self@.len(),
            forall|k: int| 0 <= k < self@.len() && !r.contains(k) ==> #[trigger] other@[k] == self@[k],
        ensures
            self.same_outside(other, r),
    {
        assert forall|s: Region|
            #![trigger other.slice(s)]
            #![trigger self.slice(s)]
            s.end() <= self.capacity() && s.disjoint(r) implies other.slice(s) == self.slice(
            s,
        ) by {
            assert(other.slice(s) =~= self.slice(s));
        }
    }

    /// A buffer of `capacity` cells, each zero, with the cursor at 0.
    pub fn create(capacity: usize) -> (arena: Arena<T>)
        ensures
            arena.wf(),
            arena.capacity() == capacity,
            arena.used() == 0,
            arena.peak() == 0,
            forall|k: int| 0 <= k < capacity ==> arena@[k] == T::zero_spec(),
    {
        let mut buf: Vec<T> = Vec::new();
        let mut k: usize = 0;
        while k < capacity
            invariant
                k <= capacity,
                buf@.len() == k,
                forall|q: int| 0 <= q < k ==> buf@[q] == T::zero_spec(),
            decreases capacity - k,
        {
            buf.push(T::zero());
            k = k + 1;
        }
        assert(buf.len() == capacity);
        Arena { buf, offset: 0, peak: 0 }
    }

    /// The number of cells of the buffer.
    pub fn size(&self) -> (n: usize)
        ensures
            n == self.capacity(),
    {
        self.buf.len()
    }

    /// The position of the cursor.
    pub fn mark(&self) -> (position: usize)
        ensures
            position == self.used(),
    {
        self.offset
    }

    /// The highest position that the cursor has reached since creation.
    pub fn high_water(&self) -> (position: usize)
        ensures
            position == self.peak(),
    {
        self.peak
    }

    /// Moves the cursor back to `position`, retiring every region handed
    /// out above it. No cell is changed.
    pub fn reset(&mut self, position: usize)
        requires
            old(self).wf(),
            position <= old(self).used(),
        ensures
            final(self).wf(),
            final(self).used() == position,
            final(self).peak() == old(self).peak(),
            final(self)@ == old(self)@,
            forall|s: Region| #[trigger] old(self).slice(s) == final(self).slice(s),
    {
        self.offset = position;
    }

    /// Hands out the `len` cells at the cursor and moves the cursor past
    /// them. The region lies above every region handed out before and not
    /// yet retired, so it shares no cell with any of them.
    pub fn allocate(&mut self, len: usize) -> (r: Region)
        requires
            old(self).wf(),
            old(self).used() + len <= old(self).capacity(),
        ensures
            final(self).wf(),
            r.start == old(self).used(),
            r.len == len,
            final(self).used() == old(self).used() + len,
            final(self).peak() == if old(self).peak() >= old(self).used() + len {
                old(self).peak()
            } else {
                old(self).used() + len
            },
            final(self)@ == old(self)@,
            forall|s: Region| #[trigger] old(self).slice(s) == final(self).slice(s),
            forall|s: Region| s.end() <= old(self).used() ==> #[trigger] r.disjoint(s),
    {
        let start = self.offset;
        let capacity = self.buf.len();
        assert(start + len <= capacity);
        self.offset = start + len;
        if self.offset > self.peak {
            self.peak = self.offset;
        }
        Region { start, len }
    }

    /// The cell at `index`.
    pub fn get(&self, index: usize) -> (value: T)
        requires
            index < self.capacity(),
        ensures
            value == self@[index as int],
    {
        self.buf[index]
    }

    /// Stores `value` in the cell at `index`.
    pub fn set(&mut self, index: usize, value: T)
        requires
            index < old(self).capacity(),
        ensures
            final(self)@ == old(self)@.update(index as int, value),
            final(self).used() == old(self).used(),
            final(self).peak() == old(self).peak(),
    {
        self.buf[index] = value;
    }
}

} // verus!
