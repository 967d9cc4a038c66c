//! A buffer that keeps the most recent values pushed into it, up to a fixed
//! capacity, oldest first.
use vstd::prelude::*;
use vstd::slice::slice_subrange;

verus! {

/// What a buffer of the given capacity holds after `value` is pushed onto
/// `samples`: the value is appended and, where the buffer was full, the oldest
/// sample leaves. A buffer of capacity zero stays empty.
pub open spec fn pushed<T>(samples: Seq<T>, capacity: nat, value: T) -> Seq<T> {
    if capacity == 0 {
        samples
    } else if samples.len() < capacity {
        samples.push(value)
    } else {
        samples.drop_first().push(value)
    }
}

/// What a buffer holds after each of `values` is pushed in turn.
pub open spec fn pushed_all<T>(samples: Seq<T>, capacity: nat, values: Seq<T>) -> Seq<T>
    decreases values.len(),
{
    if values.len() == 0 {
        samples
    } else {
        pushed(pushed_all(samples, capacity, values.drop_last()), capacity, values.last())
    }
}

/// A FIFO buffer of fixed capacity. Once full, each push evicts the oldest
/// value. Values are kept in a circular array: until the array is full they
/// are appended, and from then on the newest overwrites the oldest, at `head`.
/// A capacity of zero gives a buffer that stays empty.
#[derive(Debug)]
pub struct RingBuffer<T> {
    inner: Vec<T>,
    head: usize,
    capacity: usize,
}

impl<T> View for RingBuffer<T> {
    type V = Seq<T>;

    /// The samples, oldest first.
    closed spec fn view(&self) -> Seq<T> {
        self.inner@.subrange(self.head as int, self.inner@.len() as int) + self.inner@.subrange(
            0,
            self.head as int,
        )
    }
}

impl<T> RingBuffer<T> {
    /// The fixed capacity.
    pub closed spec fn spec_capacity(&self) -> nat {
        self.capacity as nat
    }

    /// The array holds at most `capacity` values, and the oldest sits at
    /// `head`, which moves off zero only once the array is full.
    pub closed spec fn wf(&self) -> bool {
        &&& self.inner@.len() <= self.capacity
        &&& self.inner@.len() < self.capacity ==> self.head == 0
        &&& self.head == 0 || self.head < self.inner@.len()
    }

    /// A well-formed buffer holds at most its capacity.
    pub proof fn lemma_wf(&self)
        requires
            self.wf(),
        ensures
            self@.len() <= self.spec_capacity(),
    {
    }

    /// An empty buffer that keeps up to `capacity` values.
    pub fn new(capacity: usize) -> (r: Self)
        ensures
            r.wf(),
            r@ == Seq::<T>::empty(),
            r.spec_capacity() == capacity,
    {
        let r = RingBuffer { inner: Vec::new(), head: 0, capacity };
        assert(r@ =~= Seq::<T>::empty());
        r
    }

    /// Appends `value`; where the buffer is full, the oldest value leaves first.
    pub fn push(&mut self, value: T)
        requires
            old(self).wf(),
        ensures
            final(self).wf(),
            final(self).spec_capacity() == old(self).spec_capacity(),
            final(self)@ == pushed(old(self)@, old(self).spec_capacity(), value),
    {
        let ghost before = self@;
        if self.capacity == 0 {
            return;
        }
        if self.inner.len() < self.capacity {
            self.inner.push(value);
            assert(self@ =~= before.push(value));
        } else {
            let head = self.head;
            self.inner.set(head, value);
            self.head = if head + 1 == self.inner.len() {
                0
            } else {
                head + 1
            };
            assert(self@ =~= before.drop_first().push(value));
        }
    }

    /// The samples, oldest first: the first slice, then the second.
    pub fn as_slices(&self) -> (r: (&[T], &[T]))
        requires
            self.wf(),
        ensures
            r.0@ + r.1@ == self@,
    {
        let all = self.inner.as_slice();
        let newer = slice_subrange(all, 0, self.head);
        let older = slice_subrange(all, self.head, self.inner.len());
        (older, newer)
    }

    /// Number of samples held.
    pub fn len(&self) -> (r: usize)
        requires
            self.wf(),
        ensures
            r == self@.len(),
            r <= self.spec_capacity(),
    {
        self.inner.len()
    }

    /// The fixed capacity.
    pub fn capacity(&self) -> (r: usize)
        ensures
            r == self.spec_capacity(),
    {
        self.capacity
    }

    /// Removes every sample; the capacity stays.
    pub fn truncate(&mut self)
        ensures
            final(self).wf(),
            final(self)@ == Seq::<T>::empty(),
            final(self).spec_capacity() == old(self).spec_capacity(),
    {
        self.inner.clear();
        self.head = 0;
        assert(self@ =~= Seq::<T>::empty());
    }
}

/// However many values are pushed into an empty buffer of positive capacity,
/// it holds the most recent `capacity` of them (all of them, if fewer were
/// pushed), oldest first.
pub proof fn lemma_keeps_most_recent<T>(capacity: nat, values: Seq<T>)
    requires
        capacity > 0,
    ensures
        pushed_all(Seq::empty(), capacity, values) == values.subrange(
            if values.len() > capacity {
                values.len() - capacity
            } else {
                0
            },
            values.len() as int,
        ),
    decreases values.len(),
{
    if values.len() > 0 {
        let init = values.drop_last();
        lemma_keeps_most_recent(capacity, init);
        let start = if values.len() > capacity {
            values.len() - capacity
        } else {
            0
        };
        let prev_start = if init.len() > capacity {
            init.len() - capacity
        } else {
            0
        };
        if init.len() < capacity {
            assert(init.subrange(prev_start, init.len() as int).push(values.last()) =~= values.subrange(
                start,
                values.len() as int,
            ));
        } else {
            assert(init.subrange(prev_start, init.len() as int).drop_first().push(values.last())
                =~= values.subrange(start, values.len() as int));
        }
    } else {
        assert(values.subrange(0, 0) =~= Seq::<T>::empty());
    }
}

} // verus!
