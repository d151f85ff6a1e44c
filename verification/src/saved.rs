use vstd::prelude::*;

use crate::buffer::lemma_view_at_zero_origin;
use crate::buffer::spec_queue;
use crate::buffer::CircularBuffer;
use crate::errors::RingError;

verus! {

/// Walks an input sequence while keeping a circular buffer as a rolling
/// window over the most recently yielded elements.
///
/// Construction takes the first `count` elements of the input to pre-fill
/// the buffer newest-first, without yielding them.  Each later `next`
/// yields one further element and queues a copy of it, so between pulls the
/// buffer holds the `count` most recently yielded elements, the newest at
/// forward logical index 0.  Once the input is exhausted, `next` yields
/// nothing and leaves the buffer unchanged.
pub struct SavedValues<T> {
    buffer: CircularBuffer<T>,
    input: Vec<T>,
    cursor: usize,
}

impl<T> SavedValues<T> {
    /// The internal rolling-window buffer.
    pub closed spec fn buf(&self) -> CircularBuffer<T> {
        self.buffer
    }

    /// The whole input sequence.
    pub closed spec fn input_seq(&self) -> Seq<T> {
        self.input@
    }

    /// How many input elements have been taken so far, the pre-fill
    /// included.
    pub closed spec fn cursor(&self) -> nat {
        self.cursor as nat
    }

    /// The rolling window in forward logical order, newest first.
    pub open spec fn history(&self) -> Seq<T> {
        self.buf()@
    }

    /// Validity: the buffer is well formed and holds exactly the last
    /// `history().len()` elements taken from the input, newest first.
    pub open spec fn wf(&self) -> bool {
        &&& self.buf().wf()
        &&& self.history().len() <= self.cursor() <= self.input_seq().len()
        &&& self.history() == self.input_seq().subrange(
            self.cursor() - self.history().len(),
            self.cursor() as int,
        ).reverse()
    }

    /// Read access to the rolling-window buffer between pulls.
    pub fn buffer(&self) -> (r: &CircularBuffer<T>)
        ensures
            *r == self.buf(),
    {
        &self.buffer
    }

    /// Returns a reference to the element of the rolling window at forward
    /// logical index `i` (0 is the most recently yielded element).
    /// Out-of-range indices loop around.
    pub fn get(&self, i: usize) -> (r: &T)
        requires
            self.wf(),
        ensures
            *r == self.history()[(i as int) % (self.history().len() as int)],
    {
        self.buffer.get(i)
    }
}

impl<T: Copy> SavedValues<T> {
    /// Builds the adaptor over `input`, pre-filling a buffer of capacity
    /// `count` with the first `count` input elements, newest first.
    /// Rejects a zero capacity, and an input with fewer than `count`
    /// elements; no partially built adaptor escapes.
    pub fn new(input: Vec<T>, count: usize) -> (r: Result<Self, RingError>)
        ensures
            r is Ok <==> (0 < count <= input@.len()),
            r matches Ok(s) ==> {
                &&& s.wf()
                &&& s.input_seq() == input@
                &&& s.cursor() == count as nat
                &&& s.history() == input@.take(count as int).reverse()
            },
            r matches Err(e) ==> e == (if count == 0 {
                RingError::InvalidCapacity
            } else {
                RingError::InsufficientInput
            }),
    {
        if count == 0 {
            return Err(RingError::InvalidCapacity);
        }
        if input.len() < count {
            return Err(RingError::InsufficientInput);
        }
        let mut storage: Vec<T> = Vec::new();
        let mut j: usize = 0;
        while j < count
            invariant
                0 < count <= input@.len(),
                j <= count,
                storage@.len() == j as nat,
                forall|t: int| 0 <= t < j ==> storage@[t] == input@[count - 1 - t],
            decreases count - j,
        {
            let x = input[count - 1 - j];
            storage.push(x);
            j += 1;
        }
        let buffer = CircularBuffer::from_raw_parts(storage, 0);
        let s = SavedValues { buffer, input, cursor: count };
        proof {
            lemma_view_at_zero_origin(s.buf().storage_seq());
            assert(s.history() =~= s.input_seq().take(count as int).reverse());
            assert(s.history() =~= s.input_seq().subrange(
                s.cursor() - s.history().len(),
                s.cursor() as int,
            ).reverse());
        }
        Ok(s)
    }

    /// Pulls the next element of the input, if any: queues a copy of it
    /// into the rolling window, evicting the oldest saved element, and
    /// yields it.  On an exhausted input, yields nothing and changes
    /// nothing.
    pub fn next(&mut self) -> (r: Option<T>)
        requires
            old(self).wf(),
        ensures
            final(self).wf(),
            final(self).input_seq() == old(self).input_seq(),
            final(self).history().len() == old(self).history().len(),
            old(self).cursor() < old(self).input_seq().len() ==> {
                &&& r == Some(old(self).input_seq()[old(self).cursor() as int])
                &&& final(self).cursor() == old(self).cursor() + 1
                &&& final(self).history() == spec_queue(
                    old(self).history(),
                    old(self).input_seq()[old(self).cursor() as int],
                )
            },
            old(self).cursor() >= old(self).input_seq().len() ==> r is None && *final(self)
                == *old(self),
    {
        if self.cursor < self.input.len() {
            let x = self.input[self.cursor];
            self.buffer.queue(x);
            self.cursor = self.cursor + 1;
            proof {
                assert(self.history() =~= self.input_seq().subrange(
                    self.cursor() - self.history().len(),
                    self.cursor() as int,
                ).reverse());
            }
            Some(x)
        } else {
            None
        }
    }
}

} // verus!
