//! The circular byte store: a fixed slot array with a write index (`head`) and
//! a read index (`tail`). One slot is always left unused, so `head == tail`
//! means empty and the store holds at most `capacity - 1` live bytes.
use vstd::prelude::*;

verus! {

/// Why a byte or a frame could not be written.
#[derive(Debug, Clone, Copy, PartialEq, Eq, Structural)]
pub enum FramingError {
    BufferFull,
}

/// The outcome of writing a byte or a frame.
#[derive(Debug, Clone, Copy, PartialEq, Eq, Structural)]
pub enum PushResult {
    Success,
    Failure(FramingError),
}

/// A fixed-capacity single-producer, single-consumer ring of bytes.
pub struct RingBuffer {
    buffer: Vec<u8>,
    head: usize,
    tail: usize,
}

/// Index `x` reduced once modulo `n`, for `x < 2 * n`.
pub open spec fn wrap(x: int, n: int) -> int {
    if x < n {
        x
    } else {
        x - n
    }
}

impl View for RingBuffer {
    type V = Seq<u8>;

    /// The live bytes, oldest first: from `tail` up to (not including) `head`.
    closed spec fn view(&self) -> Seq<u8> {
        let n = self.buffer@.len() as int;
        Seq::new(
            self.live_len(),
            |i: int| self.buffer@[wrap(self.tail as int + i, n)],
        )
    }
}

impl RingBuffer {
    /// The number of slots `N`; at most `N - 1` of them hold live bytes.
    pub closed spec fn capacity(&self) -> nat {
        self.buffer@.len()
    }

    /// Both indices lie inside a non-empty slot array.
    pub closed spec fn wf(&self) -> bool {
        &&& self.buffer@.len() >= 1
        &&& self.head < self.buffer@.len()
        &&& self.tail < self.buffer@.len()
    }

    closed spec fn live_len(&self) -> nat {
        if self.head >= self.tail {
            (self.head - self.tail) as nat
        } else {
            (self.head + self.buffer@.len() - self.tail) as nat
        }
    }

    /// A well-formed store never holds more than `capacity - 1` bytes.
    pub proof fn lemma_capacity_bound(&self)
        requires
            self.wf(),
        ensures
            self@.len() < self.capacity(),
    {
    }

    /// A store of two or more slots is never empty and full at once; with a
    /// single slot it is always both.
    pub proof fn lemma_empty_full_exclusive(&self)
        requires
            self.wf(),
        ensures
            self.capacity() >= 2 ==> !(self@.len() == 0 && self@.len() + 1 == self.capacity()),
            self.capacity() == 1 ==> self@.len() == 0 && self@.len() + 1 == self.capacity(),
    {
    }

    /// Creates an empty store of `size` slots.
    pub fn new(size: usize) -> (r: Self)
        requires
            size >= 1,
        ensures
            r.wf(),
            r.capacity() == size,
            r@ == Seq::<u8>::empty(),
    {
        let r = RingBuffer { buffer: vec![0; size], head: 0, tail: 0 };
        assert(r@ =~= Seq::<u8>::empty());
        r
    }

    /// The number of live bytes.
    pub fn len(&self) -> (r: usize)
        requires
            self.wf(),
        ensures
            r == self@.len(),
    {
        if self.head >= self.tail {
            self.head - self.tail
        } else {
            self.head + (self.buffer.len() - self.tail)
        }
    }

    /// Whether no byte is live (`head == tail`).
    pub fn is_empty(&self) -> (r: bool)
        requires
            self.wf(),
        ensures
            r == (self@.len() == 0),
    {
        self.head == self.tail
    }

    /// Whether one more byte would fill the sacrificed slot
    /// (`(head + 1) mod N == tail`).
    pub fn is_full(&self) -> (r: bool)
        requires
            self.wf(),
        ensures
            r == (self@.len() + 1 == self.capacity()),
    {
        let next = if self.head == self.buffer.len() - 1 {
            0
        } else {
            self.head + 1
        };
        next == self.tail
    }

    /// Appends `item` after the live bytes, unless the store is full; a
    /// refused push leaves the store as it was.
    pub fn push(&mut self, item: u8) -> (r: PushResult)
        requires
            old(self).wf(),
        ensures
            final(self).wf(),
            final(self).capacity() == old(self).capacity(),
            old(self)@.len() + 1 == old(self).capacity() ==> r == PushResult::Failure(
                FramingError::BufferFull,
            ) && *final(self) == *old(self),
            old(self)@.len() + 1 < old(self).capacity() ==> r == PushResult::Success
                && final(self)@ == old(self)@.push(item),
    {
        if self.is_full() {
            return PushResult::Failure(FramingError::BufferFull);
        }
        let ghost pre = self@;
        let h = self.head;
        self.buffer.set(h, item);
        self.head = if h == self.buffer.len() - 1 {
            0
        } else {
            h + 1
        };
        assert(self@ =~= pre.push(item));
        PushResult::Success
    }

    /// Removes and returns the oldest live byte; on an empty store returns
    /// `None` and leaves the store as it was.
    pub fn pop(&mut self) -> (r: Option<u8>)
        requires
            old(self).wf(),
        ensures
            final(self).wf(),
            final(self).capacity() == old(self).capacity(),
            old(self)@.len() == 0 ==> r == None::<u8> && *final(self) == *old(self),
            old(self)@.len() > 0 ==> r == Some(old(self)@[0])
                && final(self)@ == old(self)@.drop_first(),
    {
        if self.head == self.tail {
            None
        } else {
            let ghost pre = self@;
            let t = self.tail;
            let item = self.buffer[t];
            self.tail = if t == self.buffer.len() - 1 {
                0
            } else {
                t + 1
            };
            assert(self@ =~= pre.drop_first());
            Some(item)
        }
    }

    /// Reads the live byte `offset` places after the oldest one, without
    /// consuming anything.
    pub fn peek_at(&self, offset: usize) -> (r: u8)
        requires
            self.wf(),
            offset < self@.len(),
        ensures
            r == self@[offset as int],
    {
        let n = self.buffer.len();
        if offset < n - self.tail {
            self.buffer[self.tail + offset]
        } else {
            self.buffer[offset - (n - self.tail)]
        }
    }
}

} // verus!
