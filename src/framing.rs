//! Message framing over the ring store.
//!
//! A frame is the payload, one checksum byte (the exclusive-or of the payload)
//! and the terminator byte `0`. Callers keep `0` out of payloads, but a
//! checksum may be `0`. A reader therefore takes the first `0` it meets as
//! the terminator, unless the next byte is a `0` too and the bytes before the
//! first one fold to zero: then the first one is a zero checksum and the
//! second one the terminator.
//!
//! The format has two limits that no reading rule removes:
//! - A frame whose checksum is not `0`, followed by the frame of an empty
//!   payload, reads as one frame whose payload ends with that checksum:
//!   writing `[1, 2]` and then `[]` stores `[1, 2, 3, 0, 0, 0]`, which reads
//!   back as `[1, 2, 3]`.
//! - A corrupted frame whose checksum was `0` is reported as a mismatch that
//!   ends at that checksum byte. Its terminator stays behind, and the next
//!   read reports it as a frame without a checksum.
use vstd::prelude::*;
use crate::checksum::{checksum, xor_fold, lemma_xor_fold_update};
use crate::ring_buffer::{FramingError, PushResult, RingBuffer};

verus! {

/// Why a frame could not be read.
#[derive(Debug, Clone, Copy, PartialEq, Eq, Structural)]
pub enum ReadError {
    /// The store ran out before a terminator.
    Truncated,
    /// The checksum byte does not match the payload, or is missing.
    ChecksumMismatch,
}

/// The outcome of reading one frame.
#[derive(Debug, PartialEq, Eq)]
pub enum FlushResult {
    Success(Vec<u8>),
    Failure(ReadError),
}

/// The terminator byte that ends every frame.
pub const TERMINATOR: u8 = 0;

/// The bytes written for `payload`: payload, checksum, terminator.
pub open spec fn frame(payload: Seq<u8>) -> Seq<u8> {
    payload + seq![xor_fold(payload), TERMINATOR]
}

/// No byte of `s` is the terminator.
pub open spec fn terminator_free(s: Seq<u8>) -> bool {
    forall|k: int| 0 <= k < s.len() ==> s[k] != TERMINATOR
}

/// The index of the first terminator byte in `s`, or `s.len()` if none.
pub open spec fn zero_pos(s: Seq<u8>) -> nat
    decreases s.len(),
{
    if s.len() == 0 {
        0
    } else if s[0] == TERMINATOR {
        0
    } else {
        1 + zero_pos(s.drop_first())
    }
}

/// Whether the first `0` of `s`, at `j`, is read as a zero checksum: it is
/// directly followed by another `0` and the bytes before it fold to zero.
pub open spec fn zero_checksum_at(s: Seq<u8>, j: int) -> bool {
    &&& j + 1 < s.len()
    &&& s[j + 1] == TERMINATOR
    &&& xor_fold(s.take(j)) == 0
}

/// How many bytes reading the first frame of `s` consumes: up to and
/// including its terminator, or all of `s` when there is no terminator.
pub open spec fn frame_len(s: Seq<u8>) -> nat {
    let j = zero_pos(s) as int;
    if j >= s.len() {
        s.len()
    } else if zero_checksum_at(s, j) {
        (j + 2) as nat
    } else {
        (j + 1) as nat
    }
}

/// What reading the first frame of `s` yields.
pub open spec fn read_outcome(s: Seq<u8>) -> Result<Seq<u8>, ReadError> {
    let j = zero_pos(s) as int;
    if j >= s.len() {
        Err(ReadError::Truncated)
    } else if zero_checksum_at(s, j) {
        Ok(s.take(j))
    } else if j == 0 {
        Err(ReadError::ChecksumMismatch)
    } else if xor_fold(s.take(j - 1)) == s[j - 1] {
        Ok(s.take(j - 1))
    } else {
        Err(ReadError::ChecksumMismatch)
    }
}

/// A `FlushResult` as a `Result` over byte sequences.
pub open spec fn flush_view(r: FlushResult) -> Result<Seq<u8>, ReadError> {
    match r {
        FlushResult::Success(v) => Ok(v@),
        FlushResult::Failure(e) => Err(e),
    }
}

/// Whether the first frame of `s` is whole and fits in `budget` bytes.
pub open spec fn next_frame_fits(s: Seq<u8>, budget: nat) -> bool {
    zero_pos(s) < s.len() && frame_len(s) <= budget
}

/// How many bytes a drain with `budget` bytes removes from `s`.
pub open spec fn drain_consumed(s: Seq<u8>, budget: nat) -> nat
    decreases s.len(),
{
    if !next_frame_fits(s, budget) {
        0
    } else {
        let f = frame_len(s);
        match read_outcome(s) {
            Ok(_) => f + drain_consumed(s.skip(f as int), (budget - f) as nat),
            Err(_) => f,
        }
    }
}

/// The payloads that a drain with `budget` bytes returns from `s`.
pub open spec fn drain_outcome(s: Seq<u8>, budget: nat) -> Result<Seq<Seq<u8>>, ReadError>
    decreases s.len(),
{
    if !next_frame_fits(s, budget) {
        Ok(seq![])
    } else {
        let f = frame_len(s);
        match read_outcome(s) {
            Ok(p) => prepend(seq![p], drain_outcome(s.skip(f as int), (budget - f) as nat)),
            Err(e) => Err(e),
        }
    }
}

/// `done` followed by the payloads of `rest`, or the error of `rest`.
pub open spec fn prepend(done: Seq<Seq<u8>>, rest: Result<Seq<Seq<u8>>, ReadError>) -> Result<
    Seq<Seq<u8>>,
    ReadError,
> {
    match rest {
        Ok(ps) => Ok(done + ps),
        Err(e) => Err(e),
    }
}

/// The payloads of a drain's result as byte sequences.
pub open spec fn drain_view(r: Result<Vec<Vec<u8>>, ReadError>) -> Result<Seq<Seq<u8>>, ReadError> {
    match r {
        Ok(v) => Ok(v@.map_values(|m: Vec<u8>| m@)),
        Err(e) => Err(e),
    }
}

/// Whether the first `c` bytes of `s` are a run of whole frames.
pub open spec fn whole_frames(s: Seq<u8>, c: nat) -> bool
    decreases c,
{
    c == 0 || (zero_pos(s) < s.len() && 1 <= frame_len(s) <= c && whole_frames(
        s.skip(frame_len(s) as int),
        (c - frame_len(s)) as nat,
    ))
}

proof fn lemma_zero_pos(s: Seq<u8>, j: int)
    requires
        0 <= j <= s.len(),
        terminator_free(s.take(j)),
        j == s.len() || s[j] == TERMINATOR,
    ensures
        zero_pos(s) == j,
    decreases s.len(),
{
    if s.len() > 0 && j > 0 {
        assert(s[0] == s.take(j)[0]);
        assert forall|k: int| 0 <= k < j - 1 implies #[trigger] s.drop_first().take(j - 1)[k] != TERMINATOR by {
            assert(s.take(j)[k + 1] == s[k + 1]);
        }
        lemma_zero_pos(s.drop_first(), j - 1);
    }
}

impl RingBuffer {
    /// Pops one frame and checks its checksum. Bytes are consumed up to and
    /// including the terminator, or until the store is empty, whatever the
    /// outcome.
    pub fn flush_message_with_crc_check(&mut self) -> (r: FlushResult)
        requires
            old(self).wf(),
        ensures
            final(self).wf(),
            final(self).capacity() == old(self).capacity(),
            final(self)@ == old(self)@.skip(frame_len(old(self)@) as int),
            flush_view(r) == read_outcome(old(self)@),
    {
        let ghost s = self@;
        let mut message: Vec<u8> = Vec::new();
        let mut found = false;
        loop
            invariant_except_break
                self@ == s.skip(message@.len() as int),
            invariant
                self.wf(),
                self.capacity() == old(self).capacity(),
                message@.len() <= s.len(),
                message@ == s.take(message@.len() as int),
                terminator_free(message@),
            ensures
                found ==> message@.len() < s.len() && s[message@.len() as int] == TERMINATOR
                    && self@ == s.skip(message@.len() as int + 1),
                !found ==> message@.len() == s.len() && self@.len() == 0,
            decreases self@.len(),
        {
            match self.pop() {
                None => {
                    found = false;
                    break ;
                },
                Some(b) => {
                    if b == TERMINATOR {
                        found = true;
                        break ;
                    }
                    message.push(b);
                    assert(s.take(message@.len() as int) =~= message@);
                    assert(self@ =~= s.skip(message@.len() as int));
                },
            }
        }
        let ghost j = message@.len() as int;
        proof {
            assert(s.take(j) =~= message@);
            lemma_zero_pos(s, j);
        }
        if !found {
            return FlushResult::Failure(ReadError::Truncated);
        }
        let folded = checksum(message.as_slice());
        if folded == 0 && !self.is_empty() && self.peek_at(0) == TERMINATOR {
            self.pop();
            assert(self@ =~= s.skip(j + 2));
            return FlushResult::Success(message);
        }
        let crc_read = match message.pop() {
            None => {
                return FlushResult::Failure(ReadError::ChecksumMismatch);
            },
            Some(c) => c,
        };
        assert(message@ =~= s.take(j - 1));
        let crc_calc = checksum(message.as_slice());
        if crc_calc == crc_read {
            FlushResult::Success(message)
        } else {
            FlushResult::Failure(ReadError::ChecksumMismatch)
        }
    }

    /// The length of the next frame, terminator included, measured without
    /// consuming anything; `None` when no terminator is live.
    pub fn get_next_message_size(&self) -> (r: Option<usize>)
        requires
            self.wf(),
        ensures
            r == None::<usize> <==> zero_pos(self@) >= self@.len(),
            r matches Some(n) ==> n == frame_len(self@),
    {
        let len = self.len();
        let mut j: usize = 0;
        let mut folded: u8 = 0;
        while j < len
            invariant
                self.wf(),
                len == self@.len(),
                j <= len,
                terminator_free(self@.take(j as int)),
                folded == xor_fold(self@.take(j as int)),
            decreases len - j,
        {
            let b = self.peek_at(j);
            if b == TERMINATOR {
                proof {
                    lemma_zero_pos(self@, j as int);
                }
                if folded == 0 && j + 1 < len && self.peek_at(j + 1) == TERMINATOR {
                    return Some(j + 2);
                }
                return Some(j + 1);
            }
            assert(self@.take(j as int + 1) =~= self@.take(j as int).push(b));
            assert(self@.take(j as int + 1).drop_last() =~= self@.take(j as int));
            folded = folded ^ b;
            j = j + 1;
        }
        proof {
            assert(self@.take(j as int) =~= self@);
            lemma_zero_pos(self@, j as int);
        }
        None
    }

    /// Writes `message` as a frame: its bytes, their checksum and the
    /// terminator. When the store fills up the write stops there and the
    /// bytes already written stay.
    pub fn log_message_with_crc(&mut self, message: &[u8]) -> (r: PushResult)
        requires
            old(self).wf(),
        ensures
            final(self).wf(),
            final(self).capacity() == old(self).capacity(),
            old(self)@.len() + message@.len() + 2 < old(self).capacity() ==> r
                == PushResult::Success && final(self)@ == old(self)@ + frame(message@),
            old(self)@.len() + message@.len() + 2 >= old(self).capacity() ==> r
                == PushResult::Failure(FramingError::BufferFull) && final(self)@ == old(self)@
                + frame(message@).take(old(self).capacity() - 1 - old(self)@.len()),
    {
        let ghost s = self@;
        let ghost f = frame(message@);
        let ghost room = self.capacity() - 1 - s.len();
        proof {
            self.lemma_capacity_bound();
        }
        let mut i: usize = 0;
        while i < message.len()
            invariant
                self.wf(),
                self.capacity() == old(self).capacity(),
                s == old(self)@,
                room == self.capacity() - 1 - s.len(),
                f == frame(message@),
                i <= message@.len(),
                i <= room,
                self@ == s + f.take(i as int),
            decreases message@.len() - i,
        {
            proof {
                self.lemma_capacity_bound();
            }
            match self.push(message[i]) {
                PushResult::Success => {},
                PushResult::Failure(_) => {
                    assert(i == room);
                    return PushResult::Failure(FramingError::BufferFull);
                },
            }
            assert(f.take(i as int + 1) =~= f.take(i as int).push(message@[i as int]));
            i = i + 1;
        }
        let crc = checksum(message);
        match self.push(crc) {
            PushResult::Success => {},
            PushResult::Failure(_) => {
                return PushResult::Failure(FramingError::BufferFull);
            },
        }
        assert(f.take(i as int + 1) =~= f.take(i as int).push(crc));
        let r = self.push(TERMINATOR);
        assert(f.take(i as int + 2) =~= f.take(i as int + 1).push(TERMINATOR));
        assert(f.take(i as int + 2) =~= f);
        match r {
            PushResult::Success => PushResult::Success,
            PushResult::Failure(_) => PushResult::Failure(FramingError::BufferFull),
        }
    }

    /// Pops whole frames while the next one is complete and fits in what is
    /// left of `max_bytes` (terminators included), and returns their payloads
    /// in order. A bad checksum fails the whole call, with the bad frame
    /// consumed; the store is always left at a frame boundary.
    pub fn dma_flush_with_crc_check(&mut self, max_bytes: usize) -> (r: Result<
        Vec<Vec<u8>>,
        ReadError,
    >)
        requires
            old(self).wf(),
        ensures
            final(self).wf(),
            final(self).capacity() == old(self).capacity(),
            final(self)@ == old(self)@.skip(drain_consumed(old(self)@, max_bytes as nat) as int),
            drain_view(r) == drain_outcome(old(self)@, max_bytes as nat),
    {
        let ghost s = self@;
        let ghost b = max_bytes as nat;
        let mut out: Vec<Vec<u8>> = Vec::new();
        let mut sent: usize = 0;
        loop
            invariant
                self.wf(),
                self.capacity() == old(self).capacity(),
                s == old(self)@,
                b == max_bytes as nat,
                sent <= max_bytes,
                sent <= s.len(),
                self@ == s.skip(sent as int),
                drain_consumed(s, b) == sent + drain_consumed(self@, (b - sent) as nat),
                drain_outcome(s, b) == prepend(
                    out@.map_values(|m: Vec<u8>| m@),
                    drain_outcome(self@, (b - sent) as nat),
                ),
            ensures
                !next_frame_fits(self@, (b - sent) as nat),
            decreases self@.len(),
        {
            let size = match self.get_next_message_size() {
                None => {
                    break ;
                },
                Some(n) => n,
            };
            if size > max_bytes - sent {
                break ;
            }
            let ghost cur = self@;
            let ghost done = out@.map_values(|m: Vec<u8>| m@);
            match self.flush_message_with_crc_check() {
                FlushResult::Success(m) => {
                    out.push(m);
                    proof {
                        let p = m@;
                        let rest = drain_outcome(self@, (b - sent - size) as nat);
                        assert(out@.map_values(|m: Vec<u8>| m@) =~= done.push(p));
                        match rest {
                            Ok(ps) => {
                                assert(done + (seq![p] + ps) =~= done.push(p) + ps);
                            },
                            Err(_) => {},
                        }
                    }
                },
                FlushResult::Failure(e) => {
                    return Err(e);
                },
            }
            sent = sent + size;
            assert(self@ =~= s.skip(sent as int));
        }
        assert(out@.map_values(|m: Vec<u8>| m@) + seq![] =~= out@.map_values(|m: Vec<u8>| m@));
        Ok(out)
    }
}

/// How the first frame of `q + [c, 0] + rest` reads, for a terminator-free
/// `q`: as `q` when `c` is its checksum, as a mismatch otherwise. A frame
/// whose zero checksum does not match ends at that checksum byte.
proof fn lemma_frame_shape(q: Seq<u8>, c: u8, rest: Seq<u8>)
    requires
        terminator_free(q),
        xor_fold(q) != c || rest.len() == 0 || rest[0] != TERMINATOR,
    ensures
        zero_pos(q + seq![c, TERMINATOR] + rest) < (q + seq![c, TERMINATOR] + rest).len(),
        frame_len(q + seq![c, TERMINATOR] + rest) == if c == TERMINATOR && xor_fold(q) != 0 {
            q.len() + 1
        } else {
            q.len() + 2
        },
        read_outcome(q + seq![c, TERMINATOR] + rest) == if xor_fold(q) == c {
            Ok::<Seq<u8>, ReadError>(q)
        } else {
            Err(ReadError::ChecksumMismatch)
        },
{
    let t = q + seq![c, TERMINATOR] + rest;
    let n = q.len() as int;
    assert(t.take(n) =~= q);
    if c == TERMINATOR {
        lemma_zero_pos(t, n);
        if xor_fold(q) != 0 {
            assert(!zero_checksum_at(t, n));
            let a = xor_fold(q.drop_last());
            let l = q.last();
            assert(((a ^ l) == 0) == (a == l)) by (bit_vector);
            assert(t.take(n - 1) =~= q.drop_last());
        } else {
            assert(zero_checksum_at(t, n));
        }
    } else {
        assert(t.take(n + 1) =~= q.push(c));
        assert(q.push(c).drop_last() =~= q);
        lemma_zero_pos(t, n + 1);
        let a = xor_fold(q);
        assert(((a ^ c) == 0) == (a == c)) by (bit_vector);
        assert(!zero_checksum_at(t, n + 1));
    }
}

/// Round trip: for a payload free of terminator bytes, reading the frame
/// that writing it produced returns exactly the payload and consumes exactly
/// the frame, whether the frame stands alone or is followed by bytes that do
/// not start with a terminator (such as the frame of another non-empty
/// payload). A drain with room for the lone frame returns the payload alone.
pub proof fn lemma_round_trip(payload: Seq<u8>, rest: Seq<u8>, budget: nat)
    requires
        terminator_free(payload),
        rest.len() == 0 || rest[0] != TERMINATOR,
    ensures
        read_outcome(frame(payload) + rest) == Ok::<Seq<u8>, ReadError>(payload),
        frame_len(frame(payload) + rest) == frame(payload).len(),
        budget >= frame(payload).len() ==> drain_outcome(frame(payload), budget) == Ok::<
            Seq<Seq<u8>>,
            ReadError,
        >(seq![payload]),
{
    lemma_frame_shape(payload, xor_fold(payload), rest);
    lemma_frame_shape(payload, xor_fold(payload), seq![]);
    let f = frame(payload);
    assert(f + seq![] =~= f);
    if budget >= f.len() {
        assert(f.skip(f.len() as int) =~= Seq::<u8>::empty());
        assert(zero_pos(Seq::<u8>::empty()) == 0);
        assert(drain_outcome(Seq::<u8>::empty(), (budget - f.len()) as nat) == Ok::<
            Seq<Seq<u8>>,
            ReadError,
        >(seq![]));
        assert(seq![payload] + Seq::<Seq<u8>>::empty() =~= seq![payload]);
    }
}

/// A single flipped bit in the payload of a written frame is always
/// detected, whatever bytes follow the frame, by a read and by a drain with
/// room for the frame, as long as the flip does not turn the byte into a
/// terminator. The read consumes no more than the frame.
pub proof fn lemma_flip_detected(payload: Seq<u8>, i: int, bit: u8, rest: Seq<u8>, budget: nat)
    requires
        terminator_free(payload),
        0 <= i < payload.len(),
        bit < 8,
        payload[i] ^ (1u8 << bit) != TERMINATOR,
    ensures
        read_outcome(frame(payload).update(i, payload[i] ^ (1u8 << bit)) + rest) == Err::<
            Seq<u8>,
            ReadError,
        >(ReadError::ChecksumMismatch),
        frame_len(frame(payload).update(i, payload[i] ^ (1u8 << bit)) + rest) <= frame(
            payload,
        ).len(),
        budget >= frame(payload).len() ==> drain_outcome(
            frame(payload).update(i, payload[i] ^ (1u8 << bit)) + rest,
            budget,
        ) == Err::<Seq<Seq<u8>>, ReadError>(ReadError::ChecksumMismatch),
{
    let m = 1u8 << bit;
    let c = xor_fold(payload);
    let q = payload.update(i, payload[i] ^ m);
    let t = frame(payload).update(i, payload[i] ^ m) + rest;
    assert(m != 0) by (bit_vector)
        requires
            m == 1u8 << bit,
            bit < 8,
    ;
    assert((c ^ m) != c) by (bit_vector)
        requires
            m != 0,
    ;
    lemma_xor_fold_update(payload, i, m);
    assert(t =~= q + seq![c, TERMINATOR] + rest);
    lemma_frame_shape(q, c, rest);
}

/// A drain never removes more than its budget, and what it removes is a run
/// of whole frames, so the store is left at a frame boundary.
pub proof fn lemma_drain_within_budget(s: Seq<u8>, budget: nat)
    ensures
        drain_consumed(s, budget) <= budget,
        drain_consumed(s, budget) <= s.len(),
        whole_frames(s, drain_consumed(s, budget)),
    decreases s.len(),
{
    if next_frame_fits(s, budget) {
        let f = frame_len(s);
        if read_outcome(s) is Ok {
            lemma_drain_within_budget(s.skip(f as int), (budget - f) as nat);
        }
        assert(whole_frames(s.skip(f as int), 0));
    }
}

/// Reading a store that holds no terminator reports truncation and consumes
/// everything, leaving the store empty.
pub proof fn lemma_truncated(s: Seq<u8>)
    requires
        terminator_free(s),
    ensures
        read_outcome(s) == Err::<Seq<u8>, ReadError>(ReadError::Truncated),
        frame_len(s) == s.len(),
        s.skip(frame_len(s) as int) == Seq::<u8>::empty(),
{
    assert(s.take(s.len() as int) =~= s);
    lemma_zero_pos(s, s.len() as int);
    assert(s.skip(s.len() as int) =~= Seq::<u8>::empty());
}

/// Each of `segs` followed by a terminator, in order.
pub open spec fn join_terminated(segs: Seq<Seq<u8>>) -> Seq<u8>
    decreases segs.len(),
{
    if segs.len() == 0 {
        Seq::empty()
    } else {
        segs[0] + seq![TERMINATOR] + join_terminated(segs.drop_first())
    }
}

/// A drain, whether it succeeds or fails, leaves the store at a frame
/// boundary: on a store made of non-empty terminator-free runs, each ended
/// by a terminator, followed by an unterminated tail, what remains is the
/// same runs from some run on, followed by the same tail.
pub proof fn lemma_drain_keeps_segments(segs: Seq<Seq<u8>>, rest: Seq<u8>, budget: nat)
    requires
        forall|k: int| 0 <= k < segs.len() ==> #[trigger] segs[k].len() > 0 && terminator_free(
            segs[k],
        ),
        terminator_free(rest),
    ensures
        exists|j: int|
            0 <= j <= segs.len() && (join_terminated(segs) + rest).skip(
                drain_consumed(join_terminated(segs) + rest, budget) as int,
            ) == join_terminated(#[trigger] segs.skip(j)) + rest,
    decreases segs.len(),
{
    let s = join_terminated(segs) + rest;
    assert(segs.skip(0) =~= segs);
    assert(s.skip(0) =~= s);
    if segs.len() == 0 {
        assert(s =~= rest);
        assert(s.take(s.len() as int) =~= s);
        lemma_zero_pos(s, s.len() as int);
        assert(s.skip(drain_consumed(s, budget) as int) == join_terminated(segs.skip(0)) + rest);
    } else {
        let seg = segs[0];
        let tail = segs.drop_first();
        let after = join_terminated(tail) + rest;
        let n = seg.len() as int;
        assert(s =~= seg + seq![TERMINATOR] + after);
        assert(s.take(n) =~= seg);
        lemma_zero_pos(s, n);
        if tail.len() > 0 {
            assert(tail[0] == segs[1]);
            assert(after[0] == tail[0][0]);
        }
        assert(after.len() == 0 || after[0] != TERMINATOR);
        assert(!zero_checksum_at(s, n));
        assert(frame_len(s) == n + 1);
        assert(s.skip(n + 1) =~= after);
        assert(segs.skip(1) =~= tail);
        if next_frame_fits(s, budget) {
            if read_outcome(s) is Ok {
                let b2 = (budget - (n + 1)) as nat;
                assert forall|k: int| 0 <= k < tail.len() implies #[trigger] tail[k].len() > 0
                    && terminator_free(tail[k]) by {
                    assert(tail[k] == segs[k + 1]);
                }
                lemma_drain_keeps_segments(tail, rest, b2);
                lemma_drain_within_budget(after, b2);
                assert(drain_consumed(s, budget) == n + 1 + drain_consumed(after, b2));
                let j2 = choose|j2: int|
                    0 <= j2 <= tail.len() && after.skip(drain_consumed(after, b2) as int)
                        == join_terminated(#[trigger] tail.skip(j2)) + rest;
                assert(tail.skip(j2) =~= segs.skip(j2 + 1));
                assert(s.skip(drain_consumed(s, budget) as int) =~= after.skip(
                    drain_consumed(after, b2) as int,
                ));
                assert(s.skip(drain_consumed(s, budget) as int) == join_terminated(
                    segs.skip(j2 + 1),
                ) + rest);
            } else {
                assert(s.skip(drain_consumed(s, budget) as int) == join_terminated(segs.skip(1))
                    + rest);
            }
        } else {
            assert(s.skip(drain_consumed(s, budget) as int) == join_terminated(segs.skip(0))
                + rest);
        }
    }
}

} // verus!
