//! The receive side of the connection: `reader_next` (the next byte the
//! application will read), `receive_next` (RCV.NXT), the FIN sequence
//! number once one has arrived, and the in-order delivery queue.
//!
//! A zero-length buffer in the queue is the end-of-stream marker pushed by
//! `push_fin`; it occupies one sequence number, like the FIN it stands for.

use vstd::prelude::*;
use crate::bytebuf::ByteBuf;
use crate::seqnum::{seq_add, seq_sub, seq_le, lemma_seq_sub_shift, SeqNumber};

verus! {

/// How many sequence numbers one queue entry occupies: a FIN marker
/// (zero-length buffer) occupies one, a data buffer its length.
pub open spec fn entry_span(b: Seq<u8>) -> nat {
    if b.len() == 0 {
        1nat
    } else {
        b.len()
    }
}

/// Total sequence-number span of the queued entries.
pub open spec fn queue_span(q: Seq<Seq<u8>>) -> nat
    decreases q.len(),
{
    if q.len() == 0 {
        0nat
    } else {
        entry_span(q[0]) + queue_span(q.skip(1))
    }
}

/// Appending an entry grows the span by that entry's span.
pub proof fn lemma_queue_span_push(q: Seq<Seq<u8>>, b: Seq<u8>)
    ensures
        queue_span(q.push(b)) == queue_span(q) + entry_span(b),
    decreases q.len(),
{
    if q.len() == 0 {
        assert(q.push(b)[0] == b);
        assert(q.push(b).skip(1) =~= Seq::<Seq<u8>>::empty());
        assert(queue_span(q.push(b)) == entry_span(b) + queue_span(Seq::<Seq<u8>>::empty()));
    } else {
        assert(q.push(b)[0] == q[0]);
        assert(q.push(b).skip(1) =~= q.skip(1).push(b));
        lemma_queue_span_push(q.skip(1), b);
        assert(queue_span(q.push(b)) == entry_span(q[0]) + queue_span(q.skip(1).push(b)));
    }
}

/// What `pop` returns when the queue is non-empty: the whole head, or its
/// first `s` bytes when a shorter size is asked and the head is longer.
pub open spec fn pop_result(q: Seq<Seq<u8>>, size: Option<int>) -> Seq<u8>
    recommends
        q.len() > 0,
{
    match size {
        Option::None => q[0],
        Option::Some(s) => if q[0].len() > s {
            q[0].take(s)
        } else {
            q[0]
        },
    }
}

/// What the queue holds after a non-empty `pop`: the head is consumed, or
/// its popped front is cut off and the tail stays at the front.
pub open spec fn pop_rest(q: Seq<Seq<u8>>, size: Option<int>) -> Seq<Seq<u8>>
    recommends
        q.len() > 0,
{
    match size {
        Option::None => q.skip(1),
        Option::Some(s) => if q[0].len() > s {
            q.update(0, q[0].skip(s))
        } else {
            q.skip(1)
        },
    }
}

/// How far `reader_next` advances for a popped buffer: one sequence number
/// for the zero-length end-of-stream marker, else the byte count.
pub open spec fn pop_advance(r: Seq<u8>) -> nat {
    entry_span(r)
}

/// Pushing a buffer onto an empty queue and popping with its own length
/// returns the buffer byte for byte and leaves the queue empty again.
pub proof fn lemma_push_pop_roundtrip(b: Seq<u8>)
    requires
        b.len() > 0,
    ensures
        pop_result(Seq::<Seq<u8>>::empty().push(b), Option::Some(b.len() as int)) == b,
        pop_rest(Seq::<Seq<u8>>::empty().push(b), Option::Some(b.len() as int))
            =~= Seq::<Seq<u8>>::empty(),
{
}

/// The receive side of a connection.
pub struct Receiver {
    /// Sequence number of the next byte the application will read.
    pub reader_next_seq_no: SeqNumber,
    /// Sequence number of the next byte (or FIN) we expect to receive;
    /// RCV.NXT in RFC 793 terms.
    pub receive_next_seq_no: SeqNumber,
    /// The sequence number of the peer's FIN, once one has arrived.
    pub fin_seq_no: Option<SeqNumber>,
    /// In-order received data, ready for the application; front at index 0.
    pub recv_queue: Vec<ByteBuf>,
    /// Every byte ever delivered to the queue, in order.
    pub stream: Ghost<Seq<u8>>,
}

impl Receiver {
    /// The queued buffers' contents, front first.
    pub open spec fn queue(self) -> Seq<Seq<u8>> {
        self.recv_queue@.map(|i: int, b: ByteBuf| b@)
    }

    /// The queue accounts exactly for the sequence numbers between
    /// `reader_next` and `receive_next`, and that distance stays within
    /// half the sequence space so comparisons are meaningful.
    pub open spec fn wf(self) -> bool {
        &&& queue_span(self.queue())
            == seq_sub(self.receive_next_seq_no.val, self.reader_next_seq_no.val)
        &&& queue_span(self.queue()) < 0x8000_0000
    }

    pub fn new(reader_next_seq_no: SeqNumber, receive_next_seq_no: SeqNumber) -> (r: Receiver)
        requires
            reader_next_seq_no == receive_next_seq_no,
        ensures
            r.wf(),
            r.reader_next_seq_no == reader_next_seq_no,
            r.receive_next_seq_no == receive_next_seq_no,
            r.fin_seq_no is None,
            r.queue() =~= Seq::<Seq<u8>>::empty(),
            r.stream@ =~= Seq::<u8>::empty(),
    {
        let r = Receiver {
            reader_next_seq_no,
            receive_next_seq_no,
            fin_seq_no: Option::None,
            recv_queue: Vec::new(),
            stream: Ghost(Seq::empty()),
        };
        proof {
            assert(r.queue() =~= Seq::<Seq<u8>>::empty());
        }
        r
    }

    /// Number of buffers waiting to be read.
    pub fn queue_len(&self) -> (r: usize)
        ensures
            r == self.queue().len(),
    {
        self.recv_queue.len()
    }

    /// Append in-order data to the delivery queue and advance
    /// `receive_next` past it.
    pub fn push(&mut self, buf: ByteBuf)
        requires
            old(self).wf(),
            buf@.len() >= 1,
            queue_span(old(self).queue()) + buf@.len() < 0x8000_0000,
        ensures
            final(self).wf(),
            final(self).queue() =~= old(self).queue().push(buf@),
            final(self).receive_next_seq_no.val
                == seq_add(old(self).receive_next_seq_no.val, buf@.len() as u32),
            final(self).reader_next_seq_no == old(self).reader_next_seq_no,
            final(self).fin_seq_no == old(self).fin_seq_no,
            final(self).stream@ == old(self).stream@ + buf@,
    {
        let ghost bv = buf@;
        let buf_len: u32 = buf.len() as u32;
        proof {
            lemma_queue_span_push(self.queue(), bv);
        }
        self.stream = Ghost(self.stream@ + bv);
        self.recv_queue.push(buf);
        self.receive_next_seq_no = self.receive_next_seq_no.plus(buf_len);
        proof {
            assert(self.queue() =~= old(self).queue().push(bv));
        }
    }

    /// Append the end-of-stream marker for a consumed FIN, record the FIN's
    /// sequence number as consumed, and advance `receive_next` over the FIN
    /// (a FIN occupies one sequence number).
    pub fn push_fin(&mut self)
        requires
            old(self).wf(),
            old(self).fin_seq_no matches Some(f) && f == old(self).receive_next_seq_no,
            queue_span(old(self).queue()) + 1 < 0x8000_0000,
        ensures
            final(self).wf(),
            final(self).queue() =~= old(self).queue().push(Seq::<u8>::empty()),
            final(self).receive_next_seq_no.val
                == seq_add(old(self).receive_next_seq_no.val, 1),
            final(self).reader_next_seq_no == old(self).reader_next_seq_no,
            final(self).fin_seq_no == old(self).fin_seq_no,
            final(self).stream@ == old(self).stream@,
    {
        let marker = ByteBuf::new(0);
        proof {
            assert(marker@ =~= Seq::<u8>::empty());
            lemma_queue_span_push(self.queue(), marker@);
        }
        self.recv_queue.push(marker);
        self.receive_next_seq_no = self.receive_next_seq_no.plus(1);
        proof {
            assert(self.queue() =~= old(self).queue().push(Seq::<u8>::empty()));
        }
    }

    /// Take a buffer off the queue, or `None` when nothing is ready (the
    /// caller suspends).  With a size, a longer head is split: its front is
    /// returned and its tail stays at the front of the queue.  A returned
    /// zero-length buffer is the end-of-stream marker and advances
    /// `reader_next` by one.
    pub fn pop(&mut self, size: Option<usize>) -> (r: Option<ByteBuf>)
        requires
            old(self).wf(),
            size matches Some(s) ==> s >= 1,
        ensures
            final(self).wf(),
            old(self).queue().len() == 0 ==> r is None && *final(self) == *old(self),
            old(self).queue().len() > 0 ==> {
                &&& r matches Some(b)
                &&& b@ == pop_result(old(self).queue(), match size {
                    Option::Some(s) => Option::Some(s as int),
                    Option::None => Option::None,
                })
                &&& final(self).queue() =~= pop_rest(old(self).queue(), match size {
                    Option::Some(s) => Option::Some(s as int),
                    Option::None => Option::None,
                })
                &&& final(self).reader_next_seq_no.val
                    == seq_add(old(self).reader_next_seq_no.val, pop_advance(b@) as u32)
            },
            final(self).receive_next_seq_no == old(self).receive_next_seq_no,
            final(self).fin_seq_no == old(self).fin_seq_no,
            final(self).stream@ == old(self).stream@,
    {
        if self.recv_queue.len() == 0 {
            return Option::None;
        }
        let mut buf: ByteBuf = self.recv_queue.remove(0);
        proof {
            assert(old(self).queue().skip(1) =~= self.queue());
        }
        let ghost rest = self.queue();
        let returned: ByteBuf = match size {
            Option::Some(s) => {
                if buf.len() > s {
                    let front = buf.split_front(s);
                    // The unread tail goes back to the front of the queue.
                    self.recv_queue.insert(0, buf);
                    proof {
                        assert(self.queue() =~= rest.insert(0, old(self).queue()[0].skip(s as int)));
                        assert(self.queue() =~= pop_rest(old(self).queue(), Option::Some(s as int)));
                    }
                    front
                } else {
                    buf
                }
            },
            Option::None => buf,
        };
        let advance: u32 = if returned.len() > 0 {
            returned.len() as u32
        } else {
            1
        };
        proof {
            let q0 = old(self).queue();
            let head = q0[0];
            assert(queue_span(q0) == entry_span(head) + queue_span(q0.skip(1)));
            if let Some(s) = size {
                if head.len() > s {
                    assert(self.queue() =~= q0.update(0, head.skip(s as int)));
                    assert(self.queue()[0] == head.skip(s as int));
                    assert(self.queue().skip(1) =~= q0.skip(1));
                    assert(queue_span(self.queue())
                        == entry_span(head.skip(s as int)) + queue_span(q0.skip(1)));
                }
            }
            assert(advance <= queue_span(q0));
            lemma_seq_sub_shift(
                self.receive_next_seq_no.val,
                self.reader_next_seq_no.val,
                advance,
            );
        }
        self.reader_next_seq_no = self.reader_next_seq_no.plus(advance);
        Option::Some(returned)
    }

    /// Whether the peer's FIN, and all data before it, has been received:
    /// true once `receive_next` has passed the FIN's sequence number.
    pub fn fin_reached(&self) -> (r: bool)
        ensures
            r == (self.fin_seq_no matches Some(f)
                && seq_le(f.val, self.receive_next_seq_no.val)),
    {
        match self.fin_seq_no {
            Option::Some(f) => f.le(self.receive_next_seq_no),
            Option::None => false,
        }
    }
}

} // verus!
