//! The send side of the connection: SND.UNA, SND.NXT, SND.WND, the queue
//! of transmitted-but-unacknowledged segments (each stamped with its
//! transmission time for round-trip sampling), the queue of not-yet-sent
//! application bytes, the pending-FIN state, and the RTO estimator.
//!
//! The bytes held in the unacknowledged queue cover exactly the sequence
//! range `[SND.UNA, SND.NXT)`; acknowledgments peel them off the front.
//! Round-trip samples follow Karn's algorithm: a retransmitted segment is
//! never sampled.

use vstd::prelude::*;
use crate::bytebuf::ByteBuf;
use crate::rto::{add_sample_spec, RtoEstimator, RTT_SAMPLE_MAX_NS};
use crate::seqnum::{seq_add, seq_le, seq_sub, SeqNumber};
use crate::wscale::{pow2, scale_factor, MAX_WINDOW_SCALE_SHIFT};

verus! {

/// Clock values stay below 2^60 nanoseconds (over thirty years of uptime),
/// so sums of times and timeouts cannot overflow and every round-trip
/// sample fits the estimator's bound.
pub const CLOCK_MAX_NS: u64 = 0x1000_0000_0000_0000;

/// Most sequence numbers in flight at once: the 1-GiB window cap plus
/// headroom for one maximum segment and a FIN.
pub const FLIGHT_MAX: u32 = 0x4002_0000;

/// A transmitted, not yet fully acknowledged segment.
pub struct TxSegment {
    /// Sequence number of the segment's first byte.
    pub seq: SeqNumber,
    /// The payload bytes.
    pub data: ByteBuf,
    /// Whether the segment carries the connection's FIN (one sequence
    /// number after the data).
    pub fin: bool,
    /// When the segment was last transmitted.
    pub transmit_time_ns: u64,
    /// Karn's algorithm: false once retransmitted, so it is never sampled.
    pub sampleable: bool,
}

/// The abstract form of a transmitted segment.
pub struct TxSegModel {
    pub seq: u32,
    pub data: Seq<u8>,
    pub fin: bool,
    pub time: u64,
    pub sampleable: bool,
}

impl TxSegment {
    pub open spec fn model(self) -> TxSegModel {
        TxSegModel {
            seq: self.seq.val,
            data: self.data@,
            fin: self.fin,
            time: self.transmit_time_ns,
            sampleable: self.sampleable,
        }
    }
}

/// Sequence numbers a segment occupies: its bytes, plus one for a FIN.
pub open spec fn seg_span(s: TxSegModel) -> nat {
    s.data.len() + if s.fin {
        1nat
    } else {
        0nat
    }
}

pub open spec fn segs_view(v: Seq<TxSegment>) -> Seq<TxSegModel> {
    v.map(|i: int, s: TxSegment| s.model())
}

pub open spec fn segs_span(s: Seq<TxSegModel>) -> nat
    decreases s.len(),
{
    if s.len() == 0 {
        0nat
    } else {
        seg_span(s[0]) + segs_span(s.skip(1))
    }
}

pub proof fn lemma_segs_span_push(s: Seq<TxSegModel>, m: TxSegModel)
    ensures
        segs_span(s.push(m)) == segs_span(s) + seg_span(m),
    decreases s.len(),
{
    if s.len() == 0 {
        assert(s.push(m)[0] == m);
        assert(s.push(m).skip(1) =~= Seq::<TxSegModel>::empty());
        assert(segs_span(s.push(m)) == seg_span(m) + segs_span(Seq::<TxSegModel>::empty()));
    } else {
        assert(s.push(m)[0] == s[0]);
        assert(s.push(m).skip(1) =~= s.skip(1).push(m));
        lemma_segs_span_push(s.skip(1), m);
        assert(segs_span(s.push(m)) == seg_span(s[0]) + segs_span(s.skip(1).push(m)));
    }
}

/// All bytes carried by a run of segments, in order.
pub open spec fn segs_bytes(s: Seq<TxSegModel>) -> Seq<u8>
    decreases s.len(),
{
    if s.len() == 0 {
        Seq::empty()
    } else {
        s[0].data + segs_bytes(s.skip(1))
    }
}

pub proof fn lemma_segs_bytes_push(s: Seq<TxSegModel>, m: TxSegModel)
    ensures
        segs_bytes(s.push(m)) == segs_bytes(s) + m.data,
    decreases s.len(),
{
    if s.len() == 0 {
        assert(s.push(m)[0] == m);
        assert(s.push(m).skip(1) =~= Seq::<TxSegModel>::empty());
        assert(segs_bytes(Seq::<TxSegModel>::empty()) == Seq::<u8>::empty());
        assert(segs_bytes(s.push(m)) == m.data + Seq::<u8>::empty());
        assert(m.data + Seq::<u8>::empty() =~= segs_bytes(s) + m.data);
    } else {
        assert(s.push(m)[0] == s[0]);
        assert(s.push(m).skip(1) =~= s.skip(1).push(m));
        lemma_segs_bytes_push(s.skip(1), m);
        assert(segs_bytes(s.push(m)) == s[0].data + (segs_bytes(s.skip(1)) + m.data));
        assert(s[0].data + (segs_bytes(s.skip(1)) + m.data) =~= (s[0].data + segs_bytes(
            s.skip(1),
        )) + m.data);
    }
}

/// All bytes waiting in a queue of buffers, in order.
pub open spec fn bufs_bytes(q: Seq<Seq<u8>>) -> Seq<u8>
    decreases q.len(),
{
    if q.len() == 0 {
        Seq::empty()
    } else {
        q[0] + bufs_bytes(q.skip(1))
    }
}

/// Moving a chunk from the front of the unsent queue into a new segment
/// moves bytes without inventing or losing any.
pub proof fn lemma_chunk_conserved(un: Seq<TxSegModel>, q: Seq<Seq<u8>>, m: TxSegModel, k: int)
    requires
        q.len() > 0,
        0 < k <= q[0].len(),
        m.data == q[0].take(k),
    ensures
        segs_bytes(un.push(m)) + bufs_bytes(
            if k < q[0].len() {
                q.update(0, q[0].skip(k))
            } else {
                q.skip(1)
            },
        ) == segs_bytes(un) + bufs_bytes(q),
        bufs_bytes(
            if k < q[0].len() {
                q.update(0, q[0].skip(k))
            } else {
                q.skip(1)
            },
        ).len() == bufs_bytes(q).len() - k,
{
    lemma_segs_bytes_push(un, m);
    if k < q[0].len() {
        let q2 = q.update(0, q[0].skip(k));
        assert(q2.skip(1) =~= q.skip(1));
        assert(bufs_bytes(q2) == q[0].skip(k) + bufs_bytes(q.skip(1)));
        assert((segs_bytes(un) + m.data) + (q[0].skip(k) + bufs_bytes(q.skip(1))) =~= segs_bytes(
            un,
        ) + (q[0] + bufs_bytes(q.skip(1))));
    } else {
        assert(m.data =~= q[0]);
        assert((segs_bytes(un) + m.data) + bufs_bytes(q.skip(1)) =~= segs_bytes(un) + (q[0]
            + bufs_bytes(q.skip(1))));
    }
}

/// Segments sit back to back: each begins where the one before it ended,
/// and the first begins at `start`.
pub open spec fn segs_chained(s: Seq<TxSegModel>, start: u32) -> bool
    decreases s.len(),
{
    if s.len() == 0 {
        true
    } else {
        &&& s[0].seq == start
        &&& seg_span(s[0]) <= FLIGHT_MAX
        &&& segs_chained(s.skip(1), seq_add(start, seg_span(s[0]) as u32))
    }
}

/// A new segment placed at the end of the chain keeps it chained.
pub proof fn lemma_segs_chained_push(s: Seq<TxSegModel>, start: u32, m: TxSegModel)
    requires
        segs_chained(s, start),
        segs_span(s) + seg_span(m) <= FLIGHT_MAX,
        m.seq == seq_add(start, segs_span(s) as u32),
    ensures
        segs_chained(s.push(m), start),
    decreases s.len(),
{
    reveal_with_fuel(segs_chained, 3);
    if s.len() == 0 {
        assert(s.push(m)[0] == m);
        assert(s.push(m).skip(1) =~= Seq::<TxSegModel>::empty());
        assert(seq_add(start, 0) == start);
        assert(segs_chained(s.push(m), start));
    } else {
        assert(s.push(m)[0] == s[0]);
        assert(s.push(m).skip(1) =~= s.skip(1).push(m));
        let start1 = seq_add(start, seg_span(s[0]) as u32);
        crate::seqnum::lemma_seq_add_assoc(
            start,
            seg_span(s[0]) as u32,
            segs_span(s.skip(1)) as u32,
        );
        assert(m.seq == seq_add(start1, segs_span(s.skip(1)) as u32));
        lemma_segs_chained_push(s.skip(1), start1, m);
        assert(segs_chained(s.skip(1).push(m), start1));
        assert(segs_chained(s.push(m).skip(1), start1));
        assert(segs_chained(s.push(m), start));
    }
}

/// The chain after `n` sequence numbers have been acknowledged: fully
/// covered segments leave from the front; a partially covered head loses
/// its acknowledged prefix.
pub open spec fn pop_acked(s: Seq<TxSegModel>, n: int) -> Seq<TxSegModel>
    decreases s.len(),
{
    if s.len() == 0 || n <= 0 {
        s
    } else if seg_span(s[0]) <= n {
        pop_acked(s.skip(1), n - seg_span(s[0]))
    } else {
        s.update(
            0,
            TxSegModel {
                seq: seq_add(s[0].seq, n as u32),
                data: s[0].data.skip(n),
                ..s[0]
            },
        )
    }
}

/// Acknowledgment keeps the chain well formed: it is chained from the new
/// SND.UNA, its span shrinks by exactly the acknowledged count, its last
/// segment keeps its FIN, and times and sampling flags come from the old
/// chain.
pub proof fn lemma_pop_acked_wf(s: Seq<TxSegModel>, start: u32, n: int)
    requires
        segs_chained(s, start),
        0 <= n <= segs_span(s),
        segs_span(s) <= FLIGHT_MAX,
        forall|i: int| 0 <= i < s.len() ==> seg_span(#[trigger] s[i]) >= 1,
        forall|i: int| 0 <= i < s.len() - 1 ==> !(#[trigger] s[i]).fin,
    ensures
        segs_chained(pop_acked(s, n), seq_add(start, n as u32)),
        segs_span(pop_acked(s, n)) == segs_span(s) - n,
        pop_acked(s, n).len() <= s.len(),
        forall|i: int| 0 <= i < pop_acked(s, n).len()
            ==> seg_span(#[trigger] pop_acked(s, n)[i]) >= 1,
        forall|i: int| 0 <= i < pop_acked(s, n).len() - 1
            ==> !(#[trigger] pop_acked(s, n)[i]).fin,
        pop_acked(s, n).len() > 0 ==> pop_acked(s, n).last().fin == s.last().fin,
        forall|i: int| 0 <= i < pop_acked(s, n).len()
            ==> (#[trigger] pop_acked(s, n)[i]).time == s[s.len() - pop_acked(s, n).len()
                + i].time && pop_acked(s, n)[i].sampleable == s[s.len() - pop_acked(
                s,
                n,
            ).len() + i].sampleable,
    decreases s.len(),
{
    let r = pop_acked(s, n);
    if s.len() == 0 || n <= 0 {
        assert(seq_add(start, 0) == start as int);
    } else if seg_span(s[0]) <= n {
        let start1 = seq_add(start, seg_span(s[0]) as u32);
        assert(forall|i: int| 0 <= i < s.len() - 1 ==> #[trigger] s.skip(1)[i] == s[i + 1]);
        lemma_pop_acked_wf(s.skip(1), start1, n - seg_span(s[0]));
        crate::seqnum::lemma_seq_add_assoc(
            start,
            seg_span(s[0]) as u32,
            (n - seg_span(s[0])) as u32,
        );
        if s.len() > 1 {
            assert(s.skip(1).last() == s.last());
        }
    } else {
        let m = TxSegModel { seq: seq_add(s[0].seq, n as u32), data: s[0].data.skip(n), ..s[0] };
        assert(r =~= s.update(0, m));
        assert(r[0] == m);
        assert(r.skip(1) =~= s.skip(1));
        assert(seg_span(m) == seg_span(s[0]) - n);
        crate::seqnum::lemma_seq_add_assoc(start, n as u32, (seg_span(s[0]) - n) as u32);
        if s.len() > 1 {
            assert(r.last() == s.last());
        }
        assert(forall|i: int| 1 <= i < r.len() ==> #[trigger] r[i] == s[i]);
    }
}

/// Our FIN has been transmitted and its acknowledgment has arrived:
/// SND.UNA sits just past the FIN's sequence number.
pub open spec fn fin_acked_spec(s: Sender) -> bool {
    s.fin_seq matches Some(f) && seq_sub(s.una.val, f.val) == 1
}

/// What processing one acknowledgment does to the send side: the peer's
/// window is taken after scaling; an ACK of something in flight advances
/// SND.UNA to it, releases the acknowledged prefix of the unacknowledged
/// queue, and samples the round-trip time of a fully acknowledged,
/// never-retransmitted head segment; anything else leaves the queues and
/// SND.UNA alone.  This is the relational form of `process_ack`'s
/// contract, for callers that pass the effect on.
pub open spec fn ack_effect(s0: Sender, s1: Sender, ack: SeqNumber, window: u16, now: u64) -> bool {
    let delta = seq_sub(ack.val, s0.una.val) as int;
    let flight = s0.flight() as int;
    &&& s1.wnd == window * pow2(s0.wnd_scale as nat)
    &&& s1.nxt == s0.nxt
    &&& s1.mss == s0.mss
    &&& s1.wnd_scale == s0.wnd_scale
    &&& s1.fin_pending == s0.fin_pending
    &&& s1.fin_seq == s0.fin_seq
    &&& s1.unsent_view() == s0.unsent_view()
    &&& if 0 < delta <= flight {
        &&& s1.una.val == seq_add(s0.una.val, delta as u32)
        &&& s1.unacked_view() == pop_acked(s0.unacked_view(), delta)
        &&& s1.rto == ({
            let v = s0.unacked_view();
            if v.len() > 0 && seg_span(v[0]) <= delta && v[0].sampleable && now >= v[0].time {
                add_sample_spec(s0.rto, (now - v[0].time) as u64)
            } else {
                s0.rto
            }
        })
    } else {
        &&& s1.una == s0.una
        &&& s1.unacked_view() == s0.unacked_view()
        &&& s1.rto == s0.rto
    }
}

/// The send side of a connection.
pub struct Sender {
    /// SND.UNA: the oldest unacknowledged sequence number.
    pub una: SeqNumber,
    /// SND.NXT: the next sequence number to send.
    pub nxt: SeqNumber,
    /// SND.WND: the peer's advertised window, after scaling.
    pub wnd: u32,
    /// The send-side window scale shift from the handshake.
    pub wnd_scale: u8,
    /// Maximum segment size from the handshake.
    pub mss: usize,
    /// Transmitted, unacknowledged segments; oldest first.
    pub unacked: Vec<TxSegment>,
    /// Application bytes not yet sent; oldest first.
    pub unsent: Vec<ByteBuf>,
    /// A local close asked for a FIN that has not been transmitted yet.
    pub fin_pending: bool,
    /// The FIN's sequence number, once it has been transmitted.
    pub fin_seq: Option<SeqNumber>,
    /// The retransmission-timeout estimator.
    pub rto: RtoEstimator,
}

impl Sender {
    pub open spec fn unacked_view(self) -> Seq<TxSegModel> {
        segs_view(self.unacked@)
    }

    pub open spec fn unsent_view(self) -> Seq<Seq<u8>> {
        self.unsent@.map(|i: int, b: ByteBuf| b@)
    }

    /// How many sequence numbers are in flight: SND.NXT - SND.UNA.
    pub open spec fn flight(self) -> nat {
        seq_sub(self.nxt.val, self.una.val) as nat
    }

    pub open spec fn wf(self) -> bool {
        &&& self.wnd <= 0x4000_0000
        &&& self.wnd_scale <= MAX_WINDOW_SCALE_SHIFT
        &&& 1 <= self.mss <= 0x1_0000
        &&& segs_chained(self.unacked_view(), self.una.val)
        &&& segs_span(self.unacked_view()) == self.flight()
        &&& self.flight() <= FLIGHT_MAX
        &&& forall|i: int| 0 <= i < self.unacked_view().len()
            ==> seg_span(#[trigger] self.unacked_view()[i]) >= 1
        &&& forall|i: int| 0 <= i < self.unacked_view().len()
            ==> (#[trigger] self.unacked_view()[i]).time <= CLOCK_MAX_NS
        &&& forall|i: int| 0 <= i < self.unacked_view().len() - 1
            ==> !(#[trigger] self.unacked_view()[i]).fin
        &&& (self.fin_seq matches Some(f) ==> {
            &&& !self.fin_pending
            &&& seq_add(f.val, 1) == self.nxt.val
            &&& self.unsent@.len() == 0
            &&& (self.unacked_view().len() > 0 ==> self.unacked_view().last().fin)
        })
        &&& (self.fin_seq is None && self.unacked_view().len() > 0
            ==> !self.unacked_view().last().fin)
        &&& forall|i: int| 0 <= i < self.unsent_view().len()
            ==> (#[trigger] self.unsent_view()[i]).len() >= 1
        &&& self.rto.wf()
    }

    /// A fresh send side at the initial send sequence number, with the
    /// peer's window from the handshake.
    pub fn new(
        initial_seq_no: SeqNumber,
        send_window: u32,
        send_window_scale_shift: u8,
        mss: usize,
    ) -> (r: Sender)
        requires
            send_window <= 0x4000_0000,
            send_window_scale_shift <= MAX_WINDOW_SCALE_SHIFT,
            1 <= mss <= 0x1_0000,
        ensures
            r.wf(),
            r.una == initial_seq_no,
            r.nxt == initial_seq_no,
            r.wnd == send_window,
            r.wnd_scale == send_window_scale_shift,
            r.mss == mss,
            r.unacked_view() =~= Seq::<TxSegModel>::empty(),
            r.unsent_view() =~= Seq::<Seq<u8>>::empty(),
            !r.fin_pending,
            r.fin_seq is None,
            !r.rto.has_sample,
            r.rto.rto_ns == crate::rto::RTO_INITIAL_NS,
    {
        let r = Sender {
            una: initial_seq_no,
            nxt: initial_seq_no,
            wnd: send_window,
            wnd_scale: send_window_scale_shift,
            mss,
            unacked: Vec::new(),
            unsent: Vec::new(),
            fin_pending: false,
            fin_seq: Option::None,
            rto: RtoEstimator::new(),
        };
        proof {
            assert(r.unacked_view() =~= Seq::<TxSegModel>::empty());
            assert(r.unsent_view() =~= Seq::<Seq<u8>>::empty());
        }
        r
    }

    pub fn get_unacked_seq_no(&self) -> (r: SeqNumber)
        ensures
            r == self.una,
    {
        self.una
    }

    pub fn get_next_seq_no(&self) -> (r: SeqNumber)
        ensures
            r == self.nxt,
    {
        self.nxt
    }

    pub fn get_rto(&self) -> (r: u64)
        ensures
            r == self.rto.rto_ns,
    {
        self.rto.rto()
    }

    /// Queue application bytes for sending.  Rejected (by the control
    /// block) after a local close, so the FIN stays last.
    pub fn push(&mut self, buf: ByteBuf)
        requires
            old(self).wf(),
            !old(self).fin_pending,
            (old(self).fin_seq is None),
            buf@.len() >= 1,
        ensures
            final(self).wf(),
            final(self).unsent_view() =~= old(self).unsent_view().push(buf@),
            final(self).una == old(self).una,
            final(self).nxt == old(self).nxt,
            final(self).wnd == old(self).wnd,
            final(self).unacked_view() == old(self).unacked_view(),
            final(self).fin_pending == old(self).fin_pending,
            final(self).fin_seq == old(self).fin_seq,
            final(self).rto == old(self).rto,
            final(self).mss == old(self).mss,
            final(self).wnd_scale == old(self).wnd_scale,
    {
        self.unsent.push(buf);
        proof {
            assert(final(self).unsent_view() =~= old(self).unsent_view().push(buf@));
        }
    }

    /// A local close: ask for a FIN.  It is transmitted once the unsent
    /// queue has drained.
    pub fn push_fin(&mut self)
        requires
            old(self).wf(),
            !old(self).fin_pending,
            (old(self).fin_seq is None),
        ensures
            final(self).wf(),
            final(self).fin_pending,
            *final(self) == (Sender { fin_pending: true, ..*old(self) }),
    {
        self.fin_pending = true;
        proof {
            assert(self.unsent_view() =~= old(self).unsent_view());
            assert(self.unacked_view() =~= old(self).unacked_view());
        }
    }

    /// The FIN has been transmitted and acknowledged: SND.UNA has passed
    /// its sequence number.
    pub fn fin_acked(&self) -> (r: bool)
        ensures
            r == (self.fin_seq matches Some(f) && seq_sub(self.una.val, f.val) == 1),
    {
        match self.fin_seq {
            Option::Some(f) => self.una.minus(f) == 1,
            Option::None => false,
        }
    }

    /// When the head of the unacknowledged queue times out: its last
    /// transmission time plus the current RTO.
    pub fn next_rto_deadline(&self) -> (r: Option<u64>)
        requires
            self.wf(),
        ensures
            match r {
                Some(d) => self.unacked_view().len() > 0 && d == self.unacked_view()[0].time
                    + self.rto.rto_ns,
                None => self.unacked_view().len() == 0,
            },
    {
        if self.unacked.len() > 0 {
            let t: u64 = self.unacked[0].transmit_time_ns;
            Option::Some(t + self.rto.rto())
        } else {
            Option::None
        }
    }

    /// Process an acceptable acknowledgment: advance SND.UNA to `ack`,
    /// release fully acknowledged segments (trimming a partially covered
    /// head), sample the round-trip time of a fully acknowledged,
    /// never-retransmitted head segment, and take the peer's new window.
    /// An acknowledgment of nothing new, or of data never sent, changes
    /// only the window.
    pub fn process_ack(&mut self, ack: SeqNumber, wire_window: u16, now: u64)
        requires
            old(self).wf(),
            now <= CLOCK_MAX_NS,
        ensures
            final(self).wf(),
            final(self).wnd == wire_window * pow2(old(self).wnd_scale as nat),
            final(self).nxt == old(self).nxt,
            final(self).mss == old(self).mss,
            final(self).wnd_scale == old(self).wnd_scale,
            final(self).fin_pending == old(self).fin_pending,
            final(self).fin_seq == old(self).fin_seq,
            final(self).unsent_view() == old(self).unsent_view(),
            ({
                let delta = seq_sub(ack.val, old(self).una.val) as int;
                let flight = old(self).flight() as int;
                if 0 < delta <= flight {
                    &&& final(self).una.val == seq_add(old(self).una.val, delta as u32)
                    &&& final(self).unacked_view() == pop_acked(old(self).unacked_view(), delta)
                    &&& final(self).rto == ({
                        let v = old(self).unacked_view();
                        if v.len() > 0 && seg_span(v[0]) <= delta && v[0].sampleable
                            && now >= v[0].time {
                            add_sample_spec(old(self).rto, (now - v[0].time) as u64)
                        } else {
                            old(self).rto
                        }
                    })
                } else {
                    &&& final(self).una == old(self).una
                    &&& final(self).unacked_view() == old(self).unacked_view()
                    &&& final(self).rto == old(self).rto
                }
            }),
            // SND.UNA never moves backward, and never past SND.NXT.
            seq_le(old(self).una.val, final(self).una.val),
            seq_sub(final(self).una.val, old(self).una.val) <= old(self).flight(),
            seq_sub(old(self).nxt.val, final(self).una.val) <= old(self).flight(),
            ack_effect(*old(self), *final(self), ack, wire_window, now),
    {
        let ghost v0 = self.unacked_view();
        let ghost una0 = self.una.val;
        let factor: u32 = scale_factor(self.wnd_scale);
        proof {
            assert((wire_window as int) * (factor as int) <= 0x4000_0000int)
                by (nonlinear_arith)
                requires
                    wire_window <= 0xFFFF,
                    factor <= 16384,
            ;
        }
        self.wnd = (wire_window as u32) * factor;
        proof {
            assert(self.unacked_view() =~= old(self).unacked_view());
            assert(self.unsent_view() =~= old(self).unsent_view());
        }
        let delta: u32 = ack.minus(self.una);
        let flight: u32 = self.nxt.minus(self.una);
        if 0 < delta && delta <= flight {
            // Sample the head segment before releasing it: Karn's
            // algorithm skips retransmitted segments.
            if self.unacked.len() > 0 {
                proof {
                    assert(v0[0] == self.unacked@[0].model());
                    assert(seg_span(v0[0]) <= FLIGHT_MAX);
                }
                let head_span: u32 = self.unacked[0].data.len() as u32 + if self.unacked[0].fin {
                    1
                } else {
                    0
                };
                let head_time: u64 = self.unacked[0].transmit_time_ns;
                let head_sampleable: bool = self.unacked[0].sampleable;
                if head_span <= delta && head_sampleable && now >= head_time {
                    self.rto.add_sample(now - head_time);
                }
            }
            let ghost wnd1 = self.wnd;
            let ghost rto1 = self.rto;
            let mut remaining: u32 = delta;
            while remaining > 0
                invariant
                    self.una.val == una0,
                    self.nxt == old(self).nxt,
                    self.wnd == wnd1,
                    self.rto == rto1,
                    self.mss == old(self).mss,
                    self.wnd_scale == old(self).wnd_scale,
                    self.fin_pending == old(self).fin_pending,
                    self.fin_seq == old(self).fin_seq,
                    self.unsent@ == old(self).unsent@,
                    segs_chained(self.unacked_view(), seq_add(una0, (delta - remaining) as u32)),
                    segs_span(self.unacked_view()) == segs_span(v0) - (delta - remaining),
                    remaining <= segs_span(self.unacked_view()),
                    pop_acked(v0, delta as int) == pop_acked(
                        self.unacked_view(),
                        remaining as int,
                    ),
                    forall|i: int| 0 <= i < self.unacked_view().len()
                        ==> seg_span(#[trigger] self.unacked_view()[i]) >= 1,
                    forall|i: int| 0 <= i < self.unacked_view().len()
                        ==> (#[trigger] self.unacked_view()[i]).time <= CLOCK_MAX_NS,
                    forall|i: int| 0 <= i < self.unacked_view().len() - 1
                        ==> !(#[trigger] self.unacked_view()[i]).fin,
                    self.unacked_view().len() > 0 ==> self.unacked_view().last().fin
                        == v0.last().fin,
                    delta <= FLIGHT_MAX,
                    remaining <= delta,
                decreases remaining,
            {
                let ghost vcur = self.unacked_view();
                proof {
                    assert(vcur[0] == self.unacked@[0].model());
                    assert(seg_span(vcur[0]) <= FLIGHT_MAX);
                }
                let head_span: u32 = self.unacked[0].data.len() as u32 + if self.unacked[0].fin {
                    1
                } else {
                    0
                };
                if head_span <= remaining {
                    let seg: TxSegment = self.unacked.remove(0);
                    proof {
                        assert(self.unacked_view() =~= vcur.skip(1));
                        assert(forall|i: int| 0 <= i < vcur.len() - 1
                            ==> #[trigger] vcur.skip(1)[i] == vcur[i + 1]);
                        crate::seqnum::lemma_seq_add_assoc(
                            una0,
                            (delta - remaining) as u32,
                            head_span,
                        );
                        if vcur.len() > 1 {
                            assert(vcur.skip(1).last() == vcur.last());
                        }
                    }
                    remaining = remaining - head_span;
                } else {
                    let mut seg: TxSegment = self.unacked.remove(0);
                    proof {
                        assert(vcur[0] == seg.model());
                    }
                    seg.seq = seg.seq.plus(remaining);
                    seg.data.adjust(remaining as usize);
                    self.unacked.insert(0, seg);
                    proof {
                        let m = TxSegModel {
                            seq: seq_add(vcur[0].seq, remaining as u32),
                            data: vcur[0].data.skip(remaining as int),
                            ..vcur[0]
                        };
                        assert(self.unacked_view() =~= vcur.update(0, m));
                        assert(self.unacked_view()[0] == m);
                        assert(self.unacked_view().skip(1) =~= vcur.skip(1));
                        assert(seg_span(m) == seg_span(vcur[0]) - remaining);
                        crate::seqnum::lemma_seq_add_assoc(
                            una0,
                            (delta - remaining) as u32,
                            remaining,
                        );
                        if vcur.len() > 1 {
                            assert(self.unacked_view().last() == vcur.last());
                        }
                    }
                    remaining = 0;
                }
            }
            let ghost v_after_loop = self.unacked_view();
            self.una = ack;
            proof {
                assert(self.unacked_view() =~= v_after_loop);
                crate::seqnum::lemma_seq_sub_add(ack.val, una0);
                assert(self.una.val == seq_add(una0, delta));
                assert(pop_acked(v_after_loop, 0) == v_after_loop);
                crate::seqnum::lemma_seq_sub_shift(self.nxt.val, una0, delta);
                assert(self.unsent_view() =~= old(self).unsent_view());
            }
        }
    }

    /// Move up to `max_bytes` from the front of the unsent queue into a
    /// new segment at SND.NXT, stamped with `now` and sampleable.  Returns
    /// the segment's sequence number and a copy of its bytes for the wire;
    /// `None` when nothing is waiting.
    pub fn dequeue_chunk(&mut self, max_bytes: usize, now: u64) -> (r: Option<(SeqNumber, ByteBuf)>)
        requires
            old(self).wf(),
            1 <= max_bytes <= 0x1_0000,
            old(self).flight() + max_bytes <= FLIGHT_MAX,
            (old(self).fin_seq is None),
            now <= CLOCK_MAX_NS,
        ensures
            final(self).wf(),
            final(self).una == old(self).una,
            final(self).wnd == old(self).wnd,
            final(self).mss == old(self).mss,
            final(self).wnd_scale == old(self).wnd_scale,
            final(self).fin_pending == old(self).fin_pending,
            final(self).fin_seq == old(self).fin_seq,
            final(self).rto == old(self).rto,
            old(self).unsent_view().len() == 0 ==> r is None && *final(self) == *old(self),
            old(self).unsent_view().len() > 0 ==> ({
                let head = old(self).unsent_view()[0];
                let take = if head.len() > max_bytes {
                    max_bytes as int
                } else {
                    head.len() as int
                };
                &&& r matches Some((seq, chunk))
                &&& seq == old(self).nxt
                &&& chunk@ == head.take(take)
                &&& final(self).nxt.val == seq_add(old(self).nxt.val, take as u32)
                &&& final(self).unsent_view() == (if head.len() > max_bytes {
                    old(self).unsent_view().update(0, head.skip(max_bytes as int))
                } else {
                    old(self).unsent_view().skip(1)
                })
                &&& final(self).unacked_view() == old(self).unacked_view().push(
                    TxSegModel {
                        seq: old(self).nxt.val,
                        data: head.take(take),
                        fin: false,
                        time: now,
                        sampleable: true,
                    },
                )
            }),
    {
        if self.unsent.len() == 0 {
            return Option::None;
        }
        let ghost v0 = self.unacked_view();
        let ghost unsent0 = self.unsent_view();
        let mut head: ByteBuf = self.unsent.remove(0);
        proof {
            assert(self.unsent_view() =~= unsent0.skip(1));
        }
        let chunk: ByteBuf = if head.len() > max_bytes {
            let front = head.split_front(max_bytes);
            self.unsent.insert(0, head);
            proof {
                assert(self.unsent_view() =~= unsent0.update(
                    0,
                    unsent0[0].skip(max_bytes as int),
                ));
            }
            front
        } else {
            head
        };
        let seq: SeqNumber = self.nxt;
        let len: u32 = chunk.len() as u32;
        let wire_copy: ByteBuf = chunk.duplicate();
        let seg = TxSegment {
            seq,
            data: chunk,
            fin: false,
            transmit_time_ns: now,
            sampleable: true,
        };
        let ghost m = seg.model();
        self.unacked.push(seg);
        self.nxt = self.nxt.plus(len);
        proof {
            if unsent0[0].len() <= max_bytes {
                assert(unsent0[0].take(unsent0[0].len() as int) =~= unsent0[0]);
            }
            assert(self.unacked_view() =~= v0.push(m));
            assert(forall|i: int| 0 <= i < v0.len()
                ==> #[trigger] v0.push(m)[i] == v0[i]);
            assert(v0.push(m).last() == m);
            // The old chain covered [una, old nxt); the new segment starts
            // exactly there and extends it by its length.
            assert(m.seq == seq_add(old(self).una.val, segs_span(v0) as u32)) by {
                crate::seqnum::lemma_seq_sub_add(old(self).nxt.val, old(self).una.val);
            }
            lemma_segs_span_push(v0, m);
            lemma_segs_chained_push(v0, old(self).una.val, m);
            crate::seqnum::lemma_seq_add_assoc(old(self).una.val, segs_span(v0) as u32, len);
            crate::seqnum::lemma_seq_add_sub(old(self).una.val, (segs_span(v0) + len) as u32);
        }
        Option::Some((seq, wire_copy))
    }

    /// Transmit the FIN: the unsent queue has drained and a close asked
    /// for one.  The FIN occupies one sequence number at SND.NXT.
    pub fn send_fin(&mut self, now: u64) -> (r: SeqNumber)
        requires
            old(self).wf(),
            old(self).fin_pending,
            old(self).unsent_view().len() == 0,
            old(self).flight() + 1 <= FLIGHT_MAX,
            now <= CLOCK_MAX_NS,
        ensures
            final(self).wf(),
            r == old(self).nxt,
            final(self).fin_seq == Some(old(self).nxt),
            !final(self).fin_pending,
            final(self).nxt.val == seq_add(old(self).nxt.val, 1),
            final(self).una == old(self).una,
            final(self).wnd == old(self).wnd,
            final(self).rto == old(self).rto,
            final(self).mss == old(self).mss,
            final(self).wnd_scale == old(self).wnd_scale,
            final(self).unsent_view() == old(self).unsent_view(),
            final(self).unacked_view() == old(self).unacked_view().push(
                TxSegModel {
                    seq: old(self).nxt.val,
                    data: Seq::<u8>::empty(),
                    fin: true,
                    time: now,
                    sampleable: true,
                },
            ),
    {
        let ghost v0 = self.unacked_view();
        let seq: SeqNumber = self.nxt;
        let data = ByteBuf::new(0);
        proof {
            assert(data@ =~= Seq::<u8>::empty());
        }
        let seg = TxSegment { seq, data, fin: true, transmit_time_ns: now, sampleable: true };
        let ghost m = seg.model();
        self.unacked.push(seg);
        self.nxt = self.nxt.plus(1);
        self.fin_pending = false;
        self.fin_seq = Option::Some(seq);
        proof {
            assert(self.unacked_view() =~= v0.push(m));
            assert(forall|i: int| 0 <= i < v0.len()
                ==> #[trigger] v0.push(m)[i] == v0[i]);
            assert(v0.push(m).last() == m);
            assert(m.seq == seq_add(old(self).una.val, segs_span(v0) as u32)) by {
                crate::seqnum::lemma_seq_sub_add(old(self).nxt.val, old(self).una.val);
            }
            lemma_segs_span_push(v0, m);
            lemma_segs_chained_push(v0, old(self).una.val, m);
            crate::seqnum::lemma_seq_add_assoc(old(self).una.val, segs_span(v0) as u32, 1);
            crate::seqnum::lemma_seq_add_sub(old(self).una.val, (segs_span(v0) + 1) as u32);
        }
        seq
    }

    /// Hand back the head segment for retransmission: restamp it with
    /// `now` and mark it unsampleable (Karn's algorithm).  Returns its
    /// sequence number, a copy of its bytes, and whether it carries the
    /// FIN; `None` when nothing is in flight.
    pub fn head_for_retransmit(&mut self, now: u64) -> (r: Option<(SeqNumber, ByteBuf, bool)>)
        requires
            old(self).wf(),
            now <= CLOCK_MAX_NS,
        ensures
            final(self).wf(),
            final(self).una == old(self).una,
            final(self).nxt == old(self).nxt,
            final(self).wnd == old(self).wnd,
            final(self).mss == old(self).mss,
            final(self).wnd_scale == old(self).wnd_scale,
            final(self).fin_pending == old(self).fin_pending,
            final(self).fin_seq == old(self).fin_seq,
            final(self).rto == old(self).rto,
            final(self).unsent_view() == old(self).unsent_view(),
            old(self).unacked_view().len() == 0 ==> r is None && *final(self) == *old(self),
            old(self).unacked_view().len() > 0 ==> ({
                let head = old(self).unacked_view()[0];
                &&& r matches Some((seq, data, fin))
                &&& seq.val == head.seq
                &&& data@ == head.data
                &&& fin == head.fin
                &&& final(self).unacked_view() == old(self).unacked_view().update(
                    0,
                    TxSegModel { time: now, sampleable: false, ..head },
                )
            }),
    {
        if self.unacked.len() == 0 {
            return Option::None;
        }
        let ghost v0 = self.unacked_view();
        let mut seg: TxSegment = self.unacked.remove(0);
        proof {
            assert(v0[0] == seg.model());
        }
        seg.transmit_time_ns = now;
        seg.sampleable = false;
        let seq: SeqNumber = seg.seq;
        let data: ByteBuf = seg.data.duplicate();
        let fin: bool = seg.fin;
        self.unacked.insert(0, seg);
        proof {
            let m = TxSegModel { time: now, sampleable: false, ..v0[0] };
            let r = self.unacked_view();
            assert(r =~= v0.update(0, m));
            assert(r[0] == m);
            assert(r.skip(1) =~= v0.skip(1));
            assert(forall|i: int| 1 <= i < r.len() ==> #[trigger] r[i] == v0[i]);
            if v0.len() > 1 {
                assert(r.last() == v0.last());
            }
            // Same sequence numbers and spans: the chain and its span are
            // untouched by restamping the head.
            assert(seg_span(m) == seg_span(v0[0]));
            assert(segs_chained(r, self.una.val));
            assert(segs_span(r) == seg_span(m) + segs_span(r.skip(1)));
            assert(self.unsent_view() =~= old(self).unsent_view());
        }
        Option::Some((seq, data, fin))
    }
}

} // verus!
