//! The per-connection control block for the established state: it owns the
//! receiver, the sender, the reassembly buffer, congestion control, the
//! delayed-ACK machinery and the close state machine, and drives them from
//! ingress packets.
//!
//! The engine is event-driven: a driver pushes incoming `(peer, header,
//! payload)` triples onto the ingress queue, calls `poll` to process them,
//! runs the background sender and retransmitter steps, advances the clock,
//! and transmits whatever the engine has placed on the egress queue.  Every
//! segment the engine emits carries `ack_num == receive_next` at the moment
//! of emission.

use vstd::prelude::*;
use crate::bytebuf::ByteBuf;
use crate::congestion::Reno;
use crate::errors::TcpError;
use crate::header::TcpHeader;
use crate::reassembly::{
    advance_model, entries_wf, insert_capped, lemma_insert_model_len, lemma_insert_model_wf,
    lemma_take_wf, Entries, ReassemblyBuffer,
};
use crate::receiver::Receiver;
use crate::sender::{Sender, CLOCK_MAX_NS};
use crate::seqnum::{seq_add, seq_le, seq_lt, seq_sub, SeqNumber};
use crate::wscale::{pow2, scale_factor, MAX_WINDOW_SCALE_SHIFT};

verus! {

/// Maximum segment lifetime; TIME-WAIT lasts twice this.
pub const MSL_NS: u64 = 120_000_000_000;

/// Delayed-ACK timers and the linger option stay below these bounds so
/// deadline arithmetic cannot overflow.
pub const ACK_DELAY_MAX_NS: u64 = 0x10_0000_0000;

pub const LINGER_MAX_NS: u64 = 0x1_0000_0000_0000;

/// A wire segment's payload is bounded by the 16-bit length field of the
/// surrounding IP datagram.
pub const MAX_SEGMENT_BYTES: usize = 0xFFFF;

/// TCP connection state once the handshake is done.
#[derive(Clone, Copy, Debug, Eq, PartialEq, Structural)]
pub enum State {
    Established,
    FinWait1,
    FinWait2,
    Closing,
    TimeWait,
    CloseWait,
    LastAck,
    Closed,
}

/// The states in which incoming data may still be stored or delivered.
pub open spec fn may_receive_data(s: State) -> bool {
    s == State::Established || s == State::FinWait1 || s == State::FinWait2
}

/// The close-machine edge taken when the acknowledgment of our own FIN
/// arrives.
pub open spec fn fin_ack_step(s: State) -> State {
    match s {
        State::FinWait1 => State::FinWait2,
        State::Closing => State::TimeWait,
        State::LastAck => State::Closed,
        _ => s,
    }
}

/// The close-machine edge taken when the peer's FIN is consumed; only the
/// receiving states take it.
pub open spec fn fin_consume_step(s: State) -> State {
    match s {
        State::Established => State::CloseWait,
        State::FinWait1 => State::Closing,
        _ => State::TimeWait,
    }
}

/// When a TIME-WAIT started now would end: after the linger override, or
/// twice the maximum segment lifetime.
pub open spec fn time_wait_ends(clock_ns: u64, linger_ns: Option<u64>) -> u64 {
    (clock_ns + match linger_ns {
        Option::Some(l) => l as int,
        Option::None => 2 * MSL_NS,
    }) as u64
}

/// The connection's fixed configuration: endpoints, buffer sizing, scale
/// factors and timers that no event changes.
pub open spec fn same_config(a: ControlBlock, b: ControlBlock) -> bool {
    &&& a.local_ipv4 == b.local_ipv4
    &&& a.local_port == b.local_port
    &&& a.remote_ipv4 == b.remote_ipv4
    &&& a.remote_port == b.remote_port
    &&& a.tx_checksum_offload == b.tx_checksum_offload
    &&& a.ack_delay_ns == b.ack_delay_ns
    &&& a.receive_buffer_size_frames == b.receive_buffer_size_frames
    &&& a.receive_window_scale_shift_bits == b.receive_window_scale_shift_bits
    &&& a.linger_ns == b.linger_ns
    &&& a.reassembly.limit == b.reassembly.limit
    &&& a.reassembly.cap == b.reassembly.cap
}

/// The states entered by consuming the peer's FIN (or after doing so).
pub open spec fn remote_fin_consumed(s: State) -> bool {
    s == State::CloseWait || s == State::Closing || s == State::TimeWait || s == State::LastAck
}

/// The transmission control block for one established connection.
pub struct ControlBlock {
    pub local_ipv4: u32,
    pub local_port: u16,
    pub remote_ipv4: u32,
    pub remote_port: u16,
    /// The connection state machine.
    pub state: State,
    /// Send-side state (SND.UNA, SND.NXT, queues, RTO).
    pub sender: Sender,
    /// Receive-side state (reader_next, receive_next, delivery queue).
    pub receiver: Receiver,
    /// Out-of-order byte ranges ahead of `receive_next`.
    pub reassembly: ReassemblyBuffer,
    /// Congestion control (Reno).
    pub congestion: Reno,
    /// Whether the driver's NIC computes the TCP checksum; carried for the
    /// serialization edge.
    pub tx_checksum_offload: bool,
    /// How long an ACK may be delayed waiting for a piggyback opportunity.
    pub ack_delay_ns: u64,
    /// The armed delayed-ACK deadline, if one is pending.
    pub ack_deadline_ns: Option<u64>,
    /// The receive buffer size; also the maximum receive window.
    pub receive_buffer_size_frames: u32,
    /// The receive-side window scale shift (0..=14).
    pub receive_window_scale_shift_bits: u8,
    /// The engine's monotonic clock, fed by the driver.
    pub clock_ns: u64,
    /// The socket's linger option; overrides the 2*MSL TIME-WAIT timer.
    pub linger_ns: Option<u64>,
    /// When TIME-WAIT ends, once the state is TimeWait.
    pub time_wait_deadline_ns: Option<u64>,
    /// Incoming `(peer address, header, payload)` triples; front first.
    pub ingress: Vec<(u32, TcpHeader, ByteBuf)>,
    /// Segments the engine has emitted, for the driver to transmit.
    pub outgoing: Vec<(TcpHeader, Option<ByteBuf>)>,
    /// Remote endpoints whose connection ended, for the listening socket
    /// that routes to this control block; `None` when no listener cares.
    pub parent_close_queue: Option<Vec<(u32, u16)>>,
}

impl ControlBlock {
    /// Distance from `reader_next` to `receive_next`: bytes (and a
    /// possible FIN) received but not yet read.
    pub open spec fn recv_distance(self) -> int {
        seq_sub(
            self.receiver.receive_next_seq_no.val,
            self.receiver.reader_next_seq_no.val,
        ) as int
    }

    /// The receive window: room left in the receive buffer.
    pub open spec fn rwnd_spec(self) -> int {
        self.receive_buffer_size_frames - self.recv_distance()
    }

    /// The emitted segments, abstractly.
    pub open spec fn egress(self) -> Seq<(TcpHeader, Option<Seq<u8>>)> {
        self.outgoing@.map(
            |i: int, e: (TcpHeader, Option<ByteBuf>)|
                (
                    e.0,
                    match e.1 {
                        Option::Some(b) => Option::Some(b@),
                        Option::None => Option::None::<Seq<u8>>,
                    },
                ),
        )
    }

    /// The queued ingress triples, abstractly.
    pub open spec fn ingress_view(self) -> Seq<(u32, TcpHeader, Seq<u8>)> {
        self.ingress@.map(|i: int, e: (u32, TcpHeader, ByteBuf)| (e.0, e.1, e.2@))
    }

    /// Everything the engine relies on between events.
    pub open spec fn wf(self) -> bool {
        &&& self.receiver.wf()
        &&& self.sender.wf()
        &&& self.reassembly.wf()
        &&& self.congestion.wf()
        &&& self.receive_buffer_size_frames <= 0x4000_0000
        &&& self.reassembly.limit == self.receive_buffer_size_frames
        // The unread span never exceeds the receive buffer.
        &&& self.recv_distance() <= self.receive_buffer_size_frames
        // Out-of-order entries fit inside the current receive window.
        &&& entries_wf(self.reassembly.view_entries(), self.rwnd_spec() as u32)
        &&& self.receive_window_scale_shift_bits <= MAX_WINDOW_SCALE_SHIFT
        // Queued ingress payloads respect the wire's segment bound.
        &&& (forall|i: int| 0 <= i < self.ingress@.len()
            ==> (#[trigger] self.ingress@[i]).2@.len() <= MAX_SEGMENT_BYTES)
        &&& self.clock_ns <= CLOCK_MAX_NS
        &&& self.ack_delay_ns <= ACK_DELAY_MAX_NS
        &&& (self.linger_ns matches Some(l) ==> l <= LINGER_MAX_NS)
        // Before a local close, no FIN of ours is pending or sent.
        &&& ((self.state == State::Established || self.state == State::CloseWait) ==> (
            !self.sender.fin_pending && self.sender.fin_seq is None))
        // A FIN of ours is pending or sent in every state that requires one.
        &&& ((self.state == State::FinWait1 || self.state == State::Closing
            || self.state == State::LastAck) ==> (self.sender.fin_pending
            || self.sender.fin_seq is Some))
        // States past the peer's FIN remember it: `receive_next` sits just
        // past the consumed FIN and stays there.
        &&& (remote_fin_consumed(self.state) ==> (self.receiver.fin_seq_no matches Some(f)
            && seq_add(f.val, 1) == self.receiver.receive_next_seq_no.val))
        // A recorded FIN is either still ahead, inside the receive buffer,
        // or consumed, with `receive_next` just past it.
        &&& (self.receiver.fin_seq_no matches Some(f) ==> ((!seq_lt(
            f.val,
            self.receiver.receive_next_seq_no.val,
        ) && seq_sub(f.val, self.receiver.reader_next_seq_no.val)
            < self.receive_buffer_size_frames) || seq_add(f.val, 1)
            == self.receiver.receive_next_seq_no.val))
    }

    pub fn get_local(&self) -> (r: (u32, u16))
        ensures
            r == (self.local_ipv4, self.local_port),
    {
        (self.local_ipv4, self.local_port)
    }

    pub fn get_remote(&self) -> (r: (u32, u16))
        ensures
            r == (self.remote_ipv4, self.remote_port),
    {
        (self.remote_ipv4, self.remote_port)
    }

    pub fn get_state(&self) -> (r: State)
        ensures
            r == self.state,
    {
        self.state
    }

    pub fn get_now(&self) -> (r: u64)
        ensures
            r == self.clock_ns,
    {
        self.clock_ns
    }

    /// The driver feeds the monotonic clock forward.
    pub fn advance_clock(&mut self, now_ns: u64)
        requires
            old(self).wf(),
            old(self).clock_ns <= now_ns <= CLOCK_MAX_NS,
        ensures
            final(self).wf(),
            *final(self) == (ControlBlock { clock_ns: now_ns, ..*old(self) }),
    {
        self.clock_ns = now_ns;
    }

    /// Room left in the receive buffer: the window we advertise.
    pub fn get_receive_window_size(&self) -> (r: u32)
        requires
            self.wf(),
        ensures
            r == self.rwnd_spec(),
    {
        let bytes_unread: u32 = self.receiver.receive_next_seq_no.minus(
            self.receiver.reader_next_seq_no,
        );
        self.receive_buffer_size_frames - bytes_unread
    }

    /// The window field for an outgoing header: the receive window shifted
    /// down by the scale factor, clamped to 16 bits.
    fn hdr_window_size(&self) -> (r: u16)
        requires
            self.wf(),
        ensures
            r == if self.rwnd_spec() / pow2(
                self.receive_window_scale_shift_bits as nat,
            ) as int > 0xFFFF {
                0xFFFFint
            } else {
                self.rwnd_spec() / pow2(self.receive_window_scale_shift_bits as nat) as int
            },
    {
        let window_size: u32 = self.get_receive_window_size();
        let factor: u32 = scale_factor(self.receive_window_scale_shift_bits);
        let scaled: u32 = window_size / factor;
        if scaled > 0xFFFF {
            0xFFFF
        } else {
            scaled as u16
        }
    }

    /// A header reflecting our current state: ACK always set, with
    /// `ack_num == receive_next` and the scaled receive window.
    pub fn tcp_header(&self) -> (r: TcpHeader)
        requires
            self.wf(),
        ensures
            r.src_port == self.local_port,
            r.dst_port == self.remote_port,
            r.ack,
            r.ack_num == self.receiver.receive_next_seq_no,
            !r.rst && !r.syn && !r.fin && !r.urg,
            r.seq_num.val == 0,
            r.window_size == if self.rwnd_spec() / pow2(
                self.receive_window_scale_shift_bits as nat,
            ) as int > 0xFFFF {
                0xFFFFint
            } else {
                self.rwnd_spec() / pow2(self.receive_window_scale_shift_bits as nat) as int
            },
    {
        let mut header: TcpHeader = TcpHeader::new(self.local_port, self.remote_port);
        header.window_size = self.hdr_window_size();
        header.ack = true;
        header.ack_num = self.receiver.receive_next_seq_no;
        header
    }

    /// Emit one segment: append it to the egress queue for the driver and
    /// cancel any delayed-ACK deadline, since the segment acknowledges
    /// everything received.  Every emitted segment carries
    /// `ack_num == receive_next` at emit time.
    pub fn emit(&mut self, header: TcpHeader, body: Option<ByteBuf>)
        requires
            old(self).wf(),
            header.ack,
            header.ack_num == old(self).receiver.receive_next_seq_no,
        ensures
            final(self).wf(),
            same_config(*final(self), *old(self)),
            final(self).egress() == old(self).egress().push(
                (
                    header,
                    match body {
                        Option::Some(b) => Option::Some(b@),
                        Option::None => Option::None::<Seq<u8>>,
                    },
                ),
            ),
            final(self).ack_deadline_ns is None,
            final(self).receiver == old(self).receiver,
            final(self).sender == old(self).sender,
            final(self).reassembly == old(self).reassembly,
            final(self).congestion == old(self).congestion,
            final(self).state == old(self).state,
            final(self).clock_ns == old(self).clock_ns,
            final(self).ingress == old(self).ingress,
            final(self).time_wait_deadline_ns == old(self).time_wait_deadline_ns,
            final(self).parent_close_queue == old(self).parent_close_queue,
            final(self).linger_ns == old(self).linger_ns,
            final(self).receive_buffer_size_frames == old(self).receive_buffer_size_frames,
            final(self).ack_delay_ns == old(self).ack_delay_ns,
            final(self).receive_window_scale_shift_bits == old(
                self,
            ).receive_window_scale_shift_bits,
            final(self).local_ipv4 == old(self).local_ipv4,
            final(self).local_port == old(self).local_port,
            final(self).remote_ipv4 == old(self).remote_ipv4,
            final(self).remote_port == old(self).remote_port,
            final(self).tx_checksum_offload == old(self).tx_checksum_offload,
    {
        let ghost e0 = self.egress();
        self.outgoing.push((header, body));
        self.ack_deadline_ns = Option::None;
        proof {
            assert(self.egress() =~= e0.push(self.egress()[e0.len() as int]));
        }
    }

    /// Send a bare ACK reflecting our current state, with
    /// `seq_num = SND.NXT`.
    #[verifier::rlimit(50)]
    pub fn send_ack(&mut self)
        requires
            old(self).wf(),
        ensures
            final(self).wf(),
            same_config(*final(self), *old(self)),
            ({
                let h = final(self).egress().last().0;
                &&& final(self).egress().len() == old(self).egress().len() + 1
                &&& final(self).egress().take(old(self).egress().len() as int) == old(
                    self,
                ).egress()
                &&& h.ack
                &&& h.ack_num == old(self).receiver.receive_next_seq_no
                &&& h.seq_num == old(self).sender.nxt
                &&& final(self).egress().last().1 is None
            }),
            final(self).ack_deadline_ns is None,
            final(self).receiver == old(self).receiver,
            final(self).sender == old(self).sender,
            final(self).reassembly == old(self).reassembly,
            final(self).congestion == old(self).congestion,
            final(self).state == old(self).state,
            final(self).clock_ns == old(self).clock_ns,
            final(self).ingress == old(self).ingress,
            final(self).time_wait_deadline_ns == old(self).time_wait_deadline_ns,
            final(self).parent_close_queue == old(self).parent_close_queue,
    {
        let mut header: TcpHeader = self.tcp_header();
        header.seq_num = self.sender.get_next_seq_no();
        let ghost e0 = self.egress();
        self.emit(header, Option::None);
        proof {
            assert(self.egress().take(e0.len() as int) =~= e0);
        }
    }

    /// Read the delayed-ACK deadline.
    pub fn get_receive_ack_deadline(&self) -> (r: Option<u64>)
        ensures
            r == self.ack_deadline_ns,
    {
        self.ack_deadline_ns
    }

    /// Overwrite the delayed-ACK deadline.
    pub fn set_receive_ack_deadline(&mut self, when: Option<u64>)
        requires
            old(self).wf(),
        ensures
            final(self).wf(),
            *final(self) == (ControlBlock { ack_deadline_ns: when, ..*old(self) }),
    {
        self.ack_deadline_ns = when;
    }

    /// The driver hands an incoming segment to the engine.
    pub fn receive(&mut self, remote_ipv4: u32, tcp_hdr: TcpHeader, buf: ByteBuf)
        requires
            old(self).wf(),
            buf@.len() <= MAX_SEGMENT_BYTES,
        ensures
            final(self).wf(),
            same_config(*final(self), *old(self)),
            final(self).ingress_view() == old(self).ingress_view().push(
                (remote_ipv4, tcp_hdr, buf@),
            ),
            final(self).receiver == old(self).receiver,
            final(self).sender == old(self).sender,
            final(self).reassembly == old(self).reassembly,
            final(self).congestion == old(self).congestion,
            final(self).state == old(self).state,
            final(self).outgoing == old(self).outgoing,
            final(self).ack_deadline_ns == old(self).ack_deadline_ns,
            final(self).clock_ns == old(self).clock_ns,
    {
        let ghost i0 = self.ingress_view();
        self.ingress.push((remote_ipv4, tcp_hdr, buf));
        proof {
            assert(self.ingress_view() =~= i0.push(self.ingress_view()[i0.len() as int]));
            assert(self.ingress@.last().2@ == buf@);
        }
    }

    /// Congestion-control capability set, as the background tasks use it.
    pub fn congestion_control_watch_retransmit_now_flag(&self) -> (r: bool)
        ensures
            r == self.congestion.retransmit_now,
    {
        self.congestion.get_retransmit_now_flag()
    }

    pub fn congestion_control_on_fast_retransmit(&mut self)
        requires
            old(self).wf(),
        ensures
            final(self).wf(),
            !final(self).congestion.retransmit_now,
            final(self).congestion.cwnd == old(self).congestion.cwnd,
            final(self).sender == old(self).sender,
            final(self).receiver == old(self).receiver,
            final(self).state == old(self).state,
            final(self).outgoing == old(self).outgoing,
    {
        self.congestion.on_fast_retransmit()
    }

    pub fn congestion_control_on_rto(&mut self, send_unacknowledged: SeqNumber)
        requires
            old(self).wf(),
        ensures
            final(self).wf(),
            final(self).congestion.cwnd == old(self).congestion.mss,
            final(self).congestion.ssthresh == if old(self).congestion.cwnd / 2 >= 2 * old(
                self,
            ).congestion.mss {
                (old(self).congestion.cwnd / 2) as int
            } else {
                2 * old(self).congestion.mss
            },
            final(self).congestion.duplicate_acks == 0,
            !final(self).congestion.in_fast_recovery,
            !final(self).congestion.retransmit_now,
            final(self).congestion.limited_transmit_increase == 0,
            final(self).congestion.mss == old(self).congestion.mss,
            final(self).sender == old(self).sender,
            final(self).receiver == old(self).receiver,
            final(self).state == old(self).state,
            final(self).outgoing == old(self).outgoing,
    {
        self.congestion.on_rto(send_unacknowledged)
    }

    pub fn congestion_control_on_send(&mut self, num_sent_bytes: u32)
        requires
            old(self).wf(),
        ensures
            final(self).wf(),
            *final(self) == *old(self),
    {
        self.congestion.on_send(num_sent_bytes)
    }

    pub fn congestion_control_on_cwnd_check_before_send(&mut self)
        requires
            old(self).wf(),
        ensures
            final(self).wf(),
            *final(self) == *old(self),
    {
        self.congestion.on_cwnd_check_before_send()
    }

    pub fn congestion_control_get_cwnd(&self) -> (r: u32)
        ensures
            r == self.congestion.cwnd,
    {
        self.congestion.get_cwnd()
    }

    pub fn congestion_control_get_limited_transmit_cwnd_increase(&self) -> (r: u32)
        ensures
            r == self.congestion.limited_transmit_increase,
    {
        self.congestion.get_limited_transmit_cwnd_increase()
    }
}

/// What the RFC 793 acceptability test leaves of a segment, before flag
/// processing: `accept` is false for segments wholly outside the window
/// (which are acknowledged and dropped); otherwise `start`, `data`, `syn`
/// and `fin` are the segment with already-received bytes cut off the front
/// and bytes beyond the window (and a FIN out there) cut off the back.
pub struct TrimOutcome {
    pub accept: bool,
    pub start: u32,
    pub data: Seq<u8>,
    pub syn: bool,
    pub fin: bool,
}

pub open spec fn window_trim(
    rn: u32,
    rwnd: int,
    start: u32,
    data: Seq<u8>,
    syn: bool,
    fin: bool,
) -> TrimOutcome {
    let syn_n: int = if syn {
        1int
    } else {
        0int
    };
    let fin_n: int = if fin {
        1int
    } else {
        0int
    };
    let seg_len = data.len() + syn_n + fin_n;
    if seg_len == 0 {
        // A bare ACK: acceptable iff its sequence number is in the window.
        if start == rn || (!seq_lt(start, rn) && seq_sub(start, rn) < rwnd) {
            TrimOutcome { accept: true, start, data, syn, fin }
        } else {
            TrimOutcome { accept: false, start, data, syn, fin }
        }
    } else {
        let seg_end = seq_add(start, (seg_len - 1) as u32);
        if start != rn && seq_lt(start, rn) && seq_lt(seg_end, rn) {
            // Wholly duplicate.
            TrimOutcome { accept: false, start, data, syn, fin }
        } else if rwnd == 0 {
            // RFC 793's acceptability table: a non-empty segment against a
            // closed window is never acceptable.
            TrimOutcome { accept: false, start, data, syn, fin }
        } else if start != rn && !seq_lt(start, rn) && seq_sub(start, rn) >= rwnd {
            // Wholly beyond the window.
            TrimOutcome { accept: false, start, data, syn, fin }
        } else {
            // Cut already-received bytes (and a SYN, which sits first) off
            // the front.
            let head_trim = start != rn && seq_lt(start, rn);
            let start1 = if head_trim {
                rn
            } else {
                start
            };
            let data1 = if head_trim {
                data.skip(seq_sub(rn, start) - syn_n)
            } else {
                data
            };
            let syn1 = if head_trim {
                false
            } else {
                syn
            };
            if seq_sub(seg_end, rn) >= rwnd {
                // Cut bytes beyond the window (and a FIN, which sits last)
                // off the back.
                let excess = seq_sub(seg_end, rn) - rwnd + 1;
                let cut0 = excess - fin_n;
                let cut = if cut0 > data1.len() {
                    data1.len() as int
                } else {
                    cut0
                };
                TrimOutcome {
                    accept: true,
                    start: start1,
                    data: data1.take(data1.len() - cut),
                    syn: syn1,
                    fin: false,
                }
            } else {
                TrimOutcome { accept: true, start: start1, data: data1, syn: syn1, fin }
            }
        }
    }
}

/// An accepted segment's surviving bytes lie inside the receive window, a
/// surviving FIN lies strictly inside it, and the surviving start is never
/// behind `receive_next`.
pub proof fn lemma_window_trim_in_window(
    rn: u32,
    rwnd: int,
    start: u32,
    data: Seq<u8>,
    syn: bool,
    fin: bool,
)
    requires
        0 <= rwnd <= 0x4000_0000,
        data.len() <= MAX_SEGMENT_BYTES,
    ensures
        ({
            let t = window_trim(rn, rwnd, start, data, syn, fin);
            t.accept ==> {
                let off = seq_sub(t.start, rn) as int;
                &&& off + t.data.len() <= rwnd || (t.data.len() == 0 && off == 0)
                &&& (t.fin ==> off + t.data.len() < rwnd)
                &&& t.data.len() <= data.len()
                &&& off < 0x8000_0000
            }
        }),
{
    let syn_n: int = if syn {
        1int
    } else {
        0int
    };
    let fin_n: int = if fin {
        1int
    } else {
        0int
    };
    let seg_len = data.len() + syn_n + fin_n;
    let t = window_trim(rn, rwnd, start, data, syn, fin);
    crate::seqnum::lemma_seq_sub_antisym(start, rn);
    if seg_len == 0 {
    } else {
        let seg_end = seq_add(start, (seg_len - 1) as u32);
        if start != rn && seq_lt(start, rn) && seq_lt(seg_end, rn) {
        } else if rwnd == 0 {
        } else if start != rn && !seq_lt(start, rn) && seq_sub(start, rn) >= rwnd {
        } else if start != rn && seq_lt(start, rn) {
            // Head trim: the distance back to `receive_next` is within the
            // segment, or the segment would be wholly duplicate.
            let back = seq_sub(rn, start) as int;
            if seg_len <= back {
                crate::seqnum::lemma_seq_add_sub_linear(start, rn, (seg_len - 1) as u32);
                crate::seqnum::lemma_seq_sub_antisym(seg_end, rn);
                assert(seq_lt(seg_end, rn));
                assert(false);
            }
            crate::seqnum::lemma_seq_add_sub_wrap(start, rn, (seg_len - 1) as u32);
            assert(seq_sub(seg_end, rn) == seg_len - 1 - back);
            assert(seq_sub(rn, rn) == 0);
        } else {
            // The start is at or ahead of `receive_next`, inside the window.
            crate::seqnum::lemma_seq_add_sub_linear(start, rn, (seg_len - 1) as u32);
            assert(seq_sub(seg_end, rn) == seq_sub(start, rn) + seg_len - 1);
        }
    }
}

impl ControlBlock {
    /// A fresh control block for a connection whose handshake just
    /// finished, in the Established state.
    pub fn new(
        local_ipv4: u32,
        local_port: u16,
        remote_ipv4: u32,
        remote_port: u16,
        tx_checksum_offload: bool,
        receive_initial_seq_no: SeqNumber,
        receive_ack_delay_timeout_ns: u64,
        receive_window_size_frames: u32,
        receive_window_scale_shift_bits: u8,
        sender_initial_seq_no: SeqNumber,
        send_window_size_frames: u32,
        send_window_scale_shift_bits: u8,
        sender_mss: usize,
        linger_ns: Option<u64>,
        max_out_of_order_frames: usize,
        track_parent_close: bool,
    ) -> (r: ControlBlock)
        requires
            receive_window_size_frames <= 0x4000_0000,
            receive_window_scale_shift_bits <= MAX_WINDOW_SCALE_SHIFT,
            send_window_size_frames <= 0x4000_0000,
            send_window_scale_shift_bits <= MAX_WINDOW_SCALE_SHIFT,
            1 <= sender_mss <= 0x1_0000,
            receive_ack_delay_timeout_ns <= ACK_DELAY_MAX_NS,
            (linger_ns matches Some(l) ==> l <= LINGER_MAX_NS),
            max_out_of_order_frames >= 1,
        ensures
            r.wf(),
            r.state == State::Established,
            r.receiver.reader_next_seq_no == receive_initial_seq_no,
            r.receiver.receive_next_seq_no == receive_initial_seq_no,
            (r.receiver.fin_seq_no is None),
            r.sender.una == sender_initial_seq_no,
            r.sender.nxt == sender_initial_seq_no,
            r.sender.mss == sender_mss,
            r.sender.wnd == send_window_size_frames,
            r.sender.wnd_scale == send_window_scale_shift_bits,
            !r.sender.fin_pending,
            (r.sender.fin_seq is None),
            r.sender.unacked_view() =~= Seq::<crate::sender::TxSegModel>::empty(),
            r.sender.unsent_view() =~= Seq::<Seq<u8>>::empty(),
            !r.sender.rto.has_sample,
            r.sender.rto.rto_ns == crate::rto::RTO_INITIAL_NS,
            r.congestion == crate::congestion::Reno::initial_spec(sender_mss as u32),
            r.reassembly.view_entries() =~= Seq::<(u32, Seq<u8>)>::empty(),
            r.reassembly.cap == max_out_of_order_frames,
            r.egress() =~= Seq::<(TcpHeader, Option<Seq<u8>>)>::empty(),
            r.ingress_view() =~= Seq::<(u32, TcpHeader, Seq<u8>)>::empty(),
            (r.ack_deadline_ns is None),
            r.ack_delay_ns == receive_ack_delay_timeout_ns,
            r.clock_ns == 0,
            r.receive_buffer_size_frames == receive_window_size_frames,
            r.local_ipv4 == local_ipv4 && r.local_port == local_port,
            r.remote_ipv4 == remote_ipv4 && r.remote_port == remote_port,
            (r.time_wait_deadline_ns is None),
            r.linger_ns == linger_ns,
    {
        let mss_u32: u32 = sender_mss as u32;
        let r = ControlBlock {
            local_ipv4,
            local_port,
            remote_ipv4,
            remote_port,
            state: State::Established,
            sender: Sender::new(
                sender_initial_seq_no,
                send_window_size_frames,
                send_window_scale_shift_bits,
                sender_mss,
            ),
            receiver: Receiver::new(receive_initial_seq_no, receive_initial_seq_no),
            reassembly: ReassemblyBuffer::new(
                receive_window_size_frames,
                max_out_of_order_frames,
            ),
            congestion: Reno::new(mss_u32),
            tx_checksum_offload,
            ack_delay_ns: receive_ack_delay_timeout_ns,
            ack_deadline_ns: Option::None,
            receive_buffer_size_frames: receive_window_size_frames,
            receive_window_scale_shift_bits,
            clock_ns: 0,
            linger_ns,
            time_wait_deadline_ns: Option::None,
            ingress: Vec::new(),
            outgoing: Vec::new(),
            parent_close_queue: if track_parent_close {
                Option::Some(Vec::new())
            } else {
                Option::None
            },
        };
        proof {
            assert(r.egress() =~= Seq::<(TcpHeader, Option<Seq<u8>>)>::empty());
            assert(r.ingress_view() =~= Seq::<(u32, TcpHeader, Seq<u8>)>::empty());
        }
        r
    }

    /// An accepted RST tears the connection down hard.
    fn check_rst(&mut self, header: &TcpHeader) -> (r: Result<(), TcpError>)
        requires
            old(self).wf(),
        ensures
            final(self).wf(),
            !header.rst ==> r is Ok && *final(self) == *old(self),
            header.rst ==> r == Result::<(), TcpError>::Err(TcpError::ConnectionReset)
                && *final(self) == (ControlBlock { state: State::Closed, ..*old(self) }),
    {
        if header.rst {
            self.state = State::Closed;
            return Result::Err(TcpError::ConnectionReset);
        }
        Result::Ok(())
    }

    /// A SYN inside the window on an established connection is an error;
    /// the segment is dropped.
    fn check_syn(&self, header: &TcpHeader) -> (r: Result<(), TcpError>)
        ensures
            !header.syn ==> r is Ok,
            header.syn ==> r == Result::<(), TcpError>::Err(TcpError::BadMessage),
    {
        if header.syn {
            return Result::Err(TcpError::BadMessage);
        }
        Result::Ok(())
    }

    /// The RFC 793 acceptability test: trim the segment to the receive
    /// window, or acknowledge (unless it is an RST) and drop it.  On
    /// success the returned sequence number is the trimmed segment's start.
    #[verifier::rlimit(100)]
    pub fn check_segment_in_window(
        &mut self,
        header: &mut TcpHeader,
        data: &mut ByteBuf,
    ) -> (r: Result<SeqNumber, TcpError>)
        requires
            old(self).wf(),
            old(data)@.len() <= MAX_SEGMENT_BYTES,
        ensures
            final(self).wf(),
            same_config(*final(self), *old(self)),
            final(self).receiver == old(self).receiver,
            final(self).sender == old(self).sender,
            final(self).reassembly == old(self).reassembly,
            final(self).congestion == old(self).congestion,
            final(self).state == old(self).state,
            final(self).clock_ns == old(self).clock_ns,
            final(self).ingress == old(self).ingress,
            final(self).time_wait_deadline_ns == old(self).time_wait_deadline_ns,
            final(self).parent_close_queue == old(self).parent_close_queue,
            final(header).seq_num == old(header).seq_num,
            final(header).ack_num == old(header).ack_num,
            final(header).ack == old(header).ack,
            final(header).rst == old(header).rst,
            final(header).urg == old(header).urg,
            final(header).window_size == old(header).window_size,
            ({
                let t = window_trim(
                    old(self).receiver.receive_next_seq_no.val,
                    old(self).rwnd_spec(),
                    old(header).seq_num.val,
                    old(data)@,
                    old(header).syn,
                    old(header).fin,
                );
                if t.accept {
                    &&& r matches Ok(s) && s.val == t.start
                    &&& final(header).syn == t.syn
                    &&& final(header).fin == t.fin
                    &&& final(data)@ == t.data
                    &&& final(self).outgoing == old(self).outgoing
                    &&& final(self).ack_deadline_ns == old(self).ack_deadline_ns
                } else {
                    &&& r == Result::<SeqNumber, TcpError>::Err(TcpError::BadMessage)
                    &&& final(header).syn == old(header).syn
                    &&& final(header).fin == old(header).fin
                    &&& final(data)@ == old(data)@
                    &&& if old(header).rst {
                        final(self).outgoing == old(self).outgoing
                            && final(self).ack_deadline_ns == old(self).ack_deadline_ns
                    } else {
                        // The unacceptable segment is still acknowledged.
                        ({
                            let h = final(self).egress().last().0;
                            &&& final(self).egress().len() == old(self).egress().len() + 1
                            &&& final(self).egress().take(old(self).egress().len() as int)
                                == old(self).egress()
                            &&& h.ack && h.ack_num == old(self).receiver.receive_next_seq_no
                            &&& h.seq_num == old(self).sender.nxt
                            &&& (final(self).ack_deadline_ns is None)
                        })
                    }
                }
            }),
    {
        proof {
            crate::seqnum::lemma_seq_sub_antisym(
                header.seq_num.val,
                self.receiver.receive_next_seq_no.val,
            );
        }
        let rn: SeqNumber = self.receiver.receive_next_seq_no;
        let rwnd: u32 = self.get_receive_window_size();
        let start: SeqNumber = header.seq_num;
        let mut seg_len: u32 = data.len() as u32;
        if header.syn {
            seg_len = seg_len + 1;
        }
        if header.fin {
            seg_len = seg_len + 1;
        }
        if seg_len == 0 {
            if start.val == rn.val {
                return Result::Ok(start);
            }
            if start.lt(rn) || start.minus(rn) >= rwnd {
                if !header.rst {
                    self.send_ack();
                }
                return Result::Err(TcpError::BadMessage);
            }
            return Result::Ok(start);
        }
        let seg_end: SeqNumber = start.plus(seg_len - 1);
        proof {
            crate::seqnum::lemma_seq_add_sub(start.val, (seg_len - 1) as u32);
        }
        if start.val != rn.val && start.lt(rn) && seg_end.lt(rn) {
            // Wholly duplicate: acknowledge and drop.
            if !header.rst {
                self.send_ack();
            }
            return Result::Err(TcpError::BadMessage);
        }
        if rwnd == 0 {
            // A non-empty segment against a closed window is never
            // acceptable: acknowledge and drop.
            if !header.rst {
                self.send_ack();
            }
            return Result::Err(TcpError::BadMessage);
        }
        let mut new_start: SeqNumber = start;
        if start.val != rn.val {
            if start.lt(rn) {
                // The front duplicates received bytes: cut it off, along
                // with a SYN, which occupies the first sequence number.
                let back: u32 = rn.minus(start);
                proof {
                    if seg_len <= seq_sub(rn.val, start.val) {
                        crate::seqnum::lemma_seq_add_sub_linear(
                            start.val,
                            rn.val,
                            (seg_len - 1) as u32,
                        );
                        crate::seqnum::lemma_seq_sub_antisym(seg_end.val, rn.val);
                        assert(seq_lt(seg_end.val, rn.val));
                    }
                    crate::seqnum::lemma_seq_add_sub_wrap(
                        start.val,
                        rn.val,
                        (seg_len - 1) as u32,
                    );
                }
                let mut drop_front: u32 = back;
                if header.syn {
                    header.syn = false;
                    drop_front = drop_front - 1;
                }
                data.adjust(drop_front as usize);
                new_start = rn;
            } else {
                if start.minus(rn) >= rwnd {
                    // Wholly beyond the window: acknowledge and drop.
                    if !header.rst {
                        self.send_ack();
                    }
                    return Result::Err(TcpError::BadMessage);
                }
                proof {
                    crate::seqnum::lemma_seq_add_sub_linear(
                        start.val,
                        rn.val,
                        (seg_len - 1) as u32,
                    );
                }
            }
        } else {
            proof {
                crate::seqnum::lemma_seq_add_sub_linear(start.val, rn.val, (seg_len - 1) as u32);
            }
        }
        if seg_end.minus(rn) >= rwnd {
            // The tail runs past the window: cut it off, along with a FIN,
            // which occupies the last sequence number.
            let mut excess: u32 = seg_end.minus(rn) - rwnd + 1;
            if header.fin {
                header.fin = false;
                excess = excess - 1;
            }
            let len_now: u32 = data.len() as u32;
            let cut: u32 = if excess > len_now {
                len_now
            } else {
                excess
            };
            data.trim(cut as usize);
        }
        Result::Ok(new_start)
    }
}

/// In-order delivery: while the front of the out-of-order store sits
/// exactly at `receive_next` (offset zero), its bytes move to the delivery
/// queue and the stream, and the base advances past them.
pub open spec fn drain_model(
    entries: Entries,
    queue: Seq<Seq<u8>>,
    stream: Seq<u8>,
    rn: u32,
) -> (Entries, Seq<Seq<u8>>, Seq<u8>, u32)
    decreases entries.len(),
    via drain_model_dec
{
    if entries.len() > 0 && entries[0].0 == 0 {
        let b = entries[0].1;
        drain_model(
            advance_model(entries.skip(1), b.len() as u32),
            queue.push(b),
            stream + b,
            seq_add(rn, b.len() as u32),
        )
    } else {
        (entries, queue, stream, rn)
    }
}

#[via_fn]
proof fn drain_model_dec(entries: Entries, queue: Seq<Seq<u8>>, stream: Seq<u8>, rn: u32) {
    if entries.len() > 0 && entries[0].0 == 0 {
        crate::reassembly::lemma_advance_model_len(
            entries.skip(1),
            entries[0].1.len() as u32,
        );
    }
}

/// Draining advances `receive_next` by at most the store's bound, leaves
/// a store that fits the bound shrunk by that advance, and stops with no
/// entry at offset zero.
pub proof fn lemma_drain_model_props(
    entries: Entries,
    queue: Seq<Seq<u8>>,
    stream: Seq<u8>,
    rn: u32,
    lim: u32,
)
    requires
        entries_wf(entries, lim),
    ensures
        ({
            let (e2, q2, st2, rn2) = drain_model(entries, queue, stream, rn);
            &&& seq_sub(rn2, rn) <= lim
            &&& entries_wf(e2, (lim - seq_sub(rn2, rn)) as u32)
            &&& e2.len() <= entries.len()
            &&& (e2.len() > 0 ==> e2[0].0 != 0)
        }),
    decreases entries.len(),
{
    if entries.len() > 0 && entries[0].0 == 0 {
        let l_int = entries[0].1.len() as int;
        assert(l_int <= lim);
        let l = entries[0].1.len() as u32;
        assert(entries_wf(entries.skip(1), lim)) by {
            assert(forall|i: int| 0 <= i < entries.skip(1).len()
                ==> #[trigger] entries.skip(1)[i] == entries[i + 1]);
        }
        crate::reassembly::lemma_advance_model_tight(entries.skip(1), l, lim);
        crate::reassembly::lemma_advance_model_len(entries.skip(1), l);
        let mid = advance_model(entries.skip(1), l);
        lemma_drain_model_props(mid, queue.push(entries[0].1), stream + entries[0].1,
            seq_add(rn, l), (lim - l) as u32);
        let (e2, q2, st2, rn2) = drain_model(mid, queue.push(entries[0].1),
            stream + entries[0].1, seq_add(rn, l));
        crate::seqnum::lemma_seq_add_sub(rn, l);
        crate::seqnum::lemma_seq_sub_triangle(rn2, seq_add(rn, l), rn);
    }
}

impl ControlBlock {
    /// Deliver bytes that start exactly at `receive_next`, then move any
    /// out-of-order entries the advance made contiguous to the delivery
    /// queue as well.  A recorded FIN that delivered data ran over (a peer
    /// contradiction) is forgotten, so the engine never mistakes old data
    /// for the end of the stream.
    #[verifier::rlimit(100)]
    fn receive_data(&mut self, buf: ByteBuf)
        requires
            old(self).wf(),
            may_receive_data(old(self).state),
            1 <= buf@.len(),
            buf@.len() <= old(self).rwnd_spec(),
        ensures
            final(self).wf(),
            same_config(*final(self), *old(self)),
            ({
                let (e2, q2, st2, rn2) = drain_model(
                    advance_model(old(self).reassembly.view_entries(), buf@.len() as u32),
                    old(self).receiver.queue().push(buf@),
                    old(self).receiver.stream@ + buf@,
                    seq_add(old(self).receiver.receive_next_seq_no.val, buf@.len() as u32),
                );
                &&& final(self).reassembly.view_entries() == e2
                &&& final(self).receiver.queue() == q2
                &&& final(self).receiver.stream@ == st2
                &&& final(self).receiver.receive_next_seq_no.val == rn2
                &&& seq_sub(rn2, seq_add(old(self).receiver.receive_next_seq_no.val,
                    buf@.len() as u32)) <= old(self).rwnd_spec() - buf@.len()
                &&& final(self).receiver.fin_seq_no == (
                    if old(self).receiver.fin_seq_no matches Some(f) && seq_lt(f.val, rn2) {
                        Option::<SeqNumber>::None
                    } else {
                        old(self).receiver.fin_seq_no
                    }
                )
            }),
            final(self).receiver.reader_next_seq_no == old(self).receiver.reader_next_seq_no,
            final(self).sender == old(self).sender,
            final(self).congestion == old(self).congestion,
            final(self).outgoing == old(self).outgoing,
            final(self).ack_deadline_ns == old(self).ack_deadline_ns,
            final(self).state == old(self).state,
            final(self).clock_ns == old(self).clock_ns,
            final(self).ingress == old(self).ingress,
            final(self).time_wait_deadline_ns == old(self).time_wait_deadline_ns,
            final(self).parent_close_queue == old(self).parent_close_queue,
            final(self).reassembly.cap == old(self).reassembly.cap,
    {
        let ghost entries0 = self.reassembly.view_entries();
        let ghost rwnd0 = self.rwnd_spec();
        let ghost target = drain_model(
            advance_model(entries0, buf@.len() as u32),
            self.receiver.queue().push(buf@),
            self.receiver.stream@ + buf@,
            seq_add(self.receiver.receive_next_seq_no.val, buf@.len() as u32),
        );
        let ghost rn0v = self.receiver.receive_next_seq_no.val;
        let ghost reader0v = self.receiver.reader_next_seq_no.val;
        let len: u32 = buf.len() as u32;
        self.receiver.push(buf);
        self.reassembly.advance(len);
        proof {
            crate::seqnum::lemma_seq_add_sub_linear(rn0v, reader0v, len);
            crate::reassembly::lemma_advance_model_tight(entries0, len, rwnd0 as u32);
        }
        let mut go: bool = true;
        while go
            invariant
                self.receiver.wf(),
                self.reassembly.wf(),
                self.recv_distance() <= self.receive_buffer_size_frames,
                self.receive_buffer_size_frames <= 0x4000_0000,
                self.reassembly.limit == self.receive_buffer_size_frames,
                entries_wf(self.reassembly.view_entries(), self.rwnd_spec() as u32),
                drain_model(
                    self.reassembly.view_entries(),
                    self.receiver.queue(),
                    self.receiver.stream@,
                    self.receiver.receive_next_seq_no.val,
                ) == target,
                !go ==> (self.reassembly.view_entries().len() == 0
                    || self.reassembly.view_entries()[0].0 != 0),
                self.receiver.reader_next_seq_no == old(self).receiver.reader_next_seq_no,
                self.receiver.fin_seq_no == old(self).receiver.fin_seq_no,
                self.sender == old(self).sender,
                self.congestion == old(self).congestion,
                self.outgoing == old(self).outgoing,
                self.ack_deadline_ns == old(self).ack_deadline_ns,
                self.state == old(self).state,
                self.clock_ns == old(self).clock_ns,
                self.ingress == old(self).ingress,
                self.time_wait_deadline_ns == old(self).time_wait_deadline_ns,
                self.parent_close_queue == old(self).parent_close_queue,
                self.reassembly.cap == old(self).reassembly.cap,
                self.receive_window_scale_shift_bits == old(
                    self,
                ).receive_window_scale_shift_bits,
                self.receive_buffer_size_frames == old(self).receive_buffer_size_frames,
                self.ack_delay_ns == old(self).ack_delay_ns,
                self.linger_ns == old(self).linger_ns,
                same_config(*self, *old(self)),
            decreases self.reassembly.view_entries().len(), (if go { 1int } else { 0int }),
        {
            let ghost entries_cur = self.reassembly.view_entries();
            let ghost rwnd_cur = self.rwnd_spec();
            match self.reassembly.pop_front_ready() {
                Option::Some(b) => {
                    let ghost rn_cur = self.receiver.receive_next_seq_no.val;
                    let ghost reader_cur = self.receiver.reader_next_seq_no.val;
                    proof {
                        assert(entries_cur[0].1.len() >= 1);
                        assert(entries_cur[0].0 + entries_cur[0].1.len() <= rwnd_cur);
                        assert(forall|i: int| 0 <= i < entries_cur.len() - 1
                            ==> #[trigger] entries_cur.skip(1)[i] == entries_cur[i + 1]);
                    }
                    let blen: u32 = b.len() as u32;
                    self.receiver.push(b);
                    self.reassembly.advance(blen);
                    proof {
                        crate::seqnum::lemma_seq_add_sub_linear(rn_cur, reader_cur, blen);
                        crate::reassembly::lemma_advance_model_tight(
                            entries_cur.skip(1),
                            blen,
                            rwnd_cur as u32,
                        );
                        crate::reassembly::lemma_advance_model_len(
                            entries_cur.skip(1),
                            blen,
                        );
                    }
                },
                Option::None => {
                    go = false;
                },
            }
        }
        // Data must never run past a FIN the peer announced; if it did,
        // the announcement was wrong, so drop it.
        let rn_now: SeqNumber = self.receiver.receive_next_seq_no;
        let clear: bool = match self.receiver.fin_seq_no {
            Option::Some(f) => f.lt(rn_now),
            Option::None => false,
        };
        if clear {
            self.receiver.fin_seq_no = Option::None;
        }
        proof {
            let rn0 = old(self).receiver.receive_next_seq_no.val;
            let l0 = buf@.len() as u32;
            crate::reassembly::lemma_advance_model_tight(entries0, l0, rwnd0 as u32);
            lemma_drain_model_props(
                advance_model(entries0, l0),
                old(self).receiver.queue().push(buf@),
                old(self).receiver.stream@ + buf@,
                seq_add(rn0, l0),
                (rwnd0 - l0) as u32,
            );
            crate::seqnum::lemma_seq_add_sub(rn0, l0);
            crate::seqnum::lemma_seq_sub_triangle(
                self.receiver.receive_next_seq_no.val,
                seq_add(rn0, l0),
                rn0,
            );
            crate::seqnum::lemma_seq_sub_triangle(
                self.receiver.receive_next_seq_no.val,
                rn0,
                self.receiver.reader_next_seq_no.val,
            );
            match old(self).receiver.fin_seq_no {
                Option::Some(f) => {
                    crate::seqnum::lemma_seq_sub_antisym(f.val, rn0);
                    crate::seqnum::lemma_seq_sub_antisym(
                        f.val,
                        self.receiver.receive_next_seq_no.val,
                    );
                    if seq_add(f.val, 1) == rn0 {
                        crate::seqnum::lemma_seq_add_sub(f.val, 1);
                        crate::seqnum::lemma_seq_sub_triangle(
                            self.receiver.receive_next_seq_no.val,
                            rn0,
                            f.val,
                        );
                    }
                },
                Option::None => {},
            }
        }
    }

    /// Either deliver in-order data (and whatever stored ranges it makes
    /// contiguous), or store an out-of-order range and acknowledge at once
    /// so the peer can fast-retransmit.  After a FIN has been consumed,
    /// incoming data is ignored.  `receive_next` ends at or past the
    /// segment's last byte exactly when the segment was in order.
    #[verifier::rlimit(100)]
    pub fn process_data(&mut self, data: ByteBuf, seg_start: SeqNumber) -> (r: Result<
        (),
        TcpError,
    >)
        requires
            old(self).wf(),
            data@.len() >= 1,
            seq_sub(seg_start.val, old(self).receiver.receive_next_seq_no.val) + data@.len()
                <= old(self).rwnd_spec(),
        ensures
            final(self).wf(),
            same_config(*final(self), *old(self)),
            r is Ok,
            final(self).sender == old(self).sender,
            final(self).congestion == old(self).congestion,
            final(self).state == old(self).state,
            final(self).clock_ns == old(self).clock_ns,
            final(self).ingress == old(self).ingress,
            final(self).time_wait_deadline_ns == old(self).time_wait_deadline_ns,
            final(self).parent_close_queue == old(self).parent_close_queue,
            final(self).receiver.reader_next_seq_no == old(self).receiver.reader_next_seq_no,
            ({
                let rn0 = old(self).receiver.receive_next_seq_no.val;
                let off = seq_sub(seg_start.val, rn0) as int;
                let l = data@.len() as u32;
                if off == 0 && may_receive_data(old(self).state) {
                    let (e2, q2, st2, rn2) = drain_model(
                        advance_model(old(self).reassembly.view_entries(), l),
                        old(self).receiver.queue().push(data@),
                        old(self).receiver.stream@ + data@,
                        seq_add(rn0, l),
                    );
                    &&& final(self).reassembly.view_entries() == e2
                    &&& final(self).receiver.queue() == q2
                    &&& final(self).receiver.stream@ == st2
                    &&& final(self).receiver.receive_next_seq_no.val == rn2
                    &&& final(self).outgoing == old(self).outgoing
                    &&& final(self).ack_deadline_ns == old(self).ack_deadline_ns
                    // A recorded FIN that the delivery ran over is dropped.
                    &&& final(self).receiver.fin_seq_no == (
                    if old(self).receiver.fin_seq_no matches Some(f) && seq_lt(f.val, rn2) {
                        Option::<SeqNumber>::None
                    } else {
                        old(self).receiver.fin_seq_no
                    })
                    // The segment's bytes are now all below receive_next.
                    &&& seq_le(seq_add(seg_start.val, l), rn2)
                } else if off != 0 && may_receive_data(old(self).state) {
                    &&& final(self).reassembly.view_entries() == insert_capped(
                        old(self).reassembly.view_entries(),
                        off,
                        data@,
                        old(self).reassembly.cap as int,
                    )
                    &&& final(self).receiver == old(self).receiver
                    // receive_next has not reached the segment's bytes.
                    &&& !seq_le(seq_add(seg_start.val, l),
                        final(self).receiver.receive_next_seq_no.val)
                    // The out-of-order segment is acknowledged at once.
                    &&& final(self).egress().len() == old(self).egress().len() + 1
                    &&& final(self).egress().take(old(self).egress().len() as int) == old(
                        self,
                    ).egress()
                    &&& final(self).egress().last().0.ack
                    &&& final(self).egress().last().0.ack_num == old(
                        self,
                    ).receiver.receive_next_seq_no
                    &&& (final(self).ack_deadline_ns is None)
                } else {
                    &&& final(self).receiver == old(self).receiver
                    &&& final(self).reassembly == old(self).reassembly
                    &&& final(self).outgoing == old(self).outgoing
                    &&& final(self).ack_deadline_ns == old(self).ack_deadline_ns
                }
            }),
    {
        let ghost rn0 = self.receiver.receive_next_seq_no.val;
        let ghost rwnd0 = self.rwnd_spec();
        let in_order: bool = seg_start.val == self.receiver.receive_next_seq_no.val;
        let receiving: bool = match self.state {
            State::Established => true,
            State::FinWait1 => true,
            State::FinWait2 => true,
            _ => false,
        };
        proof {
            crate::seqnum::lemma_seq_sub_zero(seg_start.val, rn0);
        }
        if !receiving {
            return Result::Ok(());
        }
        if in_order {
            let ghost l = data@.len() as u32;
            self.receive_data(data);
            proof {
                crate::seqnum::lemma_seq_add_sub(rn0, l);
                crate::seqnum::lemma_seq_sub_zero(seg_start.val, rn0);
                assert(seq_add(seg_start.val, l) == seq_add(rn0, l));
                crate::seqnum::lemma_seq_sub_zero(
                    self.receiver.receive_next_seq_no.val,
                    seq_add(rn0, l),
                );
            }
        } else {
            let off: u32 = seg_start.minus(self.receiver.receive_next_seq_no);
            let ghost entries0 = self.reassembly.view_entries();
            let ghost dlen = data@.len() as u32;
            proof {
                lemma_insert_model_wf(entries0, off as int, data@, rwnd0 as u32);
                lemma_insert_model_len(entries0, off as int, data@);
                if crate::reassembly::insert_model(entries0, off as int, data@).len()
                    > self.reassembly.cap {
                    lemma_take_wf(
                        crate::reassembly::insert_model(entries0, off as int, data@),
                        rwnd0 as u32,
                        self.reassembly.cap as int,
                    );
                }
            }
            self.reassembly.insert(off, data);
            self.send_ack();
            proof {
                crate::seqnum::lemma_seq_add_sub_linear(seg_start.val, rn0, dlen);
                crate::seqnum::lemma_seq_sub_antisym(seq_add(seg_start.val, dlen), rn0);
            }
        }
        Result::Ok(())
    }

    /// The peer's FIN is next in sequence: consume it.  An end-of-stream
    /// marker wakes readers, `receive_next` moves past the FIN, and the
    /// connection takes the close-machine edge for its state.
    #[verifier::rlimit(100)]
    fn process_fin(&mut self)
        requires
            old(self).wf(),
            may_receive_data(old(self).state),
            old(self).receiver.fin_seq_no matches Some(f) && f == old(
                self,
            ).receiver.receive_next_seq_no,
            old(self).clock_ns <= CLOCK_MAX_NS,
        ensures
            final(self).wf(),
            same_config(*final(self), *old(self)),
            final(self).state == (match old(self).state {
                State::Established => State::CloseWait,
                State::FinWait1 => State::Closing,
                _ => State::TimeWait,
            }),
            final(self).receiver.queue() == old(self).receiver.queue().push(
                Seq::<u8>::empty(),
            ),
            final(self).receiver.receive_next_seq_no.val == seq_add(
                old(self).receiver.receive_next_seq_no.val,
                1,
            ),
            final(self).receiver.reader_next_seq_no == old(self).receiver.reader_next_seq_no,
            final(self).receiver.fin_seq_no == old(self).receiver.fin_seq_no,
            final(self).receiver.stream@ == old(self).receiver.stream@,
            final(self).sender == old(self).sender,
            final(self).congestion == old(self).congestion,
            final(self).reassembly.view_entries() == advance_model(
                old(self).reassembly.view_entries(),
                1,
            ),
            final(self).reassembly.cap == old(self).reassembly.cap,
            final(self).outgoing == old(self).outgoing,
            final(self).ack_deadline_ns == old(self).ack_deadline_ns,
            final(self).clock_ns == old(self).clock_ns,
            final(self).ingress == old(self).ingress,
            final(self).parent_close_queue == old(self).parent_close_queue,
            final(self).time_wait_deadline_ns == (if old(self).state == State::FinWait2 {
                Option::Some(
                    (old(self).clock_ns + match old(self).linger_ns {
                        Option::Some(l) => l as int,
                        Option::None => 2 * MSL_NS,
                    }) as u64,
                )
            } else {
                old(self).time_wait_deadline_ns
            }),
    {
        proof {
            crate::seqnum::lemma_seq_add_sub(old(self).receiver.receive_next_seq_no.val, 1);
            crate::reassembly::lemma_advance_model_tight(
                self.reassembly.view_entries(),
                1,
                self.rwnd_spec() as u32,
            );
        }
        // The FIN occupies one sequence number: the out-of-order store's
        // offsets shift past it as well.
        self.reassembly.advance(1);
        match self.state {
            State::Established => {
                self.state = State::CloseWait;
            },
            State::FinWait1 => {
                self.state = State::Closing;
            },
            _ => {
                self.state = State::TimeWait;
                let wait: u64 = match self.linger_ns {
                    Option::Some(l) => l,
                    Option::None => 2 * MSL_NS,
                };
                self.time_wait_deadline_ns = Option::Some(self.clock_ns + wait);
            },
        }
        self.receiver.push_fin();
    }
}

/// Everything one call of `process_packet` does to the connection, as a
/// relation between the control block before and after, fixed by the
/// segment alone (the ingress and listener-notification queues are not
/// touched there and are framed separately).
#[verifier::opaque]
pub open spec fn packet_effect(
    pre: ControlBlock,
    post: ControlBlock,
    header: TcpHeader,
    data: Seq<u8>,
) -> bool {
    let rn0 = pre.receiver.receive_next_seq_no.val;
    let t = window_trim(rn0, pre.rwnd_spec(), header.seq_num.val, data, header.syn, header.fin);
    if !t.accept {
        // Unacceptable: acknowledged (unless it is an RST) and dropped.
        &&& post.receiver == pre.receiver
        &&& post.reassembly == pre.reassembly
        &&& post.sender == pre.sender
        &&& post.congestion == pre.congestion
        &&& post.state == pre.state
        &&& post.time_wait_deadline_ns == pre.time_wait_deadline_ns
        &&& if header.rst {
            post.outgoing == pre.outgoing && post.ack_deadline_ns == pre.ack_deadline_ns
        } else {
            &&& post.egress().len() == pre.egress().len() + 1
            &&& post.egress().take(pre.egress().len() as int) == pre.egress()
            &&& post.egress().last().0.ack
            &&& post.egress().last().0.ack_num == pre.receiver.receive_next_seq_no
            &&& post.egress().last().0.seq_num == pre.sender.nxt
            &&& (post.ack_deadline_ns is None)
        }
    } else if header.rst {
        // An accepted RST fails the connection hard.
        &&& post.receiver == pre.receiver
        &&& post.reassembly == pre.reassembly
        &&& post.sender == pre.sender
        &&& post.congestion == pre.congestion
        &&& post.state == State::Closed
        &&& post.time_wait_deadline_ns == pre.time_wait_deadline_ns
        &&& post.outgoing == pre.outgoing
        &&& post.ack_deadline_ns == pre.ack_deadline_ns
    } else if t.syn || !header.ack {
        // An in-window SYN, or a segment without ACK: dropped untouched.
        &&& post.receiver == pre.receiver
        &&& post.reassembly == pre.reassembly
        &&& post.sender == pre.sender
        &&& post.congestion == pre.congestion
        &&& post.state == pre.state
        &&& post.time_wait_deadline_ns == pre.time_wait_deadline_ns
        &&& post.outgoing == pre.outgoing
        &&& post.ack_deadline_ns == pre.ack_deadline_ns
    } else if !seq_le(header.ack_num.val, pre.sender.nxt.val) {
        // Acknowledges data never sent: congestion control saw it, the
        // segment is answered and dropped.
        &&& post.receiver == pre.receiver
        &&& post.reassembly == pre.reassembly
        &&& post.sender == pre.sender
        &&& post.state == pre.state
        &&& post.time_wait_deadline_ns == pre.time_wait_deadline_ns
        &&& post.congestion == crate::congestion::on_ack_spec(
            pre.congestion,
            pre.sender.una,
            pre.sender.nxt,
            header.ack_num,
        )
        &&& post.egress().len() == pre.egress().len() + 1
        &&& post.egress().take(pre.egress().len() as int) == pre.egress()
        &&& post.egress().last().0.ack
        &&& post.egress().last().0.ack_num == pre.receiver.receive_next_seq_no
        &&& (post.ack_deadline_ns is None)
    } else {
        // The full pipeline: the acknowledgment advances the sender and
        // the close machine; surviving payload is delivered or stored; a
        // surviving FIN is recorded, consumed when next in sequence, and
        // acknowledged at once; the delayed-ACK timer is armed or paid.
        let state1 = if crate::sender::fin_acked_spec(post.sender) {
            fin_ack_step(pre.state)
        } else {
            pre.state
        };
        let m0 = recv_state(pre);
        let delivering = t.data.len() > 0 && may_receive_data(state1);
        let m1 = if delivering {
            ingest(m0, header.seq_num.val, data, header.syn, header.fin)
        } else {
            m0
        };
        let stored = delivering && t.start != rn0;
        // An in-order delivery drops a recorded FIN it ran over.
        let fin_mid = if delivering && t.start == rn0 && (pre.receiver.fin_seq_no matches Some(
            f,
        ) && seq_lt(f.val, m1.rn)) {
            Option::<SeqNumber>::None
        } else {
            pre.receiver.fin_seq_no
        };
        let fin_pos = seq_add(t.start, t.data.len() as u32);
        let fin1 = if t.fin && (fin_mid is None) && !seq_lt(fin_pos, m1.rn) {
            Option::Some(SeqNumber { val: fin_pos })
        } else {
            fin_mid
        };
        let consume = fin1 == Option::Some(SeqNumber { val: m1.rn }) && may_receive_data(
            state1,
        );
        let idle = stored || t.fin || (pre.ack_deadline_ns is None);
        &&& post.congestion == crate::congestion::on_ack_spec(
            pre.congestion,
            pre.sender.una,
            pre.sender.nxt,
            header.ack_num,
        )
        &&& crate::sender::ack_effect(
            pre.sender,
            post.sender,
            header.ack_num,
            header.window_size,
            pre.clock_ns,
        )
        &&& post.state == (if consume {
            fin_consume_step(state1)
        } else {
            state1
        })
        &&& post.receiver.receive_next_seq_no.val == (if consume {
            seq_add(m1.rn, 1) as int
        } else {
            m1.rn as int
        })
        &&& post.receiver.queue() == (if consume {
            m1.queue.push(Seq::<u8>::empty())
        } else {
            m1.queue
        })
        &&& post.receiver.stream@ == m1.stream
        &&& post.reassembly.view_entries() == (if consume {
            advance_model(m1.entries, 1)
        } else {
            m1.entries
        })
        &&& post.receiver.fin_seq_no == fin1
        &&& post.time_wait_deadline_ns == (if consume && state1 == State::FinWait2 {
            Option::Some(time_wait_ends(pre.clock_ns, pre.linger_ns))
        } else if crate::sender::fin_acked_spec(post.sender) && pre.state == State::Closing {
            Option::Some(time_wait_ends(pre.clock_ns, pre.linger_ns))
        } else {
            pre.time_wait_deadline_ns
        })
        &&& post.ack_deadline_ns == (if idle {
            Option::Some((pre.clock_ns + pre.ack_delay_ns) as u64)
        } else {
            Option::<u64>::None
        })
        // One ACK for stored out-of-order data, one for a FIN, and one
        // when a delayed ACK was already owed and nothing else paid it.
        &&& post.egress().len() == pre.egress().len() + (if stored {
            1int
        } else {
            0int
        }) + (if t.fin {
            1int
        } else {
            0int
        }) + (if !stored && !t.fin && (pre.ack_deadline_ns is Some) {
            1int
        } else {
            0int
        })
        &&& post.egress().take(pre.egress().len() as int) == pre.egress()
        &&& (stored ==> post.egress()[pre.egress().len() as int].0.ack_num.val == rn0)
        &&& ((t.fin || (!stored && (pre.ack_deadline_ns is Some))) ==> ({
            let last = post.egress().last();
            last.0.ack && last.0.ack_num.val == post.receiver.receive_next_seq_no.val
        }))
    }
}

impl ControlBlock {
    /// Process the acknowledgment field.  Congestion control sees every
    /// ACK; an ACK of something we sent advances the sender (SND.UNA never
    /// moves backward, nor past SND.NXT); an ACK of data never sent is
    /// answered with an ACK and dropped; a segment without ACK is dropped.
    pub fn process_ack(&mut self, header: &TcpHeader) -> (r: Result<(), TcpError>)
        requires
            old(self).wf(),
        ensures
            final(self).wf(),
            same_config(*final(self), *old(self)),
            final(self).receiver == old(self).receiver,
            final(self).reassembly == old(self).reassembly,
            final(self).state == old(self).state,
            final(self).clock_ns == old(self).clock_ns,
            final(self).ingress == old(self).ingress,
            final(self).time_wait_deadline_ns == old(self).time_wait_deadline_ns,
            final(self).parent_close_queue == old(self).parent_close_queue,
            !header.ack ==> (r == Result::<(), TcpError>::Err(TcpError::BadMessage)
                && final(self).sender == old(self).sender && final(self).congestion == old(
                self,
            ).congestion && final(self).outgoing == old(self).outgoing
                && final(self).ack_deadline_ns == old(self).ack_deadline_ns),
            header.ack ==> final(self).congestion == crate::congestion::on_ack_spec(
                old(self).congestion,
                old(self).sender.una,
                old(self).sender.nxt,
                header.ack_num,
            ),
            (header.ack && seq_le(header.ack_num.val, old(self).sender.nxt.val)) ==> ({
                let s0 = old(self).sender;
                &&& r is Ok
                &&& final(self).outgoing == old(self).outgoing
                &&& final(self).ack_deadline_ns == old(self).ack_deadline_ns
                &&& crate::sender::ack_effect(
                    s0,
                    final(self).sender,
                    header.ack_num,
                    header.window_size,
                    old(self).clock_ns,
                )
                &&& seq_le(s0.una.val, final(self).sender.una.val)
                &&& seq_sub(final(self).sender.una.val, s0.una.val) <= s0.flight()
                &&& seq_sub(s0.nxt.val, final(self).sender.una.val) <= s0.flight()
            }),
            (header.ack && !seq_le(header.ack_num.val, old(self).sender.nxt.val)) ==> ({
                &&& r == Result::<(), TcpError>::Err(TcpError::BadMessage)
                &&& final(self).sender == old(self).sender
                &&& final(self).egress().len() == old(self).egress().len() + 1
                &&& final(self).egress().take(old(self).egress().len() as int) == old(
                    self,
                ).egress()
                &&& final(self).egress().last().0.ack
                &&& final(self).egress().last().0.ack_num == old(
                    self,
                ).receiver.receive_next_seq_no
                &&& final(self).egress().last().0.seq_num == old(self).sender.nxt
                &&& (final(self).ack_deadline_ns is None)
            }),
    {
        if !header.ack {
            return Result::Err(TcpError::BadMessage);
        }
        let una: SeqNumber = self.sender.get_unacked_seq_no();
        let nxt: SeqNumber = self.sender.get_next_seq_no();
        self.congestion.on_ack_received(una, nxt, header.ack_num);
        if header.ack_num.le(nxt) {
            let now: u64 = self.clock_ns;
            self.sender.process_ack(header.ack_num, header.window_size, now);
            Result::Ok(())
        } else {
            // Acknowledges data we have yet to send: answer and drop.
            self.send_ack();
            Result::Err(TcpError::BadMessage)
        }
    }

    /// Our FIN's acknowledgment drives the close machine: FinWait1 moves
    /// to FinWait2, Closing to TimeWait (starting its timer), and LastAck
    /// to Closed.
    fn advance_close_machine(&mut self)
        requires
            old(self).wf(),
        ensures
            final(self).wf(),
            same_config(*final(self), *old(self)),
            final(self).receiver == old(self).receiver,
            final(self).sender == old(self).sender,
            final(self).congestion == old(self).congestion,
            final(self).reassembly == old(self).reassembly,
            final(self).outgoing == old(self).outgoing,
            final(self).ack_deadline_ns == old(self).ack_deadline_ns,
            final(self).clock_ns == old(self).clock_ns,
            final(self).ingress == old(self).ingress,
            final(self).parent_close_queue == old(self).parent_close_queue,
            ({
                let acked = old(self).sender.fin_seq matches Some(f) && seq_sub(
                    old(self).sender.una.val,
                    f.val,
                ) == 1;
                if acked {
                    &&& final(self).state == (match old(self).state {
                        State::FinWait1 => State::FinWait2,
                        State::Closing => State::TimeWait,
                        State::LastAck => State::Closed,
                        s => s,
                    })
                    &&& final(self).time_wait_deadline_ns == (
                    if old(self).state == State::Closing {
                        Option::Some(
                            (old(self).clock_ns + match old(self).linger_ns {
                                Option::Some(l) => l as int,
                                Option::None => 2 * MSL_NS,
                            }) as u64,
                        )
                    } else {
                        old(self).time_wait_deadline_ns
                    })
                } else {
                    final(self).state == old(self).state && final(self).time_wait_deadline_ns
                        == old(self).time_wait_deadline_ns
                }
            }),
    {
        if self.sender.fin_acked() {
            match self.state {
                State::FinWait1 => {
                    self.state = State::FinWait2;
                },
                State::Closing => {
                    self.state = State::TimeWait;
                    let wait: u64 = match self.linger_ns {
                        Option::Some(l) => l,
                        Option::None => 2 * MSL_NS,
                    };
                    self.time_wait_deadline_ns = Option::Some(self.clock_ns + wait);
                },
                State::LastAck => {
                    self.state = State::Closed;
                },
                _ => {},
            }
        }
    }

    /// The established-state packet pipeline, in its load-bearing order:
    /// the window acceptability test (trimming the segment to the window),
    /// the RST check, the in-window SYN check, acknowledgment processing,
    /// payload data, the FIN flag, FIN consumption, and delayed-ACK
    /// management.  An error means the segment was dropped, or, for
    /// `ConnectionReset`, that the peer reset the connection.
    #[verifier::rlimit(100)]
    #[verifier::spinoff_prover]
    pub fn process_packet(&mut self, header: TcpHeader, data: ByteBuf) -> (r: Result<
        (),
        TcpError,
    >)
        requires
            old(self).wf(),
            data@.len() <= MAX_SEGMENT_BYTES,
        ensures
            final(self).wf(),
            same_config(*final(self), *old(self)),
            final(self).clock_ns == old(self).clock_ns,
            final(self).ingress == old(self).ingress,
            final(self).parent_close_queue == old(self).parent_close_queue,
            final(self).receiver.reader_next_seq_no == old(self).receiver.reader_next_seq_no,
            // SND.UNA is monotone across every packet.
            seq_le(old(self).sender.una.val, final(self).sender.una.val),
            // What the segment did to the connection, fixed entirely by
            // the segment and the state before it.
            packet_effect(*old(self), *final(self), header, data@),
            // Which verdict each pipeline step renders.
            ({
                let t = window_trim(
                    old(self).receiver.receive_next_seq_no.val,
                    old(self).rwnd_spec(),
                    header.seq_num.val,
                    data@,
                    header.syn,
                    header.fin,
                );
                if !t.accept {
                    r == Result::<(), TcpError>::Err(TcpError::BadMessage)
                } else if header.rst {
                    r == Result::<(), TcpError>::Err(TcpError::ConnectionReset)
                } else if t.syn || !header.ack || !seq_le(
                    header.ack_num.val,
                    old(self).sender.nxt.val,
                ) {
                    r == Result::<(), TcpError>::Err(TcpError::BadMessage)
                } else {
                    r is Ok
                }
            }),
    {
        let ghost rn0 = self.receiver.receive_next_seq_no.val;
        let ghost reader0 = self.receiver.reader_next_seq_no.val;
        let ghost rwnd0 = self.rwnd_spec();
        let mut header = header;
        let mut data = data;
        proof {
            lemma_window_trim_in_window(
                rn0,
                rwnd0,
                header.seq_num.val,
                data@,
                header.syn,
                header.fin,
            );
        }
        let ghost horig = header;
        let ghost dorig = data@;
        let seg_start: SeqNumber = match self.check_segment_in_window(&mut header, &mut data) {
            Result::Ok(s) => s,
            Result::Err(e) => {
                proof {
                    reveal(packet_effect);
                }
                return Result::Err(e);
            },
        };
        match self.check_rst(&header) {
            Result::Ok(()) => {},
            Result::Err(e) => {
                proof {
                    reveal(packet_effect);
                }
                return Result::Err(e);
            },
        }
        match self.check_syn(&header) {
            Result::Ok(()) => {},
            Result::Err(e) => {
                proof {
                    reveal(packet_effect);
                }
                return Result::Err(e);
            },
        }
        self.pipeline_rest(header, data, seg_start, Ghost(horig), Ghost(dorig))
    }

    /// The pipeline past the acceptability, RST and SYN checks: the
    /// acknowledgment, the close machine, the payload, and the FIN and
    /// delayed-ACK bookkeeping.  The ghost arguments carry the segment as
    /// it arrived, so the contract speaks of the untrimmed original.
    #[verifier::rlimit(100)]
    #[verifier::spinoff_prover]
    fn pipeline_rest(
        &mut self,
        header: TcpHeader,
        data: ByteBuf,
        seg_start: SeqNumber,
        Ghost(horig): Ghost<TcpHeader>,
        Ghost(dorig): Ghost<Seq<u8>>,
    ) -> (r: Result<(), TcpError>)
        requires
            old(self).wf(),
            dorig.len() <= MAX_SEGMENT_BYTES,
            ({
                let t = window_trim(
                    old(self).receiver.receive_next_seq_no.val,
                    old(self).rwnd_spec(),
                    horig.seq_num.val,
                    dorig,
                    horig.syn,
                    horig.fin,
                );
                &&& t.accept
                &&& !t.syn
                &&& !horig.rst
                &&& header.ack == horig.ack
                &&& header.ack_num == horig.ack_num
                &&& header.window_size == horig.window_size
                &&& !header.rst && !header.syn
                &&& header.fin == t.fin
                &&& data@ == t.data
                &&& seg_start.val == t.start
            }),
        ensures
            final(self).wf(),
            same_config(*final(self), *old(self)),
            final(self).clock_ns == old(self).clock_ns,
            final(self).ingress == old(self).ingress,
            final(self).parent_close_queue == old(self).parent_close_queue,
            final(self).receiver.reader_next_seq_no == old(self).receiver.reader_next_seq_no,
            seq_le(old(self).sender.una.val, final(self).sender.una.val),
            packet_effect(*old(self), *final(self), horig, dorig),
            (if !horig.ack || !seq_le(horig.ack_num.val, old(self).sender.nxt.val) {
                r == Result::<(), TcpError>::Err(TcpError::BadMessage)
            } else {
                r is Ok
            }),
    {
        match self.process_ack(&header) {
            Result::Ok(()) => {},
            Result::Err(e) => {
                proof {
                    reveal(packet_effect);
                }
                return Result::Err(e);
            },
        }
        self.advance_close_machine();
        let ghost s1 = *self;
        // A set URG flag is noted and ignored.
        self.deliver_and_finish(data, seg_start, header.fin, Ghost(horig), Ghost(dorig));
        proof {
            reveal(packet_effect);
            let pre = *old(self);
            // The acknowledgment phase left the receive side alone, so the
            // tail saw the same receive state the segment was tested in.
            assert(recv_state(pre) =~= recv_state(s1));
            assert(crate::sender::fin_acked_spec(self.sender)
                == crate::sender::fin_acked_spec(s1.sender));
        }
        Result::Ok(())
    }

    /// The pipeline's data-and-FIN tail: deliver or store the surviving
    /// payload, then record, consume and acknowledge the FIN and manage
    /// the delayed-ACK timer.  The contract fixes the whole receive-side
    /// outcome over the `ingest` model and the FIN bookkeeping, relative
    /// to the untrimmed segment carried in the ghost arguments.
    #[verifier::rlimit(100)]
    #[verifier::spinoff_prover]
    fn deliver_and_finish(
        &mut self,
        data: ByteBuf,
        seg_start: SeqNumber,
        fin_flag: bool,
        Ghost(horig): Ghost<TcpHeader>,
        Ghost(dorig): Ghost<Seq<u8>>,
    )
        requires
            old(self).wf(),
            dorig.len() <= MAX_SEGMENT_BYTES,
            ({
                let t = window_trim(
                    old(self).receiver.receive_next_seq_no.val,
                    old(self).rwnd_spec(),
                    horig.seq_num.val,
                    dorig,
                    horig.syn,
                    horig.fin,
                );
                &&& t.accept
                &&& !t.syn
                &&& fin_flag == t.fin
                &&& data@ == t.data
                &&& seg_start.val == t.start
            }),
        ensures
            final(self).wf(),
            same_config(*final(self), *old(self)),
            final(self).sender == old(self).sender,
            final(self).congestion == old(self).congestion,
            final(self).clock_ns == old(self).clock_ns,
            final(self).ingress == old(self).ingress,
            final(self).parent_close_queue == old(self).parent_close_queue,
            final(self).receiver.reader_next_seq_no == old(self).receiver.reader_next_seq_no,
            ({
                let rn0 = old(self).receiver.receive_next_seq_no.val;
                let t = window_trim(
                    rn0,
                    old(self).rwnd_spec(),
                    horig.seq_num.val,
                    dorig,
                    horig.syn,
                    horig.fin,
                );
                let m0 = recv_state(*old(self));
                let delivering = t.data.len() > 0 && may_receive_data(old(self).state);
                let m1 = if delivering {
                    ingest(m0, horig.seq_num.val, dorig, horig.syn, horig.fin)
                } else {
                    m0
                };
                let stored = delivering && t.start != rn0;
                let fin_mid = if delivering && t.start == rn0 && (
                old(self).receiver.fin_seq_no matches Some(f) && seq_lt(f.val, m1.rn)) {
                    Option::<SeqNumber>::None
                } else {
                    old(self).receiver.fin_seq_no
                };
                let fin_pos = seq_add(t.start, t.data.len() as u32);
                let fin1 = if t.fin && (fin_mid is None) && !seq_lt(fin_pos, m1.rn) {
                    Option::Some(SeqNumber { val: fin_pos })
                } else {
                    fin_mid
                };
                let consume = fin1 == Option::Some(SeqNumber { val: m1.rn })
                    && may_receive_data(old(self).state);
                let idle = stored || t.fin || (old(self).ack_deadline_ns is None);
                &&& final(self).state == (if consume {
                    fin_consume_step(old(self).state)
                } else {
                    old(self).state
                })
                &&& final(self).receiver.receive_next_seq_no.val == (if consume {
                    seq_add(m1.rn, 1) as int
                } else {
                    m1.rn as int
                })
                &&& final(self).receiver.queue() == (if consume {
                    m1.queue.push(Seq::<u8>::empty())
                } else {
                    m1.queue
                })
                &&& final(self).receiver.stream@ == m1.stream
                &&& final(self).reassembly.view_entries() == (if consume {
                    advance_model(m1.entries, 1)
                } else {
                    m1.entries
                })
                &&& final(self).receiver.fin_seq_no == fin1
                &&& final(self).time_wait_deadline_ns == (if consume && old(self).state
                    == State::FinWait2 {
                    Option::Some(time_wait_ends(old(self).clock_ns, old(self).linger_ns))
                } else {
                    old(self).time_wait_deadline_ns
                })
                &&& final(self).ack_deadline_ns == (if idle {
                    Option::Some((old(self).clock_ns + old(self).ack_delay_ns) as u64)
                } else {
                    Option::<u64>::None
                })
                &&& final(self).egress().len() == old(self).egress().len() + (if stored {
                    1int
                } else {
                    0int
                }) + (if t.fin {
                    1int
                } else {
                    0int
                }) + (if !stored && !t.fin && (old(self).ack_deadline_ns is Some) {
                    1int
                } else {
                    0int
                })
                &&& final(self).egress().take(old(self).egress().len() as int) == old(
                    self,
                ).egress()
                &&& (stored ==> ({
                    let first = final(self).egress()[old(self).egress().len() as int];
                    first.0.ack && first.0.ack_num.val == rn0
                }))
                &&& ((t.fin || (!stored && (old(self).ack_deadline_ns is Some))) ==> ({
                    let last = final(self).egress().last();
                    last.0.ack && last.0.ack_num.val
                        == final(self).receiver.receive_next_seq_no.val
                }))
            }),
    {
        let ghost rn0 = self.receiver.receive_next_seq_no.val;
        let ghost reader0 = self.receiver.reader_next_seq_no.val;
        let data_len: usize = data.len();
        proof {
            lemma_window_trim_in_window(
                rn0,
                self.rwnd_spec(),
                horig.seq_num.val,
                dorig,
                horig.syn,
                horig.fin,
            );
            if fin_flag {
                crate::seqnum::lemma_seq_add_sub_linear(seg_start.val, rn0, data_len as u32);
                crate::seqnum::lemma_seq_sub_triangle(
                    seq_add(seg_start.val, data_len as u32),
                    rn0,
                    reader0,
                );
            }
        }
        self.deliver_payload(data, seg_start, Ghost(horig), Ghost(dorig));
        let ghost s_data = *self;
        self.finish_segment(seg_start, data_len, fin_flag);
        proof {
            assert(self.egress().take(old(self).egress().len() as int) =~= old(self).egress());
            let n0 = old(self).egress().len() as int;
            if s_data.egress().len() > n0 {
                assert(self.egress()[n0] == s_data.egress()[n0]);
            }
        }
    }

    /// The payload phase alone: surviving in-order bytes are delivered
    /// (draining the store behind them), surviving out-of-order bytes are
    /// stored and acknowledged at once, and everything else on the block
    /// stays put.  The outcome is the `ingest` model of the untrimmed
    /// segment in the ghost arguments.
    #[verifier::rlimit(100)]
    #[verifier::spinoff_prover]
    fn deliver_payload(
        &mut self,
        data: ByteBuf,
        seg_start: SeqNumber,
        Ghost(horig): Ghost<TcpHeader>,
        Ghost(dorig): Ghost<Seq<u8>>,
    )
        requires
            old(self).wf(),
            dorig.len() <= MAX_SEGMENT_BYTES,
            ({
                let t = window_trim(
                    old(self).receiver.receive_next_seq_no.val,
                    old(self).rwnd_spec(),
                    horig.seq_num.val,
                    dorig,
                    horig.syn,
                    horig.fin,
                );
                &&& t.accept
                &&& data@ == t.data
                &&& seg_start.val == t.start
            }),
        ensures
            final(self).wf(),
            same_config(*final(self), *old(self)),
            final(self).sender == old(self).sender,
            final(self).congestion == old(self).congestion,
            final(self).clock_ns == old(self).clock_ns,
            final(self).ingress == old(self).ingress,
            final(self).parent_close_queue == old(self).parent_close_queue,
            final(self).receiver.reader_next_seq_no == old(self).receiver.reader_next_seq_no,
            final(self).state == old(self).state,
            final(self).time_wait_deadline_ns == old(self).time_wait_deadline_ns,
            ({
                let rn0 = old(self).receiver.receive_next_seq_no.val;
                let t = window_trim(
                    rn0,
                    old(self).rwnd_spec(),
                    horig.seq_num.val,
                    dorig,
                    horig.syn,
                    horig.fin,
                );
                let m0 = recv_state(*old(self));
                let delivering = t.data.len() > 0 && may_receive_data(old(self).state);
                let m1 = if delivering {
                    ingest(m0, horig.seq_num.val, dorig, horig.syn, horig.fin)
                } else {
                    m0
                };
                let stored = delivering && t.start != rn0;
                let fin_mid = if delivering && t.start == rn0 && (
                old(self).receiver.fin_seq_no matches Some(f) && seq_lt(f.val, m1.rn)) {
                    Option::<SeqNumber>::None
                } else {
                    old(self).receiver.fin_seq_no
                };
                &&& final(self).receiver.receive_next_seq_no.val == m1.rn
                &&& final(self).receiver.queue() == m1.queue
                &&& final(self).receiver.stream@ == m1.stream
                &&& final(self).reassembly.view_entries() == m1.entries
                &&& final(self).receiver.fin_seq_no == fin_mid
                &&& final(self).ack_deadline_ns == (if stored {
                    Option::<u64>::None
                } else {
                    old(self).ack_deadline_ns
                })
                &&& final(self).egress().len() == old(self).egress().len() + (if stored {
                    1int
                } else {
                    0int
                })
                &&& final(self).egress().take(old(self).egress().len() as int) == old(
                    self,
                ).egress()
                &&& (stored ==> ({
                    let first = final(self).egress().last();
                    first.0.ack && first.0.ack_num.val == rn0
                }))
            }),
    {
        let ghost rn0 = self.receiver.receive_next_seq_no.val;
        proof {
            assert(recv_state(*old(self)).bufsize - seq_sub(
                recv_state(*old(self)).rn,
                recv_state(*old(self)).reader,
            ) == old(self).rwnd_spec());
            lemma_window_trim_in_window(
                rn0,
                old(self).rwnd_spec(),
                horig.seq_num.val,
                dorig,
                horig.syn,
                horig.fin,
            );
        }
        let data_len: usize = data.len();
        if data_len > 0 {
            let _ = self.process_data(data, seg_start);
        }
        proof {
            assert(self.egress().take(old(self).egress().len() as int) =~= old(self).egress());
        }
    }

    /// The pipeline's tail: record the segment's FIN, consume a FIN that
    /// is next in sequence, acknowledge a FIN at once, and manage the
    /// delayed-ACK timer (arm it when idle; when an ACK was already owed,
    /// send it now instead).
    #[verifier::rlimit(100)]
    #[verifier::spinoff_prover]
    fn finish_segment(&mut self, seg_start: SeqNumber, data_len: usize, fin_flag: bool)
        requires
            old(self).wf(),
            data_len <= MAX_SEGMENT_BYTES,
            fin_flag ==> seq_sub(
                seq_add(seg_start.val, data_len as u32),
                old(self).receiver.reader_next_seq_no.val,
            ) < old(self).receive_buffer_size_frames,
        ensures
            final(self).wf(),
            same_config(*final(self), *old(self)),
            final(self).sender == old(self).sender,
            final(self).congestion == old(self).congestion,
            final(self).clock_ns == old(self).clock_ns,
            final(self).ingress == old(self).ingress,
            final(self).parent_close_queue == old(self).parent_close_queue,
            final(self).receiver.reader_next_seq_no == old(self).receiver.reader_next_seq_no,
            final(self).receiver.stream@ == old(self).receiver.stream@,
            ({
                let rn1 = old(self).receiver.receive_next_seq_no.val;
                let fin_pos = seq_add(seg_start.val, data_len as u32);
                let fin1 = if fin_flag && old(self).receiver.fin_seq_no is None && !seq_lt(
                    fin_pos,
                    rn1,
                ) {
                    Option::Some(SeqNumber { val: fin_pos })
                } else {
                    old(self).receiver.fin_seq_no
                };
                let consume = fin1 == Option::Some(SeqNumber { val: rn1 })
                    && may_receive_data(old(self).state);
                let idle = fin_flag || (old(self).ack_deadline_ns is None);
                &&& final(self).receiver.fin_seq_no == fin1
                &&& final(self).state == (if consume {
                    fin_consume_step(old(self).state)
                } else {
                    old(self).state
                })
                &&& final(self).receiver.receive_next_seq_no.val == (if consume {
                    seq_add(rn1, 1) as int
                } else {
                    rn1 as int
                })
                &&& final(self).receiver.queue() == (if consume {
                    old(self).receiver.queue().push(Seq::<u8>::empty())
                } else {
                    old(self).receiver.queue()
                })
                &&& final(self).reassembly.view_entries() == (if consume {
                    advance_model(old(self).reassembly.view_entries(), 1)
                } else {
                    old(self).reassembly.view_entries()
                })
                &&& final(self).time_wait_deadline_ns == (if consume && old(self).state
                    == State::FinWait2 {
                    Option::Some(time_wait_ends(old(self).clock_ns, old(self).linger_ns))
                } else {
                    old(self).time_wait_deadline_ns
                })
                // Delayed ACK: arm when no ACK is owed any more, else pay
                // the owed one now.
                &&& final(self).ack_deadline_ns == (if idle {
                    Option::Some((old(self).clock_ns + old(self).ack_delay_ns) as u64)
                } else {
                    Option::<u64>::None
                })
                // A FIN is acknowledged at once; an owed delayed ACK too.
                &&& final(self).egress().len() == old(self).egress().len() + (if fin_flag {
                    1int
                } else {
                    0int
                }) + (if !fin_flag && (old(self).ack_deadline_ns is Some) {
                    1int
                } else {
                    0int
                })
                &&& final(self).egress().take(old(self).egress().len() as int) == old(
                    self,
                ).egress()
                &&& ((fin_flag || (old(self).ack_deadline_ns is Some)) ==> ({
                    let last = final(self).egress().last();
                    last.0.ack && last.0.ack_num.val
                        == final(self).receiver.receive_next_seq_no.val
                }))
            }),
    {
        if fin_flag {
            // Record the FIN's sequence number, unless one is already
            // known (a duplicate or a contradiction: both are ignored) or
            // delivered data already ran past it.
            let fin_pos: SeqNumber = seg_start.plus(data_len as u32);
            match self.receiver.fin_seq_no {
                Option::Some(_) => {},
                Option::None => {
                    if !fin_pos.lt(self.receiver.receive_next_seq_no) {
                        self.receiver.fin_seq_no = Option::Some(fin_pos);
                        proof {
                            crate::seqnum::lemma_seq_sub_antisym(
                                fin_pos.val,
                                self.receiver.receive_next_seq_no.val,
                            );
                        }
                    }
                },
            }
        }
        // Consume the FIN once everything before it has been received.
        proof {
            crate::seqnum::lemma_seq_add_sub(old(self).receiver.receive_next_seq_no.val, 1);
        }
        self.consume_ready_fin();
        if fin_flag {
            // The FIN itself is acknowledged at once.
            self.send_ack();
        }
        self.manage_delayed_ack();
    }

    /// Consume a recorded FIN once it is next in sequence and the state
    /// still receives; otherwise do nothing.
    fn consume_ready_fin(&mut self)
        requires
            old(self).wf(),
        ensures
            final(self).wf(),
            same_config(*final(self), *old(self)),
            final(self).sender == old(self).sender,
            final(self).congestion == old(self).congestion,
            final(self).outgoing == old(self).outgoing,
            final(self).ack_deadline_ns == old(self).ack_deadline_ns,
            final(self).clock_ns == old(self).clock_ns,
            final(self).ingress == old(self).ingress,
            final(self).parent_close_queue == old(self).parent_close_queue,
            final(self).receiver.reader_next_seq_no == old(self).receiver.reader_next_seq_no,
            final(self).receiver.fin_seq_no == old(self).receiver.fin_seq_no,
            final(self).receiver.stream@ == old(self).receiver.stream@,
            ({
                let rn0 = old(self).receiver.receive_next_seq_no.val;
                let consume = old(self).receiver.fin_seq_no == Option::Some(
                    SeqNumber { val: rn0 },
                ) && may_receive_data(old(self).state);
                if consume {
                    &&& final(self).state == fin_consume_step(old(self).state)
                    &&& final(self).receiver.receive_next_seq_no.val == seq_add(rn0, 1)
                    &&& final(self).receiver.queue() == old(self).receiver.queue().push(
                        Seq::<u8>::empty(),
                    )
                    &&& final(self).reassembly.view_entries() == advance_model(
                        old(self).reassembly.view_entries(),
                        1,
                    )
                    &&& final(self).time_wait_deadline_ns == (
                    if old(self).state == State::FinWait2 {
                        Option::Some(time_wait_ends(old(self).clock_ns, old(self).linger_ns))
                    } else {
                        old(self).time_wait_deadline_ns
                    })
                } else {
                    &&& final(self).state == old(self).state
                    &&& final(self).receiver == old(self).receiver
                    &&& final(self).reassembly == old(self).reassembly
                    &&& final(self).time_wait_deadline_ns == old(self).time_wait_deadline_ns
                }
            }),
    {
        let consume: bool = match self.receiver.fin_seq_no {
            Option::Some(f) => f.val == self.receiver.receive_next_seq_no.val,
            Option::None => false,
        };
        let receiving: bool = match self.state {
            State::Established => true,
            State::FinWait1 => true,
            State::FinWait2 => true,
            _ => false,
        };
        proof {
            crate::seqnum::lemma_seq_add_sub(self.receiver.receive_next_seq_no.val, 1);
        }
        if consume && receiving {
            self.process_fin();
        }
    }

    /// Delayed-ACK management: arm the timer when it was idle; when an ACK
    /// was already owed, send it now and leave the timer unarmed.
    fn manage_delayed_ack(&mut self)
        requires
            old(self).wf(),
        ensures
            final(self).wf(),
            same_config(*final(self), *old(self)),
            final(self).sender == old(self).sender,
            final(self).congestion == old(self).congestion,
            final(self).receiver == old(self).receiver,
            final(self).reassembly == old(self).reassembly,
            final(self).state == old(self).state,
            final(self).clock_ns == old(self).clock_ns,
            final(self).ingress == old(self).ingress,
            final(self).parent_close_queue == old(self).parent_close_queue,
            final(self).time_wait_deadline_ns == old(self).time_wait_deadline_ns,
            (old(self).ack_deadline_ns is None) ==> (final(self).ack_deadline_ns
                == Option::<u64>::Some((old(self).clock_ns + old(self).ack_delay_ns) as u64)
                && final(self).outgoing == old(self).outgoing),
            (old(self).ack_deadline_ns is Some) ==> ({
                &&& (final(self).ack_deadline_ns is None)
                &&& final(self).egress().len() == old(self).egress().len() + 1
                &&& final(self).egress().take(old(self).egress().len() as int) == old(
                    self,
                ).egress()
                &&& final(self).egress().last().0.ack
                &&& final(self).egress().last().0.ack_num == old(
                    self,
                ).receiver.receive_next_seq_no
                &&& final(self).egress().last().0.seq_num == old(self).sender.nxt
                &&& (final(self).egress().last().1 is None)
            }),
    {
        match self.ack_deadline_ns {
            Option::None => {
                self.ack_deadline_ns = Option::Some(self.clock_ns + self.ack_delay_ns);
            },
            Option::Some(_) => {
                self.ack_deadline_ns = Option::None;
                self.send_ack();
            },
        }
    }

    /// Handle one queued ingress segment, if any: `Ok(true)` after one was
    /// processed, `Ok(false)` when the queue was empty (the driver should
    /// suspend), and `ConnectionReset` when the connection has ended and
    /// the poll loop must stop; the listener, if any, is then told the
    /// remote endpoint is gone.
    #[verifier::rlimit(100)]
    pub fn poll(&mut self) -> (r: Result<bool, TcpError>)
        requires
            old(self).wf(),
        ensures
            final(self).wf(),
            same_config(*final(self), *old(self)),
            old(self).ingress_view().len() == 0 ==> (r == Result::<bool, TcpError>::Ok(false)
                && *final(self) == *old(self)),
            old(self).ingress_view().len() > 0 ==> {
                &&& final(self).ingress@ == old(self).ingress@.skip(1)
                // The popped segment was processed through the pipeline.
                &&& packet_effect(
                    *old(self),
                    *final(self),
                    old(self).ingress@[0].1,
                    old(self).ingress@[0].2@,
                )
                &&& (r == Result::<bool, TcpError>::Ok(true) || r == Result::<
                    bool,
                    TcpError,
                >::Err(TcpError::ConnectionReset))
                &&& ((r is Err) <==> (final(self).state == State::Closed || final(self).state
                    == State::TimeWait))
                // On the first terminal poll the listener, if any, learns
                // the remote endpoint is gone; never twice.
                &&& (match old(self).parent_close_queue {
                    Option::Some(q) => final(self).parent_close_queue matches Some(q2) && q2@
                        == (if (r is Err) && q@.len() == 0 {
                        q@.push((old(self).remote_ipv4, old(self).remote_port))
                    } else {
                        q@
                    }),
                    Option::None => final(self).parent_close_queue is None,
                })
            },
    {
        if self.ingress.len() == 0 {
            return Result::Ok(false);
        }
        let (_peer, header, data): (u32, TcpHeader, ByteBuf) = self.ingress.remove(0);
        proof {
            assert(old(self).ingress@[0].2@.len() <= MAX_SEGMENT_BYTES);
        }
        let ghost pre1 = *self;
        // A dropped segment is local to itself: the loop continues.
        let _ = self.process_packet(header, data);
        proof {
            // The pipeline never looks at the ingress or listener queues,
            // so its effect holds of the block as `poll` found it.
            reveal(packet_effect);
            assert(pre1.rwnd_spec() == old(self).rwnd_spec());
            assert(pre1.egress() == old(self).egress());
            assert(packet_effect(
                *old(self),
                *self,
                old(self).ingress@[0].1,
                old(self).ingress@[0].2@,
            ));
        }
        let ghost mid = *self;
        let ended: bool = match self.state {
            State::Closed => true,
            State::TimeWait => true,
            _ => false,
        };
        if ended {
            let remote: (u32, u16) = (self.remote_ipv4, self.remote_port);
            match &mut self.parent_close_queue {
                Option::Some(q) => {
                    // The listener is told once, on the first terminal poll.
                    if q.len() == 0 {
                        q.push(remote);
                    }
                },
                Option::None => {},
            }
            proof {
                reveal(packet_effect);
                assert(packet_effect(
                    *old(self),
                    *self,
                    old(self).ingress@[0].1,
                    old(self).ingress@[0].2@,
                ));
            }
            return Result::Err(TcpError::ConnectionReset);
        }
        Result::Ok(true)
    }
}

/// Each segment the background sender put in flight also went out on the
/// wire, in order: the j-th new unacknowledged segment and the j-th newly
/// emitted wire segment agree, each freshly stamped and sampleable, of at
/// most one MSS, acknowledging `receive_next`.
pub open spec fn sent_segments_match(
    un0: Seq<crate::sender::TxSegModel>,
    un1: Seq<crate::sender::TxSegModel>,
    eg0: Seq<(TcpHeader, Option<Seq<u8>>)>,
    eg1: Seq<(TcpHeader, Option<Seq<u8>>)>,
    mss: int,
    clock: u64,
    rn: SeqNumber,
) -> bool {
    &&& un1.len() >= un0.len()
    &&& un1.take(un0.len() as int) == un0
    &&& eg1.len() >= eg0.len()
    &&& eg1.len() - eg0.len() == un1.len() - un0.len()
    &&& (forall|j: int| un0.len() <= j < un1.len() ==> ({
        let m = #[trigger] un1[j];
        let e = eg1[eg0.len() + (j - un0.len())];
        &&& e.0.seq_num.val == m.seq
        &&& e.0.fin == m.fin
        &&& e.0.ack
        &&& e.0.ack_num == rn
        &&& (m.fin ==> (e.1 is None) && m.data.len() == 0)
        &&& (!m.fin ==> e.1 == Option::Some(m.data) && 1 <= m.data.len() <= mss)
        &&& m.time == clock
        &&& m.sampleable
    }))
}

/// One more matched pair extends the correspondence.
pub proof fn lemma_sent_match_push(
    un0: Seq<crate::sender::TxSegModel>,
    un1: Seq<crate::sender::TxSegModel>,
    eg0: Seq<(TcpHeader, Option<Seq<u8>>)>,
    eg1: Seq<(TcpHeader, Option<Seq<u8>>)>,
    m: crate::sender::TxSegModel,
    e: (TcpHeader, Option<Seq<u8>>),
    mss: int,
    clock: u64,
    rn: SeqNumber,
)
    requires
        sent_segments_match(un0, un1, eg0, eg1, mss, clock, rn),
        e.0.seq_num.val == m.seq,
        e.0.fin == m.fin,
        e.0.ack,
        e.0.ack_num == rn,
        m.fin ==> (e.1 is None) && m.data.len() == 0,
        !m.fin ==> e.1 == Option::Some(m.data) && 1 <= m.data.len() <= mss,
        m.time == clock,
        m.sampleable,
    ensures
        sent_segments_match(un0, un1.push(m), eg0, eg1.push(e), mss, clock, rn),
{
    assert(un1.push(m).take(un0.len() as int) =~= un0);
    assert forall|j: int| un0.len() <= j < un1.push(m).len() implies ({
        let mj = #[trigger] un1.push(m)[j];
        let ej = eg1.push(e)[eg0.len() + (j - un0.len())];
        &&& ej.0.seq_num.val == mj.seq
        &&& ej.0.fin == mj.fin
        &&& ej.0.ack
        &&& ej.0.ack_num == rn
        &&& (mj.fin ==> (ej.1 is None) && mj.data.len() == 0)
        &&& (!mj.fin ==> ej.1 == Option::Some(mj.data) && 1 <= mj.data.len() <= mss)
        &&& mj.time == clock
        &&& mj.sampleable
    }) by {
        if j < un1.len() {
            assert(un1.push(m)[j] == un1[j]);
            assert(eg1.push(e)[eg0.len() + (j - un0.len())] == eg1[eg0.len() + (j
                - un0.len())]);
        } else {
            assert(un1.push(m)[j] == m);
            assert(eg1.push(e)[eg0.len() + (j - un0.len())] == e);
        }
    }
}

impl ControlBlock {
    /// Begin a local close.  From Established the connection heads through
    /// FinWait1; from CloseWait (the peer closed first) through LastAck.
    /// In any other state the close is refused.  The FIN itself goes out
    /// with the background sender once the unsent queue drains, and its
    /// acknowledgment drives the rest of the close machine.
    #[verifier::rlimit(100)]
    pub fn close(&mut self) -> (r: Result<(), TcpError>)
        requires
            old(self).wf(),
        ensures
            final(self).wf(),
            same_config(*final(self), *old(self)),
            final(self).receiver == old(self).receiver,
            final(self).reassembly == old(self).reassembly,
            final(self).congestion == old(self).congestion,
            final(self).outgoing == old(self).outgoing,
            final(self).ack_deadline_ns == old(self).ack_deadline_ns,
            final(self).clock_ns == old(self).clock_ns,
            final(self).ingress == old(self).ingress,
            final(self).time_wait_deadline_ns == old(self).time_wait_deadline_ns,
            final(self).parent_close_queue == old(self).parent_close_queue,
            old(self).state == State::Established ==> (r is Ok && final(self).state
                == State::FinWait1 && final(self).sender == (Sender {
                fin_pending: true,
                ..old(self).sender
            })),
            old(self).state == State::CloseWait ==> (r is Ok && final(self).state
                == State::LastAck && final(self).sender == (Sender {
                fin_pending: true,
                ..old(self).sender
            })),
            (old(self).state != State::Established && old(self).state != State::CloseWait)
                ==> (r == Result::<(), TcpError>::Err(TcpError::BadDescriptor) && *final(self)
                == *old(self)),
    {
        match self.state {
            State::Established => {
                self.state = State::FinWait1;
                self.sender.push_fin();
                Result::Ok(())
            },
            State::CloseWait => {
                self.state = State::LastAck;
                self.sender.push_fin();
                Result::Ok(())
            },
            _ => Result::Err(TcpError::BadDescriptor),
        }
    }

    /// Queue application bytes for sending; refused after a local close.
    pub fn push(&mut self, buf: ByteBuf) -> (r: Result<(), TcpError>)
        requires
            old(self).wf(),
            buf@.len() >= 1,
        ensures
            final(self).wf(),
            same_config(*final(self), *old(self)),
            final(self).receiver == old(self).receiver,
            final(self).reassembly == old(self).reassembly,
            final(self).congestion == old(self).congestion,
            final(self).outgoing == old(self).outgoing,
            final(self).state == old(self).state,
            final(self).ack_deadline_ns == old(self).ack_deadline_ns,
            final(self).clock_ns == old(self).clock_ns,
            final(self).ingress == old(self).ingress,
            (old(self).state == State::Established || old(self).state == State::CloseWait)
                ==> (r is Ok && final(self).sender.unsent_view() == old(
                self,
            ).sender.unsent_view().push(buf@) && final(self).sender.una == old(self).sender.una
                && final(self).sender.nxt == old(self).sender.nxt
                && final(self).sender.unacked_view() == old(self).sender.unacked_view()),
            (old(self).state != State::Established && old(self).state != State::CloseWait)
                ==> (r == Result::<(), TcpError>::Err(TcpError::BadDescriptor) && *final(self)
                == *old(self)),
    {
        match self.state {
            State::Established => {
                self.sender.push(buf);
                Result::Ok(())
            },
            State::CloseWait => {
                self.sender.push(buf);
                Result::Ok(())
            },
            _ => Result::Err(TcpError::BadDescriptor),
        }
    }

    /// Take delivered bytes for the application, or `None` when nothing is
    /// ready (the caller suspends).  A returned zero-length buffer is the
    /// end-of-stream marker for the peer's FIN.
    #[verifier::rlimit(100)]
    pub fn pop(&mut self, size: Option<usize>) -> (r: Option<ByteBuf>)
        requires
            old(self).wf(),
            size matches Some(s) ==> s >= 1,
        ensures
            final(self).wf(),
            same_config(*final(self), *old(self)),
            final(self).sender == old(self).sender,
            final(self).congestion == old(self).congestion,
            final(self).reassembly == old(self).reassembly,
            final(self).outgoing == old(self).outgoing,
            final(self).state == old(self).state,
            final(self).ack_deadline_ns == old(self).ack_deadline_ns,
            final(self).clock_ns == old(self).clock_ns,
            final(self).ingress == old(self).ingress,
            final(self).receiver.receive_next_seq_no == old(self).receiver.receive_next_seq_no,
            final(self).receiver.fin_seq_no == old(self).receiver.fin_seq_no,
            final(self).receiver.stream@ == old(self).receiver.stream@,
            old(self).receiver.queue().len() == 0 ==> r is None && *final(self) == *old(self),
            old(self).receiver.queue().len() > 0 ==> {
                &&& r matches Some(b)
                &&& b@ == crate::receiver::pop_result(old(self).receiver.queue(), match size {
                    Option::Some(s) => Option::Some(s as int),
                    Option::None => Option::None,
                })
                &&& final(self).receiver.queue() == crate::receiver::pop_rest(
                    old(self).receiver.queue(),
                    match size {
                        Option::Some(s) => Option::Some(s as int),
                        Option::None => Option::None,
                    },
                )
            },
    {
        let ghost rn0 = self.receiver.receive_next_seq_no.val;
        let ghost reader0 = self.receiver.reader_next_seq_no.val;
        let r = self.receiver.pop(size);
        proof {
            let reader1 = self.receiver.reader_next_seq_no.val;
            crate::seqnum::lemma_seq_sub_antisym(rn0, reader0);
            match old(self).receiver.fin_seq_no {
                Option::Some(f) => {
                    crate::seqnum::lemma_seq_sub_antisym(f.val, rn0);
                    if !seq_lt(f.val, rn0) {
                        // The FIN sits at or past receive_next: the reader
                        // cannot pass it, so its buffer fit is preserved.
                        crate::seqnum::lemma_seq_sub_triangle(f.val, rn0, reader0);
                        if r is Some {
                            crate::seqnum::lemma_seq_sub_shift(
                                f.val,
                                reader0,
                                seq_sub(reader1, reader0),
                            );
                        }
                    }
                },
                Option::None => {},
            }
            crate::reassembly::lemma_entries_wf_widen(
                self.reassembly.view_entries(),
                old(self).rwnd_spec() as u32,
                self.rwnd_spec() as u32,
            );
        }
        r
    }

    /// The delayed-ACK driver's step: when the armed deadline has passed,
    /// send the owed ACK (which disarms the timer).
    pub fn poll_delayed_ack(&mut self)
        requires
            old(self).wf(),
        ensures
            final(self).wf(),
            same_config(*final(self), *old(self)),
            final(self).receiver == old(self).receiver,
            final(self).sender == old(self).sender,
            final(self).congestion == old(self).congestion,
            final(self).reassembly == old(self).reassembly,
            final(self).state == old(self).state,
            final(self).clock_ns == old(self).clock_ns,
            final(self).ingress == old(self).ingress,
            ({
                let due = old(self).ack_deadline_ns matches Some(d) && old(self).clock_ns >= d;
                if due {
                    &&& (final(self).ack_deadline_ns is None)
                    &&& final(self).egress().len() == old(self).egress().len() + 1
                    &&& final(self).egress().take(old(self).egress().len() as int) == old(
                        self,
                    ).egress()
                    &&& final(self).egress().last().0.ack
                    &&& final(self).egress().last().0.ack_num == old(
                        self,
                    ).receiver.receive_next_seq_no
                    &&& final(self).egress().last().0.seq_num == old(self).sender.nxt
                } else {
                    *final(self) == *old(self)
                }
            }),
    {
        let due: bool = match self.ack_deadline_ns {
            Option::Some(d) => self.clock_ns >= d,
            Option::None => false,
        };
        if due {
            self.send_ack();
        }
    }

    /// The TIME-WAIT timer's step: once twice the maximum segment lifetime
    /// (or the linger override) has passed, the connection is closed.
    #[verifier::rlimit(100)]
    pub fn poll_time_wait(&mut self)
        requires
            old(self).wf(),
        ensures
            final(self).wf(),
            same_config(*final(self), *old(self)),
            final(self).receiver == old(self).receiver,
            final(self).sender == old(self).sender,
            final(self).congestion == old(self).congestion,
            final(self).reassembly == old(self).reassembly,
            final(self).outgoing == old(self).outgoing,
            final(self).ack_deadline_ns == old(self).ack_deadline_ns,
            final(self).clock_ns == old(self).clock_ns,
            final(self).ingress == old(self).ingress,
            ({
                let due = old(self).state == State::TimeWait
                    && (old(self).time_wait_deadline_ns matches Some(d) && old(self).clock_ns
                    >= d);
                if due {
                    final(self).state == State::Closed
                } else {
                    final(self).state == old(self).state
                }
            }),
    {
        let in_time_wait: bool = match self.state {
            State::TimeWait => true,
            _ => false,
        };
        let due: bool = in_time_wait && (match self.time_wait_deadline_ns {
            Option::Some(d) => self.clock_ns >= d,
            Option::None => false,
        });
        if due {
            self.state = State::Closed;
        }
    }

    /// The background sender's step: while the send window and congestion
    /// window have room, move bytes from the unsent queue into segments of
    /// at most one MSS and emit them; once the unsent queue is empty, a
    /// pending FIN goes out.  Bytes are conserved: together the unsent and
    /// unacknowledged queues hold the same byte stream afterwards.
    #[verifier::rlimit(100)]
    pub fn background_sender(&mut self)
        requires
            old(self).wf(),
        ensures
            final(self).wf(),
            same_config(*final(self), *old(self)),
            final(self).receiver == old(self).receiver,
            final(self).reassembly == old(self).reassembly,
            final(self).state == old(self).state,
            final(self).congestion == old(self).congestion,
            final(self).clock_ns == old(self).clock_ns,
            final(self).ingress == old(self).ingress,
            final(self).time_wait_deadline_ns == old(self).time_wait_deadline_ns,
            final(self).parent_close_queue == old(self).parent_close_queue,
            final(self).sender.una == old(self).sender.una,
            final(self).sender.rto == old(self).sender.rto,
            final(self).sender.wnd == old(self).sender.wnd,
            // Sending moves bytes, never invents or loses them.
            crate::sender::segs_bytes(final(self).sender.unacked_view())
                + crate::sender::bufs_bytes(final(self).sender.unsent_view())
                == crate::sender::segs_bytes(old(self).sender.unacked_view())
                + crate::sender::bufs_bytes(old(self).sender.unsent_view()),
            // Previously emitted segments are untouched.
            final(self).egress().len() >= old(self).egress().len(),
            final(self).egress().take(old(self).egress().len() as int) == old(self).egress(),
            // The step stops only once the windows are full, or nothing is
            // left to send and no FIN is pending.
            final(self).sender.flight() >= (if old(self).sender.wnd < old(
                self,
            ).congestion.cwnd {
                old(self).sender.wnd
            } else {
                old(self).congestion.cwnd
            }) || (final(self).sender.unsent_view().len() == 0
                && !final(self).sender.fin_pending),
            // Everything newly in flight went out on the wire, matched
            // segment for segment.
            sent_segments_match(
                old(self).sender.unacked_view(),
                final(self).sender.unacked_view(),
                old(self).egress(),
                final(self).egress(),
                old(self).sender.mss as int,
                old(self).clock_ns,
                old(self).receiver.receive_next_seq_no,
            ),
    {
        let ghost un_base = self.sender.unacked_view();
        let ghost total = crate::sender::segs_bytes(self.sender.unacked_view())
            + crate::sender::bufs_bytes(self.sender.unsent_view());
        let ghost egress0 = self.egress();
        proof {
            assert(un_base.take(un_base.len() as int) =~= un_base);
        }
        let mut guard: bool = true;
        while guard
            invariant
                self.wf(),
                same_config(*self, *old(self)),
                self.receiver == old(self).receiver,
                self.reassembly == old(self).reassembly,
                self.state == old(self).state,
                self.congestion == old(self).congestion,
                self.clock_ns == old(self).clock_ns,
                self.ingress == old(self).ingress,
                self.time_wait_deadline_ns == old(self).time_wait_deadline_ns,
                self.parent_close_queue == old(self).parent_close_queue,
                self.sender.una == old(self).sender.una,
                self.sender.rto == old(self).sender.rto,
                self.sender.wnd == old(self).sender.wnd,
                self.sender.mss == old(self).sender.mss,
                crate::sender::segs_bytes(self.sender.unacked_view())
                    + crate::sender::bufs_bytes(self.sender.unsent_view()) == total,
                self.egress().len() >= egress0.len(),
                self.egress().take(egress0.len() as int) == egress0,
                sent_segments_match(
                    un_base,
                    self.sender.unacked_view(),
                    egress0,
                    self.egress(),
                    old(self).sender.mss as int,
                    old(self).clock_ns,
                    old(self).receiver.receive_next_seq_no,
                ),
                !guard ==> (self.sender.flight() >= (if old(self).sender.wnd < old(
                    self,
                ).congestion.cwnd {
                    old(self).sender.wnd
                } else {
                    old(self).congestion.cwnd
                }) || (self.sender.unsent_view().len() == 0 && !self.sender.fin_pending)),
            decreases crate::sender::bufs_bytes(self.sender.unsent_view()).len() + (
            if self.sender.fin_pending {
                1int
            } else {
                0int
            }), (if guard {
                1int
            } else {
                0int
            }),
        {
            let flight: u32 = self.sender.get_next_seq_no().minus(
                self.sender.get_unacked_seq_no(),
            );
            let cwnd: u32 = self.congestion.get_cwnd();
            let wnd: u32 = if self.sender.wnd < cwnd {
                self.sender.wnd
            } else {
                cwnd
            };
            if flight >= wnd {
                guard = false;
            } else if self.sender.unsent.len() > 0 {
                let ghost unacked0 = self.sender.unacked_view();
                let ghost unsent0 = self.sender.unsent_view();
                let ghost e_pre = self.egress();
                let allowed: u32 = wnd - flight;
                let mss: usize = self.sender.mss;
                let max_bytes: usize = if mss < allowed as usize {
                    mss
                } else {
                    allowed as usize
                };
                let now: u64 = self.clock_ns;
                proof {
                    assert(unsent0[0] == self.sender.unsent@[0]@);
                }
                match self.sender.dequeue_chunk(max_bytes, now) {
                    Option::Some((seq, chunk)) => {
                        let ghost chunk_v = chunk@;
                        let chunk_len: u32 = chunk.len() as u32;
                        let mut header: TcpHeader = self.tcp_header();
                        header.seq_num = seq;
                        self.emit(header, Option::Some(chunk));
                        self.congestion_control_on_send(chunk_len);
                        proof {
                            let take = if unsent0[0].len() > max_bytes {
                                max_bytes as int
                            } else {
                                unsent0[0].len() as int
                            };
                            let m = crate::sender::TxSegModel {
                                seq: seq.val,
                                data: unsent0[0].take(take),
                                fin: false,
                                time: now,
                                sampleable: true,
                            };
                            crate::sender::lemma_chunk_conserved(unacked0, unsent0, m, take);
                            assert(self.egress().take(egress0.len() as int) =~= egress0);
                            lemma_sent_match_push(
                                un_base,
                                unacked0,
                                egress0,
                                e_pre,
                                m,
                                (header, Option::Some(chunk_v)),
                                old(self).sender.mss as int,
                                old(self).clock_ns,
                                old(self).receiver.receive_next_seq_no,
                            );
                        }
                    },
                    Option::None => {
                        guard = false;
                    },
                }
            } else if self.sender.fin_pending {
                let ghost unacked0 = self.sender.unacked_view();
                let ghost e_pre = self.egress();
                let now: u64 = self.clock_ns;
                let fin_seq: SeqNumber = self.sender.send_fin(now);
                let mut header: TcpHeader = self.tcp_header();
                header.seq_num = fin_seq;
                header.fin = true;
                self.emit(header, Option::None);
                guard = false;
                proof {
                    let m = crate::sender::TxSegModel {
                        seq: fin_seq.val,
                        data: Seq::<u8>::empty(),
                        fin: true,
                        time: now,
                        sampleable: true,
                    };
                    crate::sender::lemma_segs_bytes_push(unacked0, m);
                    assert(crate::sender::segs_bytes(self.sender.unacked_view())
                        =~= crate::sender::segs_bytes(unacked0));
                    assert(self.egress().take(egress0.len() as int) =~= egress0);
                    lemma_sent_match_push(
                        un_base,
                        unacked0,
                        egress0,
                        e_pre,
                        m,
                        (header, Option::None),
                        old(self).sender.mss as int,
                        old(self).clock_ns,
                        old(self).receiver.receive_next_seq_no,
                    );
                }
            } else {
                guard = false;
            }
        }
    }

    /// The background retransmitter's step: on the fast-retransmit signal,
    /// or when the head of the unacknowledged queue has outlived the RTO,
    /// re-emit that segment.  A retransmitted segment is never sampled
    /// again; a timeout also doubles the RTO and collapses the congestion
    /// window.
    #[verifier::rlimit(100)]
    pub fn background_retransmitter(&mut self)
        requires
            old(self).wf(),
        ensures
            final(self).wf(),
            same_config(*final(self), *old(self)),
            final(self).receiver == old(self).receiver,
            final(self).reassembly == old(self).reassembly,
            final(self).state == old(self).state,
            final(self).clock_ns == old(self).clock_ns,
            final(self).ingress == old(self).ingress,
            final(self).sender.una == old(self).sender.una,
            final(self).sender.nxt == old(self).sender.nxt,
            final(self).sender.unsent_view() == old(self).sender.unsent_view(),
            final(self).sender.fin_seq == old(self).sender.fin_seq,
            final(self).sender.fin_pending == old(self).sender.fin_pending,
            final(self).egress().len() >= old(self).egress().len(),
            final(self).egress().take(old(self).egress().len() as int) == old(self).egress(),
            ({
                let v = old(self).sender.unacked_view();
                if old(self).congestion.retransmit_now {
                    // Fast retransmit: the head goes out again and the
                    // signal is consumed; the RTO is left alone.
                    &&& !final(self).congestion.retransmit_now
                    &&& final(self).sender.rto == old(self).sender.rto
                    &&& (v.len() > 0 ==> {
                        &&& final(self).egress().len() == old(self).egress().len() + 1
                        &&& final(self).egress().last().0.seq_num.val == v[0].seq
                        &&& final(self).egress().last().1 == Option::Some(v[0].data)
                        &&& final(self).sender.unacked_view() == v.update(
                            0,
                            crate::sender::TxSegModel {
                                time: old(self).clock_ns,
                                sampleable: false,
                                ..v[0]
                            },
                        )
                    })
                } else if v.len() > 0 && v[0].time + old(self).sender.rto.rto_ns <= old(
                    self,
                ).clock_ns {
                    // Retransmission timeout: the head goes out again, the
                    // RTO doubles, and the congestion window collapses.
                    &&& final(self).egress().len() == old(self).egress().len() + 1
                    &&& final(self).egress().last().0.seq_num.val == v[0].seq
                    &&& final(self).egress().last().1 == Option::Some(v[0].data)
                    &&& final(self).sender.unacked_view() == v.update(
                        0,
                        crate::sender::TxSegModel {
                            time: old(self).clock_ns,
                            sampleable: false,
                            ..v[0]
                        },
                    )
                    &&& final(self).sender.rto.rto_ns == (if 2 * old(self).sender.rto.rto_ns
                        > crate::rto::RTO_MAX_NS {
                        crate::rto::RTO_MAX_NS as int
                    } else {
                        2 * old(self).sender.rto.rto_ns
                    })
                    &&& final(self).congestion.cwnd == old(self).congestion.mss
                } else {
                    *final(self) == *old(self)
                }
            }),
    {
        if self.congestion.get_retransmit_now_flag() {
            let now: u64 = self.clock_ns;
            match self.sender.head_for_retransmit(now) {
                Option::Some((seq, body, fin)) => {
                    let mut header: TcpHeader = self.tcp_header();
                    header.seq_num = seq;
                    header.fin = fin;
                    let ghost e0 = self.egress();
                    self.emit(header, Option::Some(body));
                    proof {
                        assert(self.egress().take(e0.len() as int) =~= e0);
                    }
                },
                Option::None => {},
            }
            self.congestion.on_fast_retransmit();
        } else {
            let deadline: Option<u64> = self.sender.next_rto_deadline();
            let due: bool = match deadline {
                Option::Some(d) => d <= self.clock_ns,
                Option::None => false,
            };
            if due {
                let now: u64 = self.clock_ns;
                match self.sender.head_for_retransmit(now) {
                    Option::Some((seq, body, fin)) => {
                        let mut header: TcpHeader = self.tcp_header();
                        header.seq_num = seq;
                        header.fin = fin;
                        let ghost e0 = self.egress();
                        self.emit(header, Option::Some(body));
                        proof {
                            assert(self.egress().take(e0.len() as int) =~= e0);
                        }
                    },
                    Option::None => {},
                }
                self.sender.rto.back_off();
                let una: SeqNumber = self.sender.get_unacked_seq_no();
                self.congestion.on_rto(una);
            }
        }
    }
}

/// The receiver's state as the data path sees it: the reader and
/// receive-next positions, the buffer size, the out-of-order store and its
/// cap, the delivery queue, and the delivered byte stream.
#[verifier::ext_equal]
pub struct RecvState {
    pub reader: u32,
    pub rn: u32,
    pub bufsize: u32,
    pub cap: int,
    pub entries: Entries,
    pub queue: Seq<Seq<u8>>,
    pub stream: Seq<u8>,
}

pub open spec fn recv_wf(m: RecvState) -> bool {
    &&& m.bufsize <= 0x4000_0000
    &&& seq_sub(m.rn, m.reader) <= m.bufsize
    &&& entries_wf(m.entries, (m.bufsize - seq_sub(m.rn, m.reader)) as u32)
    &&& m.cap >= 1
}

/// The receive-path components of a control block.
pub open spec fn recv_state(cb: ControlBlock) -> RecvState {
    RecvState {
        reader: cb.receiver.reader_next_seq_no.val,
        rn: cb.receiver.receive_next_seq_no.val,
        bufsize: cb.receive_buffer_size_frames,
        cap: cb.reassembly.cap as int,
        entries: cb.reassembly.view_entries(),
        queue: cb.receiver.queue(),
        stream: cb.receiver.stream@,
    }
}

/// One segment's payload through the receive path.  This is the
/// composition of `check_segment_in_window`'s contract (the `window_trim`
/// outcome) with `process_data`'s (delivery with `drain_model`, or storage
/// with `insert_capped`): the window test trims the segment; surviving
/// in-order bytes are delivered and drain the store; surviving
/// out-of-order bytes are stored.
pub open spec fn ingest(m: RecvState, start: u32, data: Seq<u8>, syn: bool, fin: bool) -> RecvState {
    let rwnd = m.bufsize - seq_sub(m.rn, m.reader);
    let t = window_trim(m.rn, rwnd, start, data, syn, fin);
    if !t.accept || t.data.len() == 0 {
        m
    } else if t.start == m.rn {
        let (e2, q2, st2, rn2) = drain_model(
            advance_model(m.entries, t.data.len() as u32),
            m.queue.push(t.data),
            m.stream + t.data,
            seq_add(m.rn, t.data.len() as u32),
        );
        RecvState { rn: rn2, entries: e2, queue: q2, stream: st2, ..m }
    } else {
        RecvState {
            entries: insert_capped(m.entries, seq_sub(t.start, m.rn) as int, t.data, m.cap),
            ..m
        }
    }
}

/// Delivering the same segment twice is the same as delivering it once.
/// An in-order segment's bytes all sit below `receive_next` afterwards, so
/// the second copy is recognized as wholly duplicate (or, when it filled
/// the window exactly, trimmed to nothing); a stored out-of-order segment
/// is covered by the store, so the second insertion changes nothing.  The
/// one input left out is a store already grown to its cap, where the first
/// insertion may itself have been dropped from the tail.
#[verifier::rlimit(100)]
pub proof fn lemma_ingest_twice(m: RecvState, start: u32, data: Seq<u8>)
    requires
        recv_wf(m),
        data.len() <= MAX_SEGMENT_BYTES,
        m.entries.len() < m.cap,
    ensures
        ingest(ingest(m, start, data, false, false), start, data, false, false) == ingest(
            m,
            start,
            data,
            false,
            false,
        ),
{
    let rwnd = m.bufsize - seq_sub(m.rn, m.reader);
    let t = window_trim(m.rn, rwnd, start, data, false, false);
    lemma_window_trim_in_window(m.rn, rwnd, start, data, false, false);
    let m1 = ingest(m, start, data, false, false);
    if !t.accept || t.data.len() == 0 {
        // Nothing changed: the second pass sees the same state.
        assert(m1 == m);
    } else if t.start == m.rn {
        // Delivered in order.  Afterwards receive_next sits at or past the
        // segment's end, or the window is exhausted; either way the second
        // copy contributes nothing.
        let l = t.data.len() as u32;
        let (e2, q2, st2, rn2) = drain_model(
            advance_model(m.entries, l),
            m.queue.push(t.data),
            m.stream + t.data,
            seq_add(m.rn, l),
        );
        crate::reassembly::lemma_advance_model_tight(m.entries, l, rwnd as u32);
        lemma_drain_model_props(
            advance_model(m.entries, l),
            m.queue.push(t.data),
            m.stream + t.data,
            seq_add(m.rn, l),
            (rwnd - l) as u32,
        );
        crate::seqnum::lemma_seq_add_sub(m.rn, l);
        crate::seqnum::lemma_seq_sub_triangle(rn2, seq_add(m.rn, l), m.rn);
        // The advance this delivery made, measured from the old rn.
        let adv = seq_sub(rn2, m.rn) as int;
        assert(l <= adv <= rwnd);
        crate::seqnum::lemma_seq_sub_triangle(rn2, m.rn, m.reader);
        let rwnd1 = m1.bufsize - seq_sub(m1.rn, m1.reader);
        assert(rwnd1 == rwnd - adv);
        // Where does the original segment sit relative to the new rn?
        crate::seqnum::lemma_seq_sub_antisym(start, m.rn);
        let seg_len = data.len() as int;
        let seg_end = seq_add(start, (seg_len - 1) as u32);
        let t2 = window_trim(m1.rn, rwnd1, start, data, false, false);
        if seq_lt(start, m.rn) {
            // The first pass already cut a duplicate front; the back
            // distance is within the segment.
            let back = seq_sub(m.rn, start) as int;
            assert(back < 0x8000_0000);
            assert(t.data.len() == data.len() - back || t.data.len() == rwnd - 0);
            crate::seqnum::lemma_seq_sub_triangle(rn2, m.rn, start);
            assert(seq_sub(rn2, start) == adv + back);
            if seg_len <= back + adv {
                // Wholly duplicate on the second pass.
                crate::seqnum::lemma_seq_add_sub_linear(start, start, (seg_len - 1) as u32);
                crate::seqnum::lemma_seq_sub_shift_wrap(seg_end, start, (back + adv) as u32);
                crate::seqnum::lemma_seq_sub_antisym(seg_end, rn2);
                assert(seq_lt(seg_end, m1.rn));
                assert(!t2.accept);
                assert(ingest(m1, start, data, false, false) == m1);
            } else {
                // Some bytes still lie past the new rn: they were trimmed
                // at the window's edge, which the delivery has now
                // reached, so the second pass is rejected outright.
                assert(adv == rwnd);
                assert(rwnd1 == 0);
                assert(!t2.accept);
                assert(ingest(m1, start, data, false, false) == m1);
            }
        } else {
            // The segment started exactly at the old rn.
            assert(start == m.rn);
            crate::seqnum::lemma_seq_sub_zero(start, m.rn);
            if seg_len <= adv {
                crate::seqnum::lemma_seq_add_sub_linear(start, start, (seg_len - 1) as u32);
                crate::seqnum::lemma_seq_sub_shift_wrap(seg_end, start, adv as u32);
                crate::seqnum::lemma_seq_sub_antisym(seg_end, rn2);
                assert(seq_lt(seg_end, m1.rn));
                assert(!t2.accept);
                assert(ingest(m1, start, data, false, false) == m1);
            } else {
                // The delivery filled the window exactly: the remaining
                // bytes meet a closed window and the second pass is
                // rejected outright.
                assert(adv == rwnd);
                assert(rwnd1 == 0);
                assert(!t2.accept);
                assert(ingest(m1, start, data, false, false) == m1);
            }
        }
    } else {
        // Stored out of order.  The store now covers the whole range, so
        // inserting it again changes nothing.
        let off = seq_sub(t.start, m.rn) as int;
        crate::reassembly::lemma_insert_twice(m.entries, off, t.data, rwnd as u32, m.cap);
        assert(ingest(m1, start, data, false, false) == m1);
    }
}

} // verus!
