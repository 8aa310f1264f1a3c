//! The TCP header fields the engine reads and writes: sequence and
//! acknowledgment numbers, the SYN / FIN / RST / ACK / URG flags, and the
//! (pre-scale) window field.

use vstd::prelude::*;
use crate::seqnum::SeqNumber;

verus! {

/// A TCP header, reduced to the fields the established-state engine uses.
#[derive(Clone, Copy, PartialEq, Eq, Structural, Debug)]
pub struct TcpHeader {
    pub src_port: u16,
    pub dst_port: u16,
    pub seq_num: SeqNumber,
    pub ack_num: SeqNumber,
    pub ack: bool,
    pub rst: bool,
    pub syn: bool,
    pub fin: bool,
    pub urg: bool,
    /// The advertised window as carried on the wire, before scaling.
    pub window_size: u16,
}

impl TcpHeader {
    /// A header between the given ports with all flags clear and zero
    /// sequence fields.
    pub fn new(src_port: u16, dst_port: u16) -> (r: TcpHeader)
        ensures
            r.src_port == src_port,
            r.dst_port == dst_port,
            r.seq_num.val == 0,
            r.ack_num.val == 0,
            !r.ack && !r.rst && !r.syn && !r.fin && !r.urg,
            r.window_size == 0,
    {
        TcpHeader {
            src_port,
            dst_port,
            seq_num: SeqNumber::new(0),
            ack_num: SeqNumber::new(0),
            ack: false,
            rst: false,
            syn: false,
            fin: false,
            urg: false,
            window_size: 0,
        }
    }
}

} // verus!
