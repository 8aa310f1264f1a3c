//! An established-state TCP connection engine.
//!
//! The engine owns a single connected TCP endpoint after the three-way
//! handshake has completed and drives it through in-order delivery,
//! out-of-order reassembly, retransmission, congestion control, delayed
//! acknowledgment, and the four-way close sequence, until the connection
//! reaches the `Closed` state.
//!
//! The engine is a synchronous state machine: packets arrive through an
//! ingress queue, outgoing segments are collected on an egress queue, and
//! time enters as an explicit clock value.  A driver owns the actual I/O
//! (a layer-3 endpoint and a task runtime) and feeds the engine.

pub mod bytebuf;
pub mod congestion;
pub mod ctrlblk;
pub mod errors;
pub mod header;
pub mod reassembly;
pub mod receiver;
pub mod rto;
pub mod sender;
pub mod seqnum;
pub mod wscale;
