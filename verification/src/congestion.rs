//! Reno congestion control: slow start until `ssthresh`, additive increase
//! above it, fast retransmit on the third duplicate ACK with fast recovery
//! (RFC 5681), and limited transmit on the first two duplicates (RFC 3042).
//!
//! The control exposes the capability set the sender and retransmitter
//! consume: the congestion window, a "retransmit now" flag raised on the
//! third duplicate ACK, and the limited-transmit allowance.

use vstd::prelude::*;
use crate::seqnum::{seq_sub, SeqNumber};

verus! {

/// The congestion window never grows past 1 GiB, which keeps all window
/// arithmetic comfortably inside `u32`.
pub const CWND_MAX: u32 = 0x4000_0000;

/// `x + y`, saturating at `CWND_MAX`.
pub open spec fn cwnd_add(x: int, y: int) -> int {
    if x + y > CWND_MAX {
        CWND_MAX as int
    } else {
        x + y
    }
}

/// Reno after one acknowledgment.  A duplicate ACK (`ack == una` with data
/// in flight) counts toward fast retransmit, saturating at four since all
/// later duplicates behave alike: the first two grant the RFC 3042
/// limited-transmit allowance, the third halves the threshold, inflates
/// the window, and raises the retransmit-now flag, and later ones inflate
/// the window by one segment.  A new ACK deflates to the threshold after
/// fast recovery, or grows the window by slow start below the threshold
/// and by about one segment per window above it.  Anything else is an old
/// ACK and changes nothing.
pub open spec fn on_ack_spec(c: Reno, una: SeqNumber, nxt: SeqNumber, ack: SeqNumber) -> Reno {
    let flight = seq_sub(nxt.val, una.val) as int;
    let acked = seq_sub(ack.val, una.val) as int;
    if ack.val == una.val && flight > 0 {
        let dups = if c.duplicate_acks < 4 {
            c.duplicate_acks + 1
        } else {
            4int
        };
        if dups < 3 {
            Reno {
                duplicate_acks: dups as u32,
                limited_transmit_increase: if dups == 1 {
                    c.mss
                } else {
                    (2 * c.mss) as u32
                },
                ..c
            }
        } else if dups == 3 {
            let half = if flight / 2 >= 2 * c.mss {
                flight / 2
            } else {
                2 * c.mss
            };
            Reno {
                duplicate_acks: dups as u32,
                ssthresh: half as u32,
                cwnd: cwnd_add(half, 3 * c.mss) as u32,
                in_fast_recovery: true,
                retransmit_now: true,
                limited_transmit_increase: 0,
                ..c
            }
        } else {
            Reno {
                duplicate_acks: dups as u32,
                cwnd: cwnd_add(c.cwnd as int, c.mss as int) as u32,
                limited_transmit_increase: 0,
                ..c
            }
        }
    } else if 0 < acked <= flight {
        let new_cwnd = if c.in_fast_recovery {
            c.ssthresh as int
        } else if c.cwnd < c.ssthresh {
            let grow = if acked >= c.mss {
                c.mss as int
            } else {
                acked
            };
            cwnd_add(c.cwnd as int, grow)
        } else {
            let grow = (c.mss * c.mss) as int / c.cwnd as int;
            cwnd_add(c.cwnd as int, if grow >= 1 {
                grow
            } else {
                1int
            })
        };
        Reno {
            duplicate_acks: 0,
            in_fast_recovery: false,
            retransmit_now: false,
            limited_transmit_increase: 0,
            cwnd: new_cwnd as u32,
            ..c
        }
    } else {
        c
    }
}

/// Reno's state.
#[verifier::ext_equal]
pub struct Reno {
    /// Maximum segment size, in bytes.
    pub mss: u32,
    /// The congestion window.
    pub cwnd: u32,
    /// The slow-start threshold.
    pub ssthresh: u32,
    /// Consecutive duplicate ACKs seen since the last new ACK.
    pub duplicate_acks: u32,
    /// Between the third duplicate ACK and the next new ACK.
    pub in_fast_recovery: bool,
    /// Raised on the third duplicate ACK; the retransmitter consumes it.
    pub retransmit_now: bool,
    /// RFC 3042 allowance: extra bytes the sender may have in flight while
    /// one or two duplicate ACKs are outstanding.
    pub limited_transmit_increase: u32,
}

impl Reno {
    /// The state a fresh connection starts from: the RFC 5681 initial
    /// window, the threshold left at the cap, nothing counted or raised.
    pub open spec fn initial_spec(mss: u32) -> Reno {
        Reno {
            mss,
            cwnd: if 4 * mss >= 4380 && 4380 >= 2 * mss {
                4380u32
            } else if 4 * mss < 4380 {
                (4 * mss) as u32
            } else {
                (2 * mss) as u32
            },
            ssthresh: CWND_MAX,
            duplicate_acks: 0,
            in_fast_recovery: false,
            retransmit_now: false,
            limited_transmit_increase: 0,
        }
    }

    pub open spec fn wf(self) -> bool {
        &&& 1 <= self.mss <= 0x1_0000
        &&& 1 <= self.cwnd <= CWND_MAX
        &&& 2 * self.mss <= self.ssthresh <= CWND_MAX
        &&& self.limited_transmit_increase <= 2 * self.mss
        &&& self.duplicate_acks <= 4
    }

    /// A fresh connection: the RFC 5681 initial window, and a slow-start
    /// threshold left at the cap.
    pub fn new(mss: u32) -> (r: Reno)
        requires
            1 <= mss <= 0x1_0000,
        ensures
            r.wf(),
            r == Reno::initial_spec(mss),
            r.mss == mss,
            r.cwnd == if 4 * mss >= 4380 && 4380 >= 2 * mss {
                4380int
            } else if 4 * mss < 4380 {
                4 * mss
            } else {
                2 * mss
            },
            r.ssthresh == CWND_MAX,
            r.duplicate_acks == 0,
            !r.in_fast_recovery,
            !r.retransmit_now,
            r.limited_transmit_increase == 0,
    {
        // IW = min(4*MSS, max(2*MSS, 4380 bytes)) per RFC 5681.
        let upper: u32 = 4 * mss;
        let lower: u32 = if 2 * mss >= 4380 {
            2 * mss
        } else {
            4380
        };
        let cwnd: u32 = if upper < lower {
            upper
        } else {
            lower
        };
        Reno {
            mss,
            cwnd,
            ssthresh: CWND_MAX,
            duplicate_acks: 0,
            in_fast_recovery: false,
            retransmit_now: false,
            limited_transmit_increase: 0,
        }
    }

    pub fn get_cwnd(&self) -> (r: u32)
        ensures
            r == self.cwnd,
    {
        self.cwnd
    }

    pub fn get_retransmit_now_flag(&self) -> (r: bool)
        ensures
            r == self.retransmit_now,
    {
        self.retransmit_now
    }

    pub fn get_limited_transmit_cwnd_increase(&self) -> (r: u32)
        ensures
            r == self.limited_transmit_increase,
    {
        self.limited_transmit_increase
    }

    /// An ACK arrived.  `una` and `nxt` are SND.UNA and SND.NXT before the
    /// sender processes it; `ack` is the segment's acknowledgment number.
    /// A duplicate (`ack == una` with data in flight) counts toward fast
    /// retransmit; a new ACK grows the window and ends fast recovery.
    pub fn on_ack_received(&mut self, una: SeqNumber, nxt: SeqNumber, ack: SeqNumber)
        requires
            old(self).wf(),
            seq_sub(nxt.val, una.val) < 0x8000_0000,
        ensures
            final(self).wf(),
            *final(self) == on_ack_spec(*old(self), una, nxt, ack),
    {
        let flight: u32 = nxt.minus(una);
        let acked: u32 = ack.minus(una);
        if ack.val == una.val && flight > 0 {
            if self.duplicate_acks < 4 {
                self.duplicate_acks = self.duplicate_acks + 1;
            }
            if self.duplicate_acks < 3 {
                // RFC 3042 limited transmit.
                self.limited_transmit_increase = if self.duplicate_acks == 1 {
                    self.mss
                } else {
                    2 * self.mss
                };
            } else if self.duplicate_acks == 3 {
                let half: u32 = if flight / 2 >= 2 * self.mss {
                    flight / 2
                } else {
                    2 * self.mss
                };
                self.ssthresh = half;
                self.cwnd = if half > CWND_MAX - 3 * self.mss {
                    CWND_MAX
                } else {
                    half + 3 * self.mss
                };
                self.in_fast_recovery = true;
                self.retransmit_now = true;
                self.limited_transmit_increase = 0;
            } else {
                // Window inflation while in fast recovery.
                self.cwnd = if self.cwnd > CWND_MAX - self.mss {
                    CWND_MAX
                } else {
                    self.cwnd + self.mss
                };
                self.limited_transmit_increase = 0;
            }
        } else if 0 < acked && acked <= flight {
            if self.in_fast_recovery {
                // Deflate back to the threshold.
                self.cwnd = self.ssthresh;
            } else if self.cwnd < self.ssthresh {
                // Slow start.
                let grow: u32 = if acked >= self.mss {
                    self.mss
                } else {
                    acked
                };
                self.cwnd = if self.cwnd > CWND_MAX - grow {
                    CWND_MAX
                } else {
                    self.cwnd + grow
                };
            } else {
                // Congestion avoidance: roughly one segment per window.
                proof {
                    assert((self.mss as int) * (self.mss as int) <= 0x1_0000_0000int)
                        by (nonlinear_arith)
                        requires
                            self.mss <= 0x1_0000,
                    ;
                    assert((self.mss as int) * (self.mss as int) / (self.cwnd as int)
                        <= self.mss as int) by (nonlinear_arith)
                        requires
                            1 <= self.mss,
                            self.mss <= self.cwnd,
                    ;
                }
                let grow64: u64 = (self.mss as u64 * self.mss as u64) / (self.cwnd as u64);
                let grow: u32 = if grow64 >= 1 {
                    grow64 as u32
                } else {
                    1
                };
                self.cwnd = if self.cwnd > CWND_MAX - grow {
                    CWND_MAX
                } else {
                    self.cwnd + grow
                };
            }
            self.duplicate_acks = 0;
            self.in_fast_recovery = false;
            self.retransmit_now = false;
            self.limited_transmit_increase = 0;
        }
        proof {
            assert(*self =~= on_ack_spec(*old(self), una, nxt, ack));
        }
    }

    /// A retransmission timeout: collapse to one segment and halve the
    /// threshold (no less than two segments), leaving fast recovery.
    pub fn on_rto(&mut self, send_unacknowledged: SeqNumber)
        requires
            old(self).wf(),
        ensures
            final(self).wf(),
            final(self).mss == old(self).mss,
            final(self).cwnd == old(self).mss,
            final(self).ssthresh == if old(self).cwnd / 2 >= 2 * old(self).mss {
                (old(self).cwnd / 2) as int
            } else {
                2 * old(self).mss
            },
            final(self).duplicate_acks == 0,
            !final(self).in_fast_recovery,
            !final(self).retransmit_now,
            final(self).limited_transmit_increase == 0,
    {
        let _ = send_unacknowledged;
        self.ssthresh = if self.cwnd / 2 >= 2 * self.mss {
            self.cwnd / 2
        } else {
            2 * self.mss
        };
        self.cwnd = self.mss;
        self.duplicate_acks = 0;
        self.in_fast_recovery = false;
        self.retransmit_now = false;
        self.limited_transmit_increase = 0;
    }

    /// The retransmitter acted on the flag: lower it.
    pub fn on_fast_retransmit(&mut self)
        requires
            old(self).wf(),
        ensures
            final(self).wf(),
            !final(self).retransmit_now,
            final(self).mss == old(self).mss,
            final(self).cwnd == old(self).cwnd,
            final(self).ssthresh == old(self).ssthresh,
            final(self).duplicate_acks == old(self).duplicate_acks,
            final(self).in_fast_recovery == old(self).in_fast_recovery,
            final(self).limited_transmit_increase == old(self).limited_transmit_increase,
    {
        self.retransmit_now = false;
    }

    /// Bytes were sent.  Reno keeps no per-send state.
    pub fn on_send(&mut self, num_sent_bytes: u32)
        requires
            old(self).wf(),
        ensures
            *final(self) == *old(self),
    {
        let _ = num_sent_bytes;
    }

    /// The sender is about to test the window.  Reno adjusts nothing here.
    pub fn on_cwnd_check_before_send(&mut self)
        requires
            old(self).wf(),
        ensures
            *final(self) == *old(self),
    {
    }
}

} // verus!
