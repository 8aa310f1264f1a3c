//! Retransmission-timeout estimation in the Jacobson/Karn style of RFC
//! 6298: a smoothed round-trip time and its variance, combined as
//! `RTO = SRTT + 4 * RTTVAR` and clamped to `[RTO_MIN_NS, RTO_MAX_NS]`.
//! On a retransmission timeout the RTO doubles (exponential backoff),
//! capped at the maximum.  All times are in nanoseconds.

use vstd::prelude::*;

verus! {

pub const RTO_MIN_NS: u64 = 1_000_000_000;
pub const RTO_MAX_NS: u64 = 60_000_000_000;
pub const RTO_INITIAL_NS: u64 = 1_000_000_000;

/// Round-trip samples are bounded so the estimator's arithmetic cannot
/// overflow; 2^60 nanoseconds is over thirty years.
pub const RTT_SAMPLE_MAX_NS: u64 = 0x1000_0000_0000_0000;

/// Clamp a candidate timeout into `[RTO_MIN_NS, RTO_MAX_NS]`.
pub open spec fn clamp_rto(x: int) -> int {
    if x < RTO_MIN_NS {
        RTO_MIN_NS as int
    } else if x > RTO_MAX_NS {
        RTO_MAX_NS as int
    } else {
        x
    }
}

/// The estimator after folding in one round-trip sample.
pub open spec fn add_sample_spec(e: RtoEstimator, rtt_ns: u64) -> RtoEstimator {
    let (srtt, rttvar) = if !e.has_sample {
        (rtt_ns as int, rtt_ns as int / 2)
    } else {
        let diff = if e.srtt_ns >= rtt_ns {
            e.srtt_ns - rtt_ns
        } else {
            rtt_ns - e.srtt_ns
        };
        ((7 * e.srtt_ns) / 8 + rtt_ns as int / 8, (3 * e.rttvar_ns) / 4 + diff / 4)
    };
    RtoEstimator {
        srtt_ns: srtt as u64,
        rttvar_ns: rttvar as u64,
        rto_ns: clamp_rto(srtt + 4 * rttvar) as u64,
        has_sample: true,
    }
}

/// The retransmission-timeout estimator.
pub struct RtoEstimator {
    /// Smoothed round-trip time; meaningful once `has_sample`.
    pub srtt_ns: u64,
    /// Round-trip time variance; meaningful once `has_sample`.
    pub rttvar_ns: u64,
    /// The current retransmission timeout.
    pub rto_ns: u64,
    /// Whether any sample has been taken yet.
    pub has_sample: bool,
}

impl RtoEstimator {
    pub open spec fn wf(self) -> bool {
        &&& self.srtt_ns <= RTT_SAMPLE_MAX_NS
        &&& self.rttvar_ns <= RTT_SAMPLE_MAX_NS
        &&& RTO_MIN_NS <= self.rto_ns <= RTO_MAX_NS
    }

    /// Before the first sample the timeout is the conservative initial
    /// value of RFC 6298.
    pub fn new() -> (r: RtoEstimator)
        ensures
            r.wf(),
            !r.has_sample,
            r.rto_ns == RTO_INITIAL_NS,
    {
        RtoEstimator { srtt_ns: 0, rttvar_ns: 0, rto_ns: RTO_INITIAL_NS, has_sample: false }
    }

    pub fn rto(&self) -> (r: u64)
        ensures
            r == self.rto_ns,
    {
        self.rto_ns
    }

    /// Fold one round-trip sample in.  The first sample seeds the
    /// estimator (`SRTT = R`, `RTTVAR = R/2`); later samples are smoothed
    /// with gains 1/8 and 1/4.
    pub fn add_sample(&mut self, rtt_ns: u64)
        requires
            old(self).wf(),
            rtt_ns <= RTT_SAMPLE_MAX_NS,
        ensures
            final(self).wf(),
            final(self).has_sample,
            *final(self) == add_sample_spec(*old(self), rtt_ns),
            !old(self).has_sample ==> {
                &&& final(self).srtt_ns == rtt_ns
                &&& final(self).rttvar_ns == rtt_ns / 2
                &&& final(self).rto_ns == clamp_rto(rtt_ns + 4 * (rtt_ns / 2))
            },
            old(self).has_sample ==> {
                let diff = if old(self).srtt_ns >= rtt_ns {
                    old(self).srtt_ns - rtt_ns
                } else {
                    rtt_ns - old(self).srtt_ns
                };
                &&& final(self).rttvar_ns == (3 * old(self).rttvar_ns) / 4 + diff / 4
                &&& final(self).srtt_ns == (7 * old(self).srtt_ns) / 8 + rtt_ns / 8
                &&& final(self).rto_ns == clamp_rto(
                    final(self).srtt_ns + 4 * final(self).rttvar_ns,
                )
            },
    {
        if !self.has_sample {
            self.srtt_ns = rtt_ns;
            self.rttvar_ns = rtt_ns / 2;
            self.has_sample = true;
        } else {
            let diff: u64 = if self.srtt_ns >= rtt_ns {
                self.srtt_ns - rtt_ns
            } else {
                rtt_ns - self.srtt_ns
            };
            self.rttvar_ns = (3 * self.rttvar_ns) / 4 + diff / 4;
            self.srtt_ns = (7 * self.srtt_ns) / 8 + rtt_ns / 8;
        }
        let candidate: u64 = self.srtt_ns + 4 * self.rttvar_ns;
        self.rto_ns = if candidate < RTO_MIN_NS {
            RTO_MIN_NS
        } else if candidate > RTO_MAX_NS {
            RTO_MAX_NS
        } else {
            candidate
        };
    }

    /// Exponential backoff after a retransmission timeout: the timeout
    /// doubles, capped at the maximum.
    pub fn back_off(&mut self)
        requires
            old(self).wf(),
        ensures
            final(self).wf(),
            final(self).rto_ns == if 2 * old(self).rto_ns > RTO_MAX_NS {
                RTO_MAX_NS as int
            } else {
                2 * old(self).rto_ns
            },
            final(self).srtt_ns == old(self).srtt_ns,
            final(self).rttvar_ns == old(self).rttvar_ns,
            final(self).has_sample == old(self).has_sample,
    {
        let doubled: u64 = 2 * self.rto_ns;
        self.rto_ns = if doubled > RTO_MAX_NS {
            RTO_MAX_NS
        } else {
            doubled
        };
    }
}

} // verus!
