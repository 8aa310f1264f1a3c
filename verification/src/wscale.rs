//! Window scaling (RFC 7323): the wire carries a 16-bit window that both
//! sides shift by the scale factor negotiated at the handshake.  The shift
//! is at most 14.  Scaling is done here by multiplying and dividing with a
//! power of two, which keeps the contracts in plain arithmetic.

use vstd::prelude::*;

verus! {

/// Largest shift the window-scale option allows.
pub const MAX_WINDOW_SCALE_SHIFT: u8 = 14;

pub open spec fn pow2(n: nat) -> nat
    decreases n,
{
    if n == 0 {
        1nat
    } else {
        2 * pow2((n - 1) as nat)
    }
}

/// Powers of two grow with the exponent.
pub proof fn lemma_pow2_mono(m: nat, n: nat)
    requires
        m <= n,
    ensures
        pow2(m) <= pow2(n),
        pow2(m) >= 1,
    decreases n,
{
    if m < n {
        lemma_pow2_mono(m, (n - 1) as nat);
    } else if n > 0 {
        lemma_pow2_mono((m - 1) as nat, (n - 1) as nat);
    }
}

/// Up to the largest shift, the factor stays within 2^14.
pub proof fn lemma_pow2_bound(n: nat)
    requires
        n <= 14,
    ensures
        1 <= pow2(n) <= 16384,
{
    lemma_pow2_mono(n, 14);
    reveal_with_fuel(pow2, 16);
    assert(pow2(14) == 16384);
}

/// `2^shift` as a machine integer.
pub fn scale_factor(shift: u8) -> (r: u32)
    requires
        shift <= MAX_WINDOW_SCALE_SHIFT,
    ensures
        r == pow2(shift as nat),
        1 <= r <= 16384,
{
    proof {
        lemma_pow2_bound(shift as nat);
    }
    let mut factor: u32 = 1;
    let mut i: u8 = 0;
    while i < shift
        invariant
            i <= shift <= 14,
            factor == pow2(i as nat),
            factor <= 16384,
        decreases shift - i,
    {
        proof {
            lemma_pow2_bound((i + 1) as nat);
        }
        factor = factor * 2;
        i = i + 1;
    }
    factor
}

} // verus!
