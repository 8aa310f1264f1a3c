//! TCP sequence numbers: 32-bit values with wrapping arithmetic and the
//! RFC 1323 serial-number comparison.  Raw integer ordering is never exposed.

use vstd::prelude::*;

verus! {

/// Wrapping addition in the 32-bit sequence space.
pub open spec fn seq_add(a: u32, n: u32) -> u32 {
    if a + n <= u32::MAX {
        (a + n) as u32
    } else {
        (a + n - 0x1_0000_0000) as u32
    }
}

/// Wrapped distance from `b` up to `a`: how far `a` lies ahead of `b`,
/// modulo 2^32.
pub open spec fn seq_sub(a: u32, b: u32) -> u32 {
    if a >= b {
        (a - b) as u32
    } else {
        (a - b + 0x1_0000_0000) as u32
    }
}

/// The RFC 1323 serial-number order: `a` comes strictly before `b`
/// exactly when `(b - a) mod 2^32` lies in `(0, 2^31)`.
pub open spec fn seq_lt(a: u32, b: u32) -> bool {
    seq_sub(b, a) != 0 && seq_sub(b, a) < 0x8000_0000
}

/// `a` comes before `b`, or they are equal.
pub open spec fn seq_le(a: u32, b: u32) -> bool {
    a == b || seq_lt(a, b)
}

/// Adding a distance and then measuring it back returns the distance.
pub proof fn lemma_seq_add_sub(a: u32, n: u32)
    ensures
        seq_sub(seq_add(a, n), a) == n,
{
}

/// Two points are equal exactly when the distance between them is zero.
pub proof fn lemma_seq_sub_zero(a: u32, b: u32)
    ensures
        seq_sub(a, b) == 0 <==> a == b,
{
}

/// Measuring a distance and adding it back returns the far point.
pub proof fn lemma_seq_sub_add(a: u32, b: u32)
    ensures
        seq_add(b, seq_sub(a, b)) == a,
{
}

/// Advancing the base by `m` shortens a distance of at least `m` by `m`.
pub proof fn lemma_seq_sub_shift(a: u32, b: u32, m: u32)
    requires
        m <= seq_sub(a, b),
    ensures
        seq_sub(a, seq_add(b, m)) == seq_sub(a, b) - m,
{
}

/// Advancing the far point grows a distance that stays within the space.
pub proof fn lemma_seq_add_sub_linear(a: u32, b: u32, k: u32)
    requires
        seq_sub(a, b) + k <= u32::MAX,
    ensures
        seq_sub(seq_add(a, k), b) == seq_sub(a, b) + k,
{
}

/// Advancing the far point past a full turn wraps the distance around.
pub proof fn lemma_seq_add_sub_wrap(a: u32, b: u32, k: u32)
    requires
        seq_sub(a, b) + k > u32::MAX,
    ensures
        seq_sub(seq_add(a, k), b) == seq_sub(a, b) + k - 0x1_0000_0000,
{
}

/// Advancing the base past the far point wraps the distance around.
pub proof fn lemma_seq_sub_shift_wrap(a: u32, b: u32, m: u32)
    requires
        m > seq_sub(a, b),
    ensures
        seq_sub(a, seq_add(b, m)) == seq_sub(a, b) + 0x1_0000_0000 - m,
{
}

/// Opposite distances around the circle sum to one full turn.
pub proof fn lemma_seq_sub_antisym(a: u32, b: u32)
    ensures
        a != b ==> seq_sub(a, b) + seq_sub(b, a) == 0x1_0000_0000,
        a == b ==> seq_sub(a, b) == 0 && seq_sub(b, a) == 0,
{
}

/// Distances along the circle add up when they do not complete a turn.
pub proof fn lemma_seq_sub_triangle(a: u32, b: u32, c: u32)
    requires
        seq_sub(a, b) + seq_sub(b, c) < 0x1_0000_0000,
    ensures
        seq_sub(a, c) == seq_sub(a, b) + seq_sub(b, c),
{
}

/// Two short advances compose into one, as long as their sum fits `u32`.
pub proof fn lemma_seq_add_assoc(x: u32, a: u32, b: u32)
    requires
        a + b <= u32::MAX,
    ensures
        seq_add(seq_add(x, a), b) == seq_add(x, (a + b) as u32),
{
}

/// A TCP sequence number.  Addition and subtraction are modulo 2^32 and
/// ordering is the RFC 1323 serial-number comparison.
#[derive(Clone, Copy, PartialEq, Eq, Structural, Debug)]
pub struct SeqNumber {
    pub val: u32,
}

impl SeqNumber {
    pub fn new(val: u32) -> (r: SeqNumber)
        ensures
            r.val == val,
    {
        SeqNumber { val }
    }

    /// This number advanced by `n`, modulo 2^32.
    pub fn plus(self, n: u32) -> (r: SeqNumber)
        ensures
            r.val == seq_add(self.val, n),
    {
        SeqNumber { val: self.val.wrapping_add(n) }
    }

    /// The wrapped distance from `other` up to `self`.
    pub fn minus(self, other: SeqNumber) -> (r: u32)
        ensures
            r == seq_sub(self.val, other.val),
    {
        self.val.wrapping_sub(other.val)
    }

    /// Serial-number comparison: `self` comes strictly before `other`.
    pub fn lt(self, other: SeqNumber) -> (r: bool)
        ensures
            r == seq_lt(self.val, other.val),
    {
        let d: u32 = other.val.wrapping_sub(self.val);
        d != 0 && d < 0x8000_0000
    }

    /// Serial-number comparison: `self` comes before `other` or equals it.
    pub fn le(self, other: SeqNumber) -> (r: bool)
        ensures
            r == seq_le(self.val, other.val),
    {
        let d: u32 = other.val.wrapping_sub(self.val);
        d < 0x8000_0000
    }
}

} // verus!
