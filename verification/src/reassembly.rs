//! The out-of-order reassembly buffer: a sorted store of byte ranges that
//! arrived inside the receive window but ahead of `receive_next`.
//!
//! Entries are kept as `(offset, bytes)` pairs where `offset` is the
//! distance in sequence space from the current `receive_next` to the
//! entry's first byte.  Working in offsets keeps every comparison a plain
//! integer comparison; the control block converts from absolute sequence
//! numbers at the boundary.  The store is sorted by offset and no byte of
//! sequence space is covered by two entries.  When the store grows past its
//! cap, entries are dropped from the tail.

use vstd::prelude::*;
use crate::bytebuf::ByteBuf;

verus! {

/// The abstract contents of the store: `(offset, bytes)` pairs.
pub type Entries = Seq<(u32, Seq<u8>)>;

/// Entries are non-empty, lie within `limit`, and are sorted with no
/// overlap: each entry ends at or before the next one starts.
pub open spec fn entries_wf(s: Entries, limit: u32) -> bool {
    &&& forall|i: int| 0 <= i < s.len() ==> (#[trigger] s[i]).1.len() >= 1
    &&& forall|i: int| 0 <= i < s.len() ==> (#[trigger] s[i]).0 + s[i].1.len() <= limit
    &&& forall|i: int| 0 <= i < s.len() - 1 ==> (#[trigger] s[i]).0 + s[i].1.len() <= s[i + 1].0
}

/// Some entry covers the sequence-space position `x`.
pub open spec fn covers(s: Entries, x: int) -> bool {
    exists|i: int| 0 <= i < s.len() && (#[trigger] s[i]).0 <= x < s[i].0 + s[i].1.len()
}

/// Every position in `[lo, lo + n)` is covered.
pub open spec fn covers_range(s: Entries, lo: int, n: int) -> bool {
    forall|x: int| lo <= x < lo + n ==> covers(s, x)
}

/// Sorted entries are pairwise disjoint: an earlier entry ends at or
/// before a later one starts.
pub proof fn lemma_wf_pairwise_disjoint(s: Entries, limit: u32, i: int, j: int)
    requires
        entries_wf(s, limit),
        0 <= i < j < s.len(),
    ensures
        s[i].0 + s[i].1.len() <= s[j].0,
    decreases j - i,
{
    if i + 1 < j {
        lemma_wf_pairwise_disjoint(s, limit, i + 1, j);
    }
}

/// The result of working a new range `[lo, lo + data.len())` into sorted,
/// disjoint entries: ranges it fully spans are removed, overlap with kept
/// entries is trimmed off the new data, and what remains of the new data is
/// placed at its sorted position.  Bytes already present are never replaced.
pub open spec fn insert_model(s: Entries, lo: int, data: Seq<u8>) -> Entries
    decreases s.len(),
{
    if data.len() == 0 {
        s
    } else if s.len() == 0 {
        seq![(lo as u32, data)]
    } else {
        let s0 = s[0].0 as int;
        let e0 = s0 + s[0].1.len() - 1;
        let hi = lo + data.len() - 1;
        if hi < s0 {
            // Entirely before the first entry: insert here.
            seq![(lo as u32, data)] + s
        } else if lo < s0 && e0 < hi {
            // The new range spans the whole first entry: the entry goes.
            insert_model(s.skip(1), lo, data)
        } else if lo < s0 {
            // The new range runs into the first entry: trim the new tail
            // so it abuts the entry, and insert before it.
            seq![(lo as u32, data.take(s0 - lo))] + s
        } else if lo <= e0 {
            if hi <= e0 {
                // Entirely inside the first entry: nothing new.
                s
            } else {
                // The new range starts inside the first entry: drop the
                // duplicated front and keep scanning.
                seq![s[0]] + insert_model(s.skip(1), e0 + 1, data.skip(e0 + 1 - lo))
            }
        } else {
            // Entirely after the first entry: keep scanning.
            seq![s[0]] + insert_model(s.skip(1), lo, data)
        }
    }
}

/// Inserting adds at most one entry.
pub proof fn lemma_insert_model_len(s: Entries, lo: int, data: Seq<u8>)
    ensures
        insert_model(s, lo, data).len() <= s.len() + 1,
    decreases s.len(),
{
    if data.len() == 0 || s.len() == 0 {
    } else {
        let s0 = s[0].0 as int;
        let e0 = s0 + s[0].1.len() - 1;
        let hi = lo + data.len() - 1;
        if hi < s0 {
        } else if lo < s0 && e0 < hi {
            lemma_insert_model_len(s.skip(1), lo, data);
        } else if lo < s0 {
        } else if lo <= e0 {
            if hi > e0 {
                lemma_insert_model_len(s.skip(1), e0 + 1, data.skip(e0 + 1 - lo));
            }
        } else {
            lemma_insert_model_len(s.skip(1), lo, data);
        }
    }
}

/// Inserting keeps the store well formed, and the first offset never drops
/// below the smaller of the new range's start and the old first offset.
pub proof fn lemma_insert_model_wf(s: Entries, lo: int, data: Seq<u8>, limit: u32)
    requires
        entries_wf(s, limit),
        data.len() >= 1,
        0 <= lo,
        lo + data.len() <= limit,
    ensures
        entries_wf(insert_model(s, lo, data), limit),
        insert_model(s, lo, data).len() > 0,
        insert_model(s, lo, data)[0].0 >= if s.len() == 0 {
            lo
        } else if lo <= s[0].0 {
            lo
        } else {
            s[0].0 as int
        },
    decreases s.len(),
{
    let r = insert_model(s, lo, data);
    if s.len() == 0 {
        assert(r =~= seq![(lo as u32, data)]);
    } else {
        let s0 = s[0].0 as int;
        let e0 = s0 + s[0].1.len() - 1;
        let hi = lo + data.len() - 1;
        assert(s.skip(1).len() == s.len() - 1);
        assert(entries_wf(s.skip(1), limit)) by {
            assert(forall|i: int| 0 <= i < s.skip(1).len() ==> #[trigger] s.skip(1)[i] == s[i + 1]);
        }
        if hi < s0 {
            assert(r =~= seq![(lo as u32, data)] + s);
            assert(forall|i: int| 1 <= i < r.len() ==> #[trigger] r[i] == s[i - 1]);
        } else if lo < s0 && e0 < hi {
            lemma_insert_model_wf(s.skip(1), lo, data, limit);
            if s.len() > 1 {
                assert(s.skip(1)[0] == s[1]);
            }
        } else if lo < s0 {
            assert(r =~= seq![(lo as u32, data.take(s0 - lo))] + s);
            assert(forall|i: int| 1 <= i < r.len() ==> #[trigger] r[i] == s[i - 1]);
        } else if lo <= e0 {
            if hi <= e0 {
            } else {
                let lo2 = e0 + 1;
                let data2 = data.skip(e0 + 1 - lo);
                lemma_insert_model_wf(s.skip(1), lo2, data2, limit);
                let t = insert_model(s.skip(1), lo2, data2);
                assert(r =~= seq![s[0]] + t);
                assert(forall|i: int| 1 <= i < r.len() ==> #[trigger] r[i] == t[i - 1]);
                if s.len() > 1 {
                    assert(s.skip(1)[0] == s[1]);
                }
                assert(t[0].0 >= lo2);
            }
        } else {
            lemma_insert_model_wf(s.skip(1), lo, data, limit);
            let t = insert_model(s.skip(1), lo, data);
            assert(r =~= seq![s[0]] + t);
            assert(forall|i: int| 1 <= i < r.len() ==> #[trigger] r[i] == t[i - 1]);
            if s.len() > 1 {
                assert(s.skip(1)[0] == s[1]);
            }
            assert(t[0].0 >= e0 + 1);
        }
    }
}

/// After an insert, every position of the new range is covered.
pub proof fn lemma_insert_model_covers(s: Entries, lo: int, data: Seq<u8>, limit: u32)
    requires
        entries_wf(s, limit),
        data.len() >= 1,
        0 <= lo,
        lo + data.len() <= limit,
    ensures
        covers_range(insert_model(s, lo, data), lo, data.len() as int),
    decreases s.len(),
{
    let r = insert_model(s, lo, data);
    let hi = lo + data.len() - 1;
    if s.len() == 0 {
        assert forall|x: int| lo <= x <= hi implies covers(r, x) by {
            assert(r[0].0 <= x < r[0].0 + r[0].1.len());
        }
    } else {
        let s0 = s[0].0 as int;
        let e0 = s0 + s[0].1.len() - 1;
        assert(entries_wf(s.skip(1), limit)) by {
            assert(forall|i: int| 0 <= i < s.skip(1).len() ==> #[trigger] s.skip(1)[i] == s[i + 1]);
        }
        if hi < s0 {
            assert(r =~= seq![(lo as u32, data)] + s);
            assert forall|x: int| lo <= x <= hi implies covers(r, x) by {
                assert(r[0].0 <= x < r[0].0 + r[0].1.len());
            }
        } else if lo < s0 && e0 < hi {
            lemma_insert_model_covers(s.skip(1), lo, data, limit);
        } else if lo < s0 {
            assert(r =~= seq![(lo as u32, data.take(s0 - lo))] + s);
            assert forall|x: int| lo <= x <= hi implies covers(r, x) by {
                if x < s0 {
                    assert(r[0].0 <= x < r[0].0 + r[0].1.len());
                } else {
                    assert(r[1] == s[0]);
                    assert(r[1].0 <= x < r[1].0 + r[1].1.len());
                }
            }
        } else if lo <= e0 {
            if hi <= e0 {
                assert forall|x: int| lo <= x <= hi implies covers(r, x) by {
                    assert(r[0].0 <= x < r[0].0 + r[0].1.len());
                }
            } else {
                let lo2 = e0 + 1;
                let data2 = data.skip(e0 + 1 - lo);
                lemma_insert_model_covers(s.skip(1), lo2, data2, limit);
                let t = insert_model(s.skip(1), lo2, data2);
                assert(r =~= seq![s[0]] + t);
                assert forall|x: int| lo <= x <= hi implies covers(r, x) by {
                    if x <= e0 {
                        assert(r[0].0 <= x < r[0].0 + r[0].1.len());
                    } else {
                        assert(covers(t, x));
                        let i = choose|i: int|
                            0 <= i < t.len() && (#[trigger] t[i]).0 <= x < t[i].0 + t[i].1.len();
                        assert(r[i + 1] == t[i]);
                        assert(r[i + 1].0 <= x < r[i + 1].0 + r[i + 1].1.len());
                    }
                }
            }
        } else {
            lemma_insert_model_covers(s.skip(1), lo, data, limit);
            let t = insert_model(s.skip(1), lo, data);
            assert(r =~= seq![s[0]] + t);
            assert forall|x: int| lo <= x <= hi implies covers(r, x) by {
                assert(covers(t, x));
                let i = choose|i: int|
                    0 <= i < t.len() && (#[trigger] t[i]).0 <= x < t[i].0 + t[i].1.len();
                assert(r[i + 1] == t[i]);
                assert(r[i + 1].0 <= x < r[i + 1].0 + r[i + 1].1.len());
            }
        }
    }
}

/// Inserting a range whose every byte the store already covers changes
/// nothing.
pub proof fn lemma_insert_model_covered_noop(s: Entries, lo: int, data: Seq<u8>, limit: u32)
    requires
        entries_wf(s, limit),
        data.len() >= 1,
        0 <= lo,
        lo + data.len() <= limit,
        covers_range(s, lo, data.len() as int),
    ensures
        insert_model(s, lo, data) == s,
    decreases s.len(),
{
    let r = insert_model(s, lo, data);
    let hi = lo + data.len() - 1;
    assert(covers(s, lo));
    let w = choose|i: int| 0 <= i < s.len() && (#[trigger] s[i]).0 <= lo < s[i].0 + s[i].1.len();
    if w > 0 {
        lemma_wf_pairwise_disjoint(s, limit, 0, w);
    }
    let s0 = s[0].0 as int;
    let e0 = s0 + s[0].1.len() - 1;
    // The first entry starts at or before `lo`: otherwise no entry covers it.
    assert(s0 <= lo);
    assert(entries_wf(s.skip(1), limit)) by {
        assert(forall|i: int| 0 <= i < s.skip(1).len() ==> #[trigger] s.skip(1)[i] == s[i + 1]);
    }
    if lo <= e0 && hi <= e0 {
        // Contained: the model already returns `s`.
    } else if lo <= e0 {
        // Tail overlap: the remainder past the first entry is covered by
        // the rest of the store.
        let lo2 = e0 + 1;
        let data2 = data.skip(e0 + 1 - lo);
        assert(covers_range(s.skip(1), lo2, data2.len() as int)) by {
            assert forall|x: int| lo2 <= x < lo2 + data2.len() implies covers(s.skip(1), x) by {
                assert(covers(s, x));
                let i = choose|i: int|
                    0 <= i < s.len() && (#[trigger] s[i]).0 <= x < s[i].0 + s[i].1.len();
                assert(i != 0);
                assert(s.skip(1)[i - 1] == s[i]);
                assert(s.skip(1)[i - 1].0 <= x < s.skip(1)[i - 1].0 + s.skip(1)[i - 1].1.len());
            }
        }
        lemma_insert_model_covered_noop(s.skip(1), lo2, data2, limit);
        assert(r =~= s);
    } else {
        // Entirely after the first entry.
        assert(e0 < lo);
        assert(covers_range(s.skip(1), lo, data.len() as int)) by {
            assert forall|x: int| lo <= x < lo + data.len() implies covers(s.skip(1), x) by {
                assert(covers(s, x));
                let i = choose|i: int|
                    0 <= i < s.len() && (#[trigger] s[i]).0 <= x < s[i].0 + s[i].1.len();
                assert(i != 0);
                assert(s.skip(1)[i - 1] == s[i]);
                assert(s.skip(1)[i - 1].0 <= x < s.skip(1)[i - 1].0 + s.skip(1)[i - 1].1.len());
            }
        }
        lemma_insert_model_covered_noop(s.skip(1), lo, data, limit);
        assert(r =~= s);
    }
}

/// An insert followed by the cap: the tail is dropped once the store holds
/// more than `cap` entries.
pub open spec fn insert_capped(s: Entries, lo: int, data: Seq<u8>, cap: int) -> Entries {
    let r = insert_model(s, lo, data);
    if r.len() > cap {
        r.take(cap)
    } else {
        r
    }
}

/// A prefix of a well-formed store is well formed.
pub proof fn lemma_take_wf(s: Entries, limit: u32, n: int)
    requires
        entries_wf(s, limit),
        0 <= n <= s.len(),
    ensures
        entries_wf(s.take(n), limit),
{
    assert(forall|i: int| 0 <= i < n ==> #[trigger] s.take(n)[i] == s[i]);
}

/// Inserting the same range twice, with room under the cap, leaves the
/// store exactly as after the first insertion.
pub proof fn lemma_insert_twice(s: Entries, lo: int, data: Seq<u8>, limit: u32, cap: int)
    requires
        entries_wf(s, limit),
        data.len() >= 1,
        0 <= lo,
        lo + data.len() <= limit,
        s.len() < cap,
    ensures
        insert_capped(insert_capped(s, lo, data, cap), lo, data, cap)
            == insert_capped(s, lo, data, cap),
{
    lemma_insert_model_len(s, lo, data);
    let r = insert_model(s, lo, data);
    assert(insert_capped(s, lo, data, cap) == r);
    lemma_insert_model_wf(s, lo, data, limit);
    lemma_insert_model_covers(s, lo, data, limit);
    lemma_insert_model_covered_noop(r, lo, data, limit);
}

/// `receive_next` advanced by `n`: entries that now lie wholly behind it
/// are dropped, one straddling it loses its duplicated front, the rest
/// shift down by `n`.
pub open spec fn advance_model(s: Entries, n: u32) -> Entries
    decreases s.len(),
{
    if s.len() == 0 {
        s
    } else {
        let s0 = s[0].0 as int;
        let len0 = s[0].1.len() as int;
        if s0 >= n {
            seq![((s0 - n) as u32, s[0].1)] + advance_model(s.skip(1), n)
        } else if s0 + len0 <= n {
            advance_model(s.skip(1), n)
        } else {
            seq![(0u32, s[0].1.skip(n - s0))] + advance_model(s.skip(1), n)
        }
    }
}

/// A store that fits a bound fits any larger bound.
pub proof fn lemma_entries_wf_widen(s: Entries, a: u32, b: u32)
    requires
        entries_wf(s, a),
        a <= b,
    ensures
        entries_wf(s, b),
{
}

/// Advancing never adds entries.
pub proof fn lemma_advance_model_len(s: Entries, n: u32)
    ensures
        advance_model(s, n).len() <= s.len(),
    decreases s.len(),
{
    if s.len() > 0 {
        lemma_advance_model_len(s.skip(1), n);
    }
}

/// Advancing the base by `n` moves the whole store `n` closer to the
/// bound: what fitted below `limit` now fits below `limit - n`.
pub proof fn lemma_advance_model_tight(s: Entries, n: u32, limit: u32)
    requires
        entries_wf(s, limit),
        n <= limit,
    ensures
        entries_wf(advance_model(s, n), (limit - n) as u32),
    decreases s.len(),
{
    let r = advance_model(s, n);
    if s.len() == 0 {
    } else {
        let s0 = s[0].0 as int;
        let len0 = s[0].1.len() as int;
        assert(entries_wf(s.skip(1), limit)) by {
            assert(forall|i: int| 0 <= i < s.skip(1).len() ==> #[trigger] s.skip(1)[i] == s[i + 1]);
        }
        lemma_advance_model_tight(s.skip(1), n, limit);
        let t = advance_model(s.skip(1), n);
        if s.len() > 1 {
            assert(s.skip(1)[0] == s[1]);
        }
        if s0 >= n {
            assert(r =~= seq![((s0 - n) as u32, s[0].1)] + t);
            assert(forall|i: int| 1 <= i < r.len() ==> #[trigger] r[i] == t[i - 1]);
            lemma_advance_model_wf(s.skip(1), n, limit);
        } else if s0 + len0 <= n {
        } else {
            assert(r =~= seq![(0u32, s[0].1.skip(n - s0))] + t);
            assert(forall|i: int| 1 <= i < r.len() ==> #[trigger] r[i] == t[i - 1]);
            lemma_advance_model_wf(s.skip(1), n, limit);
        }
    }
}

/// Shifting the base keeps the store well formed.
pub proof fn lemma_advance_model_wf(s: Entries, n: u32, limit: u32)
    requires
        entries_wf(s, limit),
    ensures
        entries_wf(advance_model(s, n), limit),
        advance_model(s, n).len() > 0 ==> advance_model(s, n)[0].0 + n >= if s.len() == 0 {
            0
        } else {
            s[0].0 as int
        },
        advance_model(s, n).len() <= s.len(),
    decreases s.len(),
{
    let r = advance_model(s, n);
    if s.len() == 0 {
    } else {
        let s0 = s[0].0 as int;
        let len0 = s[0].1.len() as int;
        assert(entries_wf(s.skip(1), limit)) by {
            assert(forall|i: int| 0 <= i < s.skip(1).len() ==> #[trigger] s.skip(1)[i] == s[i + 1]);
        }
        lemma_advance_model_wf(s.skip(1), n, limit);
        let t = advance_model(s.skip(1), n);
        if s.len() > 1 {
            assert(s.skip(1)[0] == s[1]);
        }
        if s0 >= n {
            assert(r =~= seq![((s0 - n) as u32, s[0].1)] + t);
            assert(forall|i: int| 1 <= i < r.len() ==> #[trigger] r[i] == t[i - 1]);
        } else if s0 + len0 <= n {
        } else {
            assert(r =~= seq![(0u32, s[0].1.skip(n - s0))] + t);
            assert(forall|i: int| 1 <= i < r.len() ==> #[trigger] r[i] == t[i - 1]);
        }
    }
}

/// The bytes-level view of a vector of entries.
pub open spec fn view_of(v: Seq<(u32, ByteBuf)>) -> Entries {
    v.map(|i: int, e: (u32, ByteBuf)| (e.0, e.1@))
}

/// The sorted store of out-of-order byte ranges.
pub struct ReassemblyBuffer {
    /// `(offset, bytes)` pairs, offsets relative to `receive_next`,
    /// sorted ascending, pairwise disjoint; front at index 0.
    pub entries: Vec<(u32, ByteBuf)>,
    /// Offsets and lengths stay within this bound (the receive buffer
    /// size).
    pub limit: u32,
    /// Most entries kept; inserting past this drops the tail.
    pub cap: usize,
}

impl ReassemblyBuffer {
    /// The abstract contents.
    pub open spec fn view_entries(self) -> Entries {
        view_of(self.entries@)
    }

    pub open spec fn wf(self) -> bool {
        &&& entries_wf(self.view_entries(), self.limit)
        &&& self.view_entries().len() <= self.cap
        &&& self.cap >= 1
    }

    pub fn new(limit: u32, cap: usize) -> (r: ReassemblyBuffer)
        requires
            cap >= 1,
        ensures
            r.wf(),
            r.view_entries() =~= Seq::<(u32, Seq<u8>)>::empty(),
            r.limit == limit,
            r.cap == cap,
    {
        let r = ReassemblyBuffer { entries: Vec::new(), limit, cap };
        proof {
            assert(r.view_entries() =~= Seq::<(u32, Seq<u8>)>::empty());
        }
        r
    }

    pub fn len(&self) -> (r: usize)
        ensures
            r == self.view_entries().len(),
    {
        self.entries.len()
    }

    /// Store the range `[off, off + buf.len())`, trimming away bytes that
    /// entries already hold, removing entries the new range fully spans,
    /// and dropping tail entries past the cap.
    pub fn insert(&mut self, off: u32, buf: ByteBuf)
        requires
            old(self).wf(),
            buf@.len() >= 1,
            off + buf@.len() <= old(self).limit,
        ensures
            final(self).wf(),
            final(self).view_entries()
                == insert_capped(old(self).view_entries(), off as int, buf@,
                    old(self).cap as int),
            final(self).limit == old(self).limit,
            final(self).cap == old(self).cap,
    {
        let ghost v0 = self.view_entries();
        let ghost model = insert_model(v0, off as int, buf@);
        let mut out: Vec<(u32, ByteBuf)> = Vec::new();
        let mut lo: u32 = off;
        let mut data: ByteBuf = buf;
        let mut done: bool = false;
        while self.entries.len() > 0
            invariant
                entries_wf(view_of(self.entries@), self.limit),
                !done ==> data@.len() >= 1,
                !done ==> lo + data@.len() <= self.limit,
                !done ==> model == view_of(out@) + insert_model(
                    view_of(self.entries@), lo as int, data@),
                done ==> model == view_of(out@) + view_of(self.entries@),
                self.limit == old(self).limit,
                self.cap == old(self).cap,
            decreases self.entries@.len(),
        {
            let ghost rest = view_of(self.entries@);
            let (s0, b0): (u32, ByteBuf) = self.entries.remove(0);
            proof {
                assert(view_of(self.entries@) =~= rest.skip(1));
                assert(rest[0] == (s0, b0@));
            }
            if done {
                let ghost out_pre = out@;
                out.push((s0, b0));
                proof {
                    assert(view_of(out@) =~= view_of(out_pre).push((s0, b0@)));
                    assert(model =~= view_of(out@) + view_of(self.entries@));
                }
            } else {
                let len0: u32 = b0.len() as u32;
                // Inclusive last positions of this entry and the new range.
                let e0: u32 = s0 + len0 - 1;
                let hi: u32 = lo + (data.len() as u32) - 1;
                if hi < s0 {
                    // Entirely before this entry: place the new range here,
                    // then keep the entry and everything after it.
                    let ghost out_pre = out@;
                    out.push((lo, data));
                    proof {
                        assert(view_of(out@) =~= view_of(out_pre).push((lo, data@)));
                    }
                    let ghost out_mid = out@;
                    out.push((s0, b0));
                    data = ByteBuf::new(0);
                    done = true;
                    proof {
                        assert(view_of(out@) =~= view_of(out_mid).push((s0, b0@)));
                        assert(model =~= view_of(out@) + view_of(self.entries@));
                    }
                } else if lo < s0 && e0 < hi {
                    // The new range spans this entry: the entry goes.
                    proof {
                        assert(model =~= view_of(out@) + insert_model(
                            view_of(self.entries@), lo as int, data@));
                    }
                } else if lo < s0 {
                    // Runs into this entry: trim the new tail to abut it.
                    let keep: u32 = s0 - lo;
                    let excess: usize = data.len() - keep as usize;
                    data.trim(excess);
                    let ghost out_pre = out@;
                    out.push((lo, data));
                    proof {
                        assert(view_of(out@) =~= view_of(out_pre).push((lo, data@)));
                    }
                    let ghost out_mid = out@;
                    out.push((s0, b0));
                    data = ByteBuf::new(0);
                    done = true;
                    proof {
                        assert(view_of(out@) =~= view_of(out_mid).push((s0, b0@)));
                        assert(model =~= view_of(out@) + view_of(self.entries@));
                    }
                } else if lo <= e0 && hi <= e0 {
                    // Entirely inside this entry: drop the new range.
                    let ghost out_pre = out@;
                    out.push((s0, b0));
                    done = true;
                    proof {
                        assert(view_of(out@) =~= view_of(out_pre).push((s0, b0@)));
                        assert(model =~= view_of(out@) + view_of(self.entries@));
                    }
                } else if lo <= e0 {
                    // Starts inside this entry: cut the duplicated front.
                    let dup: u32 = e0 + 1 - lo;
                    data.adjust(dup as usize);
                    lo = e0 + 1;
                    let ghost out_pre = out@;
                    out.push((s0, b0));
                    proof {
                        assert(view_of(out@) =~= view_of(out_pre).push((s0, b0@)));
                        assert(model =~= view_of(out@) + insert_model(
                            view_of(self.entries@), lo as int, data@));
                    }
                } else {
                    // Entirely after this entry: keep scanning.
                    let ghost out_pre = out@;
                    out.push((s0, b0));
                    proof {
                        assert(view_of(out@) =~= view_of(out_pre).push((s0, b0@)));
                        assert(model =~= view_of(out@) + insert_model(
                            view_of(self.entries@), lo as int, data@));
                    }
                }
            }
        }
        proof {
            assert(view_of(self.entries@) =~= Seq::<(u32, Seq<u8>)>::empty());
        }
        if !done {
            let ghost out_pre = out@;
            out.push((lo, data));
            proof {
                assert(view_of(out@) =~= view_of(out_pre).push((lo, data@)));
                assert(model =~= view_of(out@));
            }
        } else {
            proof {
                assert(model =~= view_of(out@));
            }
        }
        if out.len() > self.cap {
            let cap: usize = self.cap;
            let ghost out_pre = out@;
            out.truncate(cap);
            proof {
                assert(view_of(out@) =~= model.take(self.cap as int));
            }
        }
        self.entries = out;
        proof {
            lemma_insert_model_wf(v0, off as int, buf@, self.limit);
            if model.len() > self.cap {
                lemma_take_wf(model, self.limit, self.cap as int);
            }
        }
    }

    /// `receive_next` advanced by `n` sequence numbers: drop or trim
    /// entries the advance passed over, and shift the rest down.
    pub fn advance(&mut self, n: u32)
        requires
            old(self).wf(),
        ensures
            final(self).wf(),
            final(self).view_entries() == advance_model(old(self).view_entries(), n),
            final(self).limit == old(self).limit,
            final(self).cap == old(self).cap,
    {
        let ghost v0 = self.view_entries();
        let ghost model = advance_model(v0, n);
        let mut out: Vec<(u32, ByteBuf)> = Vec::new();
        while self.entries.len() > 0
            invariant
                entries_wf(view_of(self.entries@), self.limit),
                model == view_of(out@) + advance_model(view_of(self.entries@), n),
                self.limit == old(self).limit,
                self.cap == old(self).cap,
            decreases self.entries@.len(),
        {
            let ghost rest = view_of(self.entries@);
            let (s0, b0): (u32, ByteBuf) = self.entries.remove(0);
            let mut b0: ByteBuf = b0;
            proof {
                assert(view_of(self.entries@) =~= rest.skip(1));
                assert(rest[0] == (s0, b0@));
                assert(forall|i: int| 0 <= i < rest.len() - 1
                    ==> #[trigger] rest.skip(1)[i] == rest[i + 1]);
            }
            let len0: u32 = b0.len() as u32;
            if s0 >= n {
                let ghost out_pre = out@;
                out.push((s0 - n, b0));
                proof {
                    assert(view_of(out@) =~= view_of(out_pre).push(((s0 - n) as u32, b0@)));
                    assert(model =~= view_of(out@) + advance_model(view_of(self.entries@), n));
                }
            } else if s0 + len0 <= n {
                // Wholly behind the new receive_next: drop it.
                proof {
                    assert(model =~= view_of(out@) + advance_model(view_of(self.entries@), n));
                }
            } else {
                b0.adjust((n - s0) as usize);
                let ghost out_pre = out@;
                out.push((0, b0));
                proof {
                    assert(view_of(out@) =~= view_of(out_pre).push((0u32, b0@)));
                    assert(model =~= view_of(out@) + advance_model(view_of(self.entries@), n));
                }
            }
        }
        proof {
            assert(view_of(self.entries@) =~= Seq::<(u32, Seq<u8>)>::empty());
            assert(model =~= view_of(out@));
        }
        self.entries = out;
        proof {
            lemma_advance_model_wf(v0, n, self.limit);
        }
    }

    /// Take off the front entry if it sits exactly at `receive_next`
    /// (offset zero); `None` otherwise.
    pub fn pop_front_ready(&mut self) -> (r: Option<ByteBuf>)
        requires
            old(self).wf(),
        ensures
            final(self).wf(),
            final(self).limit == old(self).limit,
            final(self).cap == old(self).cap,
            if old(self).view_entries().len() > 0 && old(self).view_entries()[0].0 == 0 {
                &&& r matches Some(b)
                &&& b@ == old(self).view_entries()[0].1
                &&& final(self).view_entries() == old(self).view_entries().skip(1)
            } else {
                r is None && final(self).view_entries() == old(self).view_entries()
            },
    {
        if self.entries.len() > 0 {
            let off0: u32 = self.entries[0].0;
            if off0 == 0 {
                let (_, b): (u32, ByteBuf) = self.entries.remove(0);
                proof {
                    assert(self.view_entries() =~= old(self).view_entries().skip(1));
                }
                return Option::Some(b);
            }
        }
        proof {
            assert(self.view_entries() =~= old(self).view_entries());
        }
        Option::None
    }
}

} // verus!
