//! The `load` operation: drive a parsed UF2 onto flash and reboot.
//!
//! Sequence over the PICOBOOT transport: take exclusive access, exit XIP, erase the sectors
//! covering the image, write each segment, optionally read back and verify, then reboot to
//! the freshly flashed application.
//!
//! The sector-erase planning ([`plan_erase`]) is pure. The sequence itself alternates USB
//! transfers and decisions, so it is a [`LoadSession`]: a state machine that, given the
//! outcome of the previous device operation, names the next one to perform.

use vstd::prelude::*;
use vstd::arithmetic::power::pow;
use vstd::arithmetic::power2::{
    is_pow2, is_pow2_equiv, lemma2_to64, lemma_pow2_pos, lemma_pow2_strictly_increases, pow2,
};
use vstd::bits::{lemma_u32_low_bits_mask_is_mod, low_bits_mask};

use crate::constants::{FLASH_SECTOR_SIZE, SRAM_END};
use crate::picoboot::Exclusivity;
use crate::uf2::{seg_end, segments_view, Segment, SegmentModel};

verus! {

// ---------------------------------------------------------------------------------------
// Sector-erase planning.
// ---------------------------------------------------------------------------------------

/// `x` rounded down to a multiple of `align`.
pub open spec fn align_down_spec(x: int, align: int) -> int {
    x - x % align
}

/// `x` rounded up to a multiple of `align`.
pub open spec fn align_up_spec(x: int, align: int) -> int {
    align_down_spec(x + align - 1, align)
}

/// The low bits below a power of two `align` are `x % align`, and clearing them gives the
/// largest multiple of `align` not above `x`.
proof fn lemma_mask_is_align_down(x: u32, align: u32)
    requires
        is_pow2(align as int),
    ensures
        align > 0,
        x & !((align - 1) as u32) == align_down_spec(x as int, align as int),
{
    is_pow2_equiv(align as int);
    let i: nat = choose|i: nat| pow(2, i) == align as int;
    assert(pow2(i) == align);
    if i >= 32 {
        if i > 32 {
            lemma_pow2_strictly_increases(32, i);
        }
        lemma2_to64();
        assert(false);
    }
    lemma_pow2_pos(i);
    lemma_u32_low_bits_mask_is_mod(x, i);
    let m: u32 = (align - 1) as u32;
    assert(low_bits_mask(i) == align - 1);
    assert(x & !m == x - (x & m)) by (bit_vector);
}

/// The flash sector size is a power of two.
proof fn lemma_sector_is_pow2()
    ensures
        is_pow2(FLASH_SECTOR_SIZE as int),
{
    reveal_with_fuel(is_pow2, 13);
}

/// Rounding down gives the largest multiple of `align` not above `x`.
proof fn lemma_align_down_props(x: int, align: int)
    requires
        x >= 0,
        align > 0,
    ensures
        align_down_spec(x, align) % align == 0,
        align_down_spec(x, align) <= x,
        x - align_down_spec(x, align) < align,
{
    assert((x - x % align) % align == 0) by (nonlinear_arith)
        requires
            align > 0,
    ;
}

/// Round `x` down to a multiple of `align` (a power of two).
fn align_down(x: u32, align: u32) -> (r: u32)
    requires
        is_pow2(align as int),
    ensures
        r == align_down_spec(x as int, align as int),
        r % align == 0,
        r <= x,
        x - r < align,
{
    proof {
        lemma_mask_is_align_down(x, align);
        lemma_align_down_props(x as int, align as int);
    }
    x & !(align - 1)
}

/// Round `x` up to a multiple of `align` (a power of two).
fn align_up(x: u32, align: u32) -> (r: u32)
    requires
        is_pow2(align as int),
        x + align - 1 <= u32::MAX,
    ensures
        r == align_up_spec(x as int, align as int),
        r % align == 0,
        r >= x,
        r - x < align,
{
    proof {
        lemma_mask_is_align_down((x + align - 1) as u32, align);
        lemma_align_down_props(x + align - 1, align as int);
    }
    x.wrapping_add(align - 1) & !(align - 1)
}

/// An erase range `(start, end)` with `end` exclusive.
pub type Range = (u32, u32);

/// The sector-aligned range `[start, end)` that erasing a segment must cover: its span
/// rounded out to whole sectors.
pub open spec fn sector_span(s: SegmentModel) -> Range {
    (
        align_down_spec(s.0 as int, FLASH_SECTOR_SIZE as int) as u32,
        align_up_spec(seg_end(s), FLASH_SECTOR_SIZE as int) as u32,
    )
}

/// The sector spans of a list of segments, in order.
pub open spec fn sector_spans(segs: Seq<SegmentModel>) -> Seq<Range> {
    segs.map_values(|s: SegmentModel| sector_span(s))
}

/// Where a range with start `key` goes in a list ordered by start so that it follows every
/// range whose start is not above `key` (the list stays ordered, and ties keep their order).
pub open spec fn insert_pos(s: Seq<Range>, key: u32) -> nat
    decreases s.len(),
{
    if s.len() == 0 {
        0
    } else if s.last().0 <= key {
        s.len()
    } else {
        insert_pos(s.drop_last(), key)
    }
}

/// `r` inserted into `s` at [`insert_pos`].
pub open spec fn insert_sorted(s: Seq<Range>, r: Range) -> Seq<Range> {
    let p = insert_pos(s, r.0) as int;
    s.take(p).push(r) + s.skip(p)
}

/// The ranges ordered by start; ranges with equal starts keep their relative order.
pub open spec fn sort_by_start(s: Seq<Range>) -> Seq<Range>
    decreases s.len(),
{
    if s.len() == 0 {
        s
    } else {
        insert_sorted(sort_by_start(s.drop_last()), s.last())
    }
}

/// Add the next range (in start order) to the merged list: it joins the last merged range
/// when it starts no later than that range's end, and opens a new one otherwise.
pub open spec fn merge_step(m: Seq<Range>, r: Range) -> Seq<Range> {
    if m.len() > 0 && r.0 <= m.last().1 {
        m.update(m.len() - 1, (m.last().0, if r.1 > m.last().1 { r.1 } else { m.last().1 }))
    } else {
        m.push(r)
    }
}

/// Merge a list of ranges, in order, joining overlapping or touching neighbours.
pub open spec fn merge_ranges(s: Seq<Range>) -> Seq<Range>
    decreases s.len(),
{
    if s.len() == 0 {
        Seq::empty()
    } else {
        merge_step(merge_ranges(s.drop_last()), s.last())
    }
}

/// The erase plan for a list of segments, as `(start, size)` pairs: the segments' sector
/// spans, ordered by start and merged.
pub open spec fn erase_plan(segs: Seq<SegmentModel>) -> Seq<(u32, u32)> {
    merge_ranges(sort_by_start(sector_spans(segs))).map_values(
        |r: Range| (r.0, (r.1 - r.0) as u32),
    )
}

/// Ranges ordered by start.
pub open spec fn sorted_by_start(s: Seq<Range>) -> bool {
    forall|i: int, j: int| 0 <= i < j < s.len() ==> (#[trigger] s[i]).0 <= (#[trigger] s[j]).0
}

/// Every range of `a` occurs in `b`.
pub open spec fn ranges_within(a: Seq<Range>, b: Seq<Range>) -> bool {
    forall|i: int| 0 <= i < a.len() ==> exists|j: int| 0 <= j < b.len() && b[j] == #[trigger] a[i]
}

/// The insertion position lies in the list.
proof fn lemma_insert_pos_bound(s: Seq<Range>, key: u32)
    ensures
        insert_pos(s, key) <= s.len(),
    decreases s.len(),
{
    if s.len() > 0 && s.last().0 > key {
        lemma_insert_pos_bound(s.drop_last(), key);
    }
}

/// In an ordered list, the ranges before the insertion position start no later than `key`
/// and those from it on start after `key`.
proof fn lemma_insert_pos_splits(s: Seq<Range>, key: u32)
    requires
        sorted_by_start(s),
    ensures
        forall|i: int| 0 <= i < insert_pos(s, key) ==> (#[trigger] s[i]).0 <= key,
        forall|i: int| insert_pos(s, key) <= i < s.len() ==> (#[trigger] s[i]).0 > key,
    decreases s.len(),
{
    lemma_insert_pos_bound(s, key);
    if s.len() > 0 {
        if s.last().0 <= key {
            assert forall|i: int| 0 <= i < insert_pos(s, key) implies (#[trigger] s[i]).0 <= key by {
                if i < s.len() - 1 {
                    assert(s[i].0 <= s[s.len() - 1].0);
                }
            }
        } else {
            let t = s.drop_last();
            lemma_insert_pos_splits(t, key);
            assert forall|i: int| 0 <= i < insert_pos(s, key) implies (#[trigger] s[i]).0 <= key by {
                assert(s[i] == t[i]);
            }
            assert forall|i: int| insert_pos(s, key) <= i < s.len() implies (#[trigger] s[i]).0
                > key by {
                if i < s.len() - 1 {
                    assert(s[i] == t[i]);
                }
            }
        }
    }
}

/// The shape of an insertion: the prefix before the position, then `r`, then the rest.
proof fn lemma_insert_sorted_shape(s: Seq<Range>, r: Range)
    ensures
        insert_pos(s, r.0) <= s.len(),
        insert_sorted(s, r).len() == s.len() + 1,
        insert_sorted(s, r)[insert_pos(s, r.0) as int] == r,
        forall|i: int|
            0 <= i < insert_pos(s, r.0) ==> #[trigger] insert_sorted(s, r)[i] == s[i],
        forall|i: int|
            insert_pos(s, r.0) < i <= s.len() ==> #[trigger] insert_sorted(s, r)[i] == s[i - 1],
{
    lemma_insert_pos_bound(s, r.0);
}

/// Sorting by start orders the ranges.
#[verifier::spinoff_prover]
proof fn lemma_sort_sorted(s: Seq<Range>)
    ensures
        sorted_by_start(sort_by_start(s)),
    decreases s.len(),
{
    if s.len() > 0 {
        let r = s.last();
        let st = sort_by_start(s.drop_last());
        lemma_sort_sorted(s.drop_last());
        lemma_insert_sorted_shape(st, r);
        lemma_insert_pos_splits(st, r.0);
        let res = insert_sorted(st, r);
        let p = insert_pos(st, r.0) as int;
        assert forall|i: int, j: int| 0 <= i < j < res.len() implies (#[trigger] res[i]).0 <= (
        #[trigger] res[j]).0 by {
            if j < p {
                assert(res[i] == st[i] && res[j] == st[j]);
            } else if j == p {
                assert(res[i] == st[i]);
            } else if i < p {
                assert(res[i] == st[i] && res[j] == st[j - 1]);
            } else if i == p {
                assert(res[j] == st[j - 1]);
            } else {
                assert(res[i] == st[i - 1] && res[j] == st[j - 1]);
            }
        }
    }
}

/// Sorting by start loses no range.
#[verifier::spinoff_prover]
proof fn lemma_sort_keeps(s: Seq<Range>)
    ensures
        ranges_within(s, sort_by_start(s)),
    decreases s.len(),
{
    if s.len() > 0 {
        let t = s.drop_last();
        let r = s.last();
        let st = sort_by_start(t);
        lemma_sort_keeps(t);
        lemma_insert_sorted_shape(st, r);
        let res = insert_sorted(st, r);
        let p = insert_pos(st, r.0) as int;
        assert forall|i: int| 0 <= i < s.len() implies exists|j: int|
            0 <= j < res.len() && res[j] == #[trigger] s[i] by {
            if i == s.len() - 1 {
                assert(res[p] == s[i]);
            } else {
                assert(s[i] == t[i]);
                let k = choose|k: int| 0 <= k < st.len() && st[k] == #[trigger] t[i];
                if k < p {
                    assert(res[k] == s[i]);
                } else {
                    assert(res[k + 1] == s[i]);
                }
            }
        }
    }
}

/// Sorting by start adds no range.
#[verifier::spinoff_prover]
proof fn lemma_sort_adds_nothing(s: Seq<Range>)
    ensures
        ranges_within(sort_by_start(s), s),
    decreases s.len(),
{
    if s.len() > 0 {
        let t = s.drop_last();
        let r = s.last();
        let st = sort_by_start(t);
        lemma_sort_adds_nothing(t);
        lemma_insert_sorted_shape(st, r);
        let res = insert_sorted(st, r);
        let p = insert_pos(st, r.0) as int;
        assert forall|j: int| 0 <= j < res.len() implies exists|i: int|
            0 <= i < s.len() && s[i] == #[trigger] res[j] by {
            if j == p {
                assert(s[s.len() - 1] == res[j]);
            } else {
                let jj = if j < p {
                    j
                } else {
                    j - 1
                };
                assert(res[j] == st[jj]);
                let k = choose|k: int| 0 <= k < t.len() && t[k] == #[trigger] st[jj];
                assert(s[k] == t[k]);
            }
        }
    }
}

/// The sorted sector spans of any segments are ordered by start and each starts no later
/// than it ends.
proof fn lemma_spans_ordered(segs: Seq<SegmentModel>)
    requires
        forall|i: int|
            0 <= i < segs.len() ==> seg_end(#[trigger] segs[i]) + FLASH_SECTOR_SIZE - 1 <= u32::MAX,
    ensures
        sorted_by_start(sort_by_start(sector_spans(segs))),
        forall|j: int|
            0 <= j < sort_by_start(sector_spans(segs)).len() ==> (#[trigger] sort_by_start(
                sector_spans(segs),
            )[j]).0 <= sort_by_start(sector_spans(segs))[j].1,
{
    let spans = sector_spans(segs);
    lemma_sort_sorted(spans);
    lemma_sort_adds_nothing(spans);
    let st = sort_by_start(spans);
    assert forall|j: int| 0 <= j < st.len() implies (#[trigger] st[j]).0 <= st[j].1 by {
        let i = choose|i: int| 0 <= i < spans.len() && spans[i] == #[trigger] st[j];
        assert(spans[i] == sector_span(segs[i]));
        lemma_span_ordered(segs[i]);
    }
}

/// A sector span starts no later than it ends, and both ends are sector multiples.
proof fn lemma_span_ordered(s: SegmentModel)
    requires
        seg_end(s) + FLASH_SECTOR_SIZE - 1 <= u32::MAX,
    ensures
        sector_span(s).0 <= s.0,
        seg_end(s) <= sector_span(s).1,
        sector_span(s).0 % FLASH_SECTOR_SIZE == 0,
        sector_span(s).1 % FLASH_SECTOR_SIZE == 0,
{
}

/// Merging keeps every range starting no later than it ends.
proof fn lemma_merge_ordered(s: Seq<Range>)
    requires
        forall|j: int| 0 <= j < s.len() ==> (#[trigger] s[j]).0 <= s[j].1,
    ensures
        forall|j: int|
            0 <= j < merge_ranges(s).len() ==> (#[trigger] merge_ranges(s)[j]).0 <= merge_ranges(
                s,
            )[j].1,
    decreases s.len(),
{
    if s.len() > 0 {
        let t = s.drop_last();
        assert forall|j: int| 0 <= j < t.len() implies (#[trigger] t[j]).0 <= t[j].1 by {
            assert(t[j] == s[j]);
        }
        lemma_merge_ordered(t);
        let r = s[s.len() - 1];
        let m = merge_ranges(t);
        let res = merge_ranges(s);
        assert(res == merge_step(m, r));
        assert forall|j: int| 0 <= j < res.len() implies (#[trigger] res[j]).0 <= res[j].1 by {
            if j < m.len() && !(m.len() > 0 && r.0 <= m.last().1 && j == m.len() - 1) {
                assert(res[j] == m[j]);
            }
        }
    }
}

/// Whether address `x` lies in the range `[r.0, r.1)`.
pub open spec fn in_range(r: Range, x: int) -> bool {
    r.0 <= x < r.1
}

/// Whether address `x` lies in some range of `s`.
pub open spec fn covers(s: Seq<Range>, x: int) -> bool {
    exists|i: int| 0 <= i < s.len() && #[trigger] in_range(s[i], x)
}

/// A range whose start and end are whole sectors, start first.
pub open spec fn sector_range(r: Range) -> bool {
    &&& r.0 <= r.1
    &&& r.0 % FLASH_SECTOR_SIZE == 0
    &&& r.1 % FLASH_SECTOR_SIZE == 0
}

/// Ranges with a gap between any two of them, in increasing order.
pub open spec fn ranges_separated(s: Seq<Range>) -> bool {
    forall|i: int, j: int| 0 <= i < j < s.len() ==> (#[trigger] s[i]).1 < (#[trigger] s[j]).0
}

/// What merging an ordered list of sector ranges gives: sector ranges, separated, starting
/// no later than the last input range, and covering exactly the addresses the input covers.
#[verifier::spinoff_prover]
proof fn lemma_merge_props(s: Seq<Range>)
    requires
        sorted_by_start(s),
        forall|k: int| 0 <= k < s.len() ==> sector_range(#[trigger] s[k]),
    ensures
        forall|j: int| 0 <= j < merge_ranges(s).len() ==> sector_range(#[trigger] merge_ranges(s)[j]),
        ranges_separated(merge_ranges(s)),
        s.len() > 0 ==> merge_ranges(s).len() > 0 && merge_ranges(s).last().0 <= s.last().0,
        s.len() == 0 ==> merge_ranges(s).len() == 0,
        forall|x: int|
            #![trigger covers(merge_ranges(s), x)]
            #![trigger covers(s, x)]
            covers(merge_ranges(s), x) <==> covers(s, x),
    decreases s.len(),
{
    if s.len() > 0 {
        let t = s.drop_last();
        let r = s[s.len() - 1];
        assert forall|k: int| 0 <= k < t.len() implies sector_range(#[trigger] t[k]) by {
            assert(t[k] == s[k]);
        }
        assert forall|i: int, j: int| 0 <= i < j < t.len() implies (#[trigger] t[i]).0 <= (
        #[trigger] t[j]).0 by {
            assert(t[i] == s[i] && t[j] == s[j]);
        }
        lemma_merge_props(t);
        let m = merge_ranges(t);
        let res = merge_ranges(s);
        assert(res == merge_step(m, r));
        assert(sector_range(r));
        if m.len() > 0 && r.0 <= m.last().1 {
            let l = m.len() - 1;
            assert(t.last() == s[t.len() - 1]);
            assert(m[l].0 <= r.0);
            assert forall|j: int| 0 <= j < res.len() implies sector_range(#[trigger] res[j]) by {
                if j < l {
                    assert(res[j] == m[j]);
                }
            }
            assert forall|i: int, j: int| 0 <= i < j < res.len() implies (#[trigger] res[i]).1 < (
            #[trigger] res[j]).0 by {
                assert(res[i] == m[i]);
                if j < l {
                    assert(res[j] == m[j]);
                }
            }
            assert forall|x: int| covers(res, x) <==> covers(s, x) by {
                if covers(res, x) {
                    let i = choose|i: int| 0 <= i < res.len() && #[trigger] in_range(res[i], x);
                    if i < l {
                        assert(in_range(m[i], x));
                        assert(covers(m, x));
                        assert(covers(t, x));
                        let k = choose|k: int| 0 <= k < t.len() && #[trigger] in_range(t[k], x);
                        assert(in_range(s[k], x));
                    } else if x < m[l].1 {
                        assert(in_range(m[l], x));
                        assert(covers(m, x));
                        assert(covers(t, x));
                        let k = choose|k: int| 0 <= k < t.len() && #[trigger] in_range(t[k], x);
                        assert(in_range(s[k], x));
                    } else {
                        assert(in_range(s[s.len() - 1], x));
                    }
                }
                if covers(s, x) {
                    let k = choose|k: int| 0 <= k < s.len() && #[trigger] in_range(s[k], x);
                    if k < t.len() {
                        assert(in_range(t[k], x));
                        assert(covers(t, x));
                        let i = choose|i: int| 0 <= i < m.len() && #[trigger] in_range(m[i], x);
                        if i < l {
                            assert(in_range(res[i], x));
                        } else {
                            assert(in_range(res[l], x));
                        }
                    } else {
                        assert(in_range(res[l], x));
                    }
                }
            }
        } else {
            assert forall|j: int| 0 <= j < res.len() implies sector_range(#[trigger] res[j]) by {
                if j < m.len() {
                    assert(res[j] == m[j]);
                }
            }
            assert forall|i: int, j: int| 0 <= i < j < res.len() implies (#[trigger] res[i]).1 < (
            #[trigger] res[j]).0 by {
                assert(res[i] == m[i]);
                if j < m.len() {
                    assert(res[j] == m[j]);
                } else {
                    let l = m.len() - 1;
                    if i < l {
                        assert(m[i].1 < m[l].0);
                    }
                }
            }
            assert forall|x: int| covers(res, x) <==> covers(s, x) by {
                if covers(res, x) {
                    let i = choose|i: int| 0 <= i < res.len() && #[trigger] in_range(res[i], x);
                    if i < m.len() {
                        assert(in_range(m[i], x));
                        assert(covers(m, x));
                        assert(covers(t, x));
                        let k = choose|k: int| 0 <= k < t.len() && #[trigger] in_range(t[k], x);
                        assert(in_range(s[k], x));
                    } else {
                        assert(in_range(s[s.len() - 1], x));
                    }
                }
                if covers(s, x) {
                    let k = choose|k: int| 0 <= k < s.len() && #[trigger] in_range(s[k], x);
                    if k < t.len() {
                        assert(in_range(t[k], x));
                        assert(covers(t, x));
                        let i = choose|i: int| 0 <= i < m.len() && #[trigger] in_range(m[i], x);
                        assert(in_range(res[i], x));
                    } else {
                        assert(in_range(res[m.len() as int], x));
                    }
                }
            }
        }
    }
}

/// Whether address `x` lies in some `(start, size)` range of an erase plan.
pub open spec fn plan_covers(plan: Seq<(u32, u32)>, x: int) -> bool {
    exists|j: int| 0 <= j < plan.len() && #[trigger] plan[j].0 <= x < plan[j].0 + plan[j].1
}

/// Whether address `x` lies in the sector span of some segment.
pub open spec fn spans_cover(segs: Seq<SegmentModel>, x: int) -> bool {
    exists|k: int| 0 <= k < segs.len() && #[trigger] in_range(sector_span(segs[k]), x)
}

/// Segments whose sector spans can be computed without leaving the 32-bit address space.
pub open spec fn segments_sector_fit(segs: Seq<SegmentModel>) -> bool {
    forall|i: int|
        0 <= i < segs.len() ==> seg_end(#[trigger] segs[i]) + FLASH_SECTOR_SIZE - 1 <= u32::MAX
}

/// The sorted sector spans: sector ranges, ordered by start, covering exactly the
/// addresses the segments' sector spans cover.
#[verifier::spinoff_prover]
proof fn lemma_sorted_spans(segs: Seq<SegmentModel>)
    requires
        segments_sector_fit(segs),
    ensures
        sorted_by_start(sort_by_start(sector_spans(segs))),
        forall|j: int|
            0 <= j < sort_by_start(sector_spans(segs)).len() ==> sector_range(
                #[trigger] sort_by_start(sector_spans(segs))[j],
            ),
        forall|x: int|
            #![trigger spans_cover(segs, x)]
            covers(sort_by_start(sector_spans(segs)), x) <==> spans_cover(segs, x),
{
    let spans = sector_spans(segs);
    lemma_sort_sorted(spans);
    lemma_sort_keeps(spans);
    lemma_sort_adds_nothing(spans);
    let st = sort_by_start(spans);
    assert forall|j: int| 0 <= j < st.len() implies sector_range(#[trigger] st[j]) by {
        let i = choose|i: int| 0 <= i < spans.len() && spans[i] == #[trigger] st[j];
        assert(spans[i] == sector_span(segs[i]));
        lemma_span_ordered(segs[i]);
    }
    assert forall|x: int| #![trigger spans_cover(segs, x)] covers(st, x) <==> spans_cover(segs, x) by {
        if covers(st, x) {
            let j = choose|j: int| 0 <= j < st.len() && #[trigger] in_range(st[j], x);
            let i = choose|i: int| 0 <= i < spans.len() && spans[i] == #[trigger] st[j];
            assert(spans[i] == sector_span(segs[i]));
            assert(in_range(sector_span(segs[i]), x));
        }
        if spans_cover(segs, x) {
            let k = choose|k: int| 0 <= k < segs.len() && #[trigger] in_range(sector_span(segs[k]), x);
            assert(spans[k] == sector_span(segs[k]));
            let j = choose|j: int| 0 <= j < st.len() && st[j] == #[trigger] spans[k];
            assert(in_range(st[j], x));
        }
    }
}

/// The merged ranges behind an erase plan, with the facts the laws rest on.
proof fn lemma_merged_spans(segs: Seq<SegmentModel>)
    requires
        segments_sector_fit(segs),
    ensures
        forall|j: int|
            0 <= j < merge_ranges(sort_by_start(sector_spans(segs))).len() ==> sector_range(
                #[trigger] merge_ranges(sort_by_start(sector_spans(segs)))[j],
            ),
        ranges_separated(merge_ranges(sort_by_start(sector_spans(segs)))),
        forall|x: int|
            #![trigger spans_cover(segs, x)]
            covers(merge_ranges(sort_by_start(sector_spans(segs))), x) <==> spans_cover(segs, x),
{
    lemma_sorted_spans(segs);
    let st = sort_by_start(sector_spans(segs));
    lemma_merge_props(st);
    assert forall|x: int| #![trigger spans_cover(segs, x)] covers(merge_ranges(st), x)
        <==> spans_cover(segs, x) by {
        assert(covers(merge_ranges(st), x) <==> covers(st, x));
    }
}

/// Each range of the erase plan covers whole sectors, and the ranges come in increasing
/// order with a gap between any two of them, so no sector is erased twice.
pub proof fn lemma_erase_plan_sectors(segs: Seq<SegmentModel>)
    requires
        segments_sector_fit(segs),
    ensures
        forall|j: int|
            0 <= j < erase_plan(segs).len() ==> (#[trigger] erase_plan(segs)[j]).0
                % FLASH_SECTOR_SIZE == 0 && erase_plan(segs)[j].1 % FLASH_SECTOR_SIZE == 0,
        forall|i: int, j: int|
            0 <= i < j < erase_plan(segs).len() ==> (#[trigger] erase_plan(segs)[i]).0 + erase_plan(
                segs,
            )[i].1 < (#[trigger] erase_plan(segs)[j]).0,
{
    lemma_merged_spans(segs);
    let m = merge_ranges(sort_by_start(sector_spans(segs)));
    let plan = erase_plan(segs);
    assert forall|j: int| 0 <= j < plan.len() implies (#[trigger] plan[j]).0 % FLASH_SECTOR_SIZE
        == 0 && plan[j].1 % FLASH_SECTOR_SIZE == 0 by {
        assert(sector_range(m[j]));
    }
    assert forall|i: int, j: int| 0 <= i < j < plan.len() implies (#[trigger] plan[i]).0 + plan[i].1
        < (#[trigger] plan[j]).0 by {
        assert(sector_range(m[i]));
        assert(m[i].1 < m[j].0);
    }
}

/// The erase plan erases exactly the sectors the segments touch: an address lies in some
/// erase range if and only if it lies in the sector span of some segment.
pub proof fn lemma_erase_plan_coverage(segs: Seq<SegmentModel>, x: int)
    requires
        segments_sector_fit(segs),
    ensures
        plan_covers(erase_plan(segs), x) <==> spans_cover(segs, x),
{
    lemma_merged_spans(segs);
    let m = merge_ranges(sort_by_start(sector_spans(segs)));
    let plan = erase_plan(segs);
    if plan_covers(plan, x) {
        let j = choose|j: int| 0 <= j < plan.len() && #[trigger] plan[j].0 <= x < plan[j].0 + plan[j].1;
        assert(sector_range(m[j]));
        assert(in_range(m[j], x));
        assert(covers(m, x));
    }
    if spans_cover(segs, x) {
        assert(covers(m, x));
        let j = choose|j: int| 0 <= j < m.len() && #[trigger] in_range(m[j], x);
        assert(sector_range(m[j]));
        assert(plan[j].0 <= x < plan[j].0 + plan[j].1);
    }
}

/// Every byte of every segment lies in some erase range of the plan.
pub proof fn lemma_erase_plan_covers_segments(segs: Seq<SegmentModel>, k: int, x: int)
    requires
        segments_sector_fit(segs),
        0 <= k < segs.len(),
        segs[k].0 <= x < seg_end(segs[k]),
    ensures
        plan_covers(erase_plan(segs), x),
{
    lemma_span_ordered(segs[k]);
    assert(in_range(sector_span(segs[k]), x));
    lemma_erase_plan_coverage(segs, x);
}

/// Whether address `x` lies in the closed range `[r.0, r.1]`.
pub open spec fn in_closed(r: Range, x: int) -> bool {
    r.0 <= x <= r.1
}

/// Whether address `x` lies in some closed range of `s`.
pub open spec fn ccovers(s: Seq<Range>, x: int) -> bool {
    exists|i: int| 0 <= i < s.len() && #[trigger] in_closed(s[i], x)
}

/// Sector ranges in increasing order with a gap between any two: the shape of a plan.
pub open spec fn canonical_ranges(s: Seq<Range>) -> bool {
    &&& forall|j: int| 0 <= j < s.len() ==> sector_range(#[trigger] s[j])
    &&& ranges_separated(s)
}

/// Two distinct sector multiples are at least a sector apart.
proof fn lemma_sector_gap(p: int, q: int)
    requires
        p % 4096 == 0,
        q % 4096 == 0,
        p < q,
    ensures
        p + 4096 <= q,
{
    assert(p + 4096 <= q) by (nonlinear_arith)
        requires
            p % 4096 == 0,
            q % 4096 == 0,
            p < q,
    ;
}

/// Every closed range of `a` occurring in `b`, the addresses `a` covers are covered by `b`.
proof fn lemma_within_ccovers(a: Seq<Range>, b: Seq<Range>, x: int)
    requires
        ranges_within(a, b),
        ccovers(a, x),
    ensures
        ccovers(b, x),
{
    let i = choose|i: int| 0 <= i < a.len() && #[trigger] in_closed(a[i], x);
    let j = choose|j: int| 0 <= j < b.len() && b[j] == #[trigger] a[i];
    assert(in_closed(b[j], x));
}

/// Merging an ordered list of sector ranges keeps the closed coverage.
#[verifier::spinoff_prover]
proof fn lemma_merge_closed(s: Seq<Range>)
    requires
        sorted_by_start(s),
        forall|k: int| 0 <= k < s.len() ==> sector_range(#[trigger] s[k]),
    ensures
        forall|x: int|
            #![trigger ccovers(merge_ranges(s), x)]
            #![trigger ccovers(s, x)]
            ccovers(merge_ranges(s), x) <==> ccovers(s, x),
    decreases s.len(),
{
    if s.len() > 0 {
        let t = s.drop_last();
        let r = s[s.len() - 1];
        assert forall|k: int| 0 <= k < t.len() implies sector_range(#[trigger] t[k]) by {
            assert(t[k] == s[k]);
        }
        assert forall|i: int, j: int| 0 <= i < j < t.len() implies (#[trigger] t[i]).0 <= (
        #[trigger] t[j]).0 by {
            assert(t[i] == s[i] && t[j] == s[j]);
        }
        lemma_merge_closed(t);
        lemma_merge_props(t);
        let m = merge_ranges(t);
        let res = merge_ranges(s);
        assert(res == merge_step(m, r));
        assert forall|x: int|
            #![trigger ccovers(res, x)]
            #![trigger ccovers(s, x)]
            ccovers(res, x) <==> ccovers(s, x) by {
            if m.len() > 0 && r.0 <= m.last().1 {
                let l = m.len() - 1;
                assert(t.last() == s[t.len() - 1]);
                assert(m[l].0 <= r.0);
                if ccovers(res, x) {
                    let i = choose|i: int| 0 <= i < res.len() && #[trigger] in_closed(res[i], x);
                    if i < l || x <= m[l].1 {
                        assert(in_closed(m[i], x));
                        assert(ccovers(m, x));
                        assert(ccovers(t, x));
                        let k = choose|k: int| 0 <= k < t.len() && #[trigger] in_closed(t[k], x);
                        assert(in_closed(s[k], x));
                    } else {
                        assert(in_closed(s[s.len() - 1], x));
                    }
                }
                if ccovers(s, x) {
                    let k = choose|k: int| 0 <= k < s.len() && #[trigger] in_closed(s[k], x);
                    if k < t.len() {
                        assert(in_closed(t[k], x));
                        assert(ccovers(t, x));
                        assert(ccovers(m, x));
                        let i = choose|i: int| 0 <= i < m.len() && #[trigger] in_closed(m[i], x);
                        if i < l {
                            assert(in_closed(res[i], x));
                        } else {
                            assert(in_closed(res[l], x));
                        }
                    } else {
                        assert(in_closed(res[l], x));
                    }
                }
            } else {
                if ccovers(res, x) {
                    let i = choose|i: int| 0 <= i < res.len() && #[trigger] in_closed(res[i], x);
                    if i < m.len() {
                        assert(in_closed(m[i], x));
                        assert(ccovers(m, x));
                        assert(ccovers(t, x));
                        let k = choose|k: int| 0 <= k < t.len() && #[trigger] in_closed(t[k], x);
                        assert(in_closed(s[k], x));
                    } else {
                        assert(in_closed(s[s.len() - 1], x));
                    }
                }
                if ccovers(s, x) {
                    let k = choose|k: int| 0 <= k < s.len() && #[trigger] in_closed(s[k], x);
                    if k < t.len() {
                        assert(in_closed(t[k], x));
                        assert(ccovers(t, x));
                        assert(ccovers(m, x));
                        let i = choose|i: int| 0 <= i < m.len() && #[trigger] in_closed(m[i], x);
                        assert(in_closed(res[i], x));
                    } else {
                        assert(in_closed(res[m.len() as int], x));
                    }
                }
            }
        }
    }
}

/// Past the first range of a plan-shaped list, its closed coverage is that of the rest.
proof fn lemma_ccovers_tail(a: Seq<Range>, x: int)
    requires
        canonical_ranges(a),
        a.len() > 0,
    ensures
        ccovers(a.drop_first(), x) <==> (ccovers(a, x) && x > a[0].1),
{
    let t = a.drop_first();
    if ccovers(t, x) {
        let i = choose|i: int| 0 <= i < t.len() && #[trigger] in_closed(t[i], x);
        assert(t[i] == a[i + 1]);
        assert(in_closed(a[i + 1], x));
        assert(a[0].1 < a[i + 1].0);
    }
    if ccovers(a, x) && x > a[0].1 {
        let i = choose|i: int| 0 <= i < a.len() && #[trigger] in_closed(a[i], x);
        assert(i > 0);
        assert(t[i - 1] == a[i]);
        assert(in_closed(t[i - 1], x));
    }
}

/// Plan-shaped lists of ranges that cover the same addresses are equal.
#[verifier::spinoff_prover]
proof fn lemma_canonical_unique(a: Seq<Range>, b: Seq<Range>)
    requires
        canonical_ranges(a),
        canonical_ranges(b),
        forall|x: int| #![trigger ccovers(a, x)] #![trigger ccovers(b, x)] ccovers(a, x) <==> ccovers(b, x),
    ensures
        a == b,
    decreases a.len() + b.len(),
{
    if a.len() == 0 || b.len() == 0 {
        if a.len() > 0 {
            assert(in_closed(a[0], a[0].0 as int));
            assert(ccovers(a, a[0].0 as int));
        }
        if b.len() > 0 {
            assert(in_closed(b[0], b[0].0 as int));
            assert(ccovers(b, b[0].0 as int));
        }
        assert(a =~= b);
    } else {
        // The first ranges start at the least covered address.
        assert(in_closed(b[0], b[0].0 as int));
        assert(ccovers(b, b[0].0 as int));
        assert(in_closed(a[0], a[0].0 as int));
        assert(ccovers(a, a[0].0 as int));
        if b[0].0 < a[0].0 {
            let i = choose|i: int| 0 <= i < a.len() && #[trigger] in_closed(a[i], b[0].0 as int);
            if i > 0 {
                assert(a[0].1 < a[i].0);
            }
        }
        if a[0].0 < b[0].0 {
            let i = choose|i: int| 0 <= i < b.len() && #[trigger] in_closed(b[i], a[0].0 as int);
            if i > 0 {
                assert(b[0].1 < b[i].0);
            }
        }
        assert(a[0].0 == b[0].0);
        // And end where the covered run starting there ends.
        if b[0].1 < a[0].1 {
            let x = b[0].1 + 1;
            assert(in_closed(a[0], x));
            assert(ccovers(a, x));
            let j = choose|j: int| 0 <= j < b.len() && #[trigger] in_closed(b[j], x);
            if j > 0 {
                assert(b[0].1 < b[j].0);
                lemma_sector_gap(b[0].1 as int, b[j].0 as int);
            }
        }
        if a[0].1 < b[0].1 {
            let x = a[0].1 + 1;
            assert(in_closed(b[0], x));
            assert(ccovers(b, x));
            let j = choose|j: int| 0 <= j < a.len() && #[trigger] in_closed(a[j], x);
            if j > 0 {
                assert(a[0].1 < a[j].0);
                lemma_sector_gap(a[0].1 as int, a[j].0 as int);
            }
        }
        assert(a[0] == b[0]);
        let ta = a.drop_first();
        let tb = b.drop_first();
        assert forall|j: int| 0 <= j < ta.len() implies sector_range(#[trigger] ta[j]) by {
            assert(ta[j] == a[j + 1]);
        }
        assert forall|i: int, j: int| 0 <= i < j < ta.len() implies (#[trigger] ta[i]).1 < (
        #[trigger] ta[j]).0 by {
            assert(ta[i] == a[i + 1] && ta[j] == a[j + 1]);
        }
        assert forall|j: int| 0 <= j < tb.len() implies sector_range(#[trigger] tb[j]) by {
            assert(tb[j] == b[j + 1]);
        }
        assert forall|i: int, j: int| 0 <= i < j < tb.len() implies (#[trigger] tb[i]).1 < (
        #[trigger] tb[j]).0 by {
            assert(tb[i] == b[i + 1] && tb[j] == b[j + 1]);
        }
        assert forall|x: int| #![trigger ccovers(ta, x)] #![trigger ccovers(tb, x)] ccovers(ta, x)
            <==> ccovers(tb, x) by {
            lemma_ccovers_tail(a, x);
            lemma_ccovers_tail(b, x);
            assert(ccovers(a, x) <==> ccovers(b, x));
        }
        lemma_canonical_unique(ta, tb);
        assert(a =~= seq![a[0]] + ta);
        assert(b =~= seq![b[0]] + tb);
    }
}

/// The merged ranges behind a plan are plan-shaped and cover, as closed ranges, exactly the
/// addresses the segments' closed sector spans cover.
#[verifier::spinoff_prover]
proof fn lemma_merged_closed(segs: Seq<SegmentModel>)
    requires
        segments_sector_fit(segs),
    ensures
        canonical_ranges(merge_ranges(sort_by_start(sector_spans(segs)))),
        forall|x: int|
            #![trigger ccovers(merge_ranges(sort_by_start(sector_spans(segs))), x)]
            ccovers(merge_ranges(sort_by_start(sector_spans(segs))), x) <==> ccovers(
                sector_spans(segs),
                x,
            ),
{
    lemma_merged_spans(segs);
    lemma_sorted_spans(segs);
    let spans = sector_spans(segs);
    let st = sort_by_start(spans);
    lemma_sort_keeps(spans);
    lemma_sort_adds_nothing(spans);
    lemma_merge_closed(st);
    assert forall|x: int|
        #![trigger ccovers(merge_ranges(st), x)]
        ccovers(merge_ranges(st), x) <==> ccovers(spans, x) by {
        assert(ccovers(merge_ranges(st), x) <==> ccovers(st, x));
        if ccovers(st, x) {
            lemma_within_ccovers(st, spans, x);
        }
        if ccovers(spans, x) {
            lemma_within_ccovers(spans, st, x);
        }
    }
}

/// When every segment of `a` occurs in `b`, an address that a closed sector span of `a`
/// covers is covered by a closed sector span of `b`.
proof fn lemma_spans_ccover_within(a: Seq<SegmentModel>, b: Seq<SegmentModel>, x: int)
    requires
        forall|i: int| 0 <= i < a.len() ==> b.contains(#[trigger] a[i]),
        ccovers(sector_spans(a), x),
    ensures
        ccovers(sector_spans(b), x),
{
    let sa = sector_spans(a);
    let sb = sector_spans(b);
    let i = choose|i: int| 0 <= i < sa.len() && #[trigger] in_closed(sa[i], x);
    assert(b.contains(a[i]));
    let j = choose|j: int| 0 <= j < b.len() && b[j] == a[i];
    assert(sb[j] == sector_span(b[j]));
    assert(sa[i] == sector_span(a[i]));
    assert(in_closed(sb[j], x));
}

/// The erase plan does not depend on the order of the segments: lists holding the same
/// segments (the same multiset) get the same plan.
pub proof fn lemma_erase_plan_order_free(segs1: Seq<SegmentModel>, segs2: Seq<SegmentModel>)
    requires
        segs1.to_multiset() == segs2.to_multiset(),
        segments_sector_fit(segs1),
        segments_sector_fit(segs2),
    ensures
        erase_plan(segs1) == erase_plan(segs2),
{
    segs1.to_multiset_ensures();
    segs2.to_multiset_ensures();
    assert forall|i: int| 0 <= i < segs1.len() implies segs2.contains(#[trigger] segs1[i]) by {
        assert(segs1.contains(segs1[i]));
        assert(segs1.to_multiset().count(segs1[i]) > 0);
    }
    assert forall|i: int| 0 <= i < segs2.len() implies segs1.contains(#[trigger] segs2[i]) by {
        assert(segs2.contains(segs2[i]));
        assert(segs2.to_multiset().count(segs2[i]) > 0);
    }
    lemma_merged_closed(segs1);
    lemma_merged_closed(segs2);
    let m1 = merge_ranges(sort_by_start(sector_spans(segs1)));
    let m2 = merge_ranges(sort_by_start(sector_spans(segs2)));
    assert forall|x: int| #![trigger ccovers(m1, x)] #![trigger ccovers(m2, x)] ccovers(m1, x)
        <==> ccovers(m2, x) by {
        if ccovers(sector_spans(segs1), x) {
            lemma_spans_ccover_within(segs1, segs2, x);
        }
        if ccovers(sector_spans(segs2), x) {
            lemma_spans_ccover_within(segs2, segs1, x);
        }
    }
    lemma_canonical_unique(m1, m2);
}

/// A non-empty segment's sector span holds at least one sector.
proof fn lemma_span_nonempty(s: SegmentModel)
    requires
        seg_end(s) + FLASH_SECTOR_SIZE - 1 <= u32::MAX,
        s.1.len() > 0,
    ensures
        sector_span(s).0 < sector_span(s).1,
{
    lemma_span_ordered(s);
}

/// A sector-aligned address lies in a segment's sector span exactly when the sector starting
/// there meets the segment.
proof fn lemma_span_touch(s: SegmentModel, x: int)
    requires
        seg_end(s) + FLASH_SECTOR_SIZE - 1 <= u32::MAX,
        x % 4096 == 0,
    ensures
        in_range(sector_span(s), x) <==> (s.0 < x + 4096 && x < seg_end(s)),
{
    lemma_span_ordered(s);
    let lo = sector_span(s).0 as int;
    let hi = sector_span(s).1 as int;
    let e = seg_end(s);
    assert(lo == s.0 - s.0 % 4096);
    assert(hi == (e + 4095) - (e + 4095) % 4096);
    if lo <= x && s.0 >= x + 4096 {
        assert(false) by (nonlinear_arith)
            requires
                lo == s.0 - s.0 % 4096,
                lo <= x,
                s.0 >= x + 4096,
        ;
    }
    if s.0 < x + 4096 && x < lo {
        lemma_sector_gap(x, lo);
    }
    if x < hi && x >= e {
        lemma_sector_gap(x, hi);
        assert(false) by (nonlinear_arith)
            requires
                hi == (e + 4095) - (e + 4095) % 4096,
                x + 4096 <= hi,
                x >= e,
        ;
    }
}

/// With non-empty segments, every range of the erase plan holds at least one sector, and a
/// sector is erased exactly when it meets some segment: every touched sector is erased
/// (once, by the separation of the ranges) and no other sector is.
pub proof fn lemma_erase_plan_touched_sectors(segs: Seq<SegmentModel>, x: int)
    requires
        segments_sector_fit(segs),
        forall|k: int| 0 <= k < segs.len() ==> (#[trigger] segs[k]).1.len() > 0,
        x % 4096 == 0,
    ensures
        forall|j: int| 0 <= j < erase_plan(segs).len() ==> (#[trigger] erase_plan(segs)[j]).1 > 0,
        plan_covers(erase_plan(segs), x) <==> exists|k: int|
            0 <= k < segs.len() && (#[trigger] segs[k]).0 < x + 4096 && x < seg_end(segs[k]),
{
    let spans = sector_spans(segs);
    assert forall|k: int| 0 <= k < spans.len() implies (#[trigger] spans[k]).0 < spans[k].1 by {
        assert(spans[k] == sector_span(segs[k]));
        lemma_span_nonempty(segs[k]);
    }
    lemma_sort_adds_nothing(spans);
    let st = sort_by_start(spans);
    assert forall|k: int| 0 <= k < st.len() implies (#[trigger] st[k]).0 < st[k].1 by {
        let i = choose|i: int| 0 <= i < spans.len() && spans[i] == #[trigger] st[k];
        assert(spans[i].0 < spans[i].1);
    }
    lemma_merge_strict(st);
    let m = merge_ranges(st);
    assert forall|j: int| 0 <= j < erase_plan(segs).len() implies (#[trigger] erase_plan(
        segs,
    )[j]).1 > 0 by {
        assert(m[j].0 < m[j].1);
    }
    lemma_erase_plan_coverage(segs, x);
    if spans_cover(segs, x) {
        let k = choose|k: int| 0 <= k < segs.len() && #[trigger] in_range(sector_span(segs[k]), x);
        lemma_span_touch(segs[k], x);
    }
    if exists|k: int| 0 <= k < segs.len() && (#[trigger] segs[k]).0 < x + 4096 && x < seg_end(segs[k]) {
        let k = choose|k: int| 0 <= k < segs.len() && (#[trigger] segs[k]).0 < x + 4096 && x < seg_end(segs[k]);
        lemma_span_touch(segs[k], x);
        assert(in_range(sector_span(segs[k]), x));
    }
}

/// Merging keeps every range starting strictly before it ends.
proof fn lemma_merge_strict(s: Seq<Range>)
    requires
        forall|j: int| 0 <= j < s.len() ==> (#[trigger] s[j]).0 < s[j].1,
    ensures
        forall|j: int|
            0 <= j < merge_ranges(s).len() ==> (#[trigger] merge_ranges(s)[j]).0 < merge_ranges(s)[j].1,
    decreases s.len(),
{
    if s.len() > 0 {
        let t = s.drop_last();
        assert forall|j: int| 0 <= j < t.len() implies (#[trigger] t[j]).0 < t[j].1 by {
            assert(t[j] == s[j]);
        }
        lemma_merge_strict(t);
        let r = s[s.len() - 1];
        let m = merge_ranges(t);
        let res = merge_ranges(s);
        assert(res == merge_step(m, r));
        assert forall|j: int| 0 <= j < res.len() implies (#[trigger] res[j]).0 < res[j].1 by {
            if j < m.len() && !(m.len() > 0 && r.0 <= m.last().1 && j == m.len() - 1) {
                assert(res[j] == m[j]);
            }
        }
    }
}

/// `ranges` ordered by start, with `r` inserted at its place.
fn insert_by_start(ranges: &mut Vec<Range>, r: Range)
    ensures
        final(ranges)@ == insert_sorted(old(ranges)@, r),
{
    let ghost s = ranges@;
    let mut j: usize = ranges.len();
    proof {
        assert(s.take(j as int) =~= s);
    }
    while j > 0 && ranges[j - 1].0 > r.0
        invariant
            ranges@ == s,
            j <= s.len(),
            insert_pos(s, r.0) == insert_pos(s.take(j as int), r.0),
        decreases j,
    {
        proof {
            assert(s.take(j as int).drop_last() =~= s.take(j - 1));
        }
        j = j - 1;
    }
    proof {
        assert(insert_pos(s.take(j as int), r.0) == j);
    }
    ranges.insert(j, r);
    proof {
        assert(ranges@ =~= s.take(j as int).push(r) + s.skip(j as int));
    }
}

/// The ranges ordered by start (a stable insertion sort).
fn sort_ranges(ranges: &Vec<Range>) -> (sorted: Vec<Range>)
    ensures
        sorted@ == sort_by_start(ranges@),
{
    let mut out: Vec<Range> = Vec::new();
    let n = ranges.len();
    for i in 0..n
        invariant
            n == ranges@.len(),
            out@ == sort_by_start(ranges@.take(i as int)),
    {
        proof {
            assert(ranges@.take(i + 1).drop_last() =~= ranges@.take(i as int));
        }
        insert_by_start(&mut out, ranges[i]);
    }
    proof {
        assert(ranges@.take(n as int) =~= ranges@);
    }
    out
}

/// Compute the sector-aligned, merged erase ranges covering all segments, as `(start, size)`.
///
/// Each segment's span is rounded out to whole sectors; overlapping or touching ranges are
/// merged so every sector is erased exactly once even when segments share a sector.
pub fn plan_erase(segments: &[Segment]) -> (plan: Vec<(u32, u32)>)
    requires
        forall|i: int|
            0 <= i < segments@.len() ==> seg_end(#[trigger] segments@[i]@) + FLASH_SECTOR_SIZE
                - 1 <= u32::MAX,
    ensures
        plan@ == erase_plan(segments_view(segments@)),
        forall|j: int|
            0 <= j < plan@.len() ==> (#[trigger] plan@[j]).0 % FLASH_SECTOR_SIZE == 0
                && plan@[j].1 % FLASH_SECTOR_SIZE == 0,
        forall|i: int, j: int|
            0 <= i < j < plan@.len() ==> (#[trigger] plan@[i]).0 + plan@[i].1 < (
            #[trigger] plan@[j]).0,
        forall|x: int|
            #![trigger plan_covers(plan@, x)]
            plan_covers(plan@, x) <==> spans_cover(segments_view(segments@), x),
{
    proof {
        let segs = segments_view(segments@);
        assert forall|i: int| 0 <= i < segs.len() implies seg_end(#[trigger] segs[i])
            + FLASH_SECTOR_SIZE - 1 <= u32::MAX by {
            assert(segs[i] == segments@[i]@);
        }
        lemma_erase_plan_sectors(segs);
        assert forall|x: int| #![trigger plan_covers(erase_plan(segs), x)] plan_covers(
            erase_plan(segs),
            x,
        ) <==> spans_cover(segs, x) by {
            lemma_erase_plan_coverage(segs, x);
        }
    }
    let sector = FLASH_SECTOR_SIZE;
    proof {
        lemma_sector_is_pow2();
    }
    let ghost segs = segments_view(segments@);
    let n = segments.len();
    let mut spans: Vec<Range> = Vec::new();
    for i in 0..n
        invariant
            n == segments@.len(),
            segs == segments_view(segments@),
            is_pow2(sector as int),
            sector == FLASH_SECTOR_SIZE,
            forall|k: int|
                0 <= k < segments@.len() ==> seg_end(#[trigger] segments@[k]@) + FLASH_SECTOR_SIZE
                    - 1 <= u32::MAX,
            spans@ =~= sector_spans(segs.take(i as int)),
    {
        let seg = &segments[i];
        assert(segs[i as int] == seg@);
        let start = align_down(seg.addr, sector);
        let end = align_up(seg.end(), sector);
        spans.push((start, end));
        proof {
            assert(segs.take(i + 1) =~= segs.take(i as int).push(seg@));
        }
    }
    proof {
        assert(segs.take(n as int) =~= segs);
    }
    let sorted = sort_ranges(&spans);
    proof {
        lemma_spans_ordered(segs);
    }
    let mut merged: Vec<Range> = Vec::new();
    let m = sorted.len();
    for i in 0..m
        invariant
            m == sorted@.len(),
            merged@ == merge_ranges(sorted@.take(i as int)),
    {
        proof {
            assert(sorted@.take(i + 1).drop_last() =~= sorted@.take(i as int));
        }
        let (start, end) = sorted[i];
        let k = merged.len();
        if k > 0 && start <= merged[k - 1].1 {
            let last = merged.pop().unwrap();
            let new_end = if end > last.1 {
                end
            } else {
                last.1
            };
            merged.push((last.0, new_end));
        } else {
            merged.push((start, end));
        }
    }
    proof {
        assert(sorted@.take(m as int) =~= sorted@);
        lemma_merge_ordered(sorted@);
    }
    let mut plan: Vec<(u32, u32)> = Vec::new();
    let k = merged.len();
    for i in 0..k
        invariant
            k == merged@.len(),
            forall|j: int| 0 <= j < merged@.len() ==> (#[trigger] merged@[j]).0 <= merged@[j].1,
            plan@ =~= merged@.take(i as int).map_values(|r: Range| (r.0, (r.1 - r.0) as u32)),
    {
        let (s, e) = merged[i];
        plan.push((s, e - s));
        proof {
            assert(merged@.take(i + 1) =~= merged@.take(i as int).push((s, e)));
        }
    }
    proof {
        assert(merged@.take(k as int) =~= merged@);
    }
    plan
}

// ---------------------------------------------------------------------------------------
// The load sequence.
// ---------------------------------------------------------------------------------------

/// Bytes written (and read back) per PICOBOOT data transfer.
pub const WRITE_CHUNK: usize = 4096;

/// Delay the device waits before rebooting, giving the host time to release the interface.
pub const REBOOT_DELAY_MS: u32 = 500;

/// One device operation of the load sequence.
#[derive(Debug, Clone, PartialEq, Eq)]
pub enum DeviceOp {
    /// Take (or release) access relative to the mass-storage interface.
    ExclusiveAccess(Exclusivity),
    /// Leave XIP mode so flash can be erased and written.
    ExitXip,
    /// Erase `size` bytes of flash at `addr` (both sector-aligned).
    FlashErase {
        /// Flash start address.
        addr: u32,
        /// Number of bytes to erase.
        size: u32,
    },
    /// Write `data` to flash at `addr`.
    FlashWrite {
        /// Destination address.
        addr: u32,
        /// Bytes to write.
        data: Vec<u8>,
    },
    /// Re-enter command XIP so flash can be read back.
    EnterCmdXip,
    /// Read back `expected.len()` bytes at `addr`; they must equal `expected`.
    FlashRead {
        /// Source address.
        addr: u32,
        /// The bytes that were written there.
        expected: Vec<u8>,
    },
    /// Reboot the device (`pc == 0`: to the flashed application).
    Reboot {
        /// Entry point, or 0 for a normal reboot.
        pc: u32,
        /// Initial stack pointer.
        sp: u32,
        /// Delay before rebooting, in milliseconds.
        delay_ms: u32,
    },
}

/// The model of a device operation.
pub enum OpModel {
    /// See [`DeviceOp::ExclusiveAccess`].
    ExclusiveAccess(Exclusivity),
    /// See [`DeviceOp::ExitXip`].
    ExitXip,
    /// See [`DeviceOp::FlashErase`].
    FlashErase { addr: u32, size: u32 },
    /// See [`DeviceOp::FlashWrite`].
    FlashWrite { addr: u32, data: Seq<u8> },
    /// See [`DeviceOp::EnterCmdXip`].
    EnterCmdXip,
    /// See [`DeviceOp::FlashRead`].
    FlashRead { addr: u32, expected: Seq<u8> },
    /// See [`DeviceOp::Reboot`].
    Reboot { pc: u32, sp: u32, delay_ms: u32 },
}

impl View for DeviceOp {
    type V = OpModel;

    open spec fn view(&self) -> OpModel {
        match self {
            DeviceOp::ExclusiveAccess(l) => OpModel::ExclusiveAccess(*l),
            DeviceOp::ExitXip => OpModel::ExitXip,
            DeviceOp::FlashErase { addr, size } => OpModel::FlashErase { addr: *addr, size: *size },
            DeviceOp::FlashWrite { addr, data } => OpModel::FlashWrite { addr: *addr, data: data@ },
            DeviceOp::EnterCmdXip => OpModel::EnterCmdXip,
            DeviceOp::FlashRead { addr, expected } => OpModel::FlashRead {
                addr: *addr,
                expected: expected@,
            },
            DeviceOp::Reboot { pc, sp, delay_ms } => OpModel::Reboot {
                pc: *pc,
                sp: *sp,
                delay_ms: *delay_ms,
            },
        }
    }
}

/// The models of a list of operations.
pub open spec fn ops_view(ops: Seq<DeviceOp>) -> Seq<OpModel> {
    ops.map_values(|o: DeviceOp| o@)
}

/// Number of `WRITE_CHUNK`-sized pieces a run of `len` bytes is cut into.
pub open spec fn chunk_count(len: nat) -> nat {
    ((len + WRITE_CHUNK - 1) / (WRITE_CHUNK as int)) as nat
}

/// Piece `k` of a segment: its flash address and bytes (the last piece may be shorter).
pub open spec fn seg_chunk(s: SegmentModel, k: int) -> (u32, Seq<u8>) {
    let lo = k * WRITE_CHUNK;
    let hi = if lo + WRITE_CHUNK <= s.1.len() {
        lo + WRITE_CHUNK
    } else {
        s.1.len() as int
    };
    ((s.0 + lo) as u32, s.1.subrange(lo, hi))
}

/// The pieces of a segment, in order.
pub open spec fn seg_chunks(s: SegmentModel) -> Seq<(u32, Seq<u8>)> {
    Seq::new(chunk_count(s.1.len()), |k: int| seg_chunk(s, k))
}

/// The pieces of all segments, segment by segment.
pub open spec fn all_chunks(segs: Seq<SegmentModel>) -> Seq<(u32, Seq<u8>)>
    decreases segs.len(),
{
    if segs.len() == 0 {
        Seq::empty()
    } else {
        all_chunks(segs.drop_last()) + seg_chunks(segs.last())
    }
}

/// The operation that writes a piece, or reads it back for comparison.
pub open spec fn chunk_op(c: (u32, Seq<u8>), read_back: bool) -> OpModel {
    if read_back {
        OpModel::FlashRead { addr: c.0, expected: c.1 }
    } else {
        OpModel::FlashWrite { addr: c.0, data: c.1 }
    }
}

/// The operations that write (or read back) every piece of every segment.
pub open spec fn chunk_ops(segs: Seq<SegmentModel>, read_back: bool) -> Seq<OpModel> {
    all_chunks(segs).map_values(|c: (u32, Seq<u8>)| chunk_op(c, read_back))
}

/// The erase operations of the plan.
pub open spec fn erase_ops(segs: Seq<SegmentModel>) -> Seq<OpModel> {
    erase_plan(segs).map_values(|r: (u32, u32)| OpModel::FlashErase { addr: r.0, size: r.1 })
}

/// The whole load sequence: take exclusive access, exit XIP, erase the planned ranges,
/// write every piece; when verifying, re-enter command XIP and read every piece back; then
/// reboot to the application.
pub open spec fn load_ops(segs: Seq<SegmentModel>, verify: bool) -> Seq<OpModel> {
    seq![OpModel::ExclusiveAccess(Exclusivity::Exclusive), OpModel::ExitXip] + erase_ops(segs)
        + chunk_ops(segs, false) + (if verify {
        seq![OpModel::EnterCmdXip] + chunk_ops(segs, true)
    } else {
        Seq::empty()
    }) + seq![OpModel::Reboot { pc: 0, sp: SRAM_END, delay_ms: REBOOT_DELAY_MS }]
}

/// Whether `c` is one of the pieces of one of the segments.
pub open spec fn is_segment_chunk(segs: Seq<SegmentModel>, c: (u32, Seq<u8>)) -> bool {
    exists|k: int, kk: int|
        0 <= k < segs.len() && 0 <= kk < chunk_count(segs[k].1.len()) && c == #[trigger] seg_chunk(
            segs[k],
            kk,
        )
}

/// Every piece in the list of all pieces is a piece of one of the segments.
proof fn lemma_all_chunks_from_segments(segs: Seq<SegmentModel>)
    ensures
        forall|i: int|
            0 <= i < all_chunks(segs).len() ==> is_segment_chunk(segs, #[trigger] all_chunks(segs)[i]),
    decreases segs.len(),
{
    if segs.len() > 0 {
        let t = segs.drop_last();
        lemma_all_chunks_from_segments(t);
        let a = all_chunks(t);
        let c = seg_chunks(segs.last());
        assert(all_chunks(segs) == a + c);
        assert forall|i: int| 0 <= i < all_chunks(segs).len() implies is_segment_chunk(
            segs,
            #[trigger] all_chunks(segs)[i],
        ) by {
            if i < a.len() {
                assert(all_chunks(segs)[i] == a[i]);
                assert(is_segment_chunk(t, a[i]));
                let (k, kk) = choose|k: int, kk: int|
                    0 <= k < t.len() && 0 <= kk < chunk_count(t[k].1.len()) && a[i]
                        == #[trigger] seg_chunk(t[k], kk);
                assert(t[k] == segs[k]);
                assert(all_chunks(segs)[i] == seg_chunk(segs[k], kk));
            } else {
                let kk = i - a.len();
                assert(all_chunks(segs)[i] == c[kk]);
                assert(c[kk] == seg_chunk(segs[segs.len() - 1], kk));
            }
        }
    }
}

/// Every piece of every segment is in the list of all pieces.
proof fn lemma_all_chunks_contains(segs: Seq<SegmentModel>, k: int, kk: int)
    requires
        0 <= k < segs.len(),
        0 <= kk < chunk_count(segs[k].1.len()),
    ensures
        exists|i: int|
            0 <= i < all_chunks(segs).len() && #[trigger] all_chunks(segs)[i] == seg_chunk(
                segs[k],
                kk,
            ),
    decreases segs.len(),
{
    let t = segs.drop_last();
    let a = all_chunks(t);
    if k < segs.len() - 1 {
        assert(t[k] == segs[k]);
        lemma_all_chunks_contains(t, k, kk);
        let i = choose|i: int| 0 <= i < a.len() && #[trigger] a[i] == seg_chunk(t[k], kk);
        assert(all_chunks(segs)[i] == a[i]);
    } else {
        let i = a.len() + kk;
        assert(all_chunks(segs)[i] == seg_chunks(segs.last())[kk]);
    }
}

/// The bytes of a piece lie inside its segment, at the matching offsets.
proof fn lemma_chunk_inside(s: SegmentModel, kk: int, m: int)
    requires
        seg_end(s) <= u32::MAX,
        0 <= kk < chunk_count(s.1.len()),
        0 <= m < seg_chunk(s, kk).1.len(),
    ensures
        seg_chunk(s, kk).0 + m == s.0 + kk * WRITE_CHUNK + m,
        0 <= kk * WRITE_CHUNK + m < s.1.len(),
        seg_chunk(s, kk).1[m] == s.1[kk * WRITE_CHUNK + m],
{
    assert(kk * 4096 < s.1.len()) by (nonlinear_arith)
        requires
            0 <= kk < (s.1.len() + 4095) / 4096,
    ;
}

/// Where operation `w` of a load sequence that is a write comes from: the write region
/// between the erases and the verify region holds exactly the writes of the pieces.
proof fn lemma_load_op_regions(segs: Seq<SegmentModel>, verify: bool, w: int)
    requires
        0 <= w < load_ops(segs, verify).len(),
    ensures
        ({
            let e = erase_ops(segs).len() as int;
            let n = chunk_ops(segs, false).len() as int;
            &&& w < 2 ==> !(load_ops(segs, verify)[w] is FlashWrite)
            &&& 2 <= w < 2 + e ==> load_ops(segs, verify)[w] is FlashErase
            &&& 2 + e <= w < 2 + e + n ==> load_ops(segs, verify)[w] == chunk_op(
                all_chunks(segs)[w - 2 - e],
                false,
            )
            &&& 2 + e + n <= w ==> !(load_ops(segs, verify)[w] is FlashWrite)
                && !(load_ops(segs, verify)[w] is FlashErase)
        }),
{
    let e = erase_ops(segs).len() as int;
    let n = chunk_ops(segs, false).len() as int;
    let ops = load_ops(segs, verify);
    let v: Seq<OpModel> = if verify {
        seq![OpModel::EnterCmdXip] + chunk_ops(segs, true)
    } else {
        Seq::empty()
    };
    let head = seq![OpModel::ExclusiveAccess(Exclusivity::Exclusive), OpModel::ExitXip];
    let tail = seq![OpModel::Reboot { pc: 0, sp: SRAM_END, delay_ms: REBOOT_DELAY_MS }];
    assert(ops == head + erase_ops(segs) + chunk_ops(segs, false) + v + tail);
    if w < 2 {
        assert(ops[w] == head[w]);
    } else if w < 2 + e {
        assert(ops[w] == erase_ops(segs)[w - 2]);
    } else if w < 2 + e + n {
        assert(ops[w] == chunk_ops(segs, false)[w - 2 - e]);
    } else if w < 2 + e + n + v.len() {
        assert(ops[w] == v[w - 2 - e - n]);
        if verify && w > 2 + e + n {
            assert(v[w - 2 - e - n] == chunk_ops(segs, true)[w - 3 - e - n]);
        }
    } else {
        assert(ops[w] == tail[w - 2 - e - n - v.len()]);
    }
}

/// Every byte that the load writes has been erased first: every erase of the sequence
/// comes before every write, and each byte a write puts at an address lies in a range of
/// the erase plan.
pub proof fn lemma_writes_are_erased(segs: Seq<SegmentModel>, verify: bool, w: int, m: int)
    requires
        segments_sector_fit(segs),
        0 <= w < load_ops(segs, verify).len(),
        load_ops(segs, verify)[w] is FlashWrite,
        0 <= m < load_ops(segs, verify)[w]->FlashWrite_data.len(),
    ensures
        plan_covers(erase_plan(segs), load_ops(segs, verify)[w]->FlashWrite_addr + m),
        forall|x: int|
            0 <= x < load_ops(segs, verify).len() && (#[trigger] load_ops(segs, verify)[x]) is FlashErase
                ==> x < w,
{
    lemma_load_op_regions(segs, verify, w);
    let e = erase_ops(segs).len() as int;
    let i = w - 2 - e;
    lemma_all_chunks_from_segments(segs);
    assert(is_segment_chunk(segs, all_chunks(segs)[i]));
    let (k, kk) = choose|k: int, kk: int|
        0 <= k < segs.len() && 0 <= kk < chunk_count(segs[k].1.len()) && all_chunks(segs)[i]
            == #[trigger] seg_chunk(segs[k], kk);
    assert(seg_end(segs[k]) + FLASH_SECTOR_SIZE - 1 <= u32::MAX);
    lemma_chunk_inside(segs[k], kk, m);
    lemma_erase_plan_covers_segments(segs, k, segs[k].0 + kk * WRITE_CHUNK + m);
    assert forall|x: int|
        0 <= x < load_ops(segs, verify).len() && (#[trigger] load_ops(segs, verify)[x]) is FlashErase
            implies x < w by {
        lemma_load_op_regions(segs, verify, x);
    }
}

/// The writes lay down exactly the image: byte `j` of segment `k` is written at address
/// `segs[k].0 + j` by some write of the load sequence.
pub proof fn lemma_writes_cover_image(segs: Seq<SegmentModel>, verify: bool, k: int, j: int)
    requires
        segments_fit(segs),
        0 <= k < segs.len(),
        0 <= j < segs[k].1.len(),
    ensures
        exists|w: int, m: int|
            #![trigger load_ops(segs, verify)[w], load_ops(segs, verify)[w]->FlashWrite_data[m]]
            0 <= w < load_ops(segs, verify).len() && load_ops(segs, verify)[w] is FlashWrite
                && 0 <= m < load_ops(segs, verify)[w]->FlashWrite_data.len()
                && load_ops(segs, verify)[w]->FlashWrite_addr + m == segs[k].0 + j
                && load_ops(segs, verify)[w]->FlashWrite_data[m] == segs[k].1[j],
{
    let kk = j / 4096;
    let m = j % 4096;
    assert(0 <= kk < chunk_count(segs[k].1.len())) by (nonlinear_arith)
        requires
            0 <= j < segs[k].1.len(),
            kk == j / 4096,
    ;
    assert(j == kk * 4096 + m) by (nonlinear_arith)
        requires
            kk == j / 4096,
            m == j % 4096,
    ;
    assert(seg_end(segs[k]) <= u32::MAX);
    let c = seg_chunk(segs[k], kk);
    assert(m < c.1.len());
    lemma_chunk_inside(segs[k], kk, m);
    lemma_all_chunks_contains(segs, k, kk);
    let i = choose|i: int| 0 <= i < all_chunks(segs).len() && #[trigger] all_chunks(segs)[i] == c;
    let e = erase_ops(segs).len() as int;
    let w = 2 + e + i;
    lemma_load_op_regions(segs, verify, w);
    assert(load_ops(segs, verify)[w] == chunk_op(c, false));
    assert(load_ops(segs, verify)[w]->FlashWrite_data[m] == segs[k].1[j]);
}

/// The load sequence opens with exclusive access and leaving XIP, and ends with the one
/// reboot to the application (pc 0, top-of-SRAM stack, 500 ms delay); no other operation is
/// a reboot.
pub proof fn lemma_load_ops_frame(segs: Seq<SegmentModel>, verify: bool)
    ensures
        load_ops(segs, verify).len() >= 3,
        load_ops(segs, verify)[0] == OpModel::ExclusiveAccess(Exclusivity::Exclusive),
        load_ops(segs, verify)[1] == OpModel::ExitXip,
        load_ops(segs, verify).last() == (OpModel::Reboot {
            pc: 0,
            sp: SRAM_END,
            delay_ms: REBOOT_DELAY_MS,
        }),
        forall|w: int|
            0 <= w < load_ops(segs, verify).len() - 1 ==> !((#[trigger] load_ops(segs, verify)[w]) is Reboot),
{
    let ops = load_ops(segs, verify);
    assert forall|w: int| 0 <= w < ops.len() - 1 implies !((#[trigger] ops[w]) is Reboot) by {
        lemma_load_op_regions(segs, verify, w);
        let e = erase_ops(segs).len() as int;
        let n = chunk_ops(segs, false).len() as int;
        let head = seq![OpModel::ExclusiveAccess(Exclusivity::Exclusive), OpModel::ExitXip];
        let v: Seq<OpModel> = if verify {
            seq![OpModel::EnterCmdXip] + chunk_ops(segs, true)
        } else {
            Seq::empty()
        };
        let tail = seq![OpModel::Reboot { pc: 0, sp: SRAM_END, delay_ms: REBOOT_DELAY_MS }];
        assert(ops == head + erase_ops(segs) + chunk_ops(segs, false) + v + tail);
        if w < 2 {
            assert(ops[w] == head[w]);
        } else if w < 2 + e {
            assert(ops[w] == erase_ops(segs)[w - 2]);
        } else if w < 2 + e + n {
            assert(ops[w] == chunk_ops(segs, false)[w - 2 - e]);
        } else {
            assert(ops[w] == v[w - 2 - e - n]);
            if verify && w > 2 + e + n {
                assert(v[w - 2 - e - n] == chunk_ops(segs, true)[w - 3 - e - n]);
            }
        }
    }
}

/// Segments whose every byte has a 32-bit address.
pub open spec fn segments_fit(segs: Seq<SegmentModel>) -> bool {
    forall|i: int| 0 <= i < segs.len() ==> seg_end(#[trigger] segs[i]) <= u32::MAX
}

/// Append to `ops` the operation for every piece of `seg`.
fn push_segment_chunks(ops: &mut Vec<DeviceOp>, seg: &Segment, read_back: bool)
    requires
        seg_end(seg@) <= u32::MAX,
    ensures
        ops_view(final(ops)@) == ops_view(old(ops)@) + seg_chunks(seg@).map_values(
            |c: (u32, Seq<u8>)| chunk_op(c, read_back),
        ),
{
    let ghost start = ops_view(ops@);
    let ghost target = seg_chunks(seg@).map_values(|c: (u32, Seq<u8>)| chunk_op(c, read_back));
    let len = seg.data.len();
    let mut off: usize = 0;
    let mut k: usize = 0;
    while off < len
        invariant
            len == seg.data@.len(),
            seg_end(seg@) <= u32::MAX,
            off <= len,
            off < len ==> off == k * WRITE_CHUNK && k < chunk_count(len as nat),
            off == len ==> k == chunk_count(len as nat),
            target == seg_chunks(seg@).map_values(|c: (u32, Seq<u8>)| chunk_op(c, read_back)),
            ops_view(ops@) == start + target.take(k as int),
        decreases len - off,
    {
        let hi: usize = if len - off > WRITE_CHUNK {
            off + WRITE_CHUNK
        } else {
            len
        };
        let mut piece: Vec<u8> = Vec::new();
        let mut j: usize = off;
        while j < hi
            invariant
                off <= j <= hi <= len,
                len == seg.data@.len(),
                piece@ == seg.data@.subrange(off as int, j as int),
            decreases hi - j,
        {
            piece.push(seg.data[j]);
            proof {
                assert(seg.data@.subrange(off as int, j + 1) =~= seg.data@.subrange(
                    off as int,
                    j as int,
                ).push(seg.data@[j as int]));
            }
            j = j + 1;
        }
        let addr = seg.addr + off as u32;
        let ghost before = ops_view(ops@);
        if read_back {
            ops.push(DeviceOp::FlashRead { addr, expected: piece });
        } else {
            ops.push(DeviceOp::FlashWrite { addr, data: piece });
        }
        proof {
            assert(seg_chunk(seg@, k as int) == (addr, seg.data@.subrange(off as int, hi as int)));
            assert(target[k as int] == chunk_op(seg_chunk(seg@, k as int), read_back));
            assert(ops_view(ops@) =~= before.push(target[k as int]));
            assert(target.take(k + 1) =~= target.take(k as int).push(target[k as int]));
        }
        let ghost old_off = off;
        off = hi;
        k = k + 1;
        proof {
            if off < len {
                assert(off == k * 4096);
                assert(k < chunk_count(len as nat)) by (nonlinear_arith)
                    requires
                        off == k * 4096,
                        off < len,
                ;
            } else {
                assert(k == chunk_count(len as nat)) by (nonlinear_arith)
                    requires
                        old_off == (k - 1) * 4096,
                        old_off < len,
                        len <= old_off + 4096,
                        k >= 1,
                ;
            }
        }
    }
    proof {
        assert(target.take(k as int) =~= target);
    }
}

/// Append to `ops` the operation for every piece of every segment.
fn push_all_chunks(ops: &mut Vec<DeviceOp>, segments: &[Segment], read_back: bool)
    requires
        segments_fit(segments_view(segments@)),
    ensures
        ops_view(final(ops)@) == ops_view(old(ops)@) + chunk_ops(segments_view(segments@), read_back),
{
    let ghost start = ops_view(ops@);
    let ghost segs = segments_view(segments@);
    let n = segments.len();
    for i in 0..n
        invariant
            n == segments@.len(),
            segs == segments_view(segments@),
            segments_fit(segs),
            ops_view(ops@) == start + chunk_ops(segs.take(i as int), read_back),
    {
        assert(segs[i as int] == segments@[i as int]@);
        let ghost before = ops_view(ops@);
        push_segment_chunks(ops, &segments[i], read_back);
        proof {
            let t = segs.take(i + 1);
            assert(t.drop_last() =~= segs.take(i as int));
            assert(t.last() == segments@[i as int]@);
            assert(all_chunks(t) == all_chunks(segs.take(i as int)) + seg_chunks(
                segments@[i as int]@,
            ));
            assert(chunk_ops(t, read_back) =~= chunk_ops(segs.take(i as int), read_back)
                + seg_chunks(segments@[i as int]@).map_values(
                |c: (u32, Seq<u8>)| chunk_op(c, read_back),
            ));
        }
    }
    proof {
        assert(segs.take(n as int) =~= segs);
    }
}

/// Whether two byte strings are equal.
fn bytes_equal(a: &[u8], b: &[u8]) -> (r: bool)
    ensures
        r == (a@ == b@),
{
    if a.len() != b.len() {
        return false;
    }
    let n = a.len();
    for i in 0..n
        invariant
            n == a@.len(),
            n == b@.len(),
            forall|k: int| 0 <= k < i ==> a@[k] == b@[k],
    {
        if a[i] != b[i] {
            return false;
        }
    }
    assert(a@ =~= b@);
    true
}

/// What the transport reports about the operation it was last asked to perform.
#[derive(Debug, Clone, PartialEq, Eq)]
pub enum LoadEvent {
    /// Nothing has been performed yet: the session is starting.
    Start,
    /// The operation completed (with no data to report).
    Completed,
    /// A read-back completed with these bytes.
    ReadBack(Vec<u8>),
    /// The operation failed at the transport level.
    Failed,
}

/// What the session asks for next.
#[derive(Debug, Clone, Copy, PartialEq, Eq, Structural)]
pub enum LoadAction {
    /// Perform operation number `i` of the session (see [`LoadSession::op`]).
    Perform(usize),
    /// Every operation was performed: the load succeeded.
    Done,
    /// Read-back verification found bytes that differ from what was written at `addr`.
    VerifyMismatch {
        /// Address of the first piece that did not match.
        addr: u32,
    },
    /// A transport operation failed; the load stops.
    Aborted,
}

/// The `load` operation as a state machine over its ordered device operations.
///
/// The driver calls [`step`](Self::step) with [`LoadEvent::Start`], performs each
/// [`LoadAction::Perform`] it is given, and reports the outcome in the next `step`, until
/// the session answers `Done`, `VerifyMismatch` or `Aborted`.
pub struct LoadSession {
    ops: Vec<DeviceOp>,
    issued: usize,
    finished: bool,
}

/// Whether an event confirms a read-back of `expected`.
pub open spec fn read_back_matches(event: LoadEvent, expected: Seq<u8>) -> bool {
    match event {
        LoadEvent::ReadBack(data) => data@ == expected,
        _ => false,
    }
}

/// The read-back that the last handed-out operation asked for, if it was one: its address
/// and expected bytes.
pub open spec fn pending_read(ops: Seq<OpModel>, issued: nat) -> Option<(u32, Seq<u8>)> {
    if issued > 0 {
        match ops[issued - 1] {
            OpModel::FlashRead { addr, expected } => Some((addr, expected)),
            _ => None,
        }
    } else {
        None
    }
}

/// Whether the event fails to confirm the pending read-back.
pub open spec fn read_back_fails(ops: Seq<OpModel>, issued: nat, event: LoadEvent) -> bool {
    pending_read(ops, issued) matches Some(p) && !read_back_matches(event, p.1)
}

/// One step of a session, from its state (operations handed out, finished) and the event
/// reporting on the last operation, to its next state and action: a finished session
/// answers `Done`; a failure aborts; a read-back that does not give the written bytes stops
/// with a mismatch at that address; otherwise the next operation is handed out, or, when
/// none is left, the session is done.
pub open spec fn session_step(ops: Seq<OpModel>, issued: nat, finished: bool, event: LoadEvent) -> (
    nat,
    bool,
    LoadAction,
) {
    if finished {
        (issued, true, LoadAction::Done)
    } else if event is Failed {
        (issued, true, LoadAction::Aborted)
    } else if read_back_fails(ops, issued, event) {
        (issued, true, LoadAction::VerifyMismatch { addr: pending_read(ops, issued).unwrap().0 })
    } else if issued < ops.len() {
        (issued + 1, false, LoadAction::Perform(issued as usize))
    } else {
        (issued, true, LoadAction::Done)
    }
}

/// The state and the actions of a session that starts fresh and receives `events` in turn.
pub open spec fn run_session(ops: Seq<OpModel>, events: Seq<LoadEvent>) -> (nat, bool, Seq<
    LoadAction,
>)
    decreases events.len(),
{
    if events.len() == 0 {
        (0, false, Seq::empty())
    } else {
        let prev = run_session(ops, events.drop_last());
        let next = session_step(ops, prev.0, prev.1, events.last());
        (next.0, next.1, prev.2.push(next.2))
    }
}

/// Whether an event reports success on what the session handed out last, when `issued`
/// operations have been handed out: no failure, and a read-back gives the written bytes.
pub open spec fn event_confirms(ops: Seq<OpModel>, issued: nat, event: LoadEvent) -> bool {
    !(event is Failed) && !read_back_fails(ops, issued, event)
}

/// A session whose every report confirms the last operation hands out the operations
/// `0, 1, 2, ...` in order, one per report, and answers `Done` once all are handed out.
pub proof fn lemma_confirmed_run(ops: Seq<OpModel>, events: Seq<LoadEvent>)
    requires
        ops.len() <= usize::MAX,
        events.len() <= ops.len() + 1,
        forall|i: int| 0 <= i < events.len() ==> event_confirms(ops, i as nat, #[trigger] events[i]),
    ensures
        run_session(ops, events).2 == Seq::new(
            events.len(),
            |i: int|
                if i < ops.len() {
                    LoadAction::Perform(i as usize)
                } else {
                    LoadAction::Done
                },
        ),
        events.len() <= ops.len() ==> run_session(ops, events).0 == events.len() && !run_session(
            ops,
            events,
        ).1,
    decreases events.len(),
{
    if events.len() > 0 {
        let t = events.drop_last();
        assert forall|i: int| 0 <= i < t.len() implies event_confirms(ops, i as nat, #[trigger] t[i]) by {
            assert(t[i] == events[i]);
        }
        lemma_confirmed_run(ops, t);
        let k = (events.len() - 1) as int;
        assert(event_confirms(ops, k as nat, events[k]));
        assert(run_session(ops, events).2 =~= Seq::new(
            events.len(),
            |i: int|
                if i < ops.len() {
                    LoadAction::Perform(i as usize)
                } else {
                    LoadAction::Done
                },
        ));
    }
}

/// A session whose reports confirm the first `m` operations and then report a read-back
/// that does not give the written bytes (no failure) hands out operations `0 .. m - 1`, then
/// stops with a verification mismatch at the address of the read-back it handed out last,
/// and hands out nothing more.
pub proof fn lemma_mismatch_run(ops: Seq<OpModel>, events: Seq<LoadEvent>, m: int)
    requires
        ops.len() <= usize::MAX,
        0 <= m < events.len(),
        m <= ops.len(),
        forall|i: int| 0 <= i < m ==> event_confirms(ops, i as nat, #[trigger] events[i]),
        !(events[m] is Failed),
        !event_confirms(ops, m as nat, events[m]),
    ensures
        pending_read(ops, m as nat) is Some,
        ops[m - 1] is FlashRead,
        run_session(ops, events).1,
        run_session(ops, events).2 == Seq::new(
            events.len(),
            |i: int|
                if i < m {
                    LoadAction::Perform(i as usize)
                } else if i == m {
                    LoadAction::VerifyMismatch { addr: pending_read(ops, m as nat).unwrap().0 }
                } else {
                    LoadAction::Done
                },
        ),
    decreases events.len(),
{
    let t = events.drop_last();
    if events.len() == m + 1 {
        assert forall|i: int| 0 <= i < t.len() implies event_confirms(ops, i as nat, #[trigger] t[i]) by {
            assert(t[i] == events[i]);
        }
        lemma_confirmed_run(ops, t);
        assert(events.last() == events[m]);
    } else {
        assert forall|i: int| 0 <= i < m implies event_confirms(ops, i as nat, #[trigger] t[i]) by {
            assert(t[i] == events[i]);
        }
        assert(t[m] == events[m]);
        lemma_mismatch_run(ops, t, m);
    }
    assert(run_session(ops, events).2 =~= Seq::new(
        events.len(),
        |i: int|
            if i < m {
                LoadAction::Perform(i as usize)
            } else if i == m {
                LoadAction::VerifyMismatch { addr: pending_read(ops, m as nat).unwrap().0 }
            } else {
                LoadAction::Done
            },
    ));
}

/// The layout of the load sequence in terms of the erase plan and the pieces: exclusive
/// access and exit XIP come first; then one erase per range of the erase plan, in plan order,
/// with that range's start and size; then one write per piece, in order, at the piece's
/// address with its bytes; when verifying, enter command XIP and one read-back per piece
/// expecting its bytes; and the reboot last.
pub proof fn lemma_load_ops_layout(segs: Seq<SegmentModel>, verify: bool)
    ensures
        ({
            let ops = load_ops(segs, verify);
            let plan = erase_plan(segs);
            let p = plan.len() as int;
            let pieces = all_chunks(segs);
            let n = pieces.len() as int;
            &&& ops.len() == 3 + p + n + (if verify {
                1 + n
            } else {
                0int
            })
            &&& ops[0] == OpModel::ExclusiveAccess(Exclusivity::Exclusive)
            &&& ops[1] == OpModel::ExitXip
            &&& forall|i: int|
                0 <= i < p ==> ops[2 + i] == (OpModel::FlashErase {
                    addr: (#[trigger] plan[i]).0,
                    size: plan[i].1,
                })
            &&& forall|i: int|
                0 <= i < n ==> ops[2 + p + i] == (OpModel::FlashWrite {
                    addr: (#[trigger] pieces[i]).0,
                    data: pieces[i].1,
                })
            &&& verify ==> ops[2 + p + n] == OpModel::EnterCmdXip
            &&& verify ==> forall|i: int|
                0 <= i < n ==> ops[3 + p + n + i] == (OpModel::FlashRead {
                    addr: (#[trigger] pieces[i]).0,
                    expected: pieces[i].1,
                })
            &&& ops[ops.len() - 1] == (OpModel::Reboot {
                pc: 0,
                sp: SRAM_END,
                delay_ms: REBOOT_DELAY_MS,
            })
        }),
{
    let ops = load_ops(segs, verify);
    let plan = erase_plan(segs);
    let p = plan.len() as int;
    let pieces = all_chunks(segs);
    let n = pieces.len() as int;
    let head = seq![OpModel::ExclusiveAccess(Exclusivity::Exclusive), OpModel::ExitXip];
    let e = erase_ops(segs);
    let w = chunk_ops(segs, false);
    let r = chunk_ops(segs, true);
    let v = if verify {
        seq![OpModel::EnterCmdXip] + r
    } else {
        Seq::empty()
    };
    let tail = seq![OpModel::Reboot { pc: 0, sp: SRAM_END, delay_ms: REBOOT_DELAY_MS }];
    assert(ops == head + e + w + v + tail);
    assert(e.len() == p);
    assert(w.len() == n);
    assert(r.len() == n);
    assert forall|i: int| 0 <= i < p implies ops[2 + i] == (OpModel::FlashErase {
        addr: (#[trigger] plan[i]).0,
        size: plan[i].1,
    }) by {
        assert(ops[2 + i] == e[i]);
    }
    assert forall|i: int| 0 <= i < n implies ops[2 + p + i] == (OpModel::FlashWrite {
        addr: (#[trigger] pieces[i]).0,
        data: pieces[i].1,
    }) by {
        assert(ops[2 + p + i] == w[i]);
    }
    if verify {
        assert(ops[2 + p + n] == v[0]);
        assert forall|i: int| 0 <= i < n implies ops[3 + p + n + i] == (OpModel::FlashRead {
            addr: (#[trigger] pieces[i]).0,
            expected: pieces[i].1,
        }) by {
            assert(ops[3 + p + n + i] == v[1 + i]);
            assert(v[1 + i] == r[i]);
        }
    }
    assert(ops[ops.len() - 1] == tail[0]);
}

/// A read-back is judged by exact equality with what was written: when the operation handed
/// out last is a read-back of `expected` at `addr` and the report is a read-back of `data`,
/// a running session stops with a verification mismatch at `addr` exactly when `data`
/// differs from `expected` as a byte sequence (a different length, or any differing byte,
/// `0xFF` included); when they are equal it goes on to the next operation, or is done when
/// none is left.
pub proof fn lemma_read_back_judged_exactly(ops: Seq<OpModel>, issued: nat, event: LoadEvent)
    requires
        0 < issued <= ops.len(),
        ops[issued - 1] is FlashRead,
        event is ReadBack,
    ensures
        event->ReadBack_0@ != ops[issued - 1]->FlashRead_expected ==> session_step(
            ops,
            issued,
            false,
            event,
        ) == (issued, true, LoadAction::VerifyMismatch { addr: ops[issued - 1]->FlashRead_addr }),
        event->ReadBack_0@ == ops[issued - 1]->FlashRead_expected ==> session_step(
            ops,
            issued,
            false,
            event,
        ) == (if issued < ops.len() {
            (issued + 1, false, LoadAction::Perform(issued as usize))
        } else {
            (issued, true, LoadAction::Done)
        }),
{
}

/// A session whose reports confirm the first `m` operations and then report a failure hands
/// out operations `0 .. m - 1`, in order, then aborts, is finished, and hands out nothing
/// more: no operation after the failed one is ever performed.
pub proof fn lemma_failure_run(ops: Seq<OpModel>, events: Seq<LoadEvent>, m: int)
    requires
        ops.len() <= usize::MAX,
        0 <= m < events.len(),
        m <= ops.len(),
        forall|i: int| 0 <= i < m ==> event_confirms(ops, i as nat, #[trigger] events[i]),
        events[m] is Failed,
    ensures
        run_session(ops, events).1,
        run_session(ops, events).2 == Seq::new(
            events.len(),
            |i: int|
                if i < m {
                    LoadAction::Perform(i as usize)
                } else if i == m {
                    LoadAction::Aborted
                } else {
                    LoadAction::Done
                },
        ),
        forall|i: int|
            0 <= i < events.len() && (#[trigger] run_session(ops, events).2[i]) is Perform ==> i
                < m && run_session(ops, events).2[i]->0 < m,
    decreases events.len(),
{
    let t = events.drop_last();
    if events.len() == m + 1 {
        assert forall|i: int| 0 <= i < t.len() implies event_confirms(ops, i as nat, #[trigger] t[i]) by {
            assert(t[i] == events[i]);
        }
        lemma_confirmed_run(ops, t);
        assert(events.last() == events[m]);
    } else {
        assert forall|i: int| 0 <= i < m implies event_confirms(ops, i as nat, #[trigger] t[i]) by {
            assert(t[i] == events[i]);
        }
        assert(t[m] == events[m]);
        lemma_failure_run(ops, t, m);
    }
    let actions = run_session(ops, events).2;
    assert(actions =~= Seq::new(
        events.len(),
        |i: int|
            if i < m {
                LoadAction::Perform(i as usize)
            } else if i == m {
                LoadAction::Aborted
            } else {
                LoadAction::Done
            },
    ));
    assert forall|i: int| 0 <= i < events.len() && (#[trigger] actions[i]) is Perform implies i
        < m && actions[i]->0 < m by {
        if i >= m {
            assert(!(actions[i] is Perform));
        }
    }
}

/// The shape of a verifying load: after the writes of the pieces come re-entering command
/// XIP and the read-backs of the same pieces, in the same order, at the same addresses and
/// with the written bytes as expected; the reboot is last; and no other operation is a
/// read-back.
pub proof fn lemma_verify_reads_mirror_writes(segs: Seq<SegmentModel>)
    ensures
        ({
            let ops = load_ops(segs, true);
            let e = erase_ops(segs).len() as int;
            let n = all_chunks(segs).len() as int;
            &&& ops.len() == e + 2 * n + 4
            &&& ops[2 + e + n] == OpModel::EnterCmdXip
            &&& forall|i: int|
                0 <= i < n ==> ops[2 + e + i] == (OpModel::FlashWrite {
                    addr: (#[trigger] all_chunks(segs)[i]).0,
                    data: all_chunks(segs)[i].1,
                }) && ops[3 + e + n + i] == (OpModel::FlashRead {
                    addr: all_chunks(segs)[i].0,
                    expected: all_chunks(segs)[i].1,
                })
            &&& ops[e + 2 * n + 3] == (OpModel::Reboot {
                pc: 0,
                sp: SRAM_END,
                delay_ms: REBOOT_DELAY_MS,
            })
            &&& forall|w: int|
                0 <= w < ops.len() && (#[trigger] ops[w]) is FlashRead ==> 3 + e + n <= w < 3 + e
                    + 2 * n
        }),
{
    let ops = load_ops(segs, true);
    let e = erase_ops(segs).len() as int;
    let n = all_chunks(segs).len() as int;
    let head = seq![OpModel::ExclusiveAccess(Exclusivity::Exclusive), OpModel::ExitXip];
    let w = chunk_ops(segs, false);
    let r = chunk_ops(segs, true);
    let v = seq![OpModel::EnterCmdXip] + r;
    let tail = seq![OpModel::Reboot { pc: 0, sp: SRAM_END, delay_ms: REBOOT_DELAY_MS }];
    assert(ops == head + erase_ops(segs) + w + v + tail);
    assert forall|i: int|
        0 <= i < n implies ops[2 + e + i] == (OpModel::FlashWrite {
            addr: (#[trigger] all_chunks(segs)[i]).0,
            data: all_chunks(segs)[i].1,
        }) && ops[3 + e + n + i] == (OpModel::FlashRead {
            addr: all_chunks(segs)[i].0,
            expected: all_chunks(segs)[i].1,
        }) by {
        assert(ops[2 + e + i] == w[i]);
        assert(ops[3 + e + n + i] == v[1 + i]);
        assert(v[1 + i] == r[i]);
    }
    assert(ops[2 + e + n] == v[0]);
    assert(ops[e + 2 * n + 3] == tail[0]);
    assert forall|x: int| 0 <= x < ops.len() && (#[trigger] ops[x]) is FlashRead implies 3 + e
        + n <= x < 3 + e + 2 * n by {
        if x < 2 {
            assert(ops[x] == head[x]);
        } else if x < 2 + e {
            assert(ops[x] == erase_ops(segs)[x - 2]);
        } else if x < 2 + e + n {
            assert(ops[x] == w[x - 2 - e]);
        } else if x == 2 + e + n {
            assert(ops[x] == v[0]);
        } else if x >= 3 + e + 2 * n {
            assert(ops[x] == tail[x - 3 - e - 2 * n]);
        }
    }
}

/// The whole run of a verifying load against a device whose every transfer succeeds and
/// whose read-backs are arbitrary: when the reports confirm the first `m` operations and the
/// next report is a read-back that differs, the session has handed out, in order,
/// `0 .. m - 1` — exclusive access, exit XIP, the erases, the writes, enter command XIP and
/// the read-backs of the pieces in write order up to the differing one — and stops with a
/// verification mismatch at that piece's address; the reboot is never handed out. When every
/// report confirms, all operations, the reboot last, are handed out and the session is done.
pub proof fn lemma_verifying_load_run(segs: Seq<SegmentModel>, events: Seq<LoadEvent>, m: int)
    requires
        load_ops(segs, true).len() <= usize::MAX,
        events.len() <= load_ops(segs, true).len() + 1,
        0 <= m <= events.len(),
        forall|i: int| 0 <= i < events.len() ==> !((#[trigger] events[i]) is Failed),
        forall|i: int| 0 <= i < m ==> event_confirms(load_ops(segs, true), i as nat, #[trigger] events[i]),
        m < events.len() ==> !event_confirms(load_ops(segs, true), m as nat, events[m]),
    ensures
        ({
            let ops = load_ops(segs, true);
            let e = erase_ops(segs).len() as int;
            let n = all_chunks(segs).len() as int;
            let actions = run_session(ops, events).2;
            &&& m < events.len() ==> {
                &&& 3 + e + n <= m - 1 < 3 + e + 2 * n
                &&& actions == Seq::new(
                    events.len(),
                    |i: int|
                        if i < m {
                            LoadAction::Perform(i as usize)
                        } else if i == m {
                            LoadAction::VerifyMismatch {
                                addr: all_chunks(segs)[m - 1 - (3 + e + n)].0,
                            }
                        } else {
                            LoadAction::Done
                        },
                )
                &&& forall|i: int|
                    0 <= i < actions.len() ==> #[trigger] actions[i] != LoadAction::Perform(
                        (ops.len() - 1) as usize,
                    )
            }
            &&& m == events.len() ==> actions == Seq::new(
                events.len(),
                |i: int|
                    if i < ops.len() {
                        LoadAction::Perform(i as usize)
                    } else {
                        LoadAction::Done
                    },
            )
        }),
{
    let ops = load_ops(segs, true);
    let e = erase_ops(segs).len() as int;
    let n = all_chunks(segs).len() as int;
    lemma_verify_reads_mirror_writes(segs);
    if m < events.len() {
        assert(m <= ops.len());
        lemma_mismatch_run(ops, events, m);
        let k = m - 1 - (3 + e + n);
        assert(ops[3 + e + n + k] == (OpModel::FlashRead {
            addr: all_chunks(segs)[k].0,
            expected: all_chunks(segs)[k].1,
        }));
        assert(pending_read(ops, m as nat).unwrap().0 == all_chunks(segs)[k].0);
        let actions = run_session(ops, events).2;
        assert(actions =~= Seq::new(
            events.len(),
            |i: int|
                if i < m {
                    LoadAction::Perform(i as usize)
                } else if i == m {
                    LoadAction::VerifyMismatch { addr: all_chunks(segs)[m - 1 - (3 + e + n)].0 }
                } else {
                    LoadAction::Done
                },
        ));
        assert forall|i: int| 0 <= i < actions.len() implies #[trigger] actions[i]
            != LoadAction::Perform((ops.len() - 1) as usize) by {
            if i < m {
                assert(actions[i] == LoadAction::Perform(i as usize));
                assert(i < ops.len() - 1);
            }
        }
    } else {
        lemma_confirmed_run(ops, events);
    }
}

impl LoadSession {
    /// The operations of the session, in order.
    pub closed spec fn ops(&self) -> Seq<OpModel> {
        ops_view(self.ops@)
    }

    /// How many operations have been handed out.
    pub closed spec fn issued(&self) -> nat {
        self.issued as nat
    }

    /// Whether the session has ended.
    pub closed spec fn finished(&self) -> bool {
        self.finished
    }

    /// The session's invariant: it never hands out more operations than it holds.
    pub closed spec fn wf(&self) -> bool {
        self.issued <= self.ops@.len()
    }

    /// Start a load of `segments`, reading every piece back when `verify` is set.
    pub fn new(segments: &[Segment], verify: bool) -> (s: LoadSession)
        requires
            segments_sector_fit(segments_view(segments@)),
        ensures
            s.wf(),
            s.ops() == load_ops(segments_view(segments@), verify),
            s.ops().len() <= usize::MAX,
            s.issued() == 0,
            !s.finished(),
    {
        let ghost segs = segments_view(segments@);
        proof {
            assert forall|i: int| 0 <= i < segments@.len() implies seg_end(
                #[trigger] segments@[i]@,
            ) + FLASH_SECTOR_SIZE - 1 <= u32::MAX by {
                assert(segs[i] == segments@[i]@);
            }
        }
        let mut ops: Vec<DeviceOp> = Vec::new();
        ops.push(DeviceOp::ExclusiveAccess(Exclusivity::Exclusive));
        ops.push(DeviceOp::ExitXip);
        let ghost head = ops_view(ops@);
        assert(head =~= seq![OpModel::ExclusiveAccess(Exclusivity::Exclusive), OpModel::ExitXip]);
        let plan = plan_erase(segments);
        let np = plan.len();
        for i in 0..np
            invariant
                np == plan@.len(),
                plan@ == erase_plan(segs),
                ops_view(ops@) == head + erase_ops(segs).take(i as int),
        {
            let (addr, size) = plan[i];
            let ghost before = ops_view(ops@);
            ops.push(DeviceOp::FlashErase { addr, size });
            proof {
                assert(ops_view(ops@) =~= before.push(OpModel::FlashErase { addr, size }));
                assert(erase_ops(segs).take(i + 1) =~= erase_ops(segs).take(i as int).push(
                    OpModel::FlashErase { addr, size },
                ));
            }
        }
        proof {
            assert(erase_ops(segs).take(np as int) =~= erase_ops(segs));
            assert forall|i: int| 0 <= i < segs.len() implies seg_end(#[trigger] segs[i])
                <= u32::MAX by {}
        }
        push_all_chunks(&mut ops, segments, false);
        let ghost mid = ops_view(ops@);
        assert(mid == head + erase_ops(segs) + chunk_ops(segs, false));
        if verify {
            ops.push(DeviceOp::EnterCmdXip);
            assert(ops_view(ops@) =~= mid.push(OpModel::EnterCmdXip));
            push_all_chunks(&mut ops, segments, true);
            assert(ops_view(ops@) =~= mid + (seq![OpModel::EnterCmdXip] + chunk_ops(segs, true)));
        } else {
            assert(ops_view(ops@) =~= mid + Seq::<OpModel>::empty());
        }
        let ghost before = ops_view(ops@);
        ops.push(DeviceOp::Reboot { pc: 0, sp: SRAM_END, delay_ms: REBOOT_DELAY_MS });
        proof {
            assert(ops_view(ops@) =~= before.push(
                OpModel::Reboot { pc: 0, sp: SRAM_END, delay_ms: REBOOT_DELAY_MS },
            ));
            assert(ops_view(ops@) =~= load_ops(segs, verify));
        }
        let count = ops.len();
        assert(ops_view(ops@).len() == count);
        LoadSession { ops, issued: 0, finished: false }
    }

    /// Operation number `i` of the session.
    pub fn op(&self, i: usize) -> (o: &DeviceOp)
        requires
            i < self.ops().len(),
        ensures
            o@ == self.ops()[i as int],
    {
        &self.ops[i]
    }

    /// Take the outcome of the operation handed out last and say what to do next.
    ///
    /// A failure aborts the session. After a read-back, the bytes must equal the piece
    /// that was written there, or the session stops with a verification mismatch at that
    /// address. Otherwise the next operation is handed out, or, when none is left, the
    /// session is done. A finished session answers `Done` and does not change.
    pub fn step(&mut self, event: LoadEvent) -> (action: LoadAction)
        requires
            old(self).wf(),
        ensures
            final(self).wf(),
            final(self).ops() == old(self).ops(),
            (final(self).issued(), final(self).finished(), action) == session_step(
                old(self).ops(),
                old(self).issued(),
                old(self).finished(),
                event,
            ),
    {
        if self.finished {
            return LoadAction::Done;
        }
        if let LoadEvent::Failed = event {
            self.finished = true;
            return LoadAction::Aborted;
        }
        if self.issued > 0 {
            let ghost prev = self.ops@[self.issued - 1]@;
            assert(ops_view(self.ops@)[self.issued - 1] == prev);
            if let DeviceOp::FlashRead { addr, expected } = &self.ops[self.issued - 1] {
                let ok = match &event {
                    LoadEvent::ReadBack(data) => bytes_equal(data.as_slice(), expected.as_slice()),
                    _ => false,
                };
                if !ok {
                    let a = *addr;
                    self.finished = true;
                    return LoadAction::VerifyMismatch { addr: a };
                }
            }
        }
        if self.issued < self.ops.len() {
            let i = self.issued;
            self.issued = self.issued + 1;
            LoadAction::Perform(i)
        } else {
            self.finished = true;
            LoadAction::Done
        }
    }
}

} // verus!
