//! UF2 container parsing.
//!
//! Parses a UF2 file into coalesced flash [`Segment`]s ready to write. Two safety guards
//! are always on:
//!
//! - **family-id guard** — only blocks tagged with the RP2040 family id are accepted; a
//!   main-flash block carrying a different family id is skipped (combined images), and a
//!   main-flash block with no family id at all is rejected (the target cannot be confirmed).
//! - **flash-address guard** — every accepted block must lie within the flash window.
//!
//! The 512-byte block layout follows the UF2 specification:
//!
//! ```text
//! offset size field
//! 0      4    magic start 0
//! 4      4    magic start 1
//! 8      4    flags
//! 12     4    target address
//! 16     4    payload size
//! 20     4    block number
//! 24     4    number of blocks
//! 28     4    file size, or family id when the family-id flag is set
//! 32     476  payload
//! 508    4    magic end
//! ```

use vstd::prelude::*;

use crate::constants::{
    FLASH_START, RP2040_FAMILY_ID, UF2_BLOCK_SIZE, UF2_FLAG_FAMILY_ID_PRESENT,
    UF2_FLAG_NOT_MAIN_FLASH, UF2_MAGIC_END, UF2_MAGIC_START0, UF2_MAGIC_START1, UF2_MAX_PAYLOAD,
};

verus! {

/// A contiguous run of bytes to write to flash, starting at [`addr`](Self::addr).
#[derive(Debug, Clone, PartialEq, Eq)]
pub struct Segment {
    /// Absolute flash (XIP) start address.
    pub addr: u32,
    /// Bytes to write, in order.
    pub data: Vec<u8>,
}

/// The model of a segment: its start address and its bytes.
pub type SegmentModel = (u32, Seq<u8>);

impl View for Segment {
    type V = SegmentModel;

    open spec fn view(&self) -> SegmentModel {
        (self.addr, self.data@)
    }
}

/// First address past the end of a segment.
pub open spec fn seg_end(s: SegmentModel) -> int {
    s.0 + s.1.len()
}

/// The models of a list of segments.
pub open spec fn segments_view(segs: Seq<Segment>) -> Seq<SegmentModel> {
    segs.map_values(|s: Segment| s@)
}

impl Segment {
    /// First address past the end of this segment.
    pub fn end(&self) -> (e: u32)
        requires
            self.addr + self.data@.len() <= u32::MAX,
        ensures
            e == seg_end(self@),
    {
        self.addr + self.data.len() as u32
    }
}

/// Errors produced while parsing a UF2 file.
#[derive(Debug, Clone, Copy, PartialEq, Eq, Structural)]
pub enum Uf2Error {
    /// The input is empty.
    Empty,
    /// The file length is not a whole number of 512-byte blocks.
    Truncated {
        /// Length of the input in bytes.
        len: usize,
    },
    /// A block's start or end magic word did not match.
    BadMagic {
        /// Zero-based block index.
        block: usize,
    },
    /// A block's declared payload size exceeds the maximum a block can carry.
    PayloadTooLarge {
        /// Zero-based block index.
        block: usize,
        /// The declared payload size.
        size: u32,
    },
    /// A main-flash block carries no family id, so the RP2040 target cannot be confirmed.
    MissingFamilyId {
        /// Zero-based block index.
        block: usize,
    },
    /// A block's target range falls outside the flash window (`[FLASH_START, flash_end)`).
    AddressOutOfRange {
        /// Zero-based block index.
        block: usize,
        /// The block's target address.
        addr: u32,
        /// The block's payload size.
        size: u32,
        /// The exclusive upper bound the block was checked against.
        flash_end: u32,
    },
    /// An accepted block starts before the end of the segment accepted before it.
    Overlap {
        /// The overlapping address.
        addr: u32,
    },
    /// No RP2040 main-flash blocks were found in the file.
    NoFlashData,
}

// ---------------------------------------------------------------------------------------
// The format, as spec functions.
// ---------------------------------------------------------------------------------------

/// The little-endian 32-bit word at byte offset `off` of `s`.
pub open spec fn le_u32(s: Seq<u8>, off: int) -> u32 {
    (s[off] as int + s[off + 1] as int * 0x100 + s[off + 2] as int * 0x1_0000
        + s[off + 3] as int * 0x100_0000) as u32
}

/// The `i`-th 512-byte block of a UF2 file.
pub open spec fn uf2_block(bytes: Seq<u8>, i: int) -> Seq<u8> {
    bytes.subrange(i * 512, i * 512 + 512)
}

/// Whether a block carries the three UF2 magic words.
pub open spec fn block_magic_ok(b: Seq<u8>) -> bool {
    &&& le_u32(b, 0) == UF2_MAGIC_START0
    &&& le_u32(b, 4) == UF2_MAGIC_START1
    &&& le_u32(b, 508) == UF2_MAGIC_END
}

/// The flags word of a block.
pub open spec fn block_flags(b: Seq<u8>) -> u32 {
    le_u32(b, 8)
}

/// The target address of a block.
pub open spec fn block_addr(b: Seq<u8>) -> u32 {
    le_u32(b, 12)
}

/// The declared payload size of a block.
pub open spec fn block_size(b: Seq<u8>) -> u32 {
    le_u32(b, 16)
}

/// The family id (file-size field) of a block.
pub open spec fn block_family(b: Seq<u8>) -> u32 {
    le_u32(b, 28)
}

/// What one block contributes: `Err` refuses the file, `Ok(None)` skips the block, and
/// `Ok(Some((addr, payload)))` accepts `payload` for flash at `addr`. The checks are made in
/// this order: magic, not-main-flash flag, family-id flag, family id, payload size, window.
#[verifier::opaque]
pub open spec fn block_outcome(b: Seq<u8>, index: nat, flash_end: u32) -> Result<
    Option<SegmentModel>,
    Uf2Error,
> {
    let flags = block_flags(b);
    let addr = block_addr(b);
    let size = block_size(b);
    if !block_magic_ok(b) {
        Err(Uf2Error::BadMagic { block: index as usize })
    } else if flags & UF2_FLAG_NOT_MAIN_FLASH != 0 {
        Ok(None)
    } else if flags & UF2_FLAG_FAMILY_ID_PRESENT == 0 {
        Err(Uf2Error::MissingFamilyId { block: index as usize })
    } else if block_family(b) != RP2040_FAMILY_ID {
        Ok(None)
    } else if size > UF2_MAX_PAYLOAD {
        Err(Uf2Error::PayloadTooLarge { block: index as usize, size })
    } else if addr < FLASH_START || addr + size > flash_end {
        Err(Uf2Error::AddressOutOfRange { block: index as usize, addr, size, flash_end })
    } else {
        Ok(Some((addr, b.subrange(32, 32 + size))))
    }
}

/// Add an accepted payload to the segment list: it extends the last segment when it starts
/// exactly at that segment's end, is refused when it starts before that end, and otherwise
/// opens a new segment.
pub open spec fn append_spec(segs: Seq<SegmentModel>, addr: u32, payload: Seq<u8>) -> Result<
    Seq<SegmentModel>,
    Uf2Error,
> {
    if segs.len() > 0 && addr == seg_end(segs.last()) {
        Ok(segs.update(segs.len() - 1, (segs.last().0, segs.last().1 + payload)))
    } else if segs.len() > 0 && addr < seg_end(segs.last()) {
        Err(Uf2Error::Overlap { addr })
    } else {
        Ok(segs.push((addr, payload)))
    }
}

/// The segments made of the first `n` blocks, or the first error among them.
pub open spec fn parse_blocks(bytes: Seq<u8>, flash_end: u32, n: nat) -> Result<
    Seq<SegmentModel>,
    Uf2Error,
>
    decreases n,
{
    if n == 0 {
        Ok(Seq::empty())
    } else {
        match parse_blocks(bytes, flash_end, (n - 1) as nat) {
            Err(e) => Err(e),
            Ok(segs) => match block_outcome(uf2_block(bytes, n - 1), (n - 1) as nat, flash_end) {
                Err(e) => Err(e),
                Ok(None) => Ok(segs),
                Ok(Some(acc)) => append_spec(segs, acc.0, acc.1),
            },
        }
    }
}

/// What parsing a whole UF2 file gives.
pub open spec fn spec_parse(bytes: Seq<u8>, flash_end: u32) -> Result<Seq<SegmentModel>, Uf2Error> {
    if bytes.len() == 0 {
        Err(Uf2Error::Empty)
    } else if bytes.len() % 512 != 0 {
        Err(Uf2Error::Truncated { len: bytes.len() as usize })
    } else {
        match parse_blocks(bytes, flash_end, bytes.len() / 512) {
            Err(e) => Err(e),
            Ok(segs) => if segs.len() == 0 {
                Err(Uf2Error::NoFlashData)
            } else {
                Ok(segs)
            },
        }
    }
}

/// The model of a parse result.
pub open spec fn parse_result_view(r: Result<Vec<Segment>, Uf2Error>) -> Result<
    Seq<SegmentModel>,
    Uf2Error,
> {
    match r {
        Ok(v) => Ok(segments_view(v@)),
        Err(e) => Err(e),
    }
}

/// Segments that lie in `[FLASH_START, flash_end)` and are strictly address-ordered with a
/// gap between any two of them (adjacent ones having been coalesced).
pub open spec fn segments_well_placed(segs: Seq<SegmentModel>, flash_end: u32) -> bool {
    &&& forall|i: int|
        0 <= i < segs.len() ==> FLASH_START <= #[trigger] segs[i].0 && seg_end(segs[i])
            <= flash_end
    &&& forall|i: int, j: int|
        0 <= i < j < segs.len() ==> seg_end(#[trigger] segs[i]) < (#[trigger] segs[j]).0
}

// ---------------------------------------------------------------------------------------
// Lemmas.
// ---------------------------------------------------------------------------------------

/// A header word of block `i` is the word at the same offset of the whole file.
proof fn lemma_block_word(bytes: Seq<u8>, i: int, off: int)
    requires
        0 <= i,
        (i + 1) * 512 <= bytes.len(),
        0 <= off <= 508,
    ensures
        le_u32(uf2_block(bytes, i), off) == le_u32(bytes, i * 512 + off),
{
    let b = uf2_block(bytes, i);
    assert(b[off] == bytes[i * 512 + off]);
    assert(b[off + 1] == bytes[i * 512 + off + 1]);
    assert(b[off + 2] == bytes[i * 512 + off + 2]);
    assert(b[off + 3] == bytes[i * 512 + off + 3]);
}

/// Once the blocks seen so far give an error, later blocks do not change it.
proof fn lemma_parse_blocks_error_sticks(bytes: Seq<u8>, flash_end: u32, k: nat, n: nat)
    requires
        k <= n,
        parse_blocks(bytes, flash_end, k) is Err,
    ensures
        parse_blocks(bytes, flash_end, n) == parse_blocks(bytes, flash_end, k),
    decreases n,
{
    if n > k {
        lemma_parse_blocks_error_sticks(bytes, flash_end, k, (n - 1) as nat);
    }
}

/// Adding an accepted in-window payload keeps the segments well placed.
proof fn lemma_append_keeps_placement(
    segs: Seq<SegmentModel>,
    addr: u32,
    payload: Seq<u8>,
    flash_end: u32,
)
    requires
        segments_well_placed(segs, flash_end),
        FLASH_START <= addr,
        addr + payload.len() <= flash_end,
    ensures
        append_spec(segs, addr, payload) matches Ok(s2) ==> segments_well_placed(s2, flash_end),
{
    if let Ok(s2) = append_spec(segs, addr, payload) {
        let n = segs.len();
        if n > 0 && addr == seg_end(segs.last()) {
            assert forall|i: int, j: int| 0 <= i < j < s2.len() implies seg_end(
                #[trigger] s2[i],
            ) < (#[trigger] s2[j]).0 by {
                assert(s2[i] == segs[i]);
                assert(s2[j].0 == segs[j].0);
            }
        } else {
            assert forall|i: int, j: int| 0 <= i < j < s2.len() implies seg_end(
                #[trigger] s2[i],
            ) < (#[trigger] s2[j]).0 by {
                if j == n {
                    if i < n - 1 {
                        assert(seg_end(segs[i]) < segs[n - 1].0);
                    }
                }
            }
        }
    }
}

/// An accepted payload lies inside the flash window and is at most one block's payload.
proof fn lemma_accepted_in_window(b: Seq<u8>, index: nat, flash_end: u32)
    requires
        b.len() == 512,
    ensures
        block_outcome(b, index, flash_end) matches Ok(Some(acc)) ==> {
            &&& FLASH_START <= acc.0
            &&& acc.0 + acc.1.len() <= flash_end
            &&& acc.1.len() <= UF2_MAX_PAYLOAD
        },
{
    reveal(block_outcome);
}

/// Every successful prefix of the block list gives well-placed segments.
proof fn lemma_parse_blocks_placement(bytes: Seq<u8>, flash_end: u32, n: nat)
    requires
        n * 512 <= bytes.len(),
    ensures
        parse_blocks(bytes, flash_end, n) matches Ok(segs) ==> segments_well_placed(
            segs,
            flash_end,
        ),
    decreases n,
{
    if n > 0 {
        lemma_parse_blocks_placement(bytes, flash_end, (n - 1) as nat);
        if let Ok(segs) = parse_blocks(bytes, flash_end, (n - 1) as nat) {
            let b = uf2_block(bytes, n - 1);
            lemma_accepted_in_window(b, (n - 1) as nat, flash_end);
            if let Ok(Some(acc)) = block_outcome(b, (n - 1) as nat, flash_end) {
                lemma_append_keeps_placement(segs, acc.0, acc.1, flash_end);
            }
        }
    }
}

/// The flash-address guard and the coalescing, for a whole file: every segment of a
/// successful parse lies in `[FLASH_START, flash_end)`, the segments are strictly
/// address-ordered with a gap between neighbours, and there is at least one.
pub proof fn lemma_parse_well_placed(bytes: Seq<u8>, flash_end: u32)
    ensures
        spec_parse(bytes, flash_end) matches Ok(segs) ==> {
            &&& segs.len() > 0
            &&& segments_well_placed(segs, flash_end)
        },
{
    if bytes.len() > 0 && bytes.len() % 512 == 0 {
        assert((bytes.len() / 512) * 512 <= bytes.len()) by (nonlinear_arith);
        lemma_parse_blocks_placement(bytes, flash_end, bytes.len() / 512);
    }
}

/// The payload that block `k` of a file contributes with its address, if the parser
/// accepts the block.
pub open spec fn accepted_payload(bytes: Seq<u8>, flash_end: u32, k: int) -> Option<SegmentModel> {
    match block_outcome(uf2_block(bytes, k), k as nat, flash_end) {
        Ok(Some(acc)) => Some(acc),
        _ => None,
    }
}

/// Whether segment `s` holds the payload `acc` at the payload's own address.
pub open spec fn segment_holds(s: SegmentModel, acc: SegmentModel) -> bool {
    &&& s.0 <= acc.0
    &&& acc.0 + acc.1.len() <= seg_end(s)
    &&& s.1.subrange(acc.0 - s.0, acc.0 - s.0 + acc.1.len()) == acc.1
}

/// Whether some segment holds the payload `acc` at its address.
pub open spec fn payload_placed(segs: Seq<SegmentModel>, acc: SegmentModel) -> bool {
    exists|i: int| 0 <= i < segs.len() && segment_holds(#[trigger] segs[i], acc)
}

/// Whether payload `acc` puts byte `b` at address `a`.
pub open spec fn payload_byte(acc: SegmentModel, a: int, b: u8) -> bool {
    acc.0 <= a < acc.0 + acc.1.len() && acc.1[a - acc.0] == b
}

/// Whether one of the first `n` blocks is accepted with a payload that puts byte `b` at
/// address `a`.
pub open spec fn byte_from_blocks(bytes: Seq<u8>, flash_end: u32, n: int, a: int, b: u8) -> bool {
    exists|k: int|
        0 <= k < n && (#[trigger] accepted_payload(bytes, flash_end, k)) is Some && payload_byte(
            accepted_payload(bytes, flash_end, k).unwrap(),
            a,
            b,
        )
}

/// What the segments of the first `n` blocks hold: every accepted payload at its address,
/// and no byte that no accepted payload puts there.
pub open spec fn segments_hold_blocks(
    bytes: Seq<u8>,
    flash_end: u32,
    n: int,
    segs: Seq<SegmentModel>,
) -> bool {
    &&& forall|k: int|
        0 <= k < n && (#[trigger] accepted_payload(bytes, flash_end, k)) is Some ==> payload_placed(
            segs,
            accepted_payload(bytes, flash_end, k).unwrap(),
        )
    &&& forall|i: int, j: int|
        0 <= i < segs.len() && 0 <= j < segs[i].1.len() ==> byte_from_blocks(
            bytes,
            flash_end,
            n,
            segs[i].0 + j,
            #[trigger] segs[i].1[j],
        )
}

/// A byte that one of the first `n` blocks puts somewhere is also put there by one of the
/// first `n + 1`.
proof fn lemma_byte_from_more_blocks(bytes: Seq<u8>, flash_end: u32, n: int, a: int, b: u8)
    requires
        byte_from_blocks(bytes, flash_end, n, a, b),
    ensures
        byte_from_blocks(bytes, flash_end, n + 1, a, b),
{
    let k = choose|k: int|
        0 <= k < n && (#[trigger] accepted_payload(bytes, flash_end, k)) is Some && payload_byte(
            accepted_payload(bytes, flash_end, k).unwrap(),
            a,
            b,
        );
    assert(0 <= k < n + 1 && accepted_payload(bytes, flash_end, k) is Some);
}

/// Each step of the parse keeps every accepted payload in place and adds no other byte.
#[verifier::spinoff_prover]
proof fn lemma_parse_blocks_content(bytes: Seq<u8>, flash_end: u32, n: nat)
    ensures
        parse_blocks(bytes, flash_end, n) matches Ok(segs) ==> segments_hold_blocks(
            bytes,
            flash_end,
            n as int,
            segs,
        ),
    decreases n,
{
    if n > 0 {
        let m = (n - 1) as nat;
        lemma_parse_blocks_content(bytes, flash_end, m);
        if let Ok(prev) = parse_blocks(bytes, flash_end, m) {
            let outcome = block_outcome(uf2_block(bytes, m as int), m, flash_end);
            assert(accepted_payload(bytes, flash_end, m as int) == (match outcome {
                Ok(Some(acc)) => Some(acc),
                _ => None::<SegmentModel>,
            }));
            if let Ok(segs) = parse_blocks(bytes, flash_end, n) {
                match outcome {
                    Err(_) => {},
                    Ok(None) => {
                        assert(segs == prev);
                        assert forall|k: int|
                            0 <= k < n && (#[trigger] accepted_payload(bytes, flash_end, k)) is Some
                                implies payload_placed(
                            segs,
                            accepted_payload(bytes, flash_end, k).unwrap(),
                        ) by {
                            assert(k < m);
                        }
                        assert forall|i: int, j: int|
                            0 <= i < segs.len() && 0 <= j < segs[i].1.len() implies byte_from_blocks(
                            bytes,
                            flash_end,
                            n as int,
                            segs[i].0 + j,
                            #[trigger] segs[i].1[j],
                        ) by {
                            lemma_byte_from_more_blocks(
                                bytes,
                                flash_end,
                                m as int,
                                segs[i].0 + j,
                                segs[i].1[j],
                            );
                        }
                    },
                    Ok(Some(acc)) => {
                        lemma_append_content(bytes, flash_end, m as int, prev, acc, segs);
                    },
                }
            }
        }
    }
}

/// Appending block `m`'s accepted payload `acc` to segments that hold the first `m` blocks
/// gives segments that hold the first `m + 1`.
#[verifier::spinoff_prover]
proof fn lemma_append_content(
    bytes: Seq<u8>,
    flash_end: u32,
    m: int,
    prev: Seq<SegmentModel>,
    acc: SegmentModel,
    segs: Seq<SegmentModel>,
)
    requires
        0 <= m,
        segments_hold_blocks(bytes, flash_end, m, prev),
        accepted_payload(bytes, flash_end, m) == Some(acc),
        append_spec(prev, acc.0, acc.1) == Ok::<Seq<SegmentModel>, Uf2Error>(segs),
    ensures
        segments_hold_blocks(bytes, flash_end, m + 1, segs),
{
    let n = m + 1;
    if prev.len() > 0 && acc.0 == seg_end(prev.last()) {
        let l = prev.len() - 1;
        let last = prev[l];
        assert(segs == prev.update(l, (last.0, last.1 + acc.1)));
        assert forall|k: int|
            0 <= k < n && (#[trigger] accepted_payload(bytes, flash_end, k)) is Some implies payload_placed(
            segs,
            accepted_payload(bytes, flash_end, k).unwrap(),
        ) by {
            let a = accepted_payload(bytes, flash_end, k).unwrap();
            if k == m {
                assert((last.1 + acc.1).subrange(last.1.len() as int, (last.1.len() + acc.1.len()) as int)
                    =~= acc.1);
                assert(segment_holds(segs[l], a));
            } else {
                let i = choose|i: int| 0 <= i < prev.len() && segment_holds(#[trigger] prev[i], a);
                if i == l {
                    let lo = a.0 - last.0;
                    assert((last.1 + acc.1).subrange(lo, lo + a.1.len()) =~= last.1.subrange(
                        lo,
                        lo + a.1.len(),
                    ));
                    assert(segment_holds(segs[l], a));
                } else {
                    assert(segs[i] == prev[i]);
                    assert(segment_holds(segs[i], a));
                }
            }
        }
        assert forall|i: int, j: int|
            0 <= i < segs.len() && 0 <= j < segs[i].1.len() implies byte_from_blocks(
            bytes,
            flash_end,
            n,
            segs[i].0 + j,
            #[trigger] segs[i].1[j],
        ) by {
            if i == l && j >= last.1.len() {
                assert(segs[i].1[j] == acc.1[j - last.1.len()]);
                assert(payload_byte(acc, segs[i].0 + j, segs[i].1[j]));
                assert(accepted_payload(bytes, flash_end, m) is Some);
            } else if i == l {
                assert(segs[i].1[j] == last.1[j]);
                assert(byte_from_blocks(bytes, flash_end, m, prev[i].0 + j, prev[i].1[j]));
                lemma_byte_from_more_blocks(bytes, flash_end, m, prev[i].0 + j, prev[i].1[j]);
            } else {
                assert(segs[i] == prev[i]);
                assert(byte_from_blocks(bytes, flash_end, m, prev[i].0 + j, prev[i].1[j]));
                lemma_byte_from_more_blocks(bytes, flash_end, m, prev[i].0 + j, prev[i].1[j]);
            }
        }
    } else {
        assert(segs == prev.push(acc));
        assert forall|k: int|
            0 <= k < n && (#[trigger] accepted_payload(bytes, flash_end, k)) is Some implies payload_placed(
            segs,
            accepted_payload(bytes, flash_end, k).unwrap(),
        ) by {
            let a = accepted_payload(bytes, flash_end, k).unwrap();
            if k == m {
                assert(acc.1.subrange(0, acc.1.len() as int) =~= acc.1);
                assert(segment_holds(segs[prev.len() as int], a));
            } else {
                let i = choose|i: int| 0 <= i < prev.len() && segment_holds(#[trigger] prev[i], a);
                assert(segs[i] == prev[i]);
                assert(segment_holds(segs[i], a));
            }
        }
        assert forall|i: int, j: int|
            0 <= i < segs.len() && 0 <= j < segs[i].1.len() implies byte_from_blocks(
            bytes,
            flash_end,
            n,
            segs[i].0 + j,
            #[trigger] segs[i].1[j],
        ) by {
            if i == prev.len() {
                assert(payload_byte(acc, segs[i].0 + j, segs[i].1[j]));
                assert(accepted_payload(bytes, flash_end, m) is Some);
            } else {
                assert(segs[i] == prev[i]);
                assert(byte_from_blocks(bytes, flash_end, m, prev[i].0 + j, prev[i].1[j]));
                lemma_byte_from_more_blocks(bytes, flash_end, m, prev[i].0 + j, prev[i].1[j]);
            }
        }
    }
}

/// What a successful parse holds: every payload that the parser accepts sits in some segment
/// at its target address, and every byte of every segment is put at its address by the
/// payload of some accepted block (the segments hold nothing else).
pub proof fn lemma_parse_content(bytes: Seq<u8>, flash_end: u32)
    ensures
        spec_parse(bytes, flash_end) matches Ok(segs) ==> segments_hold_blocks(
            bytes,
            flash_end,
            (bytes.len() / 512) as int,
            segs,
        ),
{
    lemma_parse_blocks_content(bytes, flash_end, bytes.len() / 512);
}

/// Whether block `b` is a main-flash block tagged with the RP2040 family id.
pub open spec fn is_rp2040_main_block(b: Seq<u8>) -> bool {
    &&& block_flags(b) & UF2_FLAG_NOT_MAIN_FLASH == 0
    &&& block_family(b) == RP2040_FAMILY_ID
}

/// The errors that blocks give are never `Empty`, `Truncated` or `NoFlashData`: those
/// concern the file as a whole.
proof fn lemma_parse_blocks_error_kinds(bytes: Seq<u8>, flash_end: u32, n: nat)
    ensures
        parse_blocks(bytes, flash_end, n) matches Err(e) ==> !(e is Empty) && !(e is Truncated)
            && !(e is NoFlashData),
    decreases n,
{
    reveal(block_outcome);
    if n > 0 {
        lemma_parse_blocks_error_kinds(bytes, flash_end, (n - 1) as nat);
    }
}

/// Once the blocks seen so far give at least one segment, later blocks give an error or at
/// least one segment.
proof fn lemma_parse_blocks_keep_segment(bytes: Seq<u8>, flash_end: u32, k: nat, n: nat)
    requires
        k <= n,
        parse_blocks(bytes, flash_end, k) matches Ok(segs) && segs.len() > 0,
    ensures
        parse_blocks(bytes, flash_end, n) matches Ok(segs) ==> segs.len() > 0,
    decreases n,
{
    if n > k {
        lemma_parse_blocks_keep_segment(bytes, flash_end, k, (n - 1) as nat);
    }
}

/// Blocks that are all skipped give no segment and no error.
proof fn lemma_parse_blocks_all_skipped(bytes: Seq<u8>, flash_end: u32, n: nat)
    requires
        forall|k: int|
            0 <= k < n ==> (#[trigger] block_outcome(uf2_block(bytes, k), k as nat, flash_end))
                == Ok::<Option<SegmentModel>, Uf2Error>(None),
    ensures
        parse_blocks(bytes, flash_end, n) == Ok::<Seq<SegmentModel>, Uf2Error>(Seq::empty()),
    decreases n,
{
    if n > 0 {
        let m = (n - 1) as nat;
        assert(block_outcome(uf2_block(bytes, m as int), m, flash_end) == Ok::<
            Option<SegmentModel>,
            Uf2Error,
        >(None));
        lemma_parse_blocks_all_skipped(bytes, flash_end, m);
    }
}

/// The whole-file errors: parsing gives `Empty` exactly for an empty file and `Truncated`
/// exactly for a file that is not a whole number of blocks. For a file of whole blocks whose
/// magics are all valid and whose main-flash blocks all carry the family-id flag, it gives
/// `NoFlashData` exactly when no block is a main-flash block tagged RP2040.
pub proof fn lemma_parse_file_errors(bytes: Seq<u8>, flash_end: u32)
    ensures
        spec_parse(bytes, flash_end) == Err::<Seq<SegmentModel>, Uf2Error>(Uf2Error::Empty) <==> bytes.len() == 0,
        spec_parse(bytes, flash_end) == Err::<Seq<SegmentModel>, Uf2Error>(
            Uf2Error::Truncated { len: bytes.len() as usize },
        ) <==> bytes.len() % 512 != 0,
        ({
            let n = bytes.len() / 512;
            (bytes.len() >= 512 && bytes.len() % 512 == 0 && (forall|k: int|
                0 <= k < n ==> block_magic_ok(#[trigger] uf2_block(bytes, k))) && (forall|k: int|
                0 <= k < n && block_flags(#[trigger] uf2_block(bytes, k)) & UF2_FLAG_NOT_MAIN_FLASH
                    == 0 ==> block_flags(uf2_block(bytes, k)) & UF2_FLAG_FAMILY_ID_PRESENT != 0))
                ==> (spec_parse(bytes, flash_end) == Err::<Seq<SegmentModel>, Uf2Error>(
                Uf2Error::NoFlashData,
            ) <==> forall|k: int| 0 <= k < n ==> !is_rp2040_main_block(#[trigger] uf2_block(bytes, k)))
        }),
{
    let n = bytes.len() / 512;
    lemma_parse_blocks_error_kinds(bytes, flash_end, n);
    if bytes.len() >= 512 && bytes.len() % 512 == 0 && (forall|k: int|
        0 <= k < n ==> block_magic_ok(#[trigger] uf2_block(bytes, k))) && (forall|k: int|
        0 <= k < n && block_flags(#[trigger] uf2_block(bytes, k)) & UF2_FLAG_NOT_MAIN_FLASH == 0
            ==> block_flags(uf2_block(bytes, k)) & UF2_FLAG_FAMILY_ID_PRESENT != 0) {
        if forall|k: int| 0 <= k < n ==> !is_rp2040_main_block(#[trigger] uf2_block(bytes, k)) {
            assert forall|k: int| 0 <= k < n implies (#[trigger] block_outcome(
                uf2_block(bytes, k),
                k as nat,
                flash_end,
            )) == Ok::<Option<SegmentModel>, Uf2Error>(None) by {
                reveal(block_outcome);
                assert(block_magic_ok(uf2_block(bytes, k)));
                assert(!is_rp2040_main_block(uf2_block(bytes, k)));
            }
            lemma_parse_blocks_all_skipped(bytes, flash_end, n);
        } else {
            let k = choose|k: int| 0 <= k < n && is_rp2040_main_block(#[trigger] uf2_block(bytes, k));
            let b = uf2_block(bytes, k);
            assert(block_magic_ok(b));
            assert(block_flags(b) & UF2_FLAG_FAMILY_ID_PRESENT != 0);
            let k1 = (k + 1) as nat;
            assert(k1 <= n) by (nonlinear_arith)
                requires
                    k < n,
                    k1 == k + 1,
            ;
            if let Ok(prev) = parse_blocks(bytes, flash_end, k as nat) {
                reveal(block_outcome);
                assert(block_outcome(b, k as nat, flash_end) is Err || block_outcome(
                    b,
                    k as nat,
                    flash_end,
                ) is Ok && block_outcome(b, k as nat, flash_end)->Ok_0 is Some);
                if let Ok(segs) = parse_blocks(bytes, flash_end, k1) {
                    assert(segs.len() > 0);
                    lemma_parse_blocks_keep_segment(bytes, flash_end, k1, n);
                } else {
                    lemma_parse_blocks_error_sticks(bytes, flash_end, k1, n);
                }
            } else {
                lemma_parse_blocks_error_sticks(bytes, flash_end, k as nat, n);
            }
        }
    }
}

/// The blocks of a file decide the same way when more bytes follow them.
proof fn lemma_parse_blocks_prefix(a: Seq<u8>, c: Seq<u8>, flash_end: u32, n: nat)
    requires
        n * 512 <= a.len(),
    ensures
        parse_blocks(a + c, flash_end, n) == parse_blocks(a, flash_end, n),
    decreases n,
{
    if n > 0 {
        lemma_parse_blocks_prefix(a, c, flash_end, (n - 1) as nat);
        assert(uf2_block(a + c, n - 1) =~= uf2_block(a, n - 1));
    }
}

/// Skipped blocks are ignored: appending to a non-empty file of whole blocks one more block
/// that the parser skips — one flagged not-main-flash, or one tagged with a family id other
/// than RP2040 — leaves the parse result unchanged.
pub proof fn lemma_skipped_block_is_ignored(bytes: Seq<u8>, extra: Seq<u8>, flash_end: u32)
    requires
        bytes.len() > 0,
        bytes.len() % 512 == 0,
        extra.len() == 512,
        block_magic_ok(extra),
        block_flags(extra) & UF2_FLAG_NOT_MAIN_FLASH != 0 || (block_flags(extra)
            & UF2_FLAG_FAMILY_ID_PRESENT != 0 && block_family(extra) != RP2040_FAMILY_ID),
    ensures
        spec_parse(bytes + extra, flash_end) == spec_parse(bytes, flash_end),
{
    reveal(block_outcome);
    let n = bytes.len() / 512;
    let all = bytes + extra;
    assert(all.len() / 512 == n + 1);
    assert(n * 512 == bytes.len());
    lemma_parse_blocks_prefix(bytes, extra, flash_end, n);
    assert(uf2_block(all, n as int) =~= extra);
}

/// A main-flash block without the family-id flag is refused, whatever its file-size field
/// holds: a block with valid magics whose flags have neither the not-main-flash bit nor the
/// family-id bit set gives `MissingFamilyId` with its own index.
pub proof fn lemma_untagged_main_block_refused(b: Seq<u8>, index: nat, flash_end: u32)
    requires
        block_magic_ok(b),
        le_u32(b, 8) & UF2_FLAG_NOT_MAIN_FLASH == 0,
        le_u32(b, 8) & UF2_FLAG_FAMILY_ID_PRESENT == 0,
    ensures
        block_outcome(b, index, flash_end) == Err::<Option<SegmentModel>, Uf2Error>(
            Uf2Error::MissingFamilyId { block: index as usize },
        ),
{
    reveal(block_outcome);
}

/// A file is refused at its first untagged main-flash block: when the blocks before block `k`
/// parse without a block error on their own (they give segments, or nothing to flash, or
/// there are none), and block `k` has valid magics and flags with neither the not-main-flash
/// bit nor the family-id bit, parsing the whole file gives `MissingFamilyId { block: k }`,
/// whatever follows and whatever block `k`'s file-size field holds.
pub proof fn lemma_parse_refuses_untagged_main_block(bytes: Seq<u8>, flash_end: u32, k: int)
    requires
        bytes.len() % 512 == 0,
        0 <= k,
        (k + 1) * 512 <= bytes.len(),
        k == 0 || spec_parse(bytes.subrange(0, k * 512), flash_end) is Ok || spec_parse(
            bytes.subrange(0, k * 512),
            flash_end,
        ) == Err::<Seq<SegmentModel>, Uf2Error>(Uf2Error::NoFlashData),
        block_magic_ok(bytes.subrange(k * 512, k * 512 + 512)),
        le_u32(bytes, k * 512 + 8) & UF2_FLAG_NOT_MAIN_FLASH == 0,
        le_u32(bytes, k * 512 + 8) & UF2_FLAG_FAMILY_ID_PRESENT == 0,
    ensures
        spec_parse(bytes, flash_end) == Err::<Seq<SegmentModel>, Uf2Error>(
            Uf2Error::MissingFamilyId { block: k as usize },
        ),
{
    let n = bytes.len() / 512;
    let kn = k as nat;
    let pre = bytes.subrange(0, k * 512);
    let rest = bytes.subrange(k * 512, bytes.len() as int);
    assert(pre + rest =~= bytes);
    assert(pre.len() == k * 512);
    lemma_parse_blocks_prefix(pre, rest, flash_end, kn);
    if k > 0 {
        assert(pre.len() > 0 && pre.len() % 512 == 0 && pre.len() / 512 == k) by (nonlinear_arith)
            requires
                pre.len() == k * 512,
                k > 0,
        ;
        lemma_parse_blocks_error_kinds(pre, flash_end, kn);
    }
    assert(parse_blocks(bytes, flash_end, kn) is Ok);
    let b = uf2_block(bytes, k);
    assert(b =~= bytes.subrange(k * 512, k * 512 + 512));
    lemma_block_word(bytes, k, 8);
    lemma_untagged_main_block_refused(b, kn, flash_end);
    let k1 = (k + 1) as nat;
    assert(parse_blocks(bytes, flash_end, k1) == Err::<Seq<SegmentModel>, Uf2Error>(
        Uf2Error::MissingFamilyId { block: k as usize },
    ));
    assert(k1 <= n) by (nonlinear_arith)
        requires
            (k + 1) * 512 <= bytes.len(),
            n == bytes.len() / 512,
            k1 == k + 1,
    ;
    lemma_parse_blocks_error_sticks(bytes, flash_end, k1, n);
    assert(bytes.len() > 0);
}

// ---------------------------------------------------------------------------------------
// Executable parsing.
// ---------------------------------------------------------------------------------------

/// Read a little-endian `u32` from `bytes` at byte offset `off`.
fn rd_u32(bytes: &[u8], off: usize) -> (w: u32)
    requires
        off + 4 <= bytes@.len(),
    ensures
        w == le_u32(bytes@, off as int),
        w == (bytes@[off as int] as u32) | (bytes@[off + 1] as u32) << 8 | (bytes@[off + 2] as u32)
            << 16 | (bytes@[off + 3] as u32) << 24,
{
    let b0 = bytes[off];
    let b1 = bytes[off + 1];
    let b2 = bytes[off + 2];
    let b3 = bytes[off + 3];
    assert((b0 as u32) | (b1 as u32) << 8 | (b2 as u32) << 16 | (b3 as u32) << 24 == b0 as u32
        + b1 as u32 * 0x100 + b2 as u32 * 0x1_0000 + b3 as u32 * 0x100_0000) by (bit_vector);
    bytes[off] as u32 + bytes[off + 1] as u32 * 0x100 + bytes[off + 2] as u32 * 0x1_0000
        + bytes[off + 3] as u32 * 0x100_0000
}

/// Append the payload `bytes[start..start + len]`, accepted for flash at `addr`, to the
/// segment list: coalesce it with the last segment when the addresses are contiguous,
/// and refuse it when it starts before the last segment's end.
fn append_block(
    segments: &mut Vec<Segment>,
    addr: u32,
    bytes: &[u8],
    start: usize,
    len: usize,
) -> (res: Result<(), Uf2Error>)
    requires
        start + len <= bytes@.len(),
        old(segments)@.len() > 0 ==> seg_end(old(segments)@.last()@) <= u32::MAX,
    ensures
        match append_spec(segments_view(old(segments)@), addr, bytes@.subrange(start as int, (start + len) as int)) {
            Ok(s2) => res is Ok && segments_view(final(segments)@) == s2,
            Err(e) => res == Err::<(), Uf2Error>(e) && segments_view(final(segments)@)
                == segments_view(old(segments)@),
        },
        // Contiguous with the last segment: that segment is extended by the payload.
        old(segments)@.len() > 0 && addr == seg_end(old(segments)@.last()@) ==> {
            &&& res is Ok
            &&& final(segments)@.len() == old(segments)@.len()
            &&& forall|i: int|
                0 <= i < old(segments)@.len() - 1 ==> (#[trigger] final(segments)@[i])@ == old(
                    segments,
                )@[i]@
            &&& final(segments)@.last().addr == old(segments)@.last().addr
            &&& final(segments)@.last().data@ == old(segments)@.last().data@ + bytes@.subrange(
                start as int,
                (start + len) as int,
            )
        },
        // Starting before the last segment's end: refused, and nothing changes.
        old(segments)@.len() > 0 && addr < seg_end(old(segments)@.last()@) ==> {
            &&& res == Err::<(), Uf2Error>(Uf2Error::Overlap { addr })
            &&& segments_view(final(segments)@) == segments_view(old(segments)@)
        },
        // Past the last segment's end (or no segment yet): a new segment is opened.
        old(segments)@.len() == 0 || addr > seg_end(old(segments)@.last()@) ==> {
            &&& res is Ok
            &&& segments_view(final(segments)@) == segments_view(old(segments)@).push(
                (addr, bytes@.subrange(start as int, (start + len) as int)),
            )
        },
{
    let ghost payload = bytes@.subrange(start as int, (start + len) as int);
    let ghost old_view = segments_view(segments@);
    let blen = bytes.len();
    let n = segments.len();
    if n > 0 {
        let last_end = segments[n - 1].end();
        if addr == last_end {
            let mut last = segments.pop().unwrap();
            let ghost old_data = last.data@;
            let mut k: usize = 0;
            while k < len
                invariant
                    k <= len,
                    start + len <= blen,
                    blen == bytes@.len(),
                    old_view.len() == n,
                    n > 0,
                    last.addr == old_view.last().0,
                    last.data@ == old_data + bytes@.subrange(start as int, (start + k) as int),
                decreases len - k,
            {
                last.data.push(bytes[start + k]);
                proof {
                    assert(bytes@.subrange(start as int, (start + k + 1) as int)
                        == bytes@.subrange(start as int, (start + k) as int).push(bytes@[start + k]));
                }
                k = k + 1;
            }
            segments.push(last);
            proof {
                assert(segments_view(segments@) =~= old_view.update(
                    old_view.len() - 1,
                    (old_view.last().0, old_view.last().1 + payload),
                ));
            }
            return Ok(());
        }
        if addr < last_end {
            return Err(Uf2Error::Overlap { addr });
        }
    }
    let mut data: Vec<u8> = Vec::new();
    let mut k: usize = 0;
    while k < len
        invariant
            k <= len,
            start + len <= blen,
            blen == bytes@.len(),
            data@ == bytes@.subrange(start as int, (start + k) as int),
        decreases len - k,
    {
        data.push(bytes[start + k]);
        proof {
            assert(bytes@.subrange(start as int, (start + k + 1) as int)
                == bytes@.subrange(start as int, (start + k) as int).push(bytes@[start + k]));
        }
        k = k + 1;
    }
    segments.push(Segment { addr, data });
    proof {
        assert(segments_view(segments@) =~= old_view.push((addr, payload)));
    }
    Ok(())
}

/// Examine block `block` (at byte offset `base`) and say what it contributes: skipped
/// (`Ok(None)`), accepted as `size` payload bytes for `addr` (`Ok(Some((addr, size)))`), or
/// an error that refuses the file.
fn classify_block(bytes: &[u8], base: usize, block: usize, flash_end: u32) -> (res: Result<
    Option<(u32, u32)>,
    Uf2Error,
>)
    requires
        base == block * 512,
        base + 512 <= bytes@.len(),
        bytes@.len() <= usize::MAX,
    ensures
        match block_outcome(uf2_block(bytes@, block as int), block as nat, flash_end) {
            Err(e) => res == Err::<Option<(u32, u32)>, Uf2Error>(e),
            Ok(None) => res == Ok::<Option<(u32, u32)>, Uf2Error>(None),
            Ok(Some(acc)) => res matches Ok(Some(p)) && p.0 == acc.0 && p.1 == acc.1.len()
                && p.0 + p.1 <= flash_end && p.1 <= UF2_MAX_PAYLOAD
                && acc.1 == bytes@.subrange(base + 32, base + 32 + p.1),
        },
{
    let ghost b = uf2_block(bytes@, block as int);
    proof {
        reveal(block_outcome);
        lemma_block_word(bytes@, block as int, 0);
        lemma_block_word(bytes@, block as int, 4);
        lemma_block_word(bytes@, block as int, 8);
        lemma_block_word(bytes@, block as int, 12);
        lemma_block_word(bytes@, block as int, 16);
        lemma_block_word(bytes@, block as int, 28);
        lemma_block_word(bytes@, block as int, 508);
    }
    if rd_u32(bytes, base) != UF2_MAGIC_START0 || rd_u32(bytes, base + 4) != UF2_MAGIC_START1
        || rd_u32(bytes, base + UF2_BLOCK_SIZE - 4) != UF2_MAGIC_END {
        return Err(Uf2Error::BadMagic { block });
    }
    let flags = rd_u32(bytes, base + 8);
    if flags & UF2_FLAG_NOT_MAIN_FLASH != 0 {
        return Ok(None);
    }
    // family-id guard: require a family id on every main-flash block, and accept only
    // RP2040; other families belong to a different target in a combined image.
    if flags & UF2_FLAG_FAMILY_ID_PRESENT == 0 {
        return Err(Uf2Error::MissingFamilyId { block });
    }
    if rd_u32(bytes, base + 28) != RP2040_FAMILY_ID {
        return Ok(None);
    }
    let addr = rd_u32(bytes, base + 12);
    let size = rd_u32(bytes, base + 16);
    if size > UF2_MAX_PAYLOAD as u32 {
        return Err(Uf2Error::PayloadTooLarge { block, size });
    }
    // flash-address guard: the whole payload must land inside the flash window.
    let end: u64 = addr as u64 + size as u64;
    if addr < FLASH_START || end > flash_end as u64 {
        return Err(Uf2Error::AddressOutOfRange { block, addr, size, flash_end });
    }
    proof {
        assert(b.subrange(32, 32 + size) =~= bytes@.subrange(base + 32, base + 32 + size));
    }
    Ok(Some((addr, size)))
}

/// Parse a UF2 file into coalesced, address-ordered flash segments.
///
/// `flash_end` is the exclusive upper bound of the flash window every accepted block must
/// fall within; callers pass the runtime-detected flash size, or a conservative bound when
/// detection is unavailable.
///
/// Blocks flagged not-main-flash and blocks tagged with a non-RP2040 family id are
/// skipped. Returns an error if the file is malformed, a block is out of range or
/// untagged, accepted blocks overlap, or nothing flashable remains.
pub fn parse(bytes: &[u8], flash_end: u32) -> (res: Result<Vec<Segment>, Uf2Error>)
    ensures
        parse_result_view(res) == spec_parse(bytes@, flash_end),
        res matches Ok(segs) ==> segs@.len() > 0 && segments_well_placed(
            segments_view(segs@),
            flash_end,
        ),
        res matches Ok(segs) ==> segments_hold_blocks(
            bytes@,
            flash_end,
            (bytes@.len() / 512) as int,
            segments_view(segs@),
        ),
{
    proof {
        lemma_parse_well_placed(bytes@, flash_end);
        lemma_parse_content(bytes@, flash_end);
    }
    if bytes.len() == 0 {
        return Err(Uf2Error::Empty);
    }
    if bytes.len() % UF2_BLOCK_SIZE != 0 {
        return Err(Uf2Error::Truncated { len: bytes.len() });
    }
    let blen: usize = bytes.len();
    let nblocks: usize = blen / UF2_BLOCK_SIZE;
    let mut segments: Vec<Segment> = Vec::new();
    proof {
        assert(segments_view(segments@) =~= Seq::<SegmentModel>::empty());
    }
    let mut block: usize = 0;
    while block < nblocks
        invariant
            blen == bytes@.len(),
            nblocks == bytes@.len() / 512,
            bytes@.len() % 512 == 0,
            block <= nblocks,
            parse_blocks(bytes@, flash_end, block as nat) == Ok::<Seq<SegmentModel>, Uf2Error>(
                segments_view(segments@),
            ),
        decreases nblocks - block,
    {
        proof {
            assert((block + 1) * 512 <= bytes@.len()) by (nonlinear_arith)
                requires
                    block < nblocks,
                    nblocks == bytes@.len() / 512,
            ;
            lemma_parse_blocks_placement(bytes@, flash_end, block as nat);
            assert forall|i: int| 0 <= i < segments@.len() implies seg_end(
                #[trigger] segments@[i]@,
            ) <= u32::MAX by {
                assert(segments_view(segments@)[i] == segments@[i]@);
            }
        }
        let base: usize = block * UF2_BLOCK_SIZE;
        let outcome = classify_block(bytes, base, block, flash_end);
        match outcome {
            Err(e) => {
                proof {
                    lemma_parse_blocks_error_sticks(
                        bytes@,
                        flash_end,
                        (block + 1) as nat,
                        nblocks as nat,
                    );
                }
                return Err(e);
            },
            Ok(None) => {},
            Ok(Some((addr, size))) => {
                let appended = append_block(&mut segments, addr, bytes, base + 32, size as usize);
                if let Err(e) = appended {
                    proof {
                        lemma_parse_blocks_error_sticks(
                            bytes@,
                            flash_end,
                            (block + 1) as nat,
                            nblocks as nat,
                        );
                    }
                    return Err(e);
                }
            },
        }
        block = block + 1;
    }
    if segments.len() == 0 {
        return Err(Uf2Error::NoFlashData);
    }
    Ok(segments)
}

} // verus!
