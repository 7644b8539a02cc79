//! Runtime flash-size detection.
//!
//! RP2040 PICOBOOT has no flash-size query, so the size is recovered by running a small stub
//! on the device that reads the flash JEDEC id: [`detection_commands`] lists the PICOBOOT
//! commands that place the stub in SRAM, run it and read the id back, and
//! [`detected_flash_end`] turns what came back (or a failure to get it) into the upper bound
//! of the flash window that UF2 parsing enforces. Detection is best-effort: whatever goes
//! wrong, the bound falls back to the conservative [`FLASH_END`], never below what a real
//! flash part can hold and never above the XIP window.
//!
//! A JEDEC RDID response is three bytes — manufacturer, memory type, capacity. For the SPI
//! NOR parts RP2040 boards use, the capacity byte `N` encodes a size of `1 << N` bytes (for
//! example Winbond W25Q16 reports `0x15`, that is 2 MiB).

use vstd::prelude::*;
use vstd::arithmetic::power2::pow2;

use crate::constants::{
    FLASH_END, FLASH_ID_STUB, FLASH_START, MAX_DETECTED_FLASH_SIZE, MIN_DETECTED_FLASH_SIZE,
    RESULT_ADDR, STUB_ADDR,
};
use crate::picoboot::{Command, Exclusivity};
use crate::uf2::{lemma_parse_well_placed, seg_end, spec_parse};

verus! {

/// The flash size that a JEDEC capacity byte announces, `2^capacity` bytes.
pub open spec fn jedec_capacity_size(capacity: u8) -> nat {
    pow2(capacity as nat)
}

/// Whether a JEDEC capacity byte announces a size that detection accepts: it must be
/// representable as a `u32` shift and lie in `[MIN_DETECTED_FLASH_SIZE, MAX_DETECTED_FLASH_SIZE]`.
pub open spec fn jedec_capacity_accepted(capacity: u8) -> bool {
    &&& capacity < 32
    &&& MIN_DETECTED_FLASH_SIZE <= jedec_capacity_size(capacity)
    &&& jedec_capacity_size(capacity) <= MAX_DETECTED_FLASH_SIZE
}

/// Decode a JEDEC RDID response `[manufacturer, memory_type, capacity]` into a flash size
/// in bytes: `1 << capacity`, or `None` when that size is outside the accepted range (for
/// instance the all-`0x00` or all-`0xFF` response of absent or malfunctioning flash).
pub fn flash_size_from_jedec(id: [u8; 3]) -> (size: Option<u32>)
    ensures
        size is Some <==> jedec_capacity_accepted(id@[2]),
        size matches Some(s) ==> s as nat == jedec_capacity_size(id@[2]),
{
    let capacity: u8 = id[2];
    if capacity >= 32 {
        return None;
    }
    let shift: u32 = capacity as u32;
    let size: u32 = 1u32 << shift;
    proof {
        vstd::bits::lemma_u32_pow2_no_overflow(shift as nat);
        vstd::bits::lemma_u32_shl_is_mul(1u32, shift);
    }
    if MIN_DETECTED_FLASH_SIZE <= size && size <= MAX_DETECTED_FLASH_SIZE {
        Some(size)
    } else {
        None
    }
}

/// Number of bytes in a JEDEC RDID response: manufacturer, memory type, capacity.
pub const JEDEC_ID_LEN: u32 = 3;

/// The commands that read the flash JEDEC id, in order: take exclusive access, leave XIP
/// (which readies the flash interface for plain SPI), write the stub to SRAM, run it, and
/// read back the id bytes it stored. The write's data phase carries [`FLASH_ID_STUB`].
pub open spec fn detection_commands_spec() -> Seq<Command> {
    seq![
        Command::ExclusiveAccess(Exclusivity::Exclusive),
        Command::ExitXip,
        Command::Write { addr: STUB_ADDR, size: FLASH_ID_STUB@.len() as u32 },
        Command::Exec { addr: STUB_ADDR },
        Command::Read { addr: RESULT_ADDR, size: JEDEC_ID_LEN },
    ]
}

/// The commands that read the flash JEDEC id, in the order they are sent (see
/// [`detection_commands_spec`]).
pub fn detection_commands() -> (cmds: Vec<Command>)
    ensures
        cmds@ == detection_commands_spec(),
{
    let stub_len: usize = FLASH_ID_STUB.len();
    assert(stub_len == 62);
    let mut cmds: Vec<Command> = Vec::new();
    cmds.push(Command::ExclusiveAccess(Exclusivity::Exclusive));
    cmds.push(Command::ExitXip);
    cmds.push(Command::Write { addr: STUB_ADDR, size: stub_len as u32 });
    cmds.push(Command::Exec { addr: STUB_ADDR });
    cmds.push(Command::Read { addr: RESULT_ADDR, size: JEDEC_ID_LEN });
    assert(cmds@ =~= detection_commands_spec());
    cmds
}

/// The upper bound of the flash window, given the id bytes that detection read back, or
/// `None` when detection failed: `FLASH_START` plus the decoded size when the response is
/// three bytes whose capacity is accepted, and the conservative `FLASH_END` otherwise.
pub open spec fn detected_flash_end_spec(id: Option<Seq<u8>>) -> int {
    match id {
        Some(b) => if b.len() == 3 && jedec_capacity_accepted(b[2]) {
            FLASH_START + jedec_capacity_size(b[2])
        } else {
            FLASH_END as int
        },
        None => FLASH_END as int,
    }
}

/// The upper bound of the flash window for UF2 parsing, from the id bytes that detection
/// read back (`None` when any detection command failed). A missing, short, long or
/// implausible response falls back to `FLASH_END`, so the bound always lies between
/// `FLASH_START + MIN_DETECTED_FLASH_SIZE` and `FLASH_END`.
pub fn detected_flash_end(id: Option<&[u8]>) -> (end: u32)
    ensures
        end == detected_flash_end_spec(
            match id {
                Some(b) => Some(b@),
                None => None,
            },
        ),
        FLASH_START + MIN_DETECTED_FLASH_SIZE <= end <= FLASH_END,
{
    match id {
        Some(b) => {
            if b.len() != 3 {
                return FLASH_END;
            }
            match flash_size_from_jedec([b[0], b[1], b[2]]) {
                Some(size) => FLASH_START + size,
                None => FLASH_END,
            }
        },
        None => FLASH_END,
    }
}

/// Detection leaves flash alone: none of its commands erases, reboots or re-enters XIP,
/// its one write targets SRAM at the stub's address, past the flash window, and the id it
/// reads back lies past the stub's code.
pub proof fn lemma_detection_leaves_flash_alone()
    ensures
        forall|i: int|
            0 <= i < detection_commands_spec().len() ==> !((#[trigger] detection_commands_spec()[
                i]) is FlashErase) && !(detection_commands_spec()[i] is Reboot)
                && !(detection_commands_spec()[i] is EnterCmdXip),
        forall|i: int|
            0 <= i < detection_commands_spec().len() && (#[trigger] detection_commands_spec()[
                i]) is Write ==> detection_commands_spec()[i]->Write_addr == STUB_ADDR && FLASH_END
                <= detection_commands_spec()[i]->Write_addr
                && detection_commands_spec()[i]->Write_size == FLASH_ID_STUB@.len(),
        RESULT_ADDR >= STUB_ADDR + FLASH_ID_STUB@.len(),
{
}

/// The address guard is always on: whatever detection reported, the bound it gives lies
/// between `FLASH_START + MIN_DETECTED_FLASH_SIZE` and `FLASH_END`, and parsing a UF2 file
/// with that bound accepts only segments inside the flash window `[FLASH_START, FLASH_END)`.
pub proof fn lemma_detected_guard_always_on(bytes: Seq<u8>, id: Option<Seq<u8>>)
    ensures
        FLASH_START + MIN_DETECTED_FLASH_SIZE <= detected_flash_end_spec(id) <= FLASH_END,
        spec_parse(bytes, detected_flash_end_spec(id) as u32) matches Ok(segs) ==> forall|i: int|
            0 <= i < segs.len() ==> FLASH_START <= (#[trigger] segs[i]).0 && seg_end(segs[i])
                <= FLASH_END,
{
    let end = detected_flash_end_spec(id);
    assert(FLASH_START + MIN_DETECTED_FLASH_SIZE <= end <= FLASH_END);
    lemma_parse_well_placed(bytes, end as u32);
}

} // verus!
