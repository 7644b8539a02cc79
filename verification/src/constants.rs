//! RP2040 device-identifying constants and flash geometry.
//!
//! Every value that identifies the target (USB VID/PID, UF2 family id, flash geometry) and
//! every protocol magic lives here, so a second target is a matter of extending this module.

use vstd::prelude::*;

verus! {

// ---- USB identity (BOOTSEL device) ----

/// USB vendor id of the RP2040 in BOOTSEL (USB bootloader) mode.
pub const VENDOR_ID: u16 = 0x2E8A;

/// USB product id of the RP2040 PICOBOOT interface.
pub const PRODUCT_ID: u16 = 0x0003;

/// USB interface class of the PICOBOOT vendor interface (the mass-storage one is `0x08`).
pub const PICOBOOT_INTERFACE_CLASS: u8 = 0xFF;

// ---- UF2 container ----

/// UF2 block magic (`MAGIC_START0`), first word of every 512-byte block.
pub const UF2_MAGIC_START0: u32 = 0x0A32_4655;

/// UF2 block magic (`MAGIC_START1`), second word of every 512-byte block.
pub const UF2_MAGIC_START1: u32 = 0x9E5D_5157;

/// UF2 block magic (`MAGIC_END`), final word of every 512-byte block.
pub const UF2_MAGIC_END: u32 = 0x0AB1_6F30;

/// Total size of a UF2 block in bytes.
pub const UF2_BLOCK_SIZE: usize = 512;

/// Maximum payload bytes carried by a single UF2 block.
pub const UF2_MAX_PAYLOAD: usize = 476;

/// UF2 flag: the `file_size` field instead carries a family id.
pub const UF2_FLAG_FAMILY_ID_PRESENT: u32 = 0x0000_2000;

/// UF2 flag: this block is not destined for the main flash and must be skipped.
pub const UF2_FLAG_NOT_MAIN_FLASH: u32 = 0x0000_0001;

/// UF2 family id identifying an RP2040 image.
pub const RP2040_FAMILY_ID: u32 = 0xE48B_FF56;

// ---- Flash geometry (XIP-mapped external QSPI) ----

/// Base address of the flash XIP window.
pub const FLASH_START: u32 = 0x1000_0000;

/// Conservative upper bound of the flash XIP window (16 MiB): the hardware-addressable
/// maximum, used as a guard rail when the real flash size is not known.
pub const FLASH_END: u32 = FLASH_START + 16 * 1024 * 1024;

/// Flash erase sector size; erase address and length must be multiples of this.
pub const FLASH_SECTOR_SIZE: u32 = 4096;

/// Flash program page size.
pub const FLASH_PAGE_SIZE: u32 = 256;

/// Top of SRAM (stack pointer used for a normal reboot-to-application).
pub const SRAM_END: u32 = 0x2004_2000;

// ---- PICOBOOT protocol ----

/// Magic word at the head of every 32-byte PICOBOOT command.
pub const PICOBOOT_MAGIC: u32 = 0x431F_D10B;

/// Vendor control request (host-to-interface) that resets the PICOBOOT interface,
/// clearing any half-finished command and stalled endpoint state.
pub const PICOBOOT_IF_RESET: u8 = 0x41;

// ---- Flash-size detection (PICOBOOT EXEC stub) ----

/// SRAM address the flash-id stub is written to and executed from (main-SRAM base).
pub const STUB_ADDR: u32 = 0x2000_0000;

/// SRAM address the stub writes the three JEDEC id bytes to (manufacturer, type, capacity),
/// placed past the stub body so code and result never overlap.
pub const RESULT_ADDR: u32 = 0x2000_0080;

/// Thumb (ARMv6-M) machine code that reads the flash JEDEC ID (RDID, `0x9F`) over XIP_SSI
/// and stores the three id bytes at [`RESULT_ADDR`]. It takes no arguments and returns
/// nothing, communicating only through RAM.
pub const FLASH_ID_STUB: [u8; 62] = [
    0x10, 0xb5, 0x18, 0x20, 0x00, 0x06, 0x00, 0x21, 0x81, 0x60, 0x07, 0x22,
    0x12, 0x04, 0x02, 0x60, 0x41, 0x60, 0x01, 0x22, 0x82, 0x60, 0x02, 0x61,
    0x9f, 0x22, 0x02, 0x66, 0x01, 0x66, 0x01, 0x66, 0x01, 0x66, 0x42, 0x6a,
    0x04, 0x2a, 0xfc, 0xd3, 0x20, 0x24, 0x24, 0x06, 0x80, 0x34, 0x02, 0x6e,
    0x02, 0x6e, 0x22, 0x70, 0x02, 0x6e, 0x62, 0x70, 0x02, 0x6e, 0xa2, 0x70,
    0x10, 0xbd,
];

/// Smallest flash size accepted from runtime detection (64 KiB); a JEDEC capacity decoding
/// to less is treated as a bogus read.
pub const MIN_DETECTED_FLASH_SIZE: u32 = 64 * 1024;

/// Largest flash size accepted from runtime detection: the XIP-addressable maximum.
pub const MAX_DETECTED_FLASH_SIZE: u32 = FLASH_END - FLASH_START;

/// The stub's result bytes lie past the stub's code, so code and result never overlap; and
/// the detection bounds form a non-empty range ending at the XIP window's size.
pub proof fn lemma_layout_is_consistent()
    ensures
        RESULT_ADDR >= STUB_ADDR + FLASH_ID_STUB@.len(),
        MIN_DETECTED_FLASH_SIZE < MAX_DETECTED_FLASH_SIZE,
        MAX_DETECTED_FLASH_SIZE == FLASH_END - FLASH_START,
{
}

} // verus!
