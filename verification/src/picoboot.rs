//! PICOBOOT command encoding.
//!
//! Every PICOBOOT command is a fixed 32-byte packet sent on the bulk OUT endpoint:
//!
//! ```text
//! offset size field
//! 0      4    magic            0x431FD10B
//! 4      4    token            host-chosen, echoed back in the status response
//! 8      1    cmd_id           command id; bit 7 set means the data phase is IN
//! 9      1    cmd_size         number of bytes used in args (0..=16)
//! 10     2    reserved         zero
//! 12     4    transfer_length  bytes in the data phase
//! 16     16   args             command-specific
//! ```
//!
//! This module is pure: it turns a [`Command`] into the 32 wire bytes and reports the
//! command's [`DataPhase`]. The bulk framing around it (sending the packet, the data
//! transfer, and the zero-length acknowledgement) belongs to the USB transport.

use vstd::prelude::*;

use crate::constants::PICOBOOT_MAGIC;
use crate::uf2::le_u32;

verus! {

// PICOBOOT command ids. Bit 7 set marks a device-to-host (IN) data phase.
/// Command id of EXCLUSIVE_ACCESS.
pub const CMD_EXCLUSIVE_ACCESS: u8 = 0x01;

/// Command id of REBOOT.
pub const CMD_REBOOT: u8 = 0x02;

/// Command id of FLASH_ERASE.
pub const CMD_FLASH_ERASE: u8 = 0x03;

/// Command id of READ (IN direction).
pub const CMD_READ: u8 = 0x84;

/// Command id of WRITE.
pub const CMD_WRITE: u8 = 0x05;

/// Command id of EXIT_XIP.
pub const CMD_EXIT_XIP: u8 = 0x06;

/// Command id of ENTER_CMD_XIP.
pub const CMD_ENTER_CMD_XIP: u8 = 0x07;

/// Command id of EXEC.
pub const CMD_EXEC: u8 = 0x08;

/// Exclusivity level for [`Command::ExclusiveAccess`]; its wire code is its position
/// (0, 1, 2).
#[derive(Debug, Clone, Copy, PartialEq, Eq, Structural)]
pub enum Exclusivity {
    /// Share access with the mass-storage interface.
    NotExclusive,
    /// Take exclusive access, locking out mass storage.
    Exclusive,
    /// Take exclusive access and eject the mass-storage volume.
    ExclusiveAndEject,
}

/// The data transfer that follows a command packet, if any.
#[derive(Debug, Clone, Copy, PartialEq, Eq, Structural)]
pub enum DataPhase {
    /// No data phase; the command is acknowledged directly.
    NoData,
    /// `len` bytes flow host-to-device on the bulk OUT endpoint.
    HostToDevice(u32),
    /// `len` bytes flow device-to-host on the bulk IN endpoint.
    DeviceToHost(u32),
}

/// A PICOBOOT command, covering the subset that loading and flash-size detection need.
#[derive(Debug, Clone, Copy, PartialEq, Eq, Structural)]
pub enum Command {
    /// Claim (or release) access to the device relative to mass storage.
    ExclusiveAccess(Exclusivity),
    /// Leave XIP mode so flash can be erased and written.
    ExitXip,
    /// Re-enter command-based XIP so flash can be read back.
    EnterCmdXip,
    /// Erase a flash region; `addr` and `size` must be sector-aligned.
    FlashErase {
        /// Flash start address.
        addr: u32,
        /// Number of bytes to erase.
        size: u32,
    },
    /// Write `size` bytes (carried in the following data phase) to memory at `addr`.
    Write {
        /// Destination address.
        addr: u32,
        /// Number of bytes in the data phase.
        size: u32,
    },
    /// Read `size` bytes from memory at `addr` (returned in the following data phase).
    Read {
        /// Source address.
        addr: u32,
        /// Number of bytes to read.
        size: u32,
    },
    /// Call the function previously written to RAM at `addr` (it takes no arguments and
    /// returns nothing).
    Exec {
        /// Address of the function's first instruction.
        addr: u32,
    },
    /// Reboot the device. `pc == 0` requests a normal reboot to the flashed application.
    Reboot {
        /// Entry point, or 0 for a normal reboot.
        pc: u32,
        /// Initial stack pointer.
        sp: u32,
        /// Delay before rebooting, in milliseconds.
        delay_ms: u32,
    },
}

// ---------------------------------------------------------------------------------------
// The wire format, as spec functions.
// ---------------------------------------------------------------------------------------

/// The wire code of an exclusivity level.
pub open spec fn exclusivity_code(level: Exclusivity) -> u8 {
    match level {
        Exclusivity::NotExclusive => 0,
        Exclusivity::Exclusive => 1,
        Exclusivity::ExclusiveAndEject => 2,
    }
}

/// The command id byte (bit 7 set for IN-direction commands).
pub open spec fn spec_cmd_id(c: Command) -> u8 {
    match c {
        Command::ExclusiveAccess(_) => CMD_EXCLUSIVE_ACCESS,
        Command::ExitXip => CMD_EXIT_XIP,
        Command::EnterCmdXip => CMD_ENTER_CMD_XIP,
        Command::FlashErase { .. } => CMD_FLASH_ERASE,
        Command::Write { .. } => CMD_WRITE,
        Command::Read { .. } => CMD_READ,
        Command::Exec { .. } => CMD_EXEC,
        Command::Reboot { .. } => CMD_REBOOT,
    }
}

/// Number of bytes used in the args field.
pub open spec fn spec_cmd_size(c: Command) -> u8 {
    match c {
        Command::ExclusiveAccess(_) => 1,
        Command::ExitXip | Command::EnterCmdXip => 0,
        Command::Exec { .. } => 4,
        Command::FlashErase { .. } | Command::Write { .. } | Command::Read { .. } => 8,
        Command::Reboot { .. } => 12,
    }
}

/// The data phase that follows a command's packet: a write sends its bytes, a read
/// receives them, and every other command has none.
pub open spec fn spec_data_phase(c: Command) -> DataPhase {
    match c {
        Command::Write { size, .. } => DataPhase::HostToDevice(size),
        Command::Read { size, .. } => DataPhase::DeviceToHost(size),
        _ => DataPhase::NoData,
    }
}

/// Number of bytes in a data phase (0 if none).
pub open spec fn phase_length(p: DataPhase) -> u32 {
    match p {
        DataPhase::NoData => 0,
        DataPhase::HostToDevice(n) => n,
        DataPhase::DeviceToHost(n) => n,
    }
}

/// The four little-endian bytes of `w`.
pub open spec fn le_bytes(w: u32) -> Seq<u8> {
    seq![
        (w % 0x100) as u8,
        ((w / 0x100) % 0x100) as u8,
        ((w / 0x1_0000) % 0x100) as u8,
        (w / 0x100_0000) as u8,
    ]
}

/// `n` zero bytes.
pub open spec fn zeros(n: nat) -> Seq<u8> {
    Seq::new(n, |_i: int| 0u8)
}

/// The 16-byte args region of a command.
pub open spec fn spec_args(c: Command) -> Seq<u8> {
    match c {
        Command::ExclusiveAccess(level) => seq![exclusivity_code(level)] + zeros(15),
        Command::FlashErase { addr, size }
        | Command::Write { addr, size }
        | Command::Read { addr, size } => le_bytes(addr) + le_bytes(size) + zeros(8),
        Command::Exec { addr } => le_bytes(addr) + zeros(12),
        Command::Reboot { pc, sp, delay_ms } => le_bytes(pc) + le_bytes(sp) + le_bytes(delay_ms)
            + zeros(4),
        Command::ExitXip | Command::EnterCmdXip => zeros(16),
    }
}

/// The 32 wire bytes of a command stamped with `token`.
pub open spec fn spec_encode(c: Command, token: u32) -> Seq<u8> {
    le_bytes(PICOBOOT_MAGIC) + le_bytes(token) + seq![spec_cmd_id(c), spec_cmd_size(c), 0u8, 0u8]
        + le_bytes(phase_length(spec_data_phase(c))) + spec_args(c)
}

/// Reading back the four little-endian bytes of `w` gives `w`.
pub proof fn lemma_le_bytes_roundtrip(w: u32)
    ensures
        le_bytes(w).len() == 4,
        le_u32(le_bytes(w), 0) == w,
{
    let b = le_bytes(w);
    assert(w % 0x100 + ((w / 0x100) % 0x100) * 0x100 + ((w / 0x1_0000) % 0x100) * 0x1_0000 + (w
        / 0x100_0000) * 0x100_0000 == w) by (bit_vector);
    assert(b[0] as int == w % 0x100);
    assert(b[1] as int == (w / 0x100) % 0x100);
    assert(b[2] as int == (w / 0x1_0000) % 0x100);
    assert(b[3] as int == w / 0x100_0000);
}

/// The fields of an encoded command read back as what went in: the packet is 32 bytes; the
/// magic, token and transfer length words, the command id and args size bytes are in place
/// and the reserved bytes are zero; the args hold the command's operands; and the args bytes
/// past `cmd_size` (at most 16) are zero.
pub proof fn lemma_encode_fields(c: Command, token: u32)
    ensures
        spec_encode(c, token).len() == 32,
        le_u32(spec_encode(c, token), 0) == PICOBOOT_MAGIC,
        le_u32(spec_encode(c, token), 4) == token,
        spec_encode(c, token)[8] == spec_cmd_id(c),
        spec_encode(c, token)[9] == spec_cmd_size(c),
        spec_encode(c, token)[10] == 0,
        spec_encode(c, token)[11] == 0,
        le_u32(spec_encode(c, token), 12) == phase_length(spec_data_phase(c)),
        spec_cmd_size(c) <= 16,
        forall|k: int| spec_cmd_size(c) <= k < 16 ==> #[trigger] spec_encode(c, token)[16 + k] == 0,
        c matches Command::ExclusiveAccess(level) ==> spec_encode(c, token)[16]
            == exclusivity_code(level),
        c matches Command::FlashErase { addr, size } ==> le_u32(spec_encode(c, token), 16) == addr
            && le_u32(spec_encode(c, token), 20) == size,
        c matches Command::Write { addr, size } ==> le_u32(spec_encode(c, token), 16) == addr
            && le_u32(spec_encode(c, token), 20) == size,
        c matches Command::Read { addr, size } ==> le_u32(spec_encode(c, token), 16) == addr
            && le_u32(spec_encode(c, token), 20) == size,
        c matches Command::Exec { addr } ==> le_u32(spec_encode(c, token), 16) == addr,
        c matches Command::Reboot { pc, sp, delay_ms } ==> le_u32(spec_encode(c, token), 16) == pc
            && le_u32(spec_encode(c, token), 20) == sp && le_u32(spec_encode(c, token), 24)
            == delay_ms,
{
    let e = spec_encode(c, token);
    let a = spec_args(c);
    lemma_le_bytes_roundtrip(PICOBOOT_MAGIC);
    lemma_le_bytes_roundtrip(token);
    lemma_le_bytes_roundtrip(phase_length(spec_data_phase(c)));
    assert(a.len() == 16);
    assert(e.len() == 32);
    assert forall|k: int| 0 <= k < 16 implies #[trigger] e[16 + k] == a[k] by {}
    assert forall|k: int| 0 <= k < 4 implies e[k] == le_bytes(PICOBOOT_MAGIC)[k] && e[4 + k]
        == le_bytes(token)[k] && e[12 + k] == le_bytes(phase_length(spec_data_phase(c)))[k] by {}
    assert(e.subrange(0, 4) =~= le_bytes(PICOBOOT_MAGIC));
    match c {
        Command::FlashErase { addr, size } | Command::Write { addr, size } | Command::Read {
            addr,
            size,
        } => {
            lemma_le_bytes_roundtrip(addr);
            lemma_le_bytes_roundtrip(size);
            assert forall|k: int| 0 <= k < 4 implies a[k] == le_bytes(addr)[k] && a[4 + k]
                == le_bytes(size)[k] by {}
        },
        Command::Exec { addr } => {
            lemma_le_bytes_roundtrip(addr);
            assert forall|k: int| 0 <= k < 4 implies a[k] == le_bytes(addr)[k] by {}
        },
        Command::Reboot { pc, sp, delay_ms } => {
            lemma_le_bytes_roundtrip(pc);
            lemma_le_bytes_roundtrip(sp);
            lemma_le_bytes_roundtrip(delay_ms);
            assert forall|k: int| 0 <= k < 4 implies a[k] == le_bytes(pc)[k] && a[4 + k]
                == le_bytes(sp)[k] && a[8 + k] == le_bytes(delay_ms)[k] by {}
        },
        _ => {},
    }
}

/// Bit 7 of the command id is set exactly for the commands whose data phase is IN
/// (device-to-host).
pub proof fn lemma_in_bit_matches_phase(c: Command)
    ensures
        (spec_cmd_id(c) & 0x80 != 0) <==> spec_data_phase(c) is DeviceToHost,
{
    assert(CMD_EXCLUSIVE_ACCESS & 0x80 == 0) by (bit_vector);
    assert(CMD_REBOOT & 0x80 == 0) by (bit_vector);
    assert(CMD_FLASH_ERASE & 0x80 == 0) by (bit_vector);
    assert(CMD_READ & 0x80 != 0) by (bit_vector);
    assert(CMD_WRITE & 0x80 == 0) by (bit_vector);
    assert(CMD_EXIT_XIP & 0x80 == 0) by (bit_vector);
    assert(CMD_ENTER_CMD_XIP & 0x80 == 0) by (bit_vector);
    assert(CMD_EXEC & 0x80 == 0) by (bit_vector);
}

// ---------------------------------------------------------------------------------------
// Executable encoding.
// ---------------------------------------------------------------------------------------

/// The four little-endian bytes of `w`.
fn le_word(w: u32) -> (b: [u8; 4])
    ensures
        b@ == le_bytes(w),
{
    let b: [u8; 4] = [
        (w % 0x100) as u8,
        ((w / 0x100) % 0x100) as u8,
        ((w / 0x1_0000) % 0x100) as u8,
        (w / 0x100_0000) as u8,
    ];
    assert(b@ =~= le_bytes(w));
    b
}

impl Exclusivity {
    /// The wire code of this level.
    fn code(&self) -> (c: u8)
        ensures
            c == exclusivity_code(*self),
    {
        match self {
            Exclusivity::NotExclusive => 0,
            Exclusivity::Exclusive => 1,
            Exclusivity::ExclusiveAndEject => 2,
        }
    }
}

impl Command {
    /// The command id byte (bit 7 set for IN-direction commands).
    fn cmd_id(&self) -> (id: u8)
        ensures
            id == spec_cmd_id(*self),
    {
        match self {
            Command::ExclusiveAccess(_) => CMD_EXCLUSIVE_ACCESS,
            Command::ExitXip => CMD_EXIT_XIP,
            Command::EnterCmdXip => CMD_ENTER_CMD_XIP,
            Command::FlashErase { .. } => CMD_FLASH_ERASE,
            Command::Write { .. } => CMD_WRITE,
            Command::Read { .. } => CMD_READ,
            Command::Exec { .. } => CMD_EXEC,
            Command::Reboot { .. } => CMD_REBOOT,
        }
    }

    /// Number of bytes used in the args field.
    fn cmd_size(&self) -> (n: u8)
        ensures
            n == spec_cmd_size(*self),
    {
        match self {
            Command::ExclusiveAccess(_) => 1,
            Command::ExitXip | Command::EnterCmdXip => 0,
            Command::Exec { .. } => 4,
            Command::FlashErase { .. } | Command::Write { .. } | Command::Read { .. } => 8,
            Command::Reboot { .. } => 12,
        }
    }

    /// The data phase that follows this command's packet.
    pub fn data_phase(&self) -> (p: DataPhase)
        ensures
            p == spec_data_phase(*self),
    {
        match *self {
            Command::Write { size, .. } => DataPhase::HostToDevice(size),
            Command::Read { size, .. } => DataPhase::DeviceToHost(size),
            _ => DataPhase::NoData,
        }
    }

    /// Number of bytes in the data phase (0 if none).
    fn transfer_length(&self) -> (n: u32)
        ensures
            n == phase_length(spec_data_phase(*self)),
    {
        match self.data_phase() {
            DataPhase::NoData => 0,
            DataPhase::HostToDevice(n) | DataPhase::DeviceToHost(n) => n,
        }
    }

    /// The 16-byte args region for this command.
    fn args(&self) -> (a: [u8; 16])
        ensures
            a@ == spec_args(*self),
    {
        let a: [u8; 16] = match *self {
            Command::ExclusiveAccess(level) => [
                level.code(), 0, 0, 0, 0, 0, 0, 0, 0, 0, 0, 0, 0, 0, 0, 0,
            ],
            Command::FlashErase { addr, size }
            | Command::Write { addr, size }
            | Command::Read { addr, size } => {
                let x = le_word(addr);
                let y = le_word(size);
                [x[0], x[1], x[2], x[3], y[0], y[1], y[2], y[3], 0, 0, 0, 0, 0, 0, 0, 0]
            },
            Command::Exec { addr } => {
                let x = le_word(addr);
                [x[0], x[1], x[2], x[3], 0, 0, 0, 0, 0, 0, 0, 0, 0, 0, 0, 0]
            },
            Command::Reboot { pc, sp, delay_ms } => {
                let x = le_word(pc);
                let y = le_word(sp);
                let z = le_word(delay_ms);
                [x[0], x[1], x[2], x[3], y[0], y[1], y[2], y[3], z[0], z[1], z[2], z[3], 0, 0, 0, 0]
            },
            Command::ExitXip | Command::EnterCmdXip => [0, 0, 0, 0, 0, 0, 0, 0, 0, 0, 0, 0, 0, 0, 0, 0],
        };
        assert(a@ =~= spec_args(*self));
        a
    }

    /// Encode the command into its 32 wire bytes, stamping `token` into the header.
    pub fn encode(&self, token: u32) -> (buf: [u8; 32])
        ensures
            buf@ == spec_encode(*self, token),
    {
        let m = le_word(PICOBOOT_MAGIC);
        let t = le_word(token);
        let l = le_word(self.transfer_length());
        let a = self.args();
        let buf: [u8; 32] = [
            m[0], m[1], m[2], m[3],
            t[0], t[1], t[2], t[3],
            self.cmd_id(), self.cmd_size(), 0, 0,
            l[0], l[1], l[2], l[3],
            a[0], a[1], a[2], a[3], a[4], a[5], a[6], a[7],
            a[8], a[9], a[10], a[11], a[12], a[13], a[14], a[15],
        ];
        assert(buf@ =~= spec_encode(*self, token));
        buf
    }
}

} // verus!
