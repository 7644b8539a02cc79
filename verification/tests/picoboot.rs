use picotool_rs::constants::PICOBOOT_MAGIC;
use picotool_rs::picoboot::{Command, DataPhase, Exclusivity};

#[test]
fn exit_xip_golden() {
    let expected = [
        0x0B, 0xD1, 0x1F, 0x43, // magic
        0x00, 0x00, 0x00, 0x00, // token
        0x06, 0x00, 0x00, 0x00, // cmd_id=EXIT_XIP, cmd_size=0, reserved
        0x00, 0x00, 0x00, 0x00, // transfer_length=0
        0x00, 0x00, 0x00, 0x00, 0x00, 0x00, 0x00, 0x00,
        0x00, 0x00, 0x00, 0x00, 0x00, 0x00, 0x00, 0x00,
    ];
    assert_eq!(Command::ExitXip.encode(0), expected);
}

#[test]
fn enter_cmd_xip_golden() {
    let enc = Command::EnterCmdXip.encode(0);
    assert_eq!(enc[8], 0x07);
    assert_eq!(enc[9], 0x00);
    assert_eq!(&enc[12..16], &[0, 0, 0, 0]);
}

#[test]
fn exclusive_access_golden() {
    let expected = [
        0x0B, 0xD1, 0x1F, 0x43,
        0x00, 0x00, 0x00, 0x00,
        0x01, 0x01, 0x00, 0x00, // cmd_id=EXCLUSIVE_ACCESS, cmd_size=1
        0x00, 0x00, 0x00, 0x00, // transfer_length=0
        0x01, 0x00, 0x00, 0x00, 0x00, 0x00, 0x00, 0x00, // args[0]=Exclusive
        0x00, 0x00, 0x00, 0x00, 0x00, 0x00, 0x00, 0x00,
    ];
    assert_eq!(
        Command::ExclusiveAccess(Exclusivity::Exclusive).encode(0),
        expected
    );
    assert_eq!(Exclusivity::ExclusiveAndEject as u8, 2);
    assert_eq!(Exclusivity::NotExclusive as u8, 0);
}

#[test]
fn flash_erase_golden() {
    let expected = [
        0x0B, 0xD1, 0x1F, 0x43,
        0x78, 0x56, 0x34, 0x12, // token=0x12345678
        0x03, 0x08, 0x00, 0x00, // cmd_id=FLASH_ERASE, cmd_size=8
        0x00, 0x00, 0x00, 0x00, // transfer_length=0
        0x00, 0x00, 0x00, 0x10, // addr=0x10000000
        0x00, 0x10, 0x00, 0x00, // size=0x1000
        0x00, 0x00, 0x00, 0x00, 0x00, 0x00, 0x00, 0x00,
    ];
    let cmd = Command::FlashErase {
        addr: 0x1000_0000,
        size: 0x1000,
    };
    assert_eq!(cmd.encode(0x1234_5678), expected);
    assert_eq!(cmd.data_phase(), DataPhase::NoData);
}

#[test]
fn write_golden() {
    let expected = [
        0x0B, 0xD1, 0x1F, 0x43,
        0x01, 0x00, 0x00, 0x00, // token=1
        0x05, 0x08, 0x00, 0x00, // cmd_id=WRITE, cmd_size=8
        0x00, 0x01, 0x00, 0x00, // transfer_length=256
        0x00, 0x00, 0x00, 0x10, // addr=0x10000000
        0x00, 0x01, 0x00, 0x00, // size=256
        0x00, 0x00, 0x00, 0x00, 0x00, 0x00, 0x00, 0x00,
    ];
    let cmd = Command::Write {
        addr: 0x1000_0000,
        size: 256,
    };
    assert_eq!(cmd.encode(1), expected);
    assert_eq!(cmd.data_phase(), DataPhase::HostToDevice(256));
}

#[test]
fn read_sets_in_bit_and_device_to_host_phase() {
    let cmd = Command::Read {
        addr: 0x1000_0000,
        size: 256,
    };
    let enc = cmd.encode(0);
    assert_eq!(enc[8], 0x84, "READ must set the IN direction bit");
    assert_eq!(enc[9], 0x08);
    assert_eq!(&enc[12..16], &256u32.to_le_bytes());
    assert_eq!(&enc[16..20], &0x1000_0000u32.to_le_bytes());
    assert_eq!(cmd.data_phase(), DataPhase::DeviceToHost(256));
}

#[test]
fn reboot_golden() {
    let expected = [
        0x0B, 0xD1, 0x1F, 0x43,
        0x00, 0x00, 0x00, 0x00,
        0x02, 0x0C, 0x00, 0x00, // cmd_id=REBOOT, cmd_size=12
        0x00, 0x00, 0x00, 0x00, // transfer_length=0
        0x00, 0x00, 0x00, 0x00, // pc=0
        0x00, 0x20, 0x04, 0x20, // sp=0x20042000
        0xF4, 0x01, 0x00, 0x00, // delay_ms=500
        0x00, 0x00, 0x00, 0x00,
    ];
    let cmd = Command::Reboot {
        pc: 0,
        sp: 0x2004_2000,
        delay_ms: 500,
    };
    assert_eq!(cmd.encode(0), expected);
}

#[test]
fn magic_is_first_word_little_endian() {
    let enc = Command::ExitXip.encode(0);
    assert_eq!(
        u32::from_le_bytes([enc[0], enc[1], enc[2], enc[3]]),
        PICOBOOT_MAGIC
    );
}

#[test]
fn token_and_operands_read_back() {
    let cmd = Command::Read {
        addr: 0xDEAD_BEEF,
        size: 0x0102_0304,
    };
    let enc = cmd.encode(0xA1B2_C3D4);
    assert_eq!(u32::from_le_bytes([enc[4], enc[5], enc[6], enc[7]]), 0xA1B2_C3D4);
    assert_eq!(u32::from_le_bytes([enc[12], enc[13], enc[14], enc[15]]), 0x0102_0304);
    assert_eq!(u32::from_le_bytes([enc[16], enc[17], enc[18], enc[19]]), 0xDEAD_BEEF);
    assert_eq!(u32::from_le_bytes([enc[20], enc[21], enc[22], enc[23]]), 0x0102_0304);
    assert!(enc[24..32].iter().all(|&b| b == 0));
}

#[test]
fn exclusivity_levels_encode_their_code() {
    let enc = Command::ExclusiveAccess(Exclusivity::ExclusiveAndEject).encode(7);
    assert_eq!(enc[16], 2);
    assert!(enc[17..32].iter().all(|&b| b == 0));
    let enc = Command::ExclusiveAccess(Exclusivity::NotExclusive).encode(7);
    assert_eq!(enc[16], 0);
    assert_eq!(enc[4], 7);
}

#[test]
fn only_read_has_the_in_bit() {
    let cmds = [
        Command::ExclusiveAccess(Exclusivity::Exclusive),
        Command::ExitXip,
        Command::EnterCmdXip,
        Command::FlashErase { addr: 0, size: 0 },
        Command::Write { addr: 0, size: 4 },
        Command::Read { addr: 0, size: 4 },
        Command::Reboot { pc: 0, sp: 0, delay_ms: 0 },
    ];
    for cmd in cmds {
        let enc = cmd.encode(0);
        let in_bit = enc[8] & 0x80 != 0;
        assert_eq!(in_bit, matches!(cmd.data_phase(), DataPhase::DeviceToHost(_)));
    }
}

#[test]
fn exec_golden() {
    let expected = [
        0x0B, 0xD1, 0x1F, 0x43, // magic
        0x07, 0x00, 0x00, 0x00, // token
        0x08, 0x04, 0x00, 0x00, // cmd_id=EXEC, cmd_size=4, reserved
        0x00, 0x00, 0x00, 0x00, // transfer_length=0
        0x00, 0x00, 0x00, 0x20, // addr=0x20000000
        0x00, 0x00, 0x00, 0x00, 0x00, 0x00, 0x00, 0x00, 0x00, 0x00, 0x00, 0x00,
    ];
    let cmd = Command::Exec { addr: 0x2000_0000 };
    assert_eq!(cmd.encode(7), expected);
    assert_eq!(cmd.data_phase(), DataPhase::NoData);
}
