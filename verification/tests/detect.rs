use picotool_rs::constants::{FLASH_END, FLASH_ID_STUB, FLASH_START, RESULT_ADDR, STUB_ADDR};
use picotool_rs::detect::{detected_flash_end, detection_commands, flash_size_from_jedec};
use picotool_rs::picoboot::{Command, DataPhase, Exclusivity};

#[test]
fn winbond_w25q16_is_2_mib() {
    // Manufacturer 0xEF (Winbond), type 0x40, capacity 0x15 -> 1 << 0x15 = 2 MiB.
    assert_eq!(
        flash_size_from_jedec([0xEF, 0x40, 0x15]),
        Some(2 * 1024 * 1024)
    );
}

#[test]
fn typical_capacities_decode() {
    assert_eq!(flash_size_from_jedec([0xEF, 0x40, 0x14]), Some(1024 * 1024));
    assert_eq!(
        flash_size_from_jedec([0xEF, 0x40, 0x16]),
        Some(4 * 1024 * 1024)
    );
    assert_eq!(
        flash_size_from_jedec([0xEF, 0x40, 0x18]),
        Some(16 * 1024 * 1024)
    );
}

#[test]
fn all_zero_read_is_rejected() {
    // Absent/asleep flash reads as 0x00 -> 1 << 0 = 1 byte, below the floor.
    assert_eq!(flash_size_from_jedec([0x00, 0x00, 0x00]), None);
}

#[test]
fn all_ones_read_is_rejected() {
    // Capacity 0xFF -> 1 << 255 overflows the shift -> None.
    assert_eq!(flash_size_from_jedec([0xFF, 0xFF, 0xFF]), None);
}

#[test]
fn above_xip_window_is_rejected() {
    // Capacity 0x19 -> 32 MiB, beyond the 16 MiB XIP window.
    assert_eq!(flash_size_from_jedec([0xEF, 0x40, 0x19]), None);
}

#[test]
fn smallest_and_just_below_accepted_capacities() {
    // 0x10 -> 64 KiB is the floor; 0x0F -> 32 KiB is below it.
    assert_eq!(flash_size_from_jedec([0xEF, 0x40, 0x10]), Some(64 * 1024));
    assert_eq!(flash_size_from_jedec([0xEF, 0x40, 0x0F]), None);
    // 0x20 is the first capacity whose shift leaves a u32.
    assert_eq!(flash_size_from_jedec([0xEF, 0x40, 0x20]), None);
}

#[test]
fn detection_runs_stub_then_reads_id() {
    let cmds = detection_commands();
    assert_eq!(
        cmds,
        vec![
            Command::ExclusiveAccess(Exclusivity::Exclusive),
            Command::ExitXip,
            Command::Write { addr: STUB_ADDR, size: FLASH_ID_STUB.len() as u32 },
            Command::Exec { addr: STUB_ADDR },
            Command::Read { addr: RESULT_ADDR, size: 3 },
        ]
    );
    assert_eq!(cmds[2].data_phase(), DataPhase::HostToDevice(62));
    assert_eq!(cmds[4].data_phase(), DataPhase::DeviceToHost(3));
}

#[test]
fn detected_2_mib_flash_narrows_the_window() {
    assert_eq!(
        detected_flash_end(Some(&[0xEF, 0x40, 0x15])),
        FLASH_START + 2 * 1024 * 1024
    );
    assert_eq!(detected_flash_end(Some(&[0xEF, 0x40, 0x18])), FLASH_END);
}

#[test]
fn failed_detection_falls_back_to_flash_end() {
    assert_eq!(detected_flash_end(None), FLASH_END);
}

#[test]
fn implausible_or_malformed_id_falls_back_to_flash_end() {
    assert_eq!(detected_flash_end(Some(&[0x00, 0x00, 0x00])), FLASH_END);
    assert_eq!(detected_flash_end(Some(&[0xFF, 0xFF, 0xFF])), FLASH_END);
    assert_eq!(detected_flash_end(Some(&[0xEF, 0x40, 0x19])), FLASH_END);
    assert_eq!(detected_flash_end(Some(&[0xEF, 0x40])), FLASH_END);
    assert_eq!(detected_flash_end(Some(&[0xEF, 0x40, 0x15, 0x00])), FLASH_END);
}
