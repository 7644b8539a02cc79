use picotool_rs::constants::{
    FLASH_END, FLASH_ID_STUB, FLASH_START, MAX_DETECTED_FLASH_SIZE, MIN_DETECTED_FLASH_SIZE,
    RESULT_ADDR, STUB_ADDR,
};

#[test]
fn result_addr_does_not_overlap_stub() {
    assert!(RESULT_ADDR >= STUB_ADDR + FLASH_ID_STUB.len() as u32);
}

#[test]
fn detection_bounds_are_sane() {
    assert!(MIN_DETECTED_FLASH_SIZE < MAX_DETECTED_FLASH_SIZE);
    assert_eq!(MAX_DETECTED_FLASH_SIZE, FLASH_END - FLASH_START);
}

#[test]
fn flash_window_is_sixteen_mib() {
    assert_eq!(FLASH_END, 0x1100_0000);
    assert_eq!(FLASH_ID_STUB.len(), 62);
    assert_eq!(FLASH_ID_STUB[0], 0x10);
    assert_eq!(FLASH_ID_STUB[61], 0xbd);
}
