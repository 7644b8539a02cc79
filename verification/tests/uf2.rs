use picotool_rs::constants::{
    FLASH_END, FLASH_START, RP2040_FAMILY_ID, UF2_BLOCK_SIZE, UF2_FLAG_FAMILY_ID_PRESENT,
    UF2_FLAG_NOT_MAIN_FLASH, UF2_MAGIC_END, UF2_MAGIC_START0, UF2_MAGIC_START1,
};
use picotool_rs::uf2::{parse, Segment, Uf2Error};

/// Build one 512-byte UF2 block from spec-derived field values.
fn block(flags: u32, addr: u32, family: u32, payload: &[u8]) -> Vec<u8> {
    let mut b = vec![0u8; UF2_BLOCK_SIZE];
    let put = |b: &mut [u8], off: usize, v: u32| b[off..off + 4].copy_from_slice(&v.to_le_bytes());
    put(&mut b, 0, UF2_MAGIC_START0);
    put(&mut b, 4, UF2_MAGIC_START1);
    put(&mut b, 8, flags);
    put(&mut b, 12, addr);
    put(&mut b, 16, payload.len() as u32);
    put(&mut b, 24, 1); // num_blocks
    put(&mut b, 28, family);
    b[32..32 + payload.len()].copy_from_slice(payload);
    put(&mut b, UF2_BLOCK_SIZE - 4, UF2_MAGIC_END);
    b
}

const RP2040: u32 = RP2040_FAMILY_ID;
const FAM: u32 = UF2_FLAG_FAMILY_ID_PRESENT;

#[test]
fn single_block_yields_one_segment() {
    let b = block(FAM, FLASH_START, RP2040, &[1, 2, 3, 4]);
    let segs = parse(&b, FLASH_END).unwrap();
    assert_eq!(
        segs,
        vec![Segment {
            addr: FLASH_START,
            data: vec![1, 2, 3, 4]
        }]
    );
}

#[test]
fn contiguous_blocks_coalesce() {
    let mut f = block(FAM, FLASH_START, RP2040, &[0xAA; 256]);
    f.extend(block(FAM, FLASH_START + 256, RP2040, &[0xBB; 256]));
    let segs = parse(&f, FLASH_END).unwrap();
    assert_eq!(segs.len(), 1);
    assert_eq!(segs[0].addr, FLASH_START);
    assert_eq!(segs[0].data.len(), 512);
    assert_eq!(segs[0].data[0], 0xAA);
    assert_eq!(segs[0].data[256], 0xBB);
}

#[test]
fn gap_splits_into_two_segments() {
    let mut f = block(FAM, FLASH_START, RP2040, &[1; 256]);
    f.extend(block(FAM, FLASH_START + 0x1000, RP2040, &[2; 256]));
    let segs = parse(&f, FLASH_END).unwrap();
    assert_eq!(segs.len(), 2);
    assert_eq!(segs[1].addr, FLASH_START + 0x1000);
}

#[test]
fn not_main_flash_block_is_skipped() {
    let mut f = block(FAM | UF2_FLAG_NOT_MAIN_FLASH, FLASH_START, RP2040, &[9; 4]);
    f.extend(block(FAM, FLASH_START, RP2040, &[1, 2, 3, 4]));
    let segs = parse(&f, FLASH_END).unwrap();
    assert_eq!(
        segs,
        vec![Segment {
            addr: FLASH_START,
            data: vec![1, 2, 3, 4]
        }]
    );
}

#[test]
fn foreign_family_block_is_skipped() {
    let mut f = block(FAM, FLASH_START, 0x1122_3344, &[9; 4]);
    f.extend(block(FAM, FLASH_START + 0x2000, RP2040, &[5, 6]));
    let segs = parse(&f, FLASH_END).unwrap();
    assert_eq!(
        segs,
        vec![Segment {
            addr: FLASH_START + 0x2000,
            data: vec![5, 6]
        }]
    );
}

#[test]
fn missing_family_id_is_rejected() {
    let b = block(0, FLASH_START, 0, &[1, 2, 3, 4]);
    assert_eq!(
        parse(&b, FLASH_END),
        Err(Uf2Error::MissingFamilyId { block: 0 })
    );
}

#[test]
fn address_below_flash_is_rejected() {
    let b = block(FAM, FLASH_START - 4, RP2040, &[1, 2, 3, 4]);
    assert!(matches!(
        parse(&b, FLASH_END),
        Err(Uf2Error::AddressOutOfRange { .. })
    ));
}

#[test]
fn bad_magic_is_rejected() {
    let mut b = block(FAM, FLASH_START, RP2040, &[1, 2, 3, 4]);
    b[0] ^= 0xFF;
    assert_eq!(parse(&b, FLASH_END), Err(Uf2Error::BadMagic { block: 0 }));
}

#[test]
fn non_block_aligned_length_is_rejected() {
    let b = vec![0u8; 100];
    assert_eq!(parse(&b, FLASH_END), Err(Uf2Error::Truncated { len: 100 }));
}

#[test]
fn empty_input_is_rejected() {
    assert_eq!(parse(&[], FLASH_END), Err(Uf2Error::Empty));
}

#[test]
fn only_foreign_blocks_yields_no_flash_data() {
    let b = block(FAM, FLASH_START, 0x1122_3344, &[9; 4]);
    assert_eq!(parse(&b, FLASH_END), Err(Uf2Error::NoFlashData));
}

#[test]
fn overlapping_blocks_are_rejected() {
    let mut f = block(FAM, FLASH_START + 256, RP2040, &[1; 256]);
    f.extend(block(FAM, FLASH_START, RP2040, &[2; 256]));
    assert!(matches!(
        parse(&f, FLASH_END),
        Err(Uf2Error::Overlap { .. })
    ));
}

#[test]
fn block_past_detected_flash_end_is_rejected() {
    // With a 2 MiB flash_end, a block whose payload spills past it is refused even
    // though it sits well within the conservative 16 MiB window.
    let two_mib = FLASH_START + 2 * 1024 * 1024;
    let b = block(FAM, two_mib - 4, RP2040, &[1, 2, 3, 4, 5, 6, 7, 8]);
    assert!(matches!(
        parse(&b, two_mib),
        Err(Uf2Error::AddressOutOfRange { flash_end, .. }) if flash_end == two_mib
    ));
}

#[test]
fn block_ending_exactly_at_flash_end_is_accepted() {
    let two_mib = FLASH_START + 2 * 1024 * 1024;
    let b = block(FAM, two_mib - 4, RP2040, &[1, 2, 3, 4]);
    let segs = parse(&b, two_mib).unwrap();
    assert_eq!(segs[0].end(), two_mib);
}

#[test]
fn payload_too_large_is_rejected() {
    let mut b = block(FAM, FLASH_START, RP2040, &[0; 4]);
    b[16..20].copy_from_slice(&477u32.to_le_bytes());
    assert_eq!(
        parse(&b, FLASH_END),
        Err(Uf2Error::PayloadTooLarge { block: 0, size: 477 })
    );
}

#[test]
fn full_payload_is_accepted() {
    let b = block(FAM, FLASH_START, RP2040, &[7; 476]);
    let segs = parse(&b, FLASH_END).unwrap();
    assert_eq!(segs[0].data.len(), 476);
    assert_eq!(segs[0].end(), FLASH_START + 476);
}

#[test]
fn out_of_range_error_carries_the_block_fields() {
    let mut f = block(FAM, FLASH_START, RP2040, &[1; 4]);
    f.extend(block(FAM, FLASH_END - 2, RP2040, &[2; 4]));
    assert_eq!(
        parse(&f, FLASH_END),
        Err(Uf2Error::AddressOutOfRange {
            block: 1,
            addr: FLASH_END - 2,
            size: 4,
            flash_end: FLASH_END
        })
    );
}

#[test]
fn first_error_in_block_order_wins() {
    // Block 1 lacks a family id; block 2 has bad magic. Block 1 is reported.
    let mut f = block(FAM, FLASH_START, RP2040, &[1; 4]);
    f.extend(block(0, FLASH_START + 4, 0, &[1; 4]));
    let mut bad = block(FAM, FLASH_START + 8, RP2040, &[1; 4]);
    bad[511] ^= 1;
    f.extend(bad);
    assert_eq!(
        parse(&f, FLASH_END),
        Err(Uf2Error::MissingFamilyId { block: 1 })
    );
}

#[test]
fn overlap_reports_the_offending_address() {
    let mut f = block(FAM, FLASH_START + 0x100, RP2040, &[1; 16]);
    f.extend(block(FAM, FLASH_START + 0x104, RP2040, &[2; 16]));
    assert_eq!(
        parse(&f, FLASH_END),
        Err(Uf2Error::Overlap { addr: FLASH_START + 0x104 })
    );
}

#[test]
fn appended_skipped_block_changes_nothing() {
    let base = block(FAM, FLASH_START, RP2040, &[3; 8]);
    let mut with_extra = base.clone();
    with_extra.extend(block(FAM | UF2_FLAG_NOT_MAIN_FLASH, 0, 0, &[0; 8]));
    assert_eq!(parse(&base, FLASH_END), parse(&with_extra, FLASH_END));
}

#[test]
fn three_contiguous_blocks_form_one_segment_in_order() {
    let mut f = block(FAM, FLASH_START, RP2040, &[1, 2]);
    f.extend(block(FAM, FLASH_START + 2, RP2040, &[3]));
    f.extend(block(FAM, FLASH_START + 3, RP2040, &[4, 5, 6]));
    let segs = parse(&f, FLASH_END).unwrap();
    assert_eq!(
        segs,
        vec![Segment {
            addr: FLASH_START,
            data: vec![1, 2, 3, 4, 5, 6]
        }]
    );
}
