use picotool_rs::constants::{FLASH_START, SRAM_END};
use picotool_rs::load::{plan_erase, DeviceOp, LoadAction, LoadEvent, LoadSession};
use picotool_rs::picoboot::Exclusivity;
use picotool_rs::uf2::Segment;

fn seg(addr: u32, len: usize) -> Segment {
    Segment {
        addr,
        data: vec![0u8; len],
    }
}

#[test]
fn sub_sector_segment_erases_one_sector() {
    assert_eq!(
        plan_erase(&[seg(FLASH_START, 100)]),
        vec![(FLASH_START, 4096)]
    );
}

#[test]
fn segment_spanning_sector_boundary_erases_two() {
    assert_eq!(
        plan_erase(&[seg(FLASH_START, 5000)]),
        vec![(FLASH_START, 8192)]
    );
}

#[test]
fn unaligned_start_rounds_down() {
    assert_eq!(
        plan_erase(&[seg(FLASH_START + 0x800, 100)]),
        vec![(FLASH_START, 4096)]
    );
}

#[test]
fn adjacent_sectors_merge() {
    let segs = [seg(FLASH_START, 100), seg(FLASH_START + 4096, 100)];
    assert_eq!(plan_erase(&segs), vec![(FLASH_START, 8192)]);
}

#[test]
fn segments_sharing_a_sector_erase_it_once() {
    let segs = [seg(FLASH_START, 100), seg(FLASH_START + 200, 100)];
    assert_eq!(plan_erase(&segs), vec![(FLASH_START, 4096)]);
}

#[test]
fn distant_segments_stay_separate() {
    let segs = [seg(FLASH_START, 100), seg(FLASH_START + 0x10000, 100)];
    assert_eq!(
        plan_erase(&segs),
        vec![(FLASH_START, 4096), (FLASH_START + 0x10000, 4096)]
    );
}

#[test]
fn sector_aligned_end_adds_no_extra_sector() {
    assert_eq!(
        plan_erase(&[seg(FLASH_START, 4096)]),
        vec![(FLASH_START, 4096)]
    );
}

#[test]
fn out_of_order_segments_are_sorted_before_merging() {
    let segs = [
        seg(FLASH_START + 0x20000, 10),
        seg(FLASH_START, 10),
        seg(FLASH_START + 0x1000, 10),
    ];
    assert_eq!(
        plan_erase(&segs),
        vec![(FLASH_START, 8192), (FLASH_START + 0x20000, 4096)]
    );
}

#[test]
fn nested_span_is_absorbed() {
    let segs = [seg(FLASH_START, 0x3000), seg(FLASH_START + 0x1000, 10)];
    assert_eq!(plan_erase(&segs), vec![(FLASH_START, 0x3000)]);
}

#[test]
fn empty_segment_list_plans_nothing() {
    assert_eq!(plan_erase(&[]), Vec::<(u32, u32)>::new());
}

/// Drive a session to its end, answering every operation as a healthy device would;
/// returns the operations performed and the final action.
fn drive(session: &mut LoadSession) -> (Vec<DeviceOp>, LoadAction) {
    let mut performed = Vec::new();
    let mut event = LoadEvent::Start;
    loop {
        match session.step(event) {
            LoadAction::Perform(i) => {
                let op = session.op(i).clone();
                event = match &op {
                    DeviceOp::FlashRead { expected, .. } => LoadEvent::ReadBack(expected.clone()),
                    _ => LoadEvent::Completed,
                };
                performed.push(op);
            }
            other => return (performed, other),
        }
    }
}

#[test]
fn load_sequence_without_verify() {
    let segs = [Segment {
        addr: FLASH_START,
        data: (0..5000u32).map(|i| i as u8).collect(),
    }];
    let mut session = LoadSession::new(&segs, false);
    let (ops, end) = drive(&mut session);
    assert_eq!(end, LoadAction::Done);
    assert_eq!(ops.len(), 6);
    assert_eq!(ops[0], DeviceOp::ExclusiveAccess(Exclusivity::Exclusive));
    assert_eq!(ops[1], DeviceOp::ExitXip);
    assert_eq!(ops[2], DeviceOp::FlashErase { addr: FLASH_START, size: 8192 });
    assert_eq!(
        ops[3],
        DeviceOp::FlashWrite {
            addr: FLASH_START,
            data: segs[0].data[..4096].to_vec()
        }
    );
    assert_eq!(
        ops[4],
        DeviceOp::FlashWrite {
            addr: FLASH_START + 4096,
            data: segs[0].data[4096..].to_vec()
        }
    );
    assert_eq!(ops[5], DeviceOp::Reboot { pc: 0, sp: SRAM_END, delay_ms: 500 });
    // A finished session keeps answering Done.
    assert_eq!(session.step(LoadEvent::Completed), LoadAction::Done);
}

#[test]
fn load_sequence_with_verify_reads_every_piece_back() {
    let segs = [seg(FLASH_START, 10), seg(FLASH_START + 0x8000, 4096)];
    let mut session = LoadSession::new(&segs, true);
    let (ops, end) = drive(&mut session);
    assert_eq!(end, LoadAction::Done);
    assert_eq!(ops.len(), 2 + 2 + 2 + 1 + 2 + 1);
    assert_eq!(ops[6], DeviceOp::EnterCmdXip);
    assert_eq!(
        ops[7],
        DeviceOp::FlashRead {
            addr: FLASH_START,
            expected: vec![0; 10]
        }
    );
    assert_eq!(
        ops[8],
        DeviceOp::FlashRead {
            addr: FLASH_START + 0x8000,
            expected: vec![0; 4096]
        }
    );
}

#[test]
fn mismatching_read_back_stops_with_its_address() {
    let segs = [seg(FLASH_START + 0x100, 10)];
    let mut session = LoadSession::new(&segs, true);
    let mut event = LoadEvent::Start;
    loop {
        match session.step(event) {
            LoadAction::Perform(i) => {
                event = match session.op(i) {
                    DeviceOp::FlashRead { .. } => LoadEvent::ReadBack(vec![1; 10]),
                    _ => LoadEvent::Completed,
                };
            }
            other => {
                assert_eq!(
                    other,
                    LoadAction::VerifyMismatch {
                        addr: FLASH_START + 0x100
                    }
                );
                break;
            }
        }
    }
}

#[test]
fn transport_failure_aborts() {
    let segs = [seg(FLASH_START, 10)];
    let mut session = LoadSession::new(&segs, false);
    assert_eq!(session.step(LoadEvent::Start), LoadAction::Perform(0));
    assert_eq!(session.step(LoadEvent::Completed), LoadAction::Perform(1));
    assert_eq!(session.step(LoadEvent::Failed), LoadAction::Aborted);
    assert_eq!(session.step(LoadEvent::Completed), LoadAction::Done);
}

#[test]
fn plan_does_not_depend_on_segment_order() {
    let a = [
        seg(FLASH_START + 0x5000, 3),
        seg(FLASH_START + 0x0FFF, 2),
        seg(FLASH_START + 0x9000, 0x2001),
        seg(FLASH_START + 0x2000, 1),
    ];
    let b = [a[2].clone(), a[0].clone(), a[3].clone(), a[1].clone()];
    let plan = plan_erase(&a);
    assert_eq!(plan, plan_erase(&b));
    assert_eq!(
        plan,
        vec![
            (FLASH_START, 0x3000),
            (FLASH_START + 0x5000, 0x1000),
            (FLASH_START + 0x9000, 0x3000)
        ]
    );
    assert!(plan.iter().all(|&(_, size)| size > 0));
}

#[test]
fn empty_segment_on_a_sector_boundary_plans_an_empty_range() {
    // An empty segment at an aligned address has an empty sector span; it is kept as a
    // zero-length range when nothing else touches that address.
    assert_eq!(
        plan_erase(&[seg(FLASH_START, 0), seg(FLASH_START + 0x4000, 1)]),
        vec![(FLASH_START, 0), (FLASH_START + 0x4000, 0x1000)]
    );
}
