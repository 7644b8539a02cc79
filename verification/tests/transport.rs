use picotool_rs::transport::{
    check_sent, find_bootsel, find_picoboot, in_request_len, is_bootsel, take_received,
    EndpointDirection, EndpointInfo, InterfaceInfo, TransferKind, TransportError,
};

fn ep(address: u8, kind: TransferKind, direction: EndpointDirection) -> EndpointInfo {
    EndpointInfo {
        address,
        kind,
        direction,
    }
}

#[test]
fn picoboot_interface_is_the_vendor_one() {
    let ifs = vec![
        InterfaceInfo {
            number: 0,
            class: 0x08,
            endpoints: vec![
                ep(0x01, TransferKind::Bulk, EndpointDirection::Out),
                ep(0x82, TransferKind::Bulk, EndpointDirection::In),
            ],
        },
        InterfaceInfo {
            number: 1,
            class: 0xFF,
            endpoints: vec![
                ep(0x83, TransferKind::Interrupt, EndpointDirection::In),
                ep(0x03, TransferKind::Bulk, EndpointDirection::Out),
                ep(0x84, TransferKind::Bulk, EndpointDirection::In),
            ],
        },
    ];
    assert_eq!(find_picoboot(&ifs), Ok((1, 0x03, 0x84)));
}

#[test]
fn missing_vendor_interface_is_reported() {
    let ifs = vec![InterfaceInfo {
        number: 0,
        class: 0x08,
        endpoints: vec![],
    }];
    assert_eq!(find_picoboot(&ifs), Err(TransportError::NoPicobootInterface));
    assert_eq!(find_picoboot(&[]), Err(TransportError::NoPicobootInterface));
}

#[test]
fn vendor_interface_without_bulk_pair_is_reported() {
    let ifs = vec![
        InterfaceInfo {
            number: 2,
            class: 0xFF,
            endpoints: vec![ep(0x03, TransferKind::Bulk, EndpointDirection::Out)],
        },
        InterfaceInfo {
            number: 3,
            class: 0xFF,
            endpoints: vec![
                ep(0x04, TransferKind::Bulk, EndpointDirection::Out),
                ep(0x85, TransferKind::Bulk, EndpointDirection::In),
            ],
        },
    ];
    // The first vendor interface decides.
    assert_eq!(find_picoboot(&ifs), Err(TransportError::NoBulkEndpoints));
}

#[test]
fn last_bulk_endpoint_of_each_direction_wins() {
    let ifs = vec![InterfaceInfo {
        number: 1,
        class: 0xFF,
        endpoints: vec![
            ep(0x01, TransferKind::Bulk, EndpointDirection::Out),
            ep(0x81, TransferKind::Bulk, EndpointDirection::In),
            ep(0x02, TransferKind::Bulk, EndpointDirection::Out),
        ],
    }];
    assert_eq!(find_picoboot(&ifs), Ok((1, 0x02, 0x81)));
}

#[test]
fn bootsel_identity_is_found_first() {
    assert!(is_bootsel(0x2E8A, 0x0003));
    assert!(!is_bootsel(0x2E8A, 0x000A));
    let ids = [(0x1234, 0x0003), (0x2E8A, 0x0003), (0x2E8A, 0x0003)];
    assert_eq!(find_bootsel(&ids), Some(1));
    assert_eq!(find_bootsel(&[(0x1234, 0x5678)]), None);
}

#[test]
fn in_request_is_a_nonzero_packet_multiple() {
    assert_eq!(in_request_len(0, 64), 64);
    assert_eq!(in_request_len(1, 64), 64);
    assert_eq!(in_request_len(64, 64), 64);
    assert_eq!(in_request_len(65, 64), 128);
    assert_eq!(in_request_len(4096, 64), 4096);
    assert_eq!(in_request_len(4000, 512), 4096);
}

#[test]
fn short_transfers_are_reported() {
    assert_eq!(check_sent(32, 32), Ok(()));
    assert_eq!(
        check_sent(32, 31),
        Err(TransportError::ShortTransfer {
            expected: 32,
            actual: 31
        })
    );
    assert_eq!(take_received(vec![1, 2, 3, 4, 5], 3), Ok(vec![1, 2, 3]));
    assert_eq!(
        take_received(vec![1, 2], 3),
        Err(TransportError::ShortTransfer {
            expected: 3,
            actual: 2
        })
    );
}
