//! The decisions of the PICOBOOT USB transport that need no bus.
//!
//! Opening the BOOTSEL device, claiming its interface and moving bytes over bulk endpoints
//! is USB I/O and stays with the caller. What that I/O decides is here: which enumerated
//! device is the BOOTSEL device, which interface and endpoints carry PICOBOOT, how large an
//! IN transfer must be requested, and whether a transfer moved enough bytes.

use vstd::prelude::*;

use crate::constants::{PICOBOOT_INTERFACE_CLASS, PRODUCT_ID, VENDOR_ID};

verus! {

/// Errors the transport decides on its own.
#[derive(Debug, Clone, Copy, PartialEq, Eq, Structural)]
pub enum TransportError {
    /// The device exposes no PICOBOOT (vendor-class) interface.
    NoPicobootInterface,
    /// The PICOBOOT interface lacks a bulk IN/OUT endpoint pair.
    NoBulkEndpoints,
    /// A transfer moved fewer bytes than expected.
    ShortTransfer {
        /// Bytes expected.
        expected: usize,
        /// Bytes actually transferred.
        actual: usize,
    },
}

/// The transfer type of an endpoint.
#[derive(Debug, Clone, Copy, PartialEq, Eq, Structural)]
pub enum TransferKind {
    /// Control endpoint.
    Control,
    /// Isochronous endpoint.
    Isochronous,
    /// Bulk endpoint.
    Bulk,
    /// Interrupt endpoint.
    Interrupt,
}

/// The direction of an endpoint.
#[derive(Debug, Clone, Copy, PartialEq, Eq, Structural)]
pub enum EndpointDirection {
    /// Host to device.
    Out,
    /// Device to host.
    In,
}

/// What the transport reads of an endpoint descriptor.
#[derive(Debug, Clone, Copy, PartialEq, Eq, Structural)]
pub struct EndpointInfo {
    /// Endpoint address (including the direction bit).
    pub address: u8,
    /// Transfer type.
    pub kind: TransferKind,
    /// Direction.
    pub direction: EndpointDirection,
}

/// What the transport reads of an interface (its first alternate setting).
#[derive(Debug, Clone, PartialEq, Eq)]
pub struct InterfaceInfo {
    /// Interface number.
    pub number: u8,
    /// Interface class of the first alternate setting.
    pub class: u8,
    /// Endpoints of the first alternate setting, in descriptor order.
    pub endpoints: Vec<EndpointInfo>,
}

/// The model of an interface: number, class and endpoints.
pub type InterfaceModel = (u8, u8, Seq<EndpointInfo>);

impl View for InterfaceInfo {
    type V = InterfaceModel;

    open spec fn view(&self) -> InterfaceModel {
        (self.number, self.class, self.endpoints@)
    }
}

/// Whether a USB identity is the RP2040 BOOTSEL device.
pub open spec fn spec_is_bootsel(vid: u16, pid: u16) -> bool {
    vid == VENDOR_ID && pid == PRODUCT_ID
}

/// Whether a USB identity is the RP2040 BOOTSEL device.
pub fn is_bootsel(vid: u16, pid: u16) -> (r: bool)
    ensures
        r == (vid == 0x2E8A && pid == 0x0003),
        r == spec_is_bootsel(vid, pid),
{
    vid == VENDOR_ID && pid == PRODUCT_ID
}

/// The BOOTSEL identity is exactly one USB identity: vendor `0x2E8A` with product `0x0003`.
/// Any other product id of that vendor (another chip's boot ROM, an application) and any
/// other vendor are not the RP2040 BOOTSEL device.
pub proof fn lemma_bootsel_identity(vid: u16, pid: u16)
    ensures
        spec_is_bootsel(vid, pid) <==> (vid == 0x2E8A && pid == 0x0003),
        spec_is_bootsel(vid, pid) ==> vid == VENDOR_ID && pid == PRODUCT_ID,
{
}

/// The first enumerated device, given as `(vid, pid)` pairs in enumeration order, that is the
/// BOOTSEL device.
pub fn find_bootsel(ids: &[(u16, u16)]) -> (r: Option<usize>)
    ensures
        match r {
            Some(i) => i < ids@.len() && spec_is_bootsel(ids@[i as int].0, ids@[i as int].1)
                && forall|j: int| 0 <= j < i ==> !spec_is_bootsel(#[trigger] ids@[j].0, ids@[j].1),
            None => forall|j: int|
                0 <= j < ids@.len() ==> !spec_is_bootsel(#[trigger] ids@[j].0, ids@[j].1),
        },
        match r {
            Some(i) => ids@[i as int] == (0x2E8Au16, 0x0003u16) && forall|j: int|
                0 <= j < i ==> #[trigger] ids@[j] != (0x2E8Au16, 0x0003u16),
            None => forall|j: int| 0 <= j < ids@.len() ==> #[trigger] ids@[j] != (0x2E8Au16, 0x0003u16),
        },
{
    let n = ids.len();
    for i in 0..n
        invariant
            n == ids@.len(),
            forall|j: int| 0 <= j < i ==> !spec_is_bootsel(#[trigger] ids@[j].0, ids@[j].1),
            forall|j: int| 0 <= j < i ==> #[trigger] ids@[j] != (0x2E8Au16, 0x0003u16),
    {
        let (vid, pid) = ids[i];
        assert(ids@[i as int] == (vid, pid));
        if is_bootsel(vid, pid) {
            return Some(i);
        }
    }
    None
}

/// The address of the last bulk endpoint with direction `dir`, if any.
pub open spec fn last_bulk(eps: Seq<EndpointInfo>, dir: EndpointDirection) -> Option<u8>
    decreases eps.len(),
{
    if eps.len() == 0 {
        None
    } else if eps.last().kind == TransferKind::Bulk && eps.last().direction == dir {
        Some(eps.last().address)
    } else {
        last_bulk(eps.drop_last(), dir)
    }
}

/// Index of the first vendor-class (PICOBOOT) interface, if any.
pub open spec fn first_picoboot(ifs: Seq<InterfaceModel>) -> Option<int>
    decreases ifs.len(),
{
    if ifs.len() == 0 {
        None
    } else if ifs[0].1 == PICOBOOT_INTERFACE_CLASS {
        Some(0)
    } else {
        match first_picoboot(ifs.drop_first()) {
            Some(i) => Some(i + 1),
            None => None,
        }
    }
}

/// The PICOBOOT interface number and its bulk OUT and IN endpoint addresses: the first
/// vendor-class interface decides, with its last bulk endpoint of each direction.
pub open spec fn spec_find_picoboot(ifs: Seq<InterfaceModel>) -> Result<(u8, u8, u8), TransportError> {
    match first_picoboot(ifs) {
        None => Err(TransportError::NoPicobootInterface),
        Some(i) => match (last_bulk(ifs[i].2, EndpointDirection::Out), last_bulk(ifs[i].2, EndpointDirection::In)) {
            (Some(out), Some(inp)) => Ok((ifs[i].0, out, inp)),
            _ => Err(TransportError::NoBulkEndpoints),
        },
    }
}

/// The models of a list of interfaces.
pub open spec fn interfaces_view(ifs: Seq<InterfaceInfo>) -> Seq<InterfaceModel> {
    ifs.map_values(|i: InterfaceInfo| i@)
}

/// No interface before index `i` is vendor-class, so the search continues past them.
proof fn lemma_first_picoboot_skip(ifs: Seq<InterfaceModel>, i: int)
    requires
        0 <= i <= ifs.len(),
        forall|j: int| 0 <= j < i ==> (#[trigger] ifs[j]).1 != PICOBOOT_INTERFACE_CLASS,
    ensures
        i < ifs.len() && ifs[i].1 == PICOBOOT_INTERFACE_CLASS ==> first_picoboot(ifs) == Some(i),
        i == ifs.len() ==> first_picoboot(ifs) is None,
    decreases i,
{
    if i > 0 {
        let t = ifs.drop_first();
        assert forall|j: int| 0 <= j < i - 1 implies (#[trigger] t[j]).1 != PICOBOOT_INTERFACE_CLASS by {
            assert(t[j] == ifs[j + 1]);
        }
        lemma_first_picoboot_skip(t, i - 1);
        assert(ifs[0].1 != PICOBOOT_INTERFACE_CLASS);
        if i < ifs.len() {
            assert(t[i - 1] == ifs[i]);
        }
    }
}

/// Locate the PICOBOOT interface number and its bulk OUT/IN endpoint addresses.
pub fn find_picoboot(interfaces: &[InterfaceInfo]) -> (r: Result<(u8, u8, u8), TransportError>)
    ensures
        r == spec_find_picoboot(interfaces_view(interfaces@)),
{
    let ghost ifs = interfaces_view(interfaces@);
    let n = interfaces.len();
    for i in 0..n
        invariant
            n == interfaces@.len(),
            ifs == interfaces_view(interfaces@),
            forall|j: int| 0 <= j < i ==> (#[trigger] ifs[j]).1 != PICOBOOT_INTERFACE_CLASS,
    {
        let interface = &interfaces[i];
        assert(ifs[i as int] == interface@);
        if interface.class == PICOBOOT_INTERFACE_CLASS {
        proof {
            lemma_first_picoboot_skip(ifs, i as int);
        }
        let mut out_addr: Option<u8> = None;
        let mut in_addr: Option<u8> = None;
        let eps = &interface.endpoints;
        let m = eps.len();
        for k in 0..m
            invariant
                m == eps@.len(),
                out_addr == last_bulk(eps@.take(k as int), EndpointDirection::Out),
                in_addr == last_bulk(eps@.take(k as int), EndpointDirection::In),
        {
            let ep = eps[k];
            proof {
                assert(eps@.take(k + 1).drop_last() =~= eps@.take(k as int));
                assert(eps@.take(k + 1).last() == ep);
            }
            if ep.kind == TransferKind::Bulk {
                match ep.direction {
                    EndpointDirection::Out => out_addr = Some(ep.address),
                    EndpointDirection::In => in_addr = Some(ep.address),
                }
            }
        }
        proof {
            assert(eps@.take(m as int) =~= eps@);
        }
        return match (out_addr, in_addr) {
            (Some(out), Some(inp)) => Ok((interface.number, out, inp)),
            _ => Err(TransportError::NoBulkEndpoints),
        };
        }
    }
    proof {
        lemma_first_picoboot_skip(ifs, n as int);
    }
    Err(TransportError::NoPicobootInterface)
}

/// The length to request for a bulk IN transfer of `len` bytes: the smallest nonzero
/// multiple of the endpoint's maximum packet size that holds `len` bytes.
pub open spec fn spec_in_request_len(len: nat, max_packet: nat) -> nat {
    if len == 0 {
        max_packet
    } else {
        ((len + max_packet - 1) / max_packet as int) as nat * max_packet
    }
}

/// The length to request for a bulk IN transfer of `len` bytes (the transport requires a
/// nonzero multiple of the maximum packet size).
pub fn in_request_len(len: usize, max_packet: usize) -> (r: usize)
    requires
        max_packet > 0,
        spec_in_request_len(len as nat, max_packet as nat) <= usize::MAX,
    ensures
        r == spec_in_request_len(len as nat, max_packet as nat),
        r % max_packet == 0,
        r >= len,
        r > 0,
{
    let q = len / max_packet;
    let ghost full: int = if len % max_packet != 0 { q + 1 } else { q as int };
    proof {
        if len > 0 {
            assert(full == (len + max_packet - 1) / max_packet as int) by (nonlinear_arith)
                requires
                    len > 0,
                    max_packet > 0,
                    q == len / max_packet,
                    full == (if len % max_packet != 0 { q + 1 } else { q as int }),
            ;
            assert(full >= 1) by (nonlinear_arith)
                requires
                    len > 0,
                    max_packet > 0,
                    q == len / max_packet,
                    full == (if len % max_packet != 0 { q + 1 } else { q as int }),
            ;
            assert(full <= usize::MAX) by (nonlinear_arith)
                requires
                    full * max_packet <= usize::MAX,
                    max_packet > 0,
                    full >= 0,
            ;
        }
    }
    let rounded = if len % max_packet != 0 {
        q + 1
    } else {
        q
    };
    let packets = if rounded > 1 {
        rounded
    } else {
        1
    };
    proof {
        if len > 0 {
            assert(packets == full);
        }
        assert(packets * max_packet >= len) by (nonlinear_arith)
            requires
                max_packet > 0,
                q == len / max_packet,
                packets >= 1,
                packets >= full,
                full == (if len % max_packet != 0 { q + 1 } else { q as int }),
        ;
        assert((packets * max_packet) % (max_packet as int) == 0) by (nonlinear_arith)
            requires
                max_packet > 0,
        ;
        assert(packets * max_packet > 0) by (nonlinear_arith)
            requires
                max_packet > 0,
                packets >= 1,
        ;
    }
    packets * max_packet
}

/// Check that a bulk OUT transfer sent all `expected` bytes.
pub fn check_sent(expected: usize, actual: usize) -> (r: Result<(), TransportError>)
    ensures
        actual == expected ==> r is Ok,
        actual != expected ==> r == Err::<(), TransportError>(
            TransportError::ShortTransfer { expected, actual },
        ),
{
    if actual != expected {
        Err(TransportError::ShortTransfer { expected, actual })
    } else {
        Ok(())
    }
}

/// The first `len` bytes of a bulk IN transfer that received `data`, or a short-transfer
/// error when fewer than `len` bytes arrived.
pub fn take_received(data: Vec<u8>, len: usize) -> (r: Result<Vec<u8>, TransportError>)
    ensures
        data@.len() < len ==> r == Err::<Vec<u8>, TransportError>(
            TransportError::ShortTransfer { expected: len, actual: data@.len() as usize },
        ),
        data@.len() >= len ==> (r matches Ok(v) && v@ == data@.subrange(0, len as int)),
{
    let actual = data.len();
    if actual < len {
        return Err(TransportError::ShortTransfer { expected: len, actual });
    }
    let ghost received = data@;
    let mut data = data;
    data.truncate(len);
    assert(data@ =~= received.subrange(0, len as int));
    Ok(data)
}

} // verus!
