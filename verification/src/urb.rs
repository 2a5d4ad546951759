//! The header that usbmon puts in front of each captured packet.
//!
//! Linux USB capture header (`DLT_USB_LINUX` and `DLT_USB_LINUX_MMAPPED`):
//!
//! | offset | field       |                                                   |
//! |--------|-------------|---------------------------------------------------|
//! | 0-7    | `id`        | URB identifier                                    |
//! | 8      | `type`      | `S` submit, `C` complete, `E` error               |
//! | 9      | `xfer_type` | 0 isochronous, 1 interrupt, 2 control, 3 bulk     |
//! | 10     | `epnum`     | endpoint number, bit 7 is the direction           |
//! | 11     | `devnum`    | device address                                    |
//! | 12-13  | `busnum`    | bus number, little endian                         |

use vstd::prelude::*;

use crate::text::{decimal, push_decimal};

verus! {

/// How many bytes of a packet hold the fields that are read.
pub const HEADER_LEN: usize = 14;

/// The type byte of a completed request.
pub const COMPLETE: u8 = 67;

/// What the collector reads from a packet: one USB Request Block.
#[derive(Clone, Copy, Debug, PartialEq, Eq, Structural)]
pub struct Urb {
    pub urb_type: u8,
    pub bus: u16,
    pub device: u8,
    /// The full length of the packet on the wire, header included.
    pub len: u64,
}

impl Urb {
    /// Whether the request carried data from the device to the host: only a
    /// completed one does. All other types count as traffic to the device.
    pub open spec fn is_inbound(self) -> bool {
        self.urb_type == COMPLETE
    }

    /// The address of the device: bus number and device number.
    pub open spec fn address(self) -> (u16, u8) {
        (self.bus, self.device)
    }

    /// Decides [`Urb::is_inbound`].
    pub fn inbound(&self) -> (b: bool)
        ensures
            b == self.is_inbound(),
    {
        self.urb_type == COMPLETE
    }
}

/// The request that a packet describes, or `None` where the packet is too short
/// to hold the header fields.
pub open spec fn decoded(bytes: Seq<u8>, wire_len: u32) -> Option<Urb> {
    if bytes.len() < HEADER_LEN {
        None
    } else {
        Some(
            Urb {
                urb_type: bytes[8],
                bus: (bytes[12] + 256 * bytes[13]) as u16,
                device: bytes[11],
                len: wire_len as u64,
            },
        )
    }
}

/// Reads the header of a captured packet. `wire_len` is the length that the
/// packet had on the wire, of which only a part may have been captured.
pub fn decode(bytes: &[u8], wire_len: u32) -> (urb: Option<Urb>)
    ensures
        urb == decoded(bytes@, wire_len),
{
    // The bus and device fields end here.
    if bytes.len() < HEADER_LEN {
        return None;
    }
    let bus: u16 = (bytes[12] as u16) + 256 * (bytes[13] as u16);
    Some(Urb { urb_type: bytes[8], bus, device: bytes[11], len: wire_len as u64 })
}

/// Every bus number has a place in the header: one written there in little-endian
/// order is the one that is read.
pub proof fn lemma_bus_reads_back(bytes: Seq<u8>, wire_len: u32, bus: u16)
    requires
        bytes.len() >= HEADER_LEN,
        bytes[12] == bus % 256,
        bytes[13] == bus / 256,
    ensures
        decoded(bytes, wire_len) matches Some(urb) && urb.bus == bus,
{
}

/// A packet of at least 14 bytes is always decoded, and each field is what stands
/// in its place: the type at offset 8, the device at offset 11, the bus at offsets
/// 12 and 13 in little-endian order; the length is that on the wire.
pub proof fn lemma_fields_in_place(bytes: Seq<u8>, wire_len: u32)
    requires
        bytes.len() >= 14,
    ensures
        decoded(bytes, wire_len) matches Some(urb) && {
            &&& urb.urb_type == bytes[8]
            &&& urb.device == bytes[11]
            &&& urb.bus == bytes[12] + 256 * bytes[13]
            &&& urb.len == wire_len
        },
{
}

/// A packet of fewer than 14 bytes is never decoded.
pub proof fn lemma_short_packet_refused(bytes: Seq<u8>, wire_len: u32)
    requires
        bytes.len() < 14,
    ensures
        decoded(bytes, wire_len) is None,
{
}

/// Two packets have the same address exactly where they have the same device byte
/// and the same two bus bytes; no two devices are taken for one.
pub proof fn lemma_addresses_kept_apart(a: Seq<u8>, b: Seq<u8>, a_len: u32, b_len: u32)
    requires
        a.len() >= 14,
        b.len() >= 14,
    ensures
        decoded(a, a_len) matches Some(x) && decoded(b, b_len) matches Some(y) && (x.address()
            == y.address() <==> a[11] == b[11] && a[12] == b[12] && a[13] == b[13]),
{
}

/// The address of a request is its bus and its device, and it is inbound exactly
/// where its type is `C`.
pub proof fn lemma_address_and_direction(urb: Urb)
    ensures
        urb.address().0 == urb.bus,
        urb.address().1 == urb.device,
        urb.is_inbound() <==> urb.urb_type as char == 'C',
{
}

/// Nothing but the type, the device, the bus and the length on the wire matters.
pub proof fn lemma_other_bytes_ignored(a: Seq<u8>, b: Seq<u8>, wire_len: u32)
    requires
        a.len() >= HEADER_LEN,
        b.len() >= HEADER_LEN,
        a[8] == b[8],
        a[11] == b[11],
        a[12] == b[12],
        a[13] == b[13],
    ensures
        decoded(a, wire_len) == decoded(b, wire_len),
{
}

/// The line that logs one packet.
pub open spec fn debug_text(interface: Seq<char>, urb: Urb) -> Seq<char> {
    "[DEBUG] "@ + interface + " type="@ + seq![urb.urb_type as char] + " bus="@ + decimal(
        urb.bus as nat,
    ) + " dev="@ + decimal(urb.device as nat) + " len="@ + decimal(urb.len as nat)
}

/// What a log line is made of: the interface, then the type as a character, and the
/// bus, the device and the length in decimal, each behind its label.
pub proof fn lemma_debug_line_form(interface: Seq<char>, urb: Urb)
    ensures
        debug_text(interface, urb) == "[DEBUG] "@ + interface + " type="@ + seq![
            urb.urb_type as char,
        ] + " bus="@ + decimal(urb.bus as nat) + " dev="@ + decimal(urb.device as nat) + " len="@
            + decimal(urb.len as nat),
{
}

/// The line that logs one packet captured on `interface`.
pub fn debug_line(interface: &str, urb: Urb) -> (line: String)
    ensures
        line@ == debug_text(interface@, urb),
{
    let mut line: String = "[DEBUG] ".to_string();
    line.append(interface);
    line.append(" type=");
    line.push(urb.urb_type as char);
    line.append(" bus=");
    push_decimal(&mut line, urb.bus as u64);
    line.append(" dev=");
    push_decimal(&mut line, urb.device as u64);
    line.append(" len=");
    push_decimal(&mut line, urb.len);
    assert(line@ =~= debug_text(interface@, urb));
    line
}

} // verus!
