//! What a capture thread does with each thing that its capture hands it.

use vstd::prelude::*;
use vstd::seq_lib::{commutative_foldl, lemma_fold_left_permutation};

use crate::stats::{counted, has_room, traffic_at, StatsMap, Traffic};
use crate::urb::{decode, decoded, lemma_fields_in_place, Urb, HEADER_LEN};

verus! {

/// What a read of the capture came back with.
#[derive(Debug)]
pub enum CaptureEvent<'a> {
    /// A packet: the bytes that were captured of it, and the length that it had
    /// on the wire.
    Packet { bytes: &'a [u8], wire_len: u32 },
    /// The read timeout passed without a packet.
    TimeoutExpired,
    /// Any other error.
    Failed,
}

/// What became of an event, and so what the capture thread does next.
#[derive(Clone, Copy, Debug, PartialEq, Eq, Structural)]
pub enum CaptureOutcome {
    /// The packet was counted; read on.
    Counted(Urb),
    /// Nothing was to be counted; read on.
    Nothing,
    /// A counter cannot take in the packet; nothing was counted.
    Overflow(Urb),
    /// The capture is broken; leave the capture loop.
    Stop,
}

/// The request that an event brings, if any.
pub open spec fn urb_of(event: CaptureEvent) -> Option<Urb> {
    match event {
        CaptureEvent::Packet { bytes, wire_len } => decoded(bytes@, wire_len),
        _ => None,
    }
}

/// What an event leaves of the counters: those with its request counted, where it
/// brings one and they have room for it.
pub open spec fn stepped(counts: Map<(u16, u8), Traffic>, event: CaptureEvent) -> Map<
    (u16, u8),
    Traffic,
> {
    match urb_of(event) {
        Some(urb) => if has_room(counts, urb) {
            counted(counts, urb)
        } else {
            counts
        },
        None => counts,
    }
}

/// What a packet does to the counters. One of at least 14 bytes adds its length on
/// the wire to one counter of the device at offset 11 on the bus at offsets 12 and
/// 13: to the bytes from the device where offset 8 holds `C`, and otherwise to the
/// bytes to it. All other counters stay, and all stay where the sum exceeds 64 bits.
pub proof fn lemma_packet_adds_wire_length(
    counts: Map<(u16, u8), Traffic>,
    bytes: &[u8],
    wire_len: u32,
    address: (u16, u8),
)
    requires
        bytes@.len() >= 14,
        address.0 == bytes@[12] + 256 * bytes@[13],
        address.1 == bytes@[11],
        counts.contains_key(address) ==> counts[address].inbound <= u64::MAX
            && counts[address].outbound <= u64::MAX,
    ensures
        ({
            let after = stepped(counts, CaptureEvent::Packet { bytes, wire_len });
            let inbound = if counts.contains_key(address) {
                counts[address].inbound
            } else {
                0
            };
            let outbound = if counts.contains_key(address) {
                counts[address].outbound
            } else {
                0
            };
            &&& bytes@[8] as char == 'C' && inbound + wire_len <= u64::MAX ==> after
                == counts.insert(address, Traffic { inbound: inbound + wire_len as nat, outbound })
            &&& bytes@[8] as char == 'C' && inbound + wire_len > u64::MAX ==> after == counts
            &&& bytes@[8] as char != 'C' && outbound + wire_len <= u64::MAX ==> after
                == counts.insert(address, Traffic { inbound, outbound: outbound + wire_len as nat })
            &&& bytes@[8] as char != 'C' && outbound + wire_len > u64::MAX ==> after == counts
        }),
{
    lemma_fields_in_place(bytes@, wire_len);
}

/// Packets of fewer than 14 bytes, timeouts and errors leave the counters alone.
pub proof fn lemma_other_events_add_nothing(
    counts: Map<(u16, u8), Traffic>,
    event: CaptureEvent,
)
    requires
        event matches CaptureEvent::Packet { bytes, .. } ==> bytes@.len() < 14,
    ensures
        stepped(counts, event) == counts,
        urb_of(event) is None,
{
}

/// An event brings a request exactly where it is a packet of at least 14 bytes, and
/// then the one that the packet describes.
pub proof fn lemma_packets_bring_requests(bytes: &[u8], wire_len: u32)
    ensures
        urb_of(CaptureEvent::Packet { bytes, wire_len }) is Some <==> bytes@.len() >= 14,
        urb_of(CaptureEvent::Packet { bytes, wire_len }) matches Some(urb) ==> {
            &&& urb.urb_type == bytes@[8]
            &&& urb.device == bytes@[11]
            &&& urb.bus == bytes@[12] + 256 * bytes@[13]
            &&& urb.len == wire_len
        },
{
    if bytes@.len() >= 14 {
        lemma_fields_in_place(bytes@, wire_len);
    }
}

/// One turn of the capture loop: counts the packet, if there is one and it is
/// long enough to be told whose it is.
pub fn capture_step(stats: &mut StatsMap, event: CaptureEvent) -> (outcome: CaptureOutcome)
    requires
        old(stats).wf(),
    ensures
        final(stats).wf(),
        outcome == match urb_of(event) {
            Some(urb) => if has_room(old(stats)@, urb) {
                CaptureOutcome::Counted(urb)
            } else {
                CaptureOutcome::Overflow(urb)
            },
            None => if event is Failed {
                CaptureOutcome::Stop
            } else {
                CaptureOutcome::Nothing
            },
        },
        final(stats)@ == stepped(old(stats)@, event),
{
    match event {
        CaptureEvent::Packet { bytes, wire_len } => match decode(bytes, wire_len) {
            Some(urb) => {
                if stats.room_for(&urb) {
                    stats.record(&urb);
                    CaptureOutcome::Counted(urb)
                } else {
                    CaptureOutcome::Overflow(urb)
                }
            },
            None => CaptureOutcome::Nothing,
        },
        CaptureEvent::TimeoutExpired => CaptureOutcome::Nothing,
        CaptureEvent::Failed => CaptureOutcome::Stop,
    }
}

/// Whether the capture thread reads on after a turn of its loop: unless a stop is
/// asked for, as long as the turn counted a packet or had nothing to count.
pub fn capture_goes_on(stop: bool, last: CaptureOutcome) -> (b: bool)
    ensures
        b == (!stop && (last is Counted || last is Nothing)),
{
    if stop {
        return false;
    }
    match last {
        CaptureOutcome::Counted(_) => true,
        CaptureOutcome::Nothing => true,
        CaptureOutcome::Overflow(_) => false,
        CaptureOutcome::Stop => false,
    }
}

// ---------------------------------------------------------------------------
// What a run of events amounts to
// ---------------------------------------------------------------------------

/// What these events leave of the counters, one after the other.
pub open spec fn after_events(counts: Map<(u16, u8), Traffic>, events: Seq<CaptureEvent>) -> Map<
    (u16, u8),
    Traffic,
> {
    events.fold_left(
        counts,
        |counts: Map<(u16, u8), Traffic>, event: CaptureEvent| stepped(counts, event),
    )
}

/// Whether the event is a packet for this device.
pub open spec fn is_for(event: CaptureEvent, address: (u16, u8)) -> bool {
    urb_of(event) matches Some(urb) && urb.address() == address
}

/// The bytes that the event moved from (`inbound`) or to the device: the length on
/// the wire of a packet for that device in that direction, nothing otherwise.
pub open spec fn wire_len_for(event: CaptureEvent, address: (u16, u8), inbound: bool) -> nat {
    match urb_of(event) {
        Some(urb) => if urb.address() == address && urb.is_inbound() == inbound {
            urb.len as nat
        } else {
            0
        },
        None => 0,
    }
}

/// The bytes that these events moved from (`inbound`) or to the device.
pub open spec fn wire_bytes(events: Seq<CaptureEvent>, address: (u16, u8), inbound: bool) -> nat {
    events.fold_left(
        0nat,
        |sum: nat, event: CaptureEvent| sum + wire_len_for(event, address, inbound),
    )
}

/// What the device transferred after these events, in numbers without a limit.
pub open spec fn traffic_after(
    counts: Map<(u16, u8), Traffic>,
    events: Seq<CaptureEvent>,
    address: (u16, u8),
) -> Traffic {
    Traffic {
        inbound: traffic_at(counts, address).inbound + wire_bytes(events, address, true),
        outbound: traffic_at(counts, address).outbound + wire_bytes(events, address, false),
    }
}

/// Whether 64-bit counters can hold what every device transferred after these
/// events.
pub open spec fn events_fit(counts: Map<(u16, u8), Traffic>, events: Seq<CaptureEvent>) -> bool {
    forall|address: (u16, u8)| (#[trigger] traffic_after(counts, events, address)).fits()
}

proof fn lemma_after_last(counts: Map<(u16, u8), Traffic>, events: Seq<CaptureEvent>)
    requires
        events.len() > 0,
    ensures
        after_events(counts, events) == stepped(
            after_events(counts, events.drop_last()),
            events.last(),
        ),
        forall|address: (u16, u8), inbound: bool| #[trigger]
            wire_bytes(events, address, inbound) == wire_bytes(events.drop_last(), address, inbound)
                + wire_len_for(events.last(), address, inbound),
{
    reveal_with_fuel(Seq::fold_left, 2);
}

/// The bytes that events moved add up event by event: the length on the wire of
/// each packet of at least 14 bytes that is of this device and direction counts,
/// and nothing else.
pub proof fn lemma_wire_bytes_add_up(
    events: Seq<CaptureEvent>,
    event: CaptureEvent,
    address: (u16, u8),
    inbound: bool,
)
    ensures
        wire_bytes(Seq::empty(), address, inbound) == 0,
        wire_bytes(events.push(event), address, inbound) == wire_bytes(events, address, inbound)
            + match event {
            CaptureEvent::Packet { bytes, wire_len } => if bytes@.len() >= 14 && bytes@[12] + 256
                * bytes@[13] == address.0 && bytes@[11] == address.1 && (bytes@[8] as char == 'C')
                == inbound {
                wire_len as int
            } else {
                0
            },
            _ => 0,
        },
{
    lemma_no_events(Map::empty());
    lemma_after_last(Map::empty(), events.push(event));
    assert(events.push(event).drop_last() =~= events);
    if let CaptureEvent::Packet { bytes, wire_len } = event {
        if bytes@.len() >= 14 {
            lemma_fields_in_place(bytes@, wire_len);
        }
    }
}

/// A run of events is taken in one after the other.
pub proof fn lemma_events_one_by_one(
    counts: Map<(u16, u8), Traffic>,
    events: Seq<CaptureEvent>,
    event: CaptureEvent,
)
    ensures
        after_events(counts, Seq::empty()) == counts,
        after_events(counts, events.push(event)) == stepped(after_events(counts, events), event),
{
    lemma_no_events(counts);
    lemma_after_last(counts, events.push(event));
    assert(events.push(event).drop_last() =~= events);
}

proof fn lemma_no_events(counts: Map<(u16, u8), Traffic>)
    ensures
        after_events(counts, Seq::empty()) == counts,
        forall|address: (u16, u8), inbound: bool| #[trigger]
            wire_bytes(Seq::empty(), address, inbound) == 0,
{
    reveal_with_fuel(Seq::fold_left, 1);
}

/// Whatever the counters held before, a run of events adds to each of them the
/// lengths on the wire of the packets that it is for, and gives an entry to the
/// devices of these packets and to no other.
pub proof fn lemma_events_add_up(
    counts: Map<(u16, u8), Traffic>,
    events: Seq<CaptureEvent>,
    address: (u16, u8),
)
    requires
        events_fit(counts, events),
    ensures
        traffic_at(after_events(counts, events), address) == traffic_after(counts, events, address),
        after_events(counts, events).contains_key(address) <==> counts.contains_key(address)
            || exists|i: int| 0 <= i < events.len() && is_for(#[trigger] events[i], address),
    decreases events.len(),
{
    if events.len() == 0 {
        assert(events =~= Seq::empty());
        lemma_no_events(counts);
    } else {
        let earlier = events.drop_last();
        let last = events.last();
        lemma_after_last(counts, events);
        assert forall|a: (u16, u8)| (#[trigger] traffic_after(counts, earlier, a)).fits() by {
            assert(traffic_after(counts, events, a).fits());
        }
        lemma_events_add_up(counts, earlier, address);
        if let Some(urb) = urb_of(last) {
            lemma_events_add_up(counts, earlier, urb.address());
            assert(traffic_after(counts, events, urb.address()).fits());
            assert(has_room(after_events(counts, earlier), urb));
        }
        if exists|i: int| 0 <= i < events.len() && is_for(#[trigger] events[i], address) {
            let i = choose|i: int| 0 <= i < events.len() && is_for(#[trigger] events[i], address);
            if i < earlier.len() {
                assert(is_for(earlier[i], address));
            }
        }
        if exists|i: int| 0 <= i < earlier.len() && is_for(#[trigger] earlier[i], address) {
            let i = choose|i: int| 0 <= i < earlier.len() && is_for(#[trigger] earlier[i], address);
            assert(is_for(events[i], address));
        }
        if is_for(last, address) {
            assert(is_for(events[events.len() - 1], address));
        }
    }
}

/// Moving the events of a run around does not change how many bytes they moved.
pub proof fn lemma_wire_bytes_ignore_order(
    a: Seq<CaptureEvent>,
    b: Seq<CaptureEvent>,
    address: (u16, u8),
    inbound: bool,
)
    requires
        a.to_multiset() == b.to_multiset(),
    ensures
        wire_bytes(a, address, inbound) == wire_bytes(b, address, inbound),
{
    let add_len = |sum: nat, event: CaptureEvent| sum + wire_len_for(event, address, inbound);
    assert(commutative_foldl(add_len));
    lemma_fold_left_permutation(a, b, add_len, 0nat);
}

/// Whatever the counters held before, the order in which the events come does not
/// matter to what they leave.
pub proof fn lemma_events_ignore_order(
    counts: Map<(u16, u8), Traffic>,
    a: Seq<CaptureEvent>,
    b: Seq<CaptureEvent>,
)
    requires
        a.to_multiset() == b.to_multiset(),
        events_fit(counts, a),
    ensures
        after_events(counts, a) == after_events(counts, b),
{
    assert forall|address: (u16, u8)| traffic_after(counts, a, address) == #[trigger] traffic_after(
        counts,
        b,
        address,
    ) by {
        lemma_wire_bytes_ignore_order(a, b, address, true);
        lemma_wire_bytes_ignore_order(a, b, address, false);
    }
    assert forall|address: (u16, u8)| (#[trigger] traffic_after(counts, b, address)).fits() by {
        assert(traffic_after(counts, a, address).fits());
    }
    assert forall|address: (u16, u8)|
        {
            &&& #[trigger] after_events(counts, a).contains_key(address) == after_events(
                counts,
                b,
            ).contains_key(address)
            &&& traffic_at(after_events(counts, a), address) == traffic_at(
                after_events(counts, b),
                address,
            )
        } by {
        lemma_events_add_up(counts, a, address);
        lemma_events_add_up(counts, b, address);
        lemma_device_in_any_order(a, b, address);
        lemma_device_in_any_order(b, a, address);
    }
    assert(after_events(counts, a) =~= after_events(counts, b));
}

proof fn lemma_device_in_any_order(
    a: Seq<CaptureEvent>,
    b: Seq<CaptureEvent>,
    address: (u16, u8),
)
    requires
        a.to_multiset() == b.to_multiset(),
    ensures
        (exists|i: int| 0 <= i < a.len() && is_for(#[trigger] a[i], address)) ==> exists|i: int|
            0 <= i < b.len() && is_for(#[trigger] b[i], address),
{
    a.to_multiset_ensures();
    b.to_multiset_ensures();
    if exists|i: int| 0 <= i < a.len() && is_for(#[trigger] a[i], address) {
        let i = choose|i: int| 0 <= i < a.len() && is_for(#[trigger] a[i], address);
        assert(a.contains(a[i]));
        assert(a.to_multiset().count(a[i]) > 0);
        assert(b.contains(a[i]));
    }
}

/// Whether the event is a packet long enough to be told whose it is.
pub open spec fn is_counted(event: CaptureEvent) -> bool {
    event matches CaptureEvent::Packet { bytes, .. } && bytes@.len() >= HEADER_LEN
}

/// Packets that are too short, timeouts and errors do not matter to what a run of
/// events leaves of the counters: leaving them out makes no difference.
pub proof fn lemma_idle_events_ignored(
    counts: Map<(u16, u8), Traffic>,
    events: Seq<CaptureEvent>,
)
    ensures
        after_events(counts, events) == after_events(
            counts,
            events.filter(|event: CaptureEvent| is_counted(event)),
        ),
    decreases events.len(),
{
    let is_kept = |event: CaptureEvent| is_counted(event);
    reveal(Seq::filter);
    if events.len() > 0 {
        let earlier = events.drop_last();
        let kept = earlier.filter(is_kept);
        lemma_idle_events_ignored(counts, earlier);
        lemma_after_last(counts, events);
        if is_counted(events.last()) {
            lemma_after_last(counts, kept.push(events.last()));
            assert(kept.push(events.last()).drop_last() =~= kept);
        }
    }
}

} // verus!
