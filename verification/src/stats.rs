//! Byte counters per device.

use std::collections::HashMap;

use vstd::prelude::*;
use vstd::seq_lib::{commutative_foldl, lemma_fold_left_permutation};
use vstd::std_specs::hash::group_hash_axioms;

use crate::urb::Urb;

verus! {

broadcast use group_hash_axioms;

/// What one device transferred, as numbers.
pub struct Traffic {
    pub inbound: nat,
    pub outbound: nat,
}

impl Traffic {
    /// No traffic.
    pub open spec fn none() -> Traffic {
        Traffic { inbound: 0, outbound: 0 }
    }

    /// This traffic and one request more.
    pub open spec fn with(self, urb: Urb) -> Traffic {
        if urb.is_inbound() {
            Traffic { inbound: self.inbound + urb.len as nat, outbound: self.outbound }
        } else {
            Traffic { inbound: self.inbound, outbound: self.outbound + urb.len as nat }
        }
    }

    /// Whether 64-bit counters can hold this traffic.
    pub open spec fn fits(self) -> bool {
        self.inbound <= u64::MAX && self.outbound <= u64::MAX
    }
}

/// The byte counters of one device.
#[derive(Clone, Copy, Debug, PartialEq, Eq, Structural)]
pub struct DeviceStats {
    /// Bytes from the device to the host: completed requests.
    pub in_bytes: u64,
    /// Bytes from the host to the device: all other requests.
    pub out_bytes: u64,
}

impl View for DeviceStats {
    type V = Traffic;

    open spec fn view(&self) -> Traffic {
        Traffic { inbound: self.in_bytes as nat, outbound: self.out_bytes as nat }
    }
}

impl Default for DeviceStats {
    fn default() -> (stats: DeviceStats)
        ensures
            stats@ == Traffic::none(),
            stats.in_bytes == 0 && stats.out_bytes == 0,
    {
        DeviceStats { in_bytes: 0, out_bytes: 0 }
    }
}

/// The traffic of the device with this address, none where it has no entry.
pub open spec fn traffic_at(counts: Map<(u16, u8), Traffic>, address: (u16, u8)) -> Traffic {
    if counts.contains_key(address) {
        counts[address]
    } else {
        Traffic::none()
    }
}

/// The counters after one request more.
pub open spec fn counted(counts: Map<(u16, u8), Traffic>, urb: Urb) -> Map<(u16, u8), Traffic> {
    counts.insert(urb.address(), traffic_at(counts, urb.address()).with(urb))
}

/// Whether the counters can take in the request.
pub open spec fn has_room(counts: Map<(u16, u8), Traffic>, urb: Urb) -> bool {
    traffic_at(counts, urb.address()).with(urb).fits()
}

/// The counters of one device, with its address.
#[derive(Clone, Copy, Debug, PartialEq, Eq, Structural)]
pub struct DeviceRecord {
    pub bus: u16,
    pub device: u8,
    pub stats: DeviceStats,
}

impl DeviceRecord {
    /// The address of the device: bus number and device number.
    pub open spec fn address(self) -> (u16, u8) {
        (self.bus, self.device)
    }
}

/// Byte counters by device, accumulated within one reporting interval.
pub struct StatsMap {
    counters: HashMap<u32, DeviceStats>,
}

/// An address as one number.
spec fn code_of(address: (u16, u8)) -> u32 {
    (address.0 * 256 + address.1) as u32
}

/// Whether every record has the counters that the table holds for it, and no two
/// are of the same device.
spec fn is_partial_list(counters: Map<u32, DeviceStats>, records: Seq<DeviceRecord>) -> bool {
    &&& forall|i: int|
        0 <= i < records.len() ==> {
            let code = code_of((#[trigger] records[i]).address());
            counters.contains_key(code) && counters[code] == records[i].stats
        }
    &&& forall|i: int, j: int|
        0 <= i < j < records.len() ==> (#[trigger] records[i]).address() != (
        #[trigger] records[j]).address()
}

/// Whether every entry of the table has a record.
spec fn is_full_list(counters: Map<u32, DeviceStats>, records: Seq<DeviceRecord>) -> bool {
    forall|c: u32| #[trigger]
        counters.contains_key(c) ==> exists|i: int|
            0 <= i < records.len() && code_of((#[trigger] records[i]).address()) == c
}

impl View for StatsMap {
    type V = Map<(u16, u8), Traffic>;

    closed spec fn view(&self) -> Map<(u16, u8), Traffic> {
        Map::new(
            |address: (u16, u8)| self.counters@.contains_key(code_of(address)),
            |address: (u16, u8)| self.counters@[code_of(address)]@,
        )
    }
}

impl StatsMap {
    /// Whether every key of the table is the number of an address.
    pub closed spec fn wf(self) -> bool {
        forall|code: u32| #[trigger] self.counters@.contains_key(code) ==> code < 0x100_0000
    }

    /// Counters without any device.
    pub fn new() -> (stats: StatsMap)
        ensures
            stats.wf(),
            stats@ == Map::<(u16, u8), Traffic>::empty(),
    {
        let stats = StatsMap { counters: HashMap::new() };
        assert(stats@ =~= Map::<(u16, u8), Traffic>::empty());
        stats
    }

    /// The counters of one device, zero where it has no entry.
    pub fn device_stats(&self, bus: u16, device: u8) -> (stats: DeviceStats)
        requires
            self.wf(),
        ensures
            stats@ == traffic_at(self@, (bus, device)),
            self@.contains_key((bus, device)) ==> stats.in_bytes == self@[(bus, device)].inbound
                && stats.out_bytes == self@[(bus, device)].outbound,
            !self@.contains_key((bus, device)) ==> stats.in_bytes == 0 && stats.out_bytes == 0,
    {
        let code: u32 = (bus as u32) * 256 + (device as u32);
        assert(code == code_of((bus, device)));
        match self.counters.get(&code) {
            Some(stats) => *stats,
            None => DeviceStats::default(),
        }
    }

    /// Whether the counters can take in a request without overflow.
    pub fn room_for(&self, urb: &Urb) -> (b: bool)
        requires
            self.wf(),
        ensures
            b == has_room(self@, *urb),
    {
        let stats = self.device_stats(urb.bus, urb.device);
        if urb.inbound() {
            stats.in_bytes <= u64::MAX - urb.len
        } else {
            stats.out_bytes <= u64::MAX - urb.len
        }
    }

    /// Adds the length of a request to the counter of its device and direction.
    pub fn record(&mut self, urb: &Urb)
        requires
            old(self).wf(),
            has_room(old(self)@, *urb),
        ensures
            final(self).wf(),
            final(self)@ == counted(old(self)@, *urb),
    {
        let mut stats = self.device_stats(urb.bus, urb.device);
        if urb.inbound() {
            stats.in_bytes = stats.in_bytes + urb.len;
        } else {
            stats.out_bytes = stats.out_bytes + urb.len;
        }
        let code: u32 = (urb.bus as u32) * 256 + (urb.device as u32);
        assert(code == code_of(urb.address()));
        self.counters.insert(code, stats);
        assert(self@ =~= counted(old(self)@, *urb));
    }

    /// Takes all counters out, so that the next interval starts without any.
    pub fn snapshot(&mut self) -> (taken: StatsMap)
        requires
            old(self).wf(),
        ensures
            taken.wf(),
            taken@ == old(self)@,
            final(self).wf(),
            final(self)@ == Map::<(u16, u8), Traffic>::empty(),
    {
        let taken = StatsMap { counters: self.counters.clone() };
        self.counters.clear();
        assert(self@ =~= Map::<(u16, u8), Traffic>::empty());
        taken
    }

    /// Whether `records` lists these counters: each device once, with its
    /// counters, and no other device. The order is left open.
    pub open spec fn is_listed_by(self, records: Seq<DeviceRecord>) -> bool {
        &&& forall|i: int|
            0 <= i < records.len() ==> {
                let record = #[trigger] records[i];
                self@.contains_key(record.address()) && self@[record.address()] == record.stats@
            }
        &&& forall|i: int, j: int|
            0 <= i < j < records.len() ==> (#[trigger] records[i]).address() != (
            #[trigger] records[j]).address()
        &&& forall|address: (u16, u8)| #[trigger]
            self@.contains_key(address) ==> exists|i: int|
                0 <= i < records.len() && (#[trigger] records[i]).address() == address
    }

    /// The counters as a list, in no particular order.
    pub fn records(&self) -> (records: Vec<DeviceRecord>)
        requires
            self.wf(),
        ensures
            self.is_listed_by(records@),
    {
        let mut records: Vec<DeviceRecord> = Vec::new();
        let ghost counters = self.counters@;
        for (code, stats) in it: self.counters.iter()
            invariant
                self.wf(),
                counters == self.counters@,
                it.seq().no_duplicates(),
                forall|i: int|
                    0 <= i < it.seq().len() ==> counters.contains_key(*(#[trigger] it.seq()[i]).0)
                        && counters[*it.seq()[i].0] == *it.seq()[i].1,
                forall|c: u32| #[trigger]
                    counters.contains_key(c) ==> it.seq().contains((&c, &counters[c])),
                records@.len() == it.index(),
                forall|i: int|
                    #![trigger records@[i]]
                    #![trigger it.seq()[i]]
                    0 <= i < records@.len() ==> {
                        &&& code_of(records@[i].address()) == *it.seq()[i].0
                        &&& records@[i].stats == *it.seq()[i].1
                    },
                is_partial_list(counters, records@),
                it.index() == it.seq().len() ==> is_full_list(counters, records@),
        {
            assert((code, stats) == it.seq()[it.index() as int]);
            assert(counters.contains_key(*code));
            let bus: u16 = (*code / 256) as u16;
            let device: u8 = (*code % 256) as u8;
            let ghost before = records@;
            records.push(DeviceRecord { bus, device, stats: *stats });
            proof {
                let n = before.len() as int;
                assert forall|i: int| 0 <= i < n implies (#[trigger] records@[i]).address()
                    != records@[n].address() by {
                    assert(records@[i] == before[i]);
                    assert(it.seq()[i] != it.seq()[n]);
                }
            }
            assert forall|i: int| 0 <= i < records@.len() implies code_of(records@[i].address())
                == *(#[trigger] it.seq()[i]).0 by {
                assert(i < before.len() ==> records@[i] == before[i]);
            }
            assert forall|c: u32|
                records@.len() == it.seq().len() && #[trigger] counters.contains_key(c) implies exists|
                i: int,
            |
                0 <= i < records@.len() && code_of((#[trigger] records@[i]).address()) == c by {
                assert(it.seq().contains((&c, &counters[c])));
                assert(exists|i: int|
                    0 <= i < it.seq().len() && #[trigger] it.seq()[i] == (&c, &counters[c])
                        && code_of(records@[i].address()) == c);
            }
        }
        proof {
            assert forall|address: (u16, u8)| #[trigger] self@.contains_key(address) implies exists|
                i: int,
            |
                0 <= i < records@.len() && (#[trigger] records@[i]).address() == address by {
                assert(counters.contains_key(code_of(address)));
                let i = choose|i: int|
                    0 <= i < records@.len() && code_of((#[trigger] records@[i]).address()) == code_of(
                        address,
                    );
                assert(records@[i].address() == address);
            }
        }
        records
    }
}

/// A listing names each device that has counters, exactly once and with these
/// counters, and no device that has none.
pub proof fn lemma_listing_is_complete(
    stats: StatsMap,
    records: Seq<DeviceRecord>,
    address: (u16, u8),
)
    requires
        stats.is_listed_by(records),
    ensures
        stats@.contains_key(address) <==> exists|i: int|
            0 <= i < records.len() && (#[trigger] records[i]).bus == address.0 && records[i].device
                == address.1,
        forall|i: int|
            0 <= i < records.len() && (#[trigger] records[i]).bus == address.0 && records[i].device
                == address.1 ==> records[i].stats.in_bytes == stats@[address].inbound
                && records[i].stats.out_bytes == stats@[address].outbound,
        forall|i: int, j: int|
            0 <= i < j < records.len() ==> (#[trigger] records[i]).bus != (#[trigger] records[j]).bus
                || records[i].device != records[j].device,
{
    if stats@.contains_key(address) {
        let i = choose|i: int| 0 <= i < records.len() && (#[trigger] records[i]).address() == address;
        assert(records[i].bus == address.0);
    }
    assert forall|i: int|
        0 <= i < records.len() && (#[trigger] records[i]).bus == address.0 && records[i].device
            == address.1 implies records[i].stats.in_bytes == stats@[address].inbound
        && records[i].stats.out_bytes == stats@[address].outbound by {
        assert(records[i].address() == address);
    }
    assert forall|i: int, j: int| 0 <= i < j < records.len() implies (#[trigger] records[i]).bus != (
    #[trigger] records[j]).bus || records[i].device != records[j].device by {
        assert(records[i].address() != records[j].address());
    }
}

/// A listing is empty exactly when no device was active.
pub proof fn lemma_listing_empty_iff_idle(stats: StatsMap, records: Seq<DeviceRecord>)
    requires
        stats.is_listed_by(records),
    ensures
        records.len() == 0 <==> stats@ == Map::<(u16, u8), Traffic>::empty(),
{
    if records.len() == 0 {
        assert(stats@ =~= Map::<(u16, u8), Traffic>::empty());
    } else {
        assert(stats@.contains_key(records[0].address()));
    }
}

// ---------------------------------------------------------------------------
// What the counters of an interval amount to
// ---------------------------------------------------------------------------

/// The counters that come of recording these requests one after the other.
pub open spec fn tally(urbs: Seq<Urb>) -> Map<(u16, u8), Traffic> {
    urbs.fold_left(
        Map::<(u16, u8), Traffic>::empty(),
        |counts: Map<(u16, u8), Traffic>, urb: Urb| counted(counts, urb),
    )
}

/// The bytes that these requests moved from (`inbound`) or to a device.
pub open spec fn bytes_of(urbs: Seq<Urb>, address: (u16, u8), inbound: bool) -> nat
    decreases urbs.len(),
{
    if urbs.len() == 0 {
        0
    } else {
        let urb = urbs.last();
        bytes_of(urbs.drop_last(), address, inbound) + if urb.address() == address
            && urb.is_inbound() == inbound {
            urb.len as nat
        } else {
            0
        }
    }
}

/// The bytes that requests moved add up request by request: the length of each one
/// that is of this device and direction counts, and no other.
pub proof fn lemma_bytes_add_up(urbs: Seq<Urb>, urb: Urb, address: (u16, u8), inbound: bool)
    ensures
        bytes_of(Seq::empty(), address, inbound) == 0,
        bytes_of(urbs.push(urb), address, inbound) == bytes_of(urbs, address, inbound) + if urb.bus
            == address.0 && urb.device == address.1 && (urb.urb_type as char == 'C') == inbound {
            urb.len as int
        } else {
            0
        },
{
    assert(urbs.push(urb).drop_last() =~= urbs);
}

/// No requests, no counters.
pub proof fn lemma_tally_empty()
    ensures
        tally(Seq::empty()) == Map::<(u16, u8), Traffic>::empty(),
{
    reveal_with_fuel(Seq::fold_left, 1);
}

/// Recording one request more is a step of the tally.
pub proof fn lemma_tally_push(urbs: Seq<Urb>, urb: Urb)
    ensures
        tally(urbs.push(urb)) == counted(tally(urbs), urb),
{
    reveal_with_fuel(Seq::fold_left, 2);
    assert(urbs.push(urb).drop_last() =~= urbs);
}

/// A request changes the counters of its own device only, and of those only the
/// one for its direction.
pub proof fn lemma_other_counters_kept(
    counts: Map<(u16, u8), Traffic>,
    urb: Urb,
    address: (u16, u8),
)
    ensures
        address != urb.address() ==> traffic_at(counted(counts, urb), address) == traffic_at(
            counts,
            address,
        ) && counted(counts, urb).contains_key(address) == counts.contains_key(address),
        urb.is_inbound() ==> traffic_at(counted(counts, urb), address).outbound == traffic_at(
            counts,
            address,
        ).outbound,
        !urb.is_inbound() ==> traffic_at(counted(counts, urb), address).inbound == traffic_at(
            counts,
            address,
        ).inbound,
{
}

/// What recording a request does to the table: the device of the request has an
/// entry afterwards, in which the length is added to the bytes from the device where
/// the type is `C` and to the bytes to the device otherwise; everything else stays.
/// A device without an entry starts from zero.
pub proof fn lemma_recording_adds_length(counts: Map<(u16, u8), Traffic>, urb: Urb)
    ensures
        ({
            let address = (urb.bus, urb.device);
            let after = counted(counts, urb);
            let before_in = if counts.contains_key(address) {
                counts[address].inbound
            } else {
                0
            };
            let before_out = if counts.contains_key(address) {
                counts[address].outbound
            } else {
                0
            };
            &&& after.dom() == counts.dom().insert(address)
            &&& forall|other: (u16, u8)| #[trigger]
                counts.contains_key(other) && other != address ==> after[other] == counts[other]
            &&& urb.urb_type as char == 'C' ==> after[address].inbound == before_in + urb.len
                && after[address].outbound == before_out
            &&& urb.urb_type as char != 'C' ==> after[address].inbound == before_in
                && after[address].outbound == before_out + urb.len
        }),
{
}

/// There is room for a request exactly where the counter that it is for stays
/// within 64 bits. Counters that are within them are kept so.
pub proof fn lemma_room_is_64_bits(counts: Map<(u16, u8), Traffic>, urb: Urb)
    requires
        counts.contains_key((urb.bus, urb.device)) ==> counts[(urb.bus, urb.device)].inbound
            <= u64::MAX && counts[(urb.bus, urb.device)].outbound <= u64::MAX,
    ensures
        ({
            let after = counted(counts, urb)[(urb.bus, urb.device)];
            has_room(counts, urb) <==> if urb.urb_type as char == 'C' {
                after.inbound < 0x1_0000_0000_0000_0000
            } else {
                after.outbound < 0x1_0000_0000_0000_0000
            }
        }),
{
}

/// Two requests can be recorded in either order.
pub proof fn lemma_counting_commutes(counts: Map<(u16, u8), Traffic>, a: Urb, b: Urb)
    ensures
        counted(counted(counts, a), b) == counted(counted(counts, b), a),
{
    assert(counted(counted(counts, a), b) =~= counted(counted(counts, b), a));
}

/// The counters do not depend on how the requests of several capture threads
/// interleave: the same requests in any order give the same counters.
pub proof fn lemma_tally_ignores_order(a: Seq<Urb>, b: Seq<Urb>)
    requires
        a.to_multiset() == b.to_multiset(),
    ensures
        tally(a) == tally(b),
{
    let step = |counts: Map<(u16, u8), Traffic>, urb: Urb| counted(counts, urb);
    assert(commutative_foldl(step)) by {
        assert forall|x: Urb, y: Urb, v: Map<(u16, u8), Traffic>| #[trigger]
            step(step(v, x), y) == step(step(v, y), x) by {
            lemma_counting_commutes(v, x, y);
        }
    }
    lemma_fold_left_permutation(a, b, step, Map::<(u16, u8), Traffic>::empty());
}

/// The counters are sums: each device that a request was for has an entry, no
/// other has, and each counter is the total length of the requests it is for.
pub proof fn lemma_tally_is_sum(urbs: Seq<Urb>, address: (u16, u8))
    ensures
        tally(urbs).contains_key(address) <==> exists|i: int|
            0 <= i < urbs.len() && (#[trigger] urbs[i]).address() == address,
        traffic_at(tally(urbs), address) == (Traffic {
            inbound: bytes_of(urbs, address, true),
            outbound: bytes_of(urbs, address, false),
        }),
    decreases urbs.len(),
{
    if urbs.len() == 0 {
        lemma_tally_empty();
        assert(urbs =~= Seq::empty());
    } else {
        let earlier = urbs.drop_last();
        lemma_tally_is_sum(earlier, address);
        lemma_tally_push(earlier, urbs.last());
        assert(earlier.push(urbs.last()) =~= urbs);
        if tally(urbs).contains_key(address) {
            if urbs.last().address() == address {
                assert(urbs[urbs.len() - 1].address() == address);
            } else {
                let i = choose|i: int|
                    0 <= i < earlier.len() && (#[trigger] earlier[i]).address() == address;
                assert(urbs[i] == earlier[i]);
            }
        } else {
            assert forall|i: int| 0 <= i < urbs.len() implies (#[trigger] urbs[i]).address()
                != address by {
                if i < urbs.len() - 1 {
                    assert(earlier[i] == urbs[i]);
                }
            }
        }
    }
}

/// Cutting the stream of requests into intervals neither loses a byte nor counts
/// one twice: what two intervals in a row report adds up.
pub proof fn lemma_intervals_add_up(first: Seq<Urb>, second: Seq<Urb>, address: (u16, u8))
    ensures
        traffic_at(tally(first + second), address) == (Traffic {
            inbound: traffic_at(tally(first), address).inbound + traffic_at(
                tally(second),
                address,
            ).inbound,
            outbound: traffic_at(tally(first), address).outbound + traffic_at(
                tally(second),
                address,
            ).outbound,
        }),
{
    lemma_tally_is_sum(first, address);
    lemma_tally_is_sum(second, address);
    lemma_tally_is_sum(first + second, address);
    lemma_bytes_concat(first, second, address, true);
    lemma_bytes_concat(first, second, address, false);
}

proof fn lemma_bytes_concat(
    first: Seq<Urb>,
    second: Seq<Urb>,
    address: (u16, u8),
    inbound: bool,
)
    ensures
        bytes_of(first + second, address, inbound) == bytes_of(first, address, inbound) + bytes_of(
            second,
            address,
            inbound,
        ),
    decreases second.len(),
{
    if second.len() == 0 {
        assert(first + second =~= first);
    } else {
        lemma_bytes_concat(first, second.drop_last(), address, inbound);
        assert((first + second).drop_last() =~= first + second.drop_last());
    }
}

/// What is reported of a device is what its requests add up to: in a listing of
/// the counters that these requests gave, each record holds the total lengths of
/// the requests for its device, of which there is at least one.
pub proof fn lemma_report_is_sum(
    stats: StatsMap,
    urbs: Seq<Urb>,
    records: Seq<DeviceRecord>,
    i: int,
)
    requires
        stats@ == tally(urbs),
        stats.is_listed_by(records),
        0 <= i < records.len(),
    ensures
        records[i].stats.in_bytes == bytes_of(urbs, records[i].address(), true),
        records[i].stats.out_bytes == bytes_of(urbs, records[i].address(), false),
        exists|j: int|
            0 <= j < urbs.len() && (#[trigger] urbs[j]).address() == records[i].address(),
{
    lemma_tally_is_sum(urbs, records[i].address());
}

} // verus!
