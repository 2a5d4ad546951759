//! Device names from what sysfs says of the devices on the bus.
//!
//! `/sys/bus/usb/devices` has one entry per enumerated device. An entry has the
//! attributes `busnum`, `devnum` and optionally `product`, and the vendor and
//! product codes `idVendor` and `idProduct`.

use vstd::prelude::*;

use crate::text::{parse_unsigned, trim, trimmed, unsigned};

verus! {

/// The attributes of one sysfs entry, each as its file holds it, or `None` where
/// there is no such file or it cannot be read as text.
#[derive(Debug)]
pub struct DeviceEntry {
    pub busnum: Option<String>,
    pub devnum: Option<String>,
    pub product: Option<String>,
    pub id_vendor: Option<String>,
    pub id_product: Option<String>,
}

/// The number that an attribute holds, if it is one of at most `max`.
pub open spec fn attribute_number(attribute: Option<String>, max: nat) -> Option<nat> {
    match attribute {
        Some(text) => unsigned(trimmed(text@), max),
        None => None,
    }
}

/// The text that an attribute holds, without surrounding white space.
pub open spec fn attribute_text(attribute: Option<String>) -> Seq<char> {
    match attribute {
        Some(text) => trimmed(text@),
        None => Seq::empty(),
    }
}

impl DeviceEntry {
    /// Whether the entry is that of the device with this address.
    pub open spec fn is_at(self, bus: u16, device: u8) -> bool {
        &&& attribute_number(self.busnum, u16::MAX as nat) == Some(bus as nat)
        &&& attribute_number(self.devnum, u8::MAX as nat) == Some(device as nat)
    }

    /// The name that the entry gives its device: the product text, or else the
    /// vendor and product codes; an entry with neither gives none.
    pub open spec fn name(self) -> Option<Seq<char>> {
        if attribute_text(self.product).len() > 0 {
            Some(attribute_text(self.product))
        } else if attribute_text(self.id_vendor).len() > 0 {
            Some(attribute_text(self.id_vendor) + seq![':'] + attribute_text(self.id_product))
        } else {
            None
        }
    }
}

/// The name of a device: that of the first entry at its address which gives one,
/// or the empty text.
pub open spec fn device_name(entries: Seq<DeviceEntry>, bus: u16, device: u8) -> Seq<char>
    decreases entries.len(),
{
    if entries.len() == 0 {
        Seq::empty()
    } else if entries[0].is_at(bus, device) && entries[0].name() is Some {
        entries[0].name()->0
    } else {
        device_name(entries.drop_first(), bus, device)
    }
}

fn number_of(attribute: &Option<String>, max: u64) -> (n: Option<u64>)
    ensures
        n is Some <==> attribute_number(*attribute, max as nat) is Some,
        n matches Some(v) ==> attribute_number(*attribute, max as nat) == Some(v as nat),
{
    match attribute {
        Some(text) => parse_unsigned(trim(text.as_str()).as_str(), max),
        None => None,
    }
}

fn text_of(attribute: &Option<String>) -> (t: String)
    ensures
        t@ == attribute_text(*attribute),
{
    match attribute {
        Some(text) => trim(text.as_str()),
        None => String::new(),
    }
}

/// Whether an entry is that of the device with this address.
pub fn entry_is_at(entry: &DeviceEntry, bus: u16, device: u8) -> (b: bool)
    ensures
        b == entry.is_at(bus, device),
{
    let busnum = number_of(&entry.busnum, u16::MAX as u64);
    let devnum = number_of(&entry.devnum, u8::MAX as u64);
    match (busnum, devnum) {
        (Some(b), Some(d)) => b == bus as u64 && d == device as u64,
        _ => false,
    }
}

/// The name that an entry gives its device.
pub fn entry_name(entry: &DeviceEntry) -> (name: Option<String>)
    ensures
        name is Some <==> entry.name() is Some,
        name matches Some(n) ==> entry.name() == Some(n@),
{
    // Prefer the human-readable product text.
    let product = text_of(&entry.product);
    if !product.as_str().is_empty() {
        return Some(product);
    }
    // Fall back to the vendor and product codes.
    let mut name = text_of(&entry.id_vendor);
    if !name.as_str().is_empty() {
        let id_product = text_of(&entry.id_product);
        name.push(':');
        name.append(id_product.as_str());
        assert(name@ =~= entry.name()->0);
        return Some(name);
    }
    None
}

/// Looks up the name of a device among the entries of sysfs.
pub fn lookup_device_name(entries: &Vec<DeviceEntry>, bus: u16, device: u8) -> (name: String)
    ensures
        name@ == device_name(entries@, bus, device),
{
    let mut i: usize = 0;
    assert(entries@.skip(0) =~= entries@);
    while i < entries.len()
        invariant
            0 <= i <= entries@.len(),
            device_name(entries@, bus, device) == device_name(entries@.skip(i as int), bus, device),
        decreases entries@.len() - i,
    {
        assert(entries@.skip(i as int)[0] == entries@[i as int]);
        assert(entries@.skip(i as int).drop_first() =~= entries@.skip(i + 1));
        if entry_is_at(&entries[i], bus, device) {
            if let Some(name) = entry_name(&entries[i]) {
                return name;
            }
        }
        i = i + 1;
    }
    String::new()
}

/// Where an entry has a product text that is not blank, its name is exactly that
/// text without the white space around it, however long it is and whatever the
/// codes are.
pub proof fn lemma_product_text_is_the_name(entry: DeviceEntry, product: Seq<char>)
    requires
        entry.product matches Some(text) && text@ == product,
        trimmed(product).len() > 0,
    ensures
        entry.name() == Some(trimmed(product)),
{
}

/// Where the product text is missing or blank and there is a vendor code that is
/// not blank, the name is the vendor code, a colon and the product code, each
/// without the white space around it; a missing product code counts as empty.
pub proof fn lemma_codes_are_the_fallback(entry: DeviceEntry, vendor: Seq<char>)
    requires
        entry.product matches Some(text) ==> trimmed(text@).len() == 0,
        entry.id_vendor matches Some(text) && text@ == vendor,
        trimmed(vendor).len() > 0,
    ensures
        entry.name() == Some(
            trimmed(vendor) + seq![':'] + match entry.id_product {
                Some(text) => trimmed(text@),
                None => Seq::empty(),
            },
        ),
{
}

/// Where both the product text and the vendor code are missing or blank, the entry
/// gives no name, whatever the product code is.
pub proof fn lemma_nameless_entry(entry: DeviceEntry)
    requires
        entry.product matches Some(text) ==> trimmed(text@).len() == 0,
        entry.id_vendor matches Some(text) ==> trimmed(text@).len() == 0,
    ensures
        entry.name() is None,
{
}

/// An entry is that of a device exactly where both its numbers are there and read,
/// without the white space around them, as the bus and the device.
pub proof fn lemma_entry_numbers(entry: DeviceEntry, bus: u16, device: u8)
    ensures
        entry.is_at(bus, device) <==> {
            &&& entry.busnum matches Some(text) && unsigned(trimmed(text@), 0xffff) == Some(
                bus as nat,
            )
            &&& entry.devnum matches Some(text) && unsigned(trimmed(text@), 0xff) == Some(
                device as nat,
            )
        },
{
}

/// An entry is never that of two devices.
pub proof fn lemma_entry_has_one_address(entry: DeviceEntry, a: (u16, u8), b: (u16, u8))
    requires
        entry.is_at(a.0, a.1),
        entry.is_at(b.0, b.1),
    ensures
        a == b,
{
}

/// The first entry at the address that gives a name decides, whatever comes
/// after it and whatever nameless entries come before it.
pub proof fn lemma_first_named_entry_decides(
    entries: Seq<DeviceEntry>,
    bus: u16,
    device: u8,
    i: int,
)
    requires
        0 <= i < entries.len(),
        entries[i].is_at(bus, device),
        entries[i].name() is Some,
        forall|j: int| 0 <= j < i ==> !(#[trigger] entries[j].is_at(bus, device)) || entries[j].name() is None,
    ensures
        device_name(entries, bus, device) == entries[i].name()->0,
    decreases i,
{
    if i > 0 {
        let tail = entries.drop_first();
        assert(!entries[0].is_at(bus, device) || entries[0].name() is None);
        assert forall|j: int| 0 <= j < i - 1 implies !(#[trigger] tail[j].is_at(bus, device))
            || tail[j].name() is None by {
            assert(tail[j] == entries[j + 1]);
        }
        lemma_first_named_entry_decides(tail, bus, device, i - 1);
    }
}

/// The name is empty exactly when no entry at the address gives a name.
pub proof fn lemma_name_empty_iff_unknown(entries: Seq<DeviceEntry>, bus: u16, device: u8)
    ensures
        device_name(entries, bus, device).len() == 0 <==> forall|j: int|
            0 <= j < entries.len() ==> !(#[trigger] entries[j].is_at(bus, device))
                || entries[j].name() is None,
    decreases entries.len(),
{
    if entries.len() > 0 {
        let tail = entries.drop_first();
        lemma_name_empty_iff_unknown(tail, bus, device);
        if entries[0].is_at(bus, device) && entries[0].name() is Some {
            assert(entries[0].name()->0.len() > 0);
        } else if device_name(tail, bus, device).len() == 0 {
            assert forall|j: int| 0 <= j < entries.len() implies !(#[trigger] entries[j].is_at(
                bus,
                device,
            )) || entries[j].name() is None by {
                if j > 0 {
                    assert(tail[j - 1] == entries[j]);
                }
            }
        } else {
            let k = choose|k: int|
                0 <= k < tail.len() && #[trigger] tail[k].is_at(bus, device) && tail[k].name() is Some;
            assert(entries[k + 1] == tail[k]);
            assert(entries[k + 1].is_at(bus, device));
        }
    }
}

/// The host name in the contents of `/etc/hostname`, or `unknown` where they
/// cannot be read.
pub fn hostname(contents: &Option<String>) -> (host: String)
    ensures
        host@ == match *contents {
            Some(text) => trimmed(text@),
            None => "unknown"@,
        },
{
    match contents {
        Some(text) => trim(text.as_str()),
        None => "unknown".to_string(),
    }
}

} // verus!
