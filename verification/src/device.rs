//! Device records and the events reported about them.

use vstd::prelude::*;
use vstd::std_specs::cmp::PartialEqSpecImpl;

verus! {

/// What identifies a device: its network address and its link-layer address.
pub type DeviceKey = (Seq<char>, Seq<char>);

/// The text of a device record.
pub struct DeviceView {
    pub ip_address: Seq<char>,
    pub mac_address: Seq<char>,
    pub interface: Seq<char>,
}

impl DeviceView {
    /// The identity of the record. The interface takes no part in it.
    pub open spec fn key(self) -> DeviceKey {
        (self.ip_address, self.mac_address)
    }
}

/// One neighbour as a table lists it. The three texts are kept as they were
/// read: nothing is normalised.
#[derive(Debug, Hash)]
pub struct Device {
    pub ip_address: String,
    pub mac_address: String,
    pub interface: String,
}

impl View for Device {
    type V = DeviceView;

    open spec fn view(&self) -> DeviceView {
        DeviceView {
            ip_address: self.ip_address@,
            mac_address: self.mac_address@,
            interface: self.interface@,
        }
    }
}

impl DeepView for Device {
    type V = DeviceView;

    open spec fn deep_view(&self) -> DeviceView {
        self@
    }
}

impl Device {
    pub fn new(ip: String, mac: String, interface: String) -> (device: Device)
        ensures
            device@ == (DeviceView { ip_address: ip@, mac_address: mac@, interface: interface@ }),
    {
        Device { ip_address: ip, mac_address: mac, interface }
    }

    /// The identity of this device, as a pair of its two addresses.
    pub fn key(&self) -> (key: (String, String))
        ensures
            (key.0@, key.1@) == self@.key(),
    {
        (self.ip_address.clone(), self.mac_address.clone())
    }

    /// Whether `other` is the same device, whatever interface each was seen on.
    pub fn same_key(&self, other: &Device) -> (same: bool)
        ensures
            same == (self@.key() == other@.key()),
    {
        self.ip_address == other.ip_address && self.mac_address == other.mac_address
    }
}

impl Clone for Device {
    fn clone(&self) -> (copy: Device)
        ensures
            copy@ == self@,
    {
        Device {
            ip_address: self.ip_address.clone(),
            mac_address: self.mac_address.clone(),
            interface: self.interface.clone(),
        }
    }
}

impl PartialEq for Device {
    fn eq(&self, other: &Device) -> (equal: bool) {
        self.ip_address == other.ip_address && self.mac_address == other.mac_address
            && self.interface == other.interface
    }
}

impl PartialEqSpecImpl for Device {
    open spec fn obeys_eq_spec() -> bool {
        true
    }

    open spec fn eq_spec(&self, other: &Device) -> bool {
        self@ == other@
    }
}

impl Eq for Device {

}

/// The text of an event.
pub enum EventView {
    Connected(DeviceView),
    Disconnected(DeviceView),
}

/// What a poll reports about one device.
#[derive(Debug)]
pub enum Event {
    /// The device was not tracked and is now.
    Connected(Device),
    /// The device has been absent for longer than the timeout and is no
    /// longer tracked.
    Disconnected(Device),
}

impl View for Event {
    type V = EventView;

    open spec fn view(&self) -> EventView {
        match self {
            Event::Connected(device) => EventView::Connected(device@),
            Event::Disconnected(device) => EventView::Disconnected(device@),
        }
    }
}

impl DeepView for Event {
    type V = EventView;

    open spec fn deep_view(&self) -> EventView {
        self@
    }
}

impl Event {
    /// The device that the event is about.
    pub fn device(&self) -> (device: &Device)
        ensures
            self@ == EventView::Connected(device@) || self@ == EventView::Disconnected(device@),
    {
        match self {
            Event::Connected(device) => device,
            Event::Disconnected(device) => device,
        }
    }

    /// The kind of the event as it is shown.
    pub fn label(&self) -> (label: &'static str)
        ensures
            label@ == if self@ is Connected {
                "[CONNECTED]"@
            } else {
                "[DISCONNECTED]"@
            },
    {
        match self {
            Event::Connected(_) => "[CONNECTED]",
            Event::Disconnected(_) => "[DISCONNECTED]",
        }
    }

    pub fn is_connected(&self) -> (connected: bool)
        ensures
            connected == (self@ is Connected),
    {
        match self {
            Event::Connected(_) => true,
            Event::Disconnected(_) => false,
        }
    }
}

impl Clone for Event {
    fn clone(&self) -> (copy: Event)
        ensures
            copy@ == self@,
    {
        match self {
            Event::Connected(device) => Event::Connected(device.clone()),
            Event::Disconnected(device) => Event::Disconnected(device.clone()),
        }
    }
}

impl PartialEq for Event {
    fn eq(&self, other: &Event) -> (equal: bool) {
        match (self, other) {
            (Event::Connected(a), Event::Connected(b)) => a == b,
            (Event::Disconnected(a), Event::Disconnected(b)) => a == b,
            _ => false,
        }
    }
}

impl PartialEqSpecImpl for Event {
    open spec fn obeys_eq_spec() -> bool {
        true
    }

    open spec fn eq_spec(&self, other: &Event) -> bool {
        self@ == other@
    }
}

impl Eq for Event {

}

} // verus!
