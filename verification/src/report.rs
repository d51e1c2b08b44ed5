//! The line that is printed for an event.

use vstd::prelude::*;
use vstd::string::StringExecFns;

verus! {

/// The line for an event: the time in brackets, the label of the event, and
/// the four things known of the device, each under its name.
pub open spec fn event_line_text(
    timestamp: Seq<char>,
    label: Seq<char>,
    ip_address: Seq<char>,
    mac_address: Seq<char>,
    vendor: Seq<char>,
    interface: Seq<char>,
) -> Seq<char> {
    "["@ + timestamp + "] "@ + label + " IP: "@ + ip_address + " | MAC: "@ + mac_address
        + " | Vendor: "@ + vendor + " | Interface: "@ + interface
}

/// Puts the line for an event together. Each part is taken as it is handed
/// in, so a caller may colour the parts before.
pub fn event_line(
    timestamp: &str,
    label: &str,
    ip_address: &str,
    mac_address: &str,
    vendor: &str,
    interface: &str,
) -> (line: String)
    ensures
        line@ == event_line_text(
            timestamp@,
            label@,
            ip_address@,
            mac_address@,
            vendor@,
            interface@,
        ),
{
    let mut line = String::new();
    line.append("[");
    line.append(timestamp);
    line.append("] ");
    line.append(label);
    line.append(" IP: ");
    line.append(ip_address);
    line.append(" | MAC: ");
    line.append(mac_address);
    line.append(" | Vendor: ");
    line.append(vendor);
    line.append(" | Interface: ");
    line.append(interface);
    line
}

} // verus!
