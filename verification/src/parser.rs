//! The two neighbour-table formats, read line by line into device records.
//!
//! A line that does not have the shape of an entry is passed over: one bad
//! line never hides the others.

use crate::device::{Device, DeviceView};
use crate::snapshot::{merge, upsert, Snapshot};
use crate::text::{
    chars_of, contains, find, lines, same_text, split_lines, split_tokens, starts_with, string_of,
    tokens, trim_enclosing, trim_end, trim_start,
};
use vstd::prelude::*;

verus! {

/// The formats in which a neighbour table is read.
#[derive(Clone, Copy, Debug, PartialEq, Eq, Structural)]
pub enum TableFormat {
    /// Lines such as `? (192.168.1.1) at aa:bb:cc:dd:ee:ff [ether] on wlan0`.
    Arp,
    /// Lines such as `192.168.1.1 dev wlan0 lladdr aa:bb:cc:dd:ee:ff REACHABLE`.
    IpNeigh,
}

/// Addresses that never name a device of the segment: loopback (`127.`,
/// `::1`) and what looks like multicast or broadcast (`224.`, `255.`).
pub open spec fn is_excluded(ip_address: Seq<char>) -> bool {
    ||| "127."@.is_prefix_of(ip_address)
    ||| "224."@.is_prefix_of(ip_address)
    ||| "255."@.is_prefix_of(ip_address)
    ||| ip_address == "::1"@
}

/// Whether a record seen on `interface` is wanted under `filter`.
pub open spec fn passes_filter(interface: Seq<char>, filter: Option<Seq<char>>) -> bool {
    filter matches Some(wanted) ==> interface == wanted
}

/// The greatest index from 1 up to, not including, `upto` at which `tokens`
/// holds `marker`.
pub open spec fn marker_index(tokens: Seq<Seq<char>>, marker: Seq<char>, upto: int) -> Option<int>
    decreases upto,
{
    if upto <= 1 {
        None
    } else if tokens[upto - 1] == marker {
        Some(upto - 1)
    } else {
        marker_index(tokens, marker, upto - 1)
    }
}

/// The token that follows `marker`. The first token is no marker, a marker
/// in the last place has nothing after it, and of several the last counts.
pub open spec fn value_after(tokens: Seq<Seq<char>>, marker: Seq<char>) -> Option<Seq<char>> {
    match marker_index(tokens, marker, tokens.len() - 1) {
        Some(i) => Some(tokens[i + 1]),
        None => None,
    }
}

/// The record that an ARP line stands for, before filter and exclusion.
///
/// The line must hold `at` and `on` somewhere and have at least seven
/// tokens. The second token is the address, without the brackets round it;
/// the fourth is the link-layer address; the seventh is the interface.
pub open spec fn arp_record(line: Seq<char>) -> Option<DeviceView> {
    let fields = tokens(line);
    if contains(line, "at"@) && contains(line, "on"@) && fields.len() >= 7 {
        Some(
            DeviceView {
                ip_address: trim_end(trim_start(fields[1], '('), ')'),
                mac_address: fields[3],
                interface: fields[6],
            },
        )
    } else {
        None
    }
}

/// The record that a neighbour line stands for, before filter and exclusion.
///
/// The line must have at least six tokens. The first is the address; the
/// link-layer address follows `lladdr` and the interface follows `dev`.
pub open spec fn neigh_record(line: Seq<char>) -> Option<DeviceView> {
    let fields = tokens(line);
    if fields.len() >= 6 {
        match (value_after(fields, "lladdr"@), value_after(fields, "dev"@)) {
            (Some(mac_address), Some(interface)) => Some(
                DeviceView { ip_address: fields[0], mac_address, interface },
            ),
            _ => None,
        }
    } else {
        None
    }
}

pub open spec fn record(format: TableFormat, line: Seq<char>) -> Option<DeviceView> {
    match format {
        TableFormat::Arp => arp_record(line),
        TableFormat::IpNeigh => neigh_record(line),
    }
}

/// The device that one line of a table adds to the snapshot, if any.
pub open spec fn entry(format: TableFormat, line: Seq<char>, filter: Option<Seq<char>>) -> Option<
    DeviceView,
> {
    match record(format, line) {
        Some(device) => if passes_filter(device.interface, filter) && !is_excluded(
            device.ip_address,
        ) {
            Some(device)
        } else {
            None
        },
        None => None,
    }
}

/// The devices that `lines` add up to, each line seen after the ones before it.
pub open spec fn collect(
    format: TableFormat,
    lines: Seq<Seq<char>>,
    filter: Option<Seq<char>>,
) -> Seq<DeviceView>
    decreases lines.len(),
{
    if lines.len() == 0 {
        Seq::empty()
    } else {
        let earlier = collect(format, lines.drop_last(), filter);
        match entry(format, lines.last(), filter) {
            Some(device) => upsert(earlier, device),
            None => earlier,
        }
    }
}

/// The devices that a table in `format` lists.
pub open spec fn table(format: TableFormat, text: Seq<char>, filter: Option<Seq<char>>) -> Seq<
    DeviceView,
> {
    collect(format, lines(text), filter)
}

/// The devices of one poll: what the ARP table lists, then what the
/// neighbour table lists. A device that both list is held once, with the
/// record of the neighbour table.
pub open spec fn both_tables(arp: Seq<char>, neigh: Seq<char>, filter: Option<Seq<char>>) -> Seq<
    DeviceView,
> {
    merge(table(TableFormat::Arp, arp, filter), table(TableFormat::IpNeigh, neigh, filter))
}

/// The filter as the contracts see it.
pub open spec fn filter_text(filter: Option<&str>) -> Option<Seq<char>> {
    match filter {
        Some(wanted) => Some(wanted@),
        None => None,
    }
}

/// Whether every device of `devices` is wanted under `filter` and none has
/// an excluded address.
pub open spec fn all_admitted(devices: Seq<DeviceView>, filter: Option<Seq<char>>) -> bool {
    forall|i: int|
        0 <= i < devices.len() ==> passes_filter((#[trigger] devices[i]).interface, filter)
            && !is_excluded(devices[i].ip_address)
}

/// The filter as the contracts see it, once it is held as characters.
pub open spec fn filter_chars(filter: &Option<Vec<char>>) -> Option<Seq<char>> {
    match filter {
        Some(wanted) => Some(wanted@),
        None => None,
    }
}

/// Seeing a device that is admitted keeps all devices admitted.
pub proof fn lemma_upsert_admitted(
    devices: Seq<DeviceView>,
    device: DeviceView,
    filter: Option<Seq<char>>,
)
    requires
        all_admitted(devices, filter),
        passes_filter(device.interface, filter),
        !is_excluded(device.ip_address),
    ensures
        all_admitted(upsert(devices, device), filter),
{
    let after = upsert(devices, device);
    assert forall|i: int| 0 <= i < after.len() implies passes_filter(
        (#[trigger] after[i]).interface,
        filter,
    ) && !is_excluded(after[i].ip_address) by {
        if i < devices.len() {
            assert(after[i] == device || after[i] == devices[i]);
        }
    }
}

/// No table lists a device with an excluded address, and under a filter
/// every listed device is on the wanted interface.
pub proof fn lemma_collect_admitted(
    format: TableFormat,
    lines: Seq<Seq<char>>,
    filter: Option<Seq<char>>,
)
    ensures
        all_admitted(collect(format, lines, filter), filter),
    decreases lines.len(),
{
    if lines.len() > 0 {
        lemma_collect_admitted(format, lines.drop_last(), filter);
        match entry(format, lines.last(), filter) {
            Some(device) => {
                lemma_upsert_admitted(collect(format, lines.drop_last(), filter), device, filter);
            },
            None => {},
        }
    }
}

/// Merging keeps all devices admitted.
pub proof fn lemma_merge_admitted(
    devices: Seq<DeviceView>,
    later: Seq<DeviceView>,
    filter: Option<Seq<char>>,
)
    requires
        all_admitted(devices, filter),
        all_admitted(later, filter),
    ensures
        all_admitted(merge(devices, later), filter),
    decreases later.len(),
{
    if later.len() > 0 {
        assert forall|i: int| 0 <= i < later.drop_last().len() implies passes_filter(
            (#[trigger] later.drop_last()[i]).interface,
            filter,
        ) && !is_excluded(later.drop_last()[i].ip_address) by {
            assert(later.drop_last()[i] == later[i]);
        }
        lemma_merge_admitted(devices, later.drop_last(), filter);
        lemma_upsert_admitted(merge(devices, later.drop_last()), later.last(), filter);
    }
}

/// Whether `ip_address` is one that never names a device of the segment.
pub fn ip_is_excluded(ip_address: &Vec<char>) -> (excluded: bool)
    ensures
        excluded == is_excluded(ip_address@),
{
    let loopback = chars_of("127.");
    let multicast = chars_of("224.");
    let broadcast = chars_of("255.");
    let loopback_v6 = chars_of("::1");
    starts_with(ip_address, &loopback) || starts_with(ip_address, &multicast) || starts_with(
        ip_address,
        &broadcast,
    ) || same_text(ip_address, &loopback_v6)
}

/// Whether a record seen on `interface` is wanted under `filter`.
pub fn interface_is_wanted(interface: &Vec<char>, filter: &Option<Vec<char>>) -> (wanted: bool)
    ensures
        wanted == passes_filter(interface@, filter_chars(filter)),
{
    match filter {
        Some(name) => same_text(interface, name),
        None => true,
    }
}

/// Where the token stands that follows `marker`.
fn value_index(fields: &Vec<Vec<char>>, marker: &str) -> (found: Option<usize>)
    ensures
        match found {
            Some(i) => 0 < i < fields.len() && value_after(fields.deep_view(), marker@) == Some(
                fields@[i as int]@,
            ),
            None => value_after(fields.deep_view(), marker@) is None,
        },
{
    if fields.len() < 2 {
        return None;
    }
    let word = chars_of(marker);
    let last: usize = fields.len() - 1;
    let mut found: Option<usize> = None;
    let mut i: usize = 1;
    while i < last
        invariant
            1 <= i <= last,
            last == fields.len() - 1,
            word@ == marker@,
            match found {
                Some(k) => 1 <= k < i && marker_index(fields.deep_view(), marker@, i as int)
                    == Some(k as int),
                None => marker_index(fields.deep_view(), marker@, i as int) is None,
            },
        decreases last - i,
    {
        assert(fields.deep_view()[i as int] == fields@[i as int]@);
        if same_text(&fields[i], &word) {
            found = Some(i);
        }
        i += 1;
    }
    match found {
        Some(k) => {
            assert(fields.deep_view()[k + 1] == fields@[k + 1]@);
            Some(k + 1)
        },
        None => None,
    }
}

/// Reads one ARP line, before filter and exclusion.
fn read_arp_line(line: &Vec<char>) -> (fields: Option<(Vec<char>, Vec<char>, Vec<char>)>)
    ensures
        match fields {
            Some((ip_address, mac_address, interface)) => arp_record(line@) == Some(
                DeviceView {
                    ip_address: ip_address@,
                    mac_address: mac_address@,
                    interface: interface@,
                },
            ),
            None => arp_record(line@) is None,
        },
{
    let at = chars_of("at");
    let on = chars_of("on");
    if find(line, &at).is_none() || find(line, &on).is_none() {
        return None;
    }
    let mut parts = split_tokens(line);
    if parts.len() < 7 {
        return None;
    }
    proof {
        assert(parts.deep_view()[1] == parts@[1]@);
        assert(parts.deep_view()[3] == parts@[3]@);
        assert(parts.deep_view()[6] == parts@[6]@);
    }
    let ip_address = trim_enclosing(&parts[1], '(', ')');
    let interface = parts.swap_remove(6);
    let mac_address = parts.swap_remove(3);
    Some((ip_address, mac_address, interface))
}

/// Reads one neighbour line, before filter and exclusion.
fn read_neigh_line(line: &Vec<char>) -> (fields: Option<(Vec<char>, Vec<char>, Vec<char>)>)
    ensures
        match fields {
            Some((ip_address, mac_address, interface)) => neigh_record(line@) == Some(
                DeviceView {
                    ip_address: ip_address@,
                    mac_address: mac_address@,
                    interface: interface@,
                },
            ),
            None => neigh_record(line@) is None,
        },
{
    let parts = split_tokens(line);
    if parts.len() < 6 {
        return None;
    }
    let mac_at = value_index(&parts, "lladdr");
    let interface_at = value_index(&parts, "dev");
    match (mac_at, interface_at) {
        (Some(m), Some(d)) => {
            proof {
                assert(parts.deep_view()[0] == parts@[0]@);
            }
            Some((parts[0].clone(), parts[m].clone(), parts[d].clone()))
        },
        _ => None,
    }
}

/// The device that one line of a table adds to the snapshot, if any.
pub fn parse_line(format: TableFormat, line: &Vec<char>, filter: &Option<Vec<char>>) -> (device:
    Option<Device>)
    ensures
        device.deep_view() == entry(format, line@, filter_chars(filter)),
{
    let fields = match format {
        TableFormat::Arp => read_arp_line(line),
        TableFormat::IpNeigh => read_neigh_line(line),
    };
    match fields {
        Some((ip_address, mac_address, interface)) => {
            if interface_is_wanted(&interface, filter) && !ip_is_excluded(&ip_address) {
                Some(
                    Device::new(
                        string_of(&ip_address),
                        string_of(&mac_address),
                        string_of(&interface),
                    ),
                )
            } else {
                None
            }
        },
        None => None,
    }
}

/// Reads a table in `format` that is held as characters.
pub fn read_table(format: TableFormat, text: &Vec<char>, filter: &Option<Vec<char>>) -> (snapshot:
    Snapshot)
    ensures
        snapshot@ == table(format, text@, filter_chars(filter)),
        all_admitted(snapshot@, filter_chars(filter)),
{
    let text_lines = split_lines(text);
    let mut snapshot = Snapshot::new();
    let mut i: usize = 0;
    assert(text_lines.deep_view().take(0) == Seq::<Seq<char>>::empty());
    while i < text_lines.len()
        invariant
            i <= text_lines.len(),
            text_lines.deep_view() == lines(text@),
            snapshot@ == collect(
                format,
                text_lines.deep_view().take(i as int),
                filter_chars(filter),
            ),
        decreases text_lines.len() - i,
    {
        proof {
            let seen = text_lines.deep_view().take(i + 1);
            assert(seen.drop_last() == text_lines.deep_view().take(i as int));
            assert(seen.last() == text_lines@[i as int]@);
        }
        match parse_line(format, &text_lines[i], filter) {
            Some(device) => {
                snapshot.insert(device);
            },
            None => {},
        }
        i += 1;
    }
    proof {
        assert(text_lines.deep_view().take(text_lines.len() as int) == text_lines.deep_view());
        lemma_collect_admitted(format, lines(text@), filter_chars(filter));
    }
    snapshot
}

/// The filter, held as characters.
pub fn filter_to_chars(interface_filter: Option<&str>) -> (filter: Option<Vec<char>>)
    ensures
        filter_chars(&filter) == filter_text(interface_filter),
{
    match interface_filter {
        Some(wanted) => Some(chars_of(wanted)),
        None => None,
    }
}

/// Reads a table in `format`. With a filter, only devices on that interface
/// are kept; devices with an excluded address never are.
pub fn parse_table(format: TableFormat, text: &str, interface_filter: Option<&str>) -> (snapshot:
    Snapshot)
    ensures
        snapshot@ == table(format, text@, filter_text(interface_filter)),
        all_admitted(snapshot@, filter_text(interface_filter)),
{
    let filter = filter_to_chars(interface_filter);
    read_table(format, &chars_of(text), &filter)
}

/// Reads the output of `arp -a -n`.
pub fn parse_arp_table(text: &str, interface_filter: Option<&str>) -> (snapshot: Snapshot)
    ensures
        snapshot@ == table(TableFormat::Arp, text@, filter_text(interface_filter)),
        all_admitted(snapshot@, filter_text(interface_filter)),
{
    parse_table(TableFormat::Arp, text, interface_filter)
}

/// Reads the output of `ip neigh show`.
pub fn parse_ip_neigh_table(text: &str, interface_filter: Option<&str>) -> (snapshot: Snapshot)
    ensures
        snapshot@ == table(TableFormat::IpNeigh, text@, filter_text(interface_filter)),
        all_admitted(snapshot@, filter_text(interface_filter)),
{
    parse_table(TableFormat::IpNeigh, text, interface_filter)
}

/// Reads both tables, held as characters, into the snapshot of one poll.
pub fn read_tables(arp: &Vec<char>, neigh: &Vec<char>, filter: &Option<Vec<char>>) -> (snapshot:
    Snapshot)
    ensures
        snapshot@ == both_tables(arp@, neigh@, filter_chars(filter)),
        all_admitted(snapshot@, filter_chars(filter)),
{
    let mut snapshot = read_table(TableFormat::Arp, arp, filter);
    let neighbours = read_table(TableFormat::IpNeigh, neigh, filter);
    proof {
        lemma_merge_admitted(snapshot@, neighbours@, filter_chars(filter));
    }
    snapshot.absorb(neighbours);
    snapshot
}

/// The snapshot of one poll, from the output of `arp -a -n` and that of
/// `ip neigh show`.
pub fn collect_snapshot(
    arp_text: &str,
    neigh_text: &str,
    interface_filter: Option<&str>,
) -> (snapshot: Snapshot)
    ensures
        snapshot@ == both_tables(arp_text@, neigh_text@, filter_text(interface_filter)),
        all_admitted(snapshot@, filter_text(interface_filter)),
{
    let filter = filter_to_chars(interface_filter);
    read_tables(&chars_of(arp_text), &chars_of(neigh_text), &filter)
}

} // verus!
