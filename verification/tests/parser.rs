use netneighbor::device::Device;
use netneighbor::parser::{
    collect_snapshot, parse_arp_table, parse_ip_neigh_table, parse_line, TableFormat,
};
use netneighbor::text::chars_of;

fn device(ip: &str, mac: &str, interface: &str) -> Device {
    Device::new(ip.to_string(), mac.to_string(), interface.to_string())
}

#[test]
fn arp_line_yields_one_device() {
    let snapshot = parse_arp_table("? (192.168.1.5) at aa:bb:cc:dd:ee:ff [ether] on wlan0", None);
    assert_eq!(snapshot.len(), 1);
    assert_eq!(snapshot.devices()[0], device("192.168.1.5", "aa:bb:cc:dd:ee:ff", "wlan0"));
}

#[test]
fn neighbour_line_yields_one_device() {
    let snapshot =
        parse_ip_neigh_table("192.168.1.6 dev eth0 lladdr 11:22:33:44:55:66 REACHABLE", None);
    assert_eq!(snapshot.len(), 1);
    assert_eq!(snapshot.devices()[0], device("192.168.1.6", "11:22:33:44:55:66", "eth0"));
}

#[test]
fn loopback_and_multicast_are_never_listed() {
    let arp = "? (127.0.0.1) at aa:bb:cc:dd:ee:ff [ether] on lo\n\
               ? (224.0.0.1) at 01:00:5e:00:00:01 [ether] on wlan0\n\
               ? (255.255.255.255) at ff:ff:ff:ff:ff:ff [ether] on wlan0\n\
               ? (::1) at aa:bb:cc:dd:ee:00 [ether] on lo\n";
    assert!(parse_arp_table(arp, None).is_empty());
    assert!(parse_arp_table(arp, Some("wlan0")).is_empty());
    assert!(parse_arp_table(arp, Some("lo")).is_empty());
    let neigh = "127.0.0.1 dev lo lladdr 00:00:00:00:00:00 PERMANENT\n\
                 224.0.0.1 dev wlan0 lladdr 01:00:5e:00:00:01 NOARP\n\
                 255.255.255.255 dev wlan0 lladdr ff:ff:ff:ff:ff:ff NOARP\n\
                 ::1 dev lo lladdr 00:00:00:00:00:00 PERMANENT\n";
    assert!(parse_ip_neigh_table(neigh, None).is_empty());
    assert!(parse_ip_neigh_table(neigh, Some("wlan0")).is_empty());
    assert!(parse_ip_neigh_table(neigh, Some("lo")).is_empty());
}

#[test]
fn exclusion_goes_by_the_prefix_with_its_dot() {
    let snapshot = parse_arp_table("? (1270.0.0.1) at aa:bb:cc:dd:ee:ff [ether] on wlan0", None);
    assert_eq!(snapshot.len(), 1);
    let snapshot = parse_arp_table("? (255.1.2.3) at aa:bb:cc:dd:ee:ff [ether] on wlan0", None);
    assert!(snapshot.is_empty());
    let snapshot =
        parse_ip_neigh_table("::10 dev eth0 lladdr 11:22:33:44:55:66 REACHABLE", None);
    assert_eq!(snapshot.len(), 1);
}

#[test]
fn filter_drops_entries_on_other_interfaces() {
    let arp = "? (192.168.1.5) at aa:bb:cc:dd:ee:ff [ether] on eth0\n\
               ? (192.168.1.7) at aa:bb:cc:dd:ee:01 [ether] on wlan0\n";
    let snapshot = parse_arp_table(arp, Some("wlan0"));
    assert_eq!(snapshot.len(), 1);
    assert_eq!(snapshot.devices()[0], device("192.168.1.7", "aa:bb:cc:dd:ee:01", "wlan0"));
    let neigh = "192.168.1.6 dev eth0 lladdr 11:22:33:44:55:66 REACHABLE\n\
                 192.168.1.8 dev wlan0 lladdr 11:22:33:44:55:67 STALE\n";
    let snapshot = parse_ip_neigh_table(neigh, Some("wlan0"));
    assert_eq!(snapshot.len(), 1);
    assert_eq!(snapshot.devices()[0], device("192.168.1.8", "11:22:33:44:55:67", "wlan0"));
    assert!(parse_arp_table("? (192.168.1.5) at aa:bb:cc:dd:ee:ff [ether] on eth0", Some("wlan0"))
        .is_empty());
}

#[test]
fn arp_line_needs_seven_tokens_and_both_words() {
    assert!(parse_arp_table("? (192.168.1.5) at aa:bb:cc:dd:ee:ff [ether] on", None).is_empty());
    assert!(parse_arp_table("? (192.168.1.5) xx aa:bb:cc:dd:ee:ff [ether] on wlan0", None)
        .is_empty());
    assert!(parse_arp_table("? (192.168.1.5) at aa:bb:cc:dd:ee:ff [ether] in wla0", None)
        .is_empty());
    assert!(parse_arp_table("Address HWtype HWaddress Flags Mask Iface", None).is_empty());
    assert!(parse_arp_table("", None).is_empty());
    // The two words may stand anywhere in the line, and tokens go by place.
    let snapshot = parse_arp_table("cat (10.0.0.1) x 1:2 y z eth0 on", None);
    assert_eq!(snapshot.len(), 1);
    assert_eq!(snapshot.devices()[0], device("10.0.0.1", "1:2", "eth0"));
}

#[test]
fn arp_address_loses_all_its_brackets() {
    let snapshot = parse_arp_table("? ((10.0.0.9)) at aa:bb:cc:dd:ee:ff [ether] on wlan0", None);
    assert_eq!(snapshot.devices()[0].ip_address, "10.0.0.9");
    let snapshot = parse_arp_table("? 10.0.0.9 at aa:bb:cc:dd:ee:ff [ether] on wlan0", None);
    assert_eq!(snapshot.devices()[0].ip_address, "10.0.0.9");
    let snapshot = parse_arp_table("? )10.0.0.9( at aa:bb:cc:dd:ee:ff [ether] on wlan0", None);
    assert_eq!(snapshot.devices()[0].ip_address, ")10.0.0.9(");
    let snapshot = parse_arp_table("? () at aa:bb:cc:dd:ee:ff [ether] on wlan0", None);
    assert_eq!(snapshot.devices()[0].ip_address, "");
}

#[test]
fn neighbour_line_needs_six_tokens_and_both_markers() {
    assert!(parse_ip_neigh_table("192.168.1.6 dev eth0 lladdr 11:22:33:44:55:66", None).is_empty());
    assert!(parse_ip_neigh_table("192.168.1.6 dev eth0 FAILED a b c", None).is_empty());
    assert!(parse_ip_neigh_table("192.168.1.6 lladdr 11:22:33:44:55:66 a b c", None).is_empty());
    // A marker in the last place has no value.
    assert!(parse_ip_neigh_table("192.168.1.6 dev eth0 a b lladdr", None).is_empty());
    assert!(parse_ip_neigh_table("", None).is_empty());
}

#[test]
fn neighbour_markers_may_stand_in_any_order() {
    let snapshot =
        parse_ip_neigh_table("fe80::1 lladdr 11:22:33:44:55:66 router dev eth0 STALE", None);
    assert_eq!(snapshot.len(), 1);
    assert_eq!(snapshot.devices()[0], device("fe80::1", "11:22:33:44:55:66", "eth0"));
}

#[test]
fn neighbour_last_marker_counts() {
    let snapshot = parse_ip_neigh_table("10.0.0.2 dev eth0 lladdr aa dev eth1 lladdr bb", None);
    assert_eq!(snapshot.len(), 1);
    assert_eq!(snapshot.devices()[0], device("10.0.0.2", "bb", "eth1"));
}

#[test]
fn neighbour_first_token_is_no_marker() {
    assert!(parse_ip_neigh_table("dev eth0 lladdr aa REACHABLE x", None).is_empty());
    let snapshot = parse_ip_neigh_table("dev eth0 lladdr aa dev eth1 x", None);
    assert_eq!(snapshot.devices()[0], device("dev", "aa", "eth1"));
}

#[test]
fn tokens_are_split_on_any_white_space() {
    let snapshot = parse_arp_table(
        "  ?\t(192.168.1.5)   at\u{a0}aa:bb:cc:dd:ee:ff \u{3000}[ether] on   wlan0  \r\n",
        None,
    );
    assert_eq!(snapshot.len(), 1);
    assert_eq!(snapshot.devices()[0], device("192.168.1.5", "aa:bb:cc:dd:ee:ff", "wlan0"));
}

#[test]
fn bad_lines_do_not_hide_good_ones() {
    let arp = "garbage\n\n? (192.168.1.5) at aa:bb:cc:dd:ee:ff [ether] on wlan0\r\n\
               ? (192.168.1.9) at <incomplete> on wlan0\n\
               ? (192.168.1.7) at aa:bb:cc:dd:ee:01 [ether] on eth0";
    let snapshot = parse_arp_table(arp, None);
    assert_eq!(snapshot.len(), 2);
    assert_eq!(snapshot.devices()[0], device("192.168.1.5", "aa:bb:cc:dd:ee:ff", "wlan0"));
    assert_eq!(snapshot.devices()[1], device("192.168.1.7", "aa:bb:cc:dd:ee:01", "eth0"));
}

#[test]
fn a_device_listed_twice_is_held_once_as_listed_last() {
    let arp = "? (192.168.1.5) at aa:bb:cc:dd:ee:ff [ether] on wlan0\n\
               ? (192.168.1.7) at aa:bb:cc:dd:ee:01 [ether] on wlan0\n\
               ? (192.168.1.5) at aa:bb:cc:dd:ee:ff [ether] on eth0\n";
    let snapshot = parse_arp_table(arp, None);
    assert_eq!(snapshot.len(), 2);
    assert_eq!(snapshot.devices()[0], device("192.168.1.5", "aa:bb:cc:dd:ee:ff", "eth0"));
    assert_eq!(snapshot.devices()[1], device("192.168.1.7", "aa:bb:cc:dd:ee:01", "wlan0"));
}

#[test]
fn collect_snapshot_unites_both_tables() {
    let arp = "? (192.168.1.5) at aa:bb:cc:dd:ee:ff [ether] on wlan0\n\
               ? (192.168.1.7) at aa:bb:cc:dd:ee:01 [ether] on wlan0\n";
    let neigh = "192.168.1.6 dev eth0 lladdr 11:22:33:44:55:66 REACHABLE\n\
                 192.168.1.5 dev wlan1 lladdr aa:bb:cc:dd:ee:ff STALE\n";
    let snapshot = collect_snapshot(arp, neigh, None);
    assert_eq!(snapshot.len(), 3);
    assert_eq!(snapshot.devices()[0], device("192.168.1.5", "aa:bb:cc:dd:ee:ff", "wlan1"));
    assert_eq!(snapshot.devices()[1], device("192.168.1.7", "aa:bb:cc:dd:ee:01", "wlan0"));
    assert_eq!(snapshot.devices()[2], device("192.168.1.6", "11:22:33:44:55:66", "eth0"));
    let filtered = collect_snapshot(arp, neigh, Some("eth0"));
    assert_eq!(filtered.len(), 1);
    assert_eq!(filtered.devices()[0], device("192.168.1.6", "11:22:33:44:55:66", "eth0"));
    assert!(collect_snapshot("", "", None).is_empty());
}

#[test]
fn one_line_at_a_time() {
    let line = chars_of("192.168.1.6 dev eth0 lladdr 11:22:33:44:55:66 REACHABLE");
    assert_eq!(
        parse_line(TableFormat::IpNeigh, &line, &None),
        Some(device("192.168.1.6", "11:22:33:44:55:66", "eth0"))
    );
    assert_eq!(parse_line(TableFormat::IpNeigh, &line, &Some(chars_of("wlan0"))), None);
    assert_eq!(parse_line(TableFormat::Arp, &line, &None), None);
}
