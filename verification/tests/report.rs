use netneighbor::clock::seconds_to_nanos;
use netneighbor::device::{Device, Event};
use netneighbor::report::event_line;
use netneighbor::snapshot::Snapshot;
use netneighbor::tracker::Tracker;
use netneighbor::vendor::{can_look_up_mac, get_vendor_from_mac, vendor_label};

#[test]
fn known_prefix_names_its_vendor() {
    assert_eq!(get_vendor_from_mac("00:00:00:00:00:00"), Some("XEROX CORPORATION".to_string()));
    assert_eq!(get_vendor_from_mac("00-00-00-12-34-56"), Some("XEROX CORPORATION".to_string()));
    assert_eq!(get_vendor_from_mac("50:a6:d8:00:00:00"), Some("Apple, Inc.".to_string()));
}

#[test]
fn vendor_is_not_the_address_handed_in() {
    let mac = "50:a6:d8:00:00:00";
    assert_ne!(get_vendor_from_mac(mac), Some(mac.to_string()));
    assert_ne!(get_vendor_from_mac(mac), get_vendor_from_mac("00:00:00:00:00:00"));
}

#[test]
fn short_or_odd_text_names_no_vendor() {
    assert_eq!(get_vendor_from_mac(""), None);
    assert_eq!(get_vendor_from_mac("00:00"), None);
    assert_eq!(get_vendor_from_mac("<incomplete>"), None);
    assert_eq!(get_vendor_from_mac("zz:zz:zz:zz:zz:zz"), None);
}

#[test]
fn text_that_is_not_ascii_is_searched_where_it_can_be_cut() {
    assert_eq!(get_vendor_from_mac("0000000\u{e9}"), Some("XEROX CORPORATION".to_string()));
    assert_eq!(get_vendor_from_mac("00:00:00:0\u{e9}"), Some("XEROX CORPORATION".to_string()));
    assert_eq!(get_vendor_from_mac("50-a6-d8-0\u{fc}"), Some("Apple, Inc.".to_string()));
    // The dotless i becomes a plain letter in upper case.
    assert_eq!(get_vendor_from_mac("0000000\u{131}"), Some("XEROX CORPORATION".to_string()));
    assert_eq!(get_vendor_from_mac("zz\u{e9}zzzz00"), None);
    assert_eq!(get_vendor_from_mac("\u{e9}"), None);
    assert!(can_look_up_mac("0000000\u{e9}"));
    assert!(can_look_up_mac("zz\u{e9}zzzz00"));
    assert!(can_look_up_mac("\u{e9}"));
    assert!(can_look_up_mac("\u{3000}\u{3000}"));
    assert!(can_look_up_mac("00:00:00:00:00:00"));
    assert!(can_look_up_mac(""));
}

#[test]
fn text_that_would_be_cut_inside_a_character_names_no_vendor() {
    // The cut after seven bytes falls inside the last character.
    assert!(!can_look_up_mac("00:00:00\u{e9}"));
    assert_eq!(get_vendor_from_mac("00:00:00\u{e9}"), None);
    assert!(!can_look_up_mac("\u{3000}\u{3000}\u{3000}"));
    assert_eq!(get_vendor_from_mac("\u{3000}\u{3000}\u{3000}"), None);
    // The cut after six bytes falls inside the character.
    assert!(!can_look_up_mac("00000\u{e9}"));
    assert_eq!(get_vendor_from_mac("00000\u{e9}"), None);
    // The cut after nine bytes falls inside the character.
    assert!(!can_look_up_mac("00000000\u{e9}0"));
    assert_eq!(get_vendor_from_mac("00000000\u{e9}0"), None);
    assert_eq!(get_vendor_from_mac("00:00:00:00\u{e9}"), None);
    // In upper case the text grows by a byte, and the cut moves.
    assert!(can_look_up_mac("0000\u{149}"));
    assert!(!can_look_up_mac("00000\u{149}"));
}

#[test]
fn vendor_is_shown_by_name_or_as_unknown() {
    assert_eq!(vendor_label(Some("Apple, Inc.".to_string())), "Apple, Inc.");
    assert_eq!(vendor_label(Some(String::new())), "");
    assert_eq!(vendor_label(None), "Unknown");
    assert_eq!(vendor_label(get_vendor_from_mac("00:00:00:00:00:00")), "XEROX CORPORATION");
    assert_eq!(vendor_label(get_vendor_from_mac("nothing")), "Unknown");
}

#[test]
fn events_are_named_by_their_kind() {
    let a = Device::new("10.0.0.1".to_string(), "aa".to_string(), "eth0".to_string());
    let connected = Event::Connected(a.clone());
    let disconnected = Event::Disconnected(a.clone());
    assert_eq!(connected.label(), "[CONNECTED]");
    assert_eq!(disconnected.label(), "[DISCONNECTED]");
    assert!(connected.is_connected());
    assert!(!disconnected.is_connected());
    assert_eq!(connected.device(), &a);
    assert_eq!(disconnected.device(), &a);
    assert_ne!(connected, disconnected);
    assert_eq!(connected.clone(), connected);
}

#[test]
fn timeout_in_nanoseconds() {
    assert_eq!(seconds_to_nanos(0), 0);
    assert_eq!(seconds_to_nanos(1), 1_000_000_000);
    assert_eq!(seconds_to_nanos(10), 10_000_000_000);
    assert_eq!(seconds_to_nanos(18_446_744_073), 18_446_744_073_000_000_000);
    assert_eq!(seconds_to_nanos(18_446_744_074), u64::MAX);
    assert_eq!(seconds_to_nanos(u64::MAX), u64::MAX);
}

#[test]
fn half_a_second_past_the_timeout_is_past_it() {
    let a = Device::new("10.0.0.1".to_string(), "aa".to_string(), "eth0".to_string());
    let mut seen = Snapshot::new();
    seen.insert(a.clone());
    let mut tracker = Tracker::new();
    let timeout = seconds_to_nanos(10);
    tracker.ingest(&seen, 0, timeout);
    assert_eq!(tracker.ingest(&Snapshot::new(), 10_000_000_000, timeout), vec![]);
    assert_eq!(
        tracker.ingest(&Snapshot::new(), 10_500_000_000, timeout),
        vec![Event::Disconnected(a)]
    );
}

#[test]
fn event_line_names_each_part() {
    assert_eq!(
        event_line(
            "2024-05-01 12:00:00",
            "[CONNECTED]",
            "192.168.1.5",
            "aa:bb:cc:dd:ee:ff",
            "Unknown",
            "wlan0"
        ),
        "[2024-05-01 12:00:00] [CONNECTED] IP: 192.168.1.5 | MAC: aa:bb:cc:dd:ee:ff | \
         Vendor: Unknown | Interface: wlan0"
    );
    assert_eq!(event_line("", "", "", "", "", ""), "[]  IP:  | MAC:  | Vendor:  | Interface: ");
    let a = Device::new("10.0.0.1".to_string(), "00:00:00:00:00:01".to_string(), "e".to_string());
    let event = Event::Disconnected(a.clone());
    assert_eq!(
        event_line(
            "t",
            event.label(),
            &a.ip_address,
            &a.mac_address,
            &vendor_label(get_vendor_from_mac(&a.mac_address)),
            &a.interface
        ),
        "[t] [DISCONNECTED] IP: 10.0.0.1 | MAC: 00:00:00:00:00:01 | Vendor: XEROX CORPORATION | \
         Interface: e"
    );
}
