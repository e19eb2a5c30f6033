use wololo::{Error, FritzBoxProvider, HostInfo, MacAddress, Provider, ProviderSet, StaticProvider, Wake};

fn mac(text: &str) -> MacAddress {
    MacAddress::parse(text).unwrap()
}

fn host(name: &str, mac_text: &str, active: bool) -> HostInfo {
    HostInfo {
        host_name: name.to_string(),
        mac_address: mac_text.to_string(),
        active,
    }
}

#[test]
fn parse_accepts_canonical_text() {
    let m = mac("00:11:22:33:44:55");
    assert_eq!(m.octets(), [0x00, 0x11, 0x22, 0x33, 0x44, 0x55]);
    let m = mac("aa:bb:cc:dd:ee:ff");
    assert_eq!(m.octets(), [0xaa, 0xbb, 0xcc, 0xdd, 0xee, 0xff]);
    let m = mac("01:23:45:67:89:ab");
    assert_eq!(m.octets(), [0x01, 0x23, 0x45, 0x67, 0x89, 0xab]);
}

#[test]
fn parse_format_round_trip() {
    for text in [
        "00:11:22:33:44:55",
        "aa:bb:cc:dd:ee:ff",
        "00:00:00:00:00:00",
        "ff:ff:ff:ff:ff:ff",
        "01:23:45:67:89:ab",
    ] {
        assert_eq!(mac(text).to_string(), text);
    }
    let m = MacAddress([0x0f, 0xf0, 0x07, 0x70, 0x00, 0xff]);
    assert_eq!(MacAddress::parse(&m.to_string()), Ok(m));
}

#[test]
fn format_matches_canonical_shape() {
    let text = MacAddress([0x9a, 0x00, 0x10, 0xab, 0xcd, 0xef]).to_string();
    assert_eq!(text.len(), 17);
    for (i, c) in text.chars().enumerate() {
        if i % 3 == 2 {
            assert_eq!(c, ':');
        } else {
            assert!(c.is_ascii_hexdigit() && !c.is_ascii_uppercase());
        }
    }
    assert_eq!(text, "9a:00:10:ab:cd:ef");
}

#[test]
fn parse_rejects_wrong_segment_count() {
    assert_eq!(MacAddress::parse("00:11:22"), Err(Error::InvalidMacAddress));
    assert_eq!(
        MacAddress::parse("00:11:22:33:44:55:66"),
        Err(Error::InvalidMacAddress)
    );
}

#[test]
fn parse_rejects_non_hex_segment() {
    assert_eq!(
        MacAddress::parse("gg:11:22:33:44:55"),
        Err(Error::InvalidMacAddress)
    );
}

#[test]
fn parse_rejects_uppercase() {
    assert_eq!(
        MacAddress::parse("AA:BB:CC:DD:EE:FF"),
        Err(Error::InvalidMacAddress)
    );
    assert_eq!(
        MacAddress::parse("0A:11:22:33:44:55"),
        Err(Error::InvalidMacAddress)
    );
}

#[test]
fn parse_rejects_other_shapes() {
    for text in [
        "",
        "00-11-22-33-44-55",
        "0:11:22:33:44:556",
        "00:11:22:33:44:5",
        "00:11:22:33:44:555",
        "00:11:22:33:44:55 ",
        "001122334455",
    ] {
        assert_eq!(MacAddress::parse(text), Err(Error::InvalidMacAddress));
    }
}

#[test]
fn magic_packet_shape() {
    let payload = mac("00:11:22:33:44:55").magic_packet();
    assert_eq!(payload.len(), 102);
    for i in 0..6 {
        assert_eq!(payload[i], 0xff);
    }
    for rep in 0..16 {
        assert_eq!(
            &payload[6 + 6 * rep..12 + 6 * rep],
            &[0x00, 0x11, 0x22, 0x33, 0x44, 0x55]
        );
    }
}

#[test]
fn static_provider_resolves_configured_names() {
    let provider = StaticProvider::from_args(vec![
        "desktop=00:11:22:33:44:55".to_string(),
        "laptop=aa:bb:cc:dd:ee:ff".to_string(),
    ])
    .unwrap();
    assert_eq!(
        provider.get_mac_address("desktop"),
        Ok(mac("00:11:22:33:44:55"))
    );
    assert_eq!(
        provider.get_mac_address("laptop"),
        Ok(mac("aa:bb:cc:dd:ee:ff"))
    );
    assert_eq!(
        provider.get_mac_address("missing"),
        Err(Error::UnknownMachine)
    );
}

#[test]
fn static_provider_rejects_entry_without_separator() {
    let r = StaticProvider::from_args(vec!["bad".to_string()]);
    assert_eq!(
        r.err(),
        Some(Error::FailedToParseMachineMapping("bad".to_string()))
    );
}

#[test]
fn static_provider_rejects_invalid_address_text() {
    let r = StaticProvider::from_args(vec![
        "good=00:11:22:33:44:55".to_string(),
        "worse=not-a-mac".to_string(),
    ]);
    assert_eq!(
        r.err(),
        Some(Error::FailedToParseMachineMapping("worse=not-a-mac".to_string()))
    );
}

#[test]
fn static_provider_last_duplicate_wins() {
    let provider = StaticProvider::from_args(vec![
        "x=00:11:22:33:44:55".to_string(),
        "x=aa:bb:cc:dd:ee:ff".to_string(),
    ])
    .unwrap();
    assert_eq!(provider.get_mac_address("x"), Ok(mac("aa:bb:cc:dd:ee:ff")));
}

#[test]
fn static_provider_splits_at_first_separator() {
    let provider =
        StaticProvider::from_args(vec!["a=b=00:11:22:33:44:55".to_string()]);
    // The name is everything before the first `=`, so the address part
    // `b=00:...` is invalid text.
    assert_eq!(
        provider.err(),
        Some(Error::FailedToParseMachineMapping(
            "a=b=00:11:22:33:44:55".to_string()
        ))
    );
}

#[test]
fn fresh_remote_provider_needs_refresh() {
    let provider = FritzBoxProvider::new("http://fritz.box:49000".to_string());
    assert!(provider.needs_refresh(0));
    assert!(provider.needs_refresh(1_000_000));
}

#[test]
fn cache_is_stale_only_after_refresh_interval() {
    let mut provider = FritzBoxProvider::new("http://fritz.box:49000".to_string());
    provider.store_refresh(100, Some(vec![host("nas", "00:11:22:33:44:55", true)]));
    // 10 seconds after the fetch: fresh, no network call owed.
    assert!(!provider.needs_refresh(110));
    // exactly 60 seconds after: still fresh.
    assert!(!provider.needs_refresh(160));
    // 61 seconds after: stale, one refresh attempt owed.
    assert!(provider.needs_refresh(161));
}

#[test]
fn failed_refresh_keeps_previous_cache() {
    let mut provider = FritzBoxProvider::new("http://fritz.box:49000".to_string());
    provider.store_refresh(100, Some(vec![host("nas", "00:11:22:33:44:55", false)]));
    provider.store_refresh(200, None);
    // The prior snapshot, its entries and its timestamp, all stay.
    assert_eq!(provider.get_mac_address("nas"), Ok(mac("00:11:22:33:44:55")));
    assert!(provider.needs_refresh(161));
    assert_eq!(provider.list_names().unwrap(), vec!["nas".to_string()]);
}

#[test]
fn successful_refresh_replaces_cache_wholesale() {
    let mut provider = FritzBoxProvider::new("http://fritz.box:49000".to_string());
    provider.store_refresh(100, Some(vec![host("old", "00:11:22:33:44:55", true)]));
    provider.store_refresh(
        200,
        Some(vec![host("new", "aa:bb:cc:dd:ee:ff", false)]),
    );
    assert_eq!(provider.get_mac_address("old"), Err(Error::UnknownMachine));
    assert_eq!(provider.get_mac_address("new"), Ok(mac("aa:bb:cc:dd:ee:ff")));
}

#[test]
fn cache_keeps_hosts_of_either_activity_state() {
    let mut provider = FritzBoxProvider::new("http://fritz.box:49000".to_string());
    provider.store_refresh(
        100,
        Some(vec![
            host("awake", "00:11:22:33:44:55", true),
            host("asleep", "aa:bb:cc:dd:ee:ff", false),
        ]),
    );
    assert_eq!(provider.get_mac_address("awake"), Ok(mac("00:11:22:33:44:55")));
    assert_eq!(provider.get_mac_address("asleep"), Ok(mac("aa:bb:cc:dd:ee:ff")));
}

#[test]
fn cache_drops_records_with_invalid_address_text() {
    let mut provider = FritzBoxProvider::new("http://fritz.box:49000".to_string());
    provider.store_refresh(
        100,
        Some(vec![
            host("broken", "??", true),
            host("fine", "00:11:22:33:44:55", true),
        ]),
    );
    assert_eq!(provider.get_mac_address("broken"), Err(Error::UnknownMachine));
    assert_eq!(provider.get_mac_address("fine"), Ok(mac("00:11:22:33:44:55")));
}

#[test]
fn cache_last_duplicate_record_wins() {
    let mut provider = FritzBoxProvider::new("http://fritz.box:49000".to_string());
    provider.store_refresh(
        100,
        Some(vec![
            host("twin", "00:11:22:33:44:55", true),
            host("twin", "aa:bb:cc:dd:ee:ff", true),
        ]),
    );
    assert_eq!(provider.get_mac_address("twin"), Ok(mac("aa:bb:cc:dd:ee:ff")));
}

fn static_of(entries: &[&str]) -> Provider {
    Provider::Static(
        StaticProvider::from_args(entries.iter().map(|s| s.to_string()).collect()).unwrap(),
    )
}

#[test]
fn provider_set_first_registered_wins() {
    let set = ProviderSet::new(vec![
        static_of(&["x=00:11:22:33:44:55"]),
        static_of(&["x=aa:bb:cc:dd:ee:ff"]),
    ]);
    assert_eq!(set.get_mac_address("x"), Ok(mac("00:11:22:33:44:55")));
}

#[test]
fn provider_set_falls_through_to_later_providers() {
    let mut remote = FritzBoxProvider::new("http://fritz.box:49000".to_string());
    remote.store_refresh(100, Some(vec![host("nas", "aa:bb:cc:dd:ee:ff", false)]));
    let set = ProviderSet::new(vec![
        static_of(&["desktop=00:11:22:33:44:55"]),
        Provider::FritzBox(remote),
    ]);
    assert_eq!(set.get_mac_address("nas"), Ok(mac("aa:bb:cc:dd:ee:ff")));
    assert_eq!(set.get_mac_address("desktop"), Ok(mac("00:11:22:33:44:55")));
    assert_eq!(set.get_mac_address("nope"), Err(Error::UnknownMachine));
}

#[test]
fn provider_set_lists_hosts_of_all_providers() {
    let set = ProviderSet::new(vec![
        static_of(&["a=00:11:22:33:44:55"]),
        static_of(&["b=aa:bb:cc:dd:ee:ff"]),
    ]);
    assert_eq!(set.get_hosts(), vec!["a".to_string(), "b".to_string()]);
}

#[test]
fn static_provider_lists_names_lexicographically() {
    let provider = StaticProvider::from_args(vec![
        "zeta=00:11:22:33:44:55".to_string(),
        "alpha=aa:bb:cc:dd:ee:ff".to_string(),
        "mid=01:23:45:67:89:ab".to_string(),
    ])
    .unwrap();
    assert_eq!(
        provider.list_names().unwrap(),
        vec!["alpha".to_string(), "mid".to_string(), "zeta".to_string()]
    );
}

#[test]
fn empty_provider_set_knows_nothing() {
    let set = ProviderSet::new(vec![]);
    assert!(set.get_hosts().is_empty());
    assert_eq!(set.get_mac_address("any"), Err(Error::UnknownMachine));
}

#[test]
fn resolve_uses_later_provider_when_earlier_misses() {
    let set = ProviderSet::new(vec![
        static_of(&["a=00:11:22:33:44:55"]),
        static_of(&["b=aa:bb:cc:dd:ee:ff"]),
    ]);
    let request = Wake {
        machine: Some("b".to_string()),
        mac_address: None,
    };
    assert_eq!(set.resolve(&request), Ok(mac("aa:bb:cc:dd:ee:ff")));
}

#[test]
fn resolve_prefers_raw_address_over_name() {
    let set = ProviderSet::new(vec![static_of(&["desktop=00:11:22:33:44:55"])]);
    let request = Wake {
        machine: Some("desktop".to_string()),
        mac_address: Some("aa:bb:cc:dd:ee:ff".to_string()),
    };
    assert_eq!(set.resolve(&request), Ok(mac("aa:bb:cc:dd:ee:ff")));
}

#[test]
fn resolve_rejects_invalid_raw_address() {
    let set = ProviderSet::new(vec![static_of(&["desktop=00:11:22:33:44:55"])]);
    let request = Wake {
        machine: Some("desktop".to_string()),
        mac_address: Some("AA:BB:CC:DD:EE:FF".to_string()),
    };
    assert_eq!(set.resolve(&request), Err(Error::InvalidMacAddress));
}

#[test]
fn resolve_by_machine_name() {
    let set = ProviderSet::new(vec![static_of(&["desktop=00:11:22:33:44:55"])]);
    let request = Wake {
        machine: Some("desktop".to_string()),
        mac_address: None,
    };
    assert_eq!(set.resolve(&request), Ok(mac("00:11:22:33:44:55")));
    let request = Wake {
        machine: Some("other".to_string()),
        mac_address: None,
    };
    assert_eq!(set.resolve(&request), Err(Error::UnknownMachine));
}

#[test]
fn resolve_rejects_empty_request() {
    let set = ProviderSet::new(vec![static_of(&["desktop=00:11:22:33:44:55"])]);
    let request = Wake {
        machine: None,
        mac_address: None,
    };
    assert_eq!(set.resolve(&request), Err(Error::InvalidRequest));
}
