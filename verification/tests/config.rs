use internet_access_control::config::{is_valid_mac, Config};

#[test]
fn mac_addresses_are_recognised() {
    assert!(is_valid_mac("AA:BB:CC:DD:EE:01"));
    assert!(is_valid_mac("aa:bb:cc:dd:ee:0f"));
    assert!(is_valid_mac("00:11:22:33:44:55"));
}

#[test]
fn malformed_mac_addresses_are_refused() {
    assert!(!is_valid_mac(""));
    assert!(!is_valid_mac("AA:BB:CC:DD:EE"));
    assert!(!is_valid_mac("AA:BB:CC:DD:EE:01:02"));
    assert!(!is_valid_mac("AA:BB:CC:DD:EE:0G"));
    assert!(!is_valid_mac("AA-BB-CC-DD-EE-01"));
    assert!(!is_valid_mac("AAA:BB:CC:DD:EE:0"));
    assert!(!is_valid_mac("AA:BB:CC:DD:EE:01 "));
    assert!(!is_valid_mac("AA:BB:CC:DD:EE:é1"));
    assert!(!is_valid_mac("phone"));
}

#[test]
fn a_mac_address_resolves_to_itself_in_upper_case() {
    let config = Config::new();
    assert_eq!(config.resolve_device("aa:bb:cc:dd:ee:0f").as_deref(), Some("AA:BB:CC:DD:EE:0F"));
    assert_eq!(config.resolve_device("AA:BB:CC:DD:EE:01").as_deref(), Some("AA:BB:CC:DD:EE:01"));
}

#[test]
fn an_alias_resolves_to_its_address_in_upper_case() {
    let mut config = Config::new();
    config.insert("phone".to_string(), "aa:bb:cc:dd:ee:01".to_string());
    config.insert("laptop".to_string(), "AA:BB:CC:DD:EE:02".to_string());
    assert_eq!(config.resolve_device("phone").as_deref(), Some("AA:BB:CC:DD:EE:01"));
    assert_eq!(config.resolve_device("laptop").as_deref(), Some("AA:BB:CC:DD:EE:02"));
    assert_eq!(config.device_count(), 2);
}

#[test]
fn unknown_devices_resolve_to_nothing() {
    let mut config = Config::new();
    assert_eq!(config.resolve_device("phone"), None);
    config.insert("phone".to_string(), "AA:BB:CC:DD:EE:01".to_string());
    assert_eq!(config.resolve_device("Phone"), None);
    assert_eq!(config.resolve_device("tablet"), None);
}

#[test]
fn a_mac_address_wins_over_an_alias_spelled_like_it() {
    let mut config = Config::new();
    config.insert("AA:BB:CC:DD:EE:01".to_string(), "11:22:33:44:55:66".to_string());
    assert_eq!(config.resolve_device("AA:BB:CC:DD:EE:01").as_deref(), Some("AA:BB:CC:DD:EE:01"));
}

#[test]
fn inserting_an_alias_again_replaces_its_address() {
    let mut config = Config::new();
    config.insert("tv".to_string(), "AA:BB:CC:DD:EE:04".to_string());
    config.insert("tv".to_string(), "AA:BB:CC:DD:EE:05".to_string());
    assert_eq!(config.device_count(), 1);
    assert_eq!(config.resolve_device("tv").as_deref(), Some("AA:BB:CC:DD:EE:05"));
}

#[test]
fn alias_addresses_are_upper_cased_as_text() {
    // The configured address is not checked; it is upper-cased as any text is.
    let mut config = Config::new();
    config.insert("odd".to_string(), "straße".to_string());
    assert_eq!(config.resolve_device("odd").as_deref(), Some("STRASSE"));
}

#[test]
fn resolving_a_resolved_mac_gives_it_back() {
    let config = Config::new();
    let once = config.resolve_device("0a:1b:2c:3d:4e:5f").unwrap();
    let twice = config.resolve_device(&once).unwrap();
    assert_eq!(once, twice);
    assert!(is_valid_mac(&once));
}

#[test]
fn mac_addresses_stay_valid_in_either_case() {
    for mac in ["aa:bb:cc:dd:ee:0f", "AA:BB:CC:DD:EE:01", "0a:1B:2c:3D:4e:5F"] {
        assert!(is_valid_mac(mac));
        assert_eq!(mac.len(), 17);
        assert!(mac.is_ascii());
        assert!(is_valid_mac(&mac.to_ascii_uppercase()));
        assert!(is_valid_mac(&mac.to_ascii_lowercase()));
    }
}

#[test]
fn aliases_are_listed_in_order() {
    let mut config = Config::new();
    config.insert("tv".to_string(), "AA:BB:CC:DD:EE:04".to_string());
    config.insert("Bedroom".to_string(), "AA:BB:CC:DD:EE:05".to_string());
    config.insert("alpha".to_string(), "AA:BB:CC:DD:EE:06".to_string());
    let names: Vec<String> = config.aliases().into_iter().map(|e| e.alias).collect();
    assert_eq!(names, vec!["Bedroom", "alpha", "tv"]);
}
