use internet_access_control::nftables::{
    chain_rules, delete_table_command, element_spec, init_table, mentions_flowtable,
    nft_failure_message, NftManager, SetupStep, TableSetup, KILL_MARK, SET_NAME,
};

fn rules() -> Vec<String> {
    chain_rules("wan", "br-lan")
}

fn position_of(rules: &[String], needle: &str) -> usize {
    rules
        .iter()
        .position(|rule| rule.contains(needle))
        .unwrap_or_else(|| panic!("no rule contains {needle}: {rules:#?}"))
}

fn last_position_of(rules: &[String], needle: &str) -> usize {
    rules
        .iter()
        .rposition(|rule| rule.contains(needle))
        .unwrap_or_else(|| panic!("no rule contains {needle}: {rules:#?}"))
}

fn ready_manager() -> NftManager {
    let mut setup: TableSetup = NftManager::new("wan", "br-lan");
    let mut previous = Ok(());
    loop {
        match setup.advance(previous) {
            SetupStep::Run(_) => previous = Ok(()),
            SetupStep::Ready(manager) => return manager,
            SetupStep::Failed(error) => panic!("setup failed: {error}"),
        }
    }
}

fn strings(words: &[&str]) -> Vec<String> {
    words.iter().map(|word| word.to_string()).collect()
}

#[test]
fn denied_traffic_is_rejected_in_both_blocked_directions() {
    let rules = rules();

    let rejects: Vec<&String> = rules
        .iter()
        .filter(|rule| rule.contains("reject"))
        .collect();

    assert_eq!(rejects.len(), 4, "expected two rejects per direction");
    assert!(
        rejects
            .iter()
            .any(|rule| rule.contains("oifname \"wan\"")
                && rule.contains("reject with tcp reset"))
    );
    assert!(rejects
        .iter()
        .any(|rule| rule.contains("iifname \"br-lan\"")
            && rule.contains("reject with tcp reset")));
    assert!(rejects
        .iter()
        .all(|rule| rule.contains(&format!("ether saddr @{SET_NAME}"))));
}

#[test]
fn non_tcp_traffic_is_rejected_with_an_icmp_error() {
    let rules = rules();

    let icmp: Vec<&String> = rules
        .iter()
        .filter(|rule| rule.contains("reject with icmpx type admin-prohibited"))
        .collect();

    assert_eq!(icmp.len(), 2, "expected one ICMP reject per direction");
    assert!(
        icmp.iter().all(|rule| !rule.contains("meta l4proto tcp")),
        "ICMP rejects must catch everything that is not TCP"
    );
}

#[test]
fn every_reject_tags_the_connection_so_return_traffic_stops_too() {
    let rules = rules();

    assert!(rules
        .iter()
        .filter(|rule| rule.contains("reject"))
        .all(|rule| rule.contains(&format!("ct mark set ct mark or {KILL_MARK}"))));
}

#[test]
fn tagged_connections_are_dropped_after_the_reject_rules() {
    let rules = rules();

    let kill = position_of(&rules, "drop");
    let last_reject = last_position_of(&rules, "reject");

    assert!(
        kill > last_reject,
        "denied devices must get an explicit error, only return traffic is dropped"
    );
    assert_eq!(kill, rules.len() - 1);
}

#[test]
fn allowed_devices_release_their_tagged_connections_first() {
    let rules = rules();

    let release = position_of(&rules, "ct mark set ct mark and");

    assert_eq!(release, 0, "release must run before the drop rule");
    assert!(rules[release].contains(&format!("ether saddr != @{SET_NAME}")));
    assert!(rules[release].contains("iifname \"br-lan\""));
}

#[test]
fn set_elements_are_wrapped_for_nft() {
    assert_eq!(element_spec("AA:BB:CC:DD:EE:01"), "{ AA:BB:CC:DD:EE:01 }");
}

#[test]
fn flow_offloading_is_detected_from_the_flowtable_listing() {
    let listing = "table inet fw4 {\n\tflowtable ft {\n\t\thook ingress priority filter\n\t\tdevices = { br-lan, wan }\n\t}\n}\n";

    assert!(mentions_flowtable(listing));
    assert!(!mentions_flowtable(""));
}

#[test]
fn chain_rules_are_spelled_out_exactly() {
    assert_eq!(
        chain_rules("wan", "br-lan"),
        strings(&[
            "ct mark and 0x80000000 == 0x80000000 iifname \"br-lan\" ether saddr != @denied ct mark set ct mark and 0x7fffffff",
            "oifname \"wan\" ether saddr @denied meta l4proto tcp ct mark set ct mark or 0x80000000 reject with tcp reset",
            "oifname \"wan\" ether saddr @denied ct mark set ct mark or 0x80000000 reject with icmpx type admin-prohibited",
            "iifname \"br-lan\" ether saddr @denied meta l4proto tcp ct mark set ct mark or 0x80000000 reject with tcp reset",
            "iifname \"br-lan\" ether saddr @denied ct mark set ct mark or 0x80000000 reject with icmpx type admin-prohibited",
            "ct mark and 0x80000000 == 0x80000000 drop",
        ])
    );
}

#[test]
fn chain_rules_name_the_given_interfaces() {
    let rules = chain_rules("pppoe-wan", "br-guest");
    assert!(rules[1].starts_with("oifname \"pppoe-wan\""));
    assert!(rules[3].starts_with("iifname \"br-guest\""));
    assert!(rules[0].contains("iifname \"br-guest\""));
}

#[test]
fn every_reject_tags_the_connection_for_other_interface_names() {
    for rule in &chain_rules("eth1", "lan0")[1..5] {
        assert!(rule.contains("ct mark set ct mark or 0x80000000"));
    }
}

#[test]
fn flowtable_must_appear_as_a_whole_word_run() {
    assert!(mentions_flowtable("flowtable"));
    assert!(mentions_flowtable("xxflowtableyy"));
    assert!(!mentions_flowtable("flow table"));
    assert!(!mentions_flowtable("flowtabl"));
}

#[test]
fn setup_rebuilds_the_table_from_scratch() {
    let calls = init_table("wan", "br-lan");
    assert_eq!(calls.len(), 10);
    assert_eq!(calls[0], strings(&["delete", "table", "inet", "access_control"]));
    assert_eq!(calls[0], delete_table_command());
    assert_eq!(calls[1], strings(&["add", "table", "inet", "access_control"]));
    assert_eq!(
        calls[2],
        strings(&["add", "set", "inet", "access_control", "denied", "{ type ether_addr ; }"])
    );
    assert_eq!(
        calls[3],
        strings(&[
            "add",
            "chain",
            "inet",
            "access_control",
            "forward",
            "{ type filter hook forward priority 0; policy accept; }",
        ])
    );
    let rules = chain_rules("wan", "br-lan");
    for (index, rule) in rules.iter().enumerate() {
        let mut expected = strings(&["add", "rule", "inet", "access_control", "forward"]);
        expected.push(rule.clone());
        assert_eq!(calls[4 + index], expected);
    }
}

#[test]
fn setup_hands_out_every_call_in_order_then_the_manager() {
    let mut setup = NftManager::new("wan", "br-lan");
    let expected = init_table("wan", "br-lan");
    let mut handed_out = Vec::new();
    let manager = loop {
        match setup.advance(Ok(())) {
            SetupStep::Run(args) => handed_out.push(args),
            SetupStep::Ready(manager) => break manager,
            SetupStep::Failed(error) => panic!("unexpected failure: {error}"),
        }
    };
    assert_eq!(handed_out, expected);
    assert!(manager.is_allowed("AA:BB:CC:DD:EE:01"));
}

#[test]
fn setup_ignores_a_missing_old_table() {
    let mut setup = NftManager::new("wan", "br-lan");
    assert!(matches!(setup.advance(Ok(())), SetupStep::Run(_)));
    // Deleting a table that does not exist fails; that is fine.
    match setup.advance(Err("no such table".to_string())) {
        SetupStep::Run(args) => assert_eq!(args, strings(&["add", "table", "inet", "access_control"])),
        _ => panic!("setup must go on after the delete"),
    }
}

#[test]
fn setup_stops_at_the_first_failure_that_matters() {
    let mut setup = NftManager::new("wan", "br-lan");
    assert!(matches!(setup.advance(Ok(())), SetupStep::Run(_)));
    assert!(matches!(setup.advance(Ok(())), SetupStep::Run(_)));
    match setup.advance(Err("permission denied".to_string())) {
        SetupStep::Failed(error) => assert_eq!(error, "permission denied"),
        _ => panic!("a failed table creation must stop the setup"),
    }
}

#[test]
fn a_fresh_manager_denies_nobody() {
    let manager = ready_manager();
    assert!(manager.is_allowed("AA:BB:CC:DD:EE:01"));
    assert!(manager.is_allowed("anything"));
}

#[test]
fn deny_then_allow() {
    let mut manager = ready_manager();
    let mac = "AA:BB:CC:DD:EE:01";

    let call = manager.deny(mac).expect("a new denial needs an nft call");
    assert_eq!(call, strings(&["add", "element", "inet", "access_control", "denied", "{ AA:BB:CC:DD:EE:01 }"]));
    assert!(manager.is_allowed(mac), "nothing changes before the call has run");
    assert_eq!(manager.confirm_deny(mac, Ok(())), Ok(()));
    assert!(!manager.is_allowed(mac));
    assert!(manager.is_allowed("AA:BB:CC:DD:EE:02"));

    assert!(manager.deny(mac).is_none(), "denying twice runs nothing");

    let call = manager.allow(mac).expect("an allowed-again device needs an nft call");
    assert_eq!(call, strings(&["delete", "element", "inet", "access_control", "denied", "{ AA:BB:CC:DD:EE:01 }"]));
    assert!(!manager.is_allowed(mac), "nothing changes before the call has run");
    assert_eq!(manager.confirm_allow(mac, Ok(())), Ok(()));
    assert!(manager.is_allowed(mac));
    assert!(manager.allow(mac).is_none(), "allowing twice runs nothing");
}

#[test]
fn a_failed_denial_changes_nothing() {
    let mut manager = ready_manager();
    let mac = "AA:BB:CC:DD:EE:03";
    assert!(manager.deny(mac).is_some());
    let error = "nft add element failed: boom".to_string();
    assert_eq!(manager.confirm_deny(mac, Err(error.clone())), Err(error));
    assert!(manager.is_allowed(mac));
    assert!(manager.deny(mac).is_some());
}

#[test]
fn allowing_an_allowed_device_runs_nothing() {
    let mut manager = ready_manager();
    assert!(manager.allow("AA:BB:CC:DD:EE:04").is_none());
    assert!(manager.is_allowed("AA:BB:CC:DD:EE:04"));
}

#[test]
fn rules_touch_only_their_device() {
    let mut manager = ready_manager();
    for mac in ["AA:BB:CC:DD:EE:01", "AA:BB:CC:DD:EE:02", "AA:BB:CC:DD:EE:03"] {
        assert!(manager.deny(mac).is_some());
        assert!(manager.confirm_deny(mac, Ok(())).is_ok());
    }
    assert!(manager.allow("AA:BB:CC:DD:EE:02").is_some());
    assert!(manager.confirm_allow("AA:BB:CC:DD:EE:02", Ok(())).is_ok());
    assert!(!manager.is_allowed("AA:BB:CC:DD:EE:01"));
    assert!(manager.is_allowed("AA:BB:CC:DD:EE:02"));
    assert!(!manager.is_allowed("AA:BB:CC:DD:EE:03"));
}

#[test]
fn nft_failures_name_the_command_and_its_error() {
    let args = strings(&["add", "element", "inet", "access_control", "denied", "{ AA:BB:CC:DD:EE:01 }"]);
    assert_eq!(
        nft_failure_message(&args, "Error: No such file or directory\n"),
        "nft add element inet access_control denied { AA:BB:CC:DD:EE:01 } failed: Error: No such file or directory\n"
    );
    assert_eq!(nft_failure_message(&Vec::new(), "x"), "nft  failed: x");
}

#[test]
fn a_failed_allow_leaves_the_device_denied() {
    let mut manager = ready_manager();
    let mac = "AA:BB:CC:DD:EE:05";
    assert!(manager.deny(mac).is_some());
    assert!(manager.confirm_deny(mac, Ok(())).is_ok());
    assert!(manager.allow(mac).is_some());
    let error = "nft delete element failed: busy".to_string();
    assert_eq!(manager.confirm_allow(mac, Err(error.clone())), Err(error));
    assert!(!manager.is_allowed(mac), "nft still blocks the device");
    assert!(manager.allow(mac).is_some(), "a retry runs the delete again");
}

#[test]
fn the_record_follows_the_nft_set() {
    // A small model of the nft set, changed only by the calls the manager hands out.
    let mut set: Vec<String> = Vec::new();
    let mut manager = ready_manager();
    let steps = [
        (true, "AA:BB:CC:DD:EE:01"),
        (true, "AA:BB:CC:DD:EE:02"),
        (true, "AA:BB:CC:DD:EE:01"),
        (false, "AA:BB:CC:DD:EE:01"),
        (false, "AA:BB:CC:DD:EE:03"),
        (true, "AA:BB:CC:DD:EE:03"),
    ];
    for (deny, mac) in steps {
        let call = if deny { manager.deny(mac) } else { manager.allow(mac) };
        if let Some(args) = call {
            let element = args[5].trim_start_matches("{ ").trim_end_matches(" }").to_string();
            if args[0] == "add" {
                set.push(element);
            } else {
                set.retain(|m| m != &element);
            }
        }
        if deny {
            assert!(manager.confirm_deny(mac, Ok(())).is_ok());
        } else {
            assert!(manager.confirm_allow(mac, Ok(())).is_ok());
        }
        for probe in ["AA:BB:CC:DD:EE:01", "AA:BB:CC:DD:EE:02", "AA:BB:CC:DD:EE:03"] {
            assert_eq!(manager.is_allowed(probe), !set.iter().any(|m| m == probe));
        }
    }
}
