use internet_access_control::api::{
    aliases_reply, handle_status, invalid_json, not_found, query_device, route, rule_reply,
    rule_call, rule_target, status_of, statuses_reply, unreadable_body, url_decode, ReplyBody, Route,
};
use internet_access_control::config::Config;
use internet_access_control::nftables::{NftManager, SetupStep};
use internet_access_control::types::{Action, RuleRequest};

fn ready_manager() -> NftManager {
    let mut setup = NftManager::new("wan", "br-lan");
    loop {
        match setup.advance(Ok(())) {
            SetupStep::Run(_) => {}
            SetupStep::Ready(manager) => return manager,
            SetupStep::Failed(error) => panic!("setup failed: {error}"),
        }
    }
}

fn config() -> Config {
    let mut config = Config::new();
    config.insert("phone".to_string(), "AA:BB:CC:DD:EE:01".to_string());
    config.insert("laptop".to_string(), "aa:bb:cc:dd:ee:02".to_string());
    config
}

fn error_of(body: &ReplyBody) -> &str {
    match body {
        ReplyBody::Error(error) => &error.error,
        other => panic!("expected an error, got {other:?}"),
    }
}

#[test]
fn percent_encoded_mac_addresses_are_decoded() {
    assert_eq!(url_decode("AA%3ABB%3ACC%3ADD%3AEE%3A01"), "AA:BB:CC:DD:EE:01");
    assert_eq!(url_decode("aa%3abb"), "aa:bb");
}

#[test]
fn plus_signs_become_spaces() {
    assert_eq!(url_decode("living+room"), "living room");
    assert_eq!(url_decode("%2B"), "+");
}

#[test]
fn broken_escapes_are_kept() {
    assert_eq!(url_decode("%"), "%");
    assert_eq!(url_decode("%4"), "%4");
    assert_eq!(url_decode("%zz"), "%zz");
    assert_eq!(url_decode("%z+1"), "%z+1");
    assert_eq!(url_decode("%%41"), "%%41");
    assert_eq!(url_decode("100%"), "100%");
}

#[test]
fn escapes_decode_to_latin1_characters() {
    assert_eq!(url_decode("%e9"), "\u{e9}");
    assert_eq!(url_decode("%FF"), "\u{ff}");
}

#[test]
fn a_plus_sign_inside_an_escape_is_read_as_a_sign() {
    // `u8::from_str_radix("+A", 16)` is 10.
    assert_eq!(url_decode("%+A"), "\n");
}

#[test]
fn plain_text_decodes_to_itself() {
    assert_eq!(url_decode("phone"), "phone");
    assert_eq!(url_decode(""), "");
    assert_eq!(url_decode("kids-tablet_2"), "kids-tablet_2");
}

#[test]
fn percent_encoding_every_character_is_undone() {
    let text = "AA:BB:CC:DD:EE:01";
    let encoded: String = text.chars().map(|c| format!("%{:02X}", c as u32)).collect();
    assert_eq!(url_decode(&encoded), text);
}

#[test]
fn routes_follow_method_and_path() {
    assert_eq!(route("POST", "/rule"), Route::Rule);
    assert_eq!(route("GET", "/status?device=phone"), Route::Status);
    assert_eq!(route("GET", "/status"), Route::Status);
    assert_eq!(route("GET", "/rule"), Route::NotFound);
    assert_eq!(route("POST", "/status"), Route::NotFound);
    assert_eq!(route("GET", "/statuses"), Route::Statuses);
    assert_eq!(route("GET", "/aliases"), Route::Aliases);
    assert_eq!(route("POST", "/aliases"), Route::NotFound);
    assert_eq!(route("GET", "/rule?device=phone"), Route::NotFound);
    assert_eq!(route("GET", "/"), Route::NotFound);
    assert_eq!(route("POST", "/rule?x=1"), Route::Rule);
}

#[test]
fn the_device_parameter_is_found_and_decoded() {
    assert_eq!(query_device("/status?device=phone").as_deref(), Some("phone"));
    assert_eq!(
        query_device("/status?x=1&device=AA%3ABB%3ACC%3ADD%3AEE%3A01&device=laptop").as_deref(),
        Some("AA:BB:CC:DD:EE:01")
    );
    assert_eq!(query_device("/status?flag&device=a=b").as_deref(), Some("a=b"));
    assert_eq!(query_device("/status?device=").as_deref(), Some(""));
}

#[test]
fn a_missing_device_parameter_is_none() {
    assert_eq!(query_device("/status"), None);
    assert_eq!(query_device("/status?"), None);
    assert_eq!(query_device("/status?devices=phone"), None);
    assert_eq!(query_device("/status?device"), None);
    assert_eq!(query_device("/status?x=1?device=phone"), None);
}

#[test]
fn status_of_a_known_alias() {
    let config = config();
    let nft = ready_manager();
    let reply = handle_status("/status?device=phone", &config, &nft);
    assert_eq!(reply.status, 200);
    match reply.body {
        ReplyBody::Status(status) => {
            assert_eq!(status.device, "phone");
            assert_eq!(status.mac, "AA:BB:CC:DD:EE:01");
            assert!(status.allowed);
        }
        other => panic!("unexpected body {other:?}"),
    }
}

#[test]
fn status_of_a_denied_percent_encoded_mac() {
    let config = config();
    let mut nft = ready_manager();
    assert!(nft.deny("AA:BB:CC:DD:EE:02").is_some());
    assert!(nft.confirm_deny("AA:BB:CC:DD:EE:02", Ok(())).is_ok());
    let reply = handle_status("/status?device=aa%3Abb%3Acc%3Add%3Aee%3A02", &config, &nft);
    assert_eq!(reply.status, 200);
    match reply.body {
        ReplyBody::Status(status) => {
            assert_eq!(status.device, "aa:bb:cc:dd:ee:02");
            assert_eq!(status.mac, "AA:BB:CC:DD:EE:02");
            assert!(!status.allowed);
        }
        other => panic!("unexpected body {other:?}"),
    }
}

#[test]
fn status_without_a_device_is_a_bad_request() {
    let reply = handle_status("/status", &config(), &ready_manager());
    assert_eq!(reply.status, 400);
    assert_eq!(error_of(&reply.body), "missing 'device' query parameter");
}

#[test]
fn status_of_an_unknown_device_is_a_bad_request() {
    let reply = handle_status("/status?device=tablet", &config(), &ready_manager());
    assert_eq!(reply.status, 400);
    assert_eq!(error_of(&reply.body), "unknown device: tablet");
}

#[test]
fn rule_targets_resolve_the_device() {
    let request = RuleRequest { device: "laptop".to_string(), action: Action::Deny };
    match rule_target(&request, &config()) {
        Ok(mac) => assert_eq!(mac, "AA:BB:CC:DD:EE:02"),
        Err(reply) => panic!("unexpected reply {reply:?}"),
    }
    let request = RuleRequest { device: "fridge".to_string(), action: Action::Allow };
    match rule_target(&request, &config()) {
        Ok(mac) => panic!("unexpected address {mac}"),
        Err(reply) => {
            assert_eq!(reply.status, 400);
            assert_eq!(error_of(&reply.body), "unknown device: fridge");
        }
    }
}

#[test]
fn rule_replies_report_success_and_failure() {
    let request = RuleRequest { device: "phone".to_string(), action: Action::Deny };
    let reply = rule_reply(request, "AA:BB:CC:DD:EE:01".to_string(), Ok(()));
    assert_eq!(reply.status, 200);
    match reply.body {
        ReplyBody::RuleApplied { device, mac, action } => {
            assert_eq!(device, "phone");
            assert_eq!(mac, "AA:BB:CC:DD:EE:01");
            assert_eq!(action, Action::Deny);
        }
        other => panic!("unexpected body {other:?}"),
    }

    let request = RuleRequest { device: "phone".to_string(), action: Action::Allow };
    let reply = rule_reply(request, "AA:BB:CC:DD:EE:01".to_string(), Err("nft failed".to_string()));
    assert_eq!(reply.status, 500);
    assert_eq!(error_of(&reply.body), "nft failed");
}

#[test]
fn unrouted_requests_are_not_found() {
    let reply = not_found();
    assert_eq!(reply.status, 404);
    assert_eq!(error_of(&reply.body), "not found");
}

#[test]
fn unreadable_or_malformed_rule_bodies_are_bad_requests() {
    let reply = unreadable_body();
    assert_eq!(reply.status, 400);
    assert_eq!(error_of(&reply.body), "failed to read body");
    let reply = invalid_json();
    assert_eq!(reply.status, 400);
    assert_eq!(error_of(&reply.body), "invalid JSON");
}

#[test]
fn aliases_are_listed_sorted() {
    let mut config = config();
    config.insert("kids-tablet".to_string(), "AA:BB:CC:DD:EE:03".to_string());
    let reply = aliases_reply(&config);
    assert_eq!(reply.status, 200);
    match reply.body {
        ReplyBody::Aliases(list) => {
            let pairs: Vec<(String, String)> =
                list.aliases.into_iter().map(|e| (e.alias, e.mac)).collect();
            assert_eq!(
                pairs,
                vec![
                    ("kids-tablet".to_string(), "AA:BB:CC:DD:EE:03".to_string()),
                    ("laptop".to_string(), "aa:bb:cc:dd:ee:02".to_string()),
                    ("phone".to_string(), "AA:BB:CC:DD:EE:01".to_string()),
                ]
            );
        }
        other => panic!("unexpected body {other:?}"),
    }
}

#[test]
fn no_aliases_list_nothing() {
    match aliases_reply(&Config::new()).body {
        ReplyBody::Aliases(list) => assert!(list.aliases.is_empty()),
        other => panic!("unexpected body {other:?}"),
    }
    match statuses_reply(&Config::new(), &ready_manager()).body {
        ReplyBody::Statuses(list) => assert!(list.devices.is_empty()),
        other => panic!("unexpected body {other:?}"),
    }
}

#[test]
fn statuses_list_every_known_device() {
    let config = config();
    let mut nft = ready_manager();
    assert!(nft.deny("AA:BB:CC:DD:EE:01").is_some());
    assert!(nft.confirm_deny("AA:BB:CC:DD:EE:01", Ok(())).is_ok());
    let reply = statuses_reply(&config, &nft);
    assert_eq!(reply.status, 200);
    match reply.body {
        ReplyBody::Statuses(list) => {
            let rows: Vec<(String, String, bool)> =
                list.devices.into_iter().map(|d| (d.alias, d.mac, d.allowed)).collect();
            assert_eq!(
                rows,
                vec![
                    ("laptop".to_string(), "AA:BB:CC:DD:EE:02".to_string(), true),
                    ("phone".to_string(), "AA:BB:CC:DD:EE:01".to_string(), false),
                ]
            );
        }
        other => panic!("unexpected body {other:?}"),
    }
}

#[test]
fn status_of_a_resolved_device() {
    let mut nft = ready_manager();
    assert!(nft.deny("AA:BB:CC:DD:EE:09").is_some());
    assert!(nft.confirm_deny("AA:BB:CC:DD:EE:09", Ok(())).is_ok());
    let reply = status_of("tv".to_string(), "AA:BB:CC:DD:EE:09".to_string(), &nft);
    assert_eq!(reply.status, 200);
    match reply.body {
        ReplyBody::Status(status) => {
            assert_eq!(status.device, "tv");
            assert_eq!(status.mac, "AA:BB:CC:DD:EE:09");
            assert!(!status.allowed);
        }
        other => panic!("unexpected body {other:?}"),
    }
}

#[test]
fn rule_calls_plan_the_nft_command_for_the_resolved_address() {
    let config = config();
    let mut nft = ready_manager();
    let request = RuleRequest { device: "laptop".to_string(), action: Action::Deny };
    let (mac, call) = rule_call(&request, &config, &nft).expect("known device");
    assert_eq!(mac, "AA:BB:CC:DD:EE:02");
    let call = call.expect("a new denial needs nft");
    assert_eq!(call[0], "add");
    assert_eq!(call[5], "{ AA:BB:CC:DD:EE:02 }");

    let (outcome, tear_down) = nft.confirm(Action::Deny, &mac, Ok(()));
    assert_eq!(outcome, Ok(()));
    assert!(tear_down, "a new denial tears down accelerated connections");

    let (_, call) = rule_call(&request, &config, &nft).expect("known device");
    assert!(call.is_none(), "denying again runs nothing");
    let (outcome, tear_down) = nft.confirm(Action::Deny, &mac, Ok(()));
    assert_eq!(outcome, Ok(()));
    assert!(!tear_down, "nothing new was denied");

    let request = RuleRequest { device: "laptop".to_string(), action: Action::Allow };
    let (mac, call) = rule_call(&request, &config, &nft).expect("known device");
    let call = call.expect("allowing a denied device needs nft");
    assert_eq!(call[0], "delete");
    let (outcome, tear_down) = nft.confirm(Action::Allow, &mac, Ok(()));
    assert_eq!(outcome, Ok(()));
    assert!(!tear_down);
    assert!(nft.is_allowed(&mac));
}

#[test]
fn failed_rule_calls_change_nothing_and_tear_nothing_down() {
    let mut nft = ready_manager();
    let mac = "AA:BB:CC:DD:EE:07";
    let (outcome, tear_down) = nft.confirm(Action::Deny, mac, Err("boom".to_string()));
    assert_eq!(outcome, Err("boom".to_string()));
    assert!(!tear_down);
    assert!(nft.is_allowed(mac));
}

#[test]
fn rule_calls_for_unknown_devices_are_bad_requests() {
    let request = RuleRequest { device: "fridge".to_string(), action: Action::Deny };
    match rule_call(&request, &config(), &ready_manager()) {
        Ok(planned) => panic!("unexpected plan {planned:?}"),
        Err(reply) => {
            assert_eq!(reply.status, 400);
            assert_eq!(error_of(&reply.body), "unknown device: fridge");
        }
    }
}
