use brocade_agent::grants::{
    add_users_args, grant_addition, grant_protocol, grant_write_backend_choice, grants_drifted,
    grants_drifted_in, inbound_with_clients, observed_inbounds, plan_inbound, read_observed_grants, remove_user_args,
    sync_grants_with_backend, GrantAccount, GrantProtocol, GrantWriteBackendChoice, SyncStep,
};
use brocade_agent::hotswap::{apply_hot_swap, swap_action, HotSwap, SwapAction, SwapStep};
use brocade_agent::json::{parse_json, unsigned, Json};
use brocade_agent::plan::{GrantClient, GrantInbound, ObservedClient, ObservedInbound};

fn want(emails: &[(&str, &str)]) -> Vec<GrantClient> {
    emails
        .iter()
        .map(|(email, uuid)| GrantClient {
            email: (*email).to_owned(),
            uuid: (*uuid).to_owned(),
            flow: None,
            level: 0,
        })
        .collect()
}

fn live(emails: &[(&str, &str)]) -> Vec<ObservedClient> {
    emails
        .iter()
        .map(|(email, uuid)| ObservedClient {
            email: (*email).to_owned(),
            uuid: (*uuid).to_owned(),
            flow: None,
        })
        .collect()
}

#[test]
fn grant_drift_is_detected_in_both_directions() {
    let a = ("alice@t#i", "uuid-a");
    let b = ("bob@t#i", "uuid-b");

    assert!(!grants_drifted_in(&want(&[a, b]), &live(&[a, b])));
    assert!(!grants_drifted_in(&want(&[a, b]), &live(&[b, a])));

    assert!(grants_drifted_in(&want(&[a, b]), &live(&[a])));
    assert!(grants_drifted_in(&want(&[a]), &live(&[a, b])));
    assert!(grants_drifted_in(&want(&[]), &live(&[a])));
    assert!(!grants_drifted_in(&want(&[]), &live(&[])));

    assert!(grants_drifted_in(
        &want(&[("alice@t#i", "uuid-new")]),
        &live(&[a])
    ));

    let mut vision = want(&[a]);
    vision[0].flow = Some("xtls-rprx-vision".to_owned());
    assert!(grants_drifted_in(&vision, &live(&[a])));
    let mut live_vision = live(&[a]);
    live_vision[0].flow = Some("xtls-rprx-vision".to_owned());
    assert!(!grants_drifted_in(&vision, &live_vision));
}

#[test]
fn an_inbound_that_cannot_be_read_is_not_taken_to_have_drifted() {
    let inbounds = vec![GrantInbound {
        tag: "in:a".to_owned(),
        clients: want(&[("a", "1")]),
    }];
    assert!(!grants_drifted(&inbounds, &vec![None]));
    assert!(grants_drifted(&inbounds, &vec![Some(Vec::new())]));
    assert!(!grants_drifted(&inbounds, &vec![Some(live(&[("a", "1")]))]));
}

#[test]
fn a_hysteria_addition_carries_auth_and_never_a_vless_id() {
    let client = GrantClient {
        email: "alice@platform#hy2".to_owned(),
        uuid: "plain-hysteria-auth".to_owned(),
        flow: Some("xtls-rprx-vision".to_owned()),
        level: 0,
    };
    let (client_json, addition) = grant_addition(GrantProtocol::Hysteria2, "in:app/hy2", &client);
    assert_eq!(client_json.text_of("auth"), Some("plain-hysteria-auth"));
    assert!(client_json.get("id").is_none());
    assert!(client_json.get("flow").is_none());
    assert!(matches!(
        addition.account,
        GrantAccount::Hysteria2 { ref auth } if auth == "plain-hysteria-auth"
    ));
}

#[test]
fn a_vless_addition_carries_its_flow_and_a_password_is_a_password() {
    let client = GrantClient {
        email: "e".to_owned(),
        uuid: "u".to_owned(),
        flow: Some("f".to_owned()),
        level: 3,
    };
    let (json, addition) = grant_addition(GrantProtocol::Vless, "t", &client);
    assert_eq!(json.text_of("id"), Some("u"));
    assert_eq!(json.text_of("flow"), Some("f"));
    assert_eq!(json.u64_of("level"), Some(3));
    assert_eq!(addition.level, 3);
    let (json, addition) = grant_addition(GrantProtocol::AnyTls, "t", &client);
    assert_eq!(json.text_of("password"), Some("u"));
    assert_eq!(
        addition.account,
        GrantAccount::AnyTls {
            password: "u".to_owned()
        }
    );
}

#[test]
fn grant_backend_defaults_to_grpc_and_cli_refuses_hysteria_before_writing() {
    assert_eq!(
        grant_write_backend_choice(None).unwrap(),
        GrantWriteBackendChoice::Grpc
    );
    assert_eq!(
        grant_write_backend_choice(Some("grpc")).unwrap(),
        GrantWriteBackendChoice::Grpc
    );
    assert_eq!(
        grant_write_backend_choice(Some("cli")).unwrap(),
        GrantWriteBackendChoice::Cli
    );
    assert!(grant_write_backend_choice(Some("automatic-fallback")).is_err());
    assert!(GrantWriteBackendChoice::Cli
        .validate_protocol(GrantProtocol::Hysteria2)
        .is_err());
    assert!(GrantWriteBackendChoice::Grpc
        .validate_protocol(GrantProtocol::Hysteria2)
        .is_ok());
    assert_eq!(
        grant_write_backend_choice(Some("  ")).unwrap(),
        GrantWriteBackendChoice::Grpc
    );
}

#[test]
fn observed_grants_keep_flow_and_drop_level() {
    let observed = observed_inbounds(&vec![GrantInbound {
        tag: "in:brc/i-main".to_owned(),
        clients: vec![GrantClient {
            email: "alice@example#i-main".to_owned(),
            uuid: "2d2304da-f114-4574-8d44-625afdb1db5c".to_owned(),
            flow: Some("xtls-rprx-vision".to_owned()),
            level: 7,
        }],
    }]);

    assert_eq!(observed[0].clients[0].email, "alice@example#i-main");
    assert_eq!(
        observed[0].clients[0].uuid,
        "2d2304da-f114-4574-8d44-625afdb1db5c"
    );
    assert_eq!(
        observed[0].clients[0].flow,
        Some("xtls-rprx-vision".to_owned())
    );
}

#[test]
fn the_plan_removes_the_stale_and_adds_the_missing() {
    let inbound = GrantInbound {
        tag: "in:a".to_owned(),
        clients: want(&[("keep", "1"), ("changed", "new"), ("added", "3")]),
    };
    let actual = live(&[("stale", "9"), ("changed", "old"), ("keep", "1")]);
    let plan = plan_inbound(GrantProtocol::Vless, &inbound, &actual);
    assert_eq!(plan.removals, vec!["changed", "stale"]);
    assert_eq!(
        plan.additions
            .iter()
            .map(|addition| addition.email.as_str())
            .collect::<Vec<_>>(),
        ["changed", "added"]
    );
    assert_eq!(plan.clients.len(), 2);
    let settled = plan_inbound(GrantProtocol::Vless, &inbound, &live(&[
        ("keep", "1"),
        ("changed", "new"),
        ("added", "3"),
    ]));
    assert!(settled.removals.is_empty());
    assert!(settled.additions.is_empty());
}

#[test]
fn an_inbound_that_takes_no_accounts_stops_the_work_before_anybody_is_removed() {
    let config = r#"{"inbounds":[{"tag":"in:a","protocol":"vless"},{"tag":"in:b","protocol":"socks"},{"tag":"in:c"},{"tag":"in:d","protocol":"hysteria"}]}"#;
    let inbound = |tag: &str| GrantInbound {
        tag: tag.to_owned(),
        clients: Vec::new(),
    };
    let desired = vec![inbound("in:a"), inbound("in:b"), inbound("in:c"), inbound("in:d"), inbound("in:e")];
    let step = |done: usize, backend| {
        let mut sync = sync_grants_with_backend(config, &desired, backend).unwrap();
        sync.done = done;
        sync.step()
    };
    let grpc = GrantWriteBackendChoice::Grpc;
    assert_eq!(
        step(0, grpc),
        SyncStep::Read {
            protocol: GrantProtocol::Vless
        }
    );
    assert_eq!(
        step(1, grpc),
        SyncStep::Fail {
            error: "xray inbound in:b protocol socks does not support dynamic grants".to_owned()
        }
    );
    assert_eq!(
        step(2, grpc),
        SyncStep::Fail {
            error: "xray inbound in:c is missing protocol".to_owned()
        }
    );
    assert!(matches!(
        step(3, GrantWriteBackendChoice::Cli),
        SyncStep::Fail { .. }
    ));
    assert_eq!(
        step(4, grpc),
        SyncStep::Fail {
            error: "xray config does not contain inbound tag in:e".to_owned()
        }
    );
    assert_eq!(step(5, grpc), SyncStep::Add);
    let any = parse_json(r#"{"protocol":"anytls"}"#).unwrap();
    assert_eq!(grant_protocol(&any, "t").unwrap(), GrantProtocol::AnyTls);
}

#[test]
fn the_command_line_names_its_server_right_behind_the_verb() {
    assert_eq!(
        remove_user_args(10085, "in:a", "e"),
        vec!["api", "rmu", "--server=127.0.0.1:10085", "-tag=in:a", "e"]
    );
    assert_eq!(
        add_users_args(1, "/s/grants.adu.json"),
        vec!["api", "adu", "--server=127.0.0.1:1", "/s/grants.adu.json"]
    );
}

#[test]
fn accounts_are_reported_in_one_order() {
    let client = |email: &str, uuid: &str, flow: Option<&str>| ObservedClient {
        email: email.to_owned(),
        uuid: uuid.to_owned(),
        flow: flow.map(str::to_owned),
    };
    let read = read_observed_grants(vec![
        ObservedInbound {
            tag: "b".to_owned(),
            clients: vec![
                client("z", "1", None),
                client("a", "2", Some("f")),
                client("a", "2", None),
                client("a", "1", None),
            ],
        },
        ObservedInbound {
            tag: "a".to_owned(),
            clients: Vec::new(),
        },
    ]);
    assert_eq!(read[0].tag, "a");
    assert_eq!(
        read[1].clients,
        vec![
            client("a", "1", None),
            client("a", "2", None),
            client("a", "2", Some("f")),
            client("z", "1", None),
        ]
    );
}

fn swap() -> HotSwap {
    HotSwap {
        add_outbounds: vec!["{\"tag\":\"o\"}".to_owned()],
        remove_outbounds: vec!["old-o".to_owned()],
        add_rules: vec!["{\"ruleTag\":\"r\"}".to_owned(), "{\"ruleTag\":\"s\"}".to_owned()],
        remove_rule_tags: vec!["old-r".to_owned()],
        add_inbounds: vec!["{\"tag\":\"i\"}".to_owned()],
        remove_inbounds: vec!["old-i".to_owned()],
    }
}

#[test]
fn a_swap_keeps_the_order_that_leaves_no_gap() {
    assert_eq!(
        apply_hot_swap(&swap()),
        vec![
            SwapStep::StageOutbounds,
            SwapStep::AddOutbounds,
            SwapStep::RemoveInbounds,
            SwapStep::StageRules,
            SwapStep::AppendRules,
            SwapStep::RemoveRules,
            SwapStep::StageInbounds,
            SwapStep::AddInbounds,
            SwapStep::SyncGrants,
            SwapStep::RemoveOutbounds,
        ]
    );
    let nothing = HotSwap {
        add_outbounds: Vec::new(),
        remove_outbounds: Vec::new(),
        add_rules: Vec::new(),
        remove_rule_tags: vec!["left alone".to_owned()],
        add_inbounds: Vec::new(),
        remove_inbounds: Vec::new(),
    };
    assert!(apply_hot_swap(&nothing).is_empty());
}

#[test]
fn a_swap_is_staged_as_it_is_loaded() {
    assert_eq!(
        swap_action(SwapStep::StageRules, &swap(), "/s", 10085),
        SwapAction::Write {
            path: "/s/hotswap.rules.json".to_owned(),
            content: "{\"routing\":{\"rules\":[{\"ruleTag\":\"r\"},{\"ruleTag\":\"s\"}]}}".to_owned()
        }
    );
    assert_eq!(
        swap_action(SwapStep::AppendRules, &swap(), "/s", 10085),
        SwapAction::Run {
            args: vec![
                "api".to_owned(),
                "adrules".to_owned(),
                "--server=127.0.0.1:10085".to_owned(),
                "-append".to_owned(),
                "/s/hotswap.rules.json".to_owned()
            ]
        }
    );
    assert_eq!(
        swap_action(SwapStep::RemoveOutbounds, &swap(), "/s", 10085),
        SwapAction::Run {
            args: vec![
                "api".to_owned(),
                "rmo".to_owned(),
                "--server=127.0.0.1:10085".to_owned(),
                "old-o".to_owned()
            ]
        }
    );
    assert_eq!(
        swap_action(SwapStep::SyncGrants, &swap(), "/s", 10085),
        SwapAction::SyncGrants
    );
}

#[test]
fn only_the_clients_of_an_inbound_change() {
    let config = parse_json(
        r#"{"inbounds":[{"tag":"x"},{"tag":"in:a","n":-3,"f":0.5,"settings":{"clients":[1],"decryption":"none"}}]}"#,
    )
    .unwrap();
    let found = inbound_with_clients(&config, "in:a", vec![unsigned(7)]).unwrap();
    let expected = parse_json(
        r#"{"tag":"in:a","n":-3,"f":0.5,"settings":{"clients":[7],"decryption":"none"}}"#,
    )
    .unwrap();
    assert_eq!(found, expected);
    assert!(matches!(found.get("n"), Some(Json::Number { value: None, text }) if text == "-3"));

    let bare = inbound_with_clients(&config, "x", Vec::new()).unwrap();
    assert!(bare.get("settings").unwrap().get("clients").is_some());
    assert_eq!(
        inbound_with_clients(&config, "in:b", Vec::new()).unwrap_err(),
        "xray config does not contain inbound tag in:b"
    );
}

fn client(email: &str, uuid: &str) -> GrantClient {
    GrantClient {
        email: email.to_owned(),
        uuid: uuid.to_owned(),
        flow: None,
        level: 0,
    }
}

#[test]
fn one_call_carries_what_is_missing_on_any_inbound() {
    let config = r#"{"inbounds":[{"tag":"in:a","protocol":"vless"},{"tag":"in:b","protocol":"vless"},{"tag":"in:c","protocol":"hysteria"}]}"#;
    let desired = vec![
        GrantInbound {
            tag: "in:a".to_owned(),
            clients: vec![client("keep", "1"), client("new", "2")],
        },
        GrantInbound {
            tag: "in:b".to_owned(),
            clients: vec![client("keep", "1")],
        },
        GrantInbound {
            tag: "in:c".to_owned(),
            clients: vec![client("changed", "3")],
        },
    ];
    let seen = |email: &str, uuid: &str| ObservedClient {
        email: email.to_owned(),
        uuid: uuid.to_owned(),
        flow: None,
    };
    let grpc = GrantWriteBackendChoice::Grpc;
    let mut sync = sync_grants_with_backend(config, &desired, grpc).unwrap();
    for (live, gone) in [
        (vec![seen("keep", "1"), seen("stale", "9")], vec!["stale"]),
        (vec![seen("keep", "1")], vec![]),
        (vec![seen("changed", "old")], vec!["changed"]),
    ] {
        assert!(matches!(sync.step(), SyncStep::Read { .. }));
        let plan = sync.plan(&live);
        assert_eq!(plan.removals, gone);
        sync.take(plan);
    }
    assert_eq!(sync.step(), SyncStep::Add);
    let (additions, inbounds) = sync.finish().unwrap();
    let told = additions
        .iter()
        .map(|one| (one.tag.as_str(), one.email.as_str()))
        .collect::<Vec<_>>();
    assert_eq!(told, vec![("in:a", "new"), ("in:c", "changed")]);
    let tags = inbounds
        .iter()
        .map(|one| one.text_of("tag").unwrap())
        .collect::<Vec<_>>();
    assert_eq!(tags, vec!["in:a", "in:c"]);
}

#[test]
fn nothing_is_added_where_nothing_is_missing() {
    let config = r#"{"inbounds":[{"tag":"in:a","protocol":"vless"}]}"#;
    let desired = vec![GrantInbound {
        tag: "in:a".to_owned(),
        clients: Vec::new(),
    }];
    let grpc = GrantWriteBackendChoice::Grpc;
    let mut sync = sync_grants_with_backend(config, &desired, grpc).unwrap();
    let plan = sync.plan(&Vec::new());
    sync.take(plan);
    assert!(sync.finish().is_none());
    assert!(sync_grants_with_backend("{", &desired, grpc).is_err());
}
