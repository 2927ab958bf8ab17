use brocade_agent::json::{parse_json, Json};
use brocade_agent::paths::file_name;
use brocade_agent::converge::FileStep;
use brocade_agent::phantun::{
    apply_phantun, command_line_matches, converge_linux_phantun, ensure_phantun_binary,
    observe_linux_phantun, phantun_instance_running, phantun_instances, phantun_log_path,
    phantun_nat_intact, phantun_runtime_probes, phantun_servers, phantun_wanted,
    prepare_phantun_binaries, prune_phantun_logs, spawn_phantun, split_cmdline, tun_fields,
    served_peers, PhantunAction, PhantunFindings, PhantunInstance, PhantunInstanceKind, PhantunTun,
};
use brocade_agent::plan::{AppliedArtifactState, DesiredArtifact};
use brocade_agent::selfupdate::BinarySource;

fn json(text: &str) -> Json {
    parse_json(text).unwrap()
}

#[test]
fn both_the_old_singular_server_and_the_new_array_are_read() {
    let new = json(r#"{ "servers": [{ "tcp_port": 39743 }, { "tcp_port": 39744 }] }"#);
    assert_eq!(phantun_servers(&new).len(), 2);

    let old = json(r#"{ "server": { "tcp_port": 39743 } }"#);
    let found = phantun_servers(&old);
    assert_eq!(found.len(), 1, "老格式的单数 server 也要认");
    assert_eq!(found[0].u64_of("tcp_port"), Some(39743));

    assert!(phantun_servers(&json(r#"{ "clients": [] }"#)).is_empty());
}

#[test]
fn the_new_array_wins_when_both_spellings_are_present() {
    let both = json(r#"{ "servers": [{ "tcp_port": 39743 }], "server": { "tcp_port": 1 } }"#);
    let found = phantun_servers(&both);
    assert_eq!(found.len(), 1);
    assert_eq!(found[0].u64_of("tcp_port"), Some(39743));
}

#[test]
fn wanted_is_false_for_an_empty_plan_and_true_for_either_side() {
    assert!(!phantun_wanted(Some(r#"{"servers":[],"clients":[]}"#)));
    assert!(
        phantun_wanted(Some(r#"{"servers":[{"tcp_port":39743}]}"#)),
        "只有服务端也算要跑"
    );
    assert!(
        phantun_wanted(Some(r#"{"clients":[{"listen_udp_port":51820}]}"#)),
        "只有客户端也算要跑"
    );
}

#[test]
fn wanted_is_false_when_the_plan_is_missing_or_unparsable() {
    assert!(!phantun_wanted(None));
    assert!(!phantun_wanted(Some("{ 这不是 JSON")));
}

const PLAN: &str = r#"{
    "servers": [{
        "tcp_port": 39743,
        "forward_to_udp_port": 51820,
        "tun": { "name": "bts0", "local": "192.168.200.1", "peer": "192.168.200.2" }
    }],
    "clients": [{
        "listen_udp_port": 29000,
        "remote_tcp_endpoint": "198.51.100.8:39743",
        "peer": "hk-01",
        "tun": { "name": "btc1", "local": "192.168.200.5", "peer": "192.168.200.6" }
    }]
}"#;

#[test]
fn instances_keep_server_and_client_commands_distinct() {
    let found = phantun_instances(Ok(PLAN)).unwrap();
    assert_eq!(found.len(), 2);
    assert!(matches!(
        found[0].kind,
        PhantunInstanceKind::Server {
            tcp_port: 39743,
            forward_to_udp_port: 51820
        }
    ));
    assert_eq!(found[0].label(), "服务端 tcp :39743");
    assert_eq!(
        found[0].args()[..4],
        ["--local", "39743", "--remote", "127.0.0.1:51820"]
    );
    assert!(matches!(
        found[1].kind,
        PhantunInstanceKind::Client {
            listen_udp_port: 29000,
            ..
        }
    ));
    assert_eq!(found[1].label(), "客户端 udp :29000 → hk-01");
}

#[test]
fn instances_reject_an_entry_without_its_port() {
    assert_eq!(
        phantun_instances(Ok(r#"{"servers":[{"no_port":true}]}"#)).unwrap_err(),
        "phantun.json: servers[].tcp_port 缺失"
    );
}

#[test]
fn only_clients_are_probed_for_a_listen_socket() {
    let instances = phantun_instances(Ok(PLAN)).unwrap();
    let yes = Some(true);
    assert_eq!(
        phantun_runtime_probes(&instances[0], yes, yes, yes).len(),
        2
    );
    assert_eq!(
        phantun_runtime_probes(&instances[1], yes, yes, yes).len(),
        3
    );

    let mut command = vec!["/usr/local/bin/phantun-server".to_owned()];
    command.extend(instances[0].args());
    assert!(command_line_matches(&instances[0], &command));
    let line = command.join("\0").into_bytes();
    assert_eq!(split_cmdline(&line), command);
    assert_eq!(
        phantun_instance_running(&instances[0], Some(&vec![line])),
        Some(true)
    );
    assert_eq!(
        phantun_instance_running(&instances[0], Some(&Vec::new())),
        Some(false)
    );
    assert_eq!(phantun_instance_running(&instances[0], None), None);
    command[2] = "39744".to_owned();
    assert!(!command_line_matches(&instances[0], &command));
}

#[test]
fn tun_fields_name_the_missing_key_instead_of_guessing() {
    let ok = json(
        r#"{ "tun": { "name": "bt0", "local": "192.168.201.1", "peer": "192.168.201.2" } }"#,
    );
    assert_eq!(
        tun_fields(&ok).unwrap(),
        (
            "bt0".to_owned(),
            "192.168.201.1".to_owned(),
            "192.168.201.2".to_owned()
        )
    );

    let missing_peer = json(r#"{ "tun": { "name": "bt0", "local": "192.168.201.1" } }"#);
    assert_eq!(
        tun_fields(&missing_peer).unwrap_err(),
        "phantun.json: tun.peer 缺失"
    );

    assert_eq!(
        tun_fields(&json("{}")).unwrap_err(),
        "phantun.json: 实例缺 tun"
    );
}

fn present() -> DesiredArtifact {
    DesiredArtifact::Present {
        content: "{}".to_owned(),
        sha256: "ignored".to_owned(),
    }
}

fn unmanaged() -> DesiredArtifact {
    DesiredArtifact::Unmanaged {
        reason: "不归这台管".to_owned(),
    }
}

fn findings(plan: Option<&str>, disabled: bool) -> PhantunFindings<'_> {
    PhantunFindings {
        plan,
        disabled,
        running: false,
        bounded_log: true,
        digest: Ok("abc"),
    }
}

#[test]
fn both_marker_files_present_is_dirty() {
    let state = observe_linux_phantun(&present(), &findings(Some("{}"), true));
    assert!(
        matches!(state, AppliedArtifactState::Dirty { .. }),
        "两个标记同时存在必须是 dirty，实际 {state:?}"
    );
}

#[test]
fn no_marker_file_at_all_is_unknown() {
    let state = observe_linux_phantun(&present(), &findings(None, false));
    assert_eq!(state, AppliedArtifactState::Unknown);
}

#[test]
fn unmanaged_short_circuits_before_touching_the_disk() {
    let state = observe_linux_phantun(&unmanaged(), &findings(Some("{}"), true));
    assert_eq!(state, AppliedArtifactState::Unmanaged);
}

#[test]
fn unmanaged_converge_writes_nothing() {
    assert!(matches!(
        converge_linux_phantun(&unmanaged()),
        PhantunAction::Nothing
    ));
    assert!(matches!(
        converge_linux_phantun(&present()),
        PhantunAction::Apply { .. }
    ));
}

#[test]
fn retired_instance_logs_are_removed_without_touching_unrelated_files() {
    let instance = PhantunInstance {
        kind: PhantunInstanceKind::Client {
            peer: "peer".to_owned(),
            listen_udp_port: 3000,
            remote_tcp_endpoint: "192.0.2.1:443".to_owned(),
        },
        tun: PhantunTun {
            name: "bt/0".to_owned(),
            local: "10.0.0.1".to_owned(),
            peer: "10.0.0.2".to_owned(),
        },
    };
    let keep = file_name(&phantun_log_path("/state", &instance)).unwrap();
    let names = vec![
        keep,
        "phantun-client-retired.log".to_owned(),
        "notes.log".to_owned(),
    ];
    assert_eq!(
        prune_phantun_logs(&vec![instance], &names).unwrap(),
        vec!["phantun-client-retired.log"]
    );
}

#[test]
fn a_plan_is_spawned_and_let_through() {
    let plan = apply_phantun("/usr/bin/agent", "/state", PLAN).unwrap();
    assert!(apply_phantun("/usr/bin/agent", "/state", "not json").is_err());
    assert!(apply_phantun("/usr/bin/agent", "/state", "{\"servers\":[{}]}").is_err());
    assert_eq!(plan.instances.len(), 2);
    assert_eq!(plan.spawn.len(), 2);
    assert!(plan.firewall.is_some());
    assert!(plan.spawn[0].contains("phantun-server"));
    assert_eq!(
        plan.spawn[0],
        spawn_phantun("/usr/bin/agent", "/state", &plan.instances[0])
    );
    assert_eq!(prepare_phantun_binaries(PLAN).unwrap(), (true, true));
    assert!(prepare_phantun_binaries("not json").is_err());
    assert!(phantun_nat_intact(true, Some("1\n"), true));
    assert!(!phantun_nat_intact(true, Some("0\n"), true));
}

#[test]
fn a_missing_program_is_fetched_only_from_a_source() {
    assert!(ensure_phantun_binary("phantun-server", true, None)
        .unwrap()
        .is_none());
    assert!(ensure_phantun_binary("phantun-server", false, None).is_err());
    let source = BinarySource {
        url: "https://x/phantun".to_owned(),
        sha256: "a".repeat(64),
    };
    assert!(
        ensure_phantun_binary("phantun-server", false, Some(&source))
            .unwrap()
            .is_some()
    );
}

#[test]
fn a_layer_taken_down_is_marked_once_nothing_of_it_is_left() {
    let desired = DesiredArtifact::Disabled {
        reason: "off".to_owned(),
    };
    let gone = |name: &str| FileStep::Remove {
        name: name.to_owned(),
    };
    assert_eq!(
        converge_linux_phantun(&desired),
        PhantunAction::Disable {
            files: vec![
                gone("phantun.json"),
                gone("phantun.bounded-log-v2"),
                gone("phantun.bounded-log-v1"),
                FileStep::Mark {
                    name: "phantun.disabled".to_owned(),
                    reason: "off".to_owned(),
                },
            ],
        }
    );
}

#[test]
fn the_peers_of_a_layer_are_those_its_servers_name() {
    let plan = r#"{"servers":[{"peer":"jp-01"},{"port":1},{"peer":"sg-01"}]}"#;
    assert_eq!(served_peers(Some(plan)), vec!["jp-01", "sg-01"]);
    let single = r#"{"server":{"peer":"jp-01"},"clients":[{"peer":"us-01"}]}"#;
    assert_eq!(served_peers(Some(single)), vec!["jp-01"]);
    assert!(served_peers(Some("{")).is_empty());
    assert!(served_peers(None).is_empty());
}
