use brocade_agent::paths::parent;
use brocade_agent::apply::{
    after_round, begin_round, desired_outcome, end_round, go_on, on_answer, on_decoded,
    persist_converged_usage_generation, reload_is_awaited, run_forever, successful_apply_outcome,
    wait_for_xray_certificate_reload, AfterRound, Asked, Start, Step,
};
use brocade_agent::commands::{run, task_without_options, Task};
use brocade_agent::converge::{
    api_port_or_default, apply_wireguard, apply_xray, converge_artifact, converge_grants,
    converge_linux, converge_linux_wireguard, converge_linux_xray, converged_artifact,
    grants_source, observe_linux_grants, observe_linux_wireguard, observe_linux_xray,
    observe_port_hop, FileStep, GrantsStep, Stage, WireguardAction, WireguardFindings, XrayAction,
    XrayFindings, XrayReading,
};
use brocade_agent::health::{health, never_converged, print_line, Facts, StateFiles, Status};
use brocade_agent::http::parse_http_response;
use brocade_agent::options::ApplyMode;
use brocade_agent::order::TextMap;
use brocade_agent::phantun::RuntimeProbe;
use brocade_agent::plan::{
    unknown_state, AppliedArtifactState, AppliedGrantsState, DesiredArtifact, DesiredGrants,
    ReportedNodeState, TargetApplyResult,
};
use brocade_agent::policy::{log_policy_from_response, LogPolicy, PolicyError};
use brocade_agent::probe::{hop_downlinks_from_stats, HopBaseline, XrayStat};
use brocade_agent::processes::{
    live_processes_named, parse_proc_stat, process_ref, terminate_xray, xray_process_identity,
    Entry, ProcessRef, StopStep, Stopping,
};
use brocade_agent::reconcile::{
    health_state_dir, is_needed, reconcile_local, reconcile_outcome, record_local_reconcile, with_record, Drift, Findings,
    Kept, Part, LOCAL_RECONCILE_FILE,
};
use brocade_agent::reports::{LatestReport, RuntimeReports, SettingsCache, Wait};
use brocade_agent::routes::{
    observe_geodata, route_headers, route_source_ip, which_xray, xray_asset_dirs, RouteFamily,
    RouteIpReport,
};
use brocade_agent::schedule::next_periodic_tick;
use brocade_agent::shell::shell_quote;
use brocade_agent::spool::{after_delivery, spool_push, spool_read, Delivery};
use brocade_agent::usage::{
    collect_usage_report, first_cursor, parse_xray_stat_name, read_usage_generation,
    reserve_usage_sequence, usage_counters_from_stats, usage_cycle, write_usage_generation,
    FileText, StoredCursor, UsageCursor,
};
use brocade_agent::wg::{PeerCheck, PeerState};
use brocade_agent::workload::{classify_workload_runtime, WorkloadRuntime};
use brocade_agent::xray::{
    xray_api_port, xray_inbound_by_tag, xray_listen_ports, xray_needs_splice_disabled,
    XrayListenProtocol,
};
use brocade_agent::json::parse_json;

#[test]
fn log_policy_prefers_specific_headers_and_falls_back_to_the_legacy_scalar() {
    let specific = parse_http_response(
        b"HTTP/1.1 204 No Content\r\nX-Brocade-Log-Max-MiB: 64\r\nX-Brocade-Agent-Journal-Max-MiB: 96\r\nX-Brocade-Xray-Log-Max-MiB: 80\r\nX-Brocade-Phantun-Log-Max-MiB: 72\r\nContent-Length: 0\r\n\r\n",
    )
    .unwrap();
    assert_eq!(
        log_policy_from_response(&specific).unwrap(),
        Some(LogPolicy {
            agent_journal_mib: 96,
            xray_mib: 80,
            phantun_mib: 72,
        })
    );

    let legacy = parse_http_response(
        b"HTTP/1.1 204 No Content\r\nX-Brocade-Log-Max-MiB: 64\r\nContent-Length: 0\r\n\r\n",
    )
    .unwrap();
    assert_eq!(
        log_policy_from_response(&legacy).unwrap(),
        Some(LogPolicy {
            agent_journal_mib: 64,
            xray_mib: 64,
            phantun_mib: 64,
        })
    );
}

#[test]
fn a_log_policy_that_cannot_be_used_is_an_error() {
    let partial =
        parse_http_response(b"HTTP/1.1 204 No Content\r\nX-Brocade-Xray-Log-Max-MiB: 80\r\n\r\n")
            .unwrap();
    assert!(matches!(
        log_policy_from_response(&partial),
        Err(PolicyError::Missing { .. })
    ));
    let odd =
        parse_http_response(b"HTTP/1.1 204 No Content\r\nX-Brocade-Log-Max-MiB: many\r\n\r\n")
            .unwrap();
    assert!(matches!(
        log_policy_from_response(&odd),
        Err(PolicyError::Unreadable { .. })
    ));
    let silent = parse_http_response(b"HTTP/1.1 204 No Content\r\n\r\n").unwrap();
    assert_eq!(log_policy_from_response(&silent).unwrap(), None);
}

const SECOND: u64 = 1_000_000_000;

#[test]
fn a_periodic_tick_does_not_add_the_round_duration() {
    let started = 1_000 * SECOND;
    let interval = 5 * SECOND;

    assert_eq!(
        next_periodic_tick(started, interval, started + 2 * SECOND),
        started + interval,
    );
}

#[test]
fn an_overdue_periodic_tick_skips_catch_up_work() {
    let started = 1_000 * SECOND;
    let interval = 5 * SECOND;
    let finished = started + 7 * SECOND;

    assert_eq!(
        next_periodic_tick(started, interval, finished),
        started + 10 * SECOND,
    );
}

#[test]
fn a_busy_ping_sender_keeps_only_the_latest_pending_report() {
    let mut reports: LatestReport<i64> = LatestReport::new();

    reports.publish(1);
    reports.publish(2);
    reports.publish(3);

    let (latest, dropped) = reports.take().unwrap();
    assert_eq!(latest, 3);
    assert_eq!(dropped, 2);
    assert!(reports.try_take().is_none());
}

#[test]
fn a_drained_spool_replaces_a_stale_runtime_backlog_snapshot() {
    let mut reports: RuntimeReports<u64> = RuntimeReports { last_spool: None };
    reports.publish_current(1);

    assert!(reports.publish_if_spool_changed(&0));
    reports.publish_current(0);
    assert!(!reports.publish_if_spool_changed(&0));
}

#[derive(Debug, Clone, PartialEq)]
struct PingProbeSettings {
    targets: Vec<String>,
    interval_secs: u32,
    timeout_ms: u32,
}

#[test]
fn a_ping_settings_refresh_replaces_the_cached_snapshot() {
    let mut cache: SettingsCache<PingProbeSettings> = SettingsCache::new();
    let settings = |interval_secs| PingProbeSettings {
        targets: Vec::new(),
        interval_secs,
        timeout_ms: 420,
    };

    assert!(cache.publish(settings(60)));
    let previous = cache.wait_for_initial().cloned().unwrap();
    assert!(matches!(
        cache.wait_for_change_until(&previous, 0, SECOND),
        Wait::Sleep(SECOND)
    ));
    assert!(cache.publish(settings(5)));

    match cache.wait_for_change_until(&previous, 0, SECOND) {
        Wait::Changed(updated) => assert_eq!(updated.interval_secs, 5),
        _ => panic!("changed settings should wake the sampler"),
    }
}

fn untouched() -> Findings {
    let absent = Kept {
        present: false,
        disabled: false,
    };
    Findings {
        phantun: absent,
        phantun_wanted: false,
        phantun_broken: false,
        wireguard: absent,
        wg_interface: false,
        wg_wanted_mtu: None,
        wg_live_mtu: None,
        port_hop: absent,
        port_hop_matches: true,
        xray: absent,
        xray_broken: false,
        conntrack_matches: true,
        grants_kept: false,
        grants_drifted: false,
    }
}

#[test]
fn a_failed_local_reconcile_is_recorded_before_returning() {
    let acted = reconcile_local(Drift::Always, &untouched());
    assert!(acted.is_empty());
    let error = reconcile_outcome(Drift::Always, &acted, "/state").unwrap_err();
    let report = record_local_reconcile(&acted, &Err(error.clone()));
    assert_eq!(report.actions, Vec::<String>::new());
    assert_eq!(report.error.as_deref(), Some(error.as_str()));
    assert_eq!(LOCAL_RECONCILE_FILE, "local-reconcile.json");
    assert_eq!(
        with_record(Err(error.clone()), Ok(())).unwrap_err(),
        error
    );
    assert!(with_record(Err(error.clone()), Err("disk full".to_owned()))
        .unwrap_err()
        .contains("disk full"));
    assert!(with_record(Ok(()), Err("disk full".to_owned())).is_err());
}

#[test]
fn a_healthy_machine_is_left_alone_and_a_broken_one_is_replayed_in_order() {
    let there = Kept {
        present: true,
        disabled: false,
    };
    let mut found = untouched();
    found.phantun = there;
    found.phantun_wanted = true;
    found.wireguard = there;
    found.wg_interface = true;
    found.wg_wanted_mtu = Some(1200);
    found.wg_live_mtu = Some(1200);
    found.port_hop = there;
    found.xray = there;
    found.grants_kept = true;
    assert!(reconcile_local(Drift::OnlyWhenBroken, &found).is_empty());
    assert_eq!(
        reconcile_outcome(Drift::OnlyWhenBroken, &Vec::new(), "/state").unwrap(),
        None
    );

    found.wg_live_mtu = Some(1420);
    found.xray_broken = true;
    let acted = reconcile_local(Drift::OnlyWhenBroken, &found);
    assert_eq!(acted, vec![Part::Wireguard, Part::Xray, Part::Grants]);
    assert_eq!(
        reconcile_outcome(Drift::OnlyWhenBroken, &acted, "/state").unwrap(),
        Some("本地对账：重放了 wireguard、xray、grants".to_owned())
    );
    assert!(!is_needed(Part::Conntrack, Drift::OnlyWhenBroken, &found));
    assert_eq!(reconcile_local(Drift::Always, &found).len(), 6);
}

fn probe(failed: &str, unknown: &str, result: Option<bool>) -> RuntimeProbe {
    RuntimeProbe {
        failed: failed.to_owned(),
        unknown: unknown.to_owned(),
        result,
    }
}

#[test]
fn definite_workload_breakage_wins_over_an_unknown_probe() {
    let status = classify_workload_runtime(
        true,
        None,
        &vec![
            probe("in:a :443 坏了", "in:a :443 查不了", None),
            probe("in:b :8443 坏了", "in:b :8443 查不了", Some(false)),
        ],
    );
    assert!(matches!(status, WorkloadRuntime::Broken(_)));
}

#[test]
fn unavailable_port_tools_do_not_trigger_a_restart() {
    let status = classify_workload_runtime(
        true,
        None,
        &vec![probe("in:a :443 坏了", "in:a :443 查不了", None)],
    );
    assert!(matches!(status, WorkloadRuntime::Unknown(_)));
}

fn blank_facts() -> Facts {
    Facts {
        state_dir: "/state".to_owned(),
        files: StateFiles {
            wireguard_conf: false,
            wireguard_disabled: false,
            xray_json: false,
            xray_disabled: false,
            phantun_json: false,
            phantun_disabled: false,
            applied_state: false,
            no_desired: false,
        },
        wg_interface: false,
        wg_wanted_mtu: None,
        wg_mtu_file: Err("absent".to_owned()),
        peers: Ok(Vec::new()),
        phantun_wanted: false,
        phantun: WorkloadRuntime::Healthy,
        phantun_running: false,
        xray: Ok(WorkloadRuntime::Healthy),
        grants_drifted: Ok(None),
    }
}

#[test]
fn a_node_nobody_deployed_to_is_pending_not_broken() {
    let mut facts = blank_facts();

    assert!(health(&facts).1.is_err());

    facts.files.no_desired = true;
    assert!(health(&facts).1.is_ok());

    facts.files.no_desired = false;
    assert!(health(&facts).1.is_err());

    facts.files.no_desired = true;
    facts.files.xray_disabled = true;
    assert!(!never_converged(&facts.files));
    assert!(health(&facts).1.is_err());
}

#[test]
fn a_machine_on_which_all_runs_is_healthy_and_a_lost_account_is_not() {
    let mut facts = blank_facts();
    facts.files.wireguard_conf = true;
    facts.files.xray_json = true;
    facts.wg_interface = true;
    facts.wg_wanted_mtu = Some(1200);
    facts.wg_mtu_file = Ok("1200\n".to_owned());
    facts.peers = Ok(vec![PeerCheck {
        name: "sg-01".to_owned(),
        overlay_ip: None,
        handshake_age: Some(10),
        endpoint_drift: None,
        stray_endpoint: None,
        state: PeerState::Fresh,
    }]);
    facts.grants_drifted = Ok(Some(false));
    let (lines, verdict) = health(&facts);
    assert_eq!(verdict.unwrap(), "健康：全部检查通过");
    assert_eq!(lines.len(), 5);
    assert_eq!(
        print_line(&lines[2]),
        "  peer       ok        sg-01 握手正常"
    );

    facts.grants_drifted = Ok(Some(true));
    facts.wg_mtu_file = Ok("1420\n".to_owned());
    let (lines, verdict) = health(&facts);
    assert_eq!(verdict.unwrap_err(), "健康检查有 2 项没通过");
    assert_eq!(lines[1].status, Status::Failed);

    facts.xray = Err("denied".to_owned());
    assert_eq!(
        health(&facts).1.unwrap_err(),
        "读不了 /state/xray.json: denied"
    );
}

#[test]
fn a_peer_that_could_not_be_asked_does_not_fail_the_check() {
    let mut facts = blank_facts();
    facts.files.wireguard_conf = true;
    facts.files.xray_disabled = true;
    facts.wg_interface = true;
    facts.peers = Ok(vec![PeerCheck {
        name: "sg-01".to_owned(),
        overlay_ip: None,
        handshake_age: None,
        endpoint_drift: None,
        stray_endpoint: None,
        state: PeerState::Unprobed {
            reason: "开不了 ICMP socket".to_owned(),
        },
    }]);
    assert!(health(&facts).1.is_ok());
}

#[test]
fn secret_artifacts_land_with_owner_only_permissions() {
    let desired = DesiredArtifact::Present {
        content: "[Interface]\nPrivateKey = secret\n".to_owned(),
        sha256: "ignored".to_owned(),
    };
    let steps = converge_artifact("wireguard.conf", "wireguard.disabled", &desired);
    assert_eq!(
        steps[0],
        FileStep::Write {
            name: "wireguard.conf".to_owned(),
            content: "[Interface]\nPrivateKey = secret\n".to_owned(),
        }
    );
    let state = converged_artifact(&desired, Ok("abc")).unwrap();
    assert!(matches!(state, AppliedArtifactState::Present { .. }));
}

#[test]
fn hop_health_needs_a_baseline_and_survives_counter_resets() {
    let tag = "out:relay/c-relay>sg-01".to_owned();
    let counters = |value: u64| {
        let mut map: TextMap<u64> = TextMap::new();
        map.insert(tag.clone(), value);
        map
    };
    let mut baseline = HopBaseline::new();

    let first = baseline.judge_hops(counters(1000), 100);
    assert!(first.is_none(), "第一轮没有上一轮可比，不该报");

    let second = baseline.judge_hops(counters(1600), 130).unwrap();
    assert_eq!(second.window_secs, 30);
    assert_eq!(second.hops[0].chain_id, "relay/c-relay");
    assert_eq!(second.hops[0].peer_node_id, "sg-01");
    assert!(second.hops[0].alive);
    assert_eq!(second.hops[0].downlink_bytes, 600);

    let third = baseline.judge_hops(counters(1600), 160).unwrap();
    assert!(!third.hops[0].alive);
    assert_eq!(third.hops[0].downlink_bytes, 0);

    let fourth = baseline.judge_hops(counters(40), 190).unwrap();
    assert!(!fourth.hops[0].alive);
    assert_eq!(fourth.hops[0].downlink_bytes, 0, "不能算成负数或回绕");
}

fn stat(name: &str, value: i64) -> XrayStat {
    XrayStat {
        name: name.to_owned(),
        value,
    }
}

#[test]
fn hop_downlinks_ignore_egress_and_block() {
    let parsed = hop_downlinks_from_stats(&vec![
        stat(
            "outbound>>>out:relay/c-relay>sg-01>>>traffic>>>downlink",
            900,
        ),
        stat("outbound>>>out:relay/c-relay>sg-01>>>traffic>>>uplink", 120),
        stat("outbound>>>out:egress>>>traffic>>>downlink", 999_999),
        stat("outbound>>>out:block>>>traffic>>>downlink", 0),
    ]);
    assert_eq!(
        parsed
            .entries
            .iter()
            .map(|(key, _)| key.as_str())
            .collect::<Vec<_>>(),
        ["out:relay/c-relay>sg-01"]
    );
    assert_eq!(
        parsed.get("out:relay/c-relay>sg-01"),
        Some(&900),
        "只取 downlink，不要 uplink"
    );
}

#[test]
fn xray_listen_ports_lists_every_inbound_for_the_health_check() {
    let ports = xray_listen_ports(
        r#"{"inbounds":[
             {"tag":"api","listen":"127.0.0.1","port":10085,"protocol":"dokodemo-door"},
             {"tag":"in:brc/i-hk-01","listen":"0.0.0.0","port":444,"protocol":"vless"},
             {"tag":"in:brc/i-hy2","listen":"0.0.0.0","port":443,"protocol":"hysteria"}
           ]}"#,
    );

    assert_eq!(
        ports,
        vec![
            (
                "api".to_owned(),
                "127.0.0.1".to_owned(),
                10085_u16,
                XrayListenProtocol::Tcp,
            ),
            (
                "in:brc/i-hk-01".to_owned(),
                "0.0.0.0".to_owned(),
                444_u16,
                XrayListenProtocol::Tcp,
            ),
            (
                "in:brc/i-hy2".to_owned(),
                "0.0.0.0".to_owned(),
                443_u16,
                XrayListenProtocol::Udp,
            ),
        ]
    );
    assert!(xray_listen_ports("not json").is_empty());
}

#[test]
fn splice_is_disabled_only_for_security_fronts() {
    let ordinary = r#"{"inbounds":[
        {"protocol":"dokodemo-door","settings":{"address":"127.0.0.1"}},
        {"protocol":"vless","settings":{"clients":[]},"streamSettings":{"security":"reality"}}
    ]}"#;
    assert!(!xray_needs_splice_disabled(ordinary).unwrap());

    for security in ["reality", "tls"] {
        let split = format!(
            r#"{{"inbounds":[{{
                "protocol":"dokodemo-door",
                "settings":{{"address":"127.0.0.1","port":20000}},
                "streamSettings":{{"security":"{security}"}}
            }}]}}"#
        );
        assert!(xray_needs_splice_disabled(&split).unwrap(), "{security}");
    }
    assert!(xray_needs_splice_disabled("not json").is_err());
}

#[test]
fn route_headers_only_include_observed_addresses() {
    let headers = route_headers(&RouteIpReport {
        ipv4: Some("198.51.100.10".to_owned()),
        ipv6: None,
    });

    assert_eq!(
        headers,
        vec![(
            "X-Brocade-Route-IPv4".to_owned(),
            "198.51.100.10".to_owned()
        )]
    );
}

#[test]
fn a_route_tells_its_source_only_in_its_own_family() {
    let printed = "1.1.1.1 via 192.0.2.1 dev eth0 src 192.0.2.10 uid 0 \n    cache";
    assert_eq!(
        route_source_ip(Some(printed), RouteFamily::V4).as_deref(),
        Some("192.0.2.10")
    );
    assert_eq!(route_source_ip(Some(printed), RouteFamily::V6), None);
    assert_eq!(route_source_ip(Some("unreachable src"), RouteFamily::V4), None);
    assert_eq!(route_source_ip(None, RouteFamily::V4), None);
}

#[test]
fn parses_xray_user_stats_into_usage_counters() {
    let counters = usage_counters_from_stats(&vec![
        stat("user>>>alice@platform.acme#i-main>>>traffic>>>uplink", 12),
        stat("user>>>alice@platform.acme#i-main>>>traffic>>>downlink", 34),
        stat("inbound>>>in:brc/i-main>>>traffic>>>uplink", 999),
    ]);

    assert_eq!(counters.len(), 1);
    assert_eq!(counters[0].label, "alice@platform.acme#i-main");
    assert_eq!(counters[0].uplink_bytes, 12);
    assert_eq!(counters[0].downlink_bytes, 34);
    assert_eq!(
        parse_xray_stat_name("user>>>a>>>traffic>>>uplink"),
        Some(("a".to_owned(), "uplink".to_owned()))
    );
    assert_eq!(parse_xray_stat_name("user>>>a>>>online"), None);
}

#[test]
fn a_negative_counter_is_not_billed() {
    let counters = usage_counters_from_stats(&vec![
        stat("user>>>b>>>traffic>>>uplink", -1),
        stat("user>>>c>>>traffic>>>uplink", 1),
        stat("user>>>a>>>traffic>>>downlink", 2),
    ]);
    assert_eq!(
        counters
            .iter()
            .map(|counter| counter.label.as_str())
            .collect::<Vec<_>>(),
        ["a", "c"]
    );
}

#[test]
fn parses_proc_stat_state_and_start_ticks() {
    let live = "267 (xray) S 1 190 190 0 -1 4194304 4733 0 1 0 11 2 0 0 20 0 22 0 6594102 1331986432 9415";
    let zombie = "481 (xray) Z 1 481 481 0 -1 4194560 0 0 0 0 0 0 0 0 20 0 1 0 29695008";

    assert_eq!(parse_proc_stat(live).unwrap(), ('S', 6594102));
    assert_eq!(parse_proc_stat(zombie).unwrap(), ('Z', 29695008));
    assert!(parse_proc_stat("no comm").is_err());
    assert!(parse_proc_stat("1 (x) ").is_err());
    assert!(parse_proc_stat("1 (x) S 1").is_err());
}

#[test]
fn a_zombie_does_not_count_as_a_live_process() {
    let zombie = "481 (xray) Z 1 481 481 0 -1 4194560 0 0 0 0 0 0 0 0 20 0 1 0 29695008";
    assert_eq!(process_ref(481, Some(zombie)), None);
    let live = "267 (xray) S 1 190 190 0 -1 4194304 4733 0 1 0 11 2 0 0 20 0 22 0 6594102";
    let entries = vec![
        Entry {
            name: "481".to_owned(),
            comm: Some("xray\n".to_owned()),
            stat: Some(zombie.to_owned()),
        },
        Entry {
            name: "267".to_owned(),
            comm: Some("xray\n".to_owned()),
            stat: Some(live.to_owned()),
        },
    ];
    assert_eq!(
        live_processes_named(&entries, "xray"),
        vec![ProcessRef {
            pid: 267,
            start_ticks: 6594102
        }]
    );
}

#[test]
fn a_stuck_process_is_killed_after_the_short_grace_period() {
    let stuck = vec![ProcessRef {
        pid: 7,
        start_ticks: 1,
    }];
    let none = Vec::new();
    assert!(matches!(
        terminate_xray(Stopping::Begun, &none),
        StopStep::Done
    ));
    assert!(matches!(
        terminate_xray(Stopping::Begun, &stuck),
        StopStep::Terminate
    ));
    assert!(matches!(
        terminate_xray(Stopping::Asked, &stuck),
        StopStep::Kill
    ));
    assert!(matches!(
        terminate_xray(Stopping::Killed, &none),
        StopStep::Done
    ));
    match terminate_xray(Stopping::Killed, &stuck) {
        StopStep::Failed(error) => assert!(error.contains('7'), "{error}"),
        other => panic!("{other:?}"),
    }
}

#[test]
fn the_oldest_live_process_tells_the_epoch() {
    let processes = vec![
        ProcessRef {
            pid: 9,
            start_ticks: 500,
        },
        ProcessRef {
            pid: 3,
            start_ticks: 200,
        },
    ];
    let identity =
        xray_process_identity(&processes, Ok("cpu 1\nbtime 1700000000\n"), Some("100\n")).unwrap();
    assert_eq!(identity.started_at_unix_secs, 1_700_000_002);
    assert_eq!(identity.epoch, "1700000000:200");
    assert!(xray_process_identity(&Vec::new(), Ok("btime 1\n"), None).is_err());
}

#[test]
fn converge_artifact_reports_written_file_hash() {
    let desired = DesiredArtifact::Present {
        content: "{\"ok\":true}\n".to_owned(),
        sha256: "desired-sha-must-not-be-trusted".to_owned(),
    };
    assert_eq!(
        converged_artifact(&desired, Ok("digest of what was read back")).unwrap(),
        AppliedArtifactState::Present {
            sha256: "digest of what was read back".to_owned()
        }
    );
    assert_eq!(converged_artifact(&desired, Err("gone")).unwrap_err(), "gone");
}

#[test]
fn usage_sequence_is_reserved_on_disk_and_survives_process_restart() {
    let first = reserve_usage_sequence(StoredCursor::Absent).unwrap();
    let instance_a = first.agent_instance_id.clone();
    assert_eq!(instance_a.len(), 32);
    assert!(instance_a
        .chars()
        .all(|c| c.is_ascii_digit() || ('a'..='f').contains(&c)));
    let sequence = first.last_sequence;
    let second = reserve_usage_sequence(StoredCursor::Kept(first)).unwrap();
    assert_eq!(instance_a, second.agent_instance_id);
    assert_eq!((sequence, second.last_sequence), (1, 2));
}

#[test]
fn two_agents_never_share_an_identity() {
    let a = reserve_usage_sequence(StoredCursor::Absent).unwrap();
    let b = reserve_usage_sequence(StoredCursor::Absent).unwrap();
    assert_ne!(a.agent_instance_id, b.agent_instance_id);
    assert_eq!(
        first_cursor(&[0x00, 0x0f, 0xa5]).agent_instance_id,
        "000fa5"
    );
}

#[test]
fn a_cursor_that_cannot_be_used_is_an_error() {
    assert_eq!(
        reserve_usage_sequence(StoredCursor::Kept(UsageCursor {
            agent_instance_id: "a".to_owned(),
            last_sequence: u64::MAX,
        }))
        .unwrap_err(),
        "usage sequence exhausted"
    );
    assert_eq!(
        reserve_usage_sequence(StoredCursor::Unreadable("denied".to_owned())).unwrap_err(),
        "failed to read usage cursor: denied"
    );
    assert_eq!(
        reserve_usage_sequence(StoredCursor::Undecodable("bad".to_owned())).unwrap_err(),
        "failed to decode usage cursor: bad"
    );
}

fn all_disabled() -> ReportedNodeState {
    ReportedNodeState {
        phantun: AppliedArtifactState::Disabled,
        wireguard: AppliedArtifactState::Disabled,
        xray: AppliedArtifactState::Disabled,
        hy2_port_hop: AppliedArtifactState::Disabled,
        grants: AppliedGrantsState::Disabled,
    }
}

#[test]
fn usage_generation_persistence_is_part_of_clean_convergence() {
    let outcome = persist_converged_usage_generation(
        Some(42),
        Ok(()),
        (TargetApplyResult::Applied, all_disabled(), None),
    );
    assert_eq!(outcome.0, TargetApplyResult::Applied);
    let kept = write_usage_generation(42);
    assert_eq!(
        read_usage_generation(&FileText::Held(&kept)).unwrap(),
        Some(42)
    );

    let failed = persist_converged_usage_generation(
        Some(43),
        Err("is a directory".to_owned()),
        (TargetApplyResult::Applied, all_disabled(), None),
    );
    assert_eq!(failed.0, TargetApplyResult::FailedDirty);
    assert!(failed.2.unwrap().contains("usage generation"));
}

#[test]
fn a_generation_that_is_no_number_is_an_error() {
    assert_eq!(read_usage_generation(&FileText::Absent).unwrap(), None);
    assert_eq!(
        read_usage_generation(&FileText::Held("-7\n")).unwrap(),
        Some(-7)
    );
    assert_eq!(
        read_usage_generation(&FileText::Held("x")).unwrap_err(),
        "failed to decode usage generation: invalid digit found in string"
    );
    assert!(read_usage_generation(&FileText::Unreadable("denied")).is_err());
}

#[test]
fn spools_keep_separate_files() {
    assert_ne!(
        brocade_agent::spool::USAGE_SPOOL_FILE,
        brocade_agent::spool::OBSERVATION_SPOOL_FILE
    );
    assert_eq!(brocade_agent::spool::USAGE_SPOOL_FILE, "usage.spool.jsonl");
    assert_eq!(
        brocade_agent::spool::OBSERVATION_SPOOL_FILE,
        "observation.spool.jsonl"
    );
}

#[test]
fn a_wireguard_only_node_still_drains_historical_usage() {
    assert!(!collect_usage_report(false, false));
    assert!(!collect_usage_report(true, true));
    assert!(collect_usage_report(true, false));
    assert!(usage_cycle(Ok(()), Ok(())).is_ok());
    assert_eq!(
        usage_cycle(Err("a".to_owned()), Err("b".to_owned())).unwrap_err(),
        "本轮 usage 采集失败：a；历史 usage spool 发送也失败：b"
    );
}

#[test]
fn spool_push_drops_the_oldest_over_the_cap() {
    let mut kept: Vec<String> = Vec::new();
    for n in 0..5 {
        spool_push(&mut kept, format!("{{\"n\":{n}}}"), 3);
    }

    assert_eq!(kept.len(), 3);
    assert!(kept[0].contains("\"n\":2"), "留下的该是最新的三条");
    assert!(kept[2].contains("\"n\":4"));
    assert_eq!(spool_read("{\"n\":2}\n\n{\"n\":3}\n").len(), 2);
}

#[test]
fn an_entry_that_can_never_be_taken_does_not_hold_up_the_rest() {
    let terminal = vec![400];
    assert_eq!(after_delivery(200, &terminal), Delivery::Taken);
    assert_eq!(after_delivery(400, &terminal), Delivery::Refused);
    assert_eq!(after_delivery(503, &terminal), Delivery::Later);
}

/// What a shell makes of a word in single quotes.
fn read_word(word: &str) -> Option<String> {
    let mut out = String::new();
    let mut quoted = false;
    let mut escaped = false;
    for c in word.chars() {
        if quoted {
            if c == '\'' {
                quoted = false;
            } else {
                out.push(c);
            }
        } else if escaped {
            out.push(c);
            escaped = false;
        } else if c == '\'' {
            quoted = true;
        } else if c == '\\' {
            escaped = true;
        } else {
            return None;
        }
    }
    if quoted || escaped {
        None
    } else {
        Some(out)
    }
}

#[test]
fn shell_quoting_neutralizes_a_value_that_tries_to_end_the_quote() {
    assert_eq!(shell_quote("plain"), "'plain'");
    assert_eq!(shell_quote(""), "''");

    for payload in [
        "x'; echo PWNED; echo '",
        "$(echo PWNED)",
        "`echo PWNED`",
        r"a\b$c`d",
        "带空格 和中文",
    ] {
        let quoted = shell_quote(payload);
        let echoed = read_word(&quoted).unwrap();
        assert_eq!(echoed, payload, "{payload} 引用后过一遍 shell 该原样回来");
    }
}

#[test]
fn a_missing_inbound_tag_is_named_in_the_error() {
    let config = parse_json(r#"{"inbounds": [{ "tag": "in:brc/i-main", "port": 443 }]}"#).unwrap();

    let found = xray_inbound_by_tag(&config, "in:brc/i-main").unwrap();
    assert_eq!(found.u64_of("port"), Some(443));

    let error = xray_inbound_by_tag(&config, "in:brc/i-other").unwrap_err();
    assert!(error.contains("in:brc/i-other"), "实际 {error}");
}

#[test]
fn the_api_port_is_none_rather_than_a_guess() {
    let with_api = r#"{"inbounds":[{"tag":"api","port":10085},{"tag":"in:brc","port":443}]}"#;
    assert_eq!(xray_api_port(with_api), Some(10085));

    for bad in [
        r#"{"inbounds":[{"tag":"in:brc","port":443}]}"#,
        r#"{"inbounds":[]}"#,
        r#"{"outbounds":[]}"#,
        "{ 这不是 JSON",
        "",
    ] {
        assert_eq!(xray_api_port(bad), None, "{bad} 该读不出口");
    }

    let overflow = r#"{"inbounds":[{"tag":"api","port":70000}]}"#;
    assert_eq!(xray_api_port(overflow), None);
    assert_eq!(api_port_or_default(overflow), 10085);
}

#[test]
fn disabling_an_artifact_removes_it_and_records_why() {
    let desired = DesiredArtifact::Disabled {
        reason: "这台不跑应用层".to_owned(),
    };
    let steps = converge_artifact("xray.json", "xray.disabled", &desired);
    assert_eq!(
        steps,
        vec![
            FileStep::Remove {
                name: "xray.json".to_owned()
            },
            FileStep::Mark {
                name: "xray.disabled".to_owned(),
                reason: "这台不跑应用层".to_owned()
            },
        ]
    );
    assert_eq!(
        converged_artifact(&desired, Err("absent")).unwrap(),
        AppliedArtifactState::Disabled
    );
}

#[test]
fn an_unmanaged_artifact_leaves_the_state_dir_untouched() {
    let desired = DesiredArtifact::Unmanaged {
        reason: "别人在管".to_owned(),
    };
    assert!(converge_artifact("xray.json", "xray.disabled", &desired).is_empty());
    assert_eq!(
        converged_artifact(&desired, Err("absent")).unwrap(),
        AppliedArtifactState::Unmanaged
    );
}

#[test]
fn a_fresh_machine_reads_back_an_all_unknown_state() {
    let state = unknown_state();
    assert_eq!(state.wireguard, AppliedArtifactState::Unknown);
    assert_eq!(state.grants, AppliedGrantsState::Unknown);
}

#[test]
fn an_applied_state_write_failure_becomes_a_reportable_failed_dirty() {
    let after = ReportedNodeState {
        grants: AppliedGrantsState::Unmanaged,
        ..all_disabled()
    };
    let same = ReportedNodeState {
        grants: AppliedGrantsState::Unmanaged,
        ..all_disabled()
    };

    let (result, observed, error) =
        successful_apply_outcome(after, Err("is a directory".to_owned()));
    assert_eq!(result, TargetApplyResult::FailedDirty);
    assert_eq!(observed, same);
    assert!(error.unwrap().contains("applied-state.json"));

    let (result, _, error) = successful_apply_outcome(all_disabled(), Ok(()));
    assert_eq!(result, TargetApplyResult::Applied);
    assert_eq!(error, None);
}

#[test]
fn databases_are_taken_from_the_first_directory_that_holds_one() {
    let dirs = xray_asset_dirs(Some("/opt/geo"), Some("/usr/local/bin/xray"));
    assert_eq!(
        dirs,
        vec![
            "/opt/geo",
            "/usr/local/bin",
            "/usr/local/share/xray",
            "/usr/share/xray",
            "/opt/share/xray"
        ]
    );
    assert_eq!(xray_asset_dirs(Some("  "), None).len(), 3);
    let present = vec![
        (false, false),
        (false, false),
        (false, true),
        (true, true),
        (false, false),
    ];
    let found = observe_geodata(&dirs, &present).unwrap();
    assert_eq!(found.asset_dir, "/usr/local/share/xray");
    assert_eq!(found.geoip, "/usr/local/share/xray/geoip.dat");
    assert!(observe_geodata(&dirs, &vec![(false, false); 5]).is_none());
    assert_eq!(which_xray("/usr/bin/xray\n").unwrap(), "/usr/bin/xray");
    assert!(which_xray(" \n").is_err());
}

#[test]
fn a_round_looks_after_the_machine_when_nobody_answers() {
    assert_eq!(begin_round(true), vec![Step::Flush, Step::Request]);
    assert_eq!(begin_round(false), vec![Step::Request]);

    let unreachable = on_answer(Err("no route"));
    assert_eq!(unreachable.steps, vec![Step::ReconcileAlone]);
    assert_eq!(unreachable.end, Some(Err("no route".to_owned())));

    let idle = on_answer(Ok(204));
    assert_eq!(
        idle.steps,
        vec![
            Step::BoundLogs,
            Step::MarkNoDesired,
            Step::UpgradeLogSinks,
            Step::Reconcile
        ]
    );
    assert_eq!(idle.end, Some(Ok(())));

    assert_eq!(
        on_answer(Ok(500)).end,
        Some(Err("desired request failed: HTTP 500".to_owned()))
    );
    assert_eq!(on_answer(Ok(200)).end, None);
}

#[test]
fn only_what_the_round_is_not_for_may_fail() {
    assert_eq!(go_on(Step::Spool, Ok(())), Ok(None));
    let failed = || Err("down".to_owned());
    assert_eq!(
        go_on(Step::Flush, failed()),
        Ok(Some("补发上一轮的收敛结果没成功：down".to_owned()))
    );
    assert_eq!(
        go_on(Step::ReconcileAlone, failed()),
        Ok(Some("拉不到期望状态，本地对账也没跑成：down".to_owned()))
    );
    assert_eq!(
        go_on(Step::BoundLogs, failed()),
        Ok(Some("down".to_owned()))
    );
    for step in [
        Step::Reconcile,
        Step::UpgradeLogSinks,
        Step::WriteCertificates,
        Step::Converge,
        Step::Spool,
        Step::Drain,
    ] {
        assert_eq!(go_on(step, failed()), Err("down".to_owned()));
    }
}

#[test]
fn a_result_is_kept_before_it_is_sent_and_certificates_are_reported_last() {
    assert!(matches!(on_decoded(Asked::Converged).end, Some(Err(_))));
    assert_eq!(
        on_decoded(Asked::Certificates { count: 1 }).steps,
        vec![
            Step::WriteCertificates,
            Step::WaitForReload,
            Step::ReportCertificates
        ]
    );
    assert_eq!(
        on_decoded(Asked::Deployment { certificates: 0 }).steps,
        vec![Step::WriteCertificates, Step::Observe, Step::Converge]
    );
    let failed = end_round(true, Some("broken".to_owned()), 1);
    assert_eq!(failed.steps, vec![Step::Spool, Step::Drain]);
    assert_eq!(failed.end, Some(Err("broken".to_owned())));
    let done = end_round(false, None, 1);
    assert_eq!(
        done.steps,
        vec![Step::Spool, Step::WaitForReload, Step::ReportCertificates]
    );
}

#[test]
fn certificates_are_not_reported_by_a_proxy_that_does_not_run() {
    assert!(!reload_is_awaited(ApplyMode::StateDir, true, false));
    assert!(reload_is_awaited(ApplyMode::Linux, true, false));
    assert!(!reload_is_awaited(ApplyMode::Linux, true, true));
    assert!(wait_for_xray_certificate_reload(true, true).is_ok());
    assert!(wait_for_xray_certificate_reload(false, false).is_err());
    assert!(wait_for_xray_certificate_reload(true, false).is_err());
}

#[test]
fn a_resident_agent_ends_only_between_rounds() {
    assert_eq!(after_round(true, 0, SECOND), AfterRound::Exit);
    assert_eq!(
        after_round(false, 0, SECOND),
        AfterRound::Wait { until: 15 * SECOND }
    );
    assert_eq!(
        after_round(false, 0, 16 * SECOND),
        AfterRound::Wait { until: 30 * SECOND }
    );
    assert_eq!(run_forever(Ok(true)), Start::Restart);
    assert_eq!(run_forever(Ok(false)), Start::Serve);
    assert!(matches!(
        run_forever(Err("x".to_owned())),
        Start::ServeWithWarning { .. }
    ));
}

#[test]
fn local_tasks_need_no_options() {
    let args = |name: &str| vec![name.to_owned()];
    assert_eq!(task_without_options(&args("health")), Some(Task::Health));
    assert_eq!(task_without_options(&args("repair")), Some(Task::Repair));
    assert_eq!(task_without_options(&args("log-sink")), Some(Task::LogSink));
    assert_eq!(task_without_options(&args("run")), None);
    assert_eq!(run("run").unwrap(), Task::Run);
    assert!(run("fly").unwrap_err().starts_with("unknown command fly;"));
    assert_eq!(
        health_state_dir(
            &vec![
                "health".to_owned(),
                "--state-dir".to_owned(),
                "/a".to_owned()
            ],
            Some("/b")
        ),
        "/a"
    );
    assert_eq!(
        health_state_dir(
            &vec!["health".to_owned(), "--state-dir".to_owned()],
            Some("/b")
        ),
        "/b"
    );
    assert_eq!(
        health_state_dir(&Vec::new(), None),
        "./brocade-agent-state"
    );
    assert_eq!(desired_outcome(204, "").unwrap(), "no desired state");
    assert_eq!(desired_outcome(200, "{}").unwrap(), "{}");
    assert!(desired_outcome(404, "").is_err());
}

fn present(content: &str) -> DesiredArtifact {
    DesiredArtifact::Present {
        content: content.to_owned(),
        sha256: "sha".to_owned(),
    }
}

const PLAIN: &str = r#"{"inbounds":[{"tag":"api","port":10085}]}"#;
const FRONT: &str = r#"{"inbounds":[{"protocol":"dokodemo-door","settings":{"port":1},"streamSettings":{"security":"tls"}}]}"#;

#[test]
fn a_proxy_is_changed_as_it_runs_only_where_it_can_be() {
    let running = XrayFindings {
        running: true,
        bounded_log: true,
    };
    assert_eq!(
        converge_linux_xray(Some(PLAIN), &present(PLAIN), false, running).unwrap(),
        XrayAction::SwapOrRestart
    );
    assert_eq!(
        converge_linux_xray(Some(PLAIN), &present(FRONT), false, running).unwrap(),
        XrayAction::Restart
    );
    assert_eq!(
        converge_linux_xray(None, &present(PLAIN), false, running).unwrap(),
        XrayAction::Restart
    );
    assert_eq!(
        converge_linux_xray(Some(PLAIN), &present(PLAIN), true, running).unwrap(),
        XrayAction::Restart
    );
    assert!(converge_linux_xray(Some(PLAIN), &present("not json"), false, running).is_err());
    assert!(converge_linux_xray(Some("not json"), &present(PLAIN), false, running).is_err());
    assert_eq!(
        converge_linux_xray(
            Some(PLAIN),
            &DesiredArtifact::Disabled {
                reason: "x".to_owned()
            },
            false,
            running
        )
        .unwrap(),
        XrayAction::Stop
    );
}

#[test]
fn a_proxy_is_started_into_its_sink_and_waited_for() {
    let script = apply_xray(FRONT, "/s/xray.json", "/s/logs/xray.log", "sink", 10085).unwrap();
    assert!(script.contains("xray.buf.splice=disable"));
    assert!(script.contains("':10085 '"));
    assert!(script.contains("cat '/s/logs/xray.log'"));
    let plain = apply_xray(PLAIN, "/s/xray.json", "/s/logs/xray.log", "sink", 10085).unwrap();
    assert!(!plain.contains("splice"));
    assert!(apply_xray("not json", "/s/xray.json", "/l", "sink", 1).is_err());
}

#[test]
fn the_tunnel_is_made_only_where_there_is_none() {
    let (setup, finish) = apply_wireguard("/s/wireguard.conf", false);
    assert!(setup.contains("ip link add wg0 type wireguard\nwg setconf wg0"));
    assert!(finish.contains("ip link set wg0 up"));
    let (setup, _) = apply_wireguard("/s/wireguard.conf", true);
    assert!(setup.contains("wg syncconf wg0"));
    assert!(!setup.contains("ip link add"));
    assert!(matches!(
        converge_linux_wireguard(&present("x")),
        WireguardAction::Apply { .. }
    ));
}

#[test]
fn the_work_on_a_machine_keeps_its_order() {
    assert_eq!(
        converge_linux(&present("{}"), Some(1)),
        vec![
            Stage::PreparePhantun,
            Stage::Phantun,
            Stage::Wireguard,
            Stage::SampleUsage,
            Stage::Xray,
            Stage::Conntrack,
            Stage::PortHop,
            Stage::Grants
        ]
    );
    let unmanaged = DesiredArtifact::Unmanaged {
        reason: "x".to_owned(),
    };
    assert!(!converge_linux(&unmanaged, None).contains(&Stage::SampleUsage));
}

#[test]
fn what_is_found_must_agree_with_what_is_kept() {
    let found = |has_config, has_mark, has_interface| WireguardFindings {
        has_config,
        has_mark,
        has_interface,
        digest: Ok("abc"),
    };
    let desired = present("x");
    assert_eq!(
        observe_linux_wireguard(&desired, &found(true, false, true)),
        AppliedArtifactState::Present {
            sha256: "abc".to_owned()
        }
    );
    assert!(matches!(
        observe_linux_wireguard(&desired, &found(true, true, true)),
        AppliedArtifactState::Dirty { .. }
    ));
    assert_eq!(
        observe_linux_wireguard(&desired, &found(false, true, false)),
        AppliedArtifactState::Disabled
    );
    assert_eq!(
        observe_linux_wireguard(&desired, &found(false, false, false)),
        AppliedArtifactState::Unknown
    );
    assert_eq!(
        observe_port_hop(&desired, true),
        AppliedArtifactState::Present {
            sha256: "sha".to_owned()
        }
    );
    assert!(matches!(
        observe_port_hop(&desired, false),
        AppliedArtifactState::Dirty { .. }
    ));
}

#[test]
fn a_proxy_without_its_interface_is_not_taken_to_run() {
    let reading = |api_listening, bounded_log| XrayReading {
        has_config: true,
        has_mark: false,
        running: true,
        content: Ok(PLAIN),
        digest: "abc",
        api_listening,
        bounded_log,
    };
    assert_eq!(
        observe_linux_xray(&present(PLAIN), &reading(true, true)),
        AppliedArtifactState::Present {
            sha256: "abc".to_owned()
        }
    );
    assert_eq!(
        observe_linux_xray(&present(PLAIN), &reading(false, true)),
        AppliedArtifactState::Dirty {
            reason: "xray api port 10085 is not listening".to_owned()
        }
    );
    assert!(matches!(
        observe_linux_xray(&present(PLAIN), &reading(true, false)),
        AppliedArtifactState::Dirty { .. }
    ));
}

#[test]
fn accounts_are_read_from_the_proxy_that_runs() {
    let asked = DesiredGrants::Present {
        inbounds: Vec::new(),
    };
    let unmanaged = DesiredArtifact::Unmanaged {
        reason: "x".to_owned(),
    };
    assert_eq!(
        observe_linux_grants(&unmanaged, &asked, &AppliedArtifactState::Unmanaged, Ok(PLAIN)),
        GrantsStep::Read { api_port: 10085 }
    );
    assert_eq!(
        observe_linux_grants(&unmanaged, &asked, &AppliedArtifactState::Disabled, Ok(PLAIN)),
        GrantsStep::Known {
            state: AppliedGrantsState::Disabled
        }
    );
    assert_eq!(grants_source(&unmanaged, Ok(PLAIN)).unwrap(), PLAIN);
    assert!(grants_source(
        &DesiredArtifact::Disabled {
            reason: "x".to_owned()
        },
        Ok(PLAIN)
    )
    .is_err());
    let (steps, state) = converge_grants(&asked, "[]");
    assert_eq!(steps.len(), 1);
    assert_eq!(
        state,
        AppliedGrantsState::Present {
            inbounds: Vec::new()
        }
    );
}

#[test]
fn the_directory_of_a_program_is_told_step_by_step() {
    for (path, dir) in [
        ("/usr/local/bin//xray", Some("/usr/local/bin")),
        ("/opt/xray/", Some("/opt")),
        ("/opt/./xray/.", Some("/opt")),
        ("/xray", Some("/")),
        ("xray", Some("")),
        ("./xray", Some(".")),
        ("a//b/c", Some("a//b")),
        ("/", None),
        ("", None),
    ] {
        assert_eq!(parent(path).as_deref(), dir, "{path}");
    }
    let dirs = xray_asset_dirs(None, Some("/usr/local/bin//xray"));
    assert_eq!(dirs[0], "/usr/local/bin");
}

#[test]
fn a_record_names_what_was_replayed_before_the_failure() {
    let acted = vec![Part::Phantun, Part::Wireguard];
    let failed = record_local_reconcile(&acted, &Err("nft".to_owned()));
    assert_eq!(failed.actions, vec!["phantun", "wireguard"]);
    assert_eq!(failed.error.as_deref(), Some("nft"));
    assert_eq!(record_local_reconcile(&acted, &Ok(())).error, None);
}
