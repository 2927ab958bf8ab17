use brocade_agent::address::Ip;
use brocade_agent::apply::{failed_apply_outcome, upgrade_dynamic_log_sinks};
use brocade_agent::commands::{load_once, load_once_rounds};
use brocade_agent::converge::{
    converge_artifact, converge_to_state_dir, grants_state, observe_linux_wireguard,
    stopped_xray_files, FileStep, Stage, WireguardFindings,
};
use brocade_agent::disks::disk_info;
use brocade_agent::echo::{answers, echo_request, Probe};
use brocade_agent::hostinfo::{host_facts, read_cpu_frequency_mhz, HostReadings};
use brocade_agent::http::{connect_failure, parse_http_authority, parse_http_port};
use brocade_agent::hy2_port_hop;
use brocade_agent::load::{read_raw, RawTexts};
use brocade_agent::logcap::{
    apply_policy, ensure_agent_journal_namespace, read_policy_mib, LogLimits,
};
use brocade_agent::nettables::ephemeral_port_range;
use brocade_agent::order::TextMap;
use brocade_agent::phantun::{
    allow_forward_through_foreign_chains, docker_forward_still_allowed, stop_phantun, RuntimeProbe,
};
use brocade_agent::plan::{
    unknown_state, AppliedArtifactState, AppliedGrantsState, DesiredArtifact, TargetApplyResult,
};
use brocade_agent::policy::missing_limit;
use brocade_agent::processes::{
    current_unix_secs, process_is_live, process_sample, reported_processes, signal_failure, xray_running,
    Entry, ProcessFiles, ProcessRef,
};
use brocade_agent::procfs::{current_btime, parse_cpu_line};
use brocade_agent::probe::TcpConnectTrace;
use brocade_agent::realtime::{AgentRealtimeCommand, Session, IDLE_POLL, IO_POLL};
use brocade_agent::routes::{route_still_fresh, ROUTE_REPORT_TTL};
use brocade_agent::schedule::{after_drain, SPOOL_IDLE_POLL, SPOOL_MAX_RETRY};
use brocade_agent::spool::{spool_read, spool_write};
use brocade_agent::usage::{read_usage_generation, write_usage_generation, FileText};
use brocade_agent::wg::{Guard, GuardStep, Rung, WG_REMEDY_DWELL};
use brocade_agent::workload::{
    phantun_runtime, port_listening_script, tcp_port_listening, udp_bound, xray_runtime,
    WorkloadRuntime,
};
use brocade_agent::xray::{hop_targets, XrayListenProtocol};

#[test]
fn a_failed_round_is_reported_as_dirty_with_its_error() {
    let (result, state, error) = failed_apply_outcome("boom".to_owned(), unknown_state());
    assert_eq!(result, TargetApplyResult::FailedDirty);
    assert_eq!(state, unknown_state());
    assert_eq!(error.as_deref(), Some("boom"));
}

#[test]
fn only_a_workload_that_runs_with_an_old_log_is_upgraded() {
    assert!(upgrade_dynamic_log_sinks(true, false, false));
    assert!(!upgrade_dynamic_log_sinks(true, false, true));
    assert!(!upgrade_dynamic_log_sinks(true, true, false));
    assert!(!upgrade_dynamic_log_sinks(false, false, false));
}

#[test]
fn one_load_report_takes_one_reading_more_than_a_window_has_parts() {
    assert_eq!(load_once_rounds(), 4);
    assert_eq!(load_once(0, 4), "load-once: 采样 1/4（每次间隔 10 秒）");
}

#[test]
fn files_alone_are_kept_in_the_order_of_the_parts() {
    assert_eq!(
        converge_to_state_dir(),
        vec![
            Stage::Phantun,
            Stage::Wireguard,
            Stage::Xray,
            Stage::PortHop,
            Stage::Conntrack,
            Stage::Grants
        ]
    );
}

#[test]
fn a_stopped_proxy_leaves_only_its_mark() {
    let steps = stopped_xray_files("不要了");
    assert_eq!(steps.len(), 5);
    assert_eq!(
        steps[4],
        FileStep::Mark {
            name: "xray.disabled".to_owned(),
            reason: "不要了".to_owned()
        }
    );
    assert!(steps[..4]
        .iter()
        .all(|step| matches!(step, FileStep::Remove { .. })));
}

#[test]
fn accounts_that_cannot_be_read_are_dirty() {
    assert_eq!(
        grants_state(Err("no api".to_owned())),
        AppliedGrantsState::Dirty {
            reason: "no api".to_owned()
        }
    );
    assert_eq!(
        grants_state(Ok(Vec::new())),
        AppliedGrantsState::Present {
            inbounds: Vec::new()
        }
    );
}

#[test]
fn a_tunnel_put_in_force_is_found_as_it_was_asked_for() {
    let desired = DesiredArtifact::Present {
        content: "[Interface]".to_owned(),
        sha256: "abc".to_owned(),
    };
    let steps = converge_artifact("wireguard.conf", "wireguard.disabled", &desired);
    assert_eq!(steps.len(), 2);
    let found = WireguardFindings {
        has_config: true,
        has_mark: false,
        has_interface: true,
        digest: Ok("abc"),
    };
    assert_eq!(
        observe_linux_wireguard(&desired, &found),
        AppliedArtifactState::Present {
            sha256: "abc".to_owned()
        }
    );
}

fn readings() -> HostReadings {
    let kept = |text: &str| Some(text.to_owned());
    HostReadings {
        route: kept("Iface\tDestination\tGateway\nens3\t00000000\t0101A8C0\n"),
        mtu: kept("1450\n"),
        qdisc: kept("qdisc fq 8001: root refcnt 2\n"),
        meminfo: kept("MemTotal: 1024 kB\n"),
        kernel: kept("6.1.0\n"),
        cpuinfo: kept("model name : X   Y\n"),
        cores: 2,
        max_frequencies: vec![kept("3000000\n"), kept("2000000\n")],
        governors: vec![kept("a\n"), kept("b\n")],
        congestion: kept("bbr\n"),
        available_congestion: kept("reno cubic bbr\n"),
        default_qdisc: kept("fq\n"),
        disk: disk_info(4096, 100, 50, 10, 5),
        mount: None,
        conntrack_max: kept("262144\n"),
        ephemeral: Some(ephemeral_port_range(100, 109, "103")),
        installer_settings: None,
        arch: "x86_64".to_owned(),
        os_release: kept("PRETTY_NAME=\"Debian 12\"\n"),
        container: None,
        vz: false,
        product: kept("KVM\n"),
        rmem_max: kept("1\n"),
        wmem_max: kept("2\n"),
        somaxconn: None,
    }
}

#[test]
fn a_machine_is_told_by_its_own_files() {
    let facts = host_facts(&readings());
    assert_eq!(facts.nic, "ens3");
    assert_eq!(facts.nic_mtu, Some(1450));
    assert_eq!(facts.nic_qdisc, "fq");
    assert_eq!(facts.kernel, "6.1.0");
    assert_eq!(facts.cpu_model, "X Y");
    assert_eq!(facts.cpu_freq_max_mhz, Some(3000));
    assert_eq!(facts.cpu_governor, None, "the cores do not agree");
    assert_eq!(facts.available_cc, ["reno", "cubic", "bbr"]);
    assert_eq!(facts.mem_total_bytes, 1024 * 1024);
    assert_eq!(facts.disk_total_bytes, 409_600);
    assert_eq!(facts.conntrack_max, Some(262_144));
    assert_eq!(facts.ephemeral_port_capacity, Some(9));
    assert_eq!(facts.virt, "KVM");
    assert_eq!((facts.rmem_max, facts.wmem_max, facts.somaxconn), (1, 2, 0));
    let mut lost = readings();
    lost.route = None;
    let facts = host_facts(&lost);
    assert_eq!(facts.nic, "eth0");
    assert_eq!(facts.nic_mtu, None, "another interface's is not shown as its own");
    assert_eq!(
        read_cpu_frequency_mhz(&vec![Some("1000000".to_owned()), Some("3000000".to_owned())]),
        Some(2000)
    );
}

#[test]
fn an_authority_is_cut_into_host_and_port() {
    assert_eq!(
        parse_http_authority("http://[::1]:81", "[::1]:81", 80).unwrap(),
        ("::1".to_owned(), 81, "[::1]:81".to_owned())
    );
    assert!(parse_http_authority("http://", "", 80).is_err());
    assert_eq!(parse_http_port("http://x:81", "81"), Ok(81));
    assert!(parse_http_port("http://x:", "").is_err());
    assert_eq!(
        connect_failure("x", 80, Some("refused")),
        "connect x:80 failed: refused"
    );
    assert_eq!(
        connect_failure("x", 80, None),
        "resolve x:80 returned no addresses"
    );
}

#[test]
fn a_reading_is_made_of_what_could_be_read() {
    let files = RawTexts {
        stat: Some("cpu  1 2 3 4 5 6 7 8 0 0\nctxt 9\nbtime 77\n".to_owned()),
        cpu_pressure: None,
        softirqs: None,
        unified_cpu_stat: None,
        legacy_cpu_stat: None,
        route: None,
        net_dev: None,
        snmp: None,
        netstat: None,
        snmp6: None,
        sockstat: None,
        sockstat6: None,
        meminfo: None,
        vmstat: Some("oom_kill 4\n".to_owned()),
        memory_pressure: None,
        io_pressure: None,
        process_stats: Vec::new(),
    };
    let raw = read_raw(5, &files, None, TextMap::new());
    assert_eq!(raw.at, 5);
    assert_eq!(raw.btime, 77);
    assert_eq!(raw.context_switches, Some(9));
    assert_eq!(raw.oom_kills, 4);
    assert_eq!(raw.softirqs, None);
    assert_eq!(parse_cpu_line("cpu  1 2 3 4 5 6 7 8 0 0"), Some(raw.cpu));
    assert_eq!(current_btime(files.stat.as_deref()), 77);
    assert_eq!(current_btime(None), 0);
}

#[test]
fn a_policy_is_read_back_as_it_was_written() {
    let limits = LogLimits {
        min_mib: 8,
        max_mib: 100,
        default_mib: 64,
    };
    let plan = apply_policy(32, limits, None, false, None).unwrap();
    assert!(plan.changed);
    assert_eq!(read_policy_mib(Some(&plan.contents), limits), Some(32));
    let again = apply_policy(32, limits, Some(plan.contents.as_bytes()), false, None).unwrap();
    assert!(!again.changed);
    assert_eq!(
        apply_policy(7, limits, None, false, None).unwrap_err(),
        "log max must be 8..=100 MiB"
    );
    let actions = ensure_agent_journal_namespace(false, true);
    assert!(!actions.reload && actions.restart_journal && !actions.restart_agent);
    assert_eq!(missing_limit("x"), "x 缺失且没有旧版统一上限可回退");
}

#[test]
fn a_generation_is_read_back_as_it_was_written() {
    for id in [0, 7, -42, i64::MAX, i64::MIN] {
        let text = write_usage_generation(id);
        assert_eq!(
            read_usage_generation(&FileText::Held(&text)),
            Ok(Some(id)),
            "{text}"
        );
    }
}

#[test]
fn kept_entries_are_read_back() {
    let entries = vec![r#"{"a":1}"#.to_owned(), r#"{"b":"x y"}"#.to_owned()];
    let content = spool_write(&entries);
    assert_eq!(content, "{\"a\":1}\n{\"b\":\"x y\"}\n");
    assert_eq!(spool_read(&content), entries);
    assert_eq!(spool_write(&Vec::new()), "");
}

#[test]
fn a_reply_answers_only_its_own_request() {
    let mut reply = echo_request(7, 513, 12345, 64);
    reply[0] = 0;
    assert_eq!(answers(true, &reply, 513), Some(Probe::Fits));
    assert_eq!(answers(true, &reply, 514), None);
    let mut packet = vec![0x45_u8; 20];
    packet.extend_from_slice(&reply);
    assert_eq!(answers(false, &packet, 513), Some(Probe::Fits));
}

#[test]
fn installed_redirects_are_found_again() {
    let content = r#"{"redirects":[{"start":20000,"end":20010,"to":20005}]}"#;
    let listing = "table inet brocade_hy2_port_hop {\n\
                   \tchain prerouting {\n\
                   \t\tudp dport 20000-20010 redirect to :20005\n\
                   \t}\n\
                   \tchain prerouting_raw {\n\
                   \t\tip protocol icmp notrack\n\
                   \t\tip6 nexthdr ipv6-icmp notrack\n\
                   \t}\n\
                   \tchain output_raw {\n\
                   \t\tip protocol icmp notrack\n\
                   \t\tip6 nexthdr ipv6-icmp notrack\n\
                   \t}\n\
                   }\n";
    assert_eq!(
        hy2_port_hop::installed(Some(listing)),
        vec![(20000, 20010, 20005)]
    );
    assert!(hy2_port_hop::matches_content(content, Some(listing)));
    assert!(!hy2_port_hop::matches_content(
        content,
        Some(&listing.replace("20010", "20011"))
    ));
}

fn stat(pid: u32, state: char, started: u64) -> String {
    format!("{pid} (xray) {state} 1 1 1 0 -1 0 0 0 0 0 10 5 0 0 20 0 3 0 {started}")
}

#[test]
fn a_process_is_told_by_its_files() {
    let files = ProcessFiles {
        status: Some("VmRSS:\t 10 kB\n".to_owned()),
        stat: Some(stat(9, 'S', 500)),
        fds: Some(12),
        limits: Some("Max open files            64 128 files\n".to_owned()),
    };
    let sample = process_sample("xray", Some(&files), 1000, 100);
    assert_eq!(sample.rss_bytes, Some(10 * 1024));
    assert_eq!(sample.started_at_unix_secs, Some(1005));
    assert_eq!((sample.fds, sample.fd_limit), (Some(12), Some(64)));
    let nothing = process_sample("wg", None, 1000, 100);
    assert_eq!(nothing.proc, "wg");
    assert_eq!((nothing.rss_bytes, nothing.fds), (None, None));

    let mut pids = TextMap::new();
    pids.insert("xray".to_owned(), 9);
    pids.insert("boringtun".to_owned(), 11);
    let mut times = TextMap::new();
    times.insert("xray".to_owned(), 40);
    times.insert("boringtun".to_owned(), 50);
    let listed = reported_processes(&pids, &times);
    let told = listed
        .iter()
        .map(|one| (one.label.as_str(), one.pid, one.measured.as_deref()))
        .collect::<Vec<_>>();
    assert_eq!(
        told,
        vec![
            ("xray", Some(9), Some("xray")),
            ("phantun", None, None),
            ("agent", None, None),
            ("wg", Some(11), Some("boringtun")),
        ]
    );
}

#[test]
fn a_number_that_was_given_away_again_is_another_process() {
    let process = ProcessRef {
        pid: 9,
        start_ticks: 500,
    };
    assert!(process_is_live(process, Some(&stat(9, 'S', 500))));
    assert!(!process_is_live(process, Some(&stat(9, 'S', 501))));
    assert!(!process_is_live(process, Some(&stat(9, 'Z', 500))));
    assert!(!process_is_live(process, None));
    let entry = |state: char| Entry {
        name: "9".to_owned(),
        comm: Some("xray\n".to_owned()),
        stat: Some(stat(9, state, 500)),
    };
    assert!(xray_running(&vec![entry('S')]));
    assert!(!xray_running(&vec![entry('Z')]));
    assert_eq!(signal_failure(9, 15, true, "gone"), None);
    assert_eq!(
        signal_failure(9, 15, false, "denied").as_deref(),
        Some("signal xray pid 9 with 15: denied")
    );
    assert_eq!(current_unix_secs(Ok(5)), Ok(5));
    assert!(current_unix_secs(Ok(u64::MAX)).is_err());
    assert_eq!(current_unix_secs(Err("before")).unwrap_err(), "before");
}

#[test]
fn a_session_sleeps_as_long_as_it_may() {
    let mut session = Session::new(0);
    assert_eq!(session.pause(0), IDLE_POLL);
    session
        .command(
            AgentRealtimeCommand::Start {
                interval_millis: 1000,
            },
            0,
        )
        .unwrap();
    assert_eq!(session.pause(0), 0, "a sample is due at once");
    session.begin_sample(0);
    assert_eq!(session.pause(0), IO_POLL);
    assert!(session
        .command(
            AgentRealtimeCommand::Start {
                interval_millis: 1500
            },
            0
        )
        .is_err());
}

#[test]
fn waits_grow_only_while_things_fail() {
    assert!(route_still_fresh(ROUTE_REPORT_TTL - 1));
    assert!(!route_still_fresh(ROUTE_REPORT_TTL));
    assert_eq!(after_drain(SPOOL_MAX_RETRY, true), SPOOL_IDLE_POLL);
    assert_eq!(after_drain(8, false), 16);
    assert_eq!(after_drain(SPOOL_MAX_RETRY, false), SPOOL_MAX_RETRY);
}

#[test]
fn a_remedy_gets_its_time_before_the_next() {
    let mut guard = Guard::new();
    assert_eq!(guard.look(100, 0, 2), GuardStep::Quiet);
    assert_eq!(guard.look(100, 1, 2), GuardStep::Act(Rung::Syncconf));
    assert_eq!(guard.look(100 + WG_REMEDY_DWELL - 1, 1, 2), GuardStep::Wait);
    assert_eq!(
        guard.look(100 + WG_REMEDY_DWELL, 1, 2),
        GuardStep::Act(Rung::Syncconf)
    );
    assert_eq!(guard.look(145, 2, 2), GuardStep::Act(Rung::Bounce));
    assert_eq!(guard.look(220, 2, 2), GuardStep::Act(Rung::Rebuild));
    assert_eq!(guard.look(279, 2, 2), GuardStep::Wait);
    assert_eq!(guard.look(280, 1, 2), GuardStep::Act(Rung::SpareTheLive));
    assert_eq!(guard.look(281, 0, 2), GuardStep::Recovered);
    assert_eq!(guard, Guard::new());
}

#[test]
fn an_established_failure_is_not_hidden() {
    let probe = |result: Option<bool>| RuntimeProbe {
        failed: "坏".to_owned(),
        unknown: "不知".to_owned(),
        result,
    };
    assert_eq!(
        phantun_runtime(Ok(&vec![probe(Some(true))]), true),
        WorkloadRuntime::Healthy
    );
    assert_eq!(
        phantun_runtime(Ok(&vec![probe(None), probe(Some(false))]), false),
        WorkloadRuntime::Broken("坏；NAT/转发规则不完整".to_owned())
    );
    assert_eq!(
        phantun_runtime(Err("没有"), true),
        WorkloadRuntime::Unknown("读不了计划：没有".to_owned())
    );
    let ports = vec![(
        "in".to_owned(),
        "0.0.0.0".to_owned(),
        443,
        XrayListenProtocol::Tcp,
    )];
    assert_eq!(
        xray_runtime(true, &ports, &vec![Some(false)]),
        WorkloadRuntime::Broken("in 0.0.0.0:443 没在监听".to_owned())
    );
    assert_eq!(
        xray_runtime(true, &ports, &vec![None]),
        WorkloadRuntime::Unknown("in 0.0.0.0:443 无法检查".to_owned())
    );
    assert!(matches!(
        xray_runtime(false, &ports, &vec![None]),
        WorkloadRuntime::Broken(_)
    ));
    assert!(port_listening_script(53, XrayListenProtocol::Udp).contains("ss -lnu"));
    assert!(tcp_port_listening(Some("yes\n")));
    assert!(!tcp_port_listening(Some("unknown\n")));
    assert_eq!(udp_bound(Some("no\n")), Some(false));
    assert_eq!(udp_bound(None), None);
}

#[test]
fn hops_are_read_from_the_forwarding_outbounds() {
    let content = r#"{"outbounds":[
        {"tag":"out:app/chain>sg-01","settings":{"vnext":[{"address":"10.66.0.2","port":1}]}},
        {"tag":"out:egress"}
    ]}"#;
    let targets = hop_targets(content);
    assert_eq!(targets.entries.len(), 1);
    assert_eq!(
        targets.get(Ip::V4(0x0a42_0002)),
        Some(("app/chain", "sg-01"))
    );
    assert_eq!(targets.get(Ip::V4(1)), None);
    assert!(hop_targets("not json").is_empty());
}

#[test]
fn the_firewall_scripts_touch_only_their_own_rules() {
    let scripts = stop_phantun();
    assert_eq!(scripts.len(), 3);
    assert!(scripts[0].contains("nft delete table inet brocade "));
    assert!(scripts[1].contains("comment \"brocade\""));
    assert!(allow_forward_through_foreign_chains().contains("bt*"));
    assert!(docker_forward_still_allowed().contains("comment \"brocade\""));
}

#[test]
fn a_trace_tells_why_candidates_were_left() {
    let mut trace = TcpConnectTrace::new();
    trace.exhausted();
    assert!(trace.budget_exhausted && !trace.deadline_overflow);
    let mut trace = TcpConnectTrace::new();
    trace.overflowed();
    assert!(!trace.budget_exhausted && trace.deadline_overflow);
    assert_eq!(trace.connect_ms, None);
}
