use brocade_agent::address::Ip;
use brocade_agent::echo::ProbeTransport;
use brocade_agent::probe::{
    accept_probe_targets, accept_report, after_connect, after_resolution, chain_line,
    connect_resolved, format_errno, format_millis, link_line, log_tcp_probe_diagnostic,
    parse_tcp_target, probe_path_mtu_with, probe_tcp_target, suggested_wg_mtu,
    usable_tcp_addresses, worker_panicked, ChainProbe, ConnectStep, E2eExitVerdict, Endpoint,
    IoFailure, LinkProbe, LinkProbeStatus, Resolution, Resolved, TcpConnectAttemptResult,
    TcpConnectTrace, TcpProbeDiagnostic, PROBE_MTU_MAX, PROBE_MTU_MIN,
};

#[test]
fn the_binary_search_lands_exactly_on_every_reachable_mtu() {
    for truth in PROBE_MTU_MIN..=PROBE_MTU_MAX {
        let (status, found) = probe_path_mtu_with(|| true, |mtu| mtu <= truth);
        assert_eq!(status, LinkProbeStatus::Measured, "真实 MTU {truth}");
        assert_eq!(found, Some(truth), "真实 MTU {truth} 探成了 {found:?}");
    }
}

#[test]
fn unreachable_and_blocked_carry_no_mtu() {
    let (status, found) = probe_path_mtu_with(|| false, |_| true);
    assert_eq!(status, LinkProbeStatus::Unreachable);
    assert_eq!(found, None, "不可达不该带出一个数来拉低建议值");

    let (status, found) = probe_path_mtu_with(|| true, |_| false);
    assert_eq!(status, LinkProbeStatus::Blocked);
    assert_eq!(found, None);
}

#[test]
fn suggested_wg_mtu_subtracts_the_wireguard_overhead() {
    assert_eq!(1500 - 60, 1440);
    assert_eq!(
        suggested_wg_mtu(Some(1500), false, ProbeTransport::Udp),
        Some(1440)
    );
    assert_eq!(1500 - 80, 1420);
    assert_eq!(
        suggested_wg_mtu(Some(1500), true, ProbeTransport::Udp),
        Some(1420)
    );
    assert_eq!(1258 - 60, 1198);
    assert_eq!(
        suggested_wg_mtu(Some(1258), false, ProbeTransport::Udp),
        Some(1198)
    );
    assert_eq!(suggested_wg_mtu(None, false, ProbeTransport::Udp), None);
}

#[test]
fn tcp_target_parser_keeps_host_and_port_only() {
    assert_eq!(
        parse_tcp_target("tcp://example.com:443"),
        Some(("example.com".to_owned(), 443))
    );
    assert_eq!(
        parse_tcp_target("tcp://[2001:db8::1]:8443"),
        Some(("2001:db8::1".to_owned(), 8443))
    );
    assert_eq!(parse_tcp_target("icmp://1.1.1.1"), None);
    assert_eq!(parse_tcp_target("tcp://example.com"), None);
    assert_eq!(parse_tcp_target("tcp://2001:db8::1:443"), None);
    assert_eq!(parse_tcp_target("tcp://example.com:0"), None);
}

const V6: Endpoint = Endpoint {
    ip: Ip::V6(0, 1),
    port: 443,
};
const V4: Endpoint = Endpoint {
    ip: Ip::V4(0x7f00_0001),
    port: 443,
};

#[test]
fn unavailable_ipv6_is_removed_without_hiding_ipv4_fallbacks() {
    assert_eq!(
        usable_tcp_addresses(&vec![V6, V4], &vec![false, false]),
        vec![V4]
    );
    assert!(usable_tcp_addresses(&vec![V6], &vec![false]).is_empty());
    assert_eq!(usable_tcp_addresses(&vec![V6], &vec![true]), vec![V6]);
}

const SECOND: u64 = 1_000_000_000;

#[test]
fn connect_trace_keeps_success_family_candidate_and_duration() {
    assert!(matches!(
        connect_resolved(1, 0, 0, SECOND),
        ConnectStep::Attempt {
            index: 0,
            remaining_nanos: SECOND
        }
    ));
    let mut trace = TcpConnectTrace::new();
    trace.connected(true, 1, SECOND / 1000, SECOND);

    assert!(trace.connect_ms.is_some());
    assert!(!trace.budget_exhausted);
    assert!(!trace.deadline_overflow);
    assert_eq!(trace.attempts.len(), 1);
    assert_eq!(trace.attempts[0].candidate, 1);
    assert!(trace.attempts[0].ipv4);
    assert!(matches!(
        trace.attempts[0].result,
        TcpConnectAttemptResult::Connected
    ));
}

fn refused() -> IoFailure {
    IoFailure {
        kind: "ConnectionRefused".to_owned(),
        errno: Some(111),
        message: "Connection refused (os error 111)".to_owned(),
    }
}

#[test]
fn connect_trace_keeps_socket_error_instead_of_collapsing_it_to_no_response() {
    let mut trace = TcpConnectTrace::new();
    trace.failed(true, 1, refused());
    assert_eq!(trace.connect_ms, None);
    assert_eq!(trace.attempts.len(), 1);
    assert!(matches!(
        &trace.attempts[0].result,
        TcpConnectAttemptResult::Failed(failure)
            if failure.kind == "ConnectionRefused"
                && failure.errno.is_some()
                && !failure.message.is_empty()
    ));
}

#[test]
fn a_connection_after_its_deadline_is_none() {
    let mut trace = TcpConnectTrace::new();
    trace.connected(true, 2000, 2 * SECOND, SECOND);
    assert_eq!(trace.connect_ms, None);
    assert!(matches!(
        trace.attempts[0].result,
        TcpConnectAttemptResult::ConnectedAfterDeadline
    ));
    assert!(matches!(
        connect_resolved(2, 1, 2 * SECOND, SECOND),
        ConnectStep::Exhausted
    ));
    assert!(matches!(
        connect_resolved(1, 1, 0, SECOND),
        ConnectStep::Finished
    ));
}

#[test]
fn malformed_target_has_an_explicit_local_diagnostic() {
    let outcome = probe_tcp_target("not-a-tcp-target").unwrap_err();
    assert!(matches!(
        outcome.diagnostic,
        TcpProbeDiagnostic::InvalidTarget
    ));
    assert_eq!(outcome.sample.and_then(|sample| sample.connect_ms), None);
}

#[test]
fn a_target_that_this_machine_cannot_route_to_is_left_out() {
    match after_resolution(
        "tcp://x:443",
        1,
        Resolution::Found {
            addresses: vec![V6],
            routed: vec![false],
        },
    ) {
        Resolved::Ended(outcome) => assert!(outcome.sample.is_none()),
        other => panic!("{other:?}"),
    }
    match after_resolution("tcp://x:443", 1, Resolution::Failed(refused())) {
        Resolved::Ended(outcome) => assert!(outcome.sample.is_some()),
        other => panic!("{other:?}"),
    }
    let mut trace = TcpConnectTrace::new();
    trace.connected(true, 3, 3_000_000, SECOND);
    let outcome = after_connect("tcp://x:443", 1, 1, 0, trace);
    assert_eq!(outcome.sample.unwrap().connect_ms, Some(3));
    assert!(worker_panicked("tcp://x:443").sample.is_some());
}

#[test]
fn a_diagnostic_is_said_in_one_line() {
    assert!(!log_tcp_probe_diagnostic("a", &TcpProbeDiagnostic::InvalidTarget).is_empty());
    assert_eq!(format_millis(5), "5ms");
    assert_ne!(format_errno(Some(111)), format_errno(None));
    let mut trace = TcpConnectTrace::new();
    trace.failed(true, 1, refused());
    let line = log_tcp_probe_diagnostic(
        "a",
        &TcpProbeDiagnostic::Connect {
            resolution_ms: 1,
            resolved: 1,
            filtered_ipv6: 0,
            trace,
        },
    );
    assert!(line.contains("Connection refused"), "{line}");
    assert!(!line.contains('\n'));
}

#[test]
fn a_link_and_a_chain_are_told_as_they_were_found() {
    let mut link = LinkProbe {
        peer_node_id: "sg-01".to_owned(),
        endpoint_host: "192.0.2.1".to_owned(),
        status: LinkProbeStatus::Measured,
        path_mtu: Some(1500),
        suggested_wg_mtu: Some(1440),
    };
    assert_eq!(
        link_line(&link),
        "probe: sg-01 经 192.0.2.1 路径 MTU 1500，建议 wg MTU 1440"
    );
    link.status = LinkProbeStatus::Unreachable;
    assert_eq!(link_line(&link), "probe: sg-01 经 192.0.2.1 ping 不通");
    let chain = ChainProbe {
        chain_id: "c".to_owned(),
        ok: true,
        ttfb_ms: Some(12),
        exit_ip: Some("192.0.2.9".to_owned()),
        exit_verdict: E2eExitVerdict::Match,
        detail: None,
    };
    assert_eq!(chain_line(&chain), "e2e: c 通，12ms，出口 192.0.2.9（对得上）");
}

#[test]
fn an_answer_that_is_no_success_is_an_error() {
    assert!(accept_report("link probe", 204, "").is_ok());
    assert_eq!(
        accept_report("link probe", 500, "boom").unwrap_err(),
        "link probe failed: HTTP 500 boom"
    );
    assert!(accept_probe_targets(200, "").is_ok());
    assert!(accept_probe_targets(204, "").is_err());
}

#[test]
fn no_size_outside_the_range_is_tried() {
    for truth in [PROBE_MTU_MIN, 1001, 1234, 1499, PROBE_MTU_MAX] {
        let (status, found) = probe_path_mtu_with(
            || true,
            |mtu| {
                assert!((PROBE_MTU_MIN..=PROBE_MTU_MAX).contains(&mtu), "{mtu}");
                mtu <= truth
            },
        );
        assert_eq!((status, found), (LinkProbeStatus::Measured, Some(truth)));
    }
}
