use brocade_agent::order::TextMap;
use brocade_agent::wg::{
    apply_reachability, drift_is_fatal, endpoint_is_local, endpoint_matches, judge_wg_peers,
    next_dwell, parse_wg_dump, parse_wireguard_conf_peers, pick_rung, wireguard_conf_mtu,
    PeerState, Rung, HANDSHAKE_STALE_SECS, WG_BACKOFF_MAX, WG_REMEDY_DWELL,
};

const CONF: &str = "\
[Interface]
PrivateKey = SECRET=
Address    = 10.66.0.1/32
ListenPort = 51820
MTU        = 1200

[Peer]
# sg-01
PublicKey  = SG=
AllowedIPs = 10.66.0.2/32
Endpoint   = 127.0.0.1:29000
PersistentKeepalive = 25

[Peer]
# jp-01
PublicKey  = JP=
AllowedIPs = 10.66.0.3/32
";

const DUMP: &str = "\
SECRET=\tPUB=\t51820\toff
SG=\t(none)\t127.0.0.1:29000\t10.66.0.2/32\t1754200000\t1024\t2048\t25
JP=\t(none)\t(none)\t10.66.0.3/32\t0\t0\t0\toff
";

#[test]
fn wireguard_conf_mtu_is_read_back_from_the_config() {
    assert_eq!(
        wireguard_conf_mtu(
            "[Interface]\nPrivateKey = x\nAddress    = 10.66.0.1/32\nMTU        = 1200\n"
        ),
        Some(1200)
    );
    assert_eq!(wireguard_conf_mtu("[Interface]\nPrivateKey = x\n"), None);
}

#[test]
fn conf_peers_carry_the_name_endpoint_and_overlay_address() {
    let peers = parse_wireguard_conf_peers(CONF);

    assert_eq!(peers.len(), 2);
    assert_eq!(peers[0].name, "sg-01");
    assert_eq!(peers[0].public_key, "SG=");
    assert_eq!(peers[0].endpoint.as_deref(), Some("127.0.0.1:29000"));
    assert_eq!(peers[0].overlay_ip.as_deref(), Some("10.66.0.2"));
    assert_eq!(peers[1].name, "jp-01");
    assert_eq!(peers[1].endpoint, None);
    assert!(peers.iter().all(|peer| peer.public_key != "SECRET="));
}

#[test]
fn wg_dump_skips_the_interface_line_and_reads_none_markers() {
    let peers = parse_wg_dump(DUMP);

    assert_eq!(peers.len(), 2);
    assert_eq!(peers[0].public_key, "SG=");
    assert_eq!(peers[0].endpoint.as_deref(), Some("127.0.0.1:29000"));
    assert_eq!(peers[0].overlay_ip.as_deref(), Some("10.66.0.2"));
    assert_eq!(peers[0].latest_handshake, 1_754_200_000);
    assert_eq!(peers[0].persistent_keepalive, 25);
    assert_eq!(peers[1].latest_handshake, 0);
    assert_eq!(peers[1].endpoint, None);
    assert_eq!(peers[1].persistent_keepalive, 0);
}

#[test]
fn a_stale_handshake_is_only_suspect_until_the_ping_answers() {
    let conf = parse_wireguard_conf_peers(CONF);
    let now = 1_754_200_000_i64;

    let live = parse_wg_dump(DUMP);
    let checks = judge_wg_peers(&conf, &live, now + 10, &Default::default());
    assert_eq!(checks[0].state, PeerState::Fresh);
    assert_eq!(checks[0].handshake_age, Some(10));
    assert_eq!(checks[1].state, PeerState::Suspect);
    assert_eq!(checks[1].handshake_age, None);

    let checks = judge_wg_peers(
        &conf,
        &live,
        now + HANDSHAKE_STALE_SECS + 1,
        &Default::default(),
    );
    assert_eq!(checks[0].state, PeerState::Suspect);
}

#[test]
fn a_peer_missing_from_the_running_interface_is_down_without_a_ping() {
    let conf = parse_wireguard_conf_peers(CONF);
    let live = parse_wg_dump("SECRET=\tPUB=\t51820\toff\n");

    let checks = judge_wg_peers(&conf, &live, 1_754_200_000, &Default::default());

    assert_eq!(checks.len(), 2);
    assert!(checks
        .iter()
        .all(|check| matches!(check.state, PeerState::Down { .. })));
    assert_eq!(checks[0].overlay_ip.as_deref(), Some("10.66.0.2"));
}

#[test]
fn a_roamed_endpoint_is_caught_while_the_handshake_still_looks_fine() {
    let conf = parse_wireguard_conf_peers(CONF);
    let now = 1_754_200_000_i64;
    let roamed = "\
SECRET=\tPUB=\t51820\toff
SG=\t(none)\t198.51.100.133:51820\t10.66.0.2/32\t1754200000\t1024\t2048\t25
JP=\t(none)\t203.0.113.7:51820\t10.66.0.3/32\t1754200000\t1\t1\toff
";

    let checks = judge_wg_peers(&conf, &parse_wg_dump(roamed), now + 10, &Default::default());

    assert_eq!(checks[0].state, PeerState::Fresh);
    assert_eq!(
        checks[0].endpoint_drift,
        Some((
            "127.0.0.1:29000".to_owned(),
            "198.51.100.133:51820".to_owned()
        ))
    );
    assert!(drift_is_fatal(&checks[0]));
    assert_eq!(checks[1].endpoint_drift, None);
}

#[test]
fn a_passive_peer_that_roamed_to_a_public_address_is_caught() {
    let conf = parse_wireguard_conf_peers(CONF);
    let now = 1_754_200_000_i64;
    let dump = "\
SECRET=\tPUB=\t51820\toff
SG=\t(none)\t127.0.0.1:29000\t10.66.0.2/32\t1754200000\t1024\t2048\t25
JP=\t(none)\t203.0.113.7:51820\t10.66.0.3/32\t1754200000\t1\t1\toff
";
    let via = vec!["jp-01".to_owned()];

    let blind = judge_wg_peers(&conf, &parse_wg_dump(dump), now + 10, &Default::default());
    assert_eq!(blind[1].endpoint_drift, None);
    assert_eq!(blind[1].stray_endpoint, None);

    let checks = judge_wg_peers(&conf, &parse_wg_dump(dump), now + 10, &via);
    assert_eq!(
        checks[1].stray_endpoint.as_deref(),
        Some("203.0.113.7:51820")
    );
    assert_eq!(checks[0].stray_endpoint, None);
}

#[test]
fn only_loopback_counts_as_arriving_through_phantun() {
    assert!(endpoint_is_local("127.0.0.1:29000"));
    assert!(endpoint_is_local("[::1]:29000"));
    assert!(!endpoint_is_local("192.168.200.6:29000"));
    assert!(!endpoint_is_local("203.0.113.7:51820"));
}

#[test]
fn a_healthy_public_peer_that_roamed_is_left_alone() {
    let conf = parse_wireguard_conf_peers(
        "[Peer]\n# sg-01\nPublicKey  = SG=\nAllowedIPs = 10.66.0.2/32\nEndpoint   = 198.51.100.133:51820\n",
    );
    let now = 1_754_200_000_i64;
    let live =
        parse_wg_dump("SG=\t(none)\t[2001:db8::1]:51820\t10.66.0.2/32\t1754200000\t1\t1\toff\n");

    let checks = judge_wg_peers(&conf, &live, now + 10, &Default::default());
    assert!(checks[0].endpoint_drift.is_some());
    assert!(!drift_is_fatal(&checks[0]));

    let mut checks = judge_wg_peers(&conf, &live, now + 3600, &Default::default());
    assert_eq!(checks[0].state, PeerState::Suspect);
    checks[0].state = PeerState::Alive;
    assert!(!drift_is_fatal(&checks[0]));

    checks[0].state = PeerState::Down {
        detail: "ping 不通".to_owned(),
    };
    assert!(drift_is_fatal(&checks[0]));
}

#[test]
fn endpoints_compare_by_address_not_by_spelling() {
    assert!(endpoint_matches(
        "[2001:db8::1]:51820",
        "[2001:0db8:0000::1]:51820"
    ));
    assert!(endpoint_matches("127.0.0.1:29000", "127.0.0.1:29000"));
    assert!(!endpoint_matches("127.0.0.1:29000", "127.0.0.1:29001"));
    assert!(endpoint_matches("不是地址", "不是地址"));
    assert!(endpoint_matches("不是地址", "另一个不是地址"));
}

#[test]
fn a_peer_we_could_not_probe_never_counts_as_down() {
    let conf = parse_wireguard_conf_peers(CONF);
    let live = parse_wg_dump(DUMP);
    let now = 1_754_200_000_i64 + HANDSHAKE_STALE_SECS + 1;
    let mut checks = judge_wg_peers(&conf, &live, now, &Default::default());
    assert!(checks.iter().all(|c| c.state == PeerState::Suspect));

    let mut reachable: TextMap<Result<bool, String>> = TextMap::new();
    reachable.insert("10.66.0.2".to_owned(), Err("开不了 ICMP socket".to_owned()));
    reachable.insert("10.66.0.3".to_owned(), Ok(false));
    apply_reachability(&mut checks, &reachable);

    assert!(matches!(checks[0].state, PeerState::Unprobed { .. }));
    assert!(matches!(checks[1].state, PeerState::Down { .. }));
    assert_eq!(
        checks
            .iter()
            .filter(|c| matches!(c.state, PeerState::Down { .. }))
            .count(),
        1
    );
}

#[test]
fn a_suspect_peer_that_answers_is_alive() {
    let conf = parse_wireguard_conf_peers(CONF);
    let live = parse_wg_dump(DUMP);
    let now = 1_754_200_000_i64 + HANDSHAKE_STALE_SECS + 1;
    let mut checks = judge_wg_peers(&conf, &live, now, &Default::default());
    let mut reachable: TextMap<Result<bool, String>> = TextMap::new();
    reachable.insert("10.66.0.2".to_owned(), Ok(true));
    apply_reachability(&mut checks, &reachable);
    assert_eq!(checks[0].state, PeerState::Alive);
    assert!(matches!(checks[1].state, PeerState::Unprobed { .. }));
}

#[test]
fn what_survives_being_unprobed_is_whatever_the_dump_alone_proves() {
    let mut phantun_peer = judge_wg_peers(
        &parse_wireguard_conf_peers(CONF),
        &parse_wg_dump("SG=\t(none)\t198.51.100.133:51820\t10.66.0.2/32\t1754200000\t1\t1\t25\n"),
        1_754_200_000,
        &Default::default(),
    )
    .remove(0);
    phantun_peer.state = PeerState::Unprobed {
        reason: "开不了 ICMP socket".to_owned(),
    };
    assert!(phantun_peer.endpoint_drift.is_some());
    assert!(drift_is_fatal(&phantun_peer));

    let mut public_peer = judge_wg_peers(
        &parse_wireguard_conf_peers(
            "[Peer]\n# sg-01\nPublicKey  = SG=\nAllowedIPs = 10.66.0.2/32\nEndpoint   = 198.51.100.133:51820\n",
        ),
        &parse_wg_dump("SG=\t(none)\t[2001:db8::1]:51820\t10.66.0.2/32\t1754200000\t1\t1\toff\n"),
        1_754_200_000,
        &Default::default(),
    )
    .remove(0);
    public_peer.state = PeerState::Unprobed {
        reason: "开不了 ICMP socket".to_owned(),
    };
    assert!(public_peer.endpoint_drift.is_some());
    assert!(!drift_is_fatal(&public_peer));
}

#[test]
fn the_ladder_is_paced_by_wall_clock_not_by_round_count() {
    assert_eq!(pick_rung(0, 2, 2), Rung::Syncconf);
    assert_eq!(pick_rung(44, 2, 2), Rung::Syncconf);
    assert_eq!(pick_rung(45, 2, 2), Rung::Bounce);
    assert_eq!(pick_rung(119, 2, 2), Rung::Bounce);
    assert_eq!(pick_rung(120, 2, 2), Rung::Rebuild);
    assert_eq!(pick_rung(120, 1, 2), Rung::SpareTheLive);
    assert_eq!(pick_rung(86_400, 1, 2), Rung::SpareTheLive);
    assert!(Rung::Rebuild.is_top() && Rung::SpareTheLive.is_top());
    assert!(!Rung::Syncconf.is_top() && !Rung::Bounce.is_top());
}

#[test]
fn the_backoff_is_aggressive_early_and_quiet_later() {
    let mut dwell = WG_REMEDY_DWELL;
    let mut at = 120_u64;
    let mut retries = vec![at];
    for _ in 0..6 {
        assert_eq!(next_dwell(dwell), (dwell * 2).clamp(60, WG_BACKOFF_MAX));
        dwell = next_dwell(dwell);
        at += dwell;
        retries.push(at);
    }

    assert_eq!(retries, vec![120, 180, 300, 540, 1020, 1920, 2820]);
    assert_eq!(retries.iter().filter(|at| **at <= 300).count(), 3);
    assert!(dwell >= 30 * 60 / 2);
}

#[test]
fn a_configured_peer_without_a_live_endpoint_counts_as_drift() {
    let conf = parse_wireguard_conf_peers(CONF);
    let live = parse_wg_dump("SG=\t(none)\t(none)\t10.66.0.2/32\t1754200000\t1024\t2048\t25\n");

    let checks = judge_wg_peers(&conf, &live, 1_754_200_000 + 10, &Default::default());

    assert_eq!(
        checks[0].endpoint_drift,
        Some(("127.0.0.1:29000".to_owned(), "(none)".to_owned()))
    );
}
