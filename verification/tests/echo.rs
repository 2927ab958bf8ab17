use brocade_agent::address::Ip;
use brocade_agent::echo::{
    answers, checksum, echo_request, next_seq, payload_for, reachable, receive_failed, reply_seq,
    resolve_ipv4, send_failed, wireguard_overhead, Probe, ProbeTransport, IPV4_HEADER, IPV6_HEADER,
    TCP_HEADER, UDP_HEADER, WIREGUARD_HEADER,
};

#[test]
fn checksum_matches_a_known_vector() {
    // 0x0800 + 0x1234 + 0x0001 = 0x1a35
    let packet = [8_u8, 0, 0, 0, 0x12, 0x34, 0x00, 0x01];
    assert_eq!(checksum(&packet), !0x1a35_u16);
}

#[test]
fn payload_length_accounts_for_both_headers() {
    let packet = echo_request(0, 1, 0, 1500 - 28);
    assert_eq!(packet.len(), 8 + 1472);
    assert_eq!(packet.len() + 20, 1500);
    assert_eq!(payload_for(1500), 1472);
}

#[test]
fn resolve_ipv4_takes_literals_as_is() {
    let none: Vec<Ip> = Vec::new();
    assert_eq!(
        resolve_ipv4("10.66.0.2", Ok(&none)).unwrap(),
        (0x0a42_0002, false)
    );
    assert!(
        resolve_ipv4("::1", Ok(&none)).is_err(),
        "IPv6 该明确拒绝而不是猜"
    );
}

#[test]
fn a_name_with_both_families_is_taken_by_its_ipv4() {
    let both = vec![Ip::V6(0x2001_0db8_0000_0000, 1), Ip::V4(0xc000_0201)];
    assert_eq!(
        resolve_ipv4("peer.example", Ok(&both)).unwrap(),
        (0xc000_0201, true)
    );
    let only_v6 = vec![Ip::V6(0x2001_0db8_0000_0000, 1)];
    assert!(resolve_ipv4("peer.example", Ok(&only_v6)).is_err());
    assert!(resolve_ipv4("peer.example", Err("no such host")).is_err());
}

#[test]
fn overhead_covers_every_transport_and_family() {
    assert_eq!(IPV4_HEADER + UDP_HEADER + WIREGUARD_HEADER, 60);
    assert_eq!(IPV4_HEADER + TCP_HEADER + WIREGUARD_HEADER, 72);
    assert_eq!(IPV6_HEADER + UDP_HEADER + WIREGUARD_HEADER, 80);
    assert_eq!(1500 - 80, 1420);
    assert_eq!(wireguard_overhead(false, ProbeTransport::Udp), 60);
    assert_eq!(wireguard_overhead(false, ProbeTransport::FakeTcp), 72);
    assert_eq!(wireguard_overhead(true, ProbeTransport::Udp), 80);
}

#[test]
fn a_request_checks_out_against_its_own_checksum() {
    let packet = echo_request(0x1234, 0x0102, 0xdead_beef, 56);
    assert_eq!(checksum(&packet), 0);
    assert_eq!(next_seq(0xffff), 0);
}

#[test]
fn only_the_reply_to_this_request_counts() {
    let mut reply = echo_request(1, 9, 0, 8);
    reply[0] = 0;
    assert_eq!(reply_seq(true, &reply), Some(9));
    assert_eq!(answers(true, &reply, 9), Some(Probe::Fits));
    assert_eq!(answers(true, &reply, 8), None);
}

#[test]
fn silence_is_too_big_and_a_fault_is_a_fault() {
    assert_eq!(send_failed(true, "message too long"), Ok(Probe::TooBig));
    assert!(send_failed(false, "denied").is_err());
    assert_eq!(receive_failed(true, "timed out"), Ok(Probe::TooBig));
    assert!(receive_failed(false, "denied").is_err());
    assert!(reachable(&Ok(Probe::Fits)));
    assert!(!reachable(&Err("denied".to_owned())));
}
