use brocade_agent::address::Ip;
use brocade_agent::inetdiag::{
    aggregate, percentile, read_tcp_info, retrans_share, send_request, u32_at, u64_at, walk_datagram, Conn, SumShare,
    WalkEnd, AF_INET, TI_APP_LIMITED_BYTE, TI_BYTES_SENT, TI_MIN_RTT, TI_RTT, TI_SNDBUF_LIMITED,
};
use brocade_agent::xray::HopTargets;

fn blank() -> Conn {
    Conn {
        peer: Ip::V4(0),
        rtt_us: 0,
        min_rtt_us: 0,
        btlbw_bytes: None,
        app_limited: false,
        bytes_sent: 0,
        bytes_retrans: 0,
        busy_us: 0,
        rwnd_limited_us: 0,
        sndbuf_limited_us: 0,
        cc: String::new(),
    }
}

#[test]
fn reading_past_a_short_tcp_info_yields_none_rather_than_garbage() {
    let short = vec![0_u8; 104];
    assert!(
        u32_at(&short, TI_RTT).is_some(),
        "rtt is within even a short struct"
    );
    assert!(u64_at(&short, TI_BYTES_SENT).is_none());
    assert!(u64_at(&short, TI_SNDBUF_LIMITED).is_none());
    assert!(u32_at(&short, TI_MIN_RTT).is_none());
}

#[test]
fn app_limited_reads_one_bit_not_the_whole_byte() {
    let mut info = vec![0_u8; 220];
    info[TI_APP_LIMITED_BYTE] = 0b0000_0110;
    let mut conn = blank();
    read_tcp_info(&info, &mut conn);
    assert!(!conn.app_limited);

    info[TI_APP_LIMITED_BYTE] = 0b0000_0001;
    let mut conn = blank();
    read_tcp_info(&info, &mut conn);
    assert!(conn.app_limited);
}

#[test]
fn bbr_bandwidth_is_reassembled_from_two_halves_and_converted_to_bits() {
    let mut payload = vec![0_u8; 20];
    payload[0..4].copy_from_slice(&5_u32.to_le_bytes());
    payload[4..8].copy_from_slice(&1_u32.to_le_bytes());
    let lo = u32_at(&payload, 0).unwrap();
    let hi = u32_at(&payload, 4).unwrap();
    let bytes = u64::from(lo) | (u64::from(hi) << 32);
    assert_eq!(bytes, 0x1_0000_0005);
}

#[test]
fn percentiles_of_nothing_are_none_not_zero() {
    let empty: Vec<u64> = vec![];
    assert_eq!(percentile(&empty, 50), None);
    let one = vec![42_u64];
    assert_eq!(percentile(&one, 50), Some(42));
    let ten: Vec<u64> = (1..=10).collect();
    assert_eq!(percentile(&ten, 50), Some(5));
    assert_eq!(percentile(&ten, 90), Some(9));
    assert_eq!(percentile(&ten, 100), Some(10));
}

fn hops() -> HopTargets {
    HopTargets {
        entries: vec![(
            Ip::V4(0x0a00_0001),
            "app/chain".to_owned(),
            "sg-02".to_owned(),
        )],
    }
}

#[test]
fn app_limited_connections_are_counted_but_not_measured() {
    let mut busy = blank();
    busy.peer = Ip::V4(0x0a00_0001);
    busy.btlbw_bytes = Some(12_500_000);
    busy.rtt_us = 30_000;
    busy.min_rtt_us = 28_000;

    let mut idle = blank();
    idle.peer = busy.peer;
    idle.rtt_us = busy.rtt_us;
    idle.min_rtt_us = busy.min_rtt_us;
    idle.app_limited = true;
    idle.btlbw_bytes = Some(1_000);

    let out = aggregate(&[busy, idle], &hops(), 100, 130);
    assert_eq!(out.len(), 1);
    assert_eq!(out[0].conns, 2);
    assert_eq!(out[0].conns_measured, 1);
    assert_eq!(out[0].btlbw_p50_bps, Some(100_000_000));
    assert_eq!(out[0].chain_id, "app/chain");
    assert_eq!(out[0].peer_node_id, "sg-02");
    assert_eq!(out[0].window_start_unix_secs, 100);
    assert_eq!(out[0].window_end_unix_secs, 130);
}

#[test]
fn connections_to_unknown_peers_are_dropped() {
    let mut stranger = blank();
    stranger.peer = Ip::V4(0x0101_0101);
    let none = HopTargets {
        entries: Vec::new(),
    };
    assert!(aggregate(&[stranger], &none, 100, 130).is_empty());
}

#[test]
fn a_request_is_as_long_as_it_says() {
    let request = send_request(AF_INET);
    assert_eq!(u32_at(&request, 0), Some(request.len() as u32));
}

#[test]
fn a_dump_ends_where_it_says_it_does() {
    // One message: length 16, type done.
    let mut done = vec![0_u8; 16];
    done[0] = 16;
    done[4] = 3;
    let mut conns = Vec::new();
    assert!(matches!(
        walk_datagram(&done, 16, &mut conns),
        WalkEnd::Done
    ));
    assert!(conns.is_empty());
    assert!(matches!(
        walk_datagram(&[], 0, &mut conns),
        WalkEnd::More
    ));
}

#[test]
fn retransmission_without_known_bytes_is_no_clean_link() {
    let mut conn = blank();
    conn.peer = Ip::V4(0x0a00_0001);
    conn.bytes_retrans = 7;
    let out = aggregate(&[conn], &hops(), 100, 130);
    assert_eq!(out.len(), 1);
    assert_eq!(out[0].retrans, SumShare { part: 7, whole: 7 });
    assert_eq!(retrans_share(100, 7), SumShare { part: 7, whole: 100 });
    assert_eq!(retrans_share(5, 7), SumShare { part: 5, whole: 5 });
    assert_eq!(retrans_share(0, 0), SumShare { part: 0, whole: 1 });
}
