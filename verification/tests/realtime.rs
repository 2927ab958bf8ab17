use brocade_agent::realtime::{
    accepted_interval, next_backoff, read_nic, unix_millis, websocket_url, AgentRealtimeCommand,
    NicReading, RateSampler, SampleStep, Session, MAX_RECONNECT,
};

const SECOND: u64 = 1_000_000_000;

fn reading(interface: &str, rx: u64, tx: u64, nanos: u64) -> NicReading {
    NicReading {
        interface: interface.to_owned(),
        rx_bytes: rx,
        tx_bytes: tx,
        sampled_at_unix_millis: 0,
        nanos,
    }
}

#[test]
fn urls_preserve_the_control_plane_path_prefix() {
    assert_eq!(
        websocket_url("https://console.example/base/").unwrap(),
        "wss://console.example/base/agent/v1/realtime"
    );
    assert_eq!(
        websocket_url("http://127.0.0.1:8080").unwrap(),
        "ws://127.0.0.1:8080/agent/v1/realtime"
    );
    assert!(websocket_url("console.example").is_err());
}

#[test]
fn rates_use_actual_elapsed_time_and_resets_create_a_gap() {
    let start = 10 * SECOND;
    let mut sampler = RateSampler::default();
    assert!(sampler
        .advance(reading("eth0", 100, 200, start), SECOND)
        .is_none());
    let sample = sampler
        .advance(reading("eth0", 2100, 1200, start + 2 * SECOND), SECOND)
        .unwrap();
    assert_eq!(sample.rx_bytes_per_sec, 1000);
    assert_eq!(sample.tx_bytes_per_sec, 500);
    assert!(sample.has_gap);

    assert!(sampler
        .advance(reading("ens3", 3000, 2000, start + 3 * SECOND), SECOND)
        .is_none());
    assert!(
        sampler
            .advance(reading("ens3", 4000, 3000, start + 4 * SECOND), SECOND)
            .unwrap()
            .has_gap
    );
}

#[test]
fn a_counter_regression_is_never_turned_into_a_huge_rate() {
    let start = 10 * SECOND;
    let mut sampler = RateSampler::default();
    sampler.advance(reading("eth0", 1000, 1000, start), SECOND);
    assert!(sampler
        .advance(reading("eth0", 10, 20, start + SECOND), SECOND)
        .is_none());
}

#[test]
fn a_session_samples_only_while_it_is_told_to() {
    let mut session = Session::new(0);
    assert!(matches!(session.begin_sample(SECOND), SampleStep::NotDue));
    session
        .command(
            AgentRealtimeCommand::Start {
                interval_millis: 1000,
            },
            SECOND,
        )
        .unwrap();
    assert!(matches!(session.begin_sample(SECOND), SampleStep::Read));
    assert!(session
        .finish_sample(Some(reading("eth0", 1, 1, SECOND)))
        .is_none());
    assert!(matches!(
        session.begin_sample(SECOND + 1),
        SampleStep::NotDue
    ));
    session.command(AgentRealtimeCommand::Stop, SECOND).unwrap();
    assert!(matches!(
        session.begin_sample(100 * SECOND),
        SampleStep::NotDue
    ));
    assert!(session
        .command(AgentRealtimeCommand::Start { interval_millis: 1 }, SECOND)
        .is_err());
}

#[test]
fn waiting_grows_to_its_limit() {
    let mut wait = 1;
    for _ in 0..20 {
        let next = next_backoff(wait);
        assert!(next >= wait);
        wait = next;
    }
    assert_eq!(wait, MAX_RECONNECT);
    assert!(accepted_interval(1000));
    assert!(!accepted_interval(0));
}

#[test]
fn a_card_is_read_from_its_own_counters() {
    let read = read_nic(Some("eth0"), Ok("12\n"), Ok("34\n"), 5, 6).unwrap();
    assert_eq!((read.rx_bytes, read.tx_bytes), (12, 34));
    assert!(read_nic(None, Ok("1"), Ok("2"), 0, 0).is_err());
    assert!(read_nic(Some("eth0"), Err("gone"), Ok("2"), 0, 0).is_err());
    assert!(read_nic(Some("eth0"), Ok("x"), Ok("2"), 0, 0).is_err());
    assert_eq!(unix_millis(Some(7)), 7);
}
