//! Live rates of the interface that carries the default route, while somebody watches.
use vstd::prelude::*;
use vstd::string::*;

use crate::{http, numbers, processes, text};

verus! {

/// How long to sleep while samples are due, in nanoseconds.
pub const IO_POLL: u64 = 20_000_000;

/// How long to sleep while none are.
pub const IDLE_POLL: u64 = 250_000_000;

/// Seconds before the first attempt to connect again.
pub const INITIAL_RECONNECT: u64 = 1;

/// The most seconds between two attempts.
pub const MAX_RECONNECT: u64 = 300;

/// The largest message, in bytes.
pub const MAX_FRAME_BYTES: usize = 16384;

/// How much may wait to be written, in bytes.
pub const MAX_WRITE_BUFFER_BYTES: usize = 65536;

/// The shortest time between two readings that still tells a rate, in nanoseconds.
pub const SHORTEST: u64 = 100_000_000;

/// The longest.
pub const LONGEST: u64 = 60_000_000_000;

/// The intervals that may be asked for, in milliseconds.
pub open spec fn is_accepted(interval_millis: u32) -> bool {
    interval_millis == 1_000 || interval_millis == 2_000 || interval_millis == 5_000
}

/// Whether an interval may be asked for.
pub fn accepted_interval(interval_millis: u32) -> (r: bool)
    ensures
        r == is_accepted(interval_millis),
{
    interval_millis == 1_000 || interval_millis == 2_000 || interval_millis == 5_000
}

/// A reading of the interface's counters; `nanos` is a clock that never goes back.
#[derive(Debug, PartialEq, Eq)]
pub struct NicReading {
    pub interface: String,
    pub rx_bytes: u64,
    pub tx_bytes: u64,
    pub sampled_at_unix_millis: i64,
    pub nanos: u64,
}

/// A rate on the wire.
#[derive(Debug, PartialEq, Eq)]
pub struct AgentRealtimeSample {
    pub sequence: u64,
    pub sampled_at_unix_millis: i64,
    pub elapsed_millis: u32,
    pub interface: String,
    pub rx_bytes_per_sec: u64,
    pub tx_bytes_per_sec: u64,
    pub has_gap: bool,
}

/// The reading before, and what the next sample has to say of what went missing.
#[derive(Debug, PartialEq, Eq)]
pub struct RateSampler {
    pub previous: Option<NicReading>,
    pub sequence: u64,
    pub pending_gap: bool,
}

/// Nanoseconds between two readings.
pub open spec fn between(before: NicReading, now: NicReading) -> u64 {
    if now.nanos > before.nanos {
        (now.nanos - before.nanos) as u64
    } else {
        0
    }
}

/// Whether two readings tell a rate: of one interface, with counters that did not fall,
/// and neither too close together nor too far apart.
pub open spec fn tells(before: NicReading, now: NicReading) -> bool {
    now.interface@ == before.interface@ && now.rx_bytes >= before.rx_bytes && now.tx_bytes
        >= before.tx_bytes && SHORTEST <= between(before, now) <= LONGEST
}

/// Bytes per second, rounded down.
pub open spec fn per_second(now: u64, before: u64, millis: int) -> u64 {
    numbers::capped((now - before) * 1000 / millis)
}

/// The number after `sequence`; none is zero.
pub open spec fn next_sequence(sequence: u64) -> u64 {
    if sequence == u64::MAX {
        1
    } else {
        (sequence + 1) as u64
    }
}

/// A rate on the wire, by its characters.
pub struct SampleView {
    pub sequence: u64,
    pub sampled_at_unix_millis: i64,
    pub elapsed_millis: u32,
    pub interface: Seq<char>,
    pub rx_bytes_per_sec: u64,
    pub tx_bytes_per_sec: u64,
    pub has_gap: bool,
}

/// A rate on the wire, by its characters.
pub open spec fn sampled(sample: Option<AgentRealtimeSample>) -> Option<SampleView> {
    match sample {
        Some(s) => Some(
            SampleView {
                sequence: s.sequence,
                sampled_at_unix_millis: s.sampled_at_unix_millis,
                elapsed_millis: s.elapsed_millis,
                interface: s.interface@,
                rx_bytes_per_sec: s.rx_bytes_per_sec,
                tx_bytes_per_sec: s.tx_bytes_per_sec,
                has_gap: s.has_gap,
            },
        ),
        None => None,
    }
}

/// The sample that a reading makes with the one before, where they tell a rate. It
/// says whether something went missing before it.
pub open spec fn sample_for(
    previous: Option<NicReading>,
    now: NicReading,
    sequence: u64,
    pending_gap: bool,
    expected_interval: u64,
) -> Option<SampleView> {
    match previous {
        None => None,
        Some(before) => if !tells(before, now) {
            None
        } else {
            let millis = between(before, now) / 1_000_000;
            Some(
                SampleView {
                    sequence: next_sequence(sequence),
                    sampled_at_unix_millis: now.sampled_at_unix_millis,
                    elapsed_millis: millis as u32,
                    interface: now.interface@,
                    rx_bytes_per_sec: per_second(now.rx_bytes, before.rx_bytes, millis as int),
                    tx_bytes_per_sec: per_second(now.tx_bytes, before.tx_bytes, millis as int),
                    has_gap: pending_gap || between(before, now) > 2 * expected_interval,
                },
            )
        },
    }
}

impl Default for RateSampler {
    fn default() -> (r: RateSampler)
        ensures
            r.previous is None,
            r.sequence == 0,
            !r.pending_gap,
    {
        RateSampler { previous: None, sequence: 0, pending_gap: false }
    }
}

fn rate(now: u64, before: u64, millis: u64) -> (r: u64)
    requires
        now >= before,
        millis > 0,
    ensures
        r == per_second(now, before, millis as int),
{
    let q: u128 = ((now - before) as u128) * 1000 / (millis as u128);
    if q > u64::MAX as u128 {
        u64::MAX
    } else {
        q as u64
    }
}

impl RateSampler {
    /// Forgets the reading before: the next sample begins a new stretch.
    pub fn reset(&mut self)
        ensures
            final(self).previous is None,
            final(self).pending_gap,
            final(self).sequence == old(self).sequence,
    {
        self.previous = None;
        self.pending_gap = true;
    }

    /// Takes a reading. Where it tells a rate with the one before, a sample comes out,
    /// which says whether something went missing before it.
    pub fn advance(&mut self, reading: NicReading, expected_interval: u64) -> (r: Option<
        AgentRealtimeSample,
    >)
        ensures
            final(self).previous == Some(reading),
            sampled(r) == sample_for(
                old(self).previous,
                reading,
                old(self).sequence,
                old(self).pending_gap,
                expected_interval,
            ),
            final(self).sequence == (match r {
                Some(s) => s.sequence,
                None => old(self).sequence,
            }),
            final(self).pending_gap == (r is None),
    {
        let outcome = match &self.previous {
            None => None,
            Some(before) => {
                let elapsed: u64 = reading.nanos.saturating_sub(before.nanos);
                if !text::same_str(reading.interface.as_str(), before.interface.as_str())
                    || reading.rx_bytes < before.rx_bytes || reading.tx_bytes < before.tx_bytes
                    || elapsed < SHORTEST || elapsed > LONGEST {
                    None
                } else {
                    let millis: u64 = elapsed / 1_000_000;
                    let sequence: u64 = if self.sequence == u64::MAX {
                        1
                    } else {
                        self.sequence + 1
                    };
                    let late = elapsed as u128 > 2 * (expected_interval as u128);
                    Some(
                        AgentRealtimeSample {
                            sequence,
                            sampled_at_unix_millis: reading.sampled_at_unix_millis,
                            elapsed_millis: millis as u32,
                            interface: reading.interface.as_str().to_owned(),
                            rx_bytes_per_sec: rate(reading.rx_bytes, before.rx_bytes, millis),
                            tx_bytes_per_sec: rate(reading.tx_bytes, before.tx_bytes, millis),
                            has_gap: self.pending_gap || late,
                        },
                    )
                }
            },
        };
        self.previous = Some(reading);
        match &outcome {
            Some(sample) => {
                self.sequence = sample.sequence;
                self.pending_gap = false;
            },
            None => {
                self.pending_gap = true;
            },
        }
        outcome
    }
}

/// A counter that fell is never turned into a rate.
pub proof fn lemma_fallen_counter_tells_nothing(before: NicReading, now: NicReading)
    requires
        now.rx_bytes < before.rx_bytes || now.tx_bytes < before.tx_bytes || now.interface@
            != before.interface@,
    ensures
        !tells(before, now),
{
}

/// A rate is never more than what was counted since, spread over the shortest time.
pub proof fn lemma_rate_is_bounded(before: NicReading, now: NicReading)
    requires
        tells(before, now),
    ensures
        per_second(now.rx_bytes, before.rx_bytes, (between(before, now) / 1_000_000) as int) <= 10
            * (now.rx_bytes - before.rx_bytes),
        per_second(now.tx_bytes, before.tx_bytes, (between(before, now) / 1_000_000) as int) <= 10
            * (now.tx_bytes - before.tx_bytes),
{
    let millis = (between(before, now) / 1_000_000) as int;
    assert(millis >= 100);
    lemma_spread(now.rx_bytes - before.rx_bytes, millis);
    lemma_spread(now.tx_bytes - before.tx_bytes, millis);
}

proof fn lemma_spread(delta: int, millis: int)
    by (nonlinear_arith)
    requires
        delta >= 0,
        millis >= 100,
    ensures
        0 <= delta * 1000 / millis <= 10 * delta,
{
}

/// The seconds to wait after an attempt that waited `backoff`.
pub open spec fn doubled(backoff: u64) -> u64 {
    if backoff * 2 > MAX_RECONNECT {
        MAX_RECONNECT
    } else {
        (backoff * 2) as u64
    }
}

/// The seconds to wait after an attempt that waited `backoff`: twice as long, up to a
/// limit.
pub fn next_backoff(backoff: u64) -> (r: u64)
    ensures
        r == doubled(backoff),
{
    if backoff > MAX_RECONNECT / 2 {
        MAX_RECONNECT
    } else {
        backoff * 2
    }
}

/// Waiting grows and never passes its limit.
pub proof fn lemma_waiting_grows_to_its_limit(backoff: u64)
    requires
        INITIAL_RECONNECT <= backoff <= MAX_RECONNECT,
    ensures
        backoff <= doubled(backoff) <= MAX_RECONNECT,
        doubled(backoff) == backoff ==> backoff == MAX_RECONNECT,
{
}

/// Where live rates are sent: beside the other requests, over the same kind of
/// connection.
pub open spec fn url_of(server: Seq<char>) -> Result<Seq<char>, Seq<char>> {
    let bare = http::without_slashes(server);
    match text::strip_prefix(bare, "https://"@) {
        Some(rest) => Ok("wss://"@ + rest + "/agent/v1/realtime"@),
        None => match text::strip_prefix(bare, "http://"@) {
            Some(rest) => Ok("ws://"@ + rest + "/agent/v1/realtime"@),
            None => Err("server URL must start with http:// or https://"@),
        },
    }
}

/// Where live rates are sent.
pub fn websocket_url(server: &str) -> (r: Result<String, String>)
    ensures
        match r {
            Ok(u) => url_of(server@) == Ok::<Seq<char>, Seq<char>>(u@),
            Err(e) => url_of(server@) == Err::<Seq<char>, Seq<char>>(e@),
        },
{
    let chars = text::chars_of(server);
    let bare = http::strip_slashes(chars.as_slice());
    match text::after_prefix(bare, "https://") {
        Some(rest) => {
            let mut out = "wss://".to_owned();
            out.append(text::string_of(rest).as_str());
            out.append("/agent/v1/realtime");
            Ok(out)
        },
        None => match text::after_prefix(bare, "http://") {
            Some(rest) => {
                let mut out = "ws://".to_owned();
                out.append(text::string_of(rest).as_str());
                out.append("/agent/v1/realtime");
                Ok(out)
            },
            None => Err("server URL must start with http:// or https://".to_owned()),
        },
    }
}

/// What the control plane asks for.
#[derive(Debug, Clone, Copy, PartialEq, Eq, Structural)]
pub enum AgentRealtimeCommand {
    Start { interval_millis: u32 },
    Stop,
}

/// A connection over which live rates go.
#[derive(Debug, PartialEq, Eq)]
pub struct Session {
    /// The interval in force, in nanoseconds; nothing while nobody watches.
    pub active_interval: Option<u64>,
    /// When the next sample is due.
    pub next_sample: u64,
    pub sampler: RateSampler,
    /// Something still waits to be written.
    pub write_pending: bool,
}

/// Whether a sample is due, and what of it.
#[derive(Debug, Clone, Copy, PartialEq, Eq, Structural)]
pub enum SampleStep {
    NotDue,
    /// It is left out, since the one before was not taken yet.
    Dropped,
    /// Read the counters.
    Read,
}

/// Nanoseconds in so many milliseconds.
pub open spec fn nanos_of(interval_millis: u32) -> u64 {
    (interval_millis * 1_000_000) as u64
}

/// The sum, as far as the clock goes.
pub open spec fn later(at: u64, by: u64) -> u64 {
    numbers::capped(at + by)
}

impl Session {
    /// A session with a known interval has one that may be asked for.
    pub open spec fn wf(self) -> bool {
        self.active_interval matches Some(i) ==> exists|ms: u32| #[trigger]
            is_accepted(ms) && i == nanos_of(ms)
    }

    pub fn new(now: u64) -> (r: Session)
        ensures
            r.wf(),
            r.active_interval is None,
            r.next_sample == now,
            r.sampler.previous is None,
            r.sampler.pending_gap,
            r.sampler.sequence == 0,
            !r.write_pending,
    {
        let mut sampler = RateSampler::default();
        sampler.reset();
        Session { active_interval: None, next_sample: now, sampler, write_pending: false }
    }

    /// Does what the control plane asks for. Asking for the interval in force changes
    /// nothing; asking for another begins anew at once.
    pub fn command(&mut self, command: AgentRealtimeCommand, now: u64) -> (r: Result<(), String>)
        requires
            old(self).wf(),
        ensures
            final(self).wf(),
            final(self).write_pending == old(self).write_pending,
            final(self).sampler.sequence == old(self).sampler.sequence,
            match command {
                AgentRealtimeCommand::Start { interval_millis } => if !is_accepted(
                    interval_millis,
                ) {
                    r matches Err(e) && e@ == "control plane sent an unsupported sample interval"@
                        && *final(self) == *old(self)
                } else {
                    &&& r is Ok
                    &&& final(self).active_interval == Some(nanos_of(interval_millis))
                    &&& if old(self).active_interval == Some(nanos_of(interval_millis)) {
                        *final(self) == *old(self)
                    } else {
                        final(self).next_sample == now && final(self).sampler.previous is None
                            && final(self).sampler.pending_gap
                    }
                },
                AgentRealtimeCommand::Stop => r is Ok && final(self).active_interval is None
                    && final(self).next_sample == old(self).next_sample
                    && final(self).sampler.previous is None && final(self).sampler.pending_gap,
            },
    {
        match command {
            AgentRealtimeCommand::Start { interval_millis } => {
                if !accepted_interval(interval_millis) {
                    return Err("control plane sent an unsupported sample interval".to_owned());
                }
                let interval: u64 = (interval_millis as u64) * 1_000_000;
                let same = match self.active_interval {
                    Some(i) => i == interval,
                    None => false,
                };
                if !same {
                    self.sampler.reset();
                    self.next_sample = now;
                    self.active_interval = Some(interval);
                }
                assert(is_accepted(interval_millis));
                Ok(())
            },
            AgentRealtimeCommand::Stop => {
                self.active_interval = None;
                self.sampler.reset();
                Ok(())
            },
        }
    }

    /// Whether a sample is due. While the one before still waits to be written nothing
    /// is read: what is delivered next begins a new stretch instead of a queue. The
    /// next one is due an interval after this one, or after now where that has passed.
    pub fn begin_sample(&mut self, now: u64) -> (r: SampleStep)
        requires
            old(self).wf(),
        ensures
            final(self).wf(),
            final(self).active_interval == old(self).active_interval,
            final(self).write_pending == old(self).write_pending,
            final(self).sampler.sequence == old(self).sampler.sequence,
            match old(self).active_interval {
                Some(interval) if now >= old(self).next_sample => {
                    let due = later(old(self).next_sample, interval);
                    &&& final(self).next_sample == if due <= now {
                        later(now, interval)
                    } else {
                        due
                    }
                    &&& if old(self).write_pending {
                        r == SampleStep::Dropped && final(self).sampler.previous is None
                            && final(self).sampler.pending_gap
                    } else {
                        r == SampleStep::Read && final(self).sampler == old(self).sampler
                    }
                },
                _ => r == SampleStep::NotDue && *final(self) == *old(self),
            },
    {
        match self.active_interval {
            Some(interval) => {
                if now < self.next_sample {
                    return SampleStep::NotDue;
                }
                let due: u64 = self.next_sample.saturating_add(interval);
                self.next_sample = if due <= now {
                    now.saturating_add(interval)
                } else {
                    due
                };
                if self.write_pending {
                    self.sampler.reset();
                    SampleStep::Dropped
                } else {
                    SampleStep::Read
                }
            },
            None => SampleStep::NotDue,
        }
    }

    /// Takes the counters that were read for a sample, or that they could not be.
    pub fn finish_sample(&mut self, reading: Option<NicReading>) -> (r: Option<AgentRealtimeSample>)
        requires
            old(self).wf(),
            old(self).active_interval is Some,
        ensures
            final(self).wf(),
            final(self).active_interval == old(self).active_interval,
            final(self).next_sample == old(self).next_sample,
            final(self).write_pending == old(self).write_pending,
            match reading {
                None => r is None && final(self).sampler.previous is None
                    && final(self).sampler.pending_gap && final(self).sampler.sequence
                    == old(self).sampler.sequence,
                Some(now) => {
                    &&& final(self).sampler.previous == Some(now)
                    &&& sampled(r) == sample_for(
                        old(self).sampler.previous,
                        now,
                        old(self).sampler.sequence,
                        old(self).sampler.pending_gap,
                        old(self).active_interval->0,
                    )
                    &&& final(self).sampler.sequence == (match r {
                        Some(s) => s.sequence,
                        None => old(self).sampler.sequence,
                    })
                    &&& final(self).sampler.pending_gap == (r is None)
                },
            },
    {
        match reading {
            None => {
                self.sampler.reset();
                None
            },
            Some(now) => match self.active_interval {
                Some(interval) => self.sampler.advance(now, interval),
                None => None,
            },
        }
    }

    /// How long to sleep before the next look, in nanoseconds.
    pub fn pause(&self, now: u64) -> (r: u64)
        ensures
            r == (match self.active_interval {
                Some(_) => {
                    let left = if self.next_sample > now {
                        self.next_sample - now
                    } else {
                        0
                    };
                    if left < IO_POLL {
                        left
                    } else {
                        IO_POLL as int
                    }
                },
                None => IDLE_POLL as int,
            }),
    {
        match self.active_interval {
            Some(_) => {
                let left: u64 = self.next_sample.saturating_sub(now);
                if left < IO_POLL {
                    left
                } else {
                    IO_POLL
                }
            },
            None => IDLE_POLL,
        }
    }
}

/// A schedule never falls behind: after a sample was due, the next one lies ahead.
pub proof fn lemma_next_sample_lies_ahead(due_at: u64, interval: u64, now: u64)
    requires
        interval > 0,
        now >= due_at,
        now + interval <= u64::MAX,
    ensures
        ({
            let due = later(due_at, interval);
            now < (if due <= now {
                later(now, interval)
            } else {
                due
            })
        }),
{
}

/// What was read of the interface: its counters, or what is wrong.
pub fn read_nic(
    interface: Option<&str>,
    rx: Result<&str, &str>,
    tx: Result<&str, &str>,
    sampled_at_unix_millis: i64,
    nanos: u64,
) -> (r: Result<NicReading, String>)
    ensures
        ({
            let told = nic_of(
                match interface {
                    Some(i) => Some(i@),
                    None => None,
                },
                match rx {
                    Ok(t) => Ok(t@),
                    Err(e) => Err(e@),
                },
                match tx {
                    Ok(t) => Ok(t@),
                    Err(e) => Err(e@),
                },
            );
            match r {
                Ok(n) => told == Ok::<(Seq<char>, u64, u64), Seq<char>>(
                    (n.interface@, n.rx_bytes, n.tx_bytes),
                ) && n.sampled_at_unix_millis == sampled_at_unix_millis && n.nanos == nanos,
                Err(e) => told == Err::<(Seq<char>, u64, u64), Seq<char>>(e@),
            }
        }),
{
    let name = match interface {
        Some(i) => i,
        None => {
            return Err("default-route interface not found".to_owned());
        },
    };
    let chars = text::chars_of(name);
    let slashed = match text::find(chars.as_slice(), '/') {
        Some(_) => true,
        None => false,
    };
    if slashed || chars.len() == 0 {
        return Err("default-route interface name is invalid".to_owned());
    }
    let rx_bytes: u64 = match read_counter(rx) {
        Ok(v) => v,
        Err(e) => {
            return Err(e);
        },
    };
    let tx_bytes: u64 = match read_counter(tx) {
        Ok(v) => v,
        Err(e) => {
            return Err(e);
        },
    };
    Ok(
        NicReading {
            interface: name.to_owned(),
            rx_bytes,
            tx_bytes,
            sampled_at_unix_millis,
            nanos,
        },
    )
}

/// A counter alone in a file.
pub open spec fn counter_of(file: Result<Seq<char>, Seq<char>>) -> Result<u64, Seq<char>> {
    match file {
        Err(e) => Err(e),
        Ok(t) => match numbers::parse_unsigned(text::trim(t), 10, u64::MAX as int) {
            Ok(v) => Ok(v as u64),
            Err(e) => Err(e.sentence()),
        },
    }
}

fn read_counter(file: Result<&str, &str>) -> (r: Result<u64, String>)
    ensures
        ({
            let told = counter_of(
                match file {
                    Ok(t) => Ok(t@),
                    Err(e) => Err(e@),
                },
            );
            match r {
                Ok(v) => told == Ok::<u64, Seq<char>>(v),
                Err(e) => told == Err::<u64, Seq<char>>(e@),
            }
        }),
{
    match file {
        Err(e) => Err(e.to_owned()),
        Ok(t) => {
            let chars = text::chars_of(t);
            match numbers::read_unsigned(text::trimmed(chars.as_slice()), 10, u64::MAX) {
                Ok(v) => Ok(v),
                Err(e) => Err(e.describe()),
            }
        },
    }
}

/// Interface and counters, or what is wrong with them. A name with a slash is refused,
/// so that it can never name a file elsewhere.
pub open spec fn nic_of(
    interface: Option<Seq<char>>,
    rx: Result<Seq<char>, Seq<char>>,
    tx: Result<Seq<char>, Seq<char>>,
) -> Result<(Seq<char>, u64, u64), Seq<char>> {
    match interface {
        None => Err("default-route interface not found"@),
        Some(name) => if text::find_char(name, '/', 0) is Some || name.len() == 0 {
            Err("default-route interface name is invalid"@)
        } else {
            match counter_of(rx) {
                Err(e) => Err(e),
                Ok(rx_bytes) => match counter_of(tx) {
                    Err(e) => Err(e),
                    Ok(tx_bytes) => Ok((name, rx_bytes, tx_bytes)),
                },
            }
        },
    }
}

/// The time in milliseconds since 1970; zero where the clock is set before.
pub fn unix_millis(clock: Option<u64>) -> (r: i64)
    ensures
        r == (match clock {
            Some(ms) => processes::clamped(ms as int),
            None => 0i64,
        }),
{
    match clock {
        Some(ms) => if ms > i64::MAX as u64 {
            i64::MAX
        } else {
            ms as i64
        },
        None => 0,
    }
}

/// What is told each second, over the milliseconds that passed, comes to what was counted
/// since: what came in by what came in, what went out by what went out. Two readings tell a
/// rate exactly where they are of one interface, neither count fell, and between a tenth of a
/// second and a minute passed.
pub proof fn lemma_rate_is_what_was_counted(
    before: NicReading,
    now: NicReading,
    sequence: u64,
    pending_gap: bool,
    expected_interval: u64,
)
    ensures
        ({
            let sample = sample_for(Some(before), now, sequence, pending_gap, expected_interval);
            let nanos = now.nanos - before.nanos;
            let rx = now.rx_bytes - before.rx_bytes;
            let tx = now.tx_bytes - before.tx_bytes;
            &&& sample is Some <==> before.interface@ == now.interface@ && rx >= 0 && tx >= 0
                && 100_000_000 <= nanos <= 60_000_000_000
            &&& sample matches Some(s) ==> {
                &&& s.sampled_at_unix_millis == now.sampled_at_unix_millis
                &&& s.interface == now.interface@
                &&& s.elapsed_millis * 1_000_000 <= nanos < (s.elapsed_millis + 1) * 1_000_000
                &&& s.rx_bytes_per_sec * s.elapsed_millis <= rx * 1000 < (s.rx_bytes_per_sec + 1)
                    * s.elapsed_millis || s.rx_bytes_per_sec == u64::MAX
                &&& s.tx_bytes_per_sec * s.elapsed_millis <= tx * 1000 < (s.tx_bytes_per_sec + 1)
                    * s.elapsed_millis || s.tx_bytes_per_sec == u64::MAX
                &&& s.has_gap <==> pending_gap || nanos > expected_interval + expected_interval
                &&& s.sequence > 0 && (sequence < u64::MAX ==> s.sequence == sequence + 1)
            }
        }),
{
    if tells(before, now) {
        let millis = (between(before, now) / 1_000_000) as int;
        lemma_rate(now.rx_bytes - before.rx_bytes, millis);
        lemma_rate(now.tx_bytes - before.tx_bytes, millis);
    }
}

proof fn lemma_rate(counted: int, millis: int)
    requires
        counted >= 0,
        millis > 0,
    ensures
        ({
            let rate = counted * 1000 / millis;
            0 <= rate && rate * millis <= counted * 1000 < (rate + 1) * millis
        }),
{
    let c = counted * 1000;
    let rate = c / millis;
    assert(0 <= rate && rate * millis <= c < (rate + 1) * millis) by (nonlinear_arith)
        requires
            c >= 0,
            millis > 0,
            rate == c / millis,
    ;
}

/// Rates go over a secured connection exactly where the other requests do, to the same host.
pub proof fn lemma_rates_go_where_requests_go(host: Seq<char>)
    requires
        http::without_slashes("https://"@ + host) == "https://"@ + host,
        http::without_slashes("http://"@ + host) == "http://"@ + host,
    ensures
        url_of("https://"@ + host) == Ok::<Seq<char>, Seq<char>>(
            "wss://"@ + host + "/agent/v1/realtime"@,
        ),
        url_of("http://"@ + host) == Ok::<Seq<char>, Seq<char>>(
            "ws://"@ + host + "/agent/v1/realtime"@,
        ),
{
    reveal_strlit("https://");
    reveal_strlit("http://");
    let (secured, plain) = ("https://"@ + host, "http://"@ + host);
    assert(secured.subrange(0, 8) =~= "https://"@);
    assert(secured.skip(8) =~= host);
    assert(plain.subrange(0, 7) =~= "http://"@);
    assert(plain.skip(7) =~= host);
    if text::stands_at(plain, "https://"@, 0) {
        assert(plain.subrange(0, 8)[4] == 's');
        assert(plain[4] == ':');
    }
}

/// An interface is read as its name and the two numbers in its files, what came in first.
pub proof fn lemma_interface_is_read_as_it_counts(name: Seq<char>, rx: u64, tx: u64)
    requires
        name.len() > 0,
        !name.contains('/'),
    ensures
        nic_of(
            Some(name),
            Ok(numbers::decimal(rx as int) + "\n"@),
            Ok(numbers::decimal(tx as int) + "\n"@),
        ) == Ok::<(Seq<char>, u64, u64), Seq<char>>((name, rx, tx)),
{
    text::lemma_find_char(name, '/', 0);
    if text::find_char(name, '/', 0) is Some {
        let k = text::find_char(name, '/', 0)->0;
        assert(name.contains(name[k]));
    }
    lemma_counter_reads_back(rx);
    lemma_counter_reads_back(tx);
}

proof fn lemma_counter_reads_back(v: u64)
    ensures
        counter_of(Ok(numbers::decimal(v as int) + "\n"@)) == Ok::<u64, Seq<char>>(v),
{
    let digits = numbers::decimal(v as int);
    let written = digits + "\n"@;
    reveal_strlit("\n");
    numbers::lemma_decimal_digits(v as int);
    numbers::lemma_parse_decimal(v as int, u64::MAX as int);
    assert(written[0] == digits[0]);
    assert(written.drop_last() == digits);
    assert(digits.last() == digits[digits.len() - 1]);
    assert(text::trim_end(written) == text::trim_end(digits));
}

} // verus!
