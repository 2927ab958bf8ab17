//! When things are due.
use vstd::prelude::*;

verus! {

/// Seconds between two rounds of convergence.
pub const APPLY_INTERVAL: u64 = 15;

/// The same in nanoseconds.
pub const APPLY_INTERVAL_NANOS: u64 = 15_000_000_000;

/// Seconds between two readings of usage.
pub const USAGE_INTERVAL: u64 = 30;

/// Seconds between two probes of the paths' packet sizes.
pub const PROBE_INTERVAL: u64 = 1800;

/// Seconds between two reports on the runtime.
pub const RUNTIME_INTERVAL: u64 = 30;

/// Seconds between two requests for what is to be probed.
pub const PROBE_TARGETS_REFRESH_INTERVAL: u64 = 300;

/// Seconds between two requests for which chains are to be probed.
pub const E2E_TARGETS_REFRESH_INTERVAL: u64 = 15;

/// Seconds between two requests for how to probe.
pub const PING_PROBE_SETTINGS_INTERVAL: u64 = 15;

/// Seconds between two looks at a queue of reports that is not in trouble.
pub const SPOOL_IDLE_POLL: u64 = 1;

/// The most seconds between two attempts to empty a queue of reports.
pub const SPOOL_MAX_RETRY: u64 = 60;

/// Seconds before a report is sent again.
pub const LATEST_REPORT_RETRY_MIN: u64 = 1;

/// The most seconds before a report is sent again.
pub const LATEST_REPORT_RETRY_MAX: u64 = 15;

/// The first point after `now` of the grid through `previous`; the point after
/// `previous` where `now` lies before it.
pub open spec fn tick_after(previous: int, interval: int, now: int) -> int {
    if now < previous {
        previous + interval
    } else {
        previous + ((now - previous) / interval + 1) * interval
    }
}

/// The next point of a grid that `previous` lies on. Work that overran its time leads
/// to the first point in the future: what was missed is not made up in a burst.
pub fn next_periodic_tick(previous: u64, interval: u64, now: u64) -> (r: u64)
    requires
        interval > 0,
        previous + interval <= u64::MAX,
        now + interval <= u64::MAX,
    ensures
        r == tick_after(previous as int, interval as int, now as int),
{
    let next: u64 = previous + interval;
    if next > now {
        proof {
            if now >= previous {
                vstd::arithmetic::div_mod::lemma_basic_div((now - previous) as int, interval as int);
                assert((0int + 1) * interval == interval) by (nonlinear_arith);
            }
        }
        return next;
    }
    let elapsed: u64 = now - previous;
    let remainder: u64 = elapsed % interval;
    proof {
        let e = elapsed as int;
        let i = interval as int;
        let q = e / i;
        vstd::arithmetic::div_mod::lemma_fundamental_div_mod(e, i);
        assert(e == i * q + e % i);
        assert((q + 1) * i == i * q + i) by (nonlinear_arith);
    }
    now + (interval - remainder)
}

/// The next point lies in the future, on the same grid, and no point of the grid lies
/// between.
pub proof fn lemma_next_tick_is_the_first_on_the_grid(previous: int, interval: int, now: int)
    requires
        interval > 0,
        previous <= now,
    ensures
        now < tick_after(previous, interval, now) <= now + interval,
        (tick_after(previous, interval, now) - previous) % interval == 0,
{
    let q = (now - previous) / interval;
    vstd::arithmetic::div_mod::lemma_fundamental_div_mod(now - previous, interval);
    vstd::arithmetic::div_mod::lemma_mod_bound(now - previous, interval);
    assert((q + 1) * interval == interval * q + interval) by (nonlinear_arith);
    vstd::arithmetic::div_mod::lemma_mod_multiples_basic(q + 1, interval);
}

/// The time to wait after an attempt that waited `retry`.
pub open spec fn doubled(retry: u64, max: u64) -> u64 {
    if retry * 2 > max {
        max
    } else {
        (retry * 2) as u64
    }
}

/// The time to wait after an attempt that waited `retry`: twice as long, up to a
/// limit.
pub fn next_retry(retry: u64, max: u64) -> (r: u64)
    ensures
        r == doubled(retry, max),
{
    if retry > max / 2 {
        max
    } else {
        retry * 2
    }
}

/// Waiting grows and never passes its limit.
pub proof fn lemma_retry_grows_to_its_limit(retry: u64, max: u64)
    requires
        0 < retry <= max,
    ensures
        retry <= doubled(retry, max) <= max,
        doubled(retry, max) == retry ==> retry == max,
{
}

/// The seconds to wait before a queue of reports is looked at again.
pub fn after_drain(retry: u64, succeeded: bool) -> (r: u64)
    ensures
        r == (if succeeded {
            SPOOL_IDLE_POLL
        } else {
            doubled(retry, SPOOL_MAX_RETRY)
        }),
{
    if succeeded {
        SPOOL_IDLE_POLL
    } else {
        next_retry(retry, SPOOL_MAX_RETRY)
    }
}

/// The wait after an attempt is twice the last, or the limit where that is less.
pub proof fn lemma_wait_doubles(retry: u64, max: u64)
    ensures
        retry + retry <= max ==> doubled(retry, max) == retry + retry,
        retry + retry > max ==> doubled(retry, max) == max,
{
}

/// Where the clock lies before the last point, the next is the one after it.
pub proof fn lemma_clock_behind_waits_one_interval(previous: int, interval: int, now: int)
    requires
        interval > 0,
        now < previous,
    ensures
        tick_after(previous, interval, now) == previous + interval,
{
}

} // verus!
