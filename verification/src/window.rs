//! A report: the changes of a window put together.
use vstd::prelude::*;

use crate::disks::DiskInfo;
use crate::load::{CpuCoreSample, NetworkDetailSample, Share, Sub};
use crate::procfs::MemInfo;
use crate::{load, numbers, processes, procfs};

verus! {

/// A number of a change.
#[derive(Debug, Clone, Copy, PartialEq, Eq, Structural)]
pub enum Field {
    NicRxBps,
    NicTxBps,
    NicRxDrop,
    NicTxDrop,
    NicErr,
    OomKills,
    SwapInBytes,
    SwapOutBytes,
    MajorFaults,
    DirectReclaimPages,
    ContextSwitchesPerSec,
    NetRxSoftirqsPerSec,
    NetTxSoftirqsPerSec,
    CpuThrottledUsec,
    TcpActiveOpens,
    TcpPassiveOpens,
    TcpAttemptFails,
    TcpEstabResets,
    TcpRetransSegs,
    TcpSynRetrans,
    TcpInErrors,
    TcpOutResets,
    TcpTimeouts,
    TcpListenOverflows,
    TcpListenDrops,
    UdpInErrors,
    UdpNoPorts,
    UdpRcvbufErrors,
    UdpSndbufErrors,
    DiskReadBytes,
    DiskWriteBytes,
    DiskReads,
    DiskWrites,
    DiskReadMs,
    DiskWriteMs,
    DiskBusyMs,
    DiskWeightedMs,
}

/// A counter of the network's detail.
pub open spec fn network_value(detail: NetworkDetailSample, field: Field) -> Option<u64> {
    match field {
        Field::TcpActiveOpens => detail.tcp_active_opens,
        Field::TcpPassiveOpens => detail.tcp_passive_opens,
        Field::TcpAttemptFails => detail.tcp_attempt_fails,
        Field::TcpEstabResets => detail.tcp_estab_resets,
        Field::TcpRetransSegs => detail.tcp_retrans_segs,
        Field::TcpSynRetrans => detail.tcp_syn_retrans,
        Field::TcpInErrors => detail.tcp_in_errors,
        Field::TcpOutResets => detail.tcp_out_resets,
        Field::TcpTimeouts => detail.tcp_timeouts,
        Field::TcpListenOverflows => detail.tcp_listen_overflows,
        Field::TcpListenDrops => detail.tcp_listen_drops,
        Field::UdpInErrors => detail.udp_in_errors,
        Field::UdpNoPorts => detail.udp_no_ports,
        Field::UdpRcvbufErrors => detail.udp_rcvbuf_errors,
        Field::UdpSndbufErrors => detail.udp_sndbuf_errors,
        _ => None,
    }
}

/// A counter of a disk's detail.
pub open spec fn disk_value(delta: load::DiskDelta, field: Field) -> Option<u64> {
    match field {
        Field::DiskReadBytes => Some(delta.read_bytes),
        Field::DiskWriteBytes => Some(delta.write_bytes),
        Field::DiskReads => Some(delta.reads),
        Field::DiskWrites => Some(delta.writes),
        Field::DiskReadMs => Some(delta.read_ms),
        Field::DiskWriteMs => Some(delta.write_ms),
        Field::DiskBusyMs => Some(delta.busy_ms),
        Field::DiskWeightedMs => Some(delta.weighted_ms),
        _ => None,
    }
}

/// A number of a change, where it has it.
pub open spec fn value(sub: Sub, field: Field) -> Option<u64> {
    match field {
        Field::NicRxBps => Some(sub.nic_rx_bps),
        Field::NicTxBps => Some(sub.nic_tx_bps),
        Field::NicRxDrop => Some(sub.nic_rx_drop),
        Field::NicTxDrop => Some(sub.nic_tx_drop),
        Field::NicErr => Some(sub.nic_err),
        Field::OomKills => Some(sub.oom_kills),
        Field::SwapInBytes => Some(sub.swap_in_bytes),
        Field::SwapOutBytes => Some(sub.swap_out_bytes),
        Field::MajorFaults => Some(sub.major_faults),
        Field::DirectReclaimPages => Some(sub.direct_reclaim_pages),
        Field::ContextSwitchesPerSec => sub.context_switches_per_sec,
        Field::NetRxSoftirqsPerSec => sub.net_rx_softirqs_per_sec,
        Field::NetTxSoftirqsPerSec => sub.net_tx_softirqs_per_sec,
        Field::CpuThrottledUsec => sub.cpu_throttled_usec,
        _ => match (sub.network_detail, sub.disk) {
            (Some(n), Some(d)) => match network_value(n, field) {
                Some(v) => Some(v),
                None => disk_value(d, field),
            },
            (Some(n), None) => network_value(n, field),
            (None, Some(d)) => disk_value(d, field),
            (None, None) => None,
        },
    }
}

fn get_network_value(detail: &NetworkDetailSample, field: Field) -> (r: Option<u64>)
    ensures
        r == network_value(*detail, field),
{
    match field {
        Field::TcpActiveOpens => detail.tcp_active_opens,
        Field::TcpPassiveOpens => detail.tcp_passive_opens,
        Field::TcpAttemptFails => detail.tcp_attempt_fails,
        Field::TcpEstabResets => detail.tcp_estab_resets,
        Field::TcpRetransSegs => detail.tcp_retrans_segs,
        Field::TcpSynRetrans => detail.tcp_syn_retrans,
        Field::TcpInErrors => detail.tcp_in_errors,
        Field::TcpOutResets => detail.tcp_out_resets,
        Field::TcpTimeouts => detail.tcp_timeouts,
        Field::TcpListenOverflows => detail.tcp_listen_overflows,
        Field::TcpListenDrops => detail.tcp_listen_drops,
        Field::UdpInErrors => detail.udp_in_errors,
        Field::UdpNoPorts => detail.udp_no_ports,
        Field::UdpRcvbufErrors => detail.udp_rcvbuf_errors,
        Field::UdpSndbufErrors => detail.udp_sndbuf_errors,
        _ => None,
    }
}

fn get_disk_value(delta: &load::DiskDelta, field: Field) -> (r: Option<u64>)
    ensures
        r == disk_value(*delta, field),
{
    match field {
        Field::DiskReadBytes => Some(delta.read_bytes),
        Field::DiskWriteBytes => Some(delta.write_bytes),
        Field::DiskReads => Some(delta.reads),
        Field::DiskWrites => Some(delta.writes),
        Field::DiskReadMs => Some(delta.read_ms),
        Field::DiskWriteMs => Some(delta.write_ms),
        Field::DiskBusyMs => Some(delta.busy_ms),
        Field::DiskWeightedMs => Some(delta.weighted_ms),
        _ => None,
    }
}

fn get_value(sub: &Sub, field: Field) -> (r: Option<u64>)
    ensures
        r == value(*sub, field),
{
    match field {
        Field::NicRxBps => Some(sub.nic_rx_bps),
        Field::NicTxBps => Some(sub.nic_tx_bps),
        Field::NicRxDrop => Some(sub.nic_rx_drop),
        Field::NicTxDrop => Some(sub.nic_tx_drop),
        Field::NicErr => Some(sub.nic_err),
        Field::OomKills => Some(sub.oom_kills),
        Field::SwapInBytes => Some(sub.swap_in_bytes),
        Field::SwapOutBytes => Some(sub.swap_out_bytes),
        Field::MajorFaults => Some(sub.major_faults),
        Field::DirectReclaimPages => Some(sub.direct_reclaim_pages),
        Field::ContextSwitchesPerSec => sub.context_switches_per_sec,
        Field::NetRxSoftirqsPerSec => sub.net_rx_softirqs_per_sec,
        Field::NetTxSoftirqsPerSec => sub.net_tx_softirqs_per_sec,
        Field::CpuThrottledUsec => sub.cpu_throttled_usec,
        _ => match (&sub.network_detail, &sub.disk) {
            (Some(n), Some(d)) => match get_network_value(n, field) {
                Some(v) => Some(v),
                None => get_disk_value(d, field),
            },
            (Some(n), None) => get_network_value(n, field),
            (None, Some(d)) => get_disk_value(d, field),
            (None, None) => None,
        },
    }
}

/// Whether every change has the number.
pub open spec fn all_have(subs: Seq<Sub>, field: Field) -> bool {
    forall|i: int| 0 <= i < subs.len() ==> value(#[trigger] subs[i], field) is Some
}

/// The number added up over the first `n` changes; one that lacks it adds nothing.
pub open spec fn total(subs: Seq<Sub>, field: Field, n: int) -> int
    decreases n,
{
    if n <= 0 || n > subs.len() {
        0
    } else {
        total(subs, field, n - 1) + procfs::or_zero(value(subs[n - 1], field))
    }
}

/// The number added up over the first `n` changes, each times its seconds.
pub open spec fn weighted(subs: Seq<Sub>, field: Field, n: int) -> int
    decreases n,
{
    if n <= 0 || n > subs.len() {
        0
    } else {
        weighted(subs, field, n - 1) + procfs::or_zero(value(subs[n - 1], field))
            * subs[n - 1].elapsed_secs
    }
}

/// Seconds over the first `n` changes.
pub open spec fn seconds(subs: Seq<Sub>, n: int) -> int
    decreases n,
{
    if n <= 0 || n > subs.len() {
        0
    } else {
        seconds(subs, n - 1) + subs[n - 1].elapsed_secs
    }
}

/// Seconds over the whole window, at least one.
pub open spec fn window_seconds(subs: Seq<Sub>) -> u64 {
    let secs = numbers::capped(seconds(subs, subs.len() as int));
    if secs == 0 {
        1
    } else {
        secs
    }
}

/// The mean over the window, weighted by seconds and rounded down.
pub open spec fn mean(subs: Seq<Sub>, field: Field) -> u64 {
    let sum = weighted(subs, field, subs.len() as int);
    let held = if sum > u128::MAX {
        u128::MAX as int
    } else {
        sum
    };
    numbers::capped(held / window_seconds(subs) as int)
}

/// The sum over the window.
pub open spec fn sum(subs: Seq<Sub>, field: Field) -> u64 {
    numbers::capped(total(subs, field, subs.len() as int))
}

/// The sum over the window, where every change has the number.
pub open spec fn sum_if_all(subs: Seq<Sub>, field: Field) -> Option<u64> {
    if subs.len() > 0 && all_have(subs, field) {
        Some(sum(subs, field))
    } else {
        None
    }
}

/// The mean over the window, where every change has the number.
pub open spec fn mean_if_all(subs: Seq<Sub>, field: Field) -> Option<u64> {
    if all_have(subs, field) {
        Some(mean(subs, field))
    } else {
        None
    }
}

proof fn lemma_totals_grow(subs: Seq<Sub>, field: Field, n: int, m: int)
    requires
        0 <= n <= m <= subs.len(),
    ensures
        0 <= total(subs, field, n) <= total(subs, field, m),
        0 <= weighted(subs, field, n) <= weighted(subs, field, m),
        0 <= seconds(subs, n) <= seconds(subs, m),
    decreases m,
{
    if m > 0 {
        assert(0 <= procfs::or_zero(value(subs[m - 1], field)) * subs[m - 1].elapsed_secs)
            by (nonlinear_arith);
        if n < m {
            lemma_totals_grow(subs, field, n, m - 1);
        } else {
            lemma_totals_grow(subs, field, n - 1, m - 1);
        }
    }
}

/// Seconds over the whole window, at least one.
pub fn elapsed_total(subs: &Vec<Sub>) -> (r: u64)
    ensures
        r > 0,
        r == window_seconds(subs@),
{
    let mut secs: u64 = 0;
    let mut i: usize = 0;
    while i < subs.len()
        invariant
            i <= subs.len(),
            secs == numbers::capped(seconds(subs@, i as int)),
        decreases subs.len() - i,
    {
        proof {
            lemma_totals_grow(subs@, Field::NicErr, i as int, i + 1);
        }
        secs = secs.saturating_add(subs[i].elapsed_secs);
        i = i + 1;
    }
    if secs == 0 {
        1
    } else {
        secs
    }
}

fn has_all(subs: &Vec<Sub>, field: Field) -> (r: bool)
    ensures
        r == all_have(subs@, field),
{
    let mut i: usize = 0;
    while i < subs.len()
        invariant
            i <= subs.len(),
            forall|j: int| 0 <= j < i ==> value(#[trigger] subs@[j], field) is Some,
        decreases subs.len() - i,
    {
        match get_value(&subs[i], field) {
            Some(_) => {},
            None => {
                assert(value(subs@[i as int], field) is None);
                return false;
            },
        }
        i = i + 1;
    }
    true
}

fn sum_u64(subs: &Vec<Sub>, field: Field) -> (r: u64)
    ensures
        r == sum(subs@, field),
{
    let mut out: u64 = 0;
    let mut i: usize = 0;
    while i < subs.len()
        invariant
            i <= subs.len(),
            out == numbers::capped(total(subs@, field, i as int)),
        decreases subs.len() - i,
    {
        proof {
            lemma_totals_grow(subs@, field, i as int, i + 1);
        }
        match get_value(&subs[i], field) {
            Some(v) => {
                out = out.saturating_add(v);
            },
            None => {},
        }
        i = i + 1;
    }
    out
}

/// The sum of a number over the window; nothing where a change lacks it, since a sum
/// of some would pass for the sum of all.
pub fn sum_u64_option(subs: &Vec<Sub>, field: Field) -> (r: Option<u64>)
    ensures
        r == sum_if_all(subs@, field),
{
    if subs.len() > 0 && has_all(subs, field) {
        Some(sum_u64(subs, field))
    } else {
        None
    }
}

/// The mean of a rate over the window, weighted by the seconds of each change.
pub fn weighted_u64(subs: &Vec<Sub>, field: Field) -> (r: u64)
    ensures
        r == mean(subs@, field),
{
    let mut out: u128 = 0;
    let mut i: usize = 0;
    while i < subs.len()
        invariant
            i <= subs.len(),
            out == (if weighted(subs@, field, i as int) > u128::MAX {
                u128::MAX as int
            } else {
                weighted(subs@, field, i as int)
            }),
        decreases subs.len() - i,
    {
        proof {
            lemma_totals_grow(subs@, field, i as int, i + 1);
        }
        match get_value(&subs[i], field) {
            Some(v) => {
                let secs: u64 = subs[i].elapsed_secs;
                assert(0 <= v * secs <= u64::MAX * u64::MAX) by (nonlinear_arith);
                assert(v as u128 * secs as u128 == v * secs) by (nonlinear_arith);
                out = out.saturating_add(v as u128 * secs as u128);
            },
            None => {
                let ghost secs = subs@[i as int].elapsed_secs;
                assert(0u64 * secs == 0) by (nonlinear_arith);
            },
        }
        i = i + 1;
    }
    let secs: u64 = elapsed_total(subs);
    let q: u128 = out / (secs as u128);
    if q > u64::MAX as u128 {
        u64::MAX
    } else {
        q as u64
    }
}

/// The mean of a rate over the window; nothing where a change lacks it.
pub fn mean_u64_option(subs: &Vec<Sub>, field: Field) -> (r: Option<u64>)
    ensures
        r == mean_if_all(subs@, field),
{
    if has_all(subs, field) {
        Some(weighted_u64(subs, field))
    } else {
        None
    }
}

/// The work done in a change: user, system and interrupt time together.
pub open spec fn busy(sub: Sub) -> Share {
    Share {
        part: numbers::capped(sub.cpu.user + sub.cpu.system + sub.cpu.softirq),
        whole: sub.cpu.total,
    }
}

/// Whether one share is greater than another.
pub open spec fn exceeds(a: Share, b: Share) -> bool {
    a.part * b.whole > b.part * a.whole
}

/// The busiest moment among the first `n` changes. It is one moment, not the sum of
/// the worst of each class, which may never have come together.
pub open spec fn peak(subs: Seq<Sub>, n: int) -> Share
    decreases n,
{
    if n <= 0 || n > subs.len() {
        Share { part: 0, whole: 1 }
    } else if exceeds(busy(subs[n - 1]), peak(subs, n - 1)) {
        busy(subs[n - 1])
    } else {
        peak(subs, n - 1)
    }
}

fn is_greater(a: Share, b: Share) -> (r: bool)
    ensures
        r == exceeds(a, b),
{
    let (ap, aw, bp, bw) = (a.part, a.whole, b.part, b.whole);
    assert(0 <= ap * bw <= u64::MAX * u64::MAX) by (nonlinear_arith);
    assert(0 <= bp * aw <= u64::MAX * u64::MAX) by (nonlinear_arith);
    assert(ap as u128 * bw as u128 == ap * bw) by (nonlinear_arith);
    assert(bp as u128 * aw as u128 == bp * aw) by (nonlinear_arith);
    (a.part as u128) * (b.whole as u128) > (b.part as u128) * (a.whole as u128)
}

/// The busiest moment of a window.
pub fn cpu_peak(subs: &Vec<Sub>) -> (r: Share)
    ensures
        r == peak(subs@, subs@.len() as int),
{
    let mut best = Share { part: 0, whole: 1 };
    let mut i: usize = 0;
    while i < subs.len()
        invariant
            i <= subs.len(),
            best == peak(subs@, i as int),
        decreases subs.len() - i,
    {
        let cpu = subs[i].cpu;
        let moment = Share {
            part: cpu.user.saturating_add(cpu.system).saturating_add(cpu.softirq),
            whole: cpu.total,
        };
        if is_greater(moment, best) {
            best = moment;
        }
        i = i + 1;
    }
    best
}

proof fn lemma_exceeds_chain(a: Share, b: Share, c: Share)
    requires
        b.whole > 0,
        !exceeds(b, a),
        !exceeds(c, b),
    ensures
        !exceeds(c, a),
{
    let (ap, aw, bp, bw, cp, cw) = (
        a.part as int,
        a.whole as int,
        b.part as int,
        b.whole as int,
        c.part as int,
        c.whole as int,
    );
    assert(cp * aw <= ap * cw) by (nonlinear_arith)
        requires
            bw > 0,
            aw >= 0,
            cw >= 0,
            bp * aw <= ap * bw,
            cp * bw <= bp * cw,
    {
        assert((cp * bw) * aw <= (bp * cw) * aw) by (nonlinear_arith)
            requires
                aw >= 0,
                cp * bw <= bp * cw,
        ;
        assert((bp * aw) * cw <= (ap * bw) * cw) by (nonlinear_arith)
            requires
                cw >= 0,
                bp * aw <= ap * bw,
        ;
        assert((cp * aw) * bw <= (ap * cw) * bw) by (nonlinear_arith)
            requires
                (cp * bw) * aw <= (bp * cw) * aw,
                (bp * aw) * cw <= (ap * bw) * cw,
        ;
        assert(cp * aw <= ap * cw) by (nonlinear_arith)
            requires
                bw > 0,
                (cp * aw) * bw <= (ap * cw) * bw,
        ;
    }
}

/// No moment of the window was busier than its peak, and the peak is one of its
/// moments where any work was done at all.
pub proof fn lemma_peak_is_the_worst_moment(subs: Seq<Sub>, n: int, i: int)
    requires
        0 <= i < n <= subs.len(),
        forall|j: int| 0 <= j < subs.len() ==> (#[trigger] subs[j]).cpu.total > 0,
    ensures
        !exceeds(busy(subs[i]), peak(subs, n)),
        peak(subs, n).whole > 0,
        peak(subs, n).part == 0 || exists|j: int| 0 <= j < n && peak(subs, n) == busy(#[trigger]
            subs[j]),
    decreases n,
{
    if i < n - 1 {
        lemma_peak_is_the_worst_moment(subs, n - 1, i);
        let b = peak(subs, n - 1);
        if exceeds(busy(subs[n - 1]), b) {
            lemma_exceeds_chain(busy(subs[n - 1]), b, busy(subs[i]));
            assert(peak(subs, n) == busy(subs[n - 1]));
        } else if peak(subs, n).part != 0 {
            let j = choose|j: int| 0 <= j < n - 1 && b == busy(#[trigger] subs[j]);
            assert(peak(subs, n) == busy(subs[j]));
        }
    } else if n > 1 {
        lemma_peak_is_the_worst_moment(subs, n - 1, 0);
        let b = peak(subs, n - 1);
        if exceeds(busy(subs[n - 1]), b) {
            assert(peak(subs, n) == busy(subs[n - 1]));
        } else if peak(subs, n).part != 0 {
            let j = choose|j: int| 0 <= j < n - 1 && b == busy(#[trigger] subs[j]);
            assert(peak(subs, n) == busy(subs[j]));
        }
    } else {
        assert(peak(subs, 0) == Share { part: 0, whole: 1 });
        if exceeds(busy(subs[0]), peak(subs, 0)) {
            assert(peak(subs, 1) == busy(subs[0]));
        }
    }
}

/// Whether a change says what core `cpu` did.
pub open spec fn shows(cores: Seq<CpuCoreSample>, cpu: u32) -> bool {
    exists|i: int| 0 <= i < cores.len() && (#[trigger] cores[i]).cpu == cpu
}

/// Whether every one of the first `n` changes says what core `cpu` did.
pub open spec fn always_shown(subs: Seq<Sub>, cpu: u32, n: int) -> bool {
    forall|i: int| 0 <= i < n && i < subs.len() ==> shows((#[trigger] subs[i]).cpu_cores@, cpu)
}

/// The cores among the first `n` of `cores` that every change shows.
pub open spec fn steady(subs: Seq<Sub>, cores: Seq<CpuCoreSample>, n: int) -> Seq<u32>
    decreases n,
{
    if n <= 0 || n > cores.len() {
        seq![]
    } else {
        let front = steady(subs, cores, n - 1);
        if always_shown(subs, cores[n - 1].cpu, subs.len() as int) {
            front.push(cores[n - 1].cpu)
        } else {
            front
        }
    }
}

/// The cores that every change of a window shows.
pub open spec fn steady_of(subs: Seq<Sub>) -> Seq<u32> {
    if subs.len() == 0 {
        seq![]
    } else {
        steady(subs, subs[0].cpu_cores@, subs[0].cpu_cores@.len() as int)
    }
}

fn is_shown(cores: &Vec<CpuCoreSample>, cpu: u32) -> (r: bool)
    ensures
        r == shows(cores@, cpu),
{
    let mut i: usize = 0;
    while i < cores.len()
        invariant
            i <= cores.len(),
            forall|j: int| 0 <= j < i ==> (#[trigger] cores@[j]).cpu != cpu,
        decreases cores.len() - i,
    {
        if cores[i].cpu == cpu {
            return true;
        }
        i = i + 1;
    }
    false
}

/// The cores that every change of a window shows, in ascending order. A mean over
/// some of the changes would not be one over the window.
pub fn steady_cores(subs: &Vec<Sub>) -> (r: Vec<u32>)
    ensures
        r@ == steady_of(subs@),
{
    let mut out: Vec<u32> = Vec::new();
    if subs.len() == 0 {
        return out;
    }
    let mut i: usize = 0;
    while i < subs[0].cpu_cores.len()
        invariant
            subs@.len() > 0,
            i <= subs@[0].cpu_cores@.len(),
            out@ == steady(subs@, subs@[0].cpu_cores@, i as int),
        decreases subs@[0].cpu_cores@.len() - i,
    {
        let cpu: u32 = subs[0].cpu_cores[i].cpu;
        let mut everywhere = true;
        let mut k: usize = 0;
        while k < subs.len()
            invariant
                k <= subs.len(),
                everywhere == always_shown(subs@, cpu, k as int),
            decreases subs.len() - k,
        {
            let here = is_shown(&subs[k].cpu_cores, cpu);
            proof {
                if everywhere && here {
                    assert forall|j: int| 0 <= j < k + 1 && j < subs@.len() implies shows(
                        (#[trigger] subs@[j]).cpu_cores@,
                        cpu,
                    ) by {}
                } else if always_shown(subs@, cpu, k + 1) {
                    assert(shows(subs@[k as int].cpu_cores@, cpu));
                    assert(always_shown(subs@, cpu, k as int));
                }
            }
            everywhere = everywhere && here;
            k = k + 1;
        }
        if everywhere {
            out.push(cpu);
        }
        i = i + 1;
    }
    out
}

/// Memory over a window: levels at its end, and events during it.
#[derive(Debug, Clone, Copy, PartialEq, Eq, Structural)]
pub struct MemoryDetailSample {
    pub available_min_bytes: u64,
    pub free_bytes: u64,
    pub anon_bytes: u64,
    pub file_cache_bytes: u64,
    pub shmem_bytes: u64,
    pub kernel_other_bytes: u64,
    pub buffers_bytes: u64,
    pub kernel_reclaimable_bytes: u64,
    pub slab_unreclaimable_bytes: u64,
    pub unevictable_bytes: u64,
    pub mlocked_bytes: u64,
    pub dirty_bytes: u64,
    pub writeback_bytes: u64,
    pub swap_total_bytes: u64,
    pub swap_cached_bytes: u64,
    pub zswap_bytes: Option<u64>,
    pub zswapped_bytes: Option<u64>,
    pub gup_pinned_bytes: Option<u64>,
    pub swap_in_bytes: u64,
    pub swap_out_bytes: u64,
    pub major_faults: u64,
    pub direct_reclaim_pages: u64,
}

/// A disk over a window. Shares are exact: operations by seconds, waiting by
/// operations, busy and queued time by the window's.
#[derive(Debug, Clone, Copy, PartialEq, Eq, Structural)]
pub struct DiskDetailSample {
    pub total_bytes: Option<u64>,
    pub inode_total: Option<u64>,
    pub inode_free: Option<u64>,
    pub read_bps: Option<u64>,
    pub write_bps: Option<u64>,
    pub read_iops: Option<Share>,
    pub write_iops: Option<Share>,
    pub read_await_ms: Option<Share>,
    pub write_await_ms: Option<Share>,
    pub busy: Option<Share>,
    pub queue_depth: Option<Share>,
    pub in_flight: Option<u64>,
}

/// A report, but for what is a mean of shares.
#[derive(Debug, PartialEq, Eq)]
pub struct LoadSample {
    pub window_start_unix_secs: i64,
    pub window_end_unix_secs: i64,
    pub has_gap: bool,
    pub cpu_peak: Share,
    pub cores: Vec<u32>,
    pub context_switches_per_sec: Option<u64>,
    pub net_rx_softirqs_per_sec: Option<u64>,
    pub net_tx_softirqs_per_sec: Option<u64>,
    pub throttled_usec: Option<u64>,
    pub mem_available_bytes: u64,
    pub swap_used_bytes: u64,
    pub memory_detail: MemoryDetailSample,
    pub oom_kills: u64,
    pub disk_free_bytes: u64,
    pub disk_detail: DiskDetailSample,
    pub nic_rx_bps: u64,
    pub nic_tx_bps: u64,
    pub nic_rx_drop: u64,
    pub nic_tx_drop: u64,
    pub nic_err: u64,
    pub network_detail: Option<NetworkDetailSample>,
}

/// The memory at the end of a window.
pub open spec fn last_memory(subs: Seq<Sub>) -> MemInfo {
    if subs.len() == 0 {
        MemInfo::zero()
    } else {
        subs.last().memory
    }
}

/// The least memory that was available at the end of any of the first `n` changes.
pub open spec fn least_available(subs: Seq<Sub>, n: int) -> u64
    decreases n,
{
    if n <= 0 || n > subs.len() {
        0
    } else if n == 1 {
        subs[0].memory.available
    } else {
        load::lesser(least_available(subs, n - 1), subs[n - 1].memory.available)
    }
}

/// What the kernel holds beside what is accounted for by name.
pub open spec fn kernel_other(mem: MemInfo) -> u64 {
    procfs::less(
        mem.total,
        numbers::capped(mem.free + mem.anon + mem.file_cache + mem.shmem),
    )
}

/// Memory over a window.
pub open spec fn memory_detail(subs: Seq<Sub>) -> MemoryDetailSample {
    let mem = last_memory(subs);
    MemoryDetailSample {
        available_min_bytes: least_available(subs, subs.len() as int),
        free_bytes: mem.free,
        anon_bytes: mem.anon,
        file_cache_bytes: mem.file_cache,
        shmem_bytes: mem.shmem,
        kernel_other_bytes: kernel_other(mem),
        buffers_bytes: mem.buffers,
        kernel_reclaimable_bytes: mem.kernel_reclaimable,
        slab_unreclaimable_bytes: mem.slab_unreclaimable,
        unevictable_bytes: mem.unevictable,
        mlocked_bytes: mem.mlocked,
        dirty_bytes: mem.dirty,
        writeback_bytes: mem.writeback,
        swap_total_bytes: mem.swap_total,
        swap_cached_bytes: mem.swap_cached,
        zswap_bytes: mem.zswap,
        zswapped_bytes: mem.zswapped,
        gup_pinned_bytes: if subs.len() == 0 {
            None
        } else {
            subs.last().gup_pinned_bytes
        },
        swap_in_bytes: sum(subs, Field::SwapInBytes),
        swap_out_bytes: sum(subs, Field::SwapOutBytes),
        major_faults: sum(subs, Field::MajorFaults),
        direct_reclaim_pages: sum(subs, Field::DirectReclaimPages),
    }
}

fn detail_memory(subs: &Vec<Sub>) -> (r: MemoryDetailSample)
    ensures
        r == memory_detail(subs@),
{
    let n: usize = subs.len();
    let mem = if n == 0 {
        MemInfo::default()
    } else {
        subs[n - 1].memory
    };
    let mut least: u64 = 0;
    let mut i: usize = 0;
    while i < n
        invariant
            i <= n,
            n == subs@.len(),
            least == least_available(subs@, i as int),
        decreases n - i,
    {
        let available: u64 = subs[i].memory.available;
        if i == 0 || available < least {
            least = available;
        }
        i = i + 1;
    }
    let named: u64 = mem.free.saturating_add(mem.anon).saturating_add(
        mem.file_cache,
    ).saturating_add(mem.shmem);
    MemoryDetailSample {
        available_min_bytes: least,
        free_bytes: mem.free,
        anon_bytes: mem.anon,
        file_cache_bytes: mem.file_cache,
        shmem_bytes: mem.shmem,
        kernel_other_bytes: mem.total.saturating_sub(named),
        buffers_bytes: mem.buffers,
        kernel_reclaimable_bytes: mem.kernel_reclaimable,
        slab_unreclaimable_bytes: mem.slab_unreclaimable,
        unevictable_bytes: mem.unevictable,
        mlocked_bytes: mem.mlocked,
        dirty_bytes: mem.dirty,
        writeback_bytes: mem.writeback,
        swap_total_bytes: mem.swap_total,
        swap_cached_bytes: mem.swap_cached,
        zswap_bytes: mem.zswap,
        zswapped_bytes: mem.zswapped,
        gup_pinned_bytes: if n == 0 {
            None
        } else {
            subs[n - 1].gup_pinned_bytes
        },
        swap_in_bytes: sum_u64(subs, Field::SwapInBytes),
        swap_out_bytes: sum_u64(subs, Field::SwapOutBytes),
        major_faults: sum_u64(subs, Field::MajorFaults),
        direct_reclaim_pages: sum_u64(subs, Field::DirectReclaimPages),
    }
}

/// Whether every change has a disk's detail.
pub open spec fn disk_throughout(subs: Seq<Sub>) -> bool {
    forall|i: int| 0 <= i < subs.len() ==> (#[trigger] subs[i]).disk is Some
}

/// Operations in flight at the end of the last of the first `n` changes that tells.
pub open spec fn in_flight(subs: Seq<Sub>, n: int) -> Option<u64>
    decreases n,
{
    if n <= 0 || n > subs.len() {
        None
    } else {
        match subs[n - 1].disk {
            Some(d) => Some(d.in_flight),
            None => in_flight(subs, n - 1),
        }
    }
}

/// A disk over a window. What needs the device is told only where every change has
/// it; capacity is told in any case.
pub open spec fn disk_detail(subs: Seq<Sub>, disk: DiskInfo) -> DiskDetailSample {
    let secs = window_seconds(subs);
    let reads = sum(subs, Field::DiskReads);
    let writes = sum(subs, Field::DiskWrites);
    let millis = numbers::capped(secs * 1_000);
    let whole = disk_throughout(subs);
    DiskDetailSample {
        total_bytes: if disk.total_bytes > 0 {
            Some(disk.total_bytes)
        } else {
            None
        },
        inode_total: disk.inode_total,
        inode_free: disk.inode_free,
        read_bps: if whole {
            Some((sum(subs, Field::DiskReadBytes) / secs) as u64)
        } else {
            None
        },
        write_bps: if whole {
            Some((sum(subs, Field::DiskWriteBytes) / secs) as u64)
        } else {
            None
        },
        read_iops: if whole {
            Some(Share { part: reads, whole: secs })
        } else {
            None
        },
        write_iops: if whole {
            Some(Share { part: writes, whole: secs })
        } else {
            None
        },
        read_await_ms: if whole && reads > 0 {
            Some(Share { part: sum(subs, Field::DiskReadMs), whole: reads })
        } else {
            None
        },
        write_await_ms: if whole && writes > 0 {
            Some(Share { part: sum(subs, Field::DiskWriteMs), whole: writes })
        } else {
            None
        },
        busy: if whole {
            Some(Share { part: load::lesser(sum(subs, Field::DiskBusyMs), millis), whole: millis })
        } else {
            None
        },
        queue_depth: if whole {
            Some(Share { part: sum(subs, Field::DiskWeightedMs), whole: millis })
        } else {
            None
        },
        in_flight: in_flight(subs, subs.len() as int),
    }
}

fn detail_disk(subs: &Vec<Sub>, disk: DiskInfo) -> (r: DiskDetailSample)
    ensures
        r == disk_detail(subs@, disk),
{
    let n: usize = subs.len();
    let mut whole = true;
    let mut flying: Option<u64> = None;
    let mut i: usize = 0;
    while i < n
        invariant
            i <= n,
            n == subs@.len(),
            whole == (forall|j: int| 0 <= j < i ==> (#[trigger] subs@[j]).disk is Some),
            flying == in_flight(subs@, i as int),
        decreases n - i,
    {
        match &subs[i].disk {
            Some(d) => {
                flying = Some(d.in_flight);
            },
            None => {
                assert(subs@[i as int].disk is None);
                whole = false;
            },
        }
        i = i + 1;
    }
    let secs: u64 = elapsed_total(subs);
    let reads: u64 = sum_u64(subs, Field::DiskReads);
    let writes: u64 = sum_u64(subs, Field::DiskWrites);
    let millis: u64 = numbers::mul_capped(secs, 1_000);
    let busy_ms: u64 = sum_u64(subs, Field::DiskBusyMs);
    let total_bytes = if disk.total_bytes > 0 {
        Some(disk.total_bytes)
    } else {
        None
    };
    if !whole {
        return DiskDetailSample {
            total_bytes,
            inode_total: disk.inode_total,
            inode_free: disk.inode_free,
            read_bps: None,
            write_bps: None,
            read_iops: None,
            write_iops: None,
            read_await_ms: None,
            write_await_ms: None,
            busy: None,
            queue_depth: None,
            in_flight: flying,
        };
    }
    DiskDetailSample {
        total_bytes,
        inode_total: disk.inode_total,
        inode_free: disk.inode_free,
        read_bps: Some(sum_u64(subs, Field::DiskReadBytes) / secs),
        write_bps: Some(sum_u64(subs, Field::DiskWriteBytes) / secs),
        read_iops: Some(Share { part: reads, whole: secs }),
        write_iops: Some(Share { part: writes, whole: secs }),
        read_await_ms: if reads > 0 {
            Some(Share { part: sum_u64(subs, Field::DiskReadMs), whole: reads })
        } else {
            None
        },
        write_await_ms: if writes > 0 {
            Some(Share { part: sum_u64(subs, Field::DiskWriteMs), whole: writes })
        } else {
            None
        },
        busy: Some(
            Share {
                part: if busy_ms < millis {
                    busy_ms
                } else {
                    millis
                },
                whole: millis,
            },
        ),
        queue_depth: Some(Share { part: sum_u64(subs, Field::DiskWeightedMs), whole: millis }),
        in_flight: flying,
    }
}

/// The network over a window: the last inventory, and the events of all changes.
pub open spec fn network_detail(subs: Seq<Sub>) -> Option<NetworkDetailSample> {
    if subs.len() == 0 {
        None
    } else {
        match subs.last().network_detail {
            None => None,
            Some(last) => Some(
                NetworkDetailSample {
                    tcp_active_opens: sum_if_all(subs, Field::TcpActiveOpens),
                    tcp_passive_opens: sum_if_all(subs, Field::TcpPassiveOpens),
                    tcp_attempt_fails: sum_if_all(subs, Field::TcpAttemptFails),
                    tcp_estab_resets: sum_if_all(subs, Field::TcpEstabResets),
                    tcp_retrans_segs: sum_if_all(subs, Field::TcpRetransSegs),
                    tcp_syn_retrans: sum_if_all(subs, Field::TcpSynRetrans),
                    tcp_in_errors: sum_if_all(subs, Field::TcpInErrors),
                    tcp_out_resets: sum_if_all(subs, Field::TcpOutResets),
                    tcp_timeouts: sum_if_all(subs, Field::TcpTimeouts),
                    tcp_listen_overflows: sum_if_all(subs, Field::TcpListenOverflows),
                    tcp_listen_drops: sum_if_all(subs, Field::TcpListenDrops),
                    udp_in_errors: sum_if_all(subs, Field::UdpInErrors),
                    udp_no_ports: sum_if_all(subs, Field::UdpNoPorts),
                    udp_rcvbuf_errors: sum_if_all(subs, Field::UdpRcvbufErrors),
                    udp_sndbuf_errors: sum_if_all(subs, Field::UdpSndbufErrors),
                    ..last
                },
            ),
        }
    }
}

fn detail_network(subs: &Vec<Sub>) -> (r: Option<NetworkDetailSample>)
    ensures
        r == network_detail(subs@),
{
    let n: usize = subs.len();
    if n == 0 {
        return None;
    }
    match subs[n - 1].network_detail {
        None => None,
        Some(last) => Some(
            NetworkDetailSample {
                tcp_active_opens: sum_u64_option(subs, Field::TcpActiveOpens),
                tcp_passive_opens: sum_u64_option(subs, Field::TcpPassiveOpens),
                tcp_attempt_fails: sum_u64_option(subs, Field::TcpAttemptFails),
                tcp_estab_resets: sum_u64_option(subs, Field::TcpEstabResets),
                tcp_retrans_segs: sum_u64_option(subs, Field::TcpRetransSegs),
                tcp_syn_retrans: sum_u64_option(subs, Field::TcpSynRetrans),
                tcp_in_errors: sum_u64_option(subs, Field::TcpInErrors),
                tcp_out_resets: sum_u64_option(subs, Field::TcpOutResets),
                tcp_timeouts: sum_u64_option(subs, Field::TcpTimeouts),
                tcp_listen_overflows: sum_u64_option(subs, Field::TcpListenOverflows),
                tcp_listen_drops: sum_u64_option(subs, Field::TcpListenDrops),
                udp_in_errors: sum_u64_option(subs, Field::UdpInErrors),
                udp_no_ports: sum_u64_option(subs, Field::UdpNoPorts),
                udp_rcvbuf_errors: sum_u64_option(subs, Field::UdpRcvbufErrors),
                udp_sndbuf_errors: sum_u64_option(subs, Field::UdpSndbufErrors),
                ..last
            },
        ),
    }
}

/// Whether some change among the first `n` is flagged.
pub open spec fn flagged(subs: Seq<Sub>, n: int) -> bool {
    exists|i: int| 0 <= i < n && i < subs.len() && (#[trigger] subs[i]).gap
}

/// Puts the changes of a window together. Levels are those at its end, events are
/// added up, rates are means over the seconds that really passed.
pub fn aggregate(subs: &Vec<Sub>, disk: DiskInfo) -> (r: LoadSample)
    ensures
        r.window_start_unix_secs == (if subs@.len() == 0 {
            0i64
        } else {
            processes::clamped(subs@[0].window_start_unix_secs as int)
        }),
        r.window_end_unix_secs == (if subs@.len() == 0 {
            0i64
        } else {
            processes::clamped(subs@.last().window_end_unix_secs as int)
        }),
        r.has_gap == flagged(subs@, subs@.len() as int),
        r.cpu_peak == peak(subs@, subs@.len() as int),
        r.cores@ == steady_of(subs@),
        r.context_switches_per_sec == mean_if_all(subs@, Field::ContextSwitchesPerSec),
        r.net_rx_softirqs_per_sec == mean_if_all(subs@, Field::NetRxSoftirqsPerSec),
        r.net_tx_softirqs_per_sec == mean_if_all(subs@, Field::NetTxSoftirqsPerSec),
        r.throttled_usec == sum_if_all(subs@, Field::CpuThrottledUsec),
        r.mem_available_bytes == last_memory(subs@).available,
        r.swap_used_bytes == last_memory(subs@).swap_used,
        r.memory_detail == memory_detail(subs@),
        r.oom_kills == sum(subs@, Field::OomKills),
        r.disk_free_bytes == disk.free_bytes,
        r.disk_detail == disk_detail(subs@, disk),
        r.nic_rx_bps == mean(subs@, Field::NicRxBps),
        r.nic_tx_bps == mean(subs@, Field::NicTxBps),
        r.nic_rx_drop == sum(subs@, Field::NicRxDrop),
        r.nic_tx_drop == sum(subs@, Field::NicTxDrop),
        r.nic_err == sum(subs@, Field::NicErr),
        r.network_detail == network_detail(subs@),
        subs@.len() == 1 ==> tells_alone(subs@[0], disk, r),
{
    proof {
        if subs@.len() == 1 {
            lemma_peak_of_one(subs@);
            lemma_report_of_one(subs@, disk);
        }
    }
    let n: usize = subs.len();
    let mut has_gap = false;
    let mut i: usize = 0;
    while i < n
        invariant
            i <= n,
            n == subs@.len(),
            has_gap == flagged(subs@, i as int),
        decreases n - i,
    {
        proof {
            if flagged(subs@, i + 1) {
                let k = choose|k: int|
                    0 <= k < i + 1 && k < subs@.len() && (#[trigger] subs@[k]).gap;
                if k < i {
                    assert(subs@[k].gap);
                }
            }
            if flagged(subs@, i as int) {
                let k = choose|k: int| 0 <= k < i && k < subs@.len() && (#[trigger] subs@[k]).gap;
                assert(subs@[k].gap);
            }
        }
        if subs[i].gap {
            has_gap = true;
        }
        i = i + 1;
    }
    let (start, end, mem) = if n == 0 {
        (0, 0, MemInfo::default())
    } else {
        (
            unix_secs(subs[0].window_start_unix_secs),
            unix_secs(subs[n - 1].window_end_unix_secs),
            subs[n - 1].memory,
        )
    };
    LoadSample {
        window_start_unix_secs: start,
        window_end_unix_secs: end,
        has_gap,
        cpu_peak: cpu_peak(subs),
        cores: steady_cores(subs),
        context_switches_per_sec: mean_u64_option(subs, Field::ContextSwitchesPerSec),
        net_rx_softirqs_per_sec: mean_u64_option(subs, Field::NetRxSoftirqsPerSec),
        net_tx_softirqs_per_sec: mean_u64_option(subs, Field::NetTxSoftirqsPerSec),
        throttled_usec: sum_u64_option(subs, Field::CpuThrottledUsec),
        mem_available_bytes: mem.available,
        swap_used_bytes: mem.swap_used,
        memory_detail: detail_memory(subs),
        oom_kills: sum_u64(subs, Field::OomKills),
        disk_free_bytes: disk.free_bytes,
        disk_detail: detail_disk(subs, disk),
        nic_rx_bps: weighted_u64(subs, Field::NicRxBps),
        nic_tx_bps: weighted_u64(subs, Field::NicTxBps),
        nic_rx_drop: sum_u64(subs, Field::NicRxDrop),
        nic_tx_drop: sum_u64(subs, Field::NicTxDrop),
        nic_err: sum_u64(subs, Field::NicErr),
        network_detail: detail_network(subs),
    }
}

fn unix_secs(secs: u64) -> (r: i64)
    ensures
        r == processes::clamped(secs as int),
{
    if secs > i64::MAX as u64 {
        i64::MAX
    } else {
        secs as i64
    }
}

/// The share of the processors that a process had in a change; none where the change
/// does not list it.
pub open spec fn share_of(list: Seq<(String, Share)>, name: Seq<char>, from: int) -> Share
    decreases list.len() - from,
{
    if from < 0 || from >= list.len() {
        Share { part: 0, whole: 1 }
    } else if list[from].0@ == name {
        list[from].1
    } else {
        share_of(list, name, from + 1)
    }
}

/// The share that a process had in each change of a window, with its seconds.
pub fn process_window(subs: &Vec<Sub>, name: &str) -> (r: Vec<(Share, u64)>)
    ensures
        r@ == Seq::new(
            subs@.len(),
            |i: int| (share_of(subs@[i].proc_cpu@, name@, 0), subs@[i].elapsed_secs),
        ),
{
    let mut out: Vec<(Share, u64)> = Vec::new();
    let mut i: usize = 0;
    while i < subs.len()
        invariant
            i <= subs.len(),
            out@.len() == i,
            forall|j: int|
                0 <= j < i ==> (#[trigger] out@[j]) == (
                    share_of(subs@[j].proc_cpu@, name@, 0),
                    subs@[j].elapsed_secs,
                ),
        decreases subs.len() - i,
    {
        let list = &subs[i].proc_cpu;
        let mut found = Share { part: 0, whole: 1 };
        let mut k: usize = 0;
        while k < list.len() && !crate::text::same_str(list[k].0.as_str(), name)
            invariant
                k <= list.len(),
                share_of(list@, name@, 0) == share_of(list@, name@, k as int),
            decreases list.len() - k,
        {
            k = k + 1;
        }
        if k < list.len() {
            found = list[k].1;
        }
        out.push((found, subs[i].elapsed_secs));
        i = i + 1;
    }
    out
}

/// Events lost to one change are not made up from the others: a sum over the window
/// is told only where every change has the number.
pub proof fn lemma_partial_sums_are_not_told(subs: Seq<Sub>, field: Field, i: int)
    requires
        0 <= i < subs.len(),
        value(subs[i], field) is None,
    ensures
        sum_if_all(subs, field) is None,
        mean_if_all(subs, field) is None,
{
    assert(!all_have(subs, field));
}

/// Whether a report says of a single change what that change says: its events, its levels,
/// its rates, and what its disk and its network did.
pub open spec fn tells_alone(sub: Sub, disk: DiskInfo, r: LoadSample) -> bool {
    &&& r.has_gap == sub.gap
    &&& 0 < sub.cpu.user + sub.cpu.system + sub.cpu.softirq <= u64::MAX ==> r.cpu_peak == (Share {
        part: (sub.cpu.user + sub.cpu.system + sub.cpu.softirq) as u64,
        whole: sub.cpu.total,
    })
    &&& r.nic_rx_drop == sub.nic_rx_drop
    &&& r.nic_tx_drop == sub.nic_tx_drop
    &&& r.nic_err == sub.nic_err
    &&& r.oom_kills == sub.oom_kills
    &&& r.throttled_usec == sub.cpu_throttled_usec
    &&& r.mem_available_bytes == sub.memory.available
    &&& r.swap_used_bytes == sub.memory.swap_used
    &&& r.disk_free_bytes == disk.free_bytes
    &&& sub.elapsed_secs > 0 ==> {
        &&& r.nic_rx_bps == sub.nic_rx_bps
        &&& r.nic_tx_bps == sub.nic_tx_bps
        &&& r.context_switches_per_sec == sub.context_switches_per_sec
        &&& r.net_rx_softirqs_per_sec == sub.net_rx_softirqs_per_sec
        &&& r.net_tx_softirqs_per_sec == sub.net_tx_softirqs_per_sec
    }
    &&& memory_alone(sub, r.memory_detail)
    &&& disk_alone(sub, disk, r.disk_detail)
    &&& r.network_detail == sub.network_detail
}

/// What is told of memory over a single change.
pub open spec fn memory_alone(sub: Sub, d: MemoryDetailSample) -> bool {
    let mem = sub.memory;
    &&& d.available_min_bytes == mem.available
    &&& d.free_bytes == mem.free
    &&& d.anon_bytes == mem.anon
    &&& d.file_cache_bytes == mem.file_cache
    &&& d.shmem_bytes == mem.shmem
    &&& d.buffers_bytes == mem.buffers
    &&& d.kernel_reclaimable_bytes == mem.kernel_reclaimable
    &&& d.slab_unreclaimable_bytes == mem.slab_unreclaimable
    &&& d.unevictable_bytes == mem.unevictable
    &&& d.mlocked_bytes == mem.mlocked
    &&& d.dirty_bytes == mem.dirty
    &&& d.writeback_bytes == mem.writeback
    &&& d.swap_total_bytes == mem.swap_total
    &&& d.swap_cached_bytes == mem.swap_cached
    &&& d.zswap_bytes == mem.zswap
    &&& d.zswapped_bytes == mem.zswapped
    &&& d.gup_pinned_bytes == sub.gup_pinned_bytes
    &&& d.swap_in_bytes == sub.swap_in_bytes
    &&& d.swap_out_bytes == sub.swap_out_bytes
    &&& d.major_faults == sub.major_faults
    &&& d.direct_reclaim_pages == sub.direct_reclaim_pages
    &&& mem.free + mem.anon + mem.file_cache + mem.shmem <= mem.total ==> mem.free + mem.anon
        + mem.file_cache + mem.shmem + d.kernel_other_bytes == mem.total
}

/// What is told of a disk over a single change: bytes and operations over its seconds, the
/// time of an operation over the operations, and the time that it was busy over all of it.
pub open spec fn disk_alone(sub: Sub, disk: DiskInfo, d: DiskDetailSample) -> bool {
    let secs = sub.elapsed_secs;
    &&& d.inode_total == disk.inode_total && d.inode_free == disk.inode_free
    &&& d.total_bytes is Some <==> disk.total_bytes > 0
    &&& d.total_bytes is Some ==> d.total_bytes == Some(disk.total_bytes)
    &&& match sub.disk {
        None => d.read_bps is None && d.write_bps is None && d.read_iops is None
            && d.write_iops is None && d.read_await_ms is None && d.write_await_ms is None
            && d.busy is None && d.queue_depth is None && d.in_flight is None,
        Some(delta) => {
            &&& d.in_flight == Some(delta.in_flight)
            &&& d.read_await_ms is Some <==> delta.reads > 0
            &&& d.write_await_ms is Some <==> delta.writes > 0
            &&& d.read_await_ms matches Some(s) ==> s.part == delta.read_ms && s.whole
                == delta.reads
            &&& d.write_await_ms matches Some(s) ==> s.part == delta.write_ms && s.whole
                == delta.writes
            &&& secs > 0 ==> {
                &&& d.read_iops == Some(Share { part: delta.reads, whole: secs })
                &&& d.write_iops == Some(Share { part: delta.writes, whole: secs })
                &&& d.read_bps == Some((delta.read_bytes / secs) as u64)
                &&& d.write_bps == Some((delta.write_bytes / secs) as u64)
                &&& secs <= 1_000_000_000 ==> {
                    &&& d.busy == Some(
                        Share {
                            part: if delta.busy_ms <= secs * 1000 {
                                delta.busy_ms
                            } else {
                                (secs * 1000) as u64
                            },
                            whole: (secs * 1000) as u64,
                        },
                    )
                    &&& d.queue_depth == Some(
                        Share { part: delta.weighted_ms, whole: (secs * 1000) as u64 },
                    )
                }
            }
        },
    }
}

proof fn lemma_single(subs: Seq<Sub>, field: Field)
    requires
        subs.len() == 1,
    ensures
        sum(subs, field) == procfs::or_zero(value(subs[0], field)),
        sum_if_all(subs, field) == value(subs[0], field),
        window_seconds(subs) == (if subs[0].elapsed_secs == 0 {
            1
        } else {
            subs[0].elapsed_secs
        }),
        subs[0].elapsed_secs > 0 ==> mean(subs, field) == procfs::or_zero(value(subs[0], field)),
        subs[0].elapsed_secs > 0 ==> mean_if_all(subs, field) == value(subs[0], field),
{
    reveal_with_fuel(total, 2);
    reveal_with_fuel(weighted, 2);
    reveal_with_fuel(seconds, 2);
    let v = procfs::or_zero(value(subs[0], field)) as int;
    let secs = subs[0].elapsed_secs as int;
    assert(value(subs[0], field) is Some == all_have(subs, field));
    if secs > 0 {
        assert(v * secs <= u128::MAX && (v * secs) / secs == v) by (nonlinear_arith)
            requires
                0 <= v <= u64::MAX,
                0 < secs <= u64::MAX,
        ;
    }
}

proof fn lemma_report_of_one(subs: Seq<Sub>, disk: DiskInfo)
    requires
        subs.len() == 1,
    ensures
        memory_alone(subs[0], memory_detail(subs)),
        disk_alone(subs[0], disk, disk_detail(subs, disk)),
        network_detail(subs) == subs[0].network_detail,
        flagged(subs, 1) == subs[0].gap,
        sum(subs, Field::NicRxDrop) == subs[0].nic_rx_drop,
        sum(subs, Field::NicTxDrop) == subs[0].nic_tx_drop,
        sum(subs, Field::NicErr) == subs[0].nic_err,
        sum(subs, Field::OomKills) == subs[0].oom_kills,
        sum_if_all(subs, Field::CpuThrottledUsec) == subs[0].cpu_throttled_usec,
        subs[0].elapsed_secs > 0 ==> {
            &&& mean(subs, Field::NicRxBps) == subs[0].nic_rx_bps
            &&& mean(subs, Field::NicTxBps) == subs[0].nic_tx_bps
            &&& mean_if_all(subs, Field::ContextSwitchesPerSec)
                == subs[0].context_switches_per_sec
            &&& mean_if_all(subs, Field::NetRxSoftirqsPerSec) == subs[0].net_rx_softirqs_per_sec
            &&& mean_if_all(subs, Field::NetTxSoftirqsPerSec) == subs[0].net_tx_softirqs_per_sec
        },
{
    let sub = subs[0];
    assert(subs.last() == sub);
    lemma_single(subs, Field::NicRxBps);
    lemma_single(subs, Field::NicTxBps);
    lemma_single(subs, Field::NicRxDrop);
    lemma_single(subs, Field::NicTxDrop);
    lemma_single(subs, Field::NicErr);
    lemma_single(subs, Field::OomKills);
    lemma_single(subs, Field::SwapInBytes);
    lemma_single(subs, Field::SwapOutBytes);
    lemma_single(subs, Field::MajorFaults);
    lemma_single(subs, Field::DirectReclaimPages);
    lemma_single(subs, Field::ContextSwitchesPerSec);
    lemma_single(subs, Field::NetRxSoftirqsPerSec);
    lemma_single(subs, Field::NetTxSoftirqsPerSec);
    lemma_single(subs, Field::CpuThrottledUsec);
    lemma_network_of_one(subs);
    assert(flagged(subs, 1) == sub.gap) by {
        if sub.gap {
            assert(subs[0].gap);
        }
    }
    reveal_with_fuel(in_flight, 2);
    assert(disk_throughout(subs) == (sub.disk is Some));
    if sub.disk is Some {
        lemma_single(subs, Field::DiskReadBytes);
        lemma_single(subs, Field::DiskWriteBytes);
        lemma_single(subs, Field::DiskReads);
        lemma_single(subs, Field::DiskWrites);
        lemma_single(subs, Field::DiskReadMs);
        lemma_single(subs, Field::DiskWriteMs);
        lemma_single(subs, Field::DiskBusyMs);
        lemma_single(subs, Field::DiskWeightedMs);
    }
}

proof fn lemma_peak_of_one(subs: Seq<Sub>)
    requires
        subs.len() == 1,
    ensures
        busy(subs[0]).part > 0 ==> peak(subs, 1) == busy(subs[0]),
{
    reveal_with_fuel(peak, 2);
    let (part, whole) = (busy(subs[0]).part, busy(subs[0]).whole);
    assert(part * 1u64 == part && 0u64 * whole == 0) by (nonlinear_arith);
}

proof fn lemma_network_of_one(subs: Seq<Sub>)
    requires
        subs.len() == 1,
    ensures
        network_detail(subs) == subs[0].network_detail,
{
    if subs[0].network_detail is Some {
        lemma_single(subs, Field::TcpActiveOpens);
        lemma_single(subs, Field::TcpPassiveOpens);
        lemma_single(subs, Field::TcpAttemptFails);
        lemma_single(subs, Field::TcpEstabResets);
        lemma_single(subs, Field::TcpRetransSegs);
        lemma_single(subs, Field::TcpSynRetrans);
        lemma_single(subs, Field::TcpInErrors);
        lemma_single(subs, Field::TcpOutResets);
        lemma_single(subs, Field::TcpTimeouts);
        lemma_single(subs, Field::TcpListenOverflows);
        lemma_single(subs, Field::TcpListenDrops);
        lemma_single(subs, Field::UdpInErrors);
        lemma_single(subs, Field::UdpNoPorts);
        lemma_single(subs, Field::UdpRcvbufErrors);
        lemma_single(subs, Field::UdpSndbufErrors);
    }
}

/// One more change adds its number to the sum of a window, where the number can hold it, and
/// its seconds to the window's.
pub proof fn lemma_one_more_change_adds_its_number(subs: Seq<Sub>, sub: Sub, field: Field)
    requires
        value(sub, field) is Some,
    ensures
        sum(subs, field) + value(sub, field)->0 <= u64::MAX ==> sum(subs.push(sub), field) == sum(
            subs,
            field,
        ) + value(sub, field)->0,
        seconds(subs.push(sub), subs.len() as int + 1) == seconds(subs, subs.len() as int)
            + sub.elapsed_secs,
        subs.len() > 0 ==> (sum_if_all(subs.push(sub), field) is Some <==> sum_if_all(
            subs,
            field,
        ) is Some),
{
    let more = subs.push(sub);
    let n = subs.len() as int;
    lemma_front(subs, sub, field, n);
    lemma_totals_grow(subs, field, 0, n);
    assert(more[n] == sub);
    assert forall|i: int| 0 <= i < n implies more[i] == subs[i] by {}
    if all_have(more, field) {
        assert forall|i: int| 0 <= i < n implies value(#[trigger] subs[i], field) is Some by {
            assert(more[i] == subs[i]);
        }
    }
    if all_have(subs, field) {
        assert forall|i: int| 0 <= i < n + 1 implies value(#[trigger] more[i], field) is Some by {
            if i < n {
                assert(value(subs[i], field) is Some);
            }
        }
    }
}

proof fn lemma_front(subs: Seq<Sub>, sub: Sub, field: Field, n: int)
    requires
        0 <= n <= subs.len(),
    ensures
        total(subs.push(sub), field, n) == total(subs, field, n),
        seconds(subs.push(sub), n) == seconds(subs, n),
        weighted(subs.push(sub), field, n) == weighted(subs, field, n),
    decreases n,
{
    if n > 0 {
        lemma_front(subs, sub, field, n - 1);
        assert(subs.push(sub)[n - 1] == subs[n - 1]);
    }
}

/// The mean of a window lies between any bounds that hold of each of its changes: longer ones
/// count for more, but none beyond what it says.
pub proof fn lemma_mean_lies_within_bounds(subs: Seq<Sub>, field: Field, low: u64, high: u64)
    requires
        0 < seconds(subs, subs.len() as int) <= u64::MAX,
        forall|i: int|
            0 <= i < subs.len() ==> value(#[trigger] subs[i], field) is Some && low <= value(
                subs[i],
                field,
            )->0 <= high,
    ensures
        low <= mean(subs, field) <= high,
{
    let n = subs.len() as int;
    lemma_weighted_within(subs, field, low, high, n);
    let w = weighted(subs, field, n);
    let s = seconds(subs, n);
    assert(w <= u128::MAX && low <= w / s <= high) by (nonlinear_arith)
        requires
            0 < s <= u64::MAX,
            low * s <= w <= high * s,
            0 <= low <= u64::MAX,
            0 <= high <= u64::MAX,
    ;
}

proof fn lemma_weighted_within(subs: Seq<Sub>, field: Field, low: u64, high: u64, n: int)
    requires
        0 <= n <= subs.len(),
        forall|i: int|
            0 <= i < subs.len() ==> value(#[trigger] subs[i], field) is Some && low <= value(
                subs[i],
                field,
            )->0 <= high,
    ensures
        low * seconds(subs, n) <= weighted(subs, field, n) <= high * seconds(subs, n),
    decreases n,
{
    if n > 0 {
        lemma_weighted_within(subs, field, low, high, n - 1);
        let v = procfs::or_zero(value(subs[n - 1], field)) as int;
        let e = subs[n - 1].elapsed_secs as int;
        let s = seconds(subs, n - 1);
        let (a, b) = (low as int, high as int);
        assert(value(subs[n - 1], field) is Some);
        assert(a * (s + e) == a * s + a * e && b * (s + e) == b * s + b * e && a * e <= v * e && v
            * e <= b * e) by (nonlinear_arith)
            requires
                a <= v <= b,
                0 <= e,
        ;
    } else {
        assert(low * 0 == 0 && high * 0 == 0) by (nonlinear_arith);
    }
}

/// The least memory that was available is that of some change, and no change had less.
pub proof fn lemma_least_available_is_the_least(subs: Seq<Sub>, n: int, i: int)
    requires
        0 <= i < n <= subs.len(),
    ensures
        least_available(subs, n) <= subs[i].memory.available,
        exists|k: int| 0 <= k < n && (#[trigger] subs[k]).memory.available == least_available(subs, n),
    decreases n,
{
    if n == 1 {
        assert(subs[0].memory.available == least_available(subs, n));
    } else {
        if i < n - 1 {
            lemma_least_available_is_the_least(subs, n - 1, i);
        } else {
            lemma_least_available_is_the_least(subs, n - 1, 0);
        }
        let k = choose|k: int|
            0 <= k < n - 1 && (#[trigger] subs[k]).memory.available == least_available(subs, n - 1);
        if subs[n - 1].memory.available <= least_available(subs, n - 1) {
            assert(subs[n - 1].memory.available == least_available(subs, n));
        } else {
            assert(subs[k].memory.available == least_available(subs, n));
        }
    }
}

/// A core is told of exactly where every change of the window shows it.
pub proof fn lemma_core_is_told_where_always_shown(subs: Seq<Sub>, cpu: u32)
    requires
        subs.len() > 0,
    ensures
        steady_of(subs).contains(cpu) <==> (forall|i: int|
            0 <= i < subs.len() ==> shows((#[trigger] subs[i]).cpu_cores@, cpu)),
{
    let cores = subs[0].cpu_cores@;
    lemma_steady(subs, cores, cpu, cores.len() as int);
    if forall|i: int| 0 <= i < subs.len() ==> shows((#[trigger] subs[i]).cpu_cores@, cpu) {
        assert(shows(subs[0].cpu_cores@, cpu));
        let k = choose|k: int| 0 <= k < cores.len() && (#[trigger] cores[k]).cpu == cpu;
        assert(cores[k].cpu == cpu);
    }
}

proof fn lemma_steady(subs: Seq<Sub>, cores: Seq<CpuCoreSample>, cpu: u32, n: int)
    requires
        0 <= n <= cores.len(),
    ensures
        steady(subs, cores, n).contains(cpu) <==> always_shown(subs, cpu, subs.len() as int)
            && exists|k: int| 0 <= k < n && (#[trigger] cores[k]).cpu == cpu,
    decreases n,
{
    if n > 0 {
        lemma_steady(subs, cores, cpu, n - 1);
        let front = steady(subs, cores, n - 1);
        let all = steady(subs, cores, n);
        let last = cores[n - 1].cpu;
        if always_shown(subs, last, subs.len() as int) {
            assert(all == front.push(last));
            assert(all[all.len() - 1] == last);
            if front.contains(cpu) {
                let i = choose|i: int| 0 <= i < front.len() && front[i] == cpu;
                assert(all[i] == cpu);
            }
            if all.contains(cpu) && cpu != last {
                let i = choose|i: int| 0 <= i < all.len() && all[i] == cpu;
                assert(front[i] == cpu);
            }
        }
    }
}

/// What is in flight is what the last change that tells says.
pub proof fn lemma_in_flight_is_the_last_told(subs: Seq<Sub>, n: int)
    requires
        0 <= n <= subs.len(),
    ensures
        match in_flight(subs, n) {
            None => forall|i: int| 0 <= i < n ==> (#[trigger] subs[i]).disk is None,
            Some(count) => exists|k: int|
                0 <= k < n && (#[trigger] subs[k]).disk is Some && subs[k].disk->0.in_flight == count
                    && (forall|i: int| k < i < n ==> (#[trigger] subs[i]).disk is None),
        },
    decreases n,
{
    if n > 0 {
        lemma_in_flight_is_the_last_told(subs, n - 1);
        if subs[n - 1].disk is None && in_flight(subs, n) is Some {
            let count = in_flight(subs, n)->0;
            let k = choose|k: int|
                0 <= k < n - 1 && (#[trigger] subs[k]).disk is Some && subs[k].disk->0.in_flight
                    == count && (forall|i: int|
                    k < i < n - 1 ==> (#[trigger] subs[i]).disk is None);
            assert(subs[k].disk is Some);
        }
    }
}

/// A process's share of a change is the one listed under its name, and nothing where it is
/// not listed.
pub proof fn lemma_share_goes_by_name(list: Seq<(String, Share)>, name: Seq<char>, from: int)
    requires
        0 <= from,
    ensures
        (exists|i: int|
            from <= i < list.len() && (#[trigger] list[i]).0@ == name && list[i].1 == share_of(
                list,
                name,
                from,
            )) || (share_of(list, name, from).part == 0 && forall|i: int|
            from <= i < list.len() ==> (#[trigger] list[i]).0@ != name),
    decreases list.len() - from,
{
    if from < list.len() && list[from].0@ != name {
        lemma_share_goes_by_name(list, name, from + 1);
    }
}

} // verus!
