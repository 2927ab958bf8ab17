//! Readings of the machine's counters, and what changed between two of them.
use vstd::prelude::*;
use vstd::string::*;

use crate::disks::DiskCounters;
use crate::nettables::{network_from_text, read_net, NetCounters, NetworkRaw};
use crate::order::TextMap;
use crate::processes::read_proc_cpu;
use crate::procfs::{
    cpu_throttled_usec, parse_btime, parse_cpu, parse_cpu_cores, parse_meminfo, parse_pressure,
    parse_softirqs, parse_stat_counter, parse_vmstat, CoreTimes, CpuTimes, MemInfo, PressureTotals,
    SoftirqCounters, VmCounters,
};
use crate::{nettables, numbers, processes, procfs, text};

verus! {

/// Seconds between two readings.
pub const SUB_INTERVAL_SECS: u64 = 10;

/// How many changes make a report.
pub const SUBS_PER_WINDOW: usize = 3;

/// One reading of the counters since boot.
pub struct Raw {
    pub at: u64,
    pub btime: i64,
    pub cpu: CpuTimes,
    pub cpu_cores: CoreTimes,
    pub context_switches: Option<u64>,
    pub cpu_pressure: PressureTotals,
    pub softirqs: Option<SoftirqCounters>,
    pub cpu_throttled_usec: Option<u64>,
    pub net: NetCounters,
    pub network: NetworkRaw,
    pub oom_kills: u64,
    pub memory: MemInfo,
    pub vm: VmCounters,
    pub memory_pressure: PressureTotals,
    pub io_pressure: PressureTotals,
    pub disk: Option<DiskCounters>,
    pub proc_cpu: TextMap<u64>,
    pub pids: TextMap<u32>,
}

impl Raw {
    pub open spec fn wf(self) -> bool {
        self.cpu_cores.wf() && self.proc_cpu.wf() && self.pids.wf()
    }
}

impl Default for Raw {
    fn default() -> (r: Raw)
        ensures
            r.wf(),
            r.at == 0,
            r.btime == 0,
            r.cpu == CpuTimes::zero(),
            r.cpu_cores@ == Map::<u32, CpuTimes>::empty(),
            r.context_switches is None,
            r.cpu_pressure == PressureTotals::unknown(),
            r.softirqs is None,
            r.cpu_throttled_usec is None,
            r.net == NetCounters::zero(),
            r.network == NetworkRaw::nothing(),
            r.oom_kills == 0,
            r.memory == MemInfo::zero(),
            r.vm == VmCounters::zero(),
            r.memory_pressure == PressureTotals::unknown(),
            r.io_pressure == PressureTotals::unknown(),
            r.disk is None,
            r.proc_cpu@ == Map::<Seq<char>, u64>::empty(),
            r.pids@ == Map::<Seq<char>, u32>::empty(),
    {
        Raw {
            at: 0,
            btime: 0,
            cpu: CpuTimes::default(),
            cpu_cores: CoreTimes::new(),
            context_switches: None,
            cpu_pressure: PressureTotals::default(),
            softirqs: None,
            cpu_throttled_usec: None,
            net: NetCounters::default(),
            network: NetworkRaw::default(),
            oom_kills: 0,
            memory: MemInfo::default(),
            vm: VmCounters::default(),
            memory_pressure: PressureTotals::default(),
            io_pressure: PressureTotals::default(),
            disk: None,
            proc_cpu: TextMap::new(),
            pids: TextMap::new(),
        }
    }
}

/// The texts that a reading is taken from; each may have been unreadable.
pub struct RawTexts {
    pub stat: Option<String>,
    pub cpu_pressure: Option<String>,
    pub softirqs: Option<String>,
    pub unified_cpu_stat: Option<String>,
    pub legacy_cpu_stat: Option<String>,
    pub route: Option<String>,
    pub net_dev: Option<String>,
    pub snmp: Option<String>,
    pub netstat: Option<String>,
    pub snmp6: Option<String>,
    pub sockstat: Option<String>,
    pub sockstat6: Option<String>,
    pub meminfo: Option<String>,
    pub vmstat: Option<String>,
    pub memory_pressure: Option<String>,
    pub io_pressure: Option<String>,
    /// The stat line of each measured process, by its name.
    pub process_stats: Vec<(String, String)>,
}

/// The text of a file; empty where it was unreadable.
pub open spec fn content(file: Option<String>) -> Seq<char> {
    text::or_empty(text::optional(file))
}

fn read_content(file: &Option<String>) -> (r: String)
    ensures
        r@ == content(*file),
{
    match file {
        Some(t) => t.as_str().to_owned(),
        None => String::new(),
    }
}

fn borrowed(file: &Option<String>) -> (r: Option<&str>)
    ensures
        (r is Some) == (*file is Some),
        r matches Some(s) ==> s@ == content(*file),
{
    match file {
        Some(t) => Some(t.as_str()),
        None => None,
    }
}

/// Stalled time in a pressure file.
pub open spec fn pressure_in(file: Option<String>) -> PressureTotals {
    PressureTotals {
        some_usec: procfs::pressure_total(text::lines(content(file)), "some "@),
        full_usec: procfs::pressure_total(text::lines(content(file)), "full "@),
    }
}

/// A reading, from the texts that were read at `now`.
pub fn read_raw(
    now: u64,
    files: &RawTexts,
    disk: Option<DiskCounters>,
    pids: TextMap<u32>,
) -> (r: Raw)
    requires
        pids.wf(),
    ensures
        r.wf(),
        r.at == now,
        r.btime == (match procfs::btime_of(content(files.stat)) {
            Some(v) => v,
            None => 0i64,
        }),
        r.cpu == procfs::cpu_of(content(files.stat)),
        r.cpu_cores@ == procfs::by_core(procfs::core_lines(text::lines(content(files.stat)))),
        r.context_switches == procfs::stat_counter(content(files.stat), "ctxt "@),
        r.cpu_pressure == pressure_in(files.cpu_pressure),
        r.softirqs == (match files.softirqs {
            Some(t) => Some(
                SoftirqCounters {
                    net_rx: procfs::softirq_sum(text::lines(t@), "NET_RX:"@),
                    net_tx: procfs::softirq_sum(text::lines(t@), "NET_TX:"@),
                },
            ),
            None => None::<SoftirqCounters>,
        }),
        r.cpu_throttled_usec == (match files.unified_cpu_stat {
            Some(t) => procfs::named_counter(text::lines(t@), "throttled_usec"@, 0),
            None => match files.legacy_cpu_stat {
                Some(t) => match procfs::named_counter(text::lines(t@), "throttled_time"@, 0) {
                    Some(nanos) => Some((nanos / 1000) as u64),
                    None => None,
                },
                None => None::<u64>,
            },
        }),
        r.net == (match (files.route, files.net_dev) {
            (Some(route), Some(dev)) => match nettables::default_interface(
                text::lines(route@),
                1,
            ) {
                Some(nic) => nettables::net_counters(text::lines(dev@), nic, 0),
                None => NetCounters::zero(),
            },
            _ => NetCounters::zero(),
        }),
        r.network == nettables::network_of(
            content(files.snmp),
            content(files.netstat),
            content(files.snmp6),
            content(files.sockstat),
            content(files.sockstat6),
        ),
        r.vm == procfs::vmstat_of(content(files.vmstat)),
        r.oom_kills == r.vm.oom_kills,
        r.memory == procfs::meminfo_of(content(files.meminfo)),
        r.memory_pressure == pressure_in(files.memory_pressure),
        r.io_pressure == pressure_in(files.io_pressure),
        r.disk == disk,
        r.proc_cpu@ == processes::cpu_by_name(files.process_stats@),
        r.pids == pids,
{
    let stat = read_content(&files.stat);
    let vm = parse_vmstat(read_content(&files.vmstat).as_str());
    Raw {
        at: now,
        btime: match parse_btime(stat.as_str()) {
            Some(v) => v,
            None => 0,
        },
        cpu: parse_cpu(stat.as_str()),
        cpu_cores: parse_cpu_cores(stat.as_str()),
        context_switches: parse_stat_counter(stat.as_str(), "ctxt "),
        cpu_pressure: parse_pressure(read_content(&files.cpu_pressure).as_str()),
        softirqs: match &files.softirqs {
            Some(t) => Some(parse_softirqs(t.as_str())),
            None => None,
        },
        cpu_throttled_usec: cpu_throttled_usec(
            borrowed(&files.unified_cpu_stat),
            borrowed(&files.legacy_cpu_stat),
        ),
        net: read_net(borrowed(&files.route), borrowed(&files.net_dev)),
        network: network_from_text(
            read_content(&files.snmp).as_str(),
            read_content(&files.netstat).as_str(),
            read_content(&files.snmp6).as_str(),
            read_content(&files.sockstat).as_str(),
            read_content(&files.sockstat6).as_str(),
        ),
        oom_kills: vm.oom_kills,
        memory: parse_meminfo(read_content(&files.meminfo).as_str()),
        vm,
        memory_pressure: parse_pressure(read_content(&files.memory_pressure).as_str()),
        io_pressure: parse_pressure(read_content(&files.io_pressure).as_str()),
        disk,
        proc_cpu: read_proc_cpu(&files.process_stats),
        pids,
    }
}

/// A part of a whole, exactly.
#[derive(Debug, Clone, Copy, PartialEq, Eq, Structural)]
pub struct Share {
    pub part: u64,
    pub whole: u64,
}

/// What processors did over an interval, in ticks out of `total`.
#[derive(Debug, Clone, Copy, PartialEq, Eq, Structural)]
pub struct CpuShares {
    pub user: u64,
    pub system: u64,
    pub softirq: u64,
    pub iowait: u64,
    pub steal: u64,
    pub total: u64,
}

impl CpuShares {
    /// Nothing was done.
    pub open spec fn idle() -> CpuShares {
        CpuShares { user: 0, system: 0, softirq: 0, iowait: 0, steal: 0, total: 1 }
    }
}

impl Default for CpuShares {
    fn default() -> (r: CpuShares)
        ensures
            r == CpuShares::idle(),
    {
        CpuShares { user: 0, system: 0, softirq: 0, iowait: 0, steal: 0, total: 1 }
    }
}

/// What one core did over an interval.
#[derive(Debug, Clone, Copy, PartialEq, Eq, Structural)]
pub struct CpuCoreSample {
    pub cpu: u32,
    pub shares: CpuShares,
}

/// What a disk did over an interval.
#[derive(Debug, Clone, Copy, PartialEq, Eq, Structural)]
pub struct DiskDelta {
    pub read_bytes: u64,
    pub write_bytes: u64,
    pub reads: u64,
    pub writes: u64,
    pub read_ms: u64,
    pub write_ms: u64,
    pub in_flight: u64,
    pub busy_ms: u64,
    pub weighted_ms: u64,
}

/// The network over an interval: levels at its end, and events during it.
#[derive(Debug, Clone, Copy, PartialEq, Eq, Structural)]
pub struct NetworkDetailSample {
    pub tcp_curr_estab: Option<u64>,
    pub tcp_inuse: Option<u64>,
    pub tcp_time_wait: Option<u64>,
    pub tcp_orphan: Option<u64>,
    pub tcp_alloc: Option<u64>,
    pub tcp_mem_bytes: Option<u64>,
    pub udp_inuse: Option<u64>,
    pub udp_mem_bytes: Option<u64>,
    pub ephemeral_port_capacity: Option<u64>,
    pub tcp_ephemeral_inuse_v4: Option<u64>,
    pub tcp_ephemeral_inuse_v6: Option<u64>,
    pub tcp_ephemeral_time_wait_v4: Option<u64>,
    pub tcp_ephemeral_time_wait_v6: Option<u64>,
    pub tcp_ephemeral_top_target_v4: Option<u64>,
    pub tcp_ephemeral_top_target_v6: Option<u64>,
    pub tcp_active_opens: Option<u64>,
    pub tcp_passive_opens: Option<u64>,
    pub tcp_attempt_fails: Option<u64>,
    pub tcp_estab_resets: Option<u64>,
    pub tcp_retrans_segs: Option<u64>,
    pub tcp_syn_retrans: Option<u64>,
    pub tcp_in_errors: Option<u64>,
    pub tcp_out_resets: Option<u64>,
    pub tcp_timeouts: Option<u64>,
    pub tcp_listen_overflows: Option<u64>,
    pub tcp_listen_drops: Option<u64>,
    pub udp_in_errors: Option<u64>,
    pub udp_no_ports: Option<u64>,
    pub udp_rcvbuf_errors: Option<u64>,
    pub udp_sndbuf_errors: Option<u64>,
}

impl NetworkDetailSample {
    /// Nothing is known.
    pub open spec fn unknown() -> NetworkDetailSample {
        NetworkDetailSample {
            tcp_curr_estab: None,
            tcp_inuse: None,
            tcp_time_wait: None,
            tcp_orphan: None,
            tcp_alloc: None,
            tcp_mem_bytes: None,
            udp_inuse: None,
            udp_mem_bytes: None,
            ephemeral_port_capacity: None,
            tcp_ephemeral_inuse_v4: None,
            tcp_ephemeral_inuse_v6: None,
            tcp_ephemeral_time_wait_v4: None,
            tcp_ephemeral_time_wait_v6: None,
            tcp_ephemeral_top_target_v4: None,
            tcp_ephemeral_top_target_v6: None,
            tcp_active_opens: None,
            tcp_passive_opens: None,
            tcp_attempt_fails: None,
            tcp_estab_resets: None,
            tcp_retrans_segs: None,
            tcp_syn_retrans: None,
            tcp_in_errors: None,
            tcp_out_resets: None,
            tcp_timeouts: None,
            tcp_listen_overflows: None,
            tcp_listen_drops: None,
            udp_in_errors: None,
            udp_no_ports: None,
            udp_rcvbuf_errors: None,
            udp_sndbuf_errors: None,
        }
    }
}

impl Default for NetworkDetailSample {
    fn default() -> (r: NetworkDetailSample)
        ensures
            r == NetworkDetailSample::unknown(),
    {
        NetworkDetailSample {
            tcp_curr_estab: None,
            tcp_inuse: None,
            tcp_time_wait: None,
            tcp_orphan: None,
            tcp_alloc: None,
            tcp_mem_bytes: None,
            udp_inuse: None,
            udp_mem_bytes: None,
            ephemeral_port_capacity: None,
            tcp_ephemeral_inuse_v4: None,
            tcp_ephemeral_inuse_v6: None,
            tcp_ephemeral_time_wait_v4: None,
            tcp_ephemeral_time_wait_v6: None,
            tcp_ephemeral_top_target_v4: None,
            tcp_ephemeral_top_target_v6: None,
            tcp_active_opens: None,
            tcp_passive_opens: None,
            tcp_attempt_fails: None,
            tcp_estab_resets: None,
            tcp_retrans_segs: None,
            tcp_syn_retrans: None,
            tcp_in_errors: None,
            tcp_out_resets: None,
            tcp_timeouts: None,
            tcp_listen_overflows: None,
            tcp_listen_drops: None,
            udp_in_errors: None,
            udp_no_ports: None,
            udp_rcvbuf_errors: None,
            udp_sndbuf_errors: None,
        }
    }
}

/// What changed between two readings.
#[derive(Debug, PartialEq, Eq)]
pub struct Sub {
    pub window_start_unix_secs: u64,
    pub window_end_unix_secs: u64,
    pub elapsed_secs: u64,
    pub cpu: CpuShares,
    pub cpu_cores: Vec<CpuCoreSample>,
    pub cpu_pressure_some: Option<Share>,
    pub io_pressure_some: Option<Share>,
    pub io_pressure_full: Option<Share>,
    pub context_switches_per_sec: Option<u64>,
    pub net_rx_softirqs_per_sec: Option<u64>,
    pub net_tx_softirqs_per_sec: Option<u64>,
    pub cpu_throttled_usec: Option<u64>,
    pub nic_rx_bps: u64,
    pub nic_tx_bps: u64,
    pub nic_rx_drop: u64,
    pub nic_tx_drop: u64,
    pub nic_err: u64,
    pub network_detail: Option<NetworkDetailSample>,
    pub oom_kills: u64,
    pub memory: MemInfo,
    pub memory_pressure_some: Option<Share>,
    pub memory_pressure_full: Option<Share>,
    pub swap_in_bytes: u64,
    pub swap_out_bytes: u64,
    pub major_faults: u64,
    pub direct_reclaim_pages: u64,
    pub gup_pinned_bytes: Option<u64>,
    pub disk: Option<DiskDelta>,
    /// The share of the processors that each measured process had.
    pub proc_cpu: Vec<(String, Share)>,
    /// The differences are not to be trusted.
    pub gap: bool,
}

/// Cores in strictly ascending order.
pub open spec fn cores_ascend(cores: Seq<CpuCoreSample>) -> bool {
    forall|i: int, j: int| 0 <= i < j < cores.len() ==> cores[i].cpu < cores[j].cpu
}

impl Sub {
    pub open spec fn wf(self) -> bool {
        cores_ascend(self.cpu_cores@)
    }
}

impl Default for Sub {
    fn default() -> (r: Sub)
        ensures
            r.wf(),
            r.window_start_unix_secs == 0,
            r.window_end_unix_secs == 0,
            r.elapsed_secs == 0,
            r.cpu == CpuShares::idle(),
            r.cpu_cores@.len() == 0,
            r.cpu_pressure_some is None,
            r.io_pressure_some is None,
            r.io_pressure_full is None,
            r.context_switches_per_sec is None,
            r.net_rx_softirqs_per_sec is None,
            r.net_tx_softirqs_per_sec is None,
            r.cpu_throttled_usec is None,
            r.nic_rx_bps == 0,
            r.nic_tx_bps == 0,
            r.nic_rx_drop == 0,
            r.nic_tx_drop == 0,
            r.nic_err == 0,
            r.network_detail is None,
            r.oom_kills == 0,
            r.memory == MemInfo::zero(),
            r.memory_pressure_some is None,
            r.memory_pressure_full is None,
            r.swap_in_bytes == 0,
            r.swap_out_bytes == 0,
            r.major_faults == 0,
            r.direct_reclaim_pages == 0,
            r.gup_pinned_bytes is None,
            r.disk is None,
            r.proc_cpu@.len() == 0,
            !r.gap,
    {
        Sub {
            window_start_unix_secs: 0,
            window_end_unix_secs: 0,
            elapsed_secs: 0,
            cpu: CpuShares::default(),
            cpu_cores: Vec::new(),
            cpu_pressure_some: None,
            io_pressure_some: None,
            io_pressure_full: None,
            context_switches_per_sec: None,
            net_rx_softirqs_per_sec: None,
            net_tx_softirqs_per_sec: None,
            cpu_throttled_usec: None,
            nic_rx_bps: 0,
            nic_tx_bps: 0,
            nic_rx_drop: 0,
            nic_tx_drop: 0,
            nic_err: 0,
            network_detail: None,
            oom_kills: 0,
            memory: MemInfo::default(),
            memory_pressure_some: None,
            memory_pressure_full: None,
            swap_in_bytes: 0,
            swap_out_bytes: 0,
            major_faults: 0,
            direct_reclaim_pages: 0,
            gup_pinned_bytes: None,
            disk: None,
            proc_cpu: Vec::new(),
            gap: false,
        }
    }
}

/// Whether some class of processor time went backwards.
pub open spec fn regressed(before: CpuTimes, now: CpuTimes) -> bool {
    now.user < before.user || now.system < before.system || now.softirq < before.softirq
        || now.iowait < before.iowait || now.steal < before.steal || now.total < before.total
}

/// Whether some class of processor time went backwards.
pub fn cpu_times_regressed(before: CpuTimes, now: CpuTimes) -> (r: bool)
    ensures
        r == regressed(before, now),
{
    now.user < before.user || now.system < before.system || now.softirq < before.softirq
        || now.iowait < before.iowait || now.steal < before.steal || now.total < before.total
}

/// Seconds between two readings, at least one.
pub open spec fn elapsed(before: Raw, now: Raw) -> u64 {
    if now.at > before.at {
        (now.at - before.at) as u64
    } else {
        1
    }
}

/// Whether two readings can be compared: the machine was not restarted between them,
/// and the clock went forward.
pub open spec fn comparable(before: Raw, now: Raw) -> bool {
    before.btime == now.btime && now.at > before.at
}

/// Growth of a counter; none where the readings cannot be compared or it went back.
pub open spec fn growth(valid: bool, now: u64, before: u64) -> u64 {
    if valid {
        procfs::less(now, before)
    } else {
        0
    }
}

/// Growth of a counter that both readings have.
pub open spec fn growth_of(valid: bool, now: Option<u64>, before: Option<u64>) -> Option<u64> {
    match (now, before) {
        (Some(a), Some(b)) => Some(growth(valid, a, b)),
        _ => None,
    }
}

fn grown(valid: bool, now: u64, before: u64) -> (r: u64)
    ensures
        r == growth(valid, now, before),
{
    if valid {
        now.saturating_sub(before)
    } else {
        0
    }
}

fn grown_of(valid: bool, now: Option<u64>, before: Option<u64>) -> (r: Option<u64>)
    ensures
        r == growth_of(valid, now, before),
{
    match (now, before) {
        (Some(a), Some(b)) => Some(grown(valid, a, b)),
        _ => None,
    }
}

/// Stalled microseconds as a share of the interval, never more than all of it.
pub open spec fn stalled(
    valid: bool,
    elapsed: u64,
    now: Option<u64>,
    before: Option<u64>,
) -> Option<Share> {
    match growth_of(valid, now, before) {
        Some(usec) => {
            let whole = numbers::capped(elapsed * 1_000_000);
            Some(
                Share {
                    part: if usec < whole {
                        usec
                    } else {
                        whole
                    },
                    whole,
                },
            )
        },
        None => None,
    }
}

fn stall(valid: bool, elapsed: u64, now: Option<u64>, before: Option<u64>) -> (r: Option<Share>)
    ensures
        r == stalled(valid, elapsed, now, before),
{
    match grown_of(valid, now, before) {
        Some(usec) => {
            let whole: u64 = numbers::mul_capped(elapsed, 1_000_000);
            Some(
                Share {
                    part: if usec < whole {
                        usec
                    } else {
                        whole
                    },
                    whole,
                },
            )
        },
        None => None,
    }
}

/// What the processors did: nothing where the readings cannot be compared.
pub open spec fn cpu_shares(valid: bool, before: CpuTimes, now: CpuTimes) -> CpuShares {
    if !valid || regressed(before, now) || now.total == before.total {
        CpuShares::idle()
    } else {
        CpuShares {
            user: (now.user - before.user) as u64,
            system: (now.system - before.system) as u64,
            softirq: (now.softirq - before.softirq) as u64,
            iowait: (now.iowait - before.iowait) as u64,
            steal: (now.steal - before.steal) as u64,
            total: (now.total - before.total) as u64,
        }
    }
}

fn shares_between(valid: bool, before: CpuTimes, now: CpuTimes) -> (r: CpuShares)
    ensures
        r == cpu_shares(valid, before, now),
{
    if !valid || cpu_times_regressed(before, now) || now.total == before.total {
        CpuShares::default()
    } else {
        CpuShares {
            user: now.user - before.user,
            system: now.system - before.system,
            softirq: now.softirq - before.softirq,
            iowait: now.iowait - before.iowait,
            steal: now.steal - before.steal,
            total: now.total - before.total,
        }
    }
}

/// The smaller of two numbers.
pub open spec fn lesser(a: u64, b: u64) -> u64 {
    if a < b {
        a
    } else {
        b
    }
}

/// Shares none of which is more than the whole.
pub open spec fn bounded(s: CpuShares) -> CpuShares {
    CpuShares {
        user: lesser(s.user, s.total),
        system: lesser(s.system, s.total),
        softirq: lesser(s.softirq, s.total),
        iowait: lesser(s.iowait, s.total),
        steal: lesser(s.steal, s.total),
        total: s.total,
    }
}

fn min(a: u64, b: u64) -> (r: u64)
    ensures
        r == lesser(a, b),
{
    if a < b {
        a
    } else {
        b
    }
}

fn bound(s: CpuShares) -> (r: CpuShares)
    ensures
        r == bounded(s),
{
    CpuShares {
        user: min(s.user, s.total),
        system: min(s.system, s.total),
        softirq: min(s.softirq, s.total),
        iowait: min(s.iowait, s.total),
        steal: min(s.steal, s.total),
        total: s.total,
    }
}

/// What each core did that both readings have; one whose times went back is left out.
pub open spec fn core_samples(
    valid: bool,
    before: Map<u32, CpuTimes>,
    now: Seq<(u32, CpuTimes)>,
) -> Seq<CpuCoreSample>
    decreases now.len(),
{
    if now.len() == 0 {
        seq![]
    } else {
        let front = core_samples(valid, before, now.drop_last());
        let (cpu, times) = now.last();
        if before.dom().contains(cpu) && !regressed(before[cpu], times) {
            front.push(
                CpuCoreSample { cpu, shares: bounded(cpu_shares(valid, before[cpu], times)) },
            )
        } else {
            front
        }
    }
}

/// Whether the times of some core that both readings have went back.
pub open spec fn core_regressed(before: Map<u32, CpuTimes>, now: Seq<(u32, CpuTimes)>) -> bool {
    exists|i: int|
        0 <= i < now.len() && before.dom().contains((#[trigger] now[i]).0) && regressed(
            before[now[i].0],
            now[i].1,
        )
}

fn sample_cores(valid: bool, before: &CoreTimes, now: &CoreTimes) -> (r: (
    Vec<CpuCoreSample>,
    bool,
))
    requires
        before.wf(),
        now.wf(),
    ensures
        r.0@ == core_samples(valid, before@, now.entries@),
        cores_ascend(r.0@),
        r.1 == core_regressed(before@, now.entries@),
{
    let ghost all = now.entries@;
    let mut out: Vec<CpuCoreSample> = Vec::new();
    let mut back = false;
    let mut i: usize = 0;
    while i < now.entries.len()
        invariant
            i <= now.entries.len(),
            before.wf(),
            now.wf(),
            all == now.entries@,
            out@ == core_samples(valid, before@, all.take(i as int)),
            cores_ascend(out@),
            forall|j: int|
                0 <= j < out@.len() ==> exists|k: int|
                    0 <= k < i && (#[trigger] out@[j]).cpu == (#[trigger] all[k]).0,
            back == core_regressed(before@, all.take(i as int)),
        decreases now.entries.len() - i,
    {
        let (cpu, times) = now.entries[i];
        let ghost was = out@;
        proof {
            assert(all.take(i + 1).drop_last() == all.take(i as int));
            assert(all.take(i + 1).last() == all[i as int]);
            let short = all.take(i as int);
            let long = all.take(i + 1);
            if core_regressed(before@, short) {
                let k = choose|k: int|
                    0 <= k < short.len() && before@.dom().contains((#[trigger] short[k]).0)
                        && regressed(before@[short[k].0], short[k].1);
                assert(long[k] == short[k]);
            }
            if core_regressed(before@, long) {
                let k = choose|k: int|
                    0 <= k < long.len() && before@.dom().contains((#[trigger] long[k]).0)
                        && regressed(before@[long[k].0], long[k].1);
                if k < i {
                    assert(long[k] == short[k]);
                }
            }
            assert(long[i as int] == all[i as int]);
            assert forall|j: int| 0 <= j < was.len() implies (#[trigger] was[j]).cpu
                < all[i as int].0 by {
                let k = choose|k: int| 0 <= k < i && was[j].cpu == (#[trigger] all[k]).0;
                assert(all[k].0 < all[i as int].0);
            }
        }
        match before.get(cpu) {
            Some(previous) => {
                if cpu_times_regressed(previous, times) {
                    back = true;
                } else {
                    out.push(
                        CpuCoreSample { cpu, shares: bound(shares_between(valid, previous, times)) },
                    );
                }
            },
            None => {},
        }
        proof {
            assert forall|j: int| 0 <= j < out@.len() implies exists|k: int|
                0 <= k < i + 1 && (#[trigger] out@[j]).cpu == (#[trigger] all[k]).0 by {
                if j < was.len() {
                    let k = choose|k: int| 0 <= k < i && was[j].cpu == (#[trigger] all[k]).0;
                    assert(out@[j].cpu == all[k].0);
                } else {
                    assert(out@[j].cpu == all[i as int].0);
                }
            }
        }
        i = i + 1;
    }
    assert(all.take(i as int) == all);
    (out, back)
}

/// Growth over the seconds that passed, rounded down.
pub open spec fn per_second(growth: u64, elapsed: u64) -> u64 {
    (growth / elapsed) as u64
}

/// Bits per second from bytes over the seconds that passed, rounded down.
pub open spec fn bits_per_second(bytes: u64, elapsed: u64) -> u64 {
    numbers::capped(bytes * 8 / elapsed as int)
}

fn bits_rate(bytes: u64, elapsed: u64) -> (r: u64)
    requires
        elapsed > 0,
    ensures
        r == bits_per_second(bytes, elapsed),
{
    let rate: u128 = (bytes as u128) * 8 / (elapsed as u128);
    if rate > u64::MAX as u128 {
        u64::MAX
    } else {
        rate as u64
    }
}

fn optional_rate(growth: Option<u64>, elapsed: u64) -> (r: Option<u64>)
    requires
        elapsed > 0,
    ensures
        r == (match growth {
            Some(v) => Some(per_second(v, elapsed)),
            None => None::<u64>,
        }),
{
    match growth {
        Some(v) => Some(v / elapsed),
        None => None,
    }
}

/// Bytes in pages, capped.
pub open spec fn page_bytes(pages: Option<u64>, page_size: u64) -> Option<u64> {
    match pages {
        Some(n) => Some(numbers::capped(n * page_size)),
        None => None,
    }
}

fn bytes_of_pages(pages: Option<u64>, page_size: u64) -> (r: Option<u64>)
    ensures
        r == page_bytes(pages, page_size),
{
    match pages {
        Some(n) => Some(numbers::mul_capped(n, page_size)),
        None => None,
    }
}

/// Whether one device is behind two readings, and none of its counters went back.
pub open spec fn same_disk(before: DiskCounters, now: DiskCounters) -> bool {
    before.major == now.major && before.minor == now.minor && now.reads >= before.reads
        && now.sectors_read >= before.sectors_read && now.read_ms >= before.read_ms && now.writes
        >= before.writes && now.sectors_written >= before.sectors_written && now.write_ms
        >= before.write_ms && now.busy_ms >= before.busy_ms && now.weighted_ms
        >= before.weighted_ms
}

/// What a disk did. A sector is 512 bytes here, whatever the device's own are.
pub open spec fn disk_delta(
    valid: bool,
    before: Option<DiskCounters>,
    now: Option<DiskCounters>,
) -> Option<DiskDelta> {
    match (before, now) {
        (Some(b), Some(n)) => if valid && same_disk(b, n) {
            Some(
                DiskDelta {
                    read_bytes: numbers::capped((n.sectors_read - b.sectors_read) * 512),
                    write_bytes: numbers::capped((n.sectors_written - b.sectors_written) * 512),
                    reads: (n.reads - b.reads) as u64,
                    writes: (n.writes - b.writes) as u64,
                    read_ms: (n.read_ms - b.read_ms) as u64,
                    write_ms: (n.write_ms - b.write_ms) as u64,
                    in_flight: n.in_flight,
                    busy_ms: (n.busy_ms - b.busy_ms) as u64,
                    weighted_ms: (n.weighted_ms - b.weighted_ms) as u64,
                },
            )
        } else {
            None
        },
        _ => None,
    }
}

fn disk_between(valid: bool, before: Option<DiskCounters>, now: Option<DiskCounters>) -> (r: Option<
    DiskDelta,
>)
    ensures
        r == disk_delta(valid, before, now),
{
    match (before, now) {
        (Some(b), Some(n)) => {
            if valid && b.major == n.major && b.minor == n.minor && n.reads >= b.reads
                && n.sectors_read >= b.sectors_read && n.read_ms >= b.read_ms && n.writes
                >= b.writes && n.sectors_written >= b.sectors_written && n.write_ms >= b.write_ms
                && n.busy_ms >= b.busy_ms && n.weighted_ms >= b.weighted_ms {
                Some(
                    DiskDelta {
                        read_bytes: numbers::mul_capped(n.sectors_read - b.sectors_read, 512),
                        write_bytes: numbers::mul_capped(
                            n.sectors_written - b.sectors_written,
                            512,
                        ),
                        reads: n.reads - b.reads,
                        writes: n.writes - b.writes,
                        read_ms: n.read_ms - b.read_ms,
                        write_ms: n.write_ms - b.write_ms,
                        in_flight: n.in_flight,
                        busy_ms: n.busy_ms - b.busy_ms,
                        weighted_ms: n.weighted_ms - b.weighted_ms,
                    },
                )
            } else {
                None
            }
        },
        _ => None,
    }
}

/// The network over an interval: levels as they are now, counters as they grew.
pub open spec fn network_detail(
    valid: bool,
    before: NetworkRaw,
    now: NetworkRaw,
    page_size: u64,
) -> Option<NetworkDetailSample> {
    if now == NetworkRaw::nothing() {
        None
    } else {
        Some(
            NetworkDetailSample {
                tcp_curr_estab: now.tcp_curr_estab,
                tcp_inuse: now.tcp_inuse,
                tcp_time_wait: now.tcp_time_wait,
                tcp_orphan: now.tcp_orphan,
                tcp_alloc: now.tcp_alloc,
                tcp_mem_bytes: page_bytes(now.tcp_mem_pages, page_size),
                udp_inuse: now.udp_inuse,
                udp_mem_bytes: page_bytes(now.udp_mem_pages, page_size),
                ephemeral_port_capacity: None,
                tcp_ephemeral_inuse_v4: None,
                tcp_ephemeral_inuse_v6: None,
                tcp_ephemeral_time_wait_v4: None,
                tcp_ephemeral_time_wait_v6: None,
                tcp_ephemeral_top_target_v4: None,
                tcp_ephemeral_top_target_v6: None,
                tcp_active_opens: growth_of(valid, now.tcp_active_opens, before.tcp_active_opens),
                tcp_passive_opens: growth_of(valid, now.tcp_passive_opens, before.tcp_passive_opens),
                tcp_attempt_fails: growth_of(valid, now.tcp_attempt_fails, before.tcp_attempt_fails),
                tcp_estab_resets: growth_of(valid, now.tcp_estab_resets, before.tcp_estab_resets),
                tcp_retrans_segs: growth_of(valid, now.tcp_retrans_segs, before.tcp_retrans_segs),
                tcp_syn_retrans: growth_of(valid, now.tcp_syn_retrans, before.tcp_syn_retrans),
                tcp_in_errors: growth_of(valid, now.tcp_in_errors, before.tcp_in_errors),
                tcp_out_resets: growth_of(valid, now.tcp_out_resets, before.tcp_out_resets),
                tcp_timeouts: growth_of(valid, now.tcp_timeouts, before.tcp_timeouts),
                tcp_listen_overflows: growth_of(valid, now.tcp_listen_overflows, before.tcp_listen_overflows),
                tcp_listen_drops: growth_of(valid, now.tcp_listen_drops, before.tcp_listen_drops),
                udp_in_errors: growth_of(valid, now.udp_in_errors, before.udp_in_errors),
                udp_no_ports: growth_of(valid, now.udp_no_ports, before.udp_no_ports),
                udp_rcvbuf_errors: growth_of(valid, now.udp_rcvbuf_errors, before.udp_rcvbuf_errors),
                udp_sndbuf_errors: growth_of(valid, now.udp_sndbuf_errors, before.udp_sndbuf_errors),
            },
        )
    }
}

fn network_between(valid: bool, before: NetworkRaw, now: NetworkRaw, page_size: u64) -> (r: Option<
    NetworkDetailSample,
>)
    ensures
        r == network_detail(valid, before, now, page_size),
{
    if !now.has_any() {
        return None;
    }
    Some(
        NetworkDetailSample {
            tcp_curr_estab: now.tcp_curr_estab,
            tcp_inuse: now.tcp_inuse,
            tcp_time_wait: now.tcp_time_wait,
            tcp_orphan: now.tcp_orphan,
            tcp_alloc: now.tcp_alloc,
            tcp_mem_bytes: bytes_of_pages(now.tcp_mem_pages, page_size),
            udp_inuse: now.udp_inuse,
            udp_mem_bytes: bytes_of_pages(now.udp_mem_pages, page_size),
            ephemeral_port_capacity: None,
            tcp_ephemeral_inuse_v4: None,
            tcp_ephemeral_inuse_v6: None,
            tcp_ephemeral_time_wait_v4: None,
            tcp_ephemeral_time_wait_v6: None,
            tcp_ephemeral_top_target_v4: None,
            tcp_ephemeral_top_target_v6: None,
            tcp_active_opens: grown_of(valid, now.tcp_active_opens, before.tcp_active_opens),
            tcp_passive_opens: grown_of(valid, now.tcp_passive_opens, before.tcp_passive_opens),
            tcp_attempt_fails: grown_of(valid, now.tcp_attempt_fails, before.tcp_attempt_fails),
            tcp_estab_resets: grown_of(valid, now.tcp_estab_resets, before.tcp_estab_resets),
            tcp_retrans_segs: grown_of(valid, now.tcp_retrans_segs, before.tcp_retrans_segs),
            tcp_syn_retrans: grown_of(valid, now.tcp_syn_retrans, before.tcp_syn_retrans),
            tcp_in_errors: grown_of(valid, now.tcp_in_errors, before.tcp_in_errors),
            tcp_out_resets: grown_of(valid, now.tcp_out_resets, before.tcp_out_resets),
            tcp_timeouts: grown_of(valid, now.tcp_timeouts, before.tcp_timeouts),
            tcp_listen_overflows: grown_of(valid, now.tcp_listen_overflows, before.tcp_listen_overflows),
            tcp_listen_drops: grown_of(valid, now.tcp_listen_drops, before.tcp_listen_drops),
            udp_in_errors: grown_of(valid, now.udp_in_errors, before.udp_in_errors),
            udp_no_ports: grown_of(valid, now.udp_no_ports, before.udp_no_ports),
            udp_rcvbuf_errors: grown_of(valid, now.udp_rcvbuf_errors, before.udp_rcvbuf_errors),
            udp_sndbuf_errors: grown_of(valid, now.udp_sndbuf_errors, before.udp_sndbuf_errors),
        },
    )
}

/// The share of the processors that a process had: none where the readings cannot be
/// compared or it started anew.
pub open spec fn process_share(
    valid: bool,
    before: Map<Seq<char>, u64>,
    name: Seq<char>,
    ticks: u64,
    total: u64,
) -> Share {
    let earlier = if before.dom().contains(name) {
        before[name]
    } else {
        0
    };
    if !valid || ticks < earlier || total == 0 {
        Share { part: 0, whole: 1 }
    } else {
        Share { part: (ticks - earlier) as u64, whole: total }
    }
}

/// Names with shares, by their characters.
pub open spec fn share_views(list: Seq<(String, Share)>) -> Seq<(Seq<char>, Share)> {
    Seq::new(list.len(), |i: int| (list[i].0@, list[i].1))
}

/// The share of each process that was read now.
pub open spec fn process_shares(
    valid: bool,
    before: Map<Seq<char>, u64>,
    now: Seq<(String, u64)>,
    total: u64,
) -> Seq<(Seq<char>, Share)> {
    Seq::new(
        now.len(),
        |i: int| (now[i].0@, process_share(valid, before, now[i].0@, now[i].1, total)),
    )
}

fn share_processes(valid: bool, before: &TextMap<u64>, now: &TextMap<u64>, total: u64) -> (r: Vec<
    (String, Share),
>)
    requires
        before.wf(),
    ensures
        share_views(r@) == process_shares(valid, before@, now.entries@, total),
{
    let mut out: Vec<(String, Share)> = Vec::new();
    let mut i: usize = 0;
    while i < now.entries.len()
        invariant
            i <= now.entries.len(),
            before.wf(),
            out@.len() == i,
            forall|j: int|
                0 <= j < i ==> (#[trigger] out@[j]).0@ == now.entries@[j].0@ && out@[j].1
                    == process_share(
                    valid,
                    before@,
                    now.entries@[j].0@,
                    now.entries@[j].1,
                    total,
                ),
        decreases now.entries.len() - i,
    {
        let name = now.entries[i].0.as_str();
        let ticks: u64 = now.entries[i].1;
        let earlier: u64 = match before.get(name) {
            Some(v) => *v,
            None => 0,
        };
        let share = if !valid || ticks < earlier || total == 0 {
            Share { part: 0, whole: 1 }
        } else {
            Share { part: ticks - earlier, whole: total }
        };
        out.push((name.to_owned(), share));
        i = i + 1;
    }
    assert(share_views(out@) == process_shares(valid, before@, now.entries@, total));
    out
}

/// Pages pinned for the kernel's users, in bytes.
pub open spec fn pinned_bytes(vm: VmCounters, page_size: u64) -> Option<u64> {
    match (vm.foll_pin_acquired, vm.foll_pin_released) {
        (Some(acquired), Some(released)) => Some(
            numbers::capped(procfs::less(acquired, released) * page_size),
        ),
        _ => None,
    }
}

/// Whether `sub` says what changed between two readings.
pub open spec fn is_difference(before: Raw, now: Raw, page_size: u64, sub: Sub) -> bool {
    let valid = comparable(before, now);
    let secs = elapsed(before, now);
    let steady = valid && !regressed(before.cpu, now.cpu);
    &&& sub.window_start_unix_secs == before.at
    &&& sub.window_end_unix_secs == now.at
    &&& sub.elapsed_secs == secs
    &&& sub.cpu == cpu_shares(valid, before.cpu, now.cpu)
    &&& sub.cpu_cores@ == core_samples(valid, before.cpu_cores@, now.cpu_cores.entries@)
    &&& sub.cpu_pressure_some == stalled(
        valid,
        secs,
        now.cpu_pressure.some_usec,
        before.cpu_pressure.some_usec,
    )
    &&& sub.io_pressure_some == stalled(
        valid,
        secs,
        now.io_pressure.some_usec,
        before.io_pressure.some_usec,
    )
    &&& sub.io_pressure_full == stalled(
        valid,
        secs,
        now.io_pressure.full_usec,
        before.io_pressure.full_usec,
    )
    &&& sub.context_switches_per_sec == (match growth_of(
        valid,
        now.context_switches,
        before.context_switches,
    ) {
        Some(v) => Some(per_second(v, secs)),
        None => None,
    })
    &&& sub.net_rx_softirqs_per_sec == (match (now.softirqs, before.softirqs) {
        (Some(n), Some(b)) => Some(per_second(growth(valid, n.net_rx, b.net_rx), secs)),
        _ => None,
    })
    &&& sub.net_tx_softirqs_per_sec == (match (now.softirqs, before.softirqs) {
        (Some(n), Some(b)) => Some(per_second(growth(valid, n.net_tx, b.net_tx), secs)),
        _ => None,
    })
    &&& sub.cpu_throttled_usec == growth_of(
        valid,
        now.cpu_throttled_usec,
        before.cpu_throttled_usec,
    )
    &&& sub.nic_rx_bps == bits_per_second(
        growth(valid, now.net.rx_bytes, before.net.rx_bytes),
        secs,
    )
    &&& sub.nic_tx_bps == bits_per_second(
        growth(valid, now.net.tx_bytes, before.net.tx_bytes),
        secs,
    )
    &&& sub.nic_rx_drop == growth(valid, now.net.rx_drop, before.net.rx_drop)
    &&& sub.nic_tx_drop == growth(valid, now.net.tx_drop, before.net.tx_drop)
    &&& sub.nic_err == growth(valid, now.net.errs, before.net.errs)
    &&& sub.network_detail == network_detail(valid, before.network, now.network, page_size)
    &&& sub.oom_kills == growth(valid, now.oom_kills, before.oom_kills)
    &&& sub.memory == now.memory
    &&& sub.memory_pressure_some == stalled(
        valid,
        secs,
        now.memory_pressure.some_usec,
        before.memory_pressure.some_usec,
    )
    &&& sub.memory_pressure_full == stalled(
        valid,
        secs,
        now.memory_pressure.full_usec,
        before.memory_pressure.full_usec,
    )
    &&& sub.swap_in_bytes == numbers::capped(
        growth(valid, now.vm.swap_in_pages, before.vm.swap_in_pages) * page_size,
    )
    &&& sub.swap_out_bytes == numbers::capped(
        growth(valid, now.vm.swap_out_pages, before.vm.swap_out_pages) * page_size,
    )
    &&& sub.major_faults == growth(valid, now.vm.major_faults, before.vm.major_faults)
    &&& sub.direct_reclaim_pages == growth(
        valid,
        now.vm.direct_reclaim_pages,
        before.vm.direct_reclaim_pages,
    )
    &&& sub.gup_pinned_bytes == pinned_bytes(now.vm, page_size)
    &&& sub.disk == disk_delta(valid, before.disk, now.disk)
    &&& share_views(sub.proc_cpu@) == process_shares(
        steady,
        before.proc_cpu@,
        now.proc_cpu.entries@,
        procfs::less(now.cpu.total, before.cpu.total),
    )
    &&& sub.gap == (!steady || core_regressed(before.cpu_cores@, now.cpu_cores.entries@) || secs
        > SUB_INTERVAL_SECS + SUB_INTERVAL_SECS / 2)
}

/// What changed between two readings. Where the machine restarted or the clock went
/// back nothing is counted, and a gap is flagged; so it is where processor times
/// went back or the second reading came late.
pub fn difference(before: &Raw, now: &Raw, page_size: u64) -> (r: Sub)
    requires
        before.wf(),
        now.wf(),
    ensures
        r.wf(),
        is_difference(*before, *now, page_size, r),
        before.btime == now.btime && before.at < now.at && time_passed(before.cpu, now.cpu) ==> {
            &&& before.cpu.user + r.cpu.user == now.cpu.user
            &&& before.cpu.system + r.cpu.system == now.cpu.system
            &&& before.cpu.softirq + r.cpu.softirq == now.cpu.softirq
            &&& before.cpu.iowait + r.cpu.iowait == now.cpu.iowait
            &&& before.cpu.steal + r.cpu.steal == now.cpu.steal
            &&& before.cpu.total + r.cpu.total == now.cpu.total
        },
{
    let valid = before.btime == now.btime && now.at > before.at;
    let secs: u64 = if now.at > before.at {
        now.at - before.at
    } else {
        1
    };
    let steady = valid && !cpu_times_regressed(before.cpu, now.cpu);
    let (cpu_cores, core_back) = sample_cores(valid, &before.cpu_cores, &now.cpu_cores);
    let (rx_softirqs, tx_softirqs) = match (now.softirqs, before.softirqs) {
        (Some(n), Some(b)) => (
            Some(grown(valid, n.net_rx, b.net_rx) / secs),
            Some(grown(valid, n.net_tx, b.net_tx) / secs),
        ),
        _ => (None, None),
    };
    let gup_pinned_bytes = match (now.vm.foll_pin_acquired, now.vm.foll_pin_released) {
        (Some(acquired), Some(released)) => Some(
            numbers::mul_capped(acquired.saturating_sub(released), page_size),
        ),
        _ => None,
    };
    Sub {
        window_start_unix_secs: before.at,
        window_end_unix_secs: now.at,
        elapsed_secs: secs,
        cpu: shares_between(valid, before.cpu, now.cpu),
        cpu_cores,
        cpu_pressure_some: stall(
            valid,
            secs,
            now.cpu_pressure.some_usec,
            before.cpu_pressure.some_usec,
        ),
        io_pressure_some: stall(
            valid,
            secs,
            now.io_pressure.some_usec,
            before.io_pressure.some_usec,
        ),
        io_pressure_full: stall(
            valid,
            secs,
            now.io_pressure.full_usec,
            before.io_pressure.full_usec,
        ),
        context_switches_per_sec: optional_rate(
            grown_of(valid, now.context_switches, before.context_switches),
            secs,
        ),
        net_rx_softirqs_per_sec: rx_softirqs,
        net_tx_softirqs_per_sec: tx_softirqs,
        cpu_throttled_usec: grown_of(valid, now.cpu_throttled_usec, before.cpu_throttled_usec),
        nic_rx_bps: bits_rate(grown(valid, now.net.rx_bytes, before.net.rx_bytes), secs),
        nic_tx_bps: bits_rate(grown(valid, now.net.tx_bytes, before.net.tx_bytes), secs),
        nic_rx_drop: grown(valid, now.net.rx_drop, before.net.rx_drop),
        nic_tx_drop: grown(valid, now.net.tx_drop, before.net.tx_drop),
        nic_err: grown(valid, now.net.errs, before.net.errs),
        network_detail: network_between(valid, before.network, now.network, page_size),
        oom_kills: grown(valid, now.oom_kills, before.oom_kills),
        memory: now.memory,
        memory_pressure_some: stall(
            valid,
            secs,
            now.memory_pressure.some_usec,
            before.memory_pressure.some_usec,
        ),
        memory_pressure_full: stall(
            valid,
            secs,
            now.memory_pressure.full_usec,
            before.memory_pressure.full_usec,
        ),
        swap_in_bytes: numbers::mul_capped(
            grown(valid, now.vm.swap_in_pages, before.vm.swap_in_pages),
            page_size,
        ),
        swap_out_bytes: numbers::mul_capped(
            grown(valid, now.vm.swap_out_pages, before.vm.swap_out_pages),
            page_size,
        ),
        major_faults: grown(valid, now.vm.major_faults, before.vm.major_faults),
        direct_reclaim_pages: grown(
            valid,
            now.vm.direct_reclaim_pages,
            before.vm.direct_reclaim_pages,
        ),
        gup_pinned_bytes,
        disk: disk_between(valid, before.disk, now.disk),
        proc_cpu: share_processes(
            steady,
            &before.proc_cpu,
            &now.proc_cpu,
            now.cpu.total.saturating_sub(before.cpu.total),
        ),
        gap: !steady || core_back || secs > SUB_INTERVAL_SECS + SUB_INTERVAL_SECS / 2,
    }
}

/// Whether an earlier count and what was counted since make the later count; nothing was
/// counted where the readings do not follow each other or the count went back.
pub open spec fn adds_up(forward: bool, before: u64, counted: u64, now: u64) -> bool {
    if forward && before <= now {
        before + counted == now
    } else {
        counted == 0
    }
}

/// The same of a count that may be missing: it is told exactly where both readings have
/// it.
pub open spec fn both_add_up(
    forward: bool,
    before: Option<u64>,
    counted: Option<u64>,
    now: Option<u64>,
) -> bool {
    match (before, now) {
        (Some(b), Some(n)) => counted matches Some(c) && adds_up(forward, b, c, n),
        _ => counted is None,
    }
}

/// Whether a count that goes on at a rate for some seconds comes to the later count, up
/// to less than one more each second.
pub open spec fn keeps_pace(forward: bool, before: int, rate: u64, secs: u64, now: int) -> bool {
    if forward && before <= now {
        before + rate * secs <= now < before + (rate + 1) * secs
    } else {
        rate == 0
    }
}

/// Whether the times of two readings can be told apart: none went back, and some passed.
pub open spec fn time_passed(before: CpuTimes, now: CpuTimes) -> bool {
    &&& before.user <= now.user
    &&& before.system <= now.system
    &&& before.softirq <= now.softirq
    &&& before.iowait <= now.iowait
    &&& before.steal <= now.steal
    &&& before.total < now.total
}

/// Whether one class of a core's time adds up, where no class is told as more than the
/// whole.
pub open spec fn class_adds_up(before: u64, share: u64, now: u64, whole: u64) -> bool {
    if now - before <= whole {
        before + share == now
    } else {
        share == whole
    }
}

/// Of readings that follow each other, each class of processor time in the difference,
/// added to the same class of the earlier reading, is that class of the later one. Where
/// some class went back, or no time passed, no class has a share.
pub proof fn lemma_processor_time_adds_up(before: Raw, now: Raw, page_size: u64, sub: Sub)
    requires
        is_difference(before, now, page_size, sub),
    ensures
        ({
            let forward = before.btime == now.btime && before.at < now.at;
            if forward && time_passed(before.cpu, now.cpu) {
                &&& before.cpu.user + sub.cpu.user == now.cpu.user
                &&& before.cpu.system + sub.cpu.system == now.cpu.system
                &&& before.cpu.softirq + sub.cpu.softirq == now.cpu.softirq
                &&& before.cpu.iowait + sub.cpu.iowait == now.cpu.iowait
                &&& before.cpu.steal + sub.cpu.steal == now.cpu.steal
                &&& before.cpu.total + sub.cpu.total == now.cpu.total
            } else {
                &&& sub.cpu.user == 0
                &&& sub.cpu.system == 0
                &&& sub.cpu.softirq == 0
                &&& sub.cpu.iowait == 0
                &&& sub.cpu.steal == 0
                &&& sub.cpu.total == 1
            }
        }),
{
}

proof fn lemma_sampled_core(
    valid: bool,
    before: Map<u32, CpuTimes>,
    now: Seq<(u32, CpuTimes)>,
    i: int,
) -> (k: int)
    requires
        0 <= i < core_samples(valid, before, now).len(),
    ensures
        0 <= k < now.len(),
        core_samples(valid, before, now)[i].cpu == now[k].0,
        before.dom().contains(now[k].0),
        !regressed(before[now[k].0], now[k].1),
        core_samples(valid, before, now)[i].shares == bounded(
            cpu_shares(valid, before[now[k].0], now[k].1),
        ),
    decreases now.len(),
{
    let front = now.drop_last();
    if i < core_samples(valid, before, front).len() {
        lemma_sampled_core(valid, before, front, i)
    } else {
        now.len() - 1
    }
}

proof fn lemma_core_is_sampled(
    valid: bool,
    before: Map<u32, CpuTimes>,
    now: Seq<(u32, CpuTimes)>,
    k: int,
) -> (i: int)
    requires
        0 <= k < now.len(),
        before.dom().contains(now[k].0),
        !regressed(before[now[k].0], now[k].1),
    ensures
        0 <= i < core_samples(valid, before, now).len(),
        core_samples(valid, before, now)[i].cpu == now[k].0,
    decreases now.len(),
{
    let front = now.drop_last();
    if k < front.len() {
        lemma_core_is_sampled(valid, before, front, k)
    } else {
        core_samples(valid, before, now).len() - 1
    }
}

/// What is told of cores: each core that both readings have and none of whose times went
/// back is told of, and no other. Of readings that follow each other, each class of its
/// time in the difference, added to the same class of the earlier reading, is that class of
/// the later one, but that no class is told as more than the whole.
pub proof fn lemma_core_time_adds_up(before: Raw, now: Raw, page_size: u64, sub: Sub)
    requires
        before.wf(),
        now.wf(),
        is_difference(before, now, page_size, sub),
    ensures
        forall|i: int|
            0 <= i < sub.cpu_cores@.len() ==> ({
                let cpu = (#[trigger] sub.cpu_cores@[i]).cpu;
                let share = sub.cpu_cores@[i].shares;
                let b = before.cpu_cores@[cpu];
                let n = now.cpu_cores@[cpu];
                &&& before.cpu_cores@.dom().contains(cpu) && now.cpu_cores@.dom().contains(cpu)
                &&& b.user <= n.user && b.system <= n.system && b.softirq <= n.softirq && b.iowait
                    <= n.iowait && b.steal <= n.steal && b.total <= n.total
                &&& before.btime == now.btime && before.at < now.at && b.total < n.total ==> {
                    &&& b.total + share.total == n.total
                    &&& class_adds_up(b.user, share.user, n.user, share.total)
                    &&& class_adds_up(b.system, share.system, n.system, share.total)
                    &&& class_adds_up(b.softirq, share.softirq, n.softirq, share.total)
                    &&& class_adds_up(b.iowait, share.iowait, n.iowait, share.total)
                    &&& class_adds_up(b.steal, share.steal, n.steal, share.total)
                }
                &&& before.btime != now.btime || now.at <= before.at || b.total == n.total ==> {
                    &&& share.user == 0 && share.system == 0 && share.softirq == 0
                    &&& share.iowait == 0 && share.steal == 0
                }
            }),
        forall|cpu: u32|
            before.cpu_cores@.dom().contains(cpu) && #[trigger] now.cpu_cores@.dom().contains(cpu)
                && ({
                let b = before.cpu_cores@[cpu];
                let n = now.cpu_cores@[cpu];
                b.user <= n.user && b.system <= n.system && b.softirq <= n.softirq && b.iowait
                    <= n.iowait && b.steal <= n.steal && b.total <= n.total
            }) ==> exists|i: int|
                0 <= i < sub.cpu_cores@.len() && (#[trigger] sub.cpu_cores@[i]).cpu == cpu,
{
    let valid = comparable(before, now);
    let entries = now.cpu_cores.entries@;
    procfs::lemma_by_core(entries);
    assert forall|i: int| 0 <= i < sub.cpu_cores@.len() implies ({
        let cpu = (#[trigger] sub.cpu_cores@[i]).cpu;
        let share = sub.cpu_cores@[i].shares;
        let b = before.cpu_cores@[cpu];
        let n = now.cpu_cores@[cpu];
        &&& before.cpu_cores@.dom().contains(cpu) && now.cpu_cores@.dom().contains(cpu)
        &&& !regressed(b, n)
        &&& share == bounded(cpu_shares(valid, b, n))
    }) by {
        let k = lemma_sampled_core(valid, before.cpu_cores@, entries, i);
        assert(now.cpu_cores@[entries[k].0] == entries[k].1);
    }
    assert forall|cpu: u32|
        before.cpu_cores@.dom().contains(cpu) && #[trigger] now.cpu_cores@.dom().contains(cpu)
            && !regressed(before.cpu_cores@[cpu], now.cpu_cores@[cpu]) implies exists|i: int|
        0 <= i < sub.cpu_cores@.len() && (#[trigger] sub.cpu_cores@[i]).cpu == cpu by {
        assert(procfs::has_core(entries, cpu));
        let k = choose|k: int| 0 <= k < entries.len() && (#[trigger] entries[k]).0 == cpu;
        assert(now.cpu_cores@[entries[k].0] == entries[k].1);
        let i = lemma_core_is_sampled(valid, before.cpu_cores@, entries, k);
        assert(sub.cpu_cores@[i].cpu == cpu);
    }
}

/// Events of the machine add up from reading to reading: what was dropped, what failed,
/// what was killed, what was throttled, what was read back or given back.
pub proof fn lemma_events_add_up(before: Raw, now: Raw, page_size: u64, sub: Sub)
    requires
        is_difference(before, now, page_size, sub),
    ensures
        ({
            let forward = before.btime == now.btime && before.at < now.at;
            &&& sub.window_start_unix_secs == before.at && sub.window_end_unix_secs == now.at
            &&& before.at < now.at ==> before.at + sub.elapsed_secs == now.at
            &&& now.at <= before.at ==> sub.elapsed_secs == 1
            &&& adds_up(forward, before.net.rx_drop, sub.nic_rx_drop, now.net.rx_drop)
            &&& adds_up(forward, before.net.tx_drop, sub.nic_tx_drop, now.net.tx_drop)
            &&& adds_up(forward, before.net.errs, sub.nic_err, now.net.errs)
            &&& adds_up(forward, before.oom_kills, sub.oom_kills, now.oom_kills)
            &&& adds_up(forward, before.vm.major_faults, sub.major_faults, now.vm.major_faults)
            &&& adds_up(
                forward,
                before.vm.direct_reclaim_pages,
                sub.direct_reclaim_pages,
                now.vm.direct_reclaim_pages,
            )
            &&& both_add_up(
                forward,
                before.cpu_throttled_usec,
                sub.cpu_throttled_usec,
                now.cpu_throttled_usec,
            )
            &&& sub.memory == now.memory
        }),
{
}

/// Events of the network add up from reading to reading, and what is a level is the later
/// reading's.
pub proof fn lemma_network_events_add_up(before: Raw, now: Raw, page_size: u64, sub: Sub)
    requires
        is_difference(before, now, page_size, sub),
    ensures
        ({
            let forward = before.btime == now.btime && before.at < now.at;
            let b = before.network;
            let n = now.network;
            match sub.network_detail {
                None => n == NetworkRaw::nothing(),
                Some(d) => {
                    &&& n != NetworkRaw::nothing()
                    &&& d.tcp_curr_estab == n.tcp_curr_estab
                    &&& d.tcp_inuse == n.tcp_inuse
                    &&& d.tcp_time_wait == n.tcp_time_wait
                    &&& d.tcp_orphan == n.tcp_orphan
                    &&& d.tcp_alloc == n.tcp_alloc
                    &&& d.udp_inuse == n.udp_inuse
                    &&& both_add_up(forward, b.tcp_active_opens, d.tcp_active_opens, n.tcp_active_opens)
                    &&& both_add_up(forward, b.tcp_passive_opens, d.tcp_passive_opens, n.tcp_passive_opens)
                    &&& both_add_up(forward, b.tcp_attempt_fails, d.tcp_attempt_fails, n.tcp_attempt_fails)
                    &&& both_add_up(forward, b.tcp_estab_resets, d.tcp_estab_resets, n.tcp_estab_resets)
                    &&& both_add_up(forward, b.tcp_retrans_segs, d.tcp_retrans_segs, n.tcp_retrans_segs)
                    &&& both_add_up(forward, b.tcp_syn_retrans, d.tcp_syn_retrans, n.tcp_syn_retrans)
                    &&& both_add_up(forward, b.tcp_in_errors, d.tcp_in_errors, n.tcp_in_errors)
                    &&& both_add_up(forward, b.tcp_out_resets, d.tcp_out_resets, n.tcp_out_resets)
                    &&& both_add_up(forward, b.tcp_timeouts, d.tcp_timeouts, n.tcp_timeouts)
                    &&& both_add_up(forward, b.tcp_listen_overflows, d.tcp_listen_overflows, n.tcp_listen_overflows)
                    &&& both_add_up(forward, b.tcp_listen_drops, d.tcp_listen_drops, n.tcp_listen_drops)
                    &&& both_add_up(forward, b.udp_in_errors, d.udp_in_errors, n.udp_in_errors)
                    &&& both_add_up(forward, b.udp_no_ports, d.udp_no_ports, n.udp_no_ports)
                    &&& both_add_up(forward, b.udp_rcvbuf_errors, d.udp_rcvbuf_errors, n.udp_rcvbuf_errors)
                    &&& both_add_up(forward, b.udp_sndbuf_errors, d.udp_sndbuf_errors, n.udp_sndbuf_errors)
                    &&& d.tcp_mem_bytes == page_bytes(n.tcp_mem_pages, page_size)
                    &&& d.udp_mem_bytes == page_bytes(n.udp_mem_pages, page_size)
                },
            }
        }),
{
}

/// What a disk did adds up from reading to reading, where both are of one device and none
/// of its counts went back; a sector is 512 bytes. Anything else is not told.
pub proof fn lemma_disk_work_adds_up(before: Raw, now: Raw, page_size: u64, sub: Sub)
    requires
        is_difference(before, now, page_size, sub),
    ensures
        match (before.disk, now.disk) {
            (Some(b), Some(n)) => {
                let one = before.btime == now.btime && before.at < now.at && b.major == n.major
                    && b.minor == n.minor && b.reads <= n.reads && b.writes <= n.writes
                    && b.sectors_read <= n.sectors_read && b.sectors_written <= n.sectors_written
                    && b.read_ms <= n.read_ms && b.write_ms <= n.write_ms && b.busy_ms <= n.busy_ms
                    && b.weighted_ms <= n.weighted_ms;
                match sub.disk {
                    None => !one,
                    Some(d) => {
                        &&& one
                        &&& b.reads + d.reads == n.reads
                        &&& b.writes + d.writes == n.writes
                        &&& b.read_ms + d.read_ms == n.read_ms
                        &&& b.write_ms + d.write_ms == n.write_ms
                        &&& b.busy_ms + d.busy_ms == n.busy_ms
                        &&& b.weighted_ms + d.weighted_ms == n.weighted_ms
                        &&& d.in_flight == n.in_flight
                        &&& b.sectors_read * 512 + d.read_bytes == n.sectors_read * 512
                            || d.read_bytes == u64::MAX
                        &&& b.sectors_written * 512 + d.write_bytes == n.sectors_written * 512
                            || d.write_bytes == u64::MAX
                    },
                }
            },
            _ => sub.disk is None,
        },
{
}

proof fn lemma_rate_keeps_pace(before: int, rate: u64, secs: u64, now: int)
    requires
        secs > 0,
        before <= now,
        rate == (now - before) / (secs as int),
    ensures
        before + rate * secs <= now < before + (rate + 1) * secs,
{
    let d = now - before;
    let s = secs as int;
    let q = rate as int;
    assert(q * s <= d < (q + 1) * s) by (nonlinear_arith)
        requires
            s > 0,
            q == d / s,
    ;
    assert(rate * secs == q * s);
    assert((rate + 1) * secs == (q + 1) * s);
}

/// What is told each second comes, over the seconds that passed, to what was counted: the
/// switches, the interrupts, and the bits of the interface, eight to a byte, where the
/// number can hold them.
pub proof fn lemma_rates_keep_pace(before: Raw, now: Raw, page_size: u64, sub: Sub)
    requires
        is_difference(before, now, page_size, sub),
    ensures
        ({
            let forward = before.btime == now.btime && before.at < now.at;
            let secs = sub.elapsed_secs;
            &&& match (before.context_switches, now.context_switches) {
                (Some(b), Some(n)) => sub.context_switches_per_sec matches Some(rate)
                    && keeps_pace(forward, b as int, rate, secs, n as int),
                _ => sub.context_switches_per_sec is None,
            }
            &&& match (before.softirqs, now.softirqs) {
                (Some(b), Some(n)) => {
                    &&& sub.net_rx_softirqs_per_sec matches Some(rate) && keeps_pace(
                        forward,
                        b.net_rx as int,
                        rate,
                        secs,
                        n.net_rx as int,
                    )
                    &&& sub.net_tx_softirqs_per_sec matches Some(rate) && keeps_pace(
                        forward,
                        b.net_tx as int,
                        rate,
                        secs,
                        n.net_tx as int,
                    )
                },
                _ => sub.net_rx_softirqs_per_sec is None && sub.net_tx_softirqs_per_sec is None,
            }
            &&& keeps_pace(
                forward,
                before.net.rx_bytes * 8,
                sub.nic_rx_bps,
                secs,
                now.net.rx_bytes * 8,
            ) || sub.nic_rx_bps == u64::MAX
            &&& keeps_pace(
                forward,
                before.net.tx_bytes * 8,
                sub.nic_tx_bps,
                secs,
                now.net.tx_bytes * 8,
            ) || sub.nic_tx_bps == u64::MAX
        }),
{
    let secs = sub.elapsed_secs;
    let forward = comparable(before, now);
    assert(0int / secs as int == 0) by (nonlinear_arith)
        requires
            secs > 0,
    ;
    if let (Some(b), Some(n)) = (before.context_switches, now.context_switches) {
        if forward && b <= n {
            lemma_rate_fits((n - b) as u64, secs);
            lemma_rate_keeps_pace(b as int, per_second((n - b) as u64, secs), secs, n as int);
        }
    }
    if let (Some(b), Some(n)) = (before.softirqs, now.softirqs) {
        if forward && b.net_rx <= n.net_rx {
            let d = (n.net_rx - b.net_rx) as u64;
            lemma_rate_fits(d, secs);
            lemma_rate_keeps_pace(b.net_rx as int, per_second(d, secs), secs, n.net_rx as int);
        }
        if forward && b.net_tx <= n.net_tx {
            let d = (n.net_tx - b.net_tx) as u64;
            lemma_rate_fits(d, secs);
            lemma_rate_keeps_pace(b.net_tx as int, per_second(d, secs), secs, n.net_tx as int);
        }
    }
    if forward && before.net.rx_bytes <= now.net.rx_bytes && sub.nic_rx_bps < u64::MAX {
        let (b, n) = (before.net.rx_bytes * 8, now.net.rx_bytes * 8);
        assert((now.net.rx_bytes - before.net.rx_bytes) * 8 == n - b);
        lemma_bits_fit((now.net.rx_bytes - before.net.rx_bytes) as u64, secs);
        lemma_rate_keeps_pace(b, sub.nic_rx_bps, secs, n);
    }
    if forward && before.net.tx_bytes <= now.net.tx_bytes && sub.nic_tx_bps < u64::MAX {
        let (b, n) = (before.net.tx_bytes * 8, now.net.tx_bytes * 8);
        assert((now.net.tx_bytes - before.net.tx_bytes) * 8 == n - b);
        lemma_bits_fit((now.net.tx_bytes - before.net.tx_bytes) as u64, secs);
        lemma_rate_keeps_pace(b, sub.nic_tx_bps, secs, n);
    }
}

proof fn lemma_rate_fits(growth: u64, secs: u64)
    requires
        secs > 0,
    ensures
        0 <= growth as int / secs as int <= growth,
{
    let (g, s) = (growth as int, secs as int);
    assert(0 <= g / s <= g) by (nonlinear_arith)
        requires
            s > 0,
            g >= 0,
    ;
}

proof fn lemma_bits_fit(bytes: u64, secs: u64)
    requires
        secs > 0,
    ensures
        0 <= bytes * 8 / secs as int,
{
    let (g, s) = (bytes * 8, secs as int);
    assert(0 <= g / s) by (nonlinear_arith)
        requires
            s > 0,
            g >= 0,
    ;
}

/// Whether a share of an interval is the time that was stalled in it, out of the whole of
/// it in microseconds, and never more.
pub open spec fn stall_adds_up(
    forward: bool,
    before: Option<u64>,
    share: Option<Share>,
    secs: u64,
    now: Option<u64>,
) -> bool {
    match (before, now) {
        (Some(b), Some(n)) => {
            &&& share matches Some(s)
            &&& s.whole == secs * 1_000_000 || s.whole == u64::MAX
            &&& s.part <= s.whole
            &&& forward && b <= n && n - b <= s.whole ==> b + s.part == n
            &&& forward && n - b > s.whole ==> s.part == s.whole
            &&& !forward || n < b ==> s.part == 0
        },
        _ => share is None,
    }
}

/// Stalled time adds up from reading to reading, each kind of it for itself.
pub proof fn lemma_stalled_time_adds_up(before: Raw, now: Raw, page_size: u64, sub: Sub)
    requires
        is_difference(before, now, page_size, sub),
    ensures
        ({
            let forward = before.btime == now.btime && before.at < now.at;
            let secs = sub.elapsed_secs;
            &&& stall_adds_up(
                forward,
                before.cpu_pressure.some_usec,
                sub.cpu_pressure_some,
                secs,
                now.cpu_pressure.some_usec,
            )
            &&& stall_adds_up(
                forward,
                before.io_pressure.some_usec,
                sub.io_pressure_some,
                secs,
                now.io_pressure.some_usec,
            )
            &&& stall_adds_up(
                forward,
                before.io_pressure.full_usec,
                sub.io_pressure_full,
                secs,
                now.io_pressure.full_usec,
            )
            &&& stall_adds_up(
                forward,
                before.memory_pressure.some_usec,
                sub.memory_pressure_some,
                secs,
                now.memory_pressure.some_usec,
            )
            &&& stall_adds_up(
                forward,
                before.memory_pressure.full_usec,
                sub.memory_pressure_full,
                secs,
                now.memory_pressure.full_usec,
            )
        }),
{
}

/// Memory that was moved, in pages of the size given: what went out and what came in add
/// up each for itself, where the number can hold the bytes; and what is pinned is what was
/// taken and not given back.
pub proof fn lemma_moved_memory_adds_up(before: Raw, now: Raw, page_size: u64, sub: Sub)
    requires
        is_difference(before, now, page_size, sub),
    ensures
        ({
            let forward = before.btime == now.btime && before.at < now.at;
            &&& forward && before.vm.swap_in_pages <= now.vm.swap_in_pages ==> sub.swap_in_bytes
                == (now.vm.swap_in_pages - before.vm.swap_in_pages) * page_size || sub.swap_in_bytes
                == u64::MAX
            &&& forward && before.vm.swap_out_pages <= now.vm.swap_out_pages ==> sub.swap_out_bytes
                == (now.vm.swap_out_pages - before.vm.swap_out_pages) * page_size
                || sub.swap_out_bytes == u64::MAX
            &&& !forward || now.vm.swap_in_pages < before.vm.swap_in_pages ==> sub.swap_in_bytes
                == 0
            &&& !forward || now.vm.swap_out_pages < before.vm.swap_out_pages ==> sub.swap_out_bytes
                == 0
            &&& match (now.vm.foll_pin_acquired, now.vm.foll_pin_released) {
                (Some(taken), Some(given)) => sub.gup_pinned_bytes matches Some(pinned) && (if given
                    <= taken {
                    pinned == (taken - given) * page_size || pinned == u64::MAX
                } else {
                    pinned == 0
                }),
                _ => sub.gup_pinned_bytes is None,
            }
        }),
{
    assert(0 * page_size == 0) by (nonlinear_arith);
    let size = page_size as int;
    assert forall|n: int| n >= 0 implies #[trigger] (n * size) >= 0 by {
        assert(n * size >= 0) by (nonlinear_arith)
            requires
                n >= 0,
                size >= 0,
        ;
    }
}

/// Every process that was read now is told of under its name and in its place. Of
/// readings that follow each other, its time in the difference, added to its earlier time,
/// is its later time, out of the time that passed on all processors; one that started
/// anew has no share.
pub proof fn lemma_process_time_adds_up(before: Raw, now: Raw, page_size: u64, sub: Sub, i: int)
    requires
        is_difference(before, now, page_size, sub),
        0 <= i < now.proc_cpu.entries@.len(),
    ensures
        sub.proc_cpu@.len() == now.proc_cpu.entries@.len(),
        ({
            let name = now.proc_cpu.entries@[i].0@;
            let ticks = now.proc_cpu.entries@[i].1;
            let earlier = if before.proc_cpu@.dom().contains(name) {
                before.proc_cpu@[name]
            } else {
                0
            };
            let share = sub.proc_cpu@[i].1;
            &&& sub.proc_cpu@[i].0@ == name
            &&& if before.btime == now.btime && before.at < now.at && time_passed(
                before.cpu,
                now.cpu,
            ) && earlier <= ticks {
                earlier + share.part == ticks && before.cpu.total + share.whole == now.cpu.total
            } else {
                share.part == 0
            }
        }),
{
    let views = share_views(sub.proc_cpu@);
    assert(views.len() == sub.proc_cpu@.len());
    assert(views[i] == (sub.proc_cpu@[i].0@, sub.proc_cpu@[i].1));
}

/// A difference is flagged exactly where the machine restarted, the clock did not go
/// forward, some processor time went back, or the later reading came more than half an
/// interval late.
pub proof fn lemma_untrusted_difference_is_flagged(before: Raw, now: Raw, page_size: u64, sub: Sub)
    requires
        before.wf(),
        now.wf(),
        is_difference(before, now, page_size, sub),
    ensures
        sub.gap <==> {
            ||| before.btime != now.btime
            ||| now.at <= before.at
            ||| now.cpu.user < before.cpu.user || now.cpu.system < before.cpu.system
            ||| now.cpu.softirq < before.cpu.softirq || now.cpu.iowait < before.cpu.iowait
            ||| now.cpu.steal < before.cpu.steal || now.cpu.total < before.cpu.total
            ||| exists|cpu: u32|
                before.cpu_cores@.dom().contains(cpu) && #[trigger] now.cpu_cores@.dom().contains(
                    cpu,
                ) && ({
                    let b = before.cpu_cores@[cpu];
                    let n = now.cpu_cores@[cpu];
                    n.user < b.user || n.system < b.system || n.softirq < b.softirq || n.iowait
                        < b.iowait || n.steal < b.steal || n.total < b.total
                })
            ||| now.at > before.at + 15
        },
{
    let entries = now.cpu_cores.entries@;
    procfs::lemma_by_core(entries);
    assert forall|cpu: u32|
        before.cpu_cores@.dom().contains(cpu) && #[trigger] now.cpu_cores@.dom().contains(cpu)
            && regressed(before.cpu_cores@[cpu], now.cpu_cores@[cpu]) implies core_regressed(
        before.cpu_cores@,
        entries,
    ) by {
        assert(procfs::has_core(entries, cpu));
        let k = choose|k: int| 0 <= k < entries.len() && (#[trigger] entries[k]).0 == cpu;
        assert(now.cpu_cores@[entries[k].0] == entries[k].1);
    }
    if core_regressed(before.cpu_cores@, entries) {
        let k = choose|k: int|
            0 <= k < entries.len() && before.cpu_cores@.dom().contains((#[trigger] entries[k]).0)
                && regressed(before.cpu_cores@[entries[k].0], entries[k].1);
        assert(now.cpu_cores@.dom().contains(entries[k].0));
    }
}

/// Across a restart or a clock that went back nothing counts as growth, and the
/// interval is flagged.
pub proof fn lemma_incomparable_readings_count_nothing(
    before: Raw,
    now: Raw,
    page_size: u64,
    sub: Sub,
)
    requires
        is_difference(before, now, page_size, sub),
        before.btime != now.btime || now.at <= before.at,
    ensures
        sub.gap,
        sub.cpu == CpuShares::idle(),
        sub.nic_rx_bps == 0,
        sub.nic_tx_bps == 0,
        sub.nic_rx_drop == 0,
        sub.nic_tx_drop == 0,
        sub.nic_err == 0,
        sub.oom_kills == 0,
        sub.swap_in_bytes == 0,
        sub.swap_out_bytes == 0,
        sub.major_faults == 0,
        sub.direct_reclaim_pages == 0,
        sub.disk is None,
        sub.cpu_throttled_usec matches Some(v) ==> v == 0,
        forall|i: int|
            0 <= i < sub.proc_cpu@.len() ==> (#[trigger] sub.proc_cpu@[i]).1.part == 0,
{
    let secs = elapsed(before, now) as int;
    assert(0int / secs == 0) by (nonlinear_arith)
        requires
            secs > 0,
    ;
    assert(0 * page_size == 0) by (nonlinear_arith);
    let views = share_views(sub.proc_cpu@);
    let told = process_shares(
        false,
        before.proc_cpu@,
        now.proc_cpu.entries@,
        procfs::less(now.cpu.total, before.cpu.total),
    );
    assert(views == told);
    assert(views.len() == sub.proc_cpu@.len());
    assert(told.len() == now.proc_cpu.entries@.len());
    assert forall|i: int| 0 <= i < sub.proc_cpu@.len() implies (#[trigger] sub.proc_cpu@[i]).1.part
        == 0 by {
        assert(views[i] == (sub.proc_cpu@[i].0@, sub.proc_cpu@[i].1));
        assert(views[i] == told[i]);
        let (name, ticks) = now.proc_cpu.entries@[i];
        assert(told[i] == (
            name@,
            process_share(
                false,
                before.proc_cpu@,
                name@,
                ticks,
                procfs::less(now.cpu.total, before.cpu.total),
            ),
        ));
    }
}

proof fn lemma_core_shares_bounded(
    valid: bool,
    before: Map<u32, CpuTimes>,
    now: Seq<(u32, CpuTimes)>,
)
    ensures
        forall|i: int|
            0 <= i < core_samples(valid, before, now).len() ==> ({
                let s = (#[trigger] core_samples(valid, before, now)[i]).shares;
                0 < s.total && s.user <= s.total && s.system <= s.total && s.softirq <= s.total
                    && s.iowait <= s.total && s.steal <= s.total
            }),
    decreases now.len(),
{
    if now.len() > 0 {
        let front = core_samples(valid, before, now.drop_last());
        let all = core_samples(valid, before, now);
        lemma_core_shares_bounded(valid, before, now.drop_last());
        assert forall|i: int| 0 <= i < all.len() implies ({
            let s = (#[trigger] all[i]).shares;
            0 < s.total && s.user <= s.total && s.system <= s.total && s.softirq <= s.total
                && s.iowait <= s.total && s.steal <= s.total
        }) by {
            if i < front.len() {
                assert(all[i] == front[i]);
            }
        }
    }
}

/// No core is said to have done more than all of the interval, and every share is of
/// something.
pub proof fn lemma_shares_stay_within_the_whole(before: Raw, now: Raw, page_size: u64, sub: Sub)
    requires
        is_difference(before, now, page_size, sub),
    ensures
        sub.cpu.total > 0,
        forall|i: int|
            0 <= i < sub.cpu_cores@.len() ==> ({
                let s = (#[trigger] sub.cpu_cores@[i]).shares;
                0 < s.total && s.user <= s.total && s.system <= s.total && s.softirq <= s.total
                    && s.iowait <= s.total && s.steal <= s.total
            }),
        sub.cpu_pressure_some matches Some(s) ==> 0 < s.whole && s.part <= s.whole,
        sub.io_pressure_some matches Some(s) ==> 0 < s.whole && s.part <= s.whole,
        sub.io_pressure_full matches Some(s) ==> 0 < s.whole && s.part <= s.whole,
        sub.memory_pressure_some matches Some(s) ==> 0 < s.whole && s.part <= s.whole,
        sub.memory_pressure_full matches Some(s) ==> 0 < s.whole && s.part <= s.whole,
{
    lemma_core_shares_bounded(comparable(before, now), before.cpu_cores@, now.cpu_cores.entries@);
}

/// The reading before, and the changes since the last report.
pub struct LoadWindow {
    pub previous: Option<Raw>,
    pub pending: Vec<Sub>,
}

impl LoadWindow {
    /// Fewer changes are kept than make a report.
    pub open spec fn wf(self) -> bool {
        &&& self.pending@.len() < SUBS_PER_WINDOW
        &&& forall|i: int| 0 <= i < self.pending@.len() ==> (#[trigger] self.pending@[i]).wf()
        &&& self.previous matches Some(raw) ==> raw.wf()
    }

    pub fn new() -> (r: LoadWindow)
        ensures
            r.wf(),
            r.previous is None,
            r.pending@.len() == 0,
    {
        LoadWindow { previous: None, pending: Vec::new() }
    }

    /// Takes a reading. The first one gives nothing to compare with; every one after
    /// it adds a change, and the change that completes a report is handed out with
    /// those before it.
    pub fn tick(&mut self, raw: Raw, page_size: u64) -> (r: Option<Vec<Sub>>)
        requires
            old(self).wf(),
            raw.wf(),
        ensures
            final(self).wf(),
            final(self).previous == Some(raw),
            match old(self).previous {
                None => r is None && final(self).pending@ == old(self).pending@,
                Some(before) => match r {
                    None => final(self).pending@.len() == old(self).pending@.len() + 1
                        && final(self).pending@.drop_last() == old(self).pending@
                        && is_difference(before, raw, page_size, final(self).pending@.last()),
                    Some(subs) => old(self).pending@.len() + 1 == SUBS_PER_WINDOW && subs@.len()
                        == SUBS_PER_WINDOW && subs@.drop_last() == old(self).pending@
                        && is_difference(before, raw, page_size, subs@.last())
                        && final(self).pending@.len() == 0 && forall|i: int|
                        0 <= i < subs@.len() ==> (#[trigger] subs@[i]).wf(),
                },
            },
    {
        let sub = match &self.previous {
            None => None,
            Some(before) => Some(difference(before, &raw, page_size)),
        };
        self.previous = Some(raw);
        match sub {
            None => None,
            Some(sub) => {
                let ghost kept = self.pending@;
                self.pending.push(sub);
                assert(self.pending@.drop_last() == kept);
                if self.pending.len() < SUBS_PER_WINDOW {
                    None
                } else {
                    let mut taken: Vec<Sub> = Vec::new();
                    std::mem::swap(&mut taken, &mut self.pending);
                    Some(taken)
                }
            },
        }
    }
}

} // verus!
