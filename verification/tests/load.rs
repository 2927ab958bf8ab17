use brocade_agent::disks::{decode_mount_field, disk_info, parse_diskstats, parse_mountinfo, DiskCounters, DiskInfo};
use brocade_agent::hostinfo::{
    cpu_model, detect_virt, nic_qdisc, os_pretty_name, parse_cpu_model, platform_name,
    read_cpu_governor, read_cpu_max_frequency_mhz,
};
use brocade_agent::load::{
    difference, CpuShares, LoadWindow, NetworkDetailSample, Raw, Share, Sub, SUBS_PER_WINDOW,
};
use brocade_agent::nettables::{
    ephemeral_port_range, main_interface, network_from_text, parse_mib_group, parse_net, read_ephemeral_port_range,
    NetCounters,
};
use brocade_agent::processes::{
    find_pids, parse_proc_stat, read_fd_limit, read_proc_jiffies, read_rss, read_started_at,
    stat_fields, Entry,
};
use brocade_agent::procfs::{
    cpu_throttled_usec, parse_btime, parse_cpu, parse_cpu_cores, parse_meminfo, parse_pressure,
    parse_run_queue, parse_softirqs, parse_vmstat, CoreTimes, CpuTimes, PressureTotals,
};
use brocade_agent::window::{aggregate, elapsed_total, process_window};

const PAGE: u64 = 4096;

const STAT: &str = "cpu  1000 100 500 8000 50 20 80 0 0 0\n\
                    cpu0 500 50 250 4000 25 10 40 0 0 0\n\
                    btime 1700000000\n\
                    processes 12345\n";

/// A share as a number.
fn value(share: Share) -> f64 {
    share.part as f64 / share.whole as f64
}

fn percent(share: Share) -> f64 {
    value(share) * 100.0
}

fn no_disk() -> DiskInfo {
    disk_info(0, 0, 0, 0, 0)
}

#[test]
fn folds_nice_into_user_and_irq_into_system_but_keeps_softirq_apart() {
    let cpu = parse_cpu(STAT);
    assert_eq!(cpu.user, 1100, "nice belongs to user");
    assert_eq!(cpu.system, 520, "irq belongs to system");
    assert_eq!(
        cpu.softirq, 80,
        "softirq stays on its own — it is the whole point of the split"
    );
    assert_eq!(cpu.total, 9750);
    assert_eq!(cpu.iowait, 50, "iowait stays outside busy CPU");
    let cores = parse_cpu_cores(STAT);
    assert_eq!(cores.len(), 1);
    assert_eq!(cores.get(0).unwrap().user, 550);
}

#[test]
fn meminfo_composition_does_not_count_shmem_twice() {
    let mem = parse_meminfo(
        "MemTotal: 8192 kB\nMemFree: 1024 kB\nMemAvailable: 3072 kB\n\
         Cached: 2048 kB\nShmem: 256 kB\nBuffers: 64 kB\nAnonPages: 3072 kB\n\
         KReclaimable: 512 kB\nSReclaimable: 400 kB\nSUnreclaim: 128 kB\n\
         Unevictable: 32 kB\nMlocked: 16 kB\nDirty: 8 kB\nWriteback: 4 kB\n\
         SwapTotal: 4096 kB\nSwapFree: 3072 kB\nSwapCached: 12 kB\n\
         Zswap: 20 kB\nZswapped: 80 kB\n",
    );
    assert_eq!(mem.file_cache, (2048 - 256) * 1024);
    assert_eq!(mem.shmem, 256 * 1024);
    assert_eq!(
        mem.kernel_reclaimable,
        512 * 1024,
        "KReclaimable wins when present"
    );
    assert_eq!(mem.swap_used, 1024 * 1024);
    assert_eq!(mem.zswap, Some(20 * 1024));
}

#[test]
fn pressure_uses_cumulative_totals_not_rounded_averages() {
    let pressure = parse_pressure(
        "some avg10=0.21 avg60=0.04 avg300=0.01 total=123456\n\
         full avg10=0.00 avg60=0.00 avg300=0.00 total=789\n",
    );
    assert_eq!(pressure.some_usec, Some(123_456));
    assert_eq!(pressure.full_usec, Some(789));
}

#[test]
fn vmstat_keeps_swap_fault_reclaim_and_pin_counters_distinct() {
    let vm = parse_vmstat(
        "oom_kill 2\npswpin 11\npswpout 17\npgmajfault 23\n\
         pgscan_direct_dma 3\npgscan_direct_normal 5\n\
         nr_foll_pin_acquired 100\nnr_foll_pin_released 96\n",
    );
    assert_eq!(vm.oom_kills, 2);
    assert_eq!(vm.swap_in_pages, 11);
    assert_eq!(vm.swap_out_pages, 17);
    assert_eq!(vm.major_faults, 23);
    assert_eq!(vm.direct_reclaim_pages, 8);
    assert_eq!(vm.foll_pin_acquired, Some(100));
    assert_eq!(vm.foll_pin_released, Some(96));
}

#[test]
fn loadavg_carries_all_horizons_and_the_run_queue() {
    let (running, total) = parse_run_queue("0.42 0.38 0.31 2/184 1234\n");
    assert_eq!(running, Some(2));
    assert_eq!(total, Some(184));
}

#[test]
fn network_tables_are_joined_by_name_and_include_ipv6_socket_and_udp_counts() {
    let network = network_from_text(
        "Tcp: ActiveOpens PassiveOpens AttemptFails EstabResets CurrEstab InErrs OutRsts RetransSegs\n\
         Tcp: 100 200 3 4 55 6 7 8\n\
         Udp: NoPorts InErrors RcvbufErrors SndbufErrors\n\
         Udp: 9 10 11 12\n",
        "TcpExt: ListenOverflows ListenDrops TCPTimeouts TCPSynRetrans\n\
         TcpExt: 13 14 15 16\n",
        "Udp6NoPorts 1\nUdp6InErrors 2\nUdp6RcvbufErrors 3\nUdp6SndbufErrors 4\n",
        "TCP: inuse 20 orphan 2 tw 30 alloc 40 mem 50\nUDP: inuse 6 mem 7\n",
        "TCP6: inuse 8\nUDP6: inuse 9\n",
    );

    assert_eq!(network.tcp_curr_estab, Some(55));
    assert_eq!(network.tcp_inuse, Some(28));
    assert_eq!(network.tcp_time_wait, Some(30));
    assert_eq!(network.tcp_mem_pages, Some(50));
    assert_eq!(network.udp_inuse, Some(15));
    assert_eq!(network.tcp_retrans_segs, Some(8));
    assert_eq!(network.tcp_listen_overflows, Some(13));
    assert_eq!(network.tcp_syn_retrans, Some(16));
    assert_eq!(network.udp_no_ports, Some(10));
    assert_eq!(network.udp_in_errors, Some(12));
    assert_eq!(network.udp_rcvbuf_errors, Some(14));
    assert_eq!(network.udp_sndbuf_errors, Some(16));
}

#[test]
fn network_window_keeps_the_last_inventory_and_sums_events() {
    let network = |level: u64, events: u64| NetworkDetailSample {
        tcp_curr_estab: Some(level),
        tcp_inuse: Some(level + 1),
        tcp_time_wait: Some(level + 2),
        tcp_orphan: Some(level + 3),
        tcp_alloc: Some(level + 4),
        tcp_mem_bytes: Some(level + 5),
        udp_inuse: Some(level + 6),
        udp_mem_bytes: Some(level + 7),
        tcp_active_opens: Some(events),
        tcp_passive_opens: Some(events),
        tcp_attempt_fails: Some(events),
        tcp_estab_resets: Some(events),
        tcp_retrans_segs: Some(events),
        tcp_syn_retrans: Some(events),
        tcp_in_errors: Some(events),
        tcp_out_resets: Some(events),
        tcp_timeouts: Some(events),
        tcp_listen_overflows: Some(events),
        tcp_listen_drops: Some(events),
        udp_in_errors: Some(events),
        udp_no_ports: Some(events),
        udp_rcvbuf_errors: Some(events),
        udp_sndbuf_errors: Some(events),
        ..Default::default()
    };
    let sub = |start: u64, level: u64, events: u64| Sub {
        window_start_unix_secs: start,
        window_end_unix_secs: start + 10,
        elapsed_secs: 10,
        network_detail: Some(network(level, events)),
        ..Default::default()
    };
    let sample = aggregate(
        &vec![sub(100, 10, 1), sub(110, 20, 2), sub(120, 30, 3)],
        no_disk(),
    );
    let detail = sample.network_detail.expect("network detail");
    assert_eq!(
        detail.tcp_curr_estab,
        Some(30),
        "inventory is the final level"
    );
    assert_eq!(detail.udp_inuse, Some(36));
    assert_eq!(
        detail.tcp_active_opens,
        Some(6),
        "events add over the window"
    );
    assert_eq!(detail.tcp_retrans_segs, Some(6));
    assert_eq!(detail.udp_rcvbuf_errors, Some(6));
}

#[test]
fn diskstats_are_attributed_by_device_number_not_by_a_name_guess() {
    let text = "   8       0 sda 10 1 200 30 40 2 600 90 3 120 240 0 0 0 0\n\
                8       1 sda1 7 0 100 20 30 0 400 80 2 100 180 0 0 0 0\n";
    let disk = parse_diskstats(text, 8, 1).unwrap();
    assert_eq!(disk.reads, 7);
    assert_eq!(disk.sectors_read, 100);
    assert_eq!(disk.writes, 30);
    assert_eq!(disk.sectors_written, 400);
    assert_eq!(disk.in_flight, 2);
    assert_eq!(disk.weighted_ms, 180);
    assert!(parse_diskstats(text, 253, 0).is_none());
}

#[test]
fn disk_window_preserves_rates_latency_busy_queue_and_pressure() {
    let raw = |at: u64, reads: u64, writes: u64, read_ms: u64, write_ms: u64| Raw {
        at,
        btime: 1,
        cpu: CpuTimes {
            total: at * 10,
            ..Default::default()
        },
        disk: Some(DiskCounters {
            major: 8,
            minor: 1,
            reads,
            sectors_read: reads * 8,
            read_ms,
            writes,
            sectors_written: writes * 16,
            write_ms,
            in_flight: 2,
            busy_ms: at * 100,
            weighted_ms: at * 200,
        }),
        io_pressure: PressureTotals {
            some_usec: Some(at * 10_000),
            full_usec: Some(at * 1_000),
        },
        ..Default::default()
    };
    let one = difference(&raw(100, 10, 20, 40, 100), &raw(110, 30, 30, 80, 140), PAGE);
    let two = difference(&raw(110, 30, 30, 80, 140), &raw(120, 50, 40, 120, 180), PAGE);
    let three = difference(&raw(120, 50, 40, 120, 180), &raw(130, 70, 50, 160, 220), PAGE);
    for sub in [&one, &two, &three] {
        assert_eq!(percent(sub.io_pressure_some.unwrap()), 1.0);
        assert_eq!(percent(sub.io_pressure_full.unwrap()), 0.1);
    }
    let sample = aggregate(&vec![one, two, three], no_disk());
    let detail = sample.disk_detail;
    assert_eq!(detail.read_bps, Some(8_192));
    assert_eq!(detail.write_bps, Some(8_192));
    assert_eq!(detail.read_iops.map(value), Some(2.0));
    assert_eq!(detail.write_iops.map(value), Some(1.0));
    assert_eq!(detail.read_await_ms.map(value), Some(2.0));
    assert_eq!(detail.write_await_ms.map(value), Some(4.0));
    assert_eq!(detail.busy.map(percent), Some(10.0));
    assert_eq!(detail.queue_depth.map(value), Some(0.2));
    assert_eq!(detail.in_flight, Some(2));
}

#[test]
fn mountinfo_uses_the_most_specific_mount_and_decodes_fields() {
    let text = "20 1 8:1 / / rw,relatime - ext4 /dev/sda1 rw\n\
                21 20 8:2 / /var/lib/brocade\\040agent ro,relatime - xfs /dev/vdb1 ro\n";
    let identity = parse_mountinfo(text, "/var/lib/brocade agent/state").unwrap();
    assert_eq!(identity.mount, "/var/lib/brocade agent");
    assert_eq!(identity.filesystem, "xfs");
    assert_eq!(identity.device, "/dev/vdb1");
    assert!(identity.read_only);
    assert_eq!(decode_mount_field("a\\011b"), "a\tb");
}

#[test]
fn reserved_ephemeral_ranges_are_clipped_deduplicated_and_subtracted() {
    let range = ephemeral_port_range(100, 109, "90-101,103,103-105,200");
    assert_eq!(range.capacity, 5); // reserved: 100, 101, 103, 104, 105
    assert!(!range.contains(100));
    assert!(range.contains(102));
    assert!(!range.contains(200));
    assert_eq!(
        read_ephemeral_port_range("100\t109\n", "").unwrap().capacity,
        10
    );
    assert!(read_ephemeral_port_range("109 100", "").is_none());
}

#[test]
fn reads_btime() {
    assert_eq!(parse_btime(STAT), Some(1_700_000_000));
}

#[test]
fn cpu_model_prefers_the_human_readable_x86_name_and_normalizes_spacing() {
    let cpuinfo = "processor : 0\nmodel name : Intel(R)   Xeon(R) Platinum 8370C\n";
    assert_eq!(parse_cpu_model(cpuinfo), "Intel(R) Xeon(R) Platinum 8370C");
}

#[test]
fn arm_cpu_part_becomes_a_model_when_cpuinfo_has_no_model_name() {
    let cpuinfo = "processor\t: 0\nCPU implementer\t: 0x41\nCPU part\t: 0xd0c\n";
    assert_eq!(parse_cpu_model(cpuinfo), "Neoverse-N1");
}

#[test]
fn an_unknown_arm_cpu_still_has_a_stable_identity() {
    let cpuinfo = "CPU implementer : 0xab\nCPU part : 0x123\n";
    assert_eq!(parse_cpu_model(cpuinfo), "ARM 0xab:0x123");
    assert_eq!(cpu_model(None), cpu_model(Some("")));
}

#[test]
fn a_reboot_zeroes_the_deltas_and_flags_the_gap() {
    let before = Raw {
        at: 100,
        btime: 1_700_000_000,
        cpu: CpuTimes {
            user: 1000,
            system: 500,
            softirq: 80,
            steal: 0,
            total: 9750,
            ..Default::default()
        },
        net: NetCounters {
            rx_bytes: 1_000_000,
            tx_bytes: 500_000,
            ..Default::default()
        },
        oom_kills: 3,
        ..Default::default()
    };
    let after = Raw {
        at: 110,
        btime: 1_700_000_500, // rebooted
        cpu: CpuTimes {
            user: 10,
            system: 5,
            softirq: 1,
            steal: 0,
            total: 100,
            ..Default::default()
        },
        net: NetCounters {
            rx_bytes: 200,
            tx_bytes: 100,
            ..Default::default()
        },
        oom_kills: 0,
        ..Default::default()
    };
    let sub = difference(&before, &after, PAGE);
    assert!(sub.gap);
    assert_eq!(sub.cpu.user, 0);
    assert_eq!(
        sub.nic_rx_bps, 0,
        "not 200 bytes' worth of growth out of nowhere"
    );
    assert_eq!(sub.oom_kills, 0);
}

#[test]
fn counters_going_backwards_clamp_to_zero_rather_than_going_negative() {
    let before = Raw {
        at: 100,
        btime: 1_700_000_000,
        cpu: CpuTimes {
            user: 1000,
            system: 500,
            softirq: 80,
            steal: 0,
            total: 9750,
            ..Default::default()
        },
        net: NetCounters {
            rx_bytes: 1_000_000,
            ..Default::default()
        },
        ..Default::default()
    };
    let after = Raw {
        at: 110,
        btime: 1_700_000_000,
        cpu: CpuTimes {
            user: 990,
            system: 500,
            softirq: 80,
            steal: 0,
            total: 9800,
            ..Default::default()
        },
        net: NetCounters {
            rx_bytes: 900_000,
            ..Default::default()
        },
        ..Default::default()
    };
    let sub = difference(&before, &after, PAGE);
    assert!(
        sub.gap,
        "a CPU counter regression makes this interval incomparable even without a reboot"
    );
    assert_eq!(sub.cpu.user, 0);
    assert_eq!(sub.nic_rx_bps, 0);
}

fn one_core(times: CpuTimes) -> CoreTimes {
    let mut cores = CoreTimes::new();
    cores.insert(0, times);
    cores
}

#[test]
fn per_core_iowait_regression_drops_that_core_instead_of_emitting_over_100_percent() {
    let before = Raw {
        at: 100,
        btime: 1_700_000_000,
        cpu: CpuTimes {
            user: 100,
            system: 20,
            softirq: 10,
            iowait: 50,
            total: 1000,
            ..Default::default()
        },
        cpu_cores: one_core(CpuTimes {
            user: 100,
            system: 20,
            softirq: 10,
            iowait: 50,
            total: 1000,
            ..Default::default()
        }),
        ..Default::default()
    };
    let after = Raw {
        at: 110,
        btime: 1_700_000_000,
        cpu: CpuTimes {
            user: 120,
            system: 25,
            softirq: 12,
            iowait: 55,
            total: 1100,
            ..Default::default()
        },
        cpu_cores: one_core(CpuTimes {
            user: 120,
            system: 25,
            softirq: 12,
            // This counter can move backwards.
            iowait: 49,
            total: 1100,
            ..Default::default()
        }),
        ..Default::default()
    };

    let sub = difference(&before, &after, PAGE);
    assert!(sub.gap, "counter regression has to break the chart");
    assert!(
        sub.cpu_cores.is_empty(),
        "an invalid core is omitted instead of costing the whole report"
    );
    assert!(sub.cpu.user > 0, "the valid aggregate remains usable");
}

#[test]
fn pressure_and_rates_use_the_real_elapsed_interval() {
    let before = Raw {
        at: 100,
        btime: 1,
        cpu: CpuTimes {
            total: 1000,
            ..Default::default()
        },
        io_pressure: PressureTotals {
            some_usec: Some(1_000_000),
            full_usec: Some(500_000),
        },
        net: NetCounters {
            rx_bytes: 100,
            ..Default::default()
        },
        ..Default::default()
    };
    let after = Raw {
        at: 140,
        btime: 1,
        cpu: CpuTimes {
            user: 100,
            total: 1400,
            ..Default::default()
        },
        io_pressure: PressureTotals {
            some_usec: Some(3_000_000),
            full_usec: Some(900_000),
        },
        net: NetCounters {
            rx_bytes: 500,
            ..Default::default()
        },
        ..Default::default()
    };

    let sub = difference(&before, &after, PAGE);
    assert_eq!(sub.elapsed_secs, 40);
    assert!(
        sub.gap,
        "a 40-second sub-sample is not a normal 10-second point"
    );
    assert_eq!(sub.nic_rx_bps, 80, "400 bytes over 40 seconds");
    assert_eq!(sub.io_pressure_some.map(percent), Some(5.0));
    assert_eq!(sub.io_pressure_full.map(percent), Some(1.0));
}

#[test]
fn aggregate_uses_true_boundaries_and_elapsed_weighting() {
    let sub = |start: u64, elapsed: u64, user: u64| Sub {
        window_start_unix_secs: start,
        window_end_unix_secs: start + elapsed,
        elapsed_secs: elapsed,
        cpu: CpuShares {
            user,
            total: 100,
            ..Default::default()
        },
        nic_rx_bps: user,
        gap: elapsed > 15,
        ..Default::default()
    };
    let subs = vec![sub(100, 40, 80), sub(140, 10, 10), sub(150, 10, 10)];
    let sample = aggregate(&subs, no_disk());

    assert_eq!(sample.window_start_unix_secs, 100);
    assert_eq!(sample.window_end_unix_secs, 160);
    assert!(sample.has_gap);
    let mean = subs
        .iter()
        .map(|s| s.cpu.user as f64 * s.elapsed_secs as f64)
        .sum::<f64>()
        / elapsed_total(&subs) as f64;
    assert!((mean - 56.666_668).abs() < 0.001);
    assert_eq!(sample.nic_rx_bps, 56);
}

#[test]
fn peak_is_the_worst_moment_not_the_sum_of_worst_classes() {
    let sub = |start: u64, u: u64, s: u64, i: u64| Sub {
        window_start_unix_secs: start,
        window_end_unix_secs: start + 10,
        elapsed_secs: 10,
        cpu: CpuShares {
            user: u,
            system: s,
            softirq: i,
            total: 100,
            ..Default::default()
        },
        ..Default::default()
    };
    let subs = vec![sub(970, 60, 5, 5), sub(980, 5, 60, 5), sub(990, 5, 5, 60)];
    let sample = aggregate(&subs, no_disk());
    let peak = percent(sample.cpu_peak);
    assert!(peak <= 100.0);
    assert!((peak - 70.0).abs() < 0.01, "got {peak}");
    assert_eq!(sample.window_start_unix_secs, 970);
    assert_eq!(sample.window_end_unix_secs, 1000);
}

#[test]
fn stat_parsing_survives_a_comm_containing_spaces_and_parens() {
    let line = "42 (my (weird) proc) S 1 42 42 0 -1 4194304 100 0 0 0 11 22 0 0 20 0 3 0 999";
    let f = stat_fields(line).unwrap();
    assert_eq!(f[0], "S", "index 0 after the cut is state");
    assert_eq!(f[11], "11", "utime");
    assert_eq!(f[12], "22", "stime");
    assert_eq!(f[19], "999", "starttime");
    assert_eq!(read_proc_jiffies(line), Some(33));
    assert_eq!(read_started_at(line, 1000, 100), Some(1009));
}

#[test]
fn a_zombie_is_recognised_by_the_state_field() {
    let zombie = "481 (xray) Z 1 481 481 0 -1 4194560 0 0 0 0 0 0 0 0 20 0 1 0 29695008";
    let live = "544579 (xray) S 1 544579 481 0 -1 4194304 900 0 0 0 31 12 0 0 20 0 14 0 44273868";
    let (zombie_state, zombie_start) = parse_proc_stat(zombie).unwrap();
    let (live_state, live_start) = parse_proc_stat(live).unwrap();
    assert_eq!(zombie_state, 'Z');
    assert_eq!(live_state, 'S');
    assert!(zombie_start < live_start);
    let entry = |name: &str, stat: &str| Entry {
        name: name.to_owned(),
        comm: Some("xray\n".to_owned()),
        stat: Some(stat.to_owned()),
    };
    let pids = find_pids(&vec![entry("481", zombie), entry("544579", live)]);
    assert_eq!(pids.get("xray"), Some(&544579));
}

#[test]
fn a_window_is_full_after_its_parts() {
    let mut window = LoadWindow::new();
    for at in 0..SUBS_PER_WINDOW as u64 {
        assert!(window
            .tick(
                Raw {
                    at: at * 10,
                    btime: 1,
                    ..Default::default()
                },
                PAGE
            )
            .is_none());
    }
    let subs = window
        .tick(
            Raw {
                at: 30,
                btime: 1,
                ..Default::default()
            },
            PAGE,
        )
        .unwrap();
    assert_eq!(subs.len(), SUBS_PER_WINDOW);
    assert_eq!(elapsed_total(&subs), 30);
    assert!(process_window(&subs, "xray").len() <= subs.len());
}

#[test]
fn counters_are_read_from_their_own_lines() {
    let softirqs = parse_softirqs("          CPU0 CPU1\nNET_TX: 1 2\nNET_RX: 30 40\n");
    assert_eq!((softirqs.net_tx, softirqs.net_rx), (3, 70));
    assert_eq!(
        cpu_throttled_usec(Some("nr_periods 1\nthrottled_usec 25\n"), None),
        Some(25)
    );
    assert_eq!(
        cpu_throttled_usec(None, Some("throttled_time 25000\n")),
        Some(25)
    );
    let route = "Iface\tDestination\tGateway\neth1\t0000FFFF\t0\neth0\t00000000\t0101A8C0\n";
    assert_eq!(main_interface(route).as_deref(), Some("eth0"));
    let dev = "Inter-|\n face |\n  eth0: 100 1 2 3 0 0 0 0 200 4 5 6 0 0 0 0\n";
    let net = parse_net(dev, "eth0");
    assert_eq!((net.rx_bytes, net.tx_bytes), (100, 200));
    assert_eq!(read_rss("Name:\tx\nVmRSS:\t  12 kB\n"), Some(12 * 1024));
    assert_eq!(
        read_fd_limit("Max open files            1024                 4096                 files\n"),
        Some(1024)
    );
}

#[test]
fn a_machine_is_described_by_what_it_says_of_itself() {
    assert_eq!(
        os_pretty_name(Some("NAME=x\nPRETTY_NAME=\"Debian 12\"\n")),
        "Debian 12"
    );
    assert_eq!(detect_virt(Some("docker\n"), false, None), "docker");
    assert_eq!(detect_virt(None, true, None), "OpenVZ");
    assert_eq!(
        detect_virt(None, false, Some("KVM\n")),
        platform_name("kvm\n")
    );
    assert_eq!(nic_qdisc(None), nic_qdisc(Some("")));
    assert_eq!(
        read_cpu_max_frequency_mhz(&vec![Some("2400000\n".to_owned()), None]),
        Some(2400)
    );
    assert_eq!(
        read_cpu_governor(&vec![Some("performance\n".to_owned())]).as_deref(),
        Some("performance")
    );
}

#[test]
fn columns_of_a_group_may_change_places() {
    let one = parse_mib_group("G: a b c\nG: 1 2 3\n", "G");
    let other = parse_mib_group("G: c a b\nG: 3 1 2\n", "G");
    for (name, value) in [("a", Some(1)), ("b", Some(2)), ("c", Some(3)), ("d", None)] {
        assert_eq!(one.get(name), value);
        assert_eq!(other.get(name), value);
    }
}

#[test]
fn decoding_a_mount_field_undoes_its_escaping() {
    assert_eq!(
        decode_mount_field("/数据\\040a\\011b\\012c\\134040"),
        "/数据 a\tb\nc\\040"
    );
    assert_eq!(decode_mount_field("plain\\9"), "plain\\9");
}
