//! What the kernel's text files say about the processor and the memory.
use vstd::prelude::*;

use crate::{numbers, text};

verus! {

/// Jiffies per class. Waiting for block I/O is not work, and stolen time is not
/// this machine's: both stay outside the three busy classes.
#[derive(Debug, Clone, Copy, PartialEq, Eq, Structural)]
pub struct CpuTimes {
    pub user: u64,
    pub system: u64,
    pub softirq: u64,
    pub iowait: u64,
    pub steal: u64,
    pub total: u64,
}

impl CpuTimes {
    pub open spec fn zero() -> CpuTimes {
        CpuTimes { user: 0, system: 0, softirq: 0, iowait: 0, steal: 0, total: 0 }
    }
}

impl Default for CpuTimes {
    fn default() -> (r: CpuTimes)
        ensures
            r == CpuTimes::zero(),
    {
        CpuTimes { user: 0, system: 0, softirq: 0, iowait: 0, steal: 0, total: 0 }
    }
}

/// The times on one `cpu` line: nice belongs to user, irq to system, softirq
/// stays apart; guest time is already in user and nice. Sums are capped.
pub open spec fn cpu_line(line: Seq<char>) -> Option<CpuTimes> {
    let f = numbers::numbers_in(text::tail(text::words(line)));
    if f.len() == 0 {
        None
    } else {
        Some(
            CpuTimes {
                user: numbers::capped(numbers::nth_or_zero(f, 0) + numbers::nth_or_zero(f, 1)),
                system: numbers::capped(numbers::nth_or_zero(f, 2) + numbers::nth_or_zero(f, 5)),
                softirq: numbers::nth_or_zero(f, 6),
                iowait: numbers::nth_or_zero(f, 4),
                steal: numbers::nth_or_zero(f, 7),
                total: numbers::capped(
                    numbers::sum_of(
                        f,
                        if 8 < f.len() {
                            8
                        } else {
                            f.len() as int
                        },
                    ),
                ),
            },
        )
    }
}

fn read_cpu_line(line: &[char]) -> (r: Option<CpuTimes>)
    ensures
        r == cpu_line(line@),
{
    let words = text::split_words(line);
    assert(text::views(words@).len() == words@.len());
    let from: usize = if words.len() < 1 {
        0
    } else {
        1
    };
    let f = numbers::read_numbers(&words, from);
    assert(text::views(words@).skip(from as int) =~= text::tail(text::words(line@)));
    if f.len() == 0 {
        return None;
    }
    Some(
        CpuTimes {
            user: numbers::get_or_zero(&f, 0).saturating_add(numbers::get_or_zero(&f, 1)),
            system: numbers::get_or_zero(&f, 2).saturating_add(numbers::get_or_zero(&f, 5)),
            softirq: numbers::get_or_zero(&f, 6),
            iowait: numbers::get_or_zero(&f, 4),
            steal: numbers::get_or_zero(&f, 7),
            total: numbers::sum_numbers(&f, 8),
        },
    )
}


/// The times on one `cpu` line.
pub fn parse_cpu_line(line: &str) -> (r: Option<CpuTimes>)
    ensures
        r == cpu_line(line@),
{
    let chars = text::chars_of(line);
    read_cpu_line(chars.as_slice())
}

/// The aggregate times: the first line that begins with `cpu` and a space.
pub open spec fn cpu_of(stat: Seq<char>) -> CpuTimes {
    match text::line_with_prefix(text::lines(stat), "cpu "@, 0) {
        Some(k) => match cpu_line(text::lines(stat)[k]) {
            Some(times) => times,
            None => CpuTimes::zero(),
        },
        None => CpuTimes::zero(),
    }
}

/// The aggregate times in `/proc/stat`.
pub fn parse_cpu(stat: &str) -> (r: CpuTimes)
    ensures
        r == cpu_of(stat@),
{
    let chars = text::chars_of(stat);
    let lines = text::split_lines(chars.as_slice());
    match text::find_line(&lines, "cpu ") {
        Some(k) => {
            assert(text::views(lines@)[k as int] == lines@[k as int]@);
            match read_cpu_line(lines[k]) {
                Some(times) => times,
                None => CpuTimes::default(),
            }
        },
        None => CpuTimes::default(),
    }
}

/// The core that a line is about, and its times.
pub open spec fn core_line(line: Seq<char>) -> Option<(u32, CpuTimes)> {
    match text::word(line, 0) {
        None => None,
        Some(label) => match text::strip_prefix(label, "cpu"@) {
            None => None,
            Some(number) => match (numbers::as_u32(number), cpu_line(line)) {
                (Some(cpu), Some(times)) => Some((cpu, times)),
                _ => None,
            },
        },
    }
}

/// The cores that lines are about, in order.
pub open spec fn core_lines(lines: Seq<Seq<char>>) -> Seq<(u32, CpuTimes)>
    decreases lines.len(),
{
    if lines.len() == 0 {
        seq![]
    } else {
        let front = core_lines(lines.drop_last());
        match core_line(lines.last()) {
            Some(core) => front.push(core),
            None => front,
        }
    }
}

/// Readings by core number, the later of two for one core.
pub open spec fn by_core(list: Seq<(u32, CpuTimes)>) -> Map<u32, CpuTimes>
    decreases list.len(),
{
    if list.len() == 0 {
        Map::empty()
    } else {
        by_core(list.drop_last()).insert(list.last().0, list.last().1)
    }
}

/// Times by core, in the order of the core numbers.
#[derive(Debug)]
pub struct CoreTimes {
    pub entries: Vec<(u32, CpuTimes)>,
}

/// Core numbers in strictly ascending order.
pub open spec fn ascending_cores(entries: Seq<(u32, CpuTimes)>) -> bool {
    forall|i: int, j: int| 0 <= i < j < entries.len() ==> entries[i].0 < entries[j].0
}

/// Whether there is a reading of `cpu`.
pub open spec fn has_core(entries: Seq<(u32, CpuTimes)>, cpu: u32) -> bool {
    exists|i: int| 0 <= i < entries.len() && (#[trigger] entries[i]).0 == cpu
}

impl View for CoreTimes {
    type V = Map<u32, CpuTimes>;

    open spec fn view(&self) -> Map<u32, CpuTimes> {
        by_core(self.entries@)
    }
}

/// A core's times are those of its entry, and a core without an entry has none.
pub proof fn lemma_by_core(entries: Seq<(u32, CpuTimes)>)
    requires
        ascending_cores(entries),
    ensures
        forall|cpu: u32| by_core(entries).dom().contains(cpu) == has_core(entries, cpu),
        forall|i: int|
            0 <= i < entries.len() ==> by_core(entries).dom().contains((#[trigger] entries[i]).0)
                && by_core(entries)[entries[i].0] == entries[i].1,
    decreases entries.len(),
{
    if entries.len() > 0 {
        let front = entries.drop_last();
        lemma_by_core(front);
        assert forall|cpu: u32| by_core(entries).dom().contains(cpu) == has_core(entries, cpu) by {
            if has_core(front, cpu) {
                let k = choose|k: int| 0 <= k < front.len() && (#[trigger] front[k]).0 == cpu;
                assert(entries[k].0 == cpu);
            }
            if has_core(entries, cpu) {
                let k = choose|k: int| 0 <= k < entries.len() && (#[trigger] entries[k]).0 == cpu;
                if k < front.len() {
                    assert(front[k].0 == cpu);
                }
            }
            if cpu == entries.last().0 {
                assert(entries[entries.len() - 1].0 == cpu);
            }
        }
        assert forall|i: int| 0 <= i < entries.len() implies by_core(entries).dom().contains(
            (#[trigger] entries[i]).0,
        ) && by_core(entries)[entries[i].0] == entries[i].1 by {
            if i < front.len() {
                assert(front[i] == entries[i]);
            }
        }
    }
}

impl CoreTimes {
    pub open spec fn wf(self) -> bool {
        ascending_cores(self.entries@)
    }

    pub fn new() -> (r: CoreTimes)
        ensures
            r.wf(),
            r@ == Map::<u32, CpuTimes>::empty(),
    {
        CoreTimes { entries: Vec::new() }
    }

    pub fn len(&self) -> (r: usize)
        ensures
            r == self.entries@.len(),
    {
        self.entries.len()
    }

    /// The times of one core.
    pub fn get(&self, cpu: u32) -> (r: Option<CpuTimes>)
        requires
            self.wf(),
        ensures
            r == (if self@.dom().contains(cpu) {
                Some(self@[cpu])
            } else {
                None
            }),
    {
        proof {
            lemma_by_core(self.entries@);
        }
        let mut i: usize = 0;
        while i < self.entries.len()
            invariant
                i <= self.entries@.len(),
                forall|j: int| 0 <= j < i ==> (#[trigger] self.entries@[j]).0 != cpu,
                forall|k: int|
                    0 <= k < self.entries@.len() ==> self@.dom().contains(
                        (#[trigger] self.entries@[k]).0,
                    ) && self@[self.entries@[k].0] == self.entries@[k].1,
            decreases self.entries.len() - i,
        {
            if self.entries[i].0 == cpu {
                return Some(self.entries[i].1);
            }
            i = i + 1;
        }
        assert(!has_core(self.entries@, cpu));
        None
    }

    /// Sets the times of one core.
    pub fn insert(&mut self, cpu: u32, times: CpuTimes)
        requires
            old(self).wf(),
        ensures
            final(self).wf(),
            final(self)@ == old(self)@.insert(cpu, times),
    {
        let mut i: usize = 0;
        while i < self.entries.len() && self.entries[i].0 < cpu
            invariant
                i <= self.entries@.len(),
                self.entries@ == old(self).entries@,
                forall|j: int| 0 <= j < i ==> (#[trigger] self.entries@[j]).0 < cpu,
            decreases self.entries.len() - i,
        {
            i = i + 1;
        }
        let ghost was = self.entries@;
        let replace = i < self.entries.len() && self.entries[i].0 == cpu;
        if replace {
            self.entries.set(i, (cpu, times));
        } else {
            self.entries.insert(i, (cpu, times));
        }
        proof {
            let now = self.entries@;
            if replace {
                assert(now == was.update(i as int, (cpu, times)));
            } else {
                assert(now == was.insert(i as int, (cpu, times)));
            }
            assert forall|a: int, b: int| 0 <= a < b < now.len() implies now[a].0 < now[b].0 by {
                if !replace {
                    if a != i {
                        assert(now[a] == was[if a < i { a } else { a - 1 }]);
                    }
                    if b != i {
                        assert(now[b] == was[if b < i { b } else { b - 1 }]);
                    }
                }
            }
            lemma_by_core(was);
            lemma_by_core(now);
            let expected = by_core(was).insert(cpu, times);
            assert forall|c: u32| by_core(now).dom().contains(c) == expected.dom().contains(c) by {
                if has_core(was, c) {
                    let k = choose|k: int| 0 <= k < was.len() && (#[trigger] was[k]).0 == c;
                    if replace || k < i {
                        assert(now[k].0 == c);
                    } else {
                        assert(now[k + 1].0 == c);
                    }
                }
                if has_core(now, c) {
                    let k = choose|k: int| 0 <= k < now.len() && (#[trigger] now[k]).0 == c;
                    if k < i {
                        assert(was[k].0 == c);
                    } else if k > i {
                        assert(was[if replace { k } else { k - 1 }].0 == c);
                    }
                }
                if c == cpu {
                    assert(now[i as int].0 == c);
                }
            }
            assert forall|c: u32| by_core(now).dom().contains(c) implies by_core(now)[c]
                == expected[c] by {
                assert(has_core(now, c));
                let k = choose|k: int| 0 <= k < now.len() && (#[trigger] now[k]).0 == c;
                if k < i {
                    assert(was[k] == now[k]);
                } else if k > i {
                    assert(was[if replace { k } else { k - 1 }] == now[k]);
                }
            }
            assert(by_core(now) =~= expected);
        }
    }
}

/// The times of every core in `/proc/stat`.
pub fn parse_cpu_cores(stat: &str) -> (r: CoreTimes)
    ensures
        r.wf(),
        r@ == by_core(core_lines(text::lines(stat@))),
{
    let chars = text::chars_of(stat);
    let lines = text::split_lines(chars.as_slice());
    let ghost all = text::views(lines@);
    let mut out = CoreTimes::new();
    let mut i: usize = 0;
    while i < lines.len()
        invariant
            i <= lines.len(),
            all == text::views(lines@),
            out.wf(),
            out@ == by_core(core_lines(all.take(i as int))),
        decreases lines.len() - i,
    {
        proof {
            assert(all.take(i + 1).drop_last() == all.take(i as int));
            assert(all.take(i + 1).last() == lines@[i as int]@);
        }
        match text::nth_word(lines[i], 0) {
            Some(label) => match text::after_prefix(label, "cpu") {
                Some(number) => match (numbers::read_u32(number), read_cpu_line(lines[i])) {
                    (Some(cpu), Some(times)) => {
                        proof {
                            let front = core_lines(all.take(i as int));
                            assert(front.push((cpu, times)).drop_last() =~= front);
                        }
                        out.insert(cpu, times);
                    },
                    _ => {},
                },
                None => {},
            },
            None => {},
        }
        i = i + 1;
    }
    assert(all.take(i as int) == all);
    out
}

/// The number behind `key` on the first line that begins with it.
pub open spec fn stat_counter(stat: Seq<char>, key: Seq<char>) -> Option<u64> {
    match text::after_line_prefix(text::lines(stat), key) {
        Some(rest) => numbers::as_u64(text::trim(rest)),
        None => None,
    }
}

/// The number behind `key` on the first line that begins with it.
pub fn parse_stat_counter(stat: &str, key: &str) -> (r: Option<u64>)
    ensures
        r == stat_counter(stat@, key@),
{
    let chars = text::chars_of(stat);
    let lines = text::split_lines(chars.as_slice());
    match text::find_after(&lines, key) {
        Some(rest) => numbers::read_u64(text::trimmed(rest)),
        None => None,
    }
}

/// When the machine booted, in seconds since the epoch.
pub open spec fn btime_of(stat: Seq<char>) -> Option<i64> {
    match text::after_line_prefix(text::lines(stat), "btime "@) {
        Some(rest) => numbers::as_i64(text::trim(rest)),
        None => None,
    }
}

/// When the machine booted, from `/proc/stat`.
pub fn parse_btime(stat: &str) -> (r: Option<i64>)
    ensures
        r == btime_of(stat@),
{
    let chars = text::chars_of(stat);
    let lines = text::split_lines(chars.as_slice());
    match text::find_after(&lines, "btime ") {
        Some(rest) => match numbers::read_i64(text::trimmed(rest)) {
            Ok(v) => Some(v),
            Err(_) => None,
        },
        None => None,
    }
}

/// The boot time to report with a reading; zero where it could not be read.
pub fn current_btime(stat: Option<&str>) -> (r: i64)
    ensures
        r == match stat {
            Some(s) => match btime_of(s@) {
                Some(v) => v,
                None => 0,
            },
            None => 0,
        },
{
    match stat {
        Some(s) => match parse_btime(s) {
            Some(v) => v,
            None => 0,
        },
        None => 0,
    }
}

/// Memory by use, in bytes.
#[derive(Debug, Clone, Copy, PartialEq, Eq, Structural)]
pub struct MemInfo {
    pub total: u64,
    pub available: u64,
    pub free: u64,
    pub anon: u64,
    pub file_cache: u64,
    pub shmem: u64,
    pub buffers: u64,
    pub kernel_reclaimable: u64,
    pub slab_unreclaimable: u64,
    pub unevictable: u64,
    pub mlocked: u64,
    pub dirty: u64,
    pub writeback: u64,
    pub swap_total: u64,
    pub swap_used: u64,
    pub swap_cached: u64,
    pub zswap: Option<u64>,
    pub zswapped: Option<u64>,
}

impl MemInfo {
    /// No memory at all.
    pub open spec fn zero() -> MemInfo {
        MemInfo {
            total: 0,
            available: 0,
            free: 0,
            anon: 0,
            file_cache: 0,
            shmem: 0,
            buffers: 0,
            kernel_reclaimable: 0,
            slab_unreclaimable: 0,
            unevictable: 0,
            mlocked: 0,
            dirty: 0,
            writeback: 0,
            swap_total: 0,
            swap_used: 0,
            swap_cached: 0,
            zswap: None,
            zswapped: None,
        }
    }
}

impl Default for MemInfo {
    fn default() -> (r: MemInfo)
        ensures
            r == MemInfo::zero(),
    {
        MemInfo {
            total: 0,
            available: 0,
            free: 0,
            anon: 0,
            file_cache: 0,
            shmem: 0,
            buffers: 0,
            kernel_reclaimable: 0,
            slab_unreclaimable: 0,
            unevictable: 0,
            mlocked: 0,
            dirty: 0,
            writeback: 0,
            swap_total: 0,
            swap_used: 0,
            swap_cached: 0,
            zswap: None,
            zswapped: None,
        }
    }
}

/// The bytes behind `key`, which are given in kB.
pub open spec fn kb_opt(lines: Seq<Seq<char>>, key: Seq<char>) -> Option<u64> {
    match text::after_line_prefix(lines, key) {
        None => None,
        Some(rest) => match text::word(rest, 0) {
            None => None,
            Some(w) => match numbers::as_u64(w) {
                Some(v) => Some(numbers::capped(v * 1024)),
                None => None,
            },
        },
    }
}

/// The bytes behind `key`, zero where there are none.
pub open spec fn kb(lines: Seq<Seq<char>>, key: Seq<char>) -> u64 {
    match kb_opt(lines, key) {
        Some(v) => v,
        None => 0,
    }
}

/// `a - b`, zero where that is negative.
pub open spec fn less(a: u64, b: u64) -> u64 {
    if a > b {
        (a - b) as u64
    } else {
        0
    }
}

/// Memory by use. The page cache counts shared memory too, which has a share of
/// its own here; older kernels know only reclaimable slab.
pub open spec fn meminfo_of(content: Seq<char>) -> MemInfo {
    let lines = text::lines(content);
    MemInfo {
        total: kb(lines, "MemTotal:"@),
        available: kb(lines, "MemAvailable:"@),
        free: kb(lines, "MemFree:"@),
        anon: kb(lines, "AnonPages:"@),
        file_cache: less(kb(lines, "Cached:"@), kb(lines, "Shmem:"@)),
        shmem: kb(lines, "Shmem:"@),
        buffers: kb(lines, "Buffers:"@),
        kernel_reclaimable: match kb_opt(lines, "KReclaimable:"@) {
            Some(v) => v,
            None => kb(lines, "SReclaimable:"@),
        },
        slab_unreclaimable: kb(lines, "SUnreclaim:"@),
        unevictable: kb(lines, "Unevictable:"@),
        mlocked: kb(lines, "Mlocked:"@),
        dirty: kb(lines, "Dirty:"@),
        writeback: kb(lines, "Writeback:"@),
        swap_total: kb(lines, "SwapTotal:"@),
        swap_used: less(kb(lines, "SwapTotal:"@), kb(lines, "SwapFree:"@)),
        swap_cached: kb(lines, "SwapCached:"@),
        zswap: kb_opt(lines, "Zswap:"@),
        zswapped: kb_opt(lines, "Zswapped:"@),
    }
}

fn read_kb_opt(lines: &Vec<&[char]>, key: &str) -> (r: Option<u64>)
    ensures
        r == kb_opt(text::views(lines@), key@),
{
    match text::find_after(lines, key) {
        None => None,
        Some(rest) => match text::nth_word(rest, 0) {
            None => None,
            Some(w) => match numbers::read_u64(w) {
                Some(v) => Some(numbers::mul_capped(v, 1024)),
                None => None,
            },
        },
    }
}

fn read_kb(lines: &Vec<&[char]>, key: &str) -> (r: u64)
    ensures
        r == kb(text::views(lines@), key@),
{
    match read_kb_opt(lines, key) {
        Some(v) => v,
        None => 0,
    }
}

/// Memory by use, from `/proc/meminfo`.
pub fn parse_meminfo(content: &str) -> (r: MemInfo)
    ensures
        r == meminfo_of(content@),
{
    let chars = text::chars_of(content);
    let lines = text::split_lines(chars.as_slice());
    let swap_total: u64 = read_kb(&lines, "SwapTotal:");
    let swap_free: u64 = read_kb(&lines, "SwapFree:");
    let shmem: u64 = read_kb(&lines, "Shmem:");
    let cached: u64 = read_kb(&lines, "Cached:");
    MemInfo {
        total: read_kb(&lines, "MemTotal:"),
        available: read_kb(&lines, "MemAvailable:"),
        free: read_kb(&lines, "MemFree:"),
        anon: read_kb(&lines, "AnonPages:"),
        file_cache: cached.saturating_sub(shmem),
        shmem,
        buffers: read_kb(&lines, "Buffers:"),
        kernel_reclaimable: match read_kb_opt(&lines, "KReclaimable:") {
            Some(v) => v,
            None => read_kb(&lines, "SReclaimable:"),
        },
        slab_unreclaimable: read_kb(&lines, "SUnreclaim:"),
        unevictable: read_kb(&lines, "Unevictable:"),
        mlocked: read_kb(&lines, "Mlocked:"),
        dirty: read_kb(&lines, "Dirty:"),
        writeback: read_kb(&lines, "Writeback:"),
        swap_total,
        swap_used: swap_total.saturating_sub(swap_free),
        swap_cached: read_kb(&lines, "SwapCached:"),
        zswap: read_kb_opt(&lines, "Zswap:"),
        zswapped: read_kb_opt(&lines, "Zswapped:"),
    }
}

/// Shared memory is not counted twice: together with the file cache it makes up
/// what the kernel calls cached, or shared memory alone where that is more.
pub proof fn lemma_shmem_is_counted_once(content: Seq<char>)
    ensures
        ({
            let mem = meminfo_of(content);
            let cached = kb(text::lines(content), "Cached:"@);
            mem.file_cache + mem.shmem == (if cached > mem.shmem {
                cached as int
            } else {
                mem.shmem as int
            })
        }),
{
}

/// Totals of stalled time, in microseconds.
#[derive(Debug, Clone, Copy, PartialEq, Eq, Structural)]
pub struct PressureTotals {
    pub some_usec: Option<u64>,
    pub full_usec: Option<u64>,
}

impl PressureTotals {
    /// Nothing was read.
    pub open spec fn unknown() -> PressureTotals {
        PressureTotals {
            some_usec: None,
            full_usec: None,
        }
    }
}

impl Default for PressureTotals {
    fn default() -> (r: PressureTotals)
        ensures
            r == PressureTotals::unknown(),
    {
        PressureTotals {
            some_usec: None,
            full_usec: None,
        }
    }
}

/// The number behind `prefix` in the first word from `from` on that begins with it.
pub open spec fn prefixed_number(words: Seq<Seq<char>>, prefix: Seq<char>) -> Option<u64> {
    match text::after_line_prefix(words, prefix) {
        Some(rest) => numbers::as_u64(rest),
        None => None,
    }
}

/// The cumulative total of one kind of pressure.
pub open spec fn pressure_total(lines: Seq<Seq<char>>, kind: Seq<char>) -> Option<u64> {
    match text::line_with_prefix(lines, kind, 0) {
        Some(k) => prefixed_number(text::words(lines[k]), "total="@),
        None => None,
    }
}

fn read_pressure_total(lines: &Vec<&[char]>, kind: &str) -> (r: Option<u64>)
    ensures
        r == pressure_total(text::views(lines@), kind@),
{
    match text::find_line(lines, kind) {
        Some(k) => {
            assert(text::views(lines@)[k as int] == lines@[k as int]@);
            let words = text::split_words(lines[k]);
            match text::find_after(&words, "total=") {
                Some(rest) => numbers::read_u64(rest),
                None => None,
            }
        },
        None => None,
    }
}

/// Totals of stalled time, from a file under `/proc/pressure`. The totals are
/// read, not the rounded averages beside them.
pub fn parse_pressure(content: &str) -> (r: PressureTotals)
    ensures
        r == (PressureTotals {
            some_usec: pressure_total(text::lines(content@), "some "@),
            full_usec: pressure_total(text::lines(content@), "full "@),
        }),
{
    let chars = text::chars_of(content);
    let lines = text::split_lines(chars.as_slice());
    PressureTotals {
        some_usec: read_pressure_total(&lines, "some "),
        full_usec: read_pressure_total(&lines, "full "),
    }
}

/// Network softirqs, over all cores.
#[derive(Debug, Clone, Copy, PartialEq, Eq, Structural)]
pub struct SoftirqCounters {
    pub net_rx: u64,
    pub net_tx: u64,
}

/// The first line at or after `from` that begins with `prefix`, spaces aside.
pub open spec fn indented_line(
    lines: Seq<Seq<char>>,
    prefix: Seq<char>,
    from: int,
) -> Option<Seq<char>>
    decreases lines.len() - from,
{
    if from < 0 || from >= lines.len() {
        None
    } else {
        match text::strip_prefix(text::trim_start(lines[from]), prefix) {
            Some(rest) => Some(rest),
            None => indented_line(lines, prefix, from + 1),
        }
    }
}

/// The sum of the counts of one kind of softirq, capped.
pub open spec fn softirq_sum(lines: Seq<Seq<char>>, kind: Seq<char>) -> u64 {
    match indented_line(lines, kind, 0) {
        Some(rest) => {
            let counts = numbers::numbers_in(text::words(rest));
            numbers::capped(numbers::sum_of(counts, counts.len() as int))
        },
        None => 0,
    }
}

fn read_softirq_sum(lines: &Vec<&[char]>, kind: &str) -> (r: u64)
    ensures
        r == softirq_sum(text::views(lines@), kind@),
{
    let mut i: usize = 0;
    while i < lines.len()
        invariant
            i <= lines.len(),
            indented_line(text::views(lines@), kind@, 0) == indented_line(
                text::views(lines@),
                kind@,
                i as int,
            ),
        decreases lines.len() - i,
    {
        assert(text::views(lines@)[i as int] == lines@[i as int]@);
        match text::after_prefix(text::trimmed_start(lines[i]), kind) {
            Some(rest) => {
                let words = text::split_words(rest);
                let counts = numbers::read_numbers(&words, 0);
                assert(text::views(words@).skip(0) =~= text::words(rest@));
                return numbers::sum_numbers(&counts, counts.len());
            },
            None => {},
        }
        i = i + 1;
    }
    0
}

/// Network softirqs, from `/proc/softirqs`.
pub fn parse_softirqs(content: &str) -> (r: SoftirqCounters)
    ensures
        r == (SoftirqCounters {
            net_rx: softirq_sum(text::lines(content@), "NET_RX:"@),
            net_tx: softirq_sum(text::lines(content@), "NET_TX:"@),
        }),
{
    let chars = text::chars_of(content);
    let lines = text::split_lines(chars.as_slice());
    SoftirqCounters {
        net_rx: read_softirq_sum(&lines, "NET_RX:"),
        net_tx: read_softirq_sum(&lines, "NET_TX:"),
    }
}

/// The value on a `key value` line about `key`.
pub open spec fn counter_line(line: Seq<char>, key: Seq<char>) -> Option<u64> {
    match (text::word(line, 0), text::word(line, 1)) {
        (Some(name), Some(value)) => if name == key {
            numbers::as_u64(value)
        } else {
            None
        },
        _ => None,
    }
}

/// The first value on a `key value` line about `key`.
pub open spec fn named_counter(lines: Seq<Seq<char>>, key: Seq<char>, from: int) -> Option<u64>
    decreases lines.len() - from,
{
    if from < 0 || from >= lines.len() {
        None
    } else {
        match counter_line(lines[from], key) {
            Some(v) => Some(v),
            None => named_counter(lines, key, from + 1),
        }
    }
}

/// The value of `key` in a file of `key value` lines.
pub fn parse_named_counter(content: &str, key: &str) -> (r: Option<u64>)
    ensures
        r == named_counter(text::lines(content@), key@, 0),
{
    let chars = text::chars_of(content);
    let lines = text::split_lines(chars.as_slice());
    let mut i: usize = 0;
    while i < lines.len()
        invariant
            i <= lines.len(),
            text::views(lines@) == text::lines(content@),
            named_counter(text::lines(content@), key@, 0) == named_counter(
                text::lines(content@),
                key@,
                i as int,
            ),
        decreases lines.len() - i,
    {
        assert(text::views(lines@)[i as int] == lines@[i as int]@);
        match (text::nth_word(lines[i], 0), text::nth_word(lines[i], 1)) {
            (Some(name), Some(value)) => {
                if text::same(name, key) {
                    match numbers::read_u64(value) {
                        Some(v) => {
                            return Some(v);
                        },
                        None => {},
                    }
                }
            },
            _ => {},
        }
        i = i + 1;
    }
    None
}

/// Time that the processor was held back, in microseconds. The unified control
/// group says so itself; the older one counts nanoseconds.
pub fn cpu_throttled_usec(unified: Option<&str>, legacy: Option<&str>) -> (r: Option<u64>)
    ensures
        r == match unified {
            Some(t) => named_counter(text::lines(t@), "throttled_usec"@, 0),
            None => match legacy {
                Some(t) => match named_counter(text::lines(t@), "throttled_time"@, 0) {
                    Some(nanos) => Some((nanos / 1000) as u64),
                    None => None,
                },
                None => None,
            },
        },
{
    match unified {
        Some(t) => parse_named_counter(t, "throttled_usec"),
        None => match legacy {
            Some(t) => match parse_named_counter(t, "throttled_time") {
                Some(nanos) => Some(nanos / 1000),
                None => None,
            },
            None => None,
        },
    }
}

/// Counters of the virtual memory system.
#[derive(Debug, Clone, Copy, PartialEq, Eq, Structural)]
pub struct VmCounters {
    pub oom_kills: u64,
    pub swap_in_pages: u64,
    pub swap_out_pages: u64,
    pub major_faults: u64,
    pub direct_reclaim_pages: u64,
    pub foll_pin_acquired: Option<u64>,
    pub foll_pin_released: Option<u64>,
}

impl VmCounters {
    /// Nothing was counted.
    pub open spec fn zero() -> VmCounters {
        VmCounters {
            oom_kills: 0,
            swap_in_pages: 0,
            swap_out_pages: 0,
            major_faults: 0,
            direct_reclaim_pages: 0,
            foll_pin_acquired: None,
            foll_pin_released: None,
        }
    }
}

impl Default for VmCounters {
    fn default() -> (r: VmCounters)
        ensures
            r == VmCounters::zero(),
    {
        VmCounters {
            oom_kills: 0,
            swap_in_pages: 0,
            swap_out_pages: 0,
            major_faults: 0,
            direct_reclaim_pages: 0,
            foll_pin_acquired: None,
            foll_pin_released: None,
        }
    }
}

/// The name and value on a line.
pub open spec fn pair_line(line: Seq<char>) -> Option<(Seq<char>, u64)> {
    match (text::word(line, 0), text::word(line, 1)) {
        (Some(name), Some(value)) => match numbers::as_u64(value) {
            Some(v) => Some((name, v)),
            None => None,
        },
        _ => None,
    }
}

/// The names and values on lines, in order.
pub open spec fn pairs_in(lines: Seq<Seq<char>>) -> Seq<(Seq<char>, u64)>
    decreases lines.len(),
{
    if lines.len() == 0 {
        seq![]
    } else {
        let front = pairs_in(lines.drop_last());
        match pair_line(lines.last()) {
            Some(p) => front.push(p),
            None => front,
        }
    }
}

/// The value of `key` at or before position `at`: the last one counts.
pub open spec fn value_at(pairs: Seq<(Seq<char>, u64)>, key: Seq<char>, at: int) -> Option<u64>
    decreases at + 1,
{
    if at < 0 || at >= pairs.len() {
        None
    } else if pairs[at].0 == key {
        Some(pairs[at].1)
    } else {
        value_at(pairs, key, at - 1)
    }
}

/// The value of `key`: the last one counts.
pub open spec fn value_of(pairs: Seq<(Seq<char>, u64)>, key: Seq<char>) -> Option<u64> {
    value_at(pairs, key, pairs.len() - 1)
}

/// Whether no later pair has the name of pair `i`.
pub open spec fn is_last(pairs: Seq<(Seq<char>, u64)>, i: int) -> bool {
    forall|j: int| i < j < pairs.len() ==> (#[trigger] pairs[j]).0 != pairs[i].0
}

/// The sum of the values of all names that begin with `prefix`, among the first
/// `n` pairs; of a name that occurs twice the last value counts.
pub open spec fn prefixed_sum(pairs: Seq<(Seq<char>, u64)>, prefix: Seq<char>, n: int) -> int
    decreases n,
{
    if n <= 0 || n > pairs.len() {
        0
    } else {
        prefixed_sum(pairs, prefix, n - 1) + (if text::starts_with(pairs[n - 1].0, prefix)
            && is_last(pairs, n - 1) {
            pairs[n - 1].1 as int
        } else {
            0
        })
    }
}

/// Names with their values.
#[derive(Debug)]
pub struct Table {
    pub entries: Vec<(String, u64)>,
}

impl View for Table {
    type V = Seq<(Seq<char>, u64)>;

    open spec fn view(&self) -> Seq<(Seq<char>, u64)> {
        self.entries@.map_values(|e: (String, u64)| (e.0@, e.1))
    }
}

impl Table {
    pub fn new() -> (r: Table)
        ensures
            r@ == Seq::<(Seq<char>, u64)>::empty(),
    {
        let r = Table { entries: Vec::new() };
        assert(r@ =~= Seq::<(Seq<char>, u64)>::empty());
        r
    }

    pub fn push(&mut self, name: String, value: u64)
        ensures
            final(self)@ == old(self)@.push((name@, value)),
    {
        let ghost was = self.entries@;
        self.entries.push((name, value));
        assert(self@ =~= old(self)@.push((name@, value)));
    }

    /// The value of `key`: the last one counts.
    pub fn get(&self, key: &str) -> (r: Option<u64>)
        ensures
            r == value_of(self@, key@),
    {
        let mut i: usize = self.entries.len();
        while i > 0
            invariant
                i <= self.entries@.len(),
                value_of(self@, key@) == value_at(self@, key@, i - 1),
            decreases i,
        {
            if text::same_str(self.entries[i - 1].0.as_str(), key) {
                return Some(self.entries[i - 1].1);
            }
            i = i - 1;
        }
        None
    }

    fn get_or_zero(&self, key: &str) -> (r: u64)
        ensures
            r == (match value_of(self@, key@) {
                Some(v) => v,
                None => 0,
            }),
    {
        match self.get(key) {
            Some(v) => v,
            None => 0,
        }
    }

    fn last_of_name(&self, i: usize) -> (r: bool)
        requires
            i < self.entries@.len(),
        ensures
            r == is_last(self@, i as int),
    {
        let n: usize = self.entries.len();
        let mut j: usize = i + 1;
        while j < n
            invariant
                n == self.entries@.len(),
                i < j <= n,
                forall|k: int| i < k < j ==> (#[trigger] self@[k]).0 != self@[i as int].0,
            decreases n - j,
        {
            assert(self@[j as int].0 == self.entries@[j as int].0@);
            if text::same_str(self.entries[j].0.as_str(), self.entries[i].0.as_str()) {
                return false;
            }
            j = j + 1;
        }
        true
    }

    /// The sum of the values of all names that begin with `prefix`, capped.
    pub fn sum_prefixed(&self, prefix: &str) -> (r: u64)
        ensures
            r == numbers::capped(prefixed_sum(self@, prefix@, self@.len() as int)),
    {
        let mut sum: u64 = 0;
        let mut i: usize = 0;
        while i < self.entries.len()
            invariant
                i <= self.entries@.len(),
                sum == numbers::capped(prefixed_sum(self@, prefix@, i as int)),
                0 <= prefixed_sum(self@, prefix@, i as int),
            decreases self.entries.len() - i,
        {
            let name = text::chars_of(self.entries[i].0.as_str());
            if text::begins(name.as_slice(), prefix) && self.last_of_name(i) {
                sum = sum.saturating_add(self.entries[i].1);
            }
            i = i + 1;
        }
        sum
    }
}

/// The names and values in a file of `name value` lines.
pub fn parse_single_value_mib(content: &str) -> (r: Table)
    ensures
        r@ == pairs_in(text::lines(content@)),
{
    let chars = text::chars_of(content);
    let lines = text::split_lines(chars.as_slice());
    let ghost all = text::views(lines@);
    let mut out = Table::new();
    let mut i: usize = 0;
    while i < lines.len()
        invariant
            i <= lines.len(),
            all == text::views(lines@),
            out@ == pairs_in(all.take(i as int)),
        decreases lines.len() - i,
    {
        proof {
            assert(all.take(i + 1).drop_last() == all.take(i as int));
            assert(all.take(i + 1).last() == lines@[i as int]@);
        }
        match (text::nth_word(lines[i], 0), text::nth_word(lines[i], 1)) {
            (Some(name), Some(value)) => match numbers::read_u64(value) {
                Some(v) => {
                    out.push(text::string_of(name), v);
                },
                None => {},
            },
            _ => {},
        }
        i = i + 1;
    }
    assert(all.take(i as int) == all);
    out
}

/// A value, zero where there is none.
pub open spec fn or_zero(v: Option<u64>) -> u64 {
    match v {
        Some(x) => x,
        None => 0,
    }
}

/// Counters of the virtual memory system. Kernels that count direct reclaim by
/// zone have a counter for each.
pub open spec fn vmstat_of(content: Seq<char>) -> VmCounters {
    let pairs = pairs_in(text::lines(content));
    VmCounters {
        oom_kills: or_zero(value_of(pairs, "oom_kill"@)),
        swap_in_pages: or_zero(value_of(pairs, "pswpin"@)),
        swap_out_pages: or_zero(value_of(pairs, "pswpout"@)),
        major_faults: or_zero(value_of(pairs, "pgmajfault"@)),
        direct_reclaim_pages: match value_of(pairs, "pgscan_direct"@) {
            Some(v) => v,
            None => numbers::capped(
                prefixed_sum(pairs, "pgscan_direct_"@, pairs.len() as int),
            ),
        },
        foll_pin_acquired: value_of(pairs, "nr_foll_pin_acquired"@),
        foll_pin_released: value_of(pairs, "nr_foll_pin_released"@),
    }
}

/// Counters of the virtual memory system, from `/proc/vmstat`.
pub fn parse_vmstat(content: &str) -> (r: VmCounters)
    ensures
        r == vmstat_of(content@),
{
    let values = parse_single_value_mib(content);
    VmCounters {
        oom_kills: values.get_or_zero("oom_kill"),
        swap_in_pages: values.get_or_zero("pswpin"),
        swap_out_pages: values.get_or_zero("pswpout"),
        major_faults: values.get_or_zero("pgmajfault"),
        direct_reclaim_pages: match values.get("pgscan_direct") {
            Some(v) => v,
            None => values.sum_prefixed("pgscan_direct_"),
        },
        foll_pin_acquired: values.get("nr_foll_pin_acquired"),
        foll_pin_released: values.get("nr_foll_pin_released"),
    }
}

/// The run queue in `/proc/loadavg`: how many processes run, and how many there are.
pub fn parse_run_queue(content: &str) -> (r: (Option<u64>, Option<u64>))
    ensures
        r == (match text::word(content@, 3) {
            Some(field) => match text::split_once(field, '/') {
                Some((running, total)) => (numbers::as_u64(running), numbers::as_u64(total)),
                None => (None, None),
            },
            None => (None::<u64>, None::<u64>),
        }),
{
    let chars = text::chars_of(content);
    match text::nth_word(chars.as_slice(), 3) {
        Some(field) => match text::cut_once(field, '/') {
            Some((running, total)) => (numbers::read_u64(running), numbers::read_u64(total)),
            None => (None, None),
        },
        None => (None, None),
    }
}

/// A number alone in a file, whitespace aside; nothing where there is no file.
pub fn read_u64_file(content: Option<&str>) -> (r: Option<u64>)
    ensures
        r == (match content {
            Some(t) => numbers::as_u64(text::trim(t@)),
            None => None::<u64>,
        }),
{
    match content {
        Some(t) => {
            let chars = text::chars_of(t);
            numbers::read_u64(text::trimmed(chars.as_slice()))
        },
        None => None,
    }
}

/// What is in a file, whitespace at either end aside; nothing where that is empty.
pub fn read_trimmed(content: Option<&str>) -> (r: Option<String>)
    ensures
        match content {
            Some(t) => if text::trim(t@).len() == 0 {
                r is None
            } else {
                r matches Some(s) && s@ == text::trim(t@)
            },
            None => r is None,
        },
{
    match content {
        Some(t) => {
            let chars = text::chars_of(t);
            let kept = text::trimmed(chars.as_slice());
            if kept.len() == 0 {
                None
            } else {
                Some(text::string_of(kept))
            }
        },
        None => None,
    }
}

/// The times of a line as the kernel prints them: user, nice, system, idle, iowait, irq,
/// softirq and steal, and behind them guest times that user and nice hold already. User takes
/// nice with it and system takes irq; all the classes, with the idle time, make the total.
pub proof fn lemma_processor_line_adds_up(label: Seq<char>, f: Seq<u64>)
    requires
        text::is_word(label),
        f.len() >= 8,
        f[0] + f[1] + f[2] + f[3] + f[4] + f[5] + f[6] + f[7] <= u64::MAX,
    ensures
        ({
            let line = text::join(seq![label] + numbers::spelled(f), seq![' ']);
            &&& cpu_line(line) is Some
            &&& cpu_line(line) matches Some(t) ==> {
                &&& t.user == f[0] + f[1]
                &&& t.system == f[2] + f[5]
                &&& t.iowait == f[4]
                &&& t.softirq == f[6]
                &&& t.steal == f[7]
                &&& t.user + t.system + t.iowait + t.softirq + t.steal + f[3] == t.total
            }
        }),
{
    let pieces = seq![label] + numbers::spelled(f);
    numbers::lemma_spelled_numbers_read_back(f);
    assert forall|i: int| 0 <= i < pieces.len() implies text::is_word(#[trigger] pieces[i]) by {
        if i > 0 {
            assert(pieces[i] == numbers::spelled(f)[i - 1]);
        }
    }
    text::lemma_spaced_words(pieces);
    assert(text::tail(pieces) =~= numbers::spelled(f));
    reveal_with_fuel(numbers::sum_of, 9);
}

/// Whether a table gives an amount under a name, in kB: on the first line with that name.
pub open spec fn gives_kb(content: Seq<char>, name: Seq<char>, amount: u64) -> bool {
    exists|k: int|
        #![trigger text::lines(content)[k]]
        0 <= k < text::lines(content).len() && text::lines(content)[k] == name + text::join(
            seq![numbers::decimal(amount as int), "kB"@],
            seq![' '],
        ) && (forall|j: int|
            0 <= j < k ==> !text::starts_with(#[trigger] text::lines(content)[j], name))
}

proof fn lemma_first_line(lines: Seq<Seq<char>>, prefix: Seq<char>, from: int, k: int)
    requires
        0 <= from <= k < lines.len(),
        text::starts_with(lines[k], prefix),
        forall|j: int| from <= j < k ==> !text::starts_with(#[trigger] lines[j], prefix),
    ensures
        text::line_with_prefix(lines, prefix, from) == Some(k),
    decreases k - from,
{
    if from < k {
        lemma_first_line(lines, prefix, from + 1, k);
    }
}

proof fn lemma_kb_is_read(content: Seq<char>, name: Seq<char>, amount: u64)
    requires
        gives_kb(content, name, amount),
    ensures
        kb_opt(text::lines(content), name) == Some(numbers::capped(amount * 1024)),
{
    let lines = text::lines(content);
    let pieces = seq![numbers::decimal(amount as int), "kB"@];
    let rest = text::join(pieces, seq![' ']);
    let k = choose|k: int|
        #![trigger text::lines(content)[k]]
        0 <= k < text::lines(content).len() && text::lines(content)[k] == name + rest && (forall|
            j: int,
        | 0 <= j < k ==> !text::starts_with(#[trigger] text::lines(content)[j], name));
    assert(lines[k].subrange(0, name.len() as int) =~= name);
    assert(lines[k].skip(name.len() as int) =~= rest);
    lemma_first_line(lines, name, 0, k);
    reveal_strlit("kB");
    numbers::lemma_decimal_digits(amount as int);
    numbers::lemma_parse_decimal(amount as int, u64::MAX as int);
    assert forall|i: int| 0 <= i < pieces.len() implies text::is_word(#[trigger] pieces[i]) by {
        if i == 1 {
            assert(pieces[1] == "kB"@);
        }
    }
    text::lemma_spaced_words(pieces);
}

/// Whether an amount of memory is the one that a table gives under a name, a kB being 1024
/// bytes.
pub open spec fn read_as(content: Seq<char>, name: Seq<char>, bytes: u64) -> bool {
    forall|amount: u64| #[trigger]
        gives_kb(content, name, amount) && amount * 1024 <= u64::MAX ==> bytes == amount * 1024
}

/// Every amount of memory is the one that the kernel gives under its name, and what is in use
/// is what there is without what is free. Shared memory is counted once: what the cache holds
/// of it is not counted as cache.
pub proof fn lemma_memory_goes_by_name(content: Seq<char>)
    ensures
        ({
            let mem = meminfo_of(content);
            &&& read_as(content, "MemTotal:"@, mem.total)
            &&& read_as(content, "MemAvailable:"@, mem.available)
            &&& read_as(content, "MemFree:"@, mem.free)
            &&& read_as(content, "AnonPages:"@, mem.anon)
            &&& read_as(content, "Shmem:"@, mem.shmem)
            &&& read_as(content, "Buffers:"@, mem.buffers)
            &&& read_as(content, "KReclaimable:"@, mem.kernel_reclaimable)
            &&& read_as(content, "SUnreclaim:"@, mem.slab_unreclaimable)
            &&& read_as(content, "Unevictable:"@, mem.unevictable)
            &&& read_as(content, "Mlocked:"@, mem.mlocked)
            &&& read_as(content, "Dirty:"@, mem.dirty)
            &&& read_as(content, "Writeback:"@, mem.writeback)
            &&& read_as(content, "SwapTotal:"@, mem.swap_total)
            &&& read_as(content, "SwapCached:"@, mem.swap_cached)
            &&& forall|free: u64| #[trigger]
                gives_kb(content, "SwapFree:"@, free) && free * 1024 <= mem.swap_total
                    ==> mem.swap_used + free * 1024 == mem.swap_total
            &&& forall|cached: u64| #[trigger]
                gives_kb(content, "Cached:"@, cached) && mem.shmem <= cached * 1024 <= u64::MAX
                    ==> mem.file_cache + mem.shmem == cached * 1024
        }),
{
    assert forall|name: Seq<char>, amount: u64| #[trigger]
        gives_kb(content, name, amount) implies kb_opt(text::lines(content), name) == Some(
        numbers::capped(amount * 1024),
    ) by {
        lemma_kb_is_read(content, name, amount);
    }
}

/// Whether lines give a count under a name: on the last line with that name.
pub open spec fn gives_count(lines: Seq<Seq<char>>, name: Seq<char>, count: u64) -> bool {
    exists|k: int|
        0 <= k < lines.len() && #[trigger] text::words(lines[k]) == seq![
            name,
            numbers::decimal(count as int),
        ] && (forall|j: int|
            k < j < lines.len() ==> text::word(#[trigger] lines[j], 0) != Some(name))
}

proof fn lemma_count_is_read(lines: Seq<Seq<char>>, name: Seq<char>, count: u64)
    requires
        gives_count(lines, name, count),
    ensures
        value_of(pairs_in(lines), name) == Some(count),
    decreases lines.len(),
{
    let k = choose|k: int|
        0 <= k < lines.len() && #[trigger] text::words(lines[k]) == seq![
            name,
            numbers::decimal(count as int),
        ] && (forall|j: int|
            k < j < lines.len() ==> text::word(#[trigger] lines[j], 0) != Some(name));
    let last = lines.len() - 1;
    let front = lines.drop_last();
    assert(lines[last] == lines.last());
    if k == last {
        numbers::lemma_parse_decimal(count as int, u64::MAX as int);
        assert(pair_line(lines.last()) == Some((name, count)));
    } else {
        assert(front[k] == lines[k]);
        assert forall|j: int| k < j < front.len() implies text::word(#[trigger] front[j], 0) != Some(
            name,
        ) by {
            assert(front[j] == lines[j]);
        }
        lemma_count_is_read(front, name, count);
        assert(text::word(lines[last], 0) != Some(name));
        if let Some(pair) = pair_line(lines.last()) {
            lemma_other_pair(pairs_in(front), pair, name);
        }
    }
}

proof fn lemma_other_pair(pairs: Seq<(Seq<char>, u64)>, pair: (Seq<char>, u64), name: Seq<char>)
    requires
        pair.0 != name,
    ensures
        value_of(pairs.push(pair), name) == value_of(pairs, name),
{
    lemma_pair_behind(pairs, pair, name, pairs.len() - 1);
}

proof fn lemma_pair_behind(
    pairs: Seq<(Seq<char>, u64)>,
    pair: (Seq<char>, u64),
    name: Seq<char>,
    at: int,
)
    requires
        at < pairs.len(),
    ensures
        value_at(pairs.push(pair), name, at) == value_at(pairs, name, at),
    decreases at + 1,
{
    if at >= 0 {
        lemma_pair_behind(pairs, pair, name, at - 1);
    }
}

/// Every count of the memory system is the one that the kernel gives under its name.
pub proof fn lemma_memory_counts_go_by_name(content: Seq<char>, count: u64)
    ensures
        ({
            let lines = text::lines(content);
            let vm = vmstat_of(content);
            &&& gives_count(lines, "oom_kill"@, count) ==> vm.oom_kills == count
            &&& gives_count(lines, "pswpin"@, count) ==> vm.swap_in_pages == count
            &&& gives_count(lines, "pswpout"@, count) ==> vm.swap_out_pages == count
            &&& gives_count(lines, "pgmajfault"@, count) ==> vm.major_faults == count
            &&& gives_count(lines, "pgscan_direct"@, count) ==> vm.direct_reclaim_pages == count
            &&& gives_count(lines, "nr_foll_pin_acquired"@, count) ==> vm.foll_pin_acquired == Some(
                count,
            )
            &&& gives_count(lines, "nr_foll_pin_released"@, count) ==> vm.foll_pin_released == Some(
                count,
            )
        }),
{
    let lines = text::lines(content);
    assert forall|name: Seq<char>| #[trigger] gives_count(lines, name, count) implies value_of(
        pairs_in(lines),
        name,
    ) == Some(count) by {
        lemma_count_is_read(lines, name, count);
    }
}

/// A counter stands behind its name.
pub proof fn lemma_counter_stands_behind_its_name(key: Seq<char>, other: Seq<char>, v: u64)
    requires
        text::is_word(key),
        other != key,
    ensures
        ({
            let line = text::join(seq![key, numbers::decimal(v as int)], seq![' ']);
            &&& counter_line(line, key) == Some(v)
            &&& counter_line(line, other) is None
        }),
{
    let pieces = seq![key, numbers::decimal(v as int)];
    numbers::lemma_decimal_digits(v as int);
    numbers::lemma_parse_decimal(v as int, u64::MAX as int);
    assert forall|i: int| 0 <= i < pieces.len() implies text::is_word(#[trigger] pieces[i]) by {
        assert(i == 0 || i == 1);
    }
    text::lemma_spaced_words(pieces);
}

/// A core is told by the number behind `cpu`, with the times on its line; the line of all cores
/// together is that of none.
pub proof fn lemma_core_goes_by_its_number(cpu: u32, counts: Seq<Seq<char>>)
    requires
        forall|i: int| 0 <= i < counts.len() ==> text::is_word(#[trigger] counts[i]),
    ensures
        ({
            let line = text::join(
                seq!["cpu"@ + numbers::decimal(cpu as int)] + counts,
                seq![' '],
            );
            match core_line(line) {
                Some((number, times)) => number == cpu && cpu_line(line) == Some(times),
                None => cpu_line(line) is None,
            }
        }),
        core_line(text::join(seq!["cpu"@] + counts, seq![' '])) is None,
{
    let digits = numbers::decimal(cpu as int);
    let label = "cpu"@ + digits;
    let pieces = seq![label] + counts;
    let whole = seq!["cpu"@] + counts;
    reveal_strlit("cpu");
    numbers::lemma_decimal_digits(cpu as int);
    numbers::lemma_parse_decimal(cpu as int, u32::MAX as int);
    assert(text::is_word(label)) by {
        assert forall|i: int| 0 <= i < label.len() implies !text::is_space(#[trigger] label[i]) by {
            if i >= 3 {
                assert(label[i] == digits[i - 3]);
            }
        }
    }
    assert(text::is_word("cpu"@));
    assert forall|i: int| 0 <= i < pieces.len() implies text::is_word(#[trigger] pieces[i]) by {
        if i > 0 {
            assert(pieces[i] == counts[i - 1]);
        }
    }
    assert forall|i: int| 0 <= i < whole.len() implies text::is_word(#[trigger] whole[i]) by {
        if i > 0 {
            assert(whole[i] == counts[i - 1]);
        }
    }
    text::lemma_spaced_words(pieces);
    text::lemma_spaced_words(whole);
    assert(label.subrange(0, 3) =~= "cpu"@);
    assert(label.skip(3) =~= digits);
    assert(text::strip_prefix(label, "cpu"@) == Some(digits));
    assert("cpu"@.subrange(0, 3) =~= "cpu"@);
    assert("cpu"@.skip(3) =~= Seq::<char>::empty());
    assert(text::strip_prefix("cpu"@, "cpu"@) == Some(Seq::<char>::empty()));
}

/// The total of a pressure is the number behind its name, wherever on the line it stands.
pub proof fn lemma_total_is_told_by_name(before: Seq<Seq<char>>, v: u64, behind: Seq<Seq<char>>)
    requires
        forall|i: int|
            0 <= i < before.len() ==> !text::starts_with(#[trigger] before[i], "total="@),
    ensures
        prefixed_number(
            before + seq!["total="@ + numbers::decimal(v as int)] + behind,
            "total="@,
        ) == Some(v),
{
    let word = "total="@ + numbers::decimal(v as int);
    let words = before + seq![word] + behind;
    let at = before.len() as int;
    numbers::lemma_parse_decimal(v as int, u64::MAX as int);
    assert(words[at] == word);
    assert(word.subrange(0, "total="@.len() as int) =~= "total="@);
    assert(text::starts_with(words[at], "total="@));
    assert(word.skip("total="@.len() as int) =~= numbers::decimal(v as int));
    assert forall|j: int| 0 <= j < at implies !text::starts_with(#[trigger] words[j], "total="@) by {
        assert(words[j] == before[j]);
    }
    lemma_first_begins(words, "total="@, 0, at);
}

proof fn lemma_first_begins(words: Seq<Seq<char>>, prefix: Seq<char>, from: int, at: int)
    requires
        0 <= from <= at < words.len(),
        text::starts_with(words[at], prefix),
        forall|j: int| from <= j < at ==> !text::starts_with(#[trigger] words[j], prefix),
    ensures
        text::line_with_prefix(words, prefix, from) == Some(at),
    decreases at - from,
{
    if from < at {
        lemma_first_begins(words, prefix, from + 1, at);
    }
}

} // verus!
