//! Processes as `/proc` shows them.
use vstd::prelude::*;
use vstd::string::*;

use crate::order::TextMap;
use crate::{numbers, text};

verus! {

/// The fields of a stat line behind its `comm`, which is parenthesised and may hold
/// blanks and parentheses itself: everything after the last closing one.
pub open spec fn fields_of(stat: Seq<char>) -> Option<Seq<Seq<char>>> {
    match text::rfind_char(stat, ')', stat.len() as int) {
        Some(k) => Some(text::words(stat.skip(k + 1))),
        None => None,
    }
}

fn cut_fields<'a>(stat: &'a [char]) -> (r: Option<Vec<&'a [char]>>)
    ensures
        match r {
            Some(f) => fields_of(stat@) == Some(text::views(f@)),
            None => fields_of(stat@) is None,
        },
{
    match text::rcut_once(stat, ')') {
        Some((_, rest)) => Some(text::split_words(rest)),
        None => None,
    }
}

/// The fields of a stat line behind its `comm`; the first is the state.
pub fn stat_fields(stat: &str) -> (r: Option<Vec<String>>)
    ensures
        match r {
            Some(f) => fields_of(stat@) == Some(text::string_views(f@)),
            None => fields_of(stat@) is None,
        },
{
    let chars = text::chars_of(stat);
    match cut_fields(chars.as_slice()) {
        None => None,
        Some(fields) => {
            let ghost all = text::views(fields@);
            let mut out: Vec<String> = Vec::new();
            let mut i: usize = 0;
            while i < fields.len()
                invariant
                    i <= fields.len(),
                    all == text::views(fields@),
                    text::string_views(out@) == all.take(i as int),
                decreases fields.len() - i,
            {
                let ghost before = out@;
                out.push(text::string_of(fields[i]));
                assert(text::string_views(out@) == text::string_views(before).push(
                    fields@[i as int]@,
                ));
                assert(all.take(i + 1) == all.take(i as int).push(fields@[i as int]@));
                i = i + 1;
            }
            assert(all.take(i as int) == all);
            Some(out)
        },
    }
}

/// A field of a stat line as a number.
pub open spec fn number_field(stat: Seq<char>, n: int) -> Option<u64> {
    match fields_of(stat) {
        Some(f) => if 0 <= n < f.len() {
            numbers::as_u64(f[n])
        } else {
            None
        },
        None => None,
    }
}

fn read_number_field(stat: &str, n: usize) -> (r: Option<u64>)
    ensures
        r == number_field(stat@, n as int),
{
    let chars = text::chars_of(stat);
    match cut_fields(chars.as_slice()) {
        Some(f) => {
            assert(text::views(f@).len() == f@.len());
            if n < f.len() {
                assert(text::views(f@)[n as int] == f@[n as int]@);
                numbers::read_u64(f[n])
            } else {
                None
            }
        },
        None => None,
    }
}

/// Ticks of processor time that a process has used.
pub open spec fn jiffies(stat: Seq<char>) -> Option<u64> {
    match (number_field(stat, 11), number_field(stat, 12)) {
        (Some(user), Some(system)) => Some(numbers::capped(user + system)),
        _ => None,
    }
}

/// Ticks of processor time that a process has used, from its stat line.
pub fn read_proc_jiffies(stat: &str) -> (r: Option<u64>)
    ensures
        r == jiffies(stat@),
{
    match (read_number_field(stat, 11), read_number_field(stat, 12)) {
        (Some(user), Some(system)) => Some(user.saturating_add(system)),
        _ => None,
    }
}

/// The number nearest to `n` that an `i64` holds.
pub open spec fn clamped(n: int) -> i64 {
    if n > i64::MAX {
        i64::MAX
    } else if n < i64::MIN {
        i64::MIN
    } else {
        n as i64
    }
}

/// When a process started: the boot time and the ticks since then.
pub open spec fn started_at(stat: Seq<char>, btime: i64, hz: u64) -> Option<i64> {
    match number_field(stat, 19) {
        Some(ticks) => Some(clamped(btime + ticks as int / hz as int)),
        None => None,
    }
}

/// When a process started, from its stat line; `hz` ticks make a second.
pub fn read_started_at(stat: &str, btime: i64, hz: u64) -> (r: Option<i64>)
    requires
        hz > 0,
    ensures
        r == started_at(stat@, btime, hz),
{
    match read_number_field(stat, 19) {
        Some(ticks) => {
            let sum: i128 = btime as i128 + (ticks / hz) as i128;
            if sum > i64::MAX as i128 {
                Some(i64::MAX)
            } else {
                Some(sum as i64)
            }
        },
        None => None,
    }
}

/// Resident memory in bytes.
pub open spec fn rss(status: Seq<char>) -> Option<u64> {
    match text::after_line_prefix(text::lines(status), "VmRSS:"@) {
        Some(rest) => match text::word(rest, 0) {
            Some(w) => match numbers::as_u64(w) {
                Some(kb) => Some(numbers::capped(kb * 1024)),
                None => None,
            },
            None => None,
        },
        None => None,
    }
}

/// Resident memory in bytes, from a process's status.
pub fn read_rss(status: &str) -> (r: Option<u64>)
    ensures
        r == rss(status@),
{
    let chars = text::chars_of(status);
    let lines = text::split_lines(chars.as_slice());
    match text::find_after(&lines, "VmRSS:") {
        Some(rest) => match text::nth_word(rest, 0) {
            Some(w) => match numbers::read_u64(w) {
                Some(kb) => Some(numbers::mul_capped(kb, 1024)),
                None => None,
            },
            None => None,
        },
        None => None,
    }
}

/// How many files a process may hold open.
pub open spec fn fd_limit(limits: Seq<char>) -> Option<u64> {
    match text::line_with_prefix(text::lines(limits), "Max open files"@, 0) {
        Some(k) => match text::word(text::lines(limits)[k], 3) {
            Some(w) => numbers::as_u64(w),
            None => None,
        },
        None => None,
    }
}

/// How many files a process may hold open, from its limits.
pub fn read_fd_limit(limits: &str) -> (r: Option<u64>)
    ensures
        r == fd_limit(limits@),
{
    let chars = text::chars_of(limits);
    let lines = text::split_lines(chars.as_slice());
    match text::find_line(&lines, "Max open files") {
        Some(k) => {
            assert(text::views(lines@)[k as int] == lines@[k as int]@);
            match text::nth_word(lines[k], 3) {
                Some(w) => numbers::read_u64(w),
                None => None,
            }
        },
        None => None,
    }
}

/// An entry of `/proc`: its name, and what its `comm` and `stat` held.
#[derive(Debug, PartialEq, Eq)]
pub struct Entry {
    pub name: String,
    pub comm: Option<String>,
    pub stat: Option<String>,
}

/// Whether a process of this name is measured.
pub open spec fn is_watched(comm: Seq<char>) -> bool {
    comm == "xray"@ || comm == "phantun-client"@ || comm == "brocade-agent"@ || comm
        == "wireguard-go"@ || comm == "boringtun"@
}

/// Whether a process with this `comm` is measured.
pub fn watched(comm: &str) -> (r: bool)
    ensures
        r == is_watched(text::trim(comm@)),
{
    let chars = text::chars_of(comm);
    let c = text::trimmed(chars.as_slice());
    text::same(c, "xray") || text::same(c, "phantun-client") || text::same(c, "brocade-agent")
        || text::same(c, "wireguard-go") || text::same(c, "boringtun")
}

/// A measured process: its name, when it started in ticks, and its number. One that
/// has ended and waits to be collected is none, though it keeps its name.
pub open spec fn sighting(entry: Entry) -> Option<(Seq<char>, u64, u32)> {
    match (numbers::as_u32(entry.name@), entry.comm, entry.stat) {
        (Some(pid), Some(comm), Some(stat)) => if !is_watched(text::trim(comm@)) {
            None
        } else {
            match fields_of(stat@) {
                Some(f) => if f.len() > 0 && f[0] == "Z"@ {
                    None
                } else {
                    match number_field(stat@, 19) {
                        Some(started) => Some((text::trim(comm@), started, pid)),
                        None => None,
                    }
                },
                None => None,
            }
        },
        _ => None,
    }
}

fn read_sighting(entry: &Entry) -> (r: Option<(String, u64, u32)>)
    ensures
        match r {
            Some((name, started, pid)) => sighting(*entry) == Some((name@, started, pid)),
            None => sighting(*entry) is None,
        },
{
    let name = text::chars_of(entry.name.as_str());
    match (numbers::read_u32(name.as_slice()), &entry.comm, &entry.stat) {
        (Some(pid), Some(comm), Some(stat)) => {
            if !watched(comm.as_str()) {
                return None;
            }
            let chars = text::chars_of(stat.as_str());
            match cut_fields(chars.as_slice()) {
                Some(f) => {
                    assert(text::views(f@).len() == f@.len());
                    if f.len() > 0 {
                        assert(text::views(f@)[0] == f@[0]@);
                        if text::same(f[0], "Z") {
                            return None;
                        }
                    }
                    match read_number_field(stat.as_str(), 19) {
                        Some(started) => {
                            let c = text::chars_of(comm.as_str());
                            Some((text::string_of(text::trimmed(c.as_slice())), started, pid))
                        },
                        None => None,
                    }
                },
                None => None,
            }
        },
        _ => None,
    }
}

/// The process of a name that started first among the first `n` entries; among those
/// that started together the one met first.
pub open spec fn earliest(entries: Seq<Entry>, name: Seq<char>, n: int) -> Option<(u64, u32)>
    decreases n,
{
    if n <= 0 || n > entries.len() {
        None
    } else {
        let best = earliest(entries, name, n - 1);
        match sighting(entries[n - 1]) {
            Some((comm, started, pid)) => if comm != name {
                best
            } else {
                match best {
                    Some((first, _)) => if started < first {
                        Some((started, pid))
                    } else {
                        best
                    },
                    None => Some((started, pid)),
                }
            },
            None => best,
        }
    }
}

proof fn lemma_unwatched_is_never_found(entries: Seq<Entry>, name: Seq<char>, n: int)
    requires
        !is_watched(name),
    ensures
        earliest(entries, name, n) is None,
    decreases n,
{
    if 0 < n <= entries.len() {
        lemma_unwatched_is_never_found(entries, name, n - 1);
    }
}

/// The process found is a live one of that name, and no live one of that name
/// started before it.
pub proof fn lemma_earliest_live_process(entries: Seq<Entry>, name: Seq<char>, i: int)
    requires
        0 <= i < entries.len(),
    ensures
        match sighting(entries[i]) {
            Some((comm, started, _)) => comm == name ==> (earliest(
                entries,
                name,
                entries.len() as int,
            ) matches Some((first, _)) && first <= started),
            None => true,
        },
{
    lemma_earliest_upto(entries, name, i, entries.len() as int);
}

proof fn lemma_earliest_upto(entries: Seq<Entry>, name: Seq<char>, i: int, n: int)
    requires
        0 <= i < n <= entries.len(),
    ensures
        match sighting(entries[i]) {
            Some((comm, started, _)) => comm == name ==> (earliest(entries, name, n) matches Some(
                (first, _),
            ) && first <= started),
            None => true,
        },
    decreases n,
{
    if i < n - 1 {
        lemma_earliest_upto(entries, name, i, n - 1);
    }
}

/// The number of each measured process.
pub fn find_pids(entries: &Vec<Entry>) -> (r: TextMap<u32>)
    ensures
        r.wf(),
        forall|name: Seq<char>| #[trigger]
            r@.dom().contains(name) == (earliest(entries@, name, entries@.len() as int) is Some),
        forall|name: Seq<char>| #[trigger]
            r@.dom().contains(name) ==> Some(r@[name]) == (match earliest(
                entries@,
                name,
                entries@.len() as int,
            ) {
                Some((_, pid)) => Some(pid),
                None => None,
            }),
{
    let mut best: TextMap<(u64, u32)> = TextMap::new();
    let mut out: TextMap<u32> = TextMap::new();
    let mut i: usize = 0;
    while i < entries.len()
        invariant
            i <= entries.len(),
            best.wf(),
            out.wf(),
            forall|name: Seq<char>| #[trigger]
                best@.dom().contains(name) == (earliest(entries@, name, i as int) is Some),
            forall|name: Seq<char>| #[trigger]
                best@.dom().contains(name) ==> Some(best@[name]) == earliest(
                    entries@,
                    name,
                    i as int,
                ),
            forall|name: Seq<char>| #[trigger]
                out@.dom().contains(name) == best@.dom().contains(name),
            forall|name: Seq<char>| #[trigger]
                out@.dom().contains(name) ==> out@[name] == best@[name].1,
        decreases entries.len() - i,
    {
        match read_sighting(&entries[i]) {
            Some((name, started, pid)) => {
                let replace = match best.get(name.as_str()) {
                    Some(slot) => started < slot.0,
                    None => true,
                };
                if replace {
                    best.insert(name.as_str().to_owned(), (started, pid));
                    out.insert(name, pid);
                }
            },
            None => {},
        }
        i = i + 1;
    }
    out
}

/// The ticks used by each named process whose stat line could be read and parsed.
pub open spec fn cpu_by_name(stats: Seq<(String, String)>) -> Map<Seq<char>, u64>
    decreases stats.len(),
{
    if stats.len() == 0 {
        Map::empty()
    } else {
        let front = cpu_by_name(stats.drop_last());
        match jiffies(stats.last().1@) {
            Some(ticks) => front.insert(stats.last().0@, ticks),
            None => front,
        }
    }
}

/// The ticks used by each named process, from its stat line.
pub fn read_proc_cpu(stats: &Vec<(String, String)>) -> (r: TextMap<u64>)
    ensures
        r.wf(),
        r@ == cpu_by_name(stats@),
{
    let mut out: TextMap<u64> = TextMap::new();
    let mut i: usize = 0;
    while i < stats.len()
        invariant
            i <= stats.len(),
            out.wf(),
            out@ == cpu_by_name(stats@.take(i as int)),
        decreases stats.len() - i,
    {
        proof {
            assert(stats@.take(i + 1).drop_last() == stats@.take(i as int));
            assert(stats@.take(i + 1).last() == stats@[i as int]);
        }
        match read_proc_jiffies(stats[i].1.as_str()) {
            Some(ticks) => {
                out.insert(stats[i].0.as_str().to_owned(), ticks);
            },
            None => {},
        }
        i = i + 1;
    }
    assert(stats@.take(i as int) == stats@);
    out
}

/// What was read of one process.
#[derive(Debug, PartialEq, Eq)]
pub struct ProcessFiles {
    pub status: Option<String>,
    pub stat: Option<String>,
    pub fds: Option<u64>,
    pub limits: Option<String>,
}

/// A measured process, but for its share of the processors.
#[derive(Debug, PartialEq, Eq)]
pub struct ProcessSample {
    pub proc: String,
    pub rss_bytes: Option<u64>,
    pub started_at_unix_secs: Option<i64>,
    pub fds: Option<u64>,
    pub fd_limit: Option<u64>,
}

/// One measured process; without a process every value is missing.
pub fn process_sample(label: &str, files: Option<&ProcessFiles>, btime: i64, hz: u64) -> (r:
    ProcessSample)
    requires
        hz > 0,
    ensures
        r.proc@ == label@,
        r.rss_bytes == (match files {
            Some(f) => match f.status {
                Some(t) => rss(t@),
                None => None,
            },
            None => None::<u64>,
        }),
        r.started_at_unix_secs == (match files {
            Some(f) => match f.stat {
                Some(t) => started_at(t@, btime, hz),
                None => None,
            },
            None => None::<i64>,
        }),
        r.fds == (match files {
            Some(f) => f.fds,
            None => None::<u64>,
        }),
        r.fd_limit == (match files {
            Some(f) => match f.limits {
                Some(t) => fd_limit(t@),
                None => None,
            },
            None => None::<u64>,
        }),
{
    match files {
        Some(f) => ProcessSample {
            proc: label.to_owned(),
            rss_bytes: match &f.status {
                Some(t) => read_rss(t.as_str()),
                None => None,
            },
            started_at_unix_secs: match &f.stat {
                Some(t) => read_started_at(t.as_str(), btime, hz),
                None => None,
            },
            fds: f.fds,
            fd_limit: match &f.limits {
                Some(t) => read_fd_limit(t.as_str()),
                None => None,
            },
        },
        None => ProcessSample {
            proc: label.to_owned(),
            rss_bytes: None,
            started_at_unix_secs: None,
            fds: None,
            fd_limit: None,
        },
    }
}

/// The number under a name.
pub open spec fn pid_of(pids: Map<Seq<char>, u32>, name: Seq<char>) -> Option<u32> {
    if pids.dom().contains(name) {
        Some(pids[name])
    } else {
        None
    }
}

fn get_pid(pids: &TextMap<u32>, name: &str) -> (r: Option<u32>)
    requires
        pids.wf(),
    ensures
        r == pid_of(pids@, name@),
{
    match pids.get(name) {
        Some(pid) => Some(*pid),
        None => None,
    }
}

/// A process that a report lists.
#[derive(Debug, PartialEq, Eq)]
pub struct ReportedProcess {
    /// What the report calls it.
    pub label: String,
    pub pid: Option<u32>,
    /// The name under which its share of the processor was measured, where it was.
    pub measured: Option<String>,
}

/// A process that a report lists, by its characters.
pub struct ReportedView {
    pub label: Seq<char>,
    pub pid: Option<u32>,
    pub measured: Option<Seq<char>>,
}

impl View for ReportedProcess {
    type V = ReportedView;

    open spec fn view(&self) -> ReportedView {
        ReportedView {
            label: self.label@,
            pid: self.pid,
            measured: match self.measured {
                Some(name) => Some(name@),
                None => None,
            },
        }
    }
}

/// A process that is listed under a label of its own. Its share of the processor is told
/// where it runs and a time is known for it.
pub open spec fn listed(
    label: Seq<char>,
    name: Seq<char>,
    pids: Map<Seq<char>, u32>,
    times: Map<Seq<char>, u64>,
) -> ReportedView {
    ReportedView {
        label,
        pid: pid_of(pids, name),
        measured: if pids.dom().contains(name) && times.dom().contains(name) {
            Some(name)
        } else {
            None
        },
    }
}

fn make_listed(label: &str, name: &str, pids: &TextMap<u32>, times: &TextMap<u64>) -> (r:
    ReportedProcess)
    requires
        pids.wf(),
        times.wf(),
    ensures
        r@ == listed(label@, name@, pids@, times@),
{
    let pid = get_pid(pids, name);
    let measured = match (pid, times.get(name)) {
        (Some(_), Some(_)) => Some(name.to_owned()),
        _ => None,
    };
    ReportedProcess { label: label.to_owned(), pid, measured }
}

/// The name of a WireGuard in user space: the first of the two that runs. One in the
/// kernel has no process under either.
pub open spec fn wg_name(pids: Map<Seq<char>, u32>) -> Seq<char> {
    if pids.dom().contains("wireguard-go"@) {
        "wireguard-go"@
    } else {
        "boringtun"@
    }
}

/// The processes that a report lists, in its order: the proxy, the disguise client, the
/// agent itself, and a WireGuard in user space, which is measured like any other.
pub open spec fn report_list(pids: Map<Seq<char>, u32>, times: Map<Seq<char>, u64>) -> Seq<
    ReportedView,
> {
    seq![
        listed("xray"@, "xray"@, pids, times),
        listed("phantun"@, "phantun-client"@, pids, times),
        listed("agent"@, "brocade-agent"@, pids, times),
        listed("wg"@, wg_name(pids), pids, times),
    ]
}

/// The processes that a report lists, in its order.
pub fn reported_processes(pids: &TextMap<u32>, times: &TextMap<u64>) -> (r: Vec<ReportedProcess>)
    requires
        pids.wf(),
        times.wf(),
    ensures
        Seq::new(r@.len(), |i: int| r@[i]@) == report_list(pids@, times@),
{
    let mut out: Vec<ReportedProcess> = Vec::new();
    out.push(make_listed("xray", "xray", pids, times));
    out.push(make_listed("phantun", "phantun-client", pids, times));
    out.push(make_listed("agent", "brocade-agent", pids, times));
    let wg = match get_pid(pids, "wireguard-go") {
        Some(_) => "wireguard-go",
        None => "boringtun",
    };
    out.push(make_listed("wg", wg, pids, times));
    assert(Seq::new(out@.len(), |i: int| out@[i]@) =~= report_list(pids@, times@));
    out
}

/// A process, told apart from a later one of the same number by its start.
#[derive(Debug, Clone, Copy, PartialEq, Eq, Structural)]
pub struct ProcessRef {
    pub pid: u32,
    pub start_ticks: u64,
}

/// The state and the start in a stat line, or what is missing of them.
pub open spec fn proc_stat(stat: Seq<char>) -> Result<(char, u64), Seq<char>> {
    match text::rsplit_once_sub(stat, ") "@) {
        None => Err("proc stat is missing process comm"@),
        Some((_, rest)) => {
            let fields = text::words(rest);
            if fields.len() == 0 || fields[0].len() == 0 {
                Err("proc stat is missing process state"@)
            } else if fields.len() <= 19 {
                Err("proc stat is missing starttime"@)
            } else {
                match numbers::parse_unsigned(fields[19], 10, u64::MAX as int) {
                    Ok(ticks) => Ok((fields[0][0], ticks as u64)),
                    Err(e) => Err("failed to parse proc stat starttime: "@ + e.sentence()),
                }
            }
        },
    }
}

/// The state and the start in a stat line.
pub fn parse_proc_stat(stat: &str) -> (r: Result<(char, u64), String>)
    ensures
        match r {
            Ok(v) => proc_stat(stat@) == Ok::<(char, u64), Seq<char>>(v),
            Err(e) => proc_stat(stat@) == Err::<(char, u64), Seq<char>>(e@),
        },
{
    let chars = text::chars_of(stat);
    match text::rcut_once_sub(chars.as_slice(), ") ") {
        None => Err("proc stat is missing process comm".to_owned()),
        Some((_, rest)) => {
            let fields = text::split_words(rest);
            assert(text::views(fields@).len() == fields@.len());
            if fields.len() == 0 {
                return Err("proc stat is missing process state".to_owned());
            }
            assert(text::views(fields@)[0] == fields@[0]@);
            if fields[0].len() == 0 {
                return Err("proc stat is missing process state".to_owned());
            }
            if fields.len() <= 19 {
                return Err("proc stat is missing starttime".to_owned());
            }
            assert(text::views(fields@)[19] == fields@[19]@);
            match numbers::read_unsigned(fields[19], 10, u64::MAX) {
                Ok(ticks) => Ok((fields[0][0], ticks)),
                Err(e) => {
                    let mut out = "failed to parse proc stat starttime: ".to_owned();
                    out.append(e.describe().as_str());
                    Err(out)
                },
            }
        },
    }
}

/// The live process behind a stat line.
pub open spec fn live(pid: u32, stat: Option<Seq<char>>) -> Option<ProcessRef> {
    match stat {
        Some(t) => match proc_stat(t) {
            Ok((state, start_ticks)) => if state != 'Z' {
                Some(ProcessRef { pid, start_ticks })
            } else {
                None
            },
            Err(_) => None,
        },
        None => None,
    }
}

/// The live process behind a stat line; none where it has ended, collected or not.
pub fn process_ref(pid: u32, stat: Option<&str>) -> (r: Option<ProcessRef>)
    ensures
        r == live(
            pid,
            match stat {
                Some(t) => Some(t@),
                None => None,
            },
        ),
{
    match stat {
        Some(t) => match parse_proc_stat(t) {
            Ok((state, start_ticks)) => if state != 'Z' {
                Some(ProcessRef { pid, start_ticks })
            } else {
                None
            },
            Err(_) => None,
        },
        None => None,
    }
}

/// Whether the process still runs: its number now belongs to a live process that
/// started at the same moment.
pub fn process_is_live(process: ProcessRef, stat: Option<&str>) -> (r: bool)
    ensures
        r == (live(
            process.pid,
            match stat {
                Some(t) => Some(t@),
                None => None,
            },
        ) == Some(process)),
{
    match process_ref(process.pid, stat) {
        Some(current) => current.start_ticks == process.start_ticks,
        None => false,
    }
}

/// The largest number a process can have.
pub const MAX_PID: u32 = 0x7fff_ffff;

/// The live process of a name that an entry of `/proc` shows.
pub open spec fn named(entry: Entry, name: Seq<char>) -> Option<ProcessRef> {
    match (numbers::as_u32(entry.name@), entry.comm, entry.stat) {
        (Some(pid), Some(comm), Some(stat)) => if pid <= MAX_PID && text::trim(comm@) == name {
            live(pid, Some(stat@))
        } else {
            None
        },
        _ => None,
    }
}

/// The live processes of a name.
pub open spec fn all_named(entries: Seq<Entry>, name: Seq<char>) -> Seq<ProcessRef>
    decreases entries.len(),
{
    if entries.len() == 0 {
        seq![]
    } else {
        let front = all_named(entries.drop_last(), name);
        match named(entries.last(), name) {
            Some(p) => front.push(p),
            None => front,
        }
    }
}

/// Every live process whose kernel name is exactly `name`, in the order of the walk.
pub fn live_processes_named(entries: &Vec<Entry>, name: &str) -> (r: Vec<ProcessRef>)
    ensures
        r@ == all_named(entries@, name@),
{
    let mut out: Vec<ProcessRef> = Vec::new();
    let mut i: usize = 0;
    while i < entries.len()
        invariant
            i <= entries.len(),
            out@ == all_named(entries@.take(i as int), name@),
        decreases entries.len() - i,
    {
        proof {
            assert(entries@.take(i + 1).drop_last() == entries@.take(i as int));
            assert(entries@.take(i + 1).last() == entries@[i as int]);
        }
        let number = text::chars_of(entries[i].name.as_str());
        match (numbers::read_u32(number.as_slice()), &entries[i].comm, &entries[i].stat) {
            (Some(pid), Some(comm), Some(stat)) => {
                let c = text::chars_of(comm.as_str());
                if pid <= MAX_PID && text::same(text::trimmed(c.as_slice()), name) {
                    match process_ref(pid, Some(stat.as_str())) {
                        Some(p) => {
                            out.push(p);
                        },
                        None => {},
                    }
                }
            },
            _ => {},
        }
        i = i + 1;
    }
    assert(entries@.take(i as int) == entries@);
    out
}

/// Whether a proxy runs: whether `/proc` shows a live one.
pub fn xray_running(entries: &Vec<Entry>) -> (r: bool)
    ensures
        r == (all_named(entries@, "xray"@).len() > 0),
{
    live_processes_named(entries, "xray").len() > 0
}

/// How far stopping processes has come.
#[derive(Debug, Clone, Copy, PartialEq, Eq, Structural)]
pub enum Stopping {
    /// Nothing was sent yet.
    Begun,
    /// They were asked to end, and the grace has passed.
    Asked,
    /// They were killed, and the grace has passed.
    Killed,
}

/// What to do next to stop processes.
#[derive(Debug, PartialEq, Eq)]
pub enum StopStep {
    /// None is left.
    Done,
    /// Ask those that are left to end, then wait out the grace.
    Terminate,
    /// Kill those that are left, then wait out the grace.
    Kill,
    /// They could not be stopped.
    Failed(String),
}

/// The numbers of processes, in order.
pub open spec fn pid_texts(processes: Seq<ProcessRef>) -> Seq<Seq<char>> {
    Seq::new(processes.len(), |i: int| numbers::decimal(processes[i].pid as int))
}

/// The next step towards stopping the proxy, from those of its processes that still
/// run. Each escalation happens once, and what survives a kill is an error.
pub fn terminate_xray(stage: Stopping, survivors: &Vec<ProcessRef>) -> (r: StopStep)
    ensures
        survivors@.len() == 0 ==> r is Done,
        survivors@.len() > 0 ==> match stage {
            Stopping::Begun => r is Terminate,
            Stopping::Asked => r is Kill,
            Stopping::Killed => r matches StopStep::Failed(e) && e@
                == "xray 进程在 SIGKILL 后仍未退出："@ + text::join(pid_texts(survivors@), ", "@),
        },
{
    if survivors.len() == 0 {
        return StopStep::Done;
    }
    match stage {
        Stopping::Begun => StopStep::Terminate,
        Stopping::Asked => StopStep::Kill,
        Stopping::Killed => {
            let mut numbers_left: Vec<String> = Vec::new();
            let mut i: usize = 0;
            while i < survivors.len()
                invariant
                    i <= survivors.len(),
                    text::string_views(numbers_left@) == pid_texts(survivors@).take(i as int),
                decreases survivors.len() - i,
            {
                let ghost before = numbers_left@;
                numbers_left.push(numbers::decimal_string(survivors[i].pid as u64));
                proof {
                    let all = pid_texts(survivors@);
                    assert(text::string_views(numbers_left@) == text::string_views(before).push(
                        all[i as int],
                    ));
                    assert(all.take(i + 1) == all.take(i as int).push(all[i as int]));
                }
                i = i + 1;
            }
            assert(pid_texts(survivors@).take(i as int) == pid_texts(survivors@));
            let mut out = "xray 进程在 SIGKILL 后仍未退出：".to_owned();
            out.append(text::join_strings(&numbers_left, ", ").as_str());
            StopStep::Failed(out)
        },
    }
}

/// What is said of a signal that could not be sent; one that only came too late is
/// no failure.
pub fn signal_failure(pid: u32, signal: i32, no_such_process: bool, error: &str) -> (r: Option<
    String,
>)
    ensures
        match r {
            None => no_such_process,
            Some(e) => !no_such_process && e@ == "signal xray pid "@ + numbers::decimal(pid as int)
                + " with "@ + numbers::signed_decimal(signal as int) + ": "@ + error@,
        },
{
    if no_such_process {
        return None;
    }
    let mut out = "signal xray pid ".to_owned();
    out.append(numbers::decimal_string(pid as u64).as_str());
    out.append(" with ");
    out.append(numbers::signed_string(signal as i64).as_str());
    out.append(": ");
    out.append(error);
    Some(out)
}

/// When the serving proxy started, and a name for that run of it.
#[derive(Debug, PartialEq, Eq)]
pub struct XrayProcessIdentity {
    pub started_at_unix_secs: i64,
    pub epoch: String,
}

/// The first among the first `n` processes that started before all of them.
pub open spec fn oldest(processes: Seq<ProcessRef>, n: int) -> Option<ProcessRef>
    decreases n,
{
    if n <= 0 || n > processes.len() {
        None
    } else {
        match oldest(processes, n - 1) {
            Some(p) => if processes[n - 1].start_ticks < p.start_ticks {
                Some(processes[n - 1])
            } else {
                Some(p)
            },
            None => Some(processes[n - 1]),
        }
    }
}

/// The boot time on the first line at or after `from` that gives one.
pub open spec fn boot_time(lines: Seq<Seq<char>>, from: int) -> Option<u64>
    decreases lines.len() - from,
{
    if from < 0 || from >= lines.len() {
        None
    } else {
        match text::split_once(lines[from], ' ') {
            Some((name, value)) => if name == "btime"@ {
                match numbers::as_u64(text::trim(value)) {
                    Some(v) => Some(v),
                    None => boot_time(lines, from + 1),
                }
            } else {
                boot_time(lines, from + 1)
            },
            None => boot_time(lines, from + 1),
        }
    }
}

fn read_boot_time(stat: &str) -> (r: Option<u64>)
    ensures
        r == boot_time(text::lines(stat@), 0),
{
    let chars = text::chars_of(stat);
    let lines = text::split_lines(chars.as_slice());
    let ghost all = text::lines(stat@);
    let mut i: usize = 0;
    while i < lines.len()
        invariant
            i <= lines.len(),
            all == text::views(lines@),
            all == text::lines(stat@),
            boot_time(all, 0) == boot_time(all, i as int),
        decreases lines.len() - i,
    {
        assert(all[i as int] == lines@[i as int]@);
        match text::cut_once(lines[i], ' ') {
            Some((name, value)) => {
                if text::same(name, "btime") {
                    match numbers::read_u64(text::trimmed(value)) {
                        Some(v) => {
                            return Some(v);
                        },
                        None => {},
                    }
                }
            },
            None => {},
        }
        i = i + 1;
    }
    None
}

/// How many ticks make a second, as `getconf` printed it; a hundred where it did not.
pub open spec fn ticks_per_second(printed: Option<Seq<char>>) -> u64 {
    match printed {
        Some(t) => match numbers::as_u64(text::trim(t)) {
            Some(v) => if v > 0 {
                v
            } else {
                100
            },
            None => 100,
        },
        None => 100,
    }
}

/// How many ticks make a second, as `getconf` printed it.
pub fn clock_ticks(printed: Option<&str>) -> (r: u64)
    ensures
        r > 0,
        r == ticks_per_second(
            match printed {
                Some(t) => Some(t@),
                None => None,
            },
        ),
{
    match printed {
        Some(t) => {
            let chars = text::chars_of(t);
            match numbers::read_u64(text::trimmed(chars.as_slice())) {
                Some(v) => if v > 0 {
                    v
                } else {
                    100
                },
                None => 100,
            }
        },
        None => 100,
    }
}

/// The identity of the serving proxy: of its live processes the oldest, since probes
/// and queries run for moments only.
pub open spec fn identity_of(
    processes: Seq<ProcessRef>,
    stat: Result<Seq<char>, Seq<char>>,
    printed: Option<Seq<char>>,
) -> Result<(i64, Seq<char>), Seq<char>> {
    match oldest(processes, processes.len() as int) {
        None => Err("xray process is not running"@),
        Some(p) => match stat {
            Err(e) => Err("failed to read /proc/stat: "@ + e),
            Ok(t) => match boot_time(text::lines(t), 0) {
                None => Err("failed to read btime from /proc/stat"@),
                Some(btime) => {
                    let started = btime + p.start_ticks as int / ticks_per_second(printed) as int;
                    if started > u64::MAX {
                        Err("xray start time overflow"@)
                    } else if started > i64::MAX {
                        Err("xray start time is out of range"@)
                    } else {
                        Ok(
                            (
                                started as i64,
                                numbers::decimal(btime as int) + ":"@ + numbers::decimal(
                                    p.start_ticks as int,
                                ),
                            ),
                        )
                    }
                },
            },
        },
    }
}

/// The identity of the serving proxy, from its live processes, `/proc/stat` and what
/// `getconf` printed.
pub fn xray_process_identity(
    processes: &Vec<ProcessRef>,
    stat: Result<&str, &str>,
    printed: Option<&str>,
) -> (r: Result<XrayProcessIdentity, String>)
    ensures
        ({
            let told = identity_of(
                processes@,
                match stat {
                    Ok(t) => Ok(t@),
                    Err(e) => Err(e@),
                },
                match printed {
                    Some(t) => Some(t@),
                    None => None,
                },
            );
            match r {
                Ok(id) => told == Ok::<(i64, Seq<char>), Seq<char>>(
                    (id.started_at_unix_secs, id.epoch@),
                ),
                Err(e) => told == Err::<(i64, Seq<char>), Seq<char>>(e@),
            }
        }),
{
    let mut best: Option<ProcessRef> = None;
    let mut i: usize = 0;
    while i < processes.len()
        invariant
            i <= processes.len(),
            best == oldest(processes@, i as int),
        decreases processes.len() - i,
    {
        let candidate = processes[i];
        best = match best {
            Some(p) => if candidate.start_ticks < p.start_ticks {
                Some(candidate)
            } else {
                Some(p)
            },
            None => Some(candidate),
        };
        i = i + 1;
    }
    let process = match best {
        Some(p) => p,
        None => {
            return Err("xray process is not running".to_owned());
        },
    };
    let content = match stat {
        Ok(t) => t,
        Err(e) => {
            let mut out = "failed to read /proc/stat: ".to_owned();
            out.append(e);
            return Err(out);
        },
    };
    let btime: u64 = match read_boot_time(content) {
        Some(v) => v,
        None => {
            return Err("failed to read btime from /proc/stat".to_owned());
        },
    };
    let hz: u64 = clock_ticks(printed);
    match btime.checked_add(process.start_ticks / hz) {
        None => Err("xray start time overflow".to_owned()),
        Some(started) => {
            if started > i64::MAX as u64 {
                return Err("xray start time is out of range".to_owned());
            }
            let mut epoch = numbers::decimal_string(btime);
            epoch.append(":");
            epoch.append(numbers::decimal_string(process.start_ticks).as_str());
            Ok(XrayProcessIdentity { started_at_unix_secs: started as i64, epoch })
        },
    }
}

/// The time now, from the seconds that the clock shows since 1970, or what it says
/// of being set before.
pub fn current_unix_secs(clock: Result<u64, &str>) -> (r: Result<i64, String>)
    ensures
        match clock {
            Ok(secs) => if secs <= i64::MAX {
                r == Ok::<i64, String>(secs as i64)
            } else {
                r matches Err(e) && e@ == "current unix time is out of range"@
            },
            Err(said) => r matches Err(e) && e@ == said@,
        },
{
    match clock {
        Ok(secs) => if secs <= i64::MAX as u64 {
            Ok(secs as i64)
        } else {
            Err("current unix time is out of range".to_owned())
        },
        Err(said) => Err(said.to_owned()),
    }
}

/// A stat line is read as the kernel prints it, whatever the process calls itself: behind its
/// name stand the fields, the first of them its state.
pub proof fn lemma_stat_line_reads_back(pid: Seq<char>, comm: Seq<char>, fields: Seq<Seq<char>>)
    requires
        fields.len() > 0,
        forall|i: int|
            0 <= i < fields.len() ==> text::is_word(#[trigger] fields[i]) && !fields[i].contains(
                ')',
            ),
    ensures
        fields_of(pid + " ("@ + comm + ") "@ + text::join(fields, seq![' '])) == Some(fields),
{
    reveal_strlit(" (");
    reveal_strlit(") ");
    let rest = text::join(fields, seq![' ']);
    let head = pid + " ("@ + comm;
    let line = head + ") "@ + rest;
    let at = head.len() as int;
    lemma_joined_without(fields, ')');
    text::lemma_rfind_char(line, ')', line.len() as int);
    assert(line[at] == ')');
    assert forall|j: int| at < j < line.len() implies line[j] != ')' by {
        if j > at + 1 {
            assert(line[j] == rest[j - at - 2]);
            assert(rest.contains(rest[j - at - 2]));
        }
    }
    assert(text::rfind_char(line, ')', line.len() as int) == Some(at));
    let behind = line.skip(at + 1);
    assert(behind =~= seq![' '] + rest);
    assert(behind.skip(1) =~= rest);
    assert(text::trim_start(behind) == text::trim_start(rest));
    text::lemma_trim_start(rest);
    assert(text::words(behind) == text::words(rest));
    text::lemma_spaced_words(fields);
}

proof fn lemma_joined_without(pieces: Seq<Seq<char>>, c: char)
    requires
        c != ' ',
        forall|i: int| 0 <= i < pieces.len() ==> !(#[trigger] pieces[i]).contains(c),
    ensures
        !text::join(pieces, seq![' ']).contains(c),
    decreases pieces.len(),
{
    let all = text::join(pieces, seq![' ']);
    if pieces.len() == 1 {
        assert(!pieces[0].contains(c));
    } else if pieces.len() > 1 {
        let front = pieces.drop_last();
        assert forall|i: int| 0 <= i < front.len() implies !(#[trigger] front[i]).contains(c) by {
            assert(front[i] == pieces[i]);
        }
        lemma_joined_without(front, c);
        let head = text::join(front, seq![' ']);
        let last = pieces.last();
        assert(!pieces[pieces.len() - 1].contains(c));
        if all.contains(c) {
            let i = choose|i: int| 0 <= i < all.len() && all[i] == c;
            if i < head.len() {
                assert(head.contains(head[i]));
            } else if i > head.len() {
                assert(last.contains(last[i - head.len() - 1]));
            }
        }
    }
}

/// The time that a process used is what it used for itself and what the kernel used for it,
/// the twelfth and the thirteenth field behind its name; when it started is the twentieth, in
/// ticks since the machine did.
pub proof fn lemma_times_stand_in_their_fields(
    stat: Seq<char>,
    fields: Seq<Seq<char>>,
    user: u64,
    system: u64,
    ticks: u64,
    btime: i64,
    hz: u64,
)
    requires
        fields_of(stat) == Some(fields),
        fields.len() >= 20,
        fields[11] == numbers::decimal(user as int),
        fields[12] == numbers::decimal(system as int),
        fields[19] == numbers::decimal(ticks as int),
        user + system <= u64::MAX,
        0 <= btime,
        hz > 0,
    ensures
        jiffies(stat) == Some((user + system) as u64),
        started_at(stat, btime, hz) matches Some(at) && (at < i64::MAX ==> (at - btime) * hz <= ticks
            < (at - btime + 1) * hz),
{
    numbers::lemma_parse_decimal(user as int, u64::MAX as int);
    numbers::lemma_parse_decimal(system as int, u64::MAX as int);
    numbers::lemma_parse_decimal(ticks as int, u64::MAX as int);
    let (t, h) = (ticks as int, hz as int);
    let q = t / h;
    assert(0 <= q && q * h <= t < (q + 1) * h) by (nonlinear_arith)
        requires
            t >= 0,
            h > 0,
            q == t / h,
    ;
}

/// Of several processes of a name the one that started first is measured: none that is seen
/// started before it.
pub proof fn lemma_first_started_is_measured(entries: Seq<Entry>, name: Seq<char>, n: int)
    requires
        0 <= n <= entries.len(),
    ensures
        match earliest(entries, name, n) {
            Some((started, pid)) => (exists|k: int|
                0 <= k < n && sighting(#[trigger] entries[k]) == Some((name, started, pid)))
                && forall|j: int|
                0 <= j < n ==> !started_before(#[trigger] entries[j], name, started),
            None => forall|j: int| 0 <= j < n ==> !seen_as(#[trigger] entries[j], name),
        },
    decreases n,
{
    if n > 0 {
        lemma_first_started_is_measured(entries, name, n - 1);
        if let Some((started, pid)) = earliest(entries, name, n - 1) {
            let k = choose|k: int|
                0 <= k < n - 1 && sighting(#[trigger] entries[k]) == Some((name, started, pid));
            assert(sighting(entries[k]) == Some((name, started, pid)));
        }
        if let Some((started, pid)) = earliest(entries, name, n) {
            if seen_as(entries[n - 1], name) && sighting(entries[n - 1]) == Some(
                (name, started, pid),
            ) {
                assert forall|j: int| 0 <= j < n implies !started_before(
                    #[trigger] entries[j],
                    name,
                    started,
                ) by {
                    if let Some((first, _)) = earliest(entries, name, n - 1) {
                        assert(j < n - 1 ==> !started_before(entries[j], name, first));
                    }
                }
            }
        }
    }
}

/// Whether an entry shows a process of a name.
pub open spec fn seen_as(entry: Entry, name: Seq<char>) -> bool {
    match sighting(entry) {
        Some((comm, _, _)) => comm == name,
        None => false,
    }
}

/// Whether an entry shows a process of a name that started earlier.
pub open spec fn started_before(entry: Entry, name: Seq<char>, ticks: u64) -> bool {
    match sighting(entry) {
        Some((comm, started, _)) => comm == name && started < ticks,
        None => false,
    }
}

/// The oldest of processes is one of them, none started before it, and of those that started
/// with it it stands first.
pub proof fn lemma_oldest_started_first(processes: Seq<ProcessRef>, n: int)
    requires
        0 < n <= processes.len(),
    ensures
        exists|k: int|
            0 <= k < n && oldest(processes, n) == Some(#[trigger] processes[k]) && (forall|j: int|
                0 <= j < n ==> processes[k].start_ticks <= (#[trigger] processes[j]).start_ticks)
                && forall|j: int|
                0 <= j < k ==> processes[k].start_ticks < (#[trigger] processes[j]).start_ticks,
    decreases n,
{
    if n == 1 {
        assert(oldest(processes, 0) is None);
        assert(oldest(processes, 1) == Some(processes[0]));
    } else {
        lemma_oldest_started_first(processes, n - 1);
        let k = choose|k: int|
            0 <= k < n - 1 && oldest(processes, n - 1) == Some(#[trigger] processes[k]) && (forall|
                j: int,
            |
                0 <= j < n - 1 ==> processes[k].start_ticks <= (
                #[trigger] processes[j]).start_ticks) && forall|j: int|
                0 <= j < k ==> processes[k].start_ticks < (#[trigger] processes[j]).start_ticks;
        if processes[n - 1].start_ticks < processes[k].start_ticks {
            assert(oldest(processes, n) == Some(processes[n - 1]));
        } else {
            assert(oldest(processes, n) == Some(processes[k]));
        }
    }
}

/// A process started as many whole seconds after the machine as its ticks make.
pub proof fn lemma_start_is_counted_from_boot(
    process: ProcessRef,
    stat: Seq<char>,
    printed: Option<Seq<char>>,
)
    ensures
        match (
            identity_of(seq![process], Ok(stat), printed),
            boot_time(text::lines(stat), 0),
        ) {
            (Ok((started, _)), Some(btime)) => {
                let ticks = ticks_per_second(printed) as int;
                let ran = started - btime;
                ran * ticks <= process.start_ticks < (ran + 1) * ticks
            },
            (Err(_), Some(btime)) => btime + process.start_ticks > i64::MAX,
            (found, None) => found is Err,
        },
{
    reveal_with_fuel(oldest, 2);
    assert(oldest(seq![process], 1) == Some(process));
    let ticks = ticks_per_second(printed) as int;
    let whole = process.start_ticks as int / ticks;
    assert(ticks > 0);
    assert(whole * ticks <= process.start_ticks < (whole + 1) * ticks && 0 <= whole
        <= process.start_ticks) by (nonlinear_arith)
        requires
            ticks > 0,
            process.start_ticks >= 0,
            whole == process.start_ticks as int / ticks,
    ;
}

/// What is told of resident memory in KiB is bytes.
pub proof fn lemma_resident_memory_is_in_bytes(kib: u64, rest: Seq<char>)
    requires
        kib * 1024 <= u64::MAX,
    ensures
        rss("VmRSS:"@ + (seq![' '] + numbers::decimal(kib as int) + seq![' '] + "kB"@) + "\n"@ + rest)
            == Some((kib * 1024) as u64),
{
    let digits = numbers::decimal(kib as int);
    let behind = seq![' '] + digits + seq![' '] + "kB"@;
    let line = "VmRSS:"@ + behind;
    let all = line + "\n"@ + rest;
    reveal_strlit("VmRSS:");
    reveal_strlit("kB");
    reveal_strlit("\n");
    numbers::lemma_decimal_digits(kib as int);
    numbers::lemma_parse_decimal(kib as int, u64::MAX as int);
    let at = line.len() as int;
    assert forall|j: int| 0 <= j < at implies #[trigger] all[j] != '\n' by {
        assert(all[j] == line[j]);
        if 7 <= j < 7 + digits.len() {
            assert(line[j] == digits[j - 7]);
        }
    }
    assert(all[at] == '\n');
    text::lemma_find_char_at(all, '\n', 0, at);
    assert(all.take(at) =~= line);
    assert(line.last() == 'B');
    assert(text::lines(all)[0] == line);
    assert(line.subrange(0, 6) =~= "VmRSS:"@);
    assert(text::starts_with(line, "VmRSS:"@));
    assert(text::line_with_prefix(text::lines(all), "VmRSS:"@, 0) == Some(0int));
    assert(line.skip(6) =~= behind);
    let pieces = seq![digits, "kB"@];
    assert(text::is_word(digits) && text::is_word("kB"@));
    text::lemma_spaced_words(pieces);
    text::lemma_join_one_more(seq![digits], "kB"@, seq![' ']);
    assert(seq![digits].push("kB"@) =~= pieces);
    assert(text::join(seq![digits], seq![' ']) =~= digits);
    let joined = digits + seq![' '] + "kB"@;
    assert(text::join(pieces, seq![' ']) == joined);
    assert(behind.skip(1) =~= joined);
    assert(text::is_space(behind[0]));
    assert(text::trim_start(behind) == text::trim_start(joined));
    text::lemma_trim_start(joined);
    assert(text::words(behind) == text::words(joined));
}

} // verus!
