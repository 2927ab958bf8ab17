//! Bounded logs: a file and its predecessor, which together never exceed a limit.
use vstd::prelude::*;
use vstd::string::*;

use crate::{bytes, numbers, paths, shell, text};

verus! {

/// The limits within which a log policy may lie, in MiB, and the policy where none is
/// set.
#[derive(Debug, Clone, Copy, PartialEq, Eq, Structural)]
pub struct LogLimits {
    pub min_mib: u32,
    pub max_mib: u32,
    pub default_mib: u32,
}

/// The first version of systemd that has a journal for each service.
pub const NAMESPACE_VERSION: u32 = 245;

/// Bytes in so many MiB.
pub fn max_bytes(max_mib: u32) -> (r: u64)
    ensures
        r == max_mib * 1024 * 1024,
{
    (max_mib as u64) * 1024 * 1024
}

/// A policy that lies within the limits, or what is said of one that does not.
pub fn validate_mib(max_mib: u32, limits: LogLimits) -> (r: Result<u32, String>)
    ensures
        match r {
            Ok(v) => v == max_mib && limits.min_mib <= max_mib <= limits.max_mib,
            Err(e) => !(limits.min_mib <= max_mib <= limits.max_mib) && e@ == "log max must be "@
                + numbers::decimal(limits.min_mib as int) + "..="@ + numbers::decimal(
                limits.max_mib as int,
            ) + " MiB"@,
        },
{
    if max_mib < limits.min_mib || max_mib > limits.max_mib {
        let mut out = "log max must be ".to_owned();
        out.append(numbers::decimal_string(limits.min_mib as u64).as_str());
        out.append("..=");
        out.append(numbers::decimal_string(limits.max_mib as u64).as_str());
        out.append(" MiB");
        return Err(out);
    }
    Ok(max_mib)
}

/// A log that has a policy of its own.
#[derive(Debug, Clone, Copy, PartialEq, Eq, Structural)]
pub enum BoundedLog {
    /// The agent's journal.
    Journal,
    Xray,
    /// Each process of the disguise layer.
    Phantun,
}

impl BoundedLog {
    /// The file that a policy is kept in.
    pub open spec fn file(self) -> Seq<char> {
        match self {
            BoundedLog::Journal => "agent-journal-max-mib"@,
            BoundedLog::Xray => "xray-log-max-mib"@,
            BoundedLog::Phantun => "log-max-mib"@,
        }
    }
}

/// Where the policy of a log is kept.
pub fn policy_path(state_dir: &str, log: BoundedLog) -> (r: String)
    ensures
        r@ == paths::joined(state_dir@, log.file()),
{
    let name = match log {
        BoundedLog::Journal => "agent-journal-max-mib",
        BoundedLog::Xray => "xray-log-max-mib",
        BoundedLog::Phantun => "log-max-mib",
    };
    paths::join(state_dir, name)
}

/// Logs with policies of their own keep them in files of their own.
pub proof fn lemma_policies_do_not_mix(state_dir: Seq<char>, a: BoundedLog, b: BoundedLog)
    requires
        a != b,
    ensures
        paths::joined(state_dir, a.file()) != paths::joined(state_dir, b.file()),
{
    reveal_strlit("agent-journal-max-mib");
    reveal_strlit("xray-log-max-mib");
    reveal_strlit("log-max-mib");
    assert(a.file().len() != b.file().len());
    paths::lemma_joined_names_differ(state_dir, a.file(), b.file());
}

/// The policy in a file: a number within the limits.
pub open spec fn policy_in(content: Option<Seq<char>>, limits: LogLimits) -> Option<u32> {
    match content {
        Some(t) => match numbers::as_u32(text::trim(t)) {
            Some(v) => if limits.min_mib <= v <= limits.max_mib {
                Some(v)
            } else {
                None
            },
            None => None,
        },
        None => None,
    }
}

/// The policy in a file; nothing where it is no number within the limits.
pub fn read_policy_mib(content: Option<&str>, limits: LogLimits) -> (r: Option<u32>)
    ensures
        r == policy_in(
            match content {
                Some(t) => Some(t@),
                None => None,
            },
            limits,
        ),
{
    match content {
        Some(t) => {
            let chars = text::chars_of(t);
            match numbers::read_u32(text::trimmed(chars.as_slice())) {
                Some(v) => if limits.min_mib <= v && v <= limits.max_mib {
                    Some(v)
                } else {
                    None
                },
                None => None,
            }
        },
        None => None,
    }
}

/// A policy that is written reads back as it, within the limits that it was written under.
pub proof fn lemma_policy_reads_back(max_mib: u32, limits: LogLimits)
    requires
        limits.min_mib <= max_mib <= limits.max_mib,
    ensures
        policy_in(Some(numbers::decimal(max_mib as int) + "\n"@), limits) == Some(max_mib),
{
    let digits = numbers::decimal(max_mib as int);
    let written = digits + "\n"@;
    reveal_strlit("\n");
    numbers::lemma_decimal_digits(max_mib as int);
    numbers::lemma_parse_decimal(max_mib as int, u32::MAX as int);
    assert(written[0] == digits[0]);
    assert(written.drop_last() == digits);
    assert(digits.last() == digits[digits.len() - 1]);
    assert(text::trim_end(written) == text::trim_end(digits));
}

/// The limit in bytes that a sink starts with.
pub fn initial_limit(content: Option<&str>, limits: LogLimits) -> (r: u64)
    ensures
        r == (match policy_in(
            match content {
                Some(t) => Some(t@),
                None => None,
            },
            limits,
        ) {
            Some(v) => v,
            None => limits.default_mib,
        }) * 1024 * 1024,
{
    match read_policy_mib(content, limits) {
        Some(v) => max_bytes(v),
        None => max_bytes(limits.default_mib),
    }
}

/// The limit in bytes that a running sink keeps to: that of the policy, and the one it
/// started with where the policy cannot be read.
pub fn current_limit(content: Option<&str>, limits: LogLimits, initial: u64) -> (r: u64)
    ensures
        r == (match policy_in(
            match content {
                Some(t) => Some(t@),
                None => None,
            },
            limits,
        ) {
            Some(v) => v * 1024 * 1024,
            None => initial as int,
        }),
{
    match read_policy_mib(content, limits) {
        Some(v) => max_bytes(v),
        None => initial,
    }
}

/// The journal's settings: one file may take a quarter of all, and at least a MiB.
pub open spec fn journal_text(max_mib: u32) -> Seq<char> {
    let all = numbers::decimal(max_mib as int);
    let one = numbers::decimal(
        if max_mib / 4 == 0 {
            1
        } else {
            (max_mib / 4) as int
        },
    );
    "[Journal]\nStorage=persistent\nSystemMaxUse="@ + all + "M\nRuntimeMaxUse="@ + all
        + "M\nSystemMaxFileSize="@ + one + "M\nRuntimeMaxFileSize="@ + one + "M\n"@
}

/// The journal's settings for a policy.
pub fn journal_policy(max_mib: u32) -> (r: Vec<u8>)
    ensures
        r@ == vstd::utf8::encode_utf8(journal_text(max_mib)),
{
    let all = numbers::decimal_string(max_mib as u64);
    let file_mib: u32 = if max_mib / 4 == 0 {
        1
    } else {
        max_mib / 4
    };
    let one = numbers::decimal_string(file_mib as u64);
    let mut out = "[Journal]\nStorage=persistent\nSystemMaxUse=".to_owned();
    out.append(all.as_str());
    out.append("M\nRuntimeMaxUse=");
    out.append(all.as_str());
    out.append("M\nSystemMaxFileSize=");
    out.append(one.as_str());
    out.append("M\nRuntimeMaxFileSize=");
    out.append(one.as_str());
    out.append("M\n");
    let mut data: Vec<u8> = Vec::new();
    bytes::append(&mut data, out.as_str().as_bytes());
    assert(data@ == vstd::utf8::encode_utf8(out@));
    data
}

/// The version in what `systemctl --version` prints: the second word of its first
/// line.
pub open spec fn version_in(output: Seq<char>) -> Option<u32> {
    let lines = text::lines(output);
    if lines.len() == 0 {
        None
    } else {
        match text::word(lines[0], 1) {
            Some(w) => numbers::as_u32(w),
            None => None,
        }
    }
}

/// The version of systemd, from what `systemctl --version` prints.
pub fn systemd_version(output: &str) -> (r: Option<u32>)
    ensures
        r == version_in(output@),
{
    let chars = text::chars_of(output);
    let lines = text::split_lines(chars.as_slice());
    assert(text::views(lines@).len() == lines@.len());
    if lines.len() == 0 {
        return None;
    }
    assert(text::views(lines@)[0] == lines@[0]@);
    match text::nth_word(lines[0], 1) {
        Some(w) => numbers::read_u32(w),
        None => None,
    }
}

/// Whether systemd has a journal for each service.
pub fn supports_namespaces(output: &str) -> (r: bool)
    ensures
        r == (version_in(output@) matches Some(v) && v >= NAMESPACE_VERSION),
{
    match systemd_version(output) {
        Some(v) => v >= NAMESPACE_VERSION,
        None => false,
    }
}

/// What the journal's files ask for once they are written.
#[derive(Debug, Clone, Copy, PartialEq, Eq, Structural)]
pub struct JournalActions {
    /// Have systemd read its units again.
    pub reload: bool,
    /// Restart the journal where it runs.
    pub restart_journal: bool,
    /// Leave, to be started anew under the changed unit.
    pub restart_agent: bool,
}

/// What changed files of the journal ask for. A changed limit takes a restart of the
/// journal alone; only a changed unit takes one of the agent.
pub fn ensure_agent_journal_namespace(dropin_changed: bool, config_changed: bool) -> (r:
    JournalActions)
    ensures
        r.reload == dropin_changed,
        r.restart_journal == (dropin_changed || config_changed),
        r.restart_agent == dropin_changed,
{
    JournalActions {
        reload: dropin_changed,
        restart_journal: dropin_changed || config_changed,
        restart_agent: dropin_changed,
    }
}

/// A log policy to be put in force.
#[derive(Debug, PartialEq, Eq)]
pub struct PolicyPlan {
    /// What the policy file is to hold.
    pub contents: String,
    /// Whether it holds something else now.
    pub changed: bool,
    /// What the journal's settings are to be, where they have to be looked at.
    pub journal: Option<Vec<u8>>,
}

/// What is to be done to put a policy in force. The journal's settings are compared in
/// every round, so that a round which failed half way is made good.
pub fn apply_policy(
    max_mib: u32,
    limits: LogLimits,
    policy_file: Option<&[u8]>,
    under_systemd: bool,
    journal_file: Option<&[u8]>,
) -> (r: Result<PolicyPlan, String>)
    ensures
        match r {
            Ok(plan) => {
                let contents = numbers::decimal(max_mib as int) + "\n"@;
                let journal = vstd::utf8::encode_utf8(journal_text(max_mib));
                &&& limits.min_mib <= max_mib <= limits.max_mib
                &&& plan.contents@ == contents
                &&& plan.changed == (match policy_file {
                    Some(now) => now@ != vstd::utf8::encode_utf8(contents),
                    None => true,
                })
                &&& match plan.journal {
                    Some(data) => under_systemd && data@ == journal && (match journal_file {
                        Some(now) => now@ != journal,
                        None => true,
                    }),
                    None => !under_systemd || (journal_file matches Some(now) && now@ == journal),
                }
            },
            Err(e) => !(limits.min_mib <= max_mib <= limits.max_mib) && e@ == "log max must be "@
                + numbers::decimal(limits.min_mib as int) + "..="@ + numbers::decimal(
                limits.max_mib as int,
            ) + " MiB"@,
        },
{
    match validate_mib(max_mib, limits) {
        Err(e) => {
            return Err(e);
        },
        Ok(_) => {},
    }
    let mut contents = numbers::decimal_string(max_mib as u64);
    contents.append("\n");
    let changed = match policy_file {
        Some(now) => !bytes::same_bytes(now, contents.as_str().as_bytes()),
        None => true,
    };
    let journal = if under_systemd {
        let data = journal_policy(max_mib);
        let same = match journal_file {
            Some(now) => bytes::same_bytes(now, data.as_slice()),
            None => false,
        };
        if same {
            None
        } else {
            Some(data)
        }
    } else {
        None
    };
    Ok(PolicyPlan { contents, changed, journal })
}

/// The command that drains a log: this program, the log and where its policy is kept.
pub fn command(executable: &str, path: &str, state_dir: &str, log: BoundedLog) -> (r: String)
    ensures
        r@ == shell::quoted(executable@) + " log-sink "@ + shell::quoted(path@) + " "@
            + shell::quoted(paths::joined(state_dir@, log.file())),
{
    let mut out = shell::shell_quote(executable);
    out.append(" log-sink ");
    out.append(shell::shell_quote(path).as_str());
    out.append(" ");
    out.append(shell::shell_quote(policy_path(state_dir, log).as_str()).as_str());
    out
}

/// The arguments of a sink: the log, and its policy.
pub fn run_args(args: &Vec<String>) -> (r: Result<(), String>)
    ensures
        match r {
            Ok(()) => args@.len() == 2,
            Err(e) => args@.len() != 2 && e@ == "usage: brocade-agent log-sink PATH POLICY_FILE"@,
        },
{
    if args.len() == 2 {
        Ok(())
    } else {
        Err("usage: brocade-agent log-sink PATH POLICY_FILE".to_owned())
    }
}

/// The name of a log's predecessor.
pub fn archive_path(path: &str) -> (r: String)
    ensures
        r@ == path@ + ".1"@,
{
    let mut out = path.to_owned();
    out.append(".1");
    out
}

/// A step of a sink.
#[derive(Debug, Clone, Copy, PartialEq, Eq, Structural)]
pub enum SinkStep {
    /// Keep only the newest bytes of the predecessor, so many.
    CompactArchive { limit: u64 },
    /// Keep only the newest bytes of the log, so many.
    CompactCurrent { limit: u64 },
    /// Let the log take its predecessor's place, and begin an empty one.
    Rotate,
    /// Append a stretch of what came in.
    Write { offset: usize, len: usize },
}

/// A log and its predecessor.
#[verifier::ext_equal]
pub struct Log {
    pub archive: Seq<u8>,
    pub current: Seq<u8>,
}

/// The newest `limit` bytes.
pub open spec fn newest(s: Seq<u8>, limit: int) -> Seq<u8> {
    if s.len() <= limit {
        s
    } else {
        s.skip(s.len() - limit)
    }
}

impl SinkStep {
    /// What a step makes of a log, with `data` come in.
    pub open spec fn applied(self, log: Log, data: Seq<u8>) -> Log {
        match self {
            SinkStep::CompactArchive { limit } => Log {
                archive: newest(log.archive, limit as int),
                ..log
            },
            SinkStep::CompactCurrent { limit } => Log {
                current: newest(log.current, limit as int),
                ..log
            },
            SinkStep::Rotate => Log { archive: log.current, current: seq![] },
            SinkStep::Write { offset, len } => Log {
                current: log.current + data.subrange(offset as int, offset + len),
                ..log
            },
        }
    }
}

/// What steps make of a log, one after the other.
pub open spec fn after(steps: Seq<SinkStep>, log: Log, data: Seq<u8>) -> Log
    decreases steps.len(),
{
    if steps.len() == 0 {
        log
    } else {
        steps.last().applied(after(steps.drop_last(), log, data), data)
    }
}

/// The steps that bring a log and its predecessor down to a segment each, from their
/// sizes.
pub open spec fn normalizing(current: u64, archive: u64, segment: u64) -> Seq<SinkStep> {
    (if current > segment {
        seq![SinkStep::CompactCurrent { limit: segment }]
    } else {
        seq![]
    }) + (if archive > segment {
        seq![SinkStep::CompactArchive { limit: segment }]
    } else {
        seq![]
    })
}

/// The steps that bring a log and its predecessor down to a segment each, from their
/// sizes; a file that is not there has none.
pub fn normalize_segment(current: u64, archive: u64, segment: u64) -> (r: Vec<SinkStep>)
    ensures
        r@ == normalizing(current, archive, segment),
{
    let mut out: Vec<SinkStep> = Vec::new();
    if current > segment {
        out.push(SinkStep::CompactCurrent { limit: segment });
    }
    if archive > segment {
        out.push(SinkStep::CompactArchive { limit: segment });
    }
    out
}

/// The steps with which a sink begins. A log of a segment or more becomes the
/// predecessor, so that what comes in next is not deleted at once.
pub open spec fn starting(current: u64, archive: u64, segment: u64) -> Seq<SinkStep> {
    (if archive > segment {
        seq![SinkStep::CompactArchive { limit: segment }]
    } else {
        seq![]
    }) + (if current >= segment {
        seq![SinkStep::CompactCurrent { limit: segment }, SinkStep::Rotate]
    } else {
        seq![]
    })
}

/// The steps with which a sink begins, from the sizes of the files that are there.
pub fn start(current: Option<u64>, archive: u64, segment: u64) -> (r: Vec<SinkStep>)
    requires
        segment > 0,
    ensures
        r@ == starting(
            match current {
                Some(n) => n,
                None => 0,
            },
            archive,
            segment,
        ),
{
    let mut out: Vec<SinkStep> = Vec::new();
    if archive > segment {
        out.push(SinkStep::CompactArchive { limit: segment });
    }
    match current {
        Some(n) => {
            if n >= segment {
                out.push(SinkStep::CompactCurrent { limit: segment });
                out.push(SinkStep::Rotate);
            }
        },
        None => {},
    }
    out
}

/// Whether a sink has to change over to another limit. One too small for two segments
/// is passed over.
pub fn limit_changed(next: u64, now: u64) -> (r: bool)
    ensures
        r == (next != now && next >= 2),
{
    next != now && next >= 2
}

/// The steps for what came in from `offset` on, with `written` bytes in the log.
pub open spec fn writing(written: u64, segment: u64, offset: int, count: int) -> Seq<SinkStep>
    decreases
            count - offset,
            (if written >= segment {
                1int
            } else {
                0int
            }),
{
    if offset >= count || segment == 0 {
        seq![]
    } else if written >= segment {
        seq![SinkStep::Rotate] + writing(0, segment, offset, count)
    } else {
        let room = segment - written;
        let take = if room < count - offset {
            room
        } else {
            count - offset
        };
        seq![SinkStep::Write { offset: offset as usize, len: take as usize }] + writing(
            (written + take) as u64,
            segment,
            offset + take,
            count,
        )
    }
}

/// How many bytes steps leave in a log that held `written`.
pub open spec fn held_after(steps: Seq<SinkStep>, written: int) -> int
    decreases steps.len(),
{
    if steps.len() == 0 {
        written
    } else {
        let before = held_after(steps.drop_last(), written);
        match steps.last() {
            SinkStep::CompactArchive { .. } => before,
            SinkStep::CompactCurrent { limit } => if before <= limit {
                before
            } else {
                limit as int
            },
            SinkStep::Rotate => 0,
            SinkStep::Write { len, .. } => before + len,
        }
    }
}

/// Whether steps write only what came in.
pub open spec fn writes_within(steps: Seq<SinkStep>, count: int) -> bool {
    forall|i: int|
        0 <= i < steps.len() ==> (#[trigger] steps[i] matches SinkStep::Write { offset, len }
            ==> offset + len <= count)
}

/// The bytes that steps leave in a log are as many as are counted of them.
pub proof fn lemma_size_is_counted(steps: Seq<SinkStep>, log: Log, data: Seq<u8>)
    requires
        writes_within(steps, data.len() as int),
    ensures
        after(steps, log, data).current.len() == held_after(steps, log.current.len() as int),
    decreases steps.len(),
{
    if steps.len() > 0 {
        let front = steps.drop_last();
        assert forall|i: int| 0 <= i < front.len() implies (#[trigger] front[i] matches
            SinkStep::Write { offset, len } ==> offset + len <= data.len()) by {
            assert(front[i] == steps[i]);
        }
        lemma_size_is_counted(front, log, data);
        assert(steps[steps.len() - 1] == steps.last());
    }
}

/// The steps for `count` bytes that came in, with `written` bytes in the log: it is
/// rotated before it would exceed a segment. Beside them, how many bytes the log holds
/// once they are done.
pub fn consume(written: u64, max_bytes: u64, count: usize) -> (r: (Vec<SinkStep>, u64))
    requires
        max_bytes >= 2,
    ensures
        r.0@ == writing(written, max_bytes / 2, 0, count as int),
        writes_within(r.0@, count as int),
        r.1 == held_after(r.0@, written as int),
        forall|log: Log, data: Seq<u8>|
            log.current.len() == written && data.len() == count ==> #[trigger] after(
                r.0@,
                log,
                data,
            ).current.len() == r.1,
        count > 0 ==> r.1 <= max_bytes / 2,
{
    let segment: u64 = max_bytes / 2;
    let mut out: Vec<SinkStep> = Vec::new();
    let mut held: u64 = written;
    let mut offset: usize = 0;
    assert(out@ + writing(written, segment, 0, count as int) == writing(
        written,
        segment,
        0,
        count as int,
    ));
    while offset < count
        invariant
            0 < segment == max_bytes / 2,
            offset <= count,
            out@ + writing(held, segment, offset as int, count as int) == writing(
                written,
                segment,
                0,
                count as int,
            ),
            offset > 0 ==> held <= segment,
            held == held_after(out@, written as int),
            writes_within(out@, count as int),
        decreases count - offset,
    {
        let ghost start = out@;
        let ghost was = held;
        if held >= segment {
            out.push(SinkStep::Rotate);
            held = 0;
            assert(out@.drop_last() =~= start);
            assert(out@.last() == SinkStep::Rotate);
            assert(held_after(out@, written as int) == 0);
            assert(start + writing(was, segment, offset as int, count as int) == out@ + writing(
                0,
                segment,
                offset as int,
                count as int,
            ));
        }
        let room: u64 = segment - held;
        let left: usize = count - offset;
        let take: usize = if room < left as u64 {
            room as usize
        } else {
            left
        };
        let ghost middle = out@;
        let ghost before = held;
        out.push(SinkStep::Write { offset, len: take });
        proof {
            assert(take > 0);
            assert(out@.drop_last() =~= middle);
            assert(out@.last() == SinkStep::Write { offset, len: take });
            assert(held_after(out@, written as int) == before + take);
            assert(middle + writing(before, segment, offset as int, count as int) == out@ + writing(
                (before + take) as u64,
                segment,
                offset + take,
                count as int,
            ));
        }
        held = held + take as u64;
        offset = offset + take;
    }
    assert(out@ + writing(held, segment, offset as int, count as int) == out@);
    proof {
        assert forall|log: Log, data: Seq<u8>|
            log.current.len() == written && data.len() == count implies #[trigger] after(
            out@,
            log,
            data,
        ).current.len() == held by {
            lemma_size_is_counted(out@, log, data);
        }
    }
    (out, held)
}

proof fn lemma_after_append(a: Seq<SinkStep>, b: Seq<SinkStep>, log: Log, data: Seq<u8>)
    ensures
        after(a + b, log, data) == after(b, after(a, log, data), data),
    decreases b.len(),
{
    if b.len() == 0 {
        assert(a + b =~= a);
    } else {
        assert((a + b).drop_last() =~= a + b.drop_last());
        lemma_after_append(a, b.drop_last(), log, data);
    }
}

/// Whether `tail` is the end of `s`.
pub open spec fn is_end_of(tail: Seq<u8>, s: Seq<u8>) -> bool {
    tail.len() <= s.len() && s.skip(s.len() - tail.len()) == tail
}

proof fn lemma_end_of_longer(tail: Seq<u8>, a: Seq<u8>, b: Seq<u8>)
    requires
        is_end_of(tail, b),
    ensures
        is_end_of(tail, a + b),
{
    assert((a + b).skip((a + b).len() - tail.len()) =~= b.skip(b.len() - tail.len()));
}

proof fn lemma_write_from(log: Log, segment: u64, data: Seq<u8>, offset: int)
    requires
        0 < segment,
        0 <= offset <= data.len() <= usize::MAX,
        log.archive.len() <= segment,
        log.current.len() <= segment,
    ensures
        ({
            let steps = writing(log.current.len() as u64, segment, offset, data.len() as int);
            let end = after(steps, log, data);
            &&& end.archive.len() <= segment
            &&& end.current.len() <= segment
            &&& is_end_of(
                end.archive + end.current,
                log.archive + log.current + data.skip(offset),
            )
        }),
    decreases
            data.len() - offset,
            (if log.current.len() >= segment {
                1int
            } else {
                0int
            }),
{
    let count = data.len() as int;
    let written = log.current.len() as u64;
    let steps = writing(written, segment, offset, count);
    let all = log.archive + log.current + data.skip(offset);
    if offset >= count {
        assert(all.skip(0) =~= log.archive + log.current);
    } else if written >= segment {
        let next = Log { archive: log.current, current: seq![] };
        let one = seq![SinkStep::Rotate];
        lemma_after_append(one, writing(0, segment, offset, count), log, data);
        assert(one.drop_last() =~= Seq::<SinkStep>::empty());
        assert(after(one, log, data) == next) by {
            reveal_with_fuel(after, 2);
        }
        lemma_write_from(next, segment, data, offset);
        let end = after(writing(0, segment, offset, count), next, data);
        lemma_end_of_longer(
            end.archive + end.current,
            log.archive,
            next.archive + next.current + data.skip(offset),
        );
        assert(log.archive + (next.archive + next.current + data.skip(offset)) =~= all);
    } else {
        let room = segment - written;
        let take = if room < count - offset {
            room
        } else {
            count - offset
        };
        let step = SinkStep::Write { offset: offset as usize, len: take as usize };
        let one = seq![step];
        let next = Log { current: log.current + data.subrange(offset, offset + take), ..log };
        let rest = writing((written + take) as u64, segment, offset + take, count);
        lemma_after_append(one, rest, log, data);
        assert(one.drop_last() =~= Seq::<SinkStep>::empty());
        assert(after(one, log, data) == next) by {
            reveal_with_fuel(after, 2);
        }
        lemma_write_from(next, segment, data, offset + take);
        assert(next.archive + next.current + data.skip(offset + take) =~= all);
    }
}

/// What comes in never takes a log and its predecessor over the limit, and what they
/// hold then is the newest of all that was written.
pub proof fn lemma_log_stays_bounded_and_newest(log: Log, max_bytes: u64, data: Seq<u8>)
    requires
        max_bytes >= 2,
        data.len() <= usize::MAX,
        log.archive.len() <= max_bytes / 2,
        log.current.len() <= max_bytes / 2,
    ensures
        ({
            let steps = writing(
                log.current.len() as u64,
                max_bytes / 2,
                0,
                data.len() as int,
            );
            let end = after(steps, log, data);
            &&& end.archive.len() <= max_bytes / 2
            &&& end.current.len() <= max_bytes / 2
            &&& end.archive.len() + end.current.len() <= max_bytes
            &&& is_end_of(end.archive + end.current, log.archive + log.current + data)
        }),
{
    lemma_write_from(log, max_bytes / 2, data, 0);
    assert(data.skip(0) =~= data);
}

/// A sink begins within the limit, whatever it finds, and keeps the newest bytes of
/// each file that it keeps.
pub proof fn lemma_sink_begins_within_the_limit(log: Log, segment: u64, data: Seq<u8>)
    requires
        segment > 0,
        log.archive.len() <= u64::MAX,
        log.current.len() <= u64::MAX,
    ensures
        ({
            let end = after(
                starting(log.current.len() as u64, log.archive.len() as u64, segment),
                log,
                data,
            );
            &&& end.archive.len() <= segment
            &&& end.current.len() < segment
            &&& if log.current.len() >= segment {
                end.archive == newest(log.current, segment as int) && end.current.len() == 0
            } else {
                end.archive == newest(log.archive, segment as int) && end.current == log.current
            }
        }),
{
    reveal_with_fuel(after, 4);
    let steps = starting(log.current.len() as u64, log.archive.len() as u64, segment);
    let c = SinkStep::CompactArchive { limit: segment };
    let d = SinkStep::CompactCurrent { limit: segment };
    if log.archive.len() > segment && log.current.len() >= segment {
        assert(steps =~= seq![c, d, SinkStep::Rotate]);
        assert(steps.drop_last() =~= seq![c, d]);
        assert(steps.drop_last().drop_last() =~= seq![c]);
        assert(steps.drop_last().drop_last().drop_last() =~= Seq::<SinkStep>::empty());
    } else if log.archive.len() > segment {
        assert(steps =~= seq![c]);
        assert(steps.drop_last() =~= Seq::<SinkStep>::empty());
    } else if log.current.len() >= segment {
        assert(steps =~= seq![d, SinkStep::Rotate]);
        assert(steps.drop_last() =~= seq![d]);
        assert(steps.drop_last().drop_last() =~= Seq::<SinkStep>::empty());
    } else {
        assert(steps =~= Seq::<SinkStep>::empty());
    }
}

/// A limit that is lowered while a sink runs is met before anything more is written.
pub proof fn lemma_lowered_limit_is_met_at_once(log: Log, segment: u64, data: Seq<u8>)
    requires
        log.archive.len() <= u64::MAX,
        log.current.len() <= u64::MAX,
    ensures
        ({
            let end = after(
                normalizing(log.current.len() as u64, log.archive.len() as u64, segment),
                log,
                data,
            );
            end.archive == newest(log.archive, segment as int) && end.current == newest(
                log.current,
                segment as int,
            ) && end.archive.len() <= segment && end.current.len() <= segment
        }),
{
    reveal_with_fuel(after, 3);
    let steps = normalizing(log.current.len() as u64, log.archive.len() as u64, segment);
    let c = SinkStep::CompactArchive { limit: segment };
    let d = SinkStep::CompactCurrent { limit: segment };
    if log.archive.len() > segment && log.current.len() > segment {
        assert(steps =~= seq![d, c]);
        assert(steps.drop_last() =~= seq![d]);
        assert(steps.drop_last().drop_last() =~= Seq::<SinkStep>::empty());
    } else if log.archive.len() > segment {
        assert(steps =~= seq![c]);
        assert(steps.drop_last() =~= Seq::<SinkStep>::empty());
    } else if log.current.len() > segment {
        assert(steps =~= seq![d]);
        assert(steps.drop_last() =~= Seq::<SinkStep>::empty());
    } else {
        assert(steps =~= Seq::<SinkStep>::empty());
    }
}

/// A move of bytes within a file, from `read_at` to `write_at`.
#[derive(Debug, Clone, Copy, PartialEq, Eq, Structural)]
pub struct Move {
    pub read_at: u64,
    pub write_at: u64,
    pub count: u64,
}

/// The next move towards keeping the newest `limit` bytes of a file of `len`, after
/// `copied` of them are in place; nothing once all are.
pub fn compact_tail(len: u64, limit: u64, copied: u64, buffer: u64) -> (r: Option<Move>)
    requires
        limit <= len,
        copied <= limit,
    ensures
        r == (if copied < limit {
            Some(
                Move {
                    read_at: (len - limit + copied) as u64,
                    write_at: copied,
                    count: if limit - copied < buffer {
                        (limit - copied) as u64
                    } else {
                        buffer
                    },
                },
            )
        } else {
            None
        }),
{
    if copied < limit {
        let left: u64 = limit - copied;
        Some(
            Move {
                read_at: (len - limit) + copied,
                write_at: copied,
                count: if left < buffer {
                    left
                } else {
                    buffer
                },
            },
        )
    } else {
        None
    }
}

/// A file in the middle of keeping its newest bytes: `copied` of them are in place,
/// and the rest still stand where they stood.
pub open spec fn compacting(original: Seq<u8>, file: Seq<u8>, limit: int, copied: int) -> bool {
    let source = original.len() - limit;
    &&& file.len() == original.len()
    &&& file.take(copied) == original.subrange(source, source + copied)
    &&& file.skip(source + copied) == original.skip(source + copied)
}

/// Moving on by `got` bytes keeps a file in that state: no byte is overwritten before
/// it was read. Once all are moved the file begins with its newest bytes.
pub proof fn lemma_moving_forward_is_safe(
    original: Seq<u8>,
    file: Seq<u8>,
    limit: int,
    copied: int,
    got: int,
)
    requires
        0 <= copied,
        0 <= got,
        copied + got <= limit <= original.len(),
        compacting(original, file, limit, copied),
    ensures
        ({
            let source = original.len() - limit;
            let read = file.subrange(source + copied, source + copied + got);
            let moved = file.take(copied) + read + file.skip(copied + got);
            compacting(original, moved, limit, copied + got) && (copied + got == limit
                ==> moved.take(limit) == newest(original, limit))
        }),
{
    let source = original.len() - limit;
    let read = file.subrange(source + copied, source + copied + got);
    let moved = file.take(copied) + read + file.skip(copied + got);
    assert(file.skip(source + copied) == original.skip(source + copied));
    assert forall|i: int| 0 <= i < got implies read[i] == original[source + copied + i] by {
        assert(file.skip(source + copied)[i] == original.skip(source + copied)[i]);
    }
    assert forall|i: int| 0 <= i < copied implies file[i] == original[source + i] by {
        assert(file.take(copied)[i] == original.subrange(source, source + copied)[i]);
    }
    assert(moved.take(copied + got) =~= original.subrange(source, source + copied + got));
    assert forall|i: int| source + copied + got <= i < original.len() implies moved[i]
        == original[i] by {
        assert(moved[i] == file[i]);
        assert(file.skip(source + copied)[i - (source + copied)] == original.skip(source + copied)[i
            - (source + copied)]);
    }
    assert(moved.skip(source + copied + got) =~= original.skip(source + copied + got));
    if copied + got == limit {
        assert(moved.take(limit) =~= newest(original, limit));
    }
}

/// The journal keeps its files on disk, all of them together within the policy, and each takes
/// a quarter of that but never less than a MiB.
pub proof fn lemma_journal_is_told_its_limits(max_mib: u32)
    ensures
        exists|one: int|
            1 <= one && (max_mib >= 4 ==> 4 * one <= max_mib < 4 * one + 4) && (max_mib < 4 ==> one
                == 1) && #[trigger] journal_lines(max_mib as int, one) == text::lines(
                journal_text(max_mib),
            ),
{
    let one = if max_mib / 4 == 0 {
        1int
    } else {
        (max_mib / 4) as int
    };
    let (all, each) = (numbers::decimal(max_mib as int), numbers::decimal(one));
    let nl = "\n"@;
    reveal_strlit("\n");
    reveal_strlit("[Journal]\nStorage=persistent\nSystemMaxUse=");
    reveal_strlit("M\nRuntimeMaxUse=");
    reveal_strlit("M\nSystemMaxFileSize=");
    reveal_strlit("M\nRuntimeMaxFileSize=");
    reveal_strlit("M\n");
    reveal_strlit("M");
    reveal_strlit("[Journal]");
    reveal_strlit("Storage=persistent");
    reveal_strlit("SystemMaxUse=");
    reveal_strlit("RuntimeMaxUse=");
    reveal_strlit("SystemMaxFileSize=");
    reveal_strlit("RuntimeMaxFileSize=");
    numbers::lemma_decimal_digits(max_mib as int);
    numbers::lemma_decimal_digits(one);
    let lines = journal_lines(max_mib as int, one);
    let s0 = Seq::<char>::empty();
    let s1 = s0 + lines[0] + nl;
    let s2 = s1 + lines[1] + nl;
    let s3 = s2 + lines[2] + nl;
    let s4 = s3 + lines[3] + nl;
    let s5 = s4 + lines[4] + nl;
    let s6 = s5 + lines[5] + nl;
    assert forall|i: int| 0 <= i < 6 implies !(#[trigger] lines[i]).contains('\n')
        && text::without_cr(lines[i]) == lines[i] by {
        assert(lines[i].last() != '\r');
    }
    text::lemma_one_more_line(s0, lines[0]);
    text::lemma_one_more_line(s1, lines[1]);
    text::lemma_one_more_line(s2, lines[2]);
    text::lemma_one_more_line(s3, lines[3]);
    text::lemma_one_more_line(s4, lines[4]);
    text::lemma_one_more_line(s5, lines[5]);
    assert(text::lines(s0) =~= seq![]);
    assert(text::lines(s6) =~= lines);
    lemma_journal_regrouped(all, each);
    assert(s6 =~= journal_text(max_mib));
}

/// The lines that set limits for all files and for one.
pub open spec fn journal_lines(all: int, one: int) -> Seq<Seq<char>> {
    seq![
        "[Journal]"@,
        "Storage=persistent"@,
        "SystemMaxUse="@ + numbers::decimal(all) + "M"@,
        "RuntimeMaxUse="@ + numbers::decimal(all) + "M"@,
        "SystemMaxFileSize="@ + numbers::decimal(one) + "M"@,
        "RuntimeMaxFileSize="@ + numbers::decimal(one) + "M"@,
    ]
}

#[verifier::spinoff_prover]
#[verifier::rlimit(40)]
proof fn lemma_journal_regrouped(all: Seq<char>, each: Seq<char>)
    ensures
        "[Journal]\nStorage=persistent\nSystemMaxUse="@ + all + "M\nRuntimeMaxUse="@ + all
            + "M\nSystemMaxFileSize="@ + each + "M\nRuntimeMaxFileSize="@ + each + "M\n"@
            == Seq::<char>::empty() + "[Journal]"@ + "\n"@ + "Storage=persistent"@ + "\n"@ + (
        "SystemMaxUse="@ + all + "M"@) + "\n"@ + ("RuntimeMaxUse="@ + all + "M"@) + "\n"@ + (
        "SystemMaxFileSize="@ + each + "M"@) + "\n"@ + ("RuntimeMaxFileSize="@ + each + "M"@)
            + "\n"@,
{
    reveal_strlit("\n");
    reveal_strlit("[Journal]\nStorage=persistent\nSystemMaxUse=");
    reveal_strlit("M\nRuntimeMaxUse=");
    reveal_strlit("M\nSystemMaxFileSize=");
    reveal_strlit("M\nRuntimeMaxFileSize=");
    reveal_strlit("M\n");
    reveal_strlit("M");
    reveal_strlit("[Journal]");
    reveal_strlit("Storage=persistent");
    reveal_strlit("SystemMaxUse=");
    reveal_strlit("RuntimeMaxUse=");
    reveal_strlit("SystemMaxFileSize=");
    reveal_strlit("RuntimeMaxFileSize=");
    let t0 = "[Journal]\nStorage=persistent\nSystemMaxUse="@;
    assert(t0 =~= Seq::<char>::empty() + "[Journal]"@ + "\n"@ + "Storage=persistent"@ + "\n"@
        + "SystemMaxUse="@);
    assert("M\nRuntimeMaxUse="@ =~= "M"@ + "\n"@ + "RuntimeMaxUse="@);
    assert("M\nSystemMaxFileSize="@ =~= "M"@ + "\n"@ + "SystemMaxFileSize="@);
    assert("M\nRuntimeMaxFileSize="@ =~= "M"@ + "\n"@ + "RuntimeMaxFileSize="@);
    assert("M\n"@ =~= "M"@ + "\n"@);
}

} // verus!
