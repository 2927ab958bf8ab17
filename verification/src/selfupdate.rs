//! Replacing the program that is running: ask, verify, try, and only then install.
use vstd::prelude::*;
use vstd::string::*;

use crate::bytes::from_utf8_lossy;
use crate::command::{run_shell_with_timeout, CommandPlan};
use crate::{bytes, numbers, shell, text};

verus! {

/// Where a candidate lands while it is being checked.
pub const DOWNLOAD_FILE: &'static str = "agent.download";

/// The name of a candidate beside the program it will replace.
pub const STAGING_FILE: &'static str = ".brocade-agent.new";

/// Seconds between two rounds.
pub const SELFUPDATE_INTERVAL: u64 = 600;

/// The running program's digest as it is reported.
pub fn self_identity(sha256: Option<&str>) -> (r: String)
    ensures
        r@ == (match sha256 {
            Some(s) => s@,
            None => "unknown"@,
        }),
{
    match sha256 {
        Some(s) => s.to_owned(),
        None => "unknown".to_owned(),
    }
}

/// A program to be fetched, and its digest.
#[derive(Debug, PartialEq, Eq)]
pub struct BinarySource {
    pub url: String,
    pub sha256: String,
}

/// Whether a character is a digit of a hexadecimal number.
pub open spec fn is_hex(c: char) -> bool {
    ('0' <= c <= '9') || ('a' <= c <= 'f') || ('A' <= c <= 'F')
}

/// Whether a digest has the shape of one.
pub open spec fn is_digest(s: Seq<char>) -> bool {
    s.len() == 64 && forall|i: int| 0 <= i < s.len() ==> is_hex(#[trigger] s[i])
}

fn digest_shaped(s: &[char]) -> (r: bool)
    ensures
        r == is_digest(s@),
{
    if s.len() != 64 {
        return false;
    }
    let mut i: usize = 0;
    while i < s.len()
        invariant
            i <= s.len(),
            forall|j: int| 0 <= j < i ==> is_hex(#[trigger] s@[j]),
        decreases s.len() - i,
    {
        let c = s[i];
        if !(('0' <= c && c <= '9') || ('a' <= c && c <= 'f') || ('A' <= c && c <= 'F')) {
            assert(!is_hex(s@[i as int]));
            return false;
        }
        i = i + 1;
    }
    true
}

/// What to make of the answer to which program should run: nothing, the digest of the
/// one to install, or an error. No answer and an unknown question are nothing to do,
/// and so is the program that runs already.
pub open spec fn judged(
    running: Option<Seq<char>>,
    status: u16,
    body: Seq<char>,
    release: Result<Seq<char>, Seq<char>>,
) -> Result<Option<Seq<char>>, Seq<char>> {
    match running {
        None => Ok(None),
        Some(now) => if status == 204 || status == 404 {
            Ok(None)
        } else if !(200 <= status < 300) {
            Err("问不到该装哪个 agent: HTTP "@ + numbers::decimal(status as int) + " "@ + body)
        } else {
            match release {
                Err(e) => Err("发布响应读不懂: "@ + e),
                Ok(sha256) => {
                    let wanted = text::lower(text::trim(sha256));
                    if wanted == now {
                        Ok(None)
                    } else if !is_digest(wanted) {
                        Err("发布的 sha256 不成形: "@ + wanted)
                    } else {
                        Ok(Some(wanted))
                    }
                },
            }
        },
    }
}

/// What to make of the answer to which program should run; `release` is what the
/// answer's body says where it can be read.
pub fn selfupdate_cycle(
    running: Option<&str>,
    status: u16,
    body: &str,
    release: Result<&BinarySource, &str>,
) -> (r: Result<Option<String>, String>)
    ensures
        ({
            let told = judged(
                match running {
                    Some(s) => Some(s@),
                    None => None,
                },
                status,
                body@,
                match release {
                    Ok(b) => Ok(b.sha256@),
                    Err(e) => Err(e@),
                },
            );
            match r {
                Ok(wanted) => told == Ok::<Option<Seq<char>>, Seq<char>>(text::optional(wanted)),
                Err(e) => told == Err::<Option<Seq<char>>, Seq<char>>(e@),
            }
        }),
{
    let now = match running {
        Some(s) => s,
        None => {
            return Ok(None);
        },
    };
    if status == 204 || status == 404 {
        return Ok(None);
    }
    if status < 200 || status >= 300 {
        let mut out = "问不到该装哪个 agent: HTTP ".to_owned();
        out.append(numbers::decimal_string(status as u64).as_str());
        out.append(" ");
        out.append(body);
        return Err(out);
    }
    match release {
        Err(e) => {
            let mut out = "发布响应读不懂: ".to_owned();
            out.append(e);
            Err(out)
        },
        Ok(source) => {
            let chars = text::chars_of(source.sha256.as_str());
            let wanted = text::lowered(text::trimmed(chars.as_slice()));
            if text::same(wanted.as_slice(), now) {
                return Ok(None);
            }
            if !digest_shaped(wanted.as_slice()) {
                let mut out = "发布的 sha256 不成形: ".to_owned();
                out.append(text::string_of(wanted.as_slice()).as_str());
                return Err(out);
            }
            Ok(Some(text::string_of(wanted.as_slice())))
        },
    }
}

/// The command that downloads a program.
pub fn fetch(url: &str, into: &str) -> (r: CommandPlan)
    ensures
        r.program@ == "sh"@,
        text::string_views(r.args@) == seq![
            "-c"@,
            "curl -fsSL --connect-timeout 15 --max-time 300 "@ + shell::quoted(url@) + " -o "@
                + shell::quoted(into@),
        ],
        r.timeout_millis == 310_000,
{
    let mut script = "curl -fsSL --connect-timeout 15 --max-time 300 ".to_owned();
    script.append(shell::shell_quote(url).as_str());
    script.append(" -o ");
    script.append(shell::shell_quote(into).as_str());
    run_shell_with_timeout(script.as_str(), 310_000)
}

/// A step of installing a program.
#[derive(Debug, Clone, Copy, PartialEq, Eq, Structural)]
pub enum InstallStep {
    /// Download the candidate.
    Fetch,
    /// Take its digest.
    Digest,
    MakeExecutable,
    /// Run it once.
    Probe,
    /// Copy it beside the program it will replace.
    Copy,
    MakeStagedExecutable,
    /// Let it take the program's name.
    Rename,
}

/// What follows a step of installing a program.
#[derive(Debug, PartialEq, Eq)]
pub enum InstallNext {
    Do(InstallStep),
    Done,
    /// Report this, and remove the copy where one was begun.
    Fail { message: String, remove_staged: bool },
}

/// The step that follows a successful one; a digest other than the one wanted leads
/// nowhere.
pub open spec fn following(
    step: InstallStep,
    outcome: Result<Seq<char>, Seq<char>>,
    wanted: Seq<char>,
) -> Option<InstallStep> {
    match (step, outcome) {
        (InstallStep::Fetch, Ok(_)) => Some(InstallStep::Digest),
        (InstallStep::Digest, Ok(got)) => if got == wanted {
            Some(InstallStep::MakeExecutable)
        } else {
            None
        },
        (InstallStep::MakeExecutable, Ok(_)) => Some(InstallStep::Probe),
        (InstallStep::Probe, Ok(_)) => Some(InstallStep::Copy),
        (InstallStep::Copy, Ok(_)) => Some(InstallStep::MakeStagedExecutable),
        (InstallStep::MakeStagedExecutable, Ok(_)) => Some(InstallStep::Rename),
        _ => None,
    }
}

/// What is said of a step that failed.
pub open spec fn failure(
    step: InstallStep,
    outcome: Result<Seq<char>, Seq<char>>,
    wanted: Seq<char>,
    staging: Seq<char>,
    target: Seq<char>,
) -> Seq<char> {
    match (step, outcome) {
        (InstallStep::Digest, Ok(got)) => "下载下来的 agent sha256 对不上：要 "@ + wanted + "，实际 "@ + got
            + "。没有安装"@,
        (InstallStep::Fetch, Err(e)) => "下载 agent 失败："@ + e,
        (InstallStep::Digest, Err(e)) => e,
        (InstallStep::MakeExecutable, Err(e)) => "给候选 agent 加执行位失败: "@ + e,
        (InstallStep::Probe, Err(e)) => e,
        (InstallStep::Copy, Err(e)) => "拷到 "@ + staging + " 失败: "@ + e + "（这个目录得可写才能自更新）"@,
        (InstallStep::MakeStagedExecutable, Err(e)) => "给暂存的 agent 加执行位失败: "@ + e,
        (InstallStep::Rename, Err(e)) => "换 "@ + target + " 失败: "@ + e,
        _ => seq![],
    }
}

/// What follows a step of installing a program that ended as `outcome` says; for the
/// digest it holds the digest. A failure leaves nothing behind: a copy that was begun is
/// removed, however far it came.
pub fn install_release(
    step: InstallStep,
    outcome: Result<&str, &str>,
    wanted: &str,
    staging: &str,
    target: &str,
) -> (r: InstallNext)
    ensures
        ({
            let ended = match outcome {
                Ok(t) => Ok(t@),
                Err(e) => Err(e@),
            };
            match following(step, ended, wanted@) {
                Some(next) => r == InstallNext::Do(next),
                None => if step == InstallStep::Rename && outcome is Ok {
                    r is Done
                } else {
                    r matches InstallNext::Fail { message, remove_staged } && message@ == failure(
                        step,
                        ended,
                        wanted@,
                        staging@,
                        target@,
                    ) && remove_staged == (step == InstallStep::Copy || step
                        == InstallStep::MakeStagedExecutable || step == InstallStep::Rename)
                },
            }
        }),
{
    match outcome {
        Ok(got) => match step {
            InstallStep::Fetch => InstallNext::Do(InstallStep::Digest),
            InstallStep::Digest => {
                if text::same_str(got, wanted) {
                    InstallNext::Do(InstallStep::MakeExecutable)
                } else {
                    let mut message = "下载下来的 agent sha256 对不上：要 ".to_owned();
                    message.append(wanted);
                    message.append("，实际 ");
                    message.append(got);
                    message.append("。没有安装");
                    InstallNext::Fail { message, remove_staged: false }
                }
            },
            InstallStep::MakeExecutable => InstallNext::Do(InstallStep::Probe),
            InstallStep::Probe => InstallNext::Do(InstallStep::Copy),
            InstallStep::Copy => InstallNext::Do(InstallStep::MakeStagedExecutable),
            InstallStep::MakeStagedExecutable => InstallNext::Do(InstallStep::Rename),
            InstallStep::Rename => InstallNext::Done,
        },
        Err(error) => match step {
            InstallStep::Fetch => {
                let mut message = "下载 agent 失败：".to_owned();
                message.append(error);
                InstallNext::Fail { message, remove_staged: false }
            },
            InstallStep::Digest => InstallNext::Fail {
                message: error.to_owned(),
                remove_staged: false,
            },
            InstallStep::MakeExecutable => {
                let mut message = "给候选 agent 加执行位失败: ".to_owned();
                message.append(error);
                InstallNext::Fail { message, remove_staged: false }
            },
            InstallStep::Probe => InstallNext::Fail {
                message: error.to_owned(),
                remove_staged: false,
            },
            InstallStep::Copy => {
                let mut message = "拷到 ".to_owned();
                message.append(staging);
                message.append(" 失败: ");
                message.append(error);
                message.append("（这个目录得可写才能自更新）");
                InstallNext::Fail { message, remove_staged: true }
            },
            InstallStep::MakeStagedExecutable => {
                let mut message = "给暂存的 agent 加执行位失败: ".to_owned();
                message.append(error);
                InstallNext::Fail { message, remove_staged: true }
            },
            InstallStep::Rename => {
                let mut message = "换 ".to_owned();
                message.append(target);
                message.append(" 失败: ");
                message.append(error);
                InstallNext::Fail { message, remove_staged: true }
            },
        },
    }
}

/// The step that an installation has come to after the first `n` outcomes.
pub open spec fn step_after(
    outcomes: Seq<Result<Seq<char>, Seq<char>>>,
    wanted: Seq<char>,
    n: int,
) -> Option<InstallStep>
    decreases n,
{
    if n <= 0 {
        Some(InstallStep::Fetch)
    } else if n > outcomes.len() {
        None
    } else {
        match step_after(outcomes, wanted, n - 1) {
            Some(step) => following(step, outcomes[n - 1], wanted),
            None => None,
        }
    }
}

/// The order all rests on: a program is put in place only after its digest was the
/// one wanted and it ran once, and nothing stands beside the program in use before
/// that either.
pub proof fn lemma_verified_and_tried_before_installed(
    outcomes: Seq<Result<Seq<char>, Seq<char>>>,
    wanted: Seq<char>,
    n: int,
)
    requires
        0 <= n,
        step_after(outcomes, wanted, n) == Some(InstallStep::Rename) || step_after(
            outcomes,
            wanted,
            n,
        ) == Some(InstallStep::MakeStagedExecutable) || step_after(outcomes, wanted, n) == Some(
            InstallStep::Copy,
        ),
    ensures
        n >= 4,
        outcomes.len() >= n,
        outcomes[1] == Ok::<Seq<char>, Seq<char>>(wanted),
        outcomes[3] is Ok,
{
    reveal_with_fuel(step_after, 8);
    if n <= 6 {
        assert(n >= 4);
    } else {
        lemma_no_step_follows_the_last(outcomes, wanted, n);
    }
}

proof fn lemma_no_step_follows_the_last(
    outcomes: Seq<Result<Seq<char>, Seq<char>>>,
    wanted: Seq<char>,
    n: int,
)
    requires
        n >= 7,
    ensures
        step_after(outcomes, wanted, n) is None,
    decreases n,
{
    reveal_with_fuel(step_after, 8);
    if n > 7 {
        lemma_no_step_follows_the_last(outcomes, wanted, n - 1);
    }
}

/// What a trial run of a candidate tells: it has to know the command that it will be
/// started with.
pub open spec fn tried(said: Seq<char>) -> Result<(), Seq<char>> {
    if text::contains_sub(said, "expected"@) && text::contains_sub(said, "run"@) {
        Ok(())
    } else {
        Err("候选 agent 不认识 run 子命令，装上去 systemd 也起不来，没有安装。它说："@ + text::trim(said))
    }
}

/// What a trial run of a candidate tells, from everything it printed.
pub fn judge_probe(said: &str) -> (r: Result<(), String>)
    ensures
        match r {
            Ok(()) => tried(said@) is Ok,
            Err(e) => tried(said@) == Err::<(), Seq<char>>(e@),
        },
{
    let chars = text::chars_of(said);
    if text::contains(chars.as_slice(), "expected") && text::contains(chars.as_slice(), "run") {
        Ok(())
    } else {
        let mut out = "候选 agent 不认识 run 子命令，装上去 systemd 也起不来，没有安装。它说：".to_owned();
        out.append(text::string_of(text::trimmed(chars.as_slice())).as_str());
        Err(out)
    }
}

/// What a trial run of a candidate tells: `ran` holds what it printed to its standard
/// output and its standard error, or why it did not run.
pub fn probe(ran: Result<(&[u8], &[u8]), &str>, arch: &str) -> (r: Result<(), String>)
    ensures
        ({
            let told = match ran {
                Ok((out, err)) => tried(bytes::lossy(out@) + bytes::lossy(err@)),
                Err(e) => Err("候选 agent 跑不起来（"@ + e@ + "）——多半不是本机架构（"@ + arch@ + "），没有安装"@),
            };
            match r {
                Ok(()) => told is Ok,
                Err(e) => told == Err::<(), Seq<char>>(e@),
            }
        }),
{
    match ran {
        Ok((out, err)) => {
            let mut said = from_utf8_lossy(out);
            said.append(from_utf8_lossy(err).as_str());
            judge_probe(said.as_str())
        },
        Err(error) => {
            let mut out = "候选 agent 跑不起来（".to_owned();
            out.append(error);
            out.append("）——多半不是本机架构（");
            out.append(arch);
            out.append("），没有安装");
            Err(out)
        },
    }
}

/// The path of the running program, from what `/proc/self/exe` points to. One that was
/// replaced already is not to be replaced again.
pub fn self_path(link: Result<&str, &str>) -> (r: Result<String, String>)
    ensures
        match link {
            Ok(path) => if text::ends_with(path@, " (deleted)"@) {
                r matches Err(e) && e@ == "这个进程的二进制已经被换掉了，等它退出即可"@
            } else {
                r matches Ok(p) && p@ == path@
            },
            Err(error) => r matches Err(e) && e@ == "读不了 /proc/self/exe: "@ + error@,
        },
{
    match link {
        Ok(path) => {
            let chars = text::chars_of(path);
            match text::before_suffix(chars.as_slice(), " (deleted)") {
                Some(_) => Err("这个进程的二进制已经被换掉了，等它退出即可".to_owned()),
                None => Ok(path.to_owned()),
            }
        },
        Err(error) => {
            let mut out = "读不了 /proc/self/exe: ".to_owned();
            out.append(error);
            Err(out)
        },
    }
}

/// How many bytes of a digest are enough to recognise it: twelve, or all there are.
pub open spec fn enough(sha256: Seq<char>) -> int {
    let n = vstd::utf8::encode_utf8(sha256).len();
    if n < 12 {
        n as int
    } else {
        12
    }
}

/// Enough of a digest to recognise it: its first twelve bytes. No character may stand
/// across their end.
pub fn short(sha256: &str) -> (r: String)
    requires
        vstd::utf8::is_char_boundary(vstd::utf8::encode_utf8(sha256@), enough(sha256@)),
    ensures
        vstd::utf8::encode_utf8(r@) == vstd::utf8::encode_utf8(sha256@).take(enough(sha256@)),
        vstd::string::is_ascii(sha256) ==> r@ == sha256@.take(enough(sha256@)),
{
    let all = sha256.as_bytes();
    let n: usize = all.len();
    let end: usize = if n < 12 {
        n
    } else {
        12
    };
    let head = vstd::slice::slice_subrange(all, 0, end);
    proof {
        let whole = vstd::utf8::encode_utf8(sha256@);
        assert(all@ == whole);
        assert(head@ =~= whole.take(end as int));
        vstd::utf8::encode_utf8_valid_utf8(sha256@);
        vstd::utf8::valid_utf8_split(whole, end as int);
        assert(vstd::utf8::valid_utf8(whole.subrange(0, end as int)));
        vstd::utf8::decode_utf8_encode_utf8(head@);
        if vstd::string::is_ascii(sha256) {
            vstd::utf8::is_ascii_chars_encode_utf8(sha256@);
            let kept = sha256@.take(end as int);
            assert(vstd::utf8::is_ascii_chars(kept));
            vstd::utf8::is_ascii_chars_encode_utf8(kept);
            assert(vstd::utf8::encode_utf8(kept) =~= head@);
            vstd::utf8::encode_utf8_decode_utf8(kept);
        }
    }
    from_utf8_lossy(head)
}

/// A program is installed exactly where it is known which one runs, the control plane answers
/// with another, and that one's digest has the shape of one; spelling and blanks do not make
/// it another. No answer is none to complain of, and any other answer is.
pub proof fn lemma_only_another_program_is_installed(
    running: Option<Seq<char>>,
    status: u16,
    body: Seq<char>,
    release: Result<Seq<char>, Seq<char>>,
)
    ensures
        ({
            let verdict = judged(running, status, body, release);
            let asked = running is Some && status != 204 && status != 404;
            let answered = asked && 200 <= status < 300;
            let wanted = text::lower(text::trim(release->Ok_0));
            &&& verdict matches Ok(Some(sha256)) ==> answered && release is Ok && sha256 == wanted
            &&& (verdict is Ok && verdict->Ok_0 is Some) <==> answered && release is Ok && running
                != Some(wanted) && wanted.len() == 64 && forall|i: int|
                0 <= i < wanted.len() ==> is_hex(#[trigger] wanted[i])
            &&& verdict is Err <==> asked && (!(200 <= status < 300) || release is Err || (running
                != Some(wanted) && !is_digest(wanted)))
        }),
{
}

/// One step follows another only where it succeeded: what was fetched is verified, then made
/// to run, then tried, then copied beside the program in use, and only then takes its place.
pub proof fn lemma_installation_keeps_its_order(
    step: InstallStep,
    outcome: Result<Seq<char>, Seq<char>>,
    wanted: Seq<char>,
)
    ensures
        outcome is Err ==> following(step, outcome, wanted) is None,
        following(step, outcome, wanted) == Some(InstallStep::Digest) <==> outcome is Ok && step
            == InstallStep::Fetch,
        following(step, outcome, wanted) == Some(InstallStep::MakeExecutable) <==> step
            == InstallStep::Digest && outcome == Ok::<Seq<char>, Seq<char>>(wanted),
        following(step, outcome, wanted) == Some(InstallStep::Probe) <==> outcome is Ok && step
            == InstallStep::MakeExecutable,
        following(step, outcome, wanted) == Some(InstallStep::Copy) <==> outcome is Ok && step
            == InstallStep::Probe,
        following(step, outcome, wanted) == Some(InstallStep::MakeStagedExecutable) <==> outcome is Ok
            && step == InstallStep::Copy,
        following(step, outcome, wanted) == Some(InstallStep::Rename) <==> outcome is Ok && step
            == InstallStep::MakeStagedExecutable,
        following(step, outcome, wanted) != Some(InstallStep::Fetch),
{
}

} // verus!
