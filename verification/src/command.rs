//! External commands: how they are run, how long they may take, and what their
//! outcome says.
use vstd::prelude::*;
use vstd::string::*;

use crate::bytes::from_utf8_lossy;
use crate::{bytes, numbers, text};

verus! {

/// How long a command may take, in milliseconds, where nothing else is said.
pub const DEFAULT_COMMAND_TIMEOUT: u64 = 30_000;

/// How long a command may take to end once it was asked to, in milliseconds.
pub const TERM_GRACE: u64 = 200;

/// How often a running command is looked at, in milliseconds.
pub const POLL_INTERVAL: u64 = 10;

/// A command to run.
#[derive(Debug, PartialEq, Eq)]
pub struct CommandPlan {
    pub program: String,
    pub args: Vec<String>,
    pub timeout_millis: u64,
}

/// What a command left behind.
#[derive(Debug, PartialEq, Eq)]
pub struct CapturedOutput {
    pub success: bool,
    pub status: String,
    pub stdout: Vec<u8>,
    pub stderr: Vec<u8>,
}

fn copied(args: &Vec<String>) -> (r: Vec<String>)
    ensures
        text::string_views(r@) == text::string_views(args@),
{
    let mut out: Vec<String> = Vec::new();
    let ghost all = text::string_views(args@);
    let mut i: usize = 0;
    while i < args.len()
        invariant
            i <= args.len(),
            all == text::string_views(args@),
            text::string_views(out@) == all.take(i as int),
        decreases args.len() - i,
    {
        let ghost before = out@;
        out.push(args[i].as_str().to_owned());
        assert(text::string_views(out@) == text::string_views(before).push(all[i as int]));
        assert(all.take(i + 1) == all.take(i as int).push(all[i as int]));
        i = i + 1;
    }
    assert(all.take(i as int) == all);
    out
}

/// A program with its arguments, within the usual time.
pub fn run_command(program: &str, args: &Vec<String>) -> (r: CommandPlan)
    ensures
        r.program@ == program@,
        text::string_views(r.args@) == text::string_views(args@),
        r.timeout_millis == DEFAULT_COMMAND_TIMEOUT,
{
    CommandPlan {
        program: program.to_owned(),
        args: copied(args),
        timeout_millis: DEFAULT_COMMAND_TIMEOUT,
    }
}

/// A script for the shell, within the usual time.
pub fn run_shell(script: &str) -> (r: CommandPlan)
    ensures
        r.program@ == "sh"@,
        text::string_views(r.args@) == seq!["-c"@, script@],
        r.timeout_millis == DEFAULT_COMMAND_TIMEOUT,
{
    run_shell_with_timeout(script, DEFAULT_COMMAND_TIMEOUT)
}

/// A script for the shell, within a time of its own.
pub fn run_shell_with_timeout(script: &str, timeout_millis: u64) -> (r: CommandPlan)
    ensures
        r.program@ == "sh"@,
        text::string_views(r.args@) == seq!["-c"@, script@],
        r.timeout_millis == timeout_millis,
{
    let mut args: Vec<String> = Vec::new();
    args.push("-c".to_owned());
    args.push(script.to_owned());
    assert(text::string_views(args@) == seq!["-c"@, script@]);
    CommandPlan { program: "sh".to_owned(), args, timeout_millis }
}

/// The outcome of a command as its caller sees it: what it printed, or what went
/// wrong.
pub open spec fn outcome(
    program: Seq<char>,
    args: Seq<Seq<char>>,
    success: bool,
    status: Seq<char>,
    stdout: Seq<char>,
    stderr: Seq<char>,
) -> Result<Seq<char>, Seq<char>> {
    if success {
        Ok(stdout)
    } else {
        let out = text::trim(stdout);
        let err = text::trim(stderr);
        let gap = if out.len() == 0 || err.len() == 0 {
            ""@
        } else {
            "\n"@
        };
        Err(
            program + " "@ + text::join(args, " "@) + " failed with "@ + status + ": "@ + out + gap
                + err,
        )
    }
}

/// What a command printed where it succeeded; else its exit status and everything it
/// printed, standard output first.
pub fn describe_outcome(
    plan: &CommandPlan,
    success: bool,
    status: &str,
    stdout: &str,
    stderr: &str,
) -> (r: Result<String, String>)
    ensures
        ({
            let told = outcome(
                plan.program@,
                text::string_views(plan.args@),
                success,
                status@,
                stdout@,
                stderr@,
            );
            match r {
                Ok(s) => told == Ok::<Seq<char>, Seq<char>>(s@),
                Err(e) => told == Err::<Seq<char>, Seq<char>>(e@),
            }
        }),
{
    if success {
        return Ok(stdout.to_owned());
    }
    let oc = text::chars_of(stdout);
    let ec = text::chars_of(stderr);
    let o = text::trimmed(oc.as_slice());
    let e = text::trimmed(ec.as_slice());
    let gap = if o.len() == 0 || e.len() == 0 {
        ""
    } else {
        "\n"
    };
    let mut out = plan.program.as_str().to_owned();
    out.append(" ");
    out.append(text::join_strings(&plan.args, " ").as_str());
    out.append(" failed with ");
    out.append(status);
    out.append(": ");
    out.append(text::string_of(o).as_str());
    out.append(gap);
    out.append(text::string_of(e).as_str());
    Err(out)
}

/// The outcome of a command from what was captured of it. One that could not be run
/// to its end has only the reason for that.
pub fn run_command_with_timeout(plan: &CommandPlan, captured: Result<&CapturedOutput, &str>) -> (r:
    Result<String, String>)
    ensures
        ({
            let told = match captured {
                Ok(c) => outcome(
                    plan.program@,
                    text::string_views(plan.args@),
                    c.success,
                    c.status@,
                    bytes::lossy(c.stdout@),
                    bytes::lossy(c.stderr@),
                ),
                Err(e) => Err(e@),
            };
            match r {
                Ok(s) => told == Ok::<Seq<char>, Seq<char>>(s@),
                Err(e) => told == Err::<Seq<char>, Seq<char>>(e@),
            }
        }),
{
    match captured {
        Ok(c) => {
            let stdout = from_utf8_lossy(c.stdout.as_slice());
            let stderr = from_utf8_lossy(c.stderr.as_slice());
            describe_outcome(plan, c.success, c.status.as_str(), stdout.as_str(), stderr.as_str())
        },
        Err(e) => Err(e.to_owned()),
    }
}

/// What a look at a running command showed.
#[derive(Debug, PartialEq, Eq)]
pub enum Look {
    Exited,
    Running,
    Failed(String),
}

/// What to do about a running command.
#[derive(Debug, PartialEq, Eq)]
pub enum WaitStep {
    /// It has ended.
    Finished,
    /// Look again after so many milliseconds.
    Sleep(u64),
    /// End its whole process group, and report this.
    Abort(String),
}

/// Seconds with three decimals.
pub open spec fn seconds(millis: u64) -> Seq<char> {
    let rest = (millis % 1000) as int;
    numbers::decimal((millis / 1000) as int) + "."@ + (if rest < 10 {
        "00"@
    } else if rest < 100 {
        "0"@
    } else {
        ""@
    }) + numbers::decimal(rest)
}

fn seconds_string(millis: u64) -> (r: String)
    ensures
        r@ == seconds(millis),
{
    let rest: u64 = millis % 1000;
    let mut out = numbers::decimal_string(millis / 1000);
    out.append(".");
    out.append(
        if rest < 10 {
            "00"
        } else if rest < 100 {
            "0"
        } else {
            ""
        },
    );
    out.append(numbers::decimal_string(rest).as_str());
    out
}

/// What to do about a command that has run for `elapsed` milliseconds. It never
/// sleeps past its time.
pub fn wait_bounded(look: &Look, pid: u32, elapsed: u64, timeout: u64) -> (r: WaitStep)
    ensures
        match *look {
            Look::Exited => r == WaitStep::Finished,
            Look::Running => if elapsed < timeout {
                r matches WaitStep::Sleep(n) && n == (if timeout - elapsed < POLL_INTERVAL {
                    timeout - elapsed
                } else {
                    POLL_INTERVAL as int
                })
            } else {
                r matches WaitStep::Abort(e) && e@ == "command pid "@ + numbers::decimal(pid as int)
                    + " timed out after "@ + seconds(timeout) + "s"@
            },
            Look::Failed(error) => r matches WaitStep::Abort(e) && e@ == "failed waiting for pid "@
                + numbers::decimal(pid as int) + ": "@ + error@,
        },
{
    match look {
        Look::Exited => WaitStep::Finished,
        Look::Running => {
            if elapsed < timeout {
                let left: u64 = timeout - elapsed;
                WaitStep::Sleep(
                    if left < POLL_INTERVAL {
                        left
                    } else {
                        POLL_INTERVAL
                    },
                )
            } else {
                let mut out = "command pid ".to_owned();
                out.append(numbers::decimal_string(pid as u64).as_str());
                out.append(" timed out after ");
                out.append(seconds_string(timeout).as_str());
                out.append("s");
                WaitStep::Abort(out)
            }
        },
        Look::Failed(error) => {
            let mut out = "failed waiting for pid ".to_owned();
            out.append(numbers::decimal_string(pid as u64).as_str());
            out.append(": ");
            out.append(error.as_str());
            WaitStep::Abort(out)
        },
    }
}

/// What is said of a command whose wait was given up.
pub fn wait_error(plan: &CommandPlan, error: &str) -> (r: String)
    ensures
        r@ == plan.program@ + " "@ + text::join(text::string_views(plan.args@), " "@) + ": "@
            + error@,
{
    let mut out = plan.program.as_str().to_owned();
    out.append(" ");
    out.append(text::join_strings(&plan.args, " ").as_str());
    out.append(": ");
    out.append(error);
    out
}

/// What was read of a command's output, or what is said where its reader failed.
pub fn join_reader(
    program: &str,
    stream: &str,
    read: Option<Result<Vec<u8>, String>>,
) -> (r: Result<Vec<u8>, String>)
    ensures
        match read {
            Some(Ok(data)) => r == Ok::<Vec<u8>, String>(data),
            Some(Err(error)) => r matches Err(e) && e@ == program@ + ": failed to read "@ + stream@
                + ": "@ + error@,
            None => r matches Err(e) && e@ == program@ + ": "@ + stream@ + " reader panicked"@,
        },
{
    match read {
        Some(Ok(data)) => Ok(data),
        Some(Err(error)) => {
            let mut out = program.to_owned();
            out.append(": failed to read ");
            out.append(stream);
            out.append(": ");
            out.append(error.as_str());
            Err(out)
        },
        None => {
            let mut out = program.to_owned();
            out.append(": ");
            out.append(stream);
            out.append(" reader panicked");
            Err(out)
        },
    }
}

/// A command is answered with what it printed exactly where it succeeded. Else everything is
/// told: the command, its status, and both of what it printed, standard output first.
pub proof fn lemma_failure_tells_everything(
    program: Seq<char>,
    args: Seq<Seq<char>>,
    status: Seq<char>,
    stdout: Seq<char>,
    stderr: Seq<char>,
)
    ensures
        outcome(program, args, true, status, stdout, stderr) == Ok::<Seq<char>, Seq<char>>(stdout),
        outcome(program, args, false, status, stdout, stderr) is Err,
        ({
            let told = outcome(program, args, false, status, stdout, stderr)->Err_0;
            let head = program + " "@ + text::join(args, " "@) + " failed with "@ + status + ": "@;
            &&& text::starts_with(told, head + text::trim(stdout))
            &&& text::ends_with(told, text::trim(stderr))
            &&& told.len() >= head.len() + text::trim(stdout).len() + text::trim(stderr).len()
        }),
{
    let told = outcome(program, args, false, status, stdout, stderr)->Err_0;
    let (out, err) = (text::trim(stdout), text::trim(stderr));
    let head = program + " "@ + text::join(args, " "@) + " failed with "@ + status + ": "@ + out;
    assert(told.subrange(0, head.len() as int) =~= head);
    let at = told.len() - err.len();
    assert(told.subrange(at, at + err.len()) =~= err);
}

/// Seconds are told to the millisecond: the whole ones, a point, and always three digits that
/// spell the rest.
pub proof fn lemma_seconds_have_three_decimals(millis: u64)
    ensures
        exists|fraction: Seq<char>|
            fraction.len() == 3 && #[trigger] (numbers::decimal((millis / 1000) as int) + "."@
                + fraction) == seconds(millis) && numbers::parse_unsigned(fraction, 10, 999) == Ok::<
                int,
                numbers::NumberError,
            >((millis % 1000) as int),
{
    let rest = (millis % 1000) as int;
    reveal_strlit("00");
    reveal_strlit("0");
    reveal_strlit("");
    reveal_with_fuel(numbers::decimal, 4);
    let lead = if rest < 10 {
        "00"@
    } else if rest < 100 {
        "0"@
    } else {
        ""@
    };
    let fraction = lead + numbers::decimal(rest);
    numbers::lemma_decimal_digits(rest);
    reveal_with_fuel(numbers::scan_up, 5);
    assert(numbers::decimal((millis / 1000) as int) + "."@ + fraction =~= seconds(millis));
    assert(fraction.len() == 3);
    assert(numbers::parse_unsigned(fraction, 10, 999) == Ok::<int, numbers::NumberError>(rest));
}

} // verus!
