//! What the agent can be told to do.
use vstd::prelude::*;
use vstd::string::*;

use crate::{load, numbers, text};

verus! {

/// What the agent is told to do.
#[derive(Debug, Clone, Copy, PartialEq, Eq, Structural)]
pub enum Task {
    Health,
    Repair,
    LogSink,
    Desired,
    ApplyOnce,
    UsageOnce,
    LoadOnce,
    ProbeOnce,
    E2eOnce,
    PingProbeOnce,
    Run,
}

/// A task that needs no control plane, and so neither its address nor a token.
pub open spec fn local_task(command: Seq<char>) -> Option<Task> {
    if command == "health"@ {
        Some(Task::Health)
    } else if command == "repair"@ {
        Some(Task::Repair)
    } else if command == "log-sink"@ {
        Some(Task::LogSink)
    } else {
        None
    }
}

/// A task that needs the control plane.
pub open spec fn remote_task(command: Seq<char>) -> Option<Task> {
    if command == "desired"@ {
        Some(Task::Desired)
    } else if command == "apply-once"@ {
        Some(Task::ApplyOnce)
    } else if command == "usage-once"@ {
        Some(Task::UsageOnce)
    } else if command == "load-once"@ {
        Some(Task::LoadOnce)
    } else if command == "probe-once"@ {
        Some(Task::ProbeOnce)
    } else if command == "e2e-once"@ {
        Some(Task::E2eOnce)
    } else if command == "ping-probe-once"@ {
        Some(Task::PingProbeOnce)
    } else if command == "run"@ {
        Some(Task::Run)
    } else {
        None
    }
}

/// What is done before the options are read, from the arguments.
pub fn task_without_options(args: &Vec<String>) -> (r: Option<Task>)
    ensures
        r == (if args@.len() > 0 {
            local_task(args@[0]@)
        } else {
            None
        }),
{
    if args.len() == 0 {
        return None;
    }
    let command = args[0].as_str();
    if text::same_str(command, "health") {
        Some(Task::Health)
    } else if text::same_str(command, "repair") {
        Some(Task::Repair)
    } else if text::same_str(command, "log-sink") {
        Some(Task::LogSink)
    } else {
        None
    }
}

/// What is done once the options are read.
pub fn run(command: &str) -> (r: Result<Task, String>)
    ensures
        match r {
            Ok(task) => remote_task(command@) == Some(task),
            Err(e) => remote_task(command@) is None && e@ == "unknown command "@ + command@
                + "; expected run, desired, apply-once, usage-once, probe-once, e2e-once, ping-probe-once, health, or repair"@,
        },
{
    if text::same_str(command, "desired") {
        Ok(Task::Desired)
    } else if text::same_str(command, "apply-once") {
        Ok(Task::ApplyOnce)
    } else if text::same_str(command, "usage-once") {
        Ok(Task::UsageOnce)
    } else if text::same_str(command, "load-once") {
        Ok(Task::LoadOnce)
    } else if text::same_str(command, "probe-once") {
        Ok(Task::ProbeOnce)
    } else if text::same_str(command, "e2e-once") {
        Ok(Task::E2eOnce)
    } else if text::same_str(command, "ping-probe-once") {
        Ok(Task::PingProbeOnce)
    } else if text::same_str(command, "run") {
        Ok(Task::Run)
    } else {
        let mut out = "unknown command ".to_owned();
        out.append(command);
        out.append(
            "; expected run, desired, apply-once, usage-once, probe-once, e2e-once, ping-probe-once, health, or repair",
        );
        Err(out)
    }
}

/// How many samples a single report on load takes: one to begin with, and one more for
/// each part of the window.
pub fn load_once_rounds() -> (r: usize)
    ensures
        r == load::SUBS_PER_WINDOW + 1,
{
    load::SUBS_PER_WINDOW + 1
}

/// What is said while a single report on load is sampled.
pub fn load_once(round: usize, rounds: usize) -> (r: String)
    requires
        round < usize::MAX,
    ensures
        r@ == "load-once: 采样 "@ + numbers::decimal(round + 1) + "/"@ + numbers::decimal(
            rounds as int,
        ) + "（每次间隔 "@ + numbers::decimal(load::SUB_INTERVAL_SECS as int) + " 秒）"@,
{
    let mut out = "load-once: 采样 ".to_owned();
    out.append(numbers::decimal_string((round + 1) as u64).as_str());
    out.append("/");
    out.append(numbers::decimal_string(rounds as u64).as_str());
    out.append("（每次间隔 ");
    out.append(numbers::decimal_string(load::SUB_INTERVAL_SECS as u64).as_str());
    out.append(" 秒）");
    out
}

/// What a task is called.
pub open spec fn name_of(task: Task) -> Seq<char> {
    match task {
        Task::Health => "health"@,
        Task::Repair => "repair"@,
        Task::LogSink => "log-sink"@,
        Task::Desired => "desired"@,
        Task::ApplyOnce => "apply-once"@,
        Task::UsageOnce => "usage-once"@,
        Task::LoadOnce => "load-once"@,
        Task::ProbeOnce => "probe-once"@,
        Task::E2eOnce => "e2e-once"@,
        Task::PingProbeOnce => "ping-probe-once"@,
        Task::Run => "run"@,
    }
}

/// Every task is done by its name and by no other: the checks, the repair and the log's sink
/// without a control plane, and all others with one.
pub proof fn lemma_every_task_goes_by_its_name(command: Seq<char>, task: Task)
    ensures
        local_task(command) == Some(task) <==> command == name_of(task) && (task == Task::Health
            || task == Task::Repair || task == Task::LogSink),
        remote_task(command) == Some(task) <==> command == name_of(task) && !(task == Task::Health
            || task == Task::Repair || task == Task::LogSink),
{
    reveal_strlit("health");
    reveal_strlit("repair");
    reveal_strlit("log-sink");
    reveal_strlit("desired");
    reveal_strlit("apply-once");
    reveal_strlit("usage-once");
    reveal_strlit("load-once");
    reveal_strlit("probe-once");
    reveal_strlit("e2e-once");
    reveal_strlit("ping-probe-once");
    reveal_strlit("run");
    assert("health"@[0] == 'h' && "repair"@[0] == 'r');
    assert("log-sink"@[0] == 'l' && "e2e-once"@[0] == 'e');
    assert("apply-once"@[0] == 'a' && "usage-once"@[0] == 'u' && "probe-once"@[0] == 'p');
    assert("load-once"@.len() == 9 && "ping-probe-once"@.len() == 15 && "run"@.len() == 3);
    assert("desired"@.len() == 7);
}

} // verus!
