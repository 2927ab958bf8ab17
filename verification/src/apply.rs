//! One round: asking the control plane what the machine should be, making it so, and
//! telling what came of it.
use vstd::prelude::*;
use vstd::string::*;

use crate::options::ApplyMode;
use crate::plan::{ReportedNodeState, TargetApplyResult};
use crate::{numbers, schedule};

verus! {

/// The mark that the control plane answered and had nothing for the machine.
pub const NO_DESIRED_FILE: &'static str = "no-desired";

/// One thing that is done in a round.
#[derive(Debug, Clone, Copy, PartialEq, Eq, Structural)]
pub enum Step {
    /// Results of earlier rounds are sent before anything is asked for.
    Flush,
    Request,
    /// The bounds of the logs that came with an answer are put in force.
    BoundLogs,
    /// What drifted by itself is put right while nobody answers.
    ReconcileAlone,
    /// What drifted by itself is put right from what is kept.
    Reconcile,
    MarkNoDesired,
    ClearNoDesired,
    /// Workloads whose log is not bounded yet are started again with one that is.
    UpgradeLogSinks,
    Decode,
    WriteCertificates,
    WaitForReload,
    ReportCertificates,
    Observe,
    Converge,
    /// The result is kept, so that it cannot be lost.
    Spool,
    /// What is kept is sent.
    Drain,
}

/// How a round goes on after a step that failed: with a warning where the step is not
/// what the round is for, and otherwise not at all. An early flush that fails says only
/// that nobody answers, which the round is about to find out; a machine that cannot
/// look after itself does not hide that nobody answers; logs have no say over the rest.
pub open spec fn failure_of(step: Step, error: Seq<char>) -> Result<Seq<char>, Seq<char>> {
    match step {
        Step::Flush => Ok("补发上一轮的收敛结果没成功："@ + error),
        Step::ReconcileAlone => Ok("拉不到期望状态，本地对账也没跑成："@ + error),
        Step::BoundLogs => Ok(error),
        _ => Err(error),
    }
}

/// How a round goes on after a step: on its way, with or without a warning, or ended
/// by an error.
pub fn go_on(step: Step, done: Result<(), String>) -> (r: Result<Option<String>, String>)
    ensures
        match done {
            Ok(()) => r == Ok::<Option<String>, String>(None),
            Err(error) => match r {
                Ok(Some(warning)) => failure_of(step, error@) == Ok::<Seq<char>, Seq<char>>(
                    warning@,
                ),
                Ok(None) => false,
                Err(e) => failure_of(step, error@) == Err::<Seq<char>, Seq<char>>(e@),
            },
        },
{
    let error = match done {
        Ok(()) => return Ok(None),
        Err(error) => error,
    };
    match step {
        Step::Flush => {
            let mut warning = "补发上一轮的收敛结果没成功：".to_owned();
            warning.append(error.as_str());
            Ok(Some(warning))
        },
        Step::ReconcileAlone => {
            let mut warning = "拉不到期望状态，本地对账也没跑成：".to_owned();
            warning.append(error.as_str());
            Ok(Some(warning))
        },
        Step::BoundLogs => Ok(Some(error)),
        _ => Err(error),
    }
}

/// How a round goes on: what is done next, and how it ends where it ends there.
#[derive(Debug, PartialEq, Eq)]
pub struct Leg {
    pub steps: Vec<Step>,
    pub end: Option<Result<(), String>>,
}

/// How a round goes on, by its characters.
pub struct LegView {
    pub steps: Seq<Step>,
    pub end: Option<Result<(), Seq<char>>>,
}

impl View for Leg {
    type V = LegView;

    open spec fn view(&self) -> LegView {
        LegView {
            steps: self.steps@,
            end: match self.end {
                None => None,
                Some(Ok(())) => Some(Ok(())),
                Some(Err(e)) => Some(Err(e@)),
            },
        }
    }
}

/// How a round begins. What is still owed is sent before anything is asked for: while it
/// is, the control plane has nothing to give. A resident agent has a thread for that.
pub open spec fn beginning(report_inline: bool) -> Seq<Step> {
    if report_inline {
        seq![Step::Flush, Step::Request]
    } else {
        seq![Step::Request]
    }
}

/// How a round begins.
pub fn begin_round(report_inline: bool) -> (r: Vec<Step>)
    ensures
        r@ == beginning(report_inline),
{
    let mut out: Vec<Step> = Vec::new();
    if report_inline {
        out.push(Step::Flush);
    }
    out.push(Step::Request);
    assert(out@ =~= beginning(report_inline));
    out
}

/// How a round goes on once the control plane was asked. Where it cannot be reached the
/// machine looks after itself: that is when it has to. Where it has nothing to give the
/// machine does too, since the control plane sees no drift.
pub open spec fn after_request(answer: Result<u16, Seq<char>>) -> LegView {
    match answer {
        Err(error) => LegView { steps: seq![Step::ReconcileAlone], end: Some(Err(error)) },
        Ok(status) => if status == 204 {
            LegView {
                steps: seq![
                    Step::BoundLogs,
                    Step::MarkNoDesired,
                    Step::UpgradeLogSinks,
                    Step::Reconcile,
                ],
                end: Some(Ok(())),
            }
        } else if status == 200 {
            LegView {
                steps: seq![Step::BoundLogs, Step::ClearNoDesired, Step::Decode],
                end: None,
            }
        } else {
            LegView {
                steps: seq![Step::BoundLogs],
                end: Some(
                    Err("desired request failed: HTTP "@ + numbers::decimal(status as int)),
                ),
            }
        },
    }
}

/// How a round goes on once the control plane was asked.
pub fn on_answer(answer: Result<u16, &str>) -> (r: Leg)
    ensures
        r@ == after_request(
            match answer {
                Ok(status) => Ok(status),
                Err(e) => Err(e@),
            },
        ),
{
    let mut steps: Vec<Step> = Vec::new();
    match answer {
        Err(error) => {
            steps.push(Step::ReconcileAlone);
            assert(steps@ =~= seq![Step::ReconcileAlone]);
            Leg { steps, end: Some(Err(error.to_owned())) }
        },
        Ok(status) => if status == 204 {
            steps.push(Step::BoundLogs);
            steps.push(Step::MarkNoDesired);
            steps.push(Step::UpgradeLogSinks);
            steps.push(Step::Reconcile);
            assert(steps@ =~= seq![
                Step::BoundLogs,
                Step::MarkNoDesired,
                Step::UpgradeLogSinks,
                Step::Reconcile,
            ]);
            Leg { steps, end: Some(Ok(())) }
        } else if status == 200 {
            steps.push(Step::BoundLogs);
            steps.push(Step::ClearNoDesired);
            steps.push(Step::Decode);
            assert(steps@ =~= seq![Step::BoundLogs, Step::ClearNoDesired, Step::Decode]);
            Leg { steps, end: None }
        } else {
            let mut error = "desired request failed: HTTP ".to_owned();
            error.append(numbers::decimal_string(status as u64).as_str());
            steps.push(Step::BoundLogs);
            assert(steps@ =~= seq![Step::BoundLogs]);
            Leg { steps, end: Some(Err(error)) }
        },
    }
}

/// What the control plane asks for, as far as the round depends on it.
#[derive(Debug, Clone, Copy, PartialEq, Eq, Structural)]
pub enum Asked {
    Converged,
    Certificates { count: usize },
    Deployment { certificates: usize },
}

/// How a round goes on once it is known what is asked for. That nothing is owed is said
/// by the answer's status and by nothing else. Certificates are in place before a
/// configuration that names them is.
pub open spec fn after_decoding(asked: Asked) -> LegView {
    match asked {
        Asked::Converged => LegView {
            steps: seq![],
            end: Some(Err("控制面回了 Converged 而不是 204"@)),
        },
        Asked::Certificates { count } => LegView {
            steps: if count > 0 {
                seq![Step::WriteCertificates, Step::WaitForReload, Step::ReportCertificates]
            } else {
                seq![Step::WriteCertificates, Step::ReportCertificates]
            },
            end: Some(Ok(())),
        },
        Asked::Deployment { .. } => LegView {
            steps: seq![Step::WriteCertificates, Step::Observe, Step::Converge],
            end: None,
        },
    }
}

/// How a round goes on once it is known what is asked for.
pub fn on_decoded(asked: Asked) -> (r: Leg)
    ensures
        r@ == after_decoding(asked),
{
    let mut steps: Vec<Step> = Vec::new();
    match asked {
        Asked::Converged => {
            assert(steps@ =~= Seq::<Step>::empty());
            Leg { steps, end: Some(Err("控制面回了 Converged 而不是 204".to_owned())) }
        },
        Asked::Certificates { count } => {
            steps.push(Step::WriteCertificates);
            if count > 0 {
                steps.push(Step::WaitForReload);
            }
            steps.push(Step::ReportCertificates);
            assert(steps@ =~= after_decoding(asked).steps);
            Leg { steps, end: Some(Ok(())) }
        },
        Asked::Deployment { .. } => {
            steps.push(Step::WriteCertificates);
            steps.push(Step::Observe);
            steps.push(Step::Converge);
            assert(steps@ =~= after_decoding(asked).steps);
            Leg { steps, end: None }
        },
    }
}

/// How a round ends once the machine was worked on. The result is kept before it is
/// sent, whatever it is: it is the only record that the work was done. Certificates are
/// reported only where the work succeeded and the proxy had time to take them up.
pub open spec fn ending(
    report_inline: bool,
    error: Option<Seq<char>>,
    certificates: usize,
) -> LegView {
    let kept = if report_inline {
        seq![Step::Spool, Step::Drain]
    } else {
        seq![Step::Spool]
    };
    match error {
        Some(e) => LegView { steps: kept, end: Some(Err(e)) },
        None => LegView {
            steps: if certificates > 0 {
                kept + seq![Step::WaitForReload, Step::ReportCertificates]
            } else {
                kept
            },
            end: Some(Ok(())),
        },
    }
}

/// How a round ends once the machine was worked on.
pub fn end_round(report_inline: bool, error: Option<String>, certificates: usize) -> (r: Leg)
    ensures
        r@ == ending(
            report_inline,
            match error {
                Some(e) => Some(e@),
                None => None,
            },
            certificates,
        ),
{
    let mut steps: Vec<Step> = Vec::new();
    steps.push(Step::Spool);
    if report_inline {
        steps.push(Step::Drain);
    }
    let ghost kept = if report_inline {
        seq![Step::Spool, Step::Drain]
    } else {
        seq![Step::Spool]
    };
    assert(steps@ =~= kept);
    match error {
        Some(e) => Leg { steps, end: Some(Err(e)) },
        None => {
            if certificates > 0 {
                steps.push(Step::WaitForReload);
                steps.push(Step::ReportCertificates);
                assert(steps@ =~= kept + seq![Step::WaitForReload, Step::ReportCertificates]);
            }
            Leg { steps, end: Some(Ok(())) }
        },
    }
}

/// However the work went, its result is kept first and sent afterwards.
pub proof fn lemma_result_is_kept_before_it_is_sent(
    report_inline: bool,
    error: Option<Seq<char>>,
    certificates: usize,
    i: int,
)
    requires
        0 <= i < ending(report_inline, error, certificates).steps.len(),
        ending(report_inline, error, certificates).steps[i] == Step::Drain,
    ensures
        i > 0,
        ending(report_inline, error, certificates).steps[0] == Step::Spool,
{
}

/// Certificates are never reported as taken up without the wait right before, unless
/// none were sent.
pub proof fn lemma_certificates_are_reported_after_the_wait(
    report_inline: bool,
    error: Option<Seq<char>>,
    certificates: usize,
    i: int,
)
    requires
        0 <= i < ending(report_inline, error, certificates).steps.len(),
        ending(report_inline, error, certificates).steps[i] == Step::ReportCertificates,
    ensures
        error is None,
        i > 0,
        ending(report_inline, error, certificates).steps[i - 1] == Step::WaitForReload,
{
}

/// A machine that cannot reach the control plane looks after itself, and whatever comes
/// of that, the round tells that it could not be reached.
pub proof fn lemma_unreachable_machine_looks_after_itself(error: Seq<char>, drift: Seq<char>)
    ensures
        after_request(Err(error)).steps.contains(Step::ReconcileAlone),
        failure_of(Step::ReconcileAlone, drift) is Ok,
        after_request(Err(error)).end == Some(Err::<(), Seq<char>>(error)),
{
    assert(after_request(Err(error)).steps[0] == Step::ReconcileAlone);
}

/// A result that could not be kept, and a configuration or a certificate that could not
/// be put in force, end the round with their own error.
pub proof fn lemma_work_never_fails_in_silence(step: Step, error: Seq<char>)
    requires
        step != Step::Flush,
        step != Step::ReconcileAlone,
        step != Step::BoundLogs,
    ensures
        failure_of(step, error) == Err::<Seq<char>, Seq<char>>(error),
{
}

/// What work on a machine came to: how it ended, what the machine is, and what went
/// wrong.
pub type Outcome = (TargetApplyResult, ReportedNodeState, Option<String>);

/// What work that succeeded came to. That its record could not be written does not undo
/// it: the machine has changed, and is reported with that.
pub fn successful_apply_outcome(after: ReportedNodeState, written: Result<(), String>) -> (r:
    Outcome)
    ensures
        r.1 == after,
        match written {
            Ok(()) => r.0 == TargetApplyResult::Applied && r.2 is None,
            Err(error) => r.0 == TargetApplyResult::FailedDirty && (r.2 matches Some(e) && e@
                == "运行态已经应用，但 applied-state.json 写入失败："@ + error@),
        },
{
    match written {
        Ok(()) => (TargetApplyResult::Applied, after, None),
        Err(error) => {
            let mut out = "运行态已经应用，但 applied-state.json 写入失败：".to_owned();
            out.append(error.as_str());
            (TargetApplyResult::FailedDirty, after, Some(out))
        },
    }
}

/// What work that failed came to.
pub fn failed_apply_outcome(error: String, after: ReportedNodeState) -> (r: Outcome)
    ensures
        r.0 == TargetApplyResult::FailedDirty,
        r.1 == after,
        r.2 matches Some(e) && e@ == error@,
{
    (TargetApplyResult::FailedDirty, after, Some(error))
}

/// What work came to once its generation of usage was to be written down; `written` is
/// how that went.
pub fn persist_converged_usage_generation(
    generation_id: Option<i64>,
    written: Result<(), String>,
    outcome: Outcome,
) -> (r: Outcome)
    ensures
        r.1 == outcome.1,
        match (generation_id, written) {
            (Some(_), Err(error)) => r.0 == TargetApplyResult::FailedDirty && (r.2 matches Some(e)
                && e@ == (match outcome.2 {
                Some(existing) => existing@ + "；运行态已经应用，但 usage generation 写入失败："@ + error@,
                None => "运行态已经应用，但 usage generation 写入失败："@ + error@,
            })),
            _ => r == outcome,
        },
{
    match (generation_id, written) {
        (Some(_), Err(error)) => {
            let message = match outcome.2 {
                Some(existing) => {
                    let mut out = existing;
                    out.append("；运行态已经应用，但 usage generation 写入失败：");
                    out.append(error.as_str());
                    out
                },
                None => {
                    let mut out = "运行态已经应用，但 usage generation 写入失败：".to_owned();
                    out.append(error.as_str());
                    out
                },
            };
            (TargetApplyResult::FailedDirty, outcome.1, Some(message))
        },
        _ => outcome,
    }
}

/// Whether the proxy has to be given time to take up certificates: it does where it is
/// managed and should run.
pub fn reload_is_awaited(mode: ApplyMode, xray_json: bool, xray_disabled: bool) -> (r: bool)
    ensures
        r == (mode != ApplyMode::StateDir && xray_json && !xray_disabled),
{
    let linux = match mode {
        ApplyMode::StateDir => false,
        ApplyMode::Linux => true,
    };
    linux && xray_json && !xray_disabled
}

/// Seconds that the proxy is given to take up certificates.
pub const RELOAD_WAIT: u64 = 6;

/// What the wait came to, from whether the proxy ran before it and after it. Files that
/// were written are not reported as taken up by a proxy that does not run.
pub fn wait_for_xray_certificate_reload(before: bool, after: bool) -> (r: Result<(), String>)
    ensures
        match r {
            Ok(()) => before && after,
            Err(e) => if !before {
                e@ == "证书文件已写入，但 xray 当前没有运行；拒绝把磁盘状态报告成已加载"@
            } else {
                !after && e@ == "等待证书热更新时 xray 退出了"@
            },
        },
{
    if !before {
        Err("证书文件已写入，但 xray 当前没有运行；拒绝把磁盘状态报告成已加载".to_owned())
    } else if !after {
        Err("等待证书热更新时 xray 退出了".to_owned())
    } else {
        Ok(())
    }
}

/// Whether a workload is started again so that its log is bounded: it should run, and
/// does not have a bounded log yet.
pub fn upgrade_dynamic_log_sinks(config: bool, disabled: bool, marker: bool) -> (r: bool)
    ensures
        r == (config && !disabled && !marker),
{
    config && !disabled && !marker
}

/// What a one-time look at what is asked for prints.
pub fn desired_outcome(status: u16, body: &str) -> (r: Result<String, String>)
    ensures
        match r {
            Ok(line) => (status == 204 && line@ == "no desired state"@) || (status == 200 && line@
                == body@),
            Err(e) => status != 200 && status != 204 && e@ == "desired request failed: HTTP "@
                + numbers::decimal(status as int),
        },
{
    if status == 204 {
        Ok("no desired state".to_owned())
    } else if status == 200 {
        Ok(body.to_owned())
    } else {
        let mut error = "desired request failed: HTTP ".to_owned();
        error.append(numbers::decimal_string(status as u64).as_str());
        Err(error)
    }
}

/// How a resident agent starts, from whether its journal had to be moved.
#[derive(Debug, PartialEq, Eq)]
pub enum Start {
    /// It ends at once, to be started again with its new journal.
    Restart,
    Serve,
    /// It goes on without: a journal is no reason not to serve.
    ServeWithWarning { warning: String },
}

/// How a resident agent starts.
pub fn run_forever(journal: Result<bool, String>) -> (r: Start)
    ensures
        match journal {
            Ok(true) => r == Start::Restart,
            Ok(false) => r == Start::Serve,
            Err(error) => r matches Start::ServeWithWarning { warning } && warning@
                == "agent 日志上限未能落地："@ + error@,
        },
{
    match journal {
        Ok(moved) => if moved {
            Start::Restart
        } else {
            Start::Serve
        },
        Err(error) => {
            let mut warning = "agent 日志上限未能落地：".to_owned();
            warning.append(error.as_str());
            Start::ServeWithWarning { warning }
        },
    }
}

/// What a resident agent does after a round.
#[derive(Debug, Clone, Copy, PartialEq, Eq, Structural)]
pub enum AfterRound {
    /// It ends, to be started again from its new program.
    Exit,
    /// It waits for the next round.
    Wait { until: u64 },
}

/// What a resident agent does after a round that began at `tick`. It never ends within
/// one: a program that was replaced is taken up between rounds. Times are in
/// nanoseconds.
pub fn after_round(wants_exit: bool, tick: u64, now: u64) -> (r: AfterRound)
    requires
        tick + schedule::APPLY_INTERVAL_NANOS <= u64::MAX,
        now + schedule::APPLY_INTERVAL_NANOS <= u64::MAX,
    ensures
        r == (if wants_exit {
            AfterRound::Exit
        } else {
            AfterRound::Wait {
                until: schedule::tick_after(
                    tick as int,
                    schedule::APPLY_INTERVAL_NANOS as int,
                    now as int,
                ) as u64,
            }
        }),
{
    if wants_exit {
        AfterRound::Exit
    } else {
        AfterRound::Wait {
            until: schedule::next_periodic_tick(tick, schedule::APPLY_INTERVAL_NANOS, now),
        }
    }
}

/// What is still owed is sent exactly where nobody else does that, and always before the
/// request.
pub proof fn lemma_what_is_owed_goes_first(report_inline: bool)
    ensures
        beginning(report_inline).contains(Step::Flush) <==> report_inline,
        beginning(report_inline).last() == Step::Request,
        report_inline ==> beginning(report_inline)[0] == Step::Flush,
{
    if report_inline {
        assert(beginning(report_inline)[0] == Step::Flush);
    }
}

/// What follows an answer. Its limits on logs are always taken. Only a machine that is given
/// something goes on to read it; one that is given nothing looks after itself and is marked
/// so, and the mark goes as soon as something is given. Any other answer ends the round with
/// an error.
pub proof fn lemma_answer_decides_the_round(status: u16)
    ensures
        ({
            let leg = after_request(Ok(status));
            &&& leg.steps.contains(Step::BoundLogs)
            &&& !leg.steps.contains(Step::ReconcileAlone)
            &&& leg.steps.contains(Step::Decode) <==> status == 200
            &&& leg.steps.contains(Step::ClearNoDesired) <==> status == 200
            &&& leg.steps.contains(Step::MarkNoDesired) <==> status == 204
            &&& leg.steps.contains(Step::Reconcile) <==> status == 204
            &&& leg.steps.contains(Step::UpgradeLogSinks) <==> status == 204
            &&& leg.end is None <==> status == 200
            &&& leg.end == Some(Ok::<(), Seq<char>>(())) <==> status == 204
        }),
{
    let steps = after_request(Ok(status)).steps;
    assert(steps[0] == Step::BoundLogs);
    if status == 204 {
        assert(steps[1] == Step::MarkNoDesired && steps[2] == Step::UpgradeLogSinks && steps[3]
            == Step::Reconcile);
    } else if status == 200 {
        assert(steps[1] == Step::ClearNoDesired && steps[2] == Step::Decode);
    }
}

/// Whatever is asked for, certificates are written before anything else is done with it, and
/// only what is asked to be deployed is put in force, on a machine that was looked at before.
pub proof fn lemma_certificates_stand_before_they_are_named(asked: Asked)
    ensures
        ({
            let leg = after_decoding(asked);
            &&& leg.steps.len() > 0 ==> leg.steps[0] == Step::WriteCertificates
            &&& leg.steps.contains(Step::Converge) <==> asked is Deployment
            &&& asked is Deployment ==> leg.end is None && leg.steps == seq![
                Step::WriteCertificates,
                Step::Observe,
                Step::Converge,
            ]
            &&& asked is Certificates ==> leg.end == Some(Ok::<(), Seq<char>>(())) && leg.steps.last()
                == Step::ReportCertificates
            &&& leg.steps.contains(Step::WaitForReload) <==> (match asked {
                Asked::Certificates { count } => count > 0,
                _ => false,
            })
            &&& asked is Converged ==> leg.steps.len() == 0 && leg.end is Some && leg.end->0 is Err
        }),
{
    let steps = after_decoding(asked).steps;
    if asked is Deployment {
        assert(steps[2] == Step::Converge);
    }
    if asked is Certificates && steps.len() == 3 {
        assert(steps[1] == Step::WaitForReload);
    }
}

/// However the work went, its result is kept; it is sent in the same round exactly where
/// nobody else does that; and certificates are reported exactly where there are any and
/// nothing went wrong.
pub proof fn lemma_result_is_always_kept(
    report_inline: bool,
    error: Option<Seq<char>>,
    certificates: usize,
)
    ensures
        ({
            let leg = ending(report_inline, error, certificates);
            &&& leg.steps[0] == Step::Spool
            &&& leg.steps.contains(Step::Drain) <==> report_inline
            &&& leg.steps.contains(Step::ReportCertificates) <==> error is None && certificates > 0
            &&& leg.end == Some(
                match error {
                    Some(e) => Err::<(), Seq<char>>(e),
                    None => Ok(()),
                },
            )
        }),
{
    let steps = ending(report_inline, error, certificates).steps;
    assert(report_inline ==> steps[1] == Step::Drain);
    if error is None && certificates > 0 {
        assert(steps[steps.len() - 1] == Step::ReportCertificates);
    }
}

} // verus!
