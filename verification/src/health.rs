//! What the machine is found to be, told to whoever asks on its console.
use vstd::prelude::*;
use vstd::string::*;

use crate::wg::{drift_is_fatal, handshake_age_text, PeerCheck, PeerState};
use crate::workload::{RuntimeView, WorkloadRuntime};
use crate::{numbers, paths, text, wg};

verus! {

/// Which files stand in the state directory.
#[derive(Debug, Clone, Copy, PartialEq, Eq, Structural)]
pub struct StateFiles {
    pub wireguard_conf: bool,
    pub wireguard_disabled: bool,
    pub xray_json: bool,
    pub xray_disabled: bool,
    pub phantun_json: bool,
    pub phantun_disabled: bool,
    pub applied_state: bool,
    /// The mark that the control plane answered and had nothing for the machine.
    pub no_desired: bool,
}

/// Whether the machine never took a release: none of what a release leaves is there.
pub open spec fn is_blank(f: StateFiles) -> bool {
    !f.wireguard_conf && !f.wireguard_disabled && !f.xray_json && !f.xray_disabled
        && !f.phantun_json && !f.phantun_disabled && !f.applied_state
}

/// Whether the machine never took a release.
pub fn never_converged(f: &StateFiles) -> (r: bool)
    ensures
        r == is_blank(*f),
{
    !f.wireguard_conf && !f.wireguard_disabled && !f.xray_json && !f.xray_disabled
        && !f.phantun_json && !f.phantun_disabled && !f.applied_state
}

/// What a line says of its part.
#[derive(Debug, Clone, Copy, PartialEq, Eq, Structural)]
pub enum Status {
    Good,
    Pending,
    Warning,
    Undecided,
    Disabled,
    Missing,
    Failed,
}

/// What a status is called.
pub open spec fn status_name(status: Status) -> Seq<char> {
    match status {
        Status::Good => "ok"@,
        Status::Pending => "pending"@,
        Status::Warning => "warn"@,
        Status::Undecided => "?"@,
        Status::Disabled => "disabled"@,
        Status::Missing => "MISSING"@,
        Status::Failed => "FAIL"@,
    }
}

impl Status {
    /// What a status is called.
    pub fn name(&self) -> (r: &'static str)
        ensures
            r@ == status_name(*self),
    {
        match self {
            Status::Good => "ok",
            Status::Pending => "pending",
            Status::Warning => "warn",
            Status::Undecided => "?",
            Status::Disabled => "disabled",
            Status::Missing => "MISSING",
            Status::Failed => "FAIL",
        }
    }

    /// Whether it counts against the machine.
    pub open spec fn fails(self) -> bool {
        self == Status::Missing || self == Status::Failed
    }
}

/// One line of the report.
#[derive(Debug, PartialEq, Eq)]
pub struct Line {
    pub name: &'static str,
    pub status: Status,
    pub detail: String,
}

/// One line of the report, by its characters.
pub struct LineView {
    pub name: Seq<char>,
    pub status: Status,
    pub detail: Seq<char>,
}

impl View for Line {
    type V = LineView;

    open spec fn view(&self) -> LineView {
        LineView { name: self.name@, status: self.status, detail: self.detail@ }
    }
}

pub open spec fn line_views(lines: Seq<Line>) -> Seq<LineView> {
    Seq::new(lines.len(), |i: int| lines[i]@)
}

pub open spec fn said(name: Seq<char>, status: Status, detail: Seq<char>) -> LineView {
    LineView { name, status, detail }
}

/// A text filled up with spaces to a width.
pub open spec fn padded(s: Seq<char>, width: int) -> Seq<char>
    decreases width - s.len(),
{
    if s.len() >= width {
        s
    } else {
        padded(s.push(' '), width)
    }
}

fn push_padded(out: &mut String, s: &str, width: usize)
    ensures
        final(out)@ == old(out)@ + padded(s@, width as int),
{
    let chars = text::chars_of(s);
    let mut n: usize = chars.len();
    let mut filled = s.to_owned();
    while n < width
        invariant
            n == filled@.len(),
            padded(s@, width as int) == padded(filled@, width as int),
        decreases width - n,
    {
        filled.push(' ');
        n = n + 1;
    }
    out.append(filled.as_str());
}

/// A line as it is printed.
pub fn print_line(line: &Line) -> (r: String)
    ensures
        r@ == "  "@ + padded(line.name@, 10) + " "@ + padded(status_name(line.status), 9) + " "@
            + line.detail@,
{
    let mut out = "  ".to_owned();
    push_padded(&mut out, line.name, 10);
    out.append(" ");
    push_padded(&mut out, line.status.name(), 9);
    out.append(" ");
    out.append(line.detail.as_str());
    out
}

/// What was found on the machine.
#[derive(Debug, PartialEq, Eq)]
pub struct Facts {
    pub state_dir: String,
    pub files: StateFiles,
    /// Whether the tunnel's interface is there.
    pub wg_interface: bool,
    pub wg_wanted_mtu: Option<u16>,
    /// What stands in the interface's own file of its packet size.
    pub wg_mtu_file: Result<String, String>,
    pub peers: Result<Vec<PeerCheck>, String>,
    /// Whether the disguise layer's plan asks for any process.
    pub phantun_wanted: bool,
    pub phantun: WorkloadRuntime,
    pub phantun_running: bool,
    /// How the proxy runs; an error where its configuration cannot be read.
    pub xray: Result<WorkloadRuntime, String>,
    /// Whether the accounts that are let in are others than they should be; nothing
    /// where none are kept.
    pub grants_drifted: Result<Option<bool>, String>,
}

/// What is said of the packet size.
pub open spec fn mtu_lines(f: Facts) -> Seq<LineView> {
    match f.wg_wanted_mtu {
        None => seq![],
        Some(want) => match f.wg_mtu_file {
            Ok(content) => {
                let actual = match numbers::as_u16(text::trim(content@)) {
                    Some(v) => v,
                    None => 0,
                };
                if actual == want {
                    seq![said("mtu"@, Status::Good, "wg0 MTU "@ + numbers::decimal(actual as int))]
                } else {
                    seq![
                        said(
                            "mtu"@,
                            Status::Failed,
                            "配置要求 "@ + numbers::decimal(want as int) + "，接口实际是 "@
                                + numbers::decimal(actual as int) + "——大包会被丢"@,
                        ),
                    ]
                }
            },
            Err(error) => seq![said("mtu"@, Status::Undecided, "读不到 wg0 的 MTU: "@ + error@)],
        },
    }
}

/// What is said of a peer's endpoint.
pub open spec fn drift_lines(check: wg::CheckView) -> Seq<LineView> {
    match check.endpoint_drift {
        None => seq![],
        Some((want, live)) => seq![
            said(
                "peer"@,
                if wg::fatal_drift(check) {
                    Status::Failed
                } else {
                    Status::Warning
                },
                check.name + " 的 Endpoint 是 "@ + live + "，配置里写的是 "@ + want
                    + "——漫游顶掉的，wg 不会自己改回来"@,
            ),
        ],
    }
}

/// What is said of a peer's state. That it could not be asked is no failure: it says
/// something of this machine and nothing of the link.
pub open spec fn state_lines(check: wg::CheckView) -> Seq<LineView> {
    match check.state {
        wg::StateView::Fresh => seq![said("peer"@, Status::Good, check.name + " 握手正常"@)],
        wg::StateView::Alive => seq![
            said(
                "peer"@,
                Status::Good,
                check.name + " 通（"@ + wg::age_text(check.handshake_age) + "，隧道闲着而已）"@,
            ),
        ],
        wg::StateView::Unprobed(reason) => seq![
            said(
                "peer"@,
                Status::Undecided,
                check.name + " "@ + wg::age_text(check.handshake_age) + "，而这台机器上探不了："@ + reason,
            ),
        ],
        wg::StateView::Suspect => seq![],
        wg::StateView::Down(detail) => seq![
            said("peer"@, Status::Failed, check.name + " "@ + detail),
        ],
    }
}

/// What is said of the peers.
pub open spec fn peer_lines(checks: Seq<wg::CheckView>) -> Seq<LineView>
    decreases checks.len(),
{
    if checks.len() == 0 {
        seq![]
    } else {
        peer_lines(checks.drop_last()) + drift_lines(checks.last()) + state_lines(checks.last())
    }
}

/// What is said of the tunnel.
pub open spec fn wireguard_lines(f: Facts) -> Seq<LineView> {
    if f.files.wireguard_conf && !f.files.wireguard_disabled {
        if f.wg_interface {
            seq![said("wireguard"@, Status::Good, "wg0 已就位"@)] + mtu_lines(f) + (match f.peers {
                Ok(checks) => peer_lines(wg::check_views(checks@)),
                Err(error) => seq![said("peer"@, Status::Undecided, "查不到握手状态: "@ + error@)],
            })
        } else {
            seq![said("wireguard"@, Status::Failed, "有 wireguard.conf，但 wg0 不存在"@)]
        }
    } else if f.files.wireguard_disabled {
        seq![said("wireguard"@, Status::Disabled, "这台不在 overlay 里"@)]
    } else {
        seq![said("wireguard"@, Status::Missing, "状态目录里没有 wireguard.conf，还没收敛过"@)]
    }
}

/// What is said of how a workload runs.
pub open spec fn runtime_line(name: Seq<char>, good: Seq<char>, runtime: RuntimeView) -> LineView {
    match runtime {
        RuntimeView::Healthy => said(name, Status::Good, good),
        RuntimeView::Broken(detail) => said(name, Status::Failed, detail),
        RuntimeView::Unknown(detail) => said(name, Status::Undecided, detail),
    }
}

/// What is said of the disguise layer.
pub open spec fn phantun_lines(f: Facts) -> Seq<LineView> {
    if f.files.phantun_json && !f.files.phantun_disabled {
        if f.phantun_wanted {
            seq![runtime_line("phantun"@, "计划实例、TUN 和 NAT/转发规则正常"@, f.phantun@)]
        } else {
            seq![said("phantun"@, Status::Good, "这一版不需要实例"@)]
        }
    } else if f.files.phantun_disabled && f.phantun_running {
        seq![said("phantun"@, Status::Failed, "已停用，但进程还在跑"@)]
    } else {
        seq![]
    }
}

/// What is said of the proxy and its accounts, and the error that ends the report.
pub open spec fn xray_lines(f: Facts) -> (Seq<LineView>, Option<Seq<char>>) {
    if f.files.xray_json && !f.files.xray_disabled {
        match f.xray {
            Err(error) => (
                seq![],
                Some("读不了 "@ + paths::joined(f.state_dir@, "xray.json"@) + ": "@ + error@),
            ),
            Ok(runtime) => {
                let lines = seq![runtime_line("xray"@, "进程和所有计划端口正常"@, runtime@)];
                match f.grants_drifted {
                    Err(error) => (lines, Some(error@)),
                    Ok(None) => (lines, None),
                    Ok(Some(drifted)) => if drifted {
                        (
                            lines.push(
                                said(
                                    "grants"@,
                                    Status::Failed,
                                    "放行名单跟期望对不上：少了人订阅会被拒，多了人是该断没断——跑 `brocade-agent repair`"@,
                                ),
                            ),
                            None,
                        )
                    } else {
                        (lines.push(said("grants"@, Status::Good, "放行名单齐"@)), None)
                    },
                }
            },
        }
    } else if f.files.xray_disabled {
        (seq![said("xray"@, Status::Disabled, "这台没有 xray 工作负载"@)], None)
    } else {
        (seq![said("xray"@, Status::Missing, "状态目录里没有 xray.json，还没收敛过"@)], None)
    }
}

/// How many lines count against the machine.
pub open spec fn failures(lines: Seq<LineView>) -> nat
    decreases lines.len(),
{
    if lines.len() == 0 {
        0
    } else {
        failures(lines.drop_last()) + (if lines.last().status.fails() {
            1nat
        } else {
            0
        })
    }
}

/// What is said of a machine that took a release.
pub open spec fn all_lines(f: Facts) -> Seq<LineView> {
    wireguard_lines(f) + phantun_lines(f) + xray_lines(f).0
}

/// What is said of a machine in the end: the closing line, or the error.
pub open spec fn verdict(f: Facts) -> Result<Seq<char>, Seq<char>> {
    match xray_lines(f).1 {
        Some(error) => Err(error),
        None => {
            let n = failures(all_lines(f));
            if n == 0 {
                Ok("健康：全部检查通过"@)
            } else {
                Err("健康检查有 "@ + numbers::decimal(n as int) + " 项没通过"@)
            }
        },
    }
}

/// What is said of a machine that took no release: that it waits for one where the
/// control plane answered, and that nobody answered where it did not.
pub open spec fn blank_report(f: Facts) -> (Seq<LineView>, Result<Seq<char>, Seq<char>>) {
    if f.files.no_desired {
        (
            seq![
                said(
                    "deploy"@,
                    Status::Pending,
                    "控制面还没给这台机器派活——去控制台把它加进计划，发布一版"@,
                ),
            ],
            Ok("健康：agent 已就位并在轮询，等控制面派活（还没收敛过，没有别的可查）"@),
        )
    } else {
        (
            seq![
                said(
                    "deploy"@,
                    Status::Failed,
                    "agent 还没从控制面拿到过任何回答（一轮都没跑完）"@,
                ),
            ],
            Err(
                f.state_dir@
                    + " 是空的，agent 连 204 都没收到过。\n多半是这两种：--server 指到了 admin 端口（默认 8080，那上面没有 /agent/v1/*），或者 token 不对/被吊销了。\njournalctl -u brocade-agent -n 50 里有具体那条错。"@,
            ),
        )
    }
}

/// What is said of a machine.
pub open spec fn report_of(f: Facts) -> (Seq<LineView>, Result<Seq<char>, Seq<char>>) {
    if is_blank(f.files) {
        blank_report(f)
    } else {
        (all_lines(f), verdict(f))
    }
}

fn report(lines: &mut Vec<Line>, name: &'static str, status: Status, detail: String)
    ensures
        line_views(final(lines)@) == line_views(old(lines)@).push(said(name@, status, detail@)),
{
    let ghost before = lines@;
    lines.push(Line { name, status, detail });
    assert(line_views(lines@) == line_views(before).push(said(name@, status, detail@)));
}

fn report_mtu(lines: &mut Vec<Line>, f: &Facts)
    ensures
        line_views(final(lines)@) == line_views(old(lines)@) + mtu_lines(*f),
{
    let want = match f.wg_wanted_mtu {
        Some(want) => want,
        None => {
            return ;
        },
    };
    match &f.wg_mtu_file {
        Ok(content) => {
            let chars = text::chars_of(content.as_str());
            let actual: u16 = match numbers::read_u16(text::trimmed(chars.as_slice())) {
                Some(v) => v,
                None => 0,
            };
            if actual == want {
                let mut detail = "wg0 MTU ".to_owned();
                detail.append(numbers::decimal_string(actual as u64).as_str());
                report(lines, "mtu", Status::Good, detail);
            } else {
                let mut detail = "配置要求 ".to_owned();
                detail.append(numbers::decimal_string(want as u64).as_str());
                detail.append("，接口实际是 ");
                detail.append(numbers::decimal_string(actual as u64).as_str());
                detail.append("——大包会被丢");
                report(lines, "mtu", Status::Failed, detail);
            }
        },
        Err(error) => {
            let mut detail = "读不到 wg0 的 MTU: ".to_owned();
            detail.append(error.as_str());
            report(lines, "mtu", Status::Undecided, detail);
        },
    }
}

fn report_drift(lines: &mut Vec<Line>, check: &PeerCheck)
    ensures
        line_views(final(lines)@) == line_views(old(lines)@) + drift_lines(check@),
{
    if let Some((want, live)) = &check.endpoint_drift {
        let status = if drift_is_fatal(check) {
            Status::Failed
        } else {
            Status::Warning
        };
        let mut detail = check.name.as_str().to_owned();
        detail.append(" 的 Endpoint 是 ");
        detail.append(live.as_str());
        detail.append("，配置里写的是 ");
        detail.append(want.as_str());
        detail.append("——漫游顶掉的，wg 不会自己改回来");
        report(lines, "peer", status, detail);
    }
}

fn report_state(lines: &mut Vec<Line>, check: &PeerCheck)
    ensures
        line_views(final(lines)@) == line_views(old(lines)@) + state_lines(check@),
{
    let mut detail = check.name.as_str().to_owned();
    match &check.state {
        PeerState::Fresh => {
            detail.append(" 握手正常");
            report(lines, "peer", Status::Good, detail);
        },
        PeerState::Alive => {
            detail.append(" 通（");
            detail.append(handshake_age_text(check.handshake_age).as_str());
            detail.append("，隧道闲着而已）");
            report(lines, "peer", Status::Good, detail);
        },
        PeerState::Unprobed { reason } => {
            detail.append(" ");
            detail.append(handshake_age_text(check.handshake_age).as_str());
            detail.append("，而这台机器上探不了：");
            detail.append(reason.as_str());
            report(lines, "peer", Status::Undecided, detail);
        },
        PeerState::Suspect => {},
        PeerState::Down { detail: why } => {
            detail.append(" ");
            detail.append(why.as_str());
            report(lines, "peer", Status::Failed, detail);
        },
    }
}

fn report_peers(lines: &mut Vec<Line>, checks: &Vec<PeerCheck>)
    ensures
        line_views(final(lines)@) == line_views(old(lines)@) + peer_lines(
            wg::check_views(checks@),
        ),
{
    let ghost all = wg::check_views(checks@);
    let ghost start = line_views(lines@);
    assert(all.len() == checks@.len());
    let mut i: usize = 0;
    assert(line_views(lines@) == start + peer_lines(all.take(0)));
    while i < checks.len()
        invariant
            i <= checks@.len(),
            all == wg::check_views(checks@),
            all.len() == checks@.len(),
            line_views(lines@) == start + peer_lines(all.take(i as int)),
        decreases checks.len() - i,
    {
        assert(all[i as int] == checks@[i as int]@);
        assert(all.take(i + 1).drop_last() == all.take(i as int));
        assert(all.take(i + 1).last() == all[i as int]);
        report_drift(lines, &checks[i]);
        report_state(lines, &checks[i]);
        assert(line_views(lines@) == start + peer_lines(all.take(i + 1)));
        i = i + 1;
    }
    assert(all.take(i as int) == all);
}

fn report_wireguard(lines: &mut Vec<Line>, f: &Facts)
    ensures
        line_views(final(lines)@) == line_views(old(lines)@) + wireguard_lines(*f),
{
    if f.files.wireguard_conf && !f.files.wireguard_disabled {
        if f.wg_interface {
            report(lines, "wireguard", Status::Good, "wg0 已就位".to_owned());
            report_mtu(lines, f);
            match &f.peers {
                Ok(checks) => report_peers(lines, checks),
                Err(error) => {
                    let mut detail = "查不到握手状态: ".to_owned();
                    detail.append(error.as_str());
                    report(lines, "peer", Status::Undecided, detail);
                },
            }
        } else {
            report(
                lines,
                "wireguard",
                Status::Failed,
                "有 wireguard.conf，但 wg0 不存在".to_owned(),
            );
        }
    } else if f.files.wireguard_disabled {
        report(lines, "wireguard", Status::Disabled, "这台不在 overlay 里".to_owned());
    } else {
        report(
            lines,
            "wireguard",
            Status::Missing,
            "状态目录里没有 wireguard.conf，还没收敛过".to_owned(),
        );
    }
}

fn report_runtime(
    lines: &mut Vec<Line>,
    name: &'static str,
    good: &str,
    runtime: &WorkloadRuntime,
)
    ensures
        line_views(final(lines)@) == line_views(old(lines)@).push(
            runtime_line(name@, good@, runtime@),
        ),
{
    match runtime {
        WorkloadRuntime::Healthy => report(lines, name, Status::Good, good.to_owned()),
        WorkloadRuntime::Broken(detail) => report(
            lines,
            name,
            Status::Failed,
            detail.as_str().to_owned(),
        ),
        WorkloadRuntime::Unknown(detail) => report(
            lines,
            name,
            Status::Undecided,
            detail.as_str().to_owned(),
        ),
    }
}

fn report_phantun(lines: &mut Vec<Line>, f: &Facts)
    ensures
        line_views(final(lines)@) == line_views(old(lines)@) + phantun_lines(*f),
{
    if f.files.phantun_json && !f.files.phantun_disabled {
        if f.phantun_wanted {
            report_runtime(lines, "phantun", "计划实例、TUN 和 NAT/转发规则正常", &f.phantun);
        } else {
            report(lines, "phantun", Status::Good, "这一版不需要实例".to_owned());
        }
    } else if f.files.phantun_disabled && f.phantun_running {
        report(lines, "phantun", Status::Failed, "已停用，但进程还在跑".to_owned());
    }
}

fn report_xray(lines: &mut Vec<Line>, f: &Facts) -> (r: Option<String>)
    ensures
        line_views(final(lines)@) == line_views(old(lines)@) + xray_lines(*f).0,
        text::optional(r) == xray_lines(*f).1,
{
    if f.files.xray_json && !f.files.xray_disabled {
        let runtime = match &f.xray {
            Ok(runtime) => runtime,
            Err(error) => {
                let mut out = "读不了 ".to_owned();
                out.append(paths::join(f.state_dir.as_str(), "xray.json").as_str());
                out.append(": ");
                out.append(error.as_str());
                return Some(out);
            },
        };
        report_runtime(lines, "xray", "进程和所有计划端口正常", runtime);
        match &f.grants_drifted {
            Err(error) => {
                return Some(error.as_str().to_owned());
            },
            Ok(None) => {},
            Ok(Some(drifted)) => if *drifted {
                report(
                    lines,
                    "grants",
                    Status::Failed,
                    "放行名单跟期望对不上：少了人订阅会被拒，多了人是该断没断——跑 `brocade-agent repair`".to_owned(),
                );
            } else {
                report(lines, "grants", Status::Good, "放行名单齐".to_owned());
            },
        }
    } else if f.files.xray_disabled {
        report(lines, "xray", Status::Disabled, "这台没有 xray 工作负载".to_owned());
    } else {
        report(
            lines,
            "xray",
            Status::Missing,
            "状态目录里没有 xray.json，还没收敛过".to_owned(),
        );
    }
    None
}

fn count_failures(lines: &Vec<Line>) -> (r: usize)
    ensures
        r == failures(line_views(lines@)),
{
    let ghost all = line_views(lines@);
    assert(all.len() == lines@.len());
    let mut n: usize = 0;
    let mut i: usize = 0;
    while i < lines.len()
        invariant
            i <= lines@.len(),
            all == line_views(lines@),
            all.len() == lines@.len(),
            n <= i,
            n == failures(all.take(i as int)),
        decreases lines.len() - i,
    {
        assert(all[i as int] == lines@[i as int]@);
        assert(all.take(i + 1).drop_last() == all.take(i as int));
        assert(all.take(i + 1).last() == all[i as int]);
        match lines[i].status {
            Status::Missing => {
                n = n + 1;
            },
            Status::Failed => {
                n = n + 1;
            },
            _ => {},
        }
        i = i + 1;
    }
    assert(all.take(i as int) == all);
    n
}

/// What is said of a machine: its lines, and the closing line or the error.
pub fn health(f: &Facts) -> (r: (Vec<Line>, Result<String, String>))
    ensures
        line_views(r.0@) == report_of(*f).0,
        match r.1 {
            Ok(line) => report_of(*f).1 == Ok::<Seq<char>, Seq<char>>(line@),
            Err(error) => report_of(*f).1 == Err::<Seq<char>, Seq<char>>(error@),
        },
        r.1 is Ok <==> is_well(*f),
{
    proof {
        lemma_well_exactly_without_faults(*f);
    }
    let mut lines: Vec<Line> = Vec::new();
    assert(line_views(lines@) == Seq::<LineView>::empty());
    if never_converged(&f.files) {
        if f.files.no_desired {
            report(
                &mut lines,
                "deploy",
                Status::Pending,
                "控制面还没给这台机器派活——去控制台把它加进计划，发布一版".to_owned(),
            );
            return (
                lines,
                Ok(
                    "健康：agent 已就位并在轮询，等控制面派活（还没收敛过，没有别的可查）".to_owned(),
                ),
            );
        }
        report(
            &mut lines,
            "deploy",
            Status::Failed,
            "agent 还没从控制面拿到过任何回答（一轮都没跑完）".to_owned(),
        );
        let mut error = f.state_dir.as_str().to_owned();
        error.append(
            " 是空的，agent 连 204 都没收到过。\n多半是这两种：--server 指到了 admin 端口（默认 8080，那上面没有 /agent/v1/*），或者 token 不对/被吊销了。\njournalctl -u brocade-agent -n 50 里有具体那条错。",
        );
        return (lines, Err(error));
    }
    report_wireguard(&mut lines, f);
    report_phantun(&mut lines, f);
    let ended = report_xray(&mut lines, f);
    assert(line_views(lines@) == all_lines(*f));
    if let Some(error) = ended {
        return (lines, Err(error));
    }
    let n: usize = count_failures(&lines);
    if n == 0 {
        (lines, Ok("健康：全部检查通过".to_owned()))
    } else {
        let mut out = "健康检查有 ".to_owned();
        out.append(numbers::decimal_string(n as u64).as_str());
        out.append(" 项没通过");
        (lines, Err(out))
    }
}

proof fn lemma_failures(lines: Seq<LineView>)
    ensures
        failures(lines) == 0 <==> (forall|i: int|
            0 <= i < lines.len() ==> !(#[trigger] lines[i]).status.fails()),
    decreases lines.len(),
{
    if lines.len() > 0 {
        lemma_failures(lines.drop_last());
        let front = lines.drop_last();
        assert(lines.last() == lines[lines.len() - 1]);
        if failures(lines) == 0 {
            assert forall|i: int| 0 <= i < lines.len() implies !(
            #[trigger] lines[i]).status.fails() by {
                if i < front.len() {
                    assert(front[i] == lines[i]);
                }
            }
        } else if failures(front) != 0 {
            let k = choose|i: int|
                0 <= i < front.len() && (#[trigger] front[i]).status.fails();
            assert(lines[k] == front[k]);
        }
    }
}

/// A machine that took a release is well exactly where no line counts against it and
/// nothing ended the report early.
pub proof fn lemma_well_means_no_line_fails(f: Facts)
    requires
        !is_blank(f.files),
    ensures
        verdict(f) is Ok <==> xray_lines(f).1 is None && (forall|i: int|
            0 <= i < all_lines(f).len() ==> !(#[trigger] all_lines(f)[i]).status.fails()),
{
    lemma_failures(all_lines(f));
}

/// Whether what was found of the tunnel speaks against the machine: it is neither
/// configured nor switched off; or it is configured, and its interface is absent, carries
/// packets of another size than the configuration asks for, or has a peer that is down or
/// whose endpoint moved where it must not.
pub open spec fn tunnel_fails(f: Facts) -> bool {
    &&& !f.files.wireguard_disabled
    &&& {
        ||| !f.files.wireguard_conf
        ||| !f.wg_interface
        ||| f.wg_wanted_mtu matches Some(want) && f.wg_mtu_file matches Ok(content)
            && numbers::as_u16(text::trim(content@)) != Some(want) && (want != 0
            || numbers::as_u16(text::trim(content@)) is Some)
        ||| f.peers matches Ok(checks) && exists|i: int|
            0 <= i < checks@.len() && peer_fails(#[trigger] checks@[i]@)
    }
}

/// Whether a peer speaks against the machine: it is down, or it was found at another
/// endpoint than the one on this machine that it is reached through.
pub open spec fn peer_fails(check: wg::CheckView) -> bool {
    check.state is Down || (check.endpoint_drift matches Some((want, _)) && wg::local_endpoint(want))
}

/// Whether what was found of the disguise layer speaks against the machine: it is wanted
/// and broken, or switched off and still running.
pub open spec fn disguise_fails(f: Facts) -> bool {
    if f.files.phantun_disabled {
        f.phantun_running
    } else {
        f.files.phantun_json && f.phantun_wanted && f.phantun is Broken
    }
}

/// Whether what was found of the proxy speaks against the machine: it is neither
/// configured nor switched off; or it is configured, and its configuration cannot be read,
/// it is broken, or the accounts that it lets in cannot be read or are not those it should.
pub open spec fn proxy_fails(f: Facts) -> bool {
    &&& !f.files.xray_disabled
    &&& {
        ||| !f.files.xray_json
        ||| f.xray is Err
        ||| f.xray matches Ok(runtime) && runtime is Broken
        ||| f.grants_drifted is Err
        ||| f.grants_drifted == Ok::<Option<bool>, String>(Some(true))
    }
}

/// Whether nothing that was found speaks against the machine. One that nothing was ever
/// released to has nothing to be looked at, and is well where the control plane answered.
pub open spec fn is_well(f: Facts) -> bool {
    if !f.files.wireguard_conf && !f.files.wireguard_disabled && !f.files.xray_json
        && !f.files.xray_disabled && !f.files.phantun_json && !f.files.phantun_disabled
        && !f.files.applied_state {
        f.files.no_desired
    } else {
        !tunnel_fails(f) && !disguise_fails(f) && !proxy_fails(f)
    }
}

/// The report closes well exactly where nothing that was found speaks against the machine.
pub proof fn lemma_well_exactly_without_faults(f: Facts)
    ensures
        report_of(f).1 is Ok <==> is_well(f),
{
    if !is_blank(f.files) {
        lemma_failures_add(wireguard_lines(f), phantun_lines(f));
        lemma_failures_add(wireguard_lines(f) + phantun_lines(f), xray_lines(f).0);
        lemma_tunnel_failures(f);
        reveal_with_fuel(failures, 3);
    }
}

proof fn lemma_failures_add(a: Seq<LineView>, b: Seq<LineView>)
    ensures
        failures(a + b) == failures(a) + failures(b),
    decreases b.len(),
{
    if b.len() == 0 {
        assert(a + b == a);
    } else {
        assert((a + b).drop_last() == a + b.drop_last());
        lemma_failures_add(a, b.drop_last());
    }
}

proof fn lemma_peer_failures(checks: Seq<wg::CheckView>)
    ensures
        failures(peer_lines(checks)) == peer_faults(checks),
        peer_faults(checks) == 0 <==> (forall|i: int|
            0 <= i < checks.len() ==> !peer_fails(#[trigger] checks[i])),
    decreases checks.len(),
{
    if checks.len() > 0 {
        let front = checks.drop_last();
        let last = checks.last();
        lemma_peer_failures(front);
        assert(checks[checks.len() - 1] == last);
        assert forall|i: int| 0 <= i < front.len() implies front[i] == checks[i] by {}
        lemma_failures_add(peer_lines(front), drift_lines(last));
        lemma_failures_add(peer_lines(front) + drift_lines(last), state_lines(last));
        reveal_with_fuel(failures, 2);
        if forall|i: int| 0 <= i < checks.len() ==> !peer_fails(#[trigger] checks[i]) {
            assert forall|i: int| 0 <= i < front.len() implies !peer_fails(
                #[trigger] front[i],
            ) by {
                assert(!peer_fails(checks[i]));
            }
            assert(!peer_fails(checks[checks.len() - 1]));
        }
    }
}

proof fn lemma_tunnel_failures(f: Facts)
    ensures
        failures(wireguard_lines(f)) == 0 <==> !tunnel_fails(f),
        failures(wireguard_lines(f)) == tunnel_faults(f),
{
    reveal_with_fuel(failures, 2);
    if f.files.wireguard_conf && !f.files.wireguard_disabled && f.wg_interface {
        let first = seq![said("wireguard"@, Status::Good, "wg0 已就位"@)];
        let peers = match f.peers {
            Ok(checks) => peer_lines(wg::check_views(checks@)),
            Err(error) => seq![said("peer"@, Status::Undecided, "查不到握手状态: "@ + error@)],
        };
        lemma_failures_add(first, mtu_lines(f));
        lemma_failures_add(first + mtu_lines(f), peers);
        if let Ok(checks) = f.peers {
            let views = wg::check_views(checks@);
            lemma_peer_failures(views);
            assert(views.len() == checks@.len());
            assert forall|i: int| 0 <= i < views.len() implies views[i] == (
            #[trigger] checks@[i])@ by {}
            if exists|i: int| 0 <= i < checks@.len() && peer_fails(#[trigger] checks@[i]@) {
                let i = choose|i: int| 0 <= i < checks@.len() && peer_fails(#[trigger] checks@[i]@);
                assert(peer_fails(views[i]));
            }
            if peer_faults(views) != 0 {
                let i = choose|i: int| 0 <= i < views.len() && peer_fails(#[trigger] views[i]);
                assert(peer_fails(checks@[i]@));
            }
        }
    }
}

/// How many faults were found with peers: one for each that is down, and one for each
/// whose endpoint moved and that is down or has to be reached on this machine.
pub open spec fn peer_faults(checks: Seq<wg::CheckView>) -> nat
    decreases checks.len(),
{
    if checks.len() == 0 {
        0
    } else {
        let check = checks.last();
        peer_faults(checks.drop_last()) + (if check.state is Down {
            1nat
        } else {
            0
        }) + (if check.endpoint_drift matches Some((want, _)) && (check.state is Down
            || wg::local_endpoint(want)) {
            1nat
        } else {
            0
        })
    }
}

/// How many faults were found with the tunnel.
pub open spec fn tunnel_faults(f: Facts) -> nat {
    if f.files.wireguard_disabled {
        0
    } else if !f.files.wireguard_conf || !f.wg_interface {
        1
    } else {
        (match (f.wg_wanted_mtu, f.wg_mtu_file) {
            (Some(want), Ok(content)) => match numbers::as_u16(text::trim(content@)) {
                Some(actual) => if actual == want {
                    0nat
                } else {
                    1
                },
                None => if want == 0 {
                    0
                } else {
                    1
                },
            },
            _ => 0,
        }) + (match f.peers {
            Ok(checks) => peer_faults(wg::check_views(checks@)),
            Err(_) => 0,
        })
    }
}

/// The report of a machine that took a release names how many faults were found, where it
/// was not ended by something that cannot be read: those of the tunnel, one for the
/// disguise layer, one for a proxy that is missing or broken, and one for its accounts.
pub proof fn lemma_faults_are_counted(f: Facts)
    requires
        f.files.applied_state,
        f.files.xray_disabled || !f.files.xray_json || f.xray is Ok && f.grants_drifted is Ok,
    ensures
        ({
            let n = tunnel_faults(f) + (if disguise_fails(f) {
                1nat
            } else {
                0
            }) + (if !f.files.xray_disabled && (!f.files.xray_json || f.xray->Ok_0 is Broken) {
                1nat
            } else {
                0
            }) + (if !f.files.xray_disabled && f.files.xray_json && f.grants_drifted == Ok::<
                Option<bool>,
                String,
            >(Some(true)) {
                1nat
            } else {
                0
            });
            report_of(f).1 == (if n == 0 {
                Ok("健康：全部检查通过"@)
            } else {
                Err("健康检查有 "@ + numbers::decimal(n as int) + " 项没通过"@)
            })
        }),
{
    lemma_failures_add(wireguard_lines(f), phantun_lines(f));
    lemma_failures_add(wireguard_lines(f) + phantun_lines(f), xray_lines(f).0);
    lemma_tunnel_failures(f);
    reveal_with_fuel(failures, 3);
}

/// A line counts against the machine exactly where it is printed as `MISSING` or `FAIL`.
pub proof fn lemma_what_fails_is_shouted(status: Status)
    ensures
        status.fails() <==> status_name(status) == "MISSING"@ || status_name(status) == "FAIL"@,
{
    reveal_strlit("ok");
    reveal_strlit("pending");
    reveal_strlit("warn");
    reveal_strlit("?");
    reveal_strlit("disabled");
    reveal_strlit("MISSING");
    reveal_strlit("FAIL");
    assert("warn"@[0] == 'w' && "FAIL"@[0] == 'F');
    assert("pending"@[0] == 'p' && "MISSING"@[0] == 'M');
}

/// A machine that nothing was ever released to is well exactly where the control plane
/// has answered it.
pub proof fn lemma_waiting_machine_is_well(f: Facts)
    requires
        is_blank(f.files),
    ensures
        report_of(f).1 is Ok <==> f.files.no_desired,
{
}

/// What is padded keeps its text, fills its width with spaces behind it, and is never cut.
pub proof fn lemma_padding_only_adds_spaces(s: Seq<char>, width: int)
    ensures
        padded(s, width).len() == if s.len() >= width {
            s.len() as int
        } else {
            width
        },
        padded(s, width).take(s.len() as int) == s,
        forall|i: int| s.len() <= i < width ==> #[trigger] padded(s, width)[i] == ' ',
    decreases width - s.len(),
{
    if s.len() < width {
        let more = s.push(' ');
        lemma_padding_only_adds_spaces(more, width);
        let whole = padded(more, width);
        assert(whole.take(more.len() as int)[s.len() as int] == ' ');
        assert forall|i: int| 0 <= i < s.len() implies whole[i] == #[trigger] s[i] by {
            assert(whole.take(more.len() as int)[i] == more[i]);
        }
        assert(whole.take(s.len() as int) =~= s);
    } else {
        assert(s.take(s.len() as int) =~= s);
    }
}

} // verus!
