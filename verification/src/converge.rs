//! Bringing the machine to what is asked of it, and telling what it came to.
use vstd::prelude::*;
use vstd::string::*;

use crate::json::Json;
use crate::plan::{
    artifact_dirty, AppliedArtifactState, AppliedGrantsState, DesiredArtifact, DesiredGrants,
    ObservedInbound,
};
use crate::xray::{xray_api_port, xray_needs_splice_disabled};
use crate::{grants, json, numbers, plan, shell, text, xray};

verus! {

/// The port of the proxy's own interface where its configuration names none.
pub const DEFAULT_API_PORT: u16 = 10085;

/// Present where the running proxy writes its log through the bounded sink.
pub const XRAY_BOUNDED_LOG_MARKER: &'static str = "xray.bounded-log-v3";

/// One thing that is done in the state directory.
#[derive(Debug, PartialEq, Eq)]
pub enum FileStep {
    /// A file that only this user may read, replaced as a whole.
    Write { name: String, content: String },
    /// A file that is removed where it is there.
    Remove { name: String },
    /// A mark with a reason in it.
    Mark { name: String, reason: String },
}

/// One thing that is done in the state directory, by its characters.
pub enum FileView {
    Write { name: Seq<char>, content: Seq<char> },
    Remove { name: Seq<char> },
    Mark { name: Seq<char>, reason: Seq<char> },
}

impl View for FileStep {
    type V = FileView;

    open spec fn view(&self) -> FileView {
        match *self {
            FileStep::Write { name, content } => FileView::Write {
                name: name@,
                content: content@,
            },
            FileStep::Remove { name } => FileView::Remove { name: name@ },
            FileStep::Mark { name, reason } => FileView::Mark { name: name@, reason: reason@ },
        }
    }
}

pub open spec fn file_views(steps: Seq<FileStep>) -> Seq<FileView> {
    Seq::new(steps.len(), |i: int| steps[i]@)
}

/// What is done with an artifact: it is written and its mark removed, or removed and
/// marked, or left alone.
pub open spec fn artifact_steps(
    present: Seq<char>,
    disabled: Seq<char>,
    desired: DesiredArtifact,
) -> Seq<FileView> {
    match desired {
        DesiredArtifact::Present { content, .. } => seq![
            FileView::Write { name: present, content: content@ },
            FileView::Remove { name: disabled },
        ],
        DesiredArtifact::Disabled { reason } => seq![
            FileView::Remove { name: present },
            FileView::Mark { name: disabled, reason: reason@ },
        ],
        DesiredArtifact::Unmanaged { .. } => seq![],
    }
}

/// What is done with an artifact.
pub fn converge_artifact(
    present_name: &str,
    disabled_name: &str,
    desired: &DesiredArtifact,
) -> (r: Vec<FileStep>)
    ensures
        file_views(r@) == artifact_steps(present_name@, disabled_name@, *desired),
{
    let mut out: Vec<FileStep> = Vec::new();
    match desired {
        DesiredArtifact::Present { content, .. } => {
            out.push(
                FileStep::Write {
                    name: present_name.to_owned(),
                    content: content.as_str().to_owned(),
                },
            );
            out.push(FileStep::Remove { name: disabled_name.to_owned() });
        },
        DesiredArtifact::Disabled { reason } => {
            out.push(FileStep::Remove { name: present_name.to_owned() });
            out.push(
                FileStep::Mark {
                    name: disabled_name.to_owned(),
                    reason: reason.as_str().to_owned(),
                },
            );
        },
        DesiredArtifact::Unmanaged { .. } => {},
    }
    assert(file_views(out@) =~= artifact_steps(present_name@, disabled_name@, *desired));
    out
}

/// What an artifact is once its steps were done: its digest is that of the file as it
/// was read back.
pub fn converged_artifact(desired: &DesiredArtifact, digest: Result<&str, &str>) -> (r: Result<
    AppliedArtifactState,
    String,
>)
    ensures
        match desired {
            DesiredArtifact::Present { .. } => match digest {
                Ok(sha256) => r matches Ok(state) && state@ == plan::ArtifactView::Present(sha256@),
                Err(error) => r matches Err(e) && e@ == error@,
            },
            DesiredArtifact::Disabled { .. } => r matches Ok(state) && state@
                == plan::ArtifactView::Disabled,
            DesiredArtifact::Unmanaged { .. } => r matches Ok(state) && state@
                == plan::ArtifactView::Unmanaged,
        },
{
    match desired {
        DesiredArtifact::Present { .. } => match digest {
            Ok(sha256) => Ok(AppliedArtifactState::Present { sha256: sha256.to_owned() }),
            Err(error) => Err(error.to_owned()),
        },
        DesiredArtifact::Disabled { .. } => Ok(AppliedArtifactState::Disabled),
        DesiredArtifact::Unmanaged { .. } => Ok(AppliedArtifactState::Unmanaged),
    }
}

/// The files of the state directory, by their names.
pub open spec fn after_steps(files: Map<Seq<char>, Seq<char>>, steps: Seq<FileView>) -> Map<
    Seq<char>,
    Seq<char>,
>
    decreases steps.len(),
{
    if steps.len() == 0 {
        files
    } else {
        let before = after_steps(files, steps.drop_last());
        match steps.last() {
            FileView::Write { name, content } => before.insert(name, content),
            FileView::Remove { name } => before.remove(name),
            FileView::Mark { name, reason } => before.insert(name, reason),
        }
    }
}

/// However the state directory was before, an artifact that is asked for stands there
/// without its mark, and one that is taken down leaves only its mark.
pub proof fn lemma_artifact_and_mark_exclude_each_other(
    files: Map<Seq<char>, Seq<char>>,
    present: Seq<char>,
    disabled: Seq<char>,
    desired: DesiredArtifact,
)
    requires
        present != disabled,
    ensures
        ({
            let after = after_steps(files, artifact_steps(present, disabled, desired));
            match desired {
                DesiredArtifact::Present { content, .. } => after.dom().contains(present)
                    && after[present] == content@ && !after.dom().contains(disabled),
                DesiredArtifact::Disabled { reason } => after.dom().contains(disabled)
                    && after[disabled] == reason@ && !after.dom().contains(present),
                DesiredArtifact::Unmanaged { .. } => after == files,
            }
        }),
{
    let steps = artifact_steps(present, disabled, desired);
    reveal_with_fuel(after_steps, 3);
    if steps.len() > 0 {
        assert(steps.drop_last().drop_last() == Seq::<FileView>::empty());
    }
}

/// What is done with the list of accounts in the state directory; `text` is the list as
/// it is kept.
pub fn converge_grants(desired: &DesiredGrants, text: &str) -> (r: (
    Vec<FileStep>,
    AppliedGrantsState,
))
    ensures
        match desired {
            DesiredGrants::Present { inbounds } => file_views(r.0@) == seq![
                (FileView::Write { name: "grants.json"@, content: text@ }),
            ] && r.1@ == plan::GrantsView::Present(grants::inbounds_as_observed(inbounds@)),
            DesiredGrants::Disabled { .. } => file_views(r.0@) == seq![
                (FileView::Remove { name: "grants.json"@ }),
            ] && r.1@ == plan::GrantsView::Disabled,
            DesiredGrants::Unmanaged { .. } => r.0@.len() == 0 && r.1@
                == plan::GrantsView::Unmanaged,
        },
{
    let mut out: Vec<FileStep> = Vec::new();
    match desired {
        DesiredGrants::Present { inbounds } => {
            out.push(FileStep::Write { name: "grants.json".to_owned(), content: text.to_owned() });
            assert(file_views(out@) =~= seq![
                FileView::Write { name: "grants.json"@, content: text@ },
            ]);
            (out, AppliedGrantsState::Present { inbounds: grants::observed_inbounds(inbounds) })
        },
        DesiredGrants::Disabled { .. } => {
            out.push(FileStep::Remove { name: "grants.json".to_owned() });
            assert(file_views(out@) =~= seq![FileView::Remove { name: "grants.json"@ }]);
            (out, AppliedGrantsState::Disabled)
        },
        DesiredGrants::Unmanaged { .. } => (out, AppliedGrantsState::Unmanaged),
    }
}

/// One part of the work on a machine.
#[derive(Debug, Clone, Copy, PartialEq, Eq, Structural)]
pub enum Stage {
    /// Programs that are missing are fetched, before anything is held up for it.
    PreparePhantun,
    Phantun,
    Wireguard,
    /// The counters are read: a proxy that is started again forgets them.
    SampleUsage,
    Xray,
    Conntrack,
    PortHop,
    Grants,
}

/// What is done to a machine, in order. The disguise layer runs before the tunnel that
/// points at it; the counters are read before the proxy can be started again; the ports
/// that are exempted come out of the proxy's new configuration; accounts go to the proxy
/// that runs it.
pub open spec fn linux_stages(phantun: DesiredArtifact, accounting: bool) -> Seq<Stage> {
    (if phantun is Present {
        seq![Stage::PreparePhantun]
    } else {
        seq![]
    }) + seq![Stage::Phantun, Stage::Wireguard] + (if accounting {
        seq![Stage::SampleUsage]
    } else {
        seq![]
    }) + seq![Stage::Xray, Stage::Conntrack, Stage::PortHop, Stage::Grants]
}

/// What is done to a machine, in order.
pub fn converge_linux(phantun: &DesiredArtifact, usage_generation_id: Option<i64>) -> (r: Vec<
    Stage,
>)
    ensures
        r@ == linux_stages(*phantun, usage_generation_id is Some),
{
    let mut out: Vec<Stage> = Vec::new();
    match phantun {
        DesiredArtifact::Present { .. } => out.push(Stage::PreparePhantun),
        _ => {},
    }
    out.push(Stage::Phantun);
    out.push(Stage::Wireguard);
    if usage_generation_id.is_some() {
        out.push(Stage::SampleUsage);
    }
    out.push(Stage::Xray);
    out.push(Stage::Conntrack);
    out.push(Stage::PortHop);
    out.push(Stage::Grants);
    assert(out@ =~= linux_stages(*phantun, usage_generation_id is Some));
    out
}

/// The order of the parts of the work.
pub open spec fn stage_rank(stage: Stage) -> int {
    match stage {
        Stage::PreparePhantun => 0,
        Stage::Phantun => 1,
        Stage::Wireguard => 2,
        Stage::SampleUsage => 3,
        Stage::Xray => 4,
        Stage::Conntrack => 5,
        Stage::PortHop => 6,
        Stage::Grants => 7,
    }
}

/// The parts of the work come in one order, whichever of them there are.
pub proof fn lemma_stages_keep_their_order(phantun: DesiredArtifact, accounting: bool)
    ensures
        forall|i: int, j: int|
            0 <= i < j < linux_stages(phantun, accounting).len() ==> stage_rank(
                #[trigger] linux_stages(phantun, accounting)[i],
            ) < stage_rank(#[trigger] linux_stages(phantun, accounting)[j]),
{
}

/// Where usage is accounted for, the counters are read before the proxy is touched.
pub proof fn lemma_counters_are_read_before_a_restart(phantun: DesiredArtifact, i: int)
    requires
        0 <= i < linux_stages(phantun, true).len(),
        linux_stages(phantun, true)[i] == Stage::Xray,
    ensures
        i > 0,
        linux_stages(phantun, true)[i - 1] == Stage::SampleUsage,
{
}

/// What is done to a machine whose state is only written down, in order.
pub open spec fn state_dir_stages() -> Seq<Stage> {
    seq![
        Stage::Phantun,
        Stage::Wireguard,
        Stage::Xray,
        Stage::PortHop,
        Stage::Conntrack,
        Stage::Grants,
    ]
}

/// What is done to a machine whose state is only written down, in order.
pub fn converge_to_state_dir() -> (r: Vec<Stage>)
    ensures
        r@ == state_dir_stages(),
{
    let mut out: Vec<Stage> = Vec::new();
    out.push(Stage::Phantun);
    out.push(Stage::Wireguard);
    out.push(Stage::Xray);
    out.push(Stage::PortHop);
    out.push(Stage::Conntrack);
    out.push(Stage::Grants);
    assert(out@ =~= state_dir_stages());
    out
}

/// What is done with the tunnel.
#[derive(Debug, PartialEq, Eq)]
pub enum WireguardAction {
    /// Its configuration is written and applied.
    Apply { files: Vec<FileStep> },
    /// Its interface is removed with a script, then its configuration.
    Remove { script: String, files: Vec<FileStep> },
    Leave,
}

/// The script that removes the tunnel's interface; one that is not there is none to remove.
pub open spec fn wireguard_removal() -> Seq<char> {
    "ip link del wg0 2>/dev/null || true"@
}

/// What is done with the tunnel.
pub fn converge_linux_wireguard(desired: &DesiredArtifact) -> (r: WireguardAction)
    ensures
        match r {
            WireguardAction::Apply { files } => desired is Present && file_views(files@)
                == artifact_steps("wireguard.conf"@, "wireguard.disabled"@, *desired),
            WireguardAction::Remove { script, files } => desired is Disabled && script@
                == "ip link del wg0 2>/dev/null || true"@ && file_views(files@) == artifact_steps(
                "wireguard.conf"@,
                "wireguard.disabled"@,
                *desired,
            ),
            WireguardAction::Leave => desired is Unmanaged,
        },
        r matches WireguardAction::Remove { script, .. } ==> script@ == wireguard_removal(),
{
    match desired {
        DesiredArtifact::Present { .. } => WireguardAction::Apply {
            files: converge_artifact("wireguard.conf", "wireguard.disabled", desired),
        },
        DesiredArtifact::Disabled { .. } => WireguardAction::Remove {
            script: "ip link del wg0 2>/dev/null || true".to_owned(),
            files: converge_artifact("wireguard.conf", "wireguard.disabled", desired),
        },
        DesiredArtifact::Unmanaged { .. } => WireguardAction::Leave,
    }
}

/// The script that puts a configuration into the tunnel's interface, which it makes
/// where there is none.
pub open spec fn wireguard_setup(conf: Seq<char>, existed: bool) -> Seq<char> {
    "set -eu\nCONF="@ + shell::quoted(conf)
        + "\nwg-quick strip \"$CONF\" > /tmp/brocade-agent-wg0.stripped\n"@ + (if existed {
        "wg syncconf wg0 /tmp/brocade-agent-wg0.stripped"@
    } else {
        "ip link add wg0 type wireguard\nwg setconf wg0 /tmp/brocade-agent-wg0.stripped"@
    })
}

/// The script that gives the interface its size, its address and its routes, and brings
/// it up.
pub open spec fn wireguard_finish(conf: Seq<char>) -> Seq<char> {
    "set -eu\nCONF="@ + shell::quoted(conf)
        + "\nADDR=$(awk -F'= *' '/^Address/{print $2; exit}' \"$CONF\" | tr -d ' ')\nMTU=$(awk -F'= *' '/^MTU/{print $2; exit}' \"$CONF\" | tr -d ' ')\nif [ -n \"$MTU\" ]; then ip link set wg0 mtu \"$MTU\"; fi\nif [ -n \"$ADDR\" ] && ! ip addr show dev wg0 | grep -q \"${ADDR%/*}\"; then\nip addr add \"$ADDR\" dev wg0 2>/dev/null || true\nfi\nip link set wg0 up\nwg show wg0 allowed-ips | awk '{print $2}' | while read -r net; do\n[ -n \"$net\" ] && ip route replace \"$net\" dev wg0 || true\ndone"@
}

/// The scripts that apply a configuration to the tunnel: the first, and the last.
pub fn apply_wireguard(path: &str, existed: bool) -> (r: (String, String))
    ensures
        r.0@ == wireguard_setup(path@, existed),
        r.1@ == wireguard_finish(path@),
{
    let conf = shell::shell_quote(path);
    let mut setup = "set -eu\nCONF=".to_owned();
    setup.append(conf.as_str());
    setup.append("\nwg-quick strip \"$CONF\" > /tmp/brocade-agent-wg0.stripped\n");
    if existed {
        setup.append("wg syncconf wg0 /tmp/brocade-agent-wg0.stripped");
    } else {
        setup.append(
            "ip link add wg0 type wireguard\nwg setconf wg0 /tmp/brocade-agent-wg0.stripped",
        );
    }
    let mut finish = "set -eu\nCONF=".to_owned();
    finish.append(conf.as_str());
    finish.append(
        "\nADDR=$(awk -F'= *' '/^Address/{print $2; exit}' \"$CONF\" | tr -d ' ')\nMTU=$(awk -F'= *' '/^MTU/{print $2; exit}' \"$CONF\" | tr -d ' ')\nif [ -n \"$MTU\" ]; then ip link set wg0 mtu \"$MTU\"; fi\nif [ -n \"$ADDR\" ] && ! ip addr show dev wg0 | grep -q \"${ADDR%/*}\"; then\nip addr add \"$ADDR\" dev wg0 2>/dev/null || true\nfi\nip link set wg0 up\nwg show wg0 allowed-ips | awk '{print $2}' | while read -r net; do\n[ -n \"$net\" ] && ip route replace \"$net\" dev wg0 || true\ndone",
    );
    (setup, finish)
}

/// The port of the proxy's own interface.
pub open spec fn port_or_default(value: Result<Json, Seq<char>>) -> u16 {
    match value {
        Ok(config) => match xray::api_port_of(config) {
            Some(port) => port,
            None => DEFAULT_API_PORT,
        },
        Err(_) => DEFAULT_API_PORT,
    }
}

/// The port of the proxy's own interface.
pub fn api_port_or_default(content: &str) -> (r: u16)
    ensures
        r == port_or_default(json::json_of(content@)),
{
    match xray_api_port(content) {
        Some(port) => port,
        None => DEFAULT_API_PORT,
    }
}

/// Whether a configuration needs splice switched off, or why that cannot be told.
pub open spec fn splice_of(value: Result<Json, Seq<char>>) -> Result<bool, Seq<char>> {
    match value {
        Ok(config) => Ok(xray::needs_splice_disabled(config)),
        Err(error) => Err("解析待启动的 xray 配置失败："@ + error),
    }
}

/// What was found of the proxy.
#[derive(Debug, Clone, Copy, PartialEq, Eq, Structural)]
pub struct XrayFindings {
    pub running: bool,
    /// Whether its log goes through the bounded sink.
    pub bounded_log: bool,
}

/// What is done with the proxy once its configuration is written.
#[derive(Debug, PartialEq, Eq)]
pub enum XrayAction {
    /// It is changed as it runs where that can be done; else it is started again.
    SwapOrRestart,
    Restart,
    /// It is stopped, and its files are removed.
    Stop,
    Leave,
}

/// Whether the proxy may be changed as it runs: what a process is started with cannot be
/// changed in it, so it must run, into a bounded log, with splice as it should be.
pub open spec fn may_swap(
    previous: Option<bool>,
    splice: bool,
    force: bool,
    found: XrayFindings,
) -> bool {
    !force && found.running && found.bounded_log && previous == Some(splice)
}

/// What comes of the proxy, from the configuration that was written last and the one
/// that is asked for, each by whether it needs splice switched off. A configuration
/// that cannot be read is refused before anything is written.
pub open spec fn xray_action(
    previous: Option<Result<bool, Seq<char>>>,
    desired: Result<bool, Seq<char>>,
    force: bool,
    found: XrayFindings,
) -> Result<bool, Seq<char>> {
    match desired {
        Err(e) => Err(e),
        Ok(splice) => match previous {
            Some(Err(e)) => Err(e),
            Some(Ok(before)) => Ok(may_swap(Some(before), splice, force, found)),
            None => Ok(may_swap(None, splice, force, found)),
        },
    }
}

/// What is done with the proxy.
pub fn converge_linux_xray(
    previous: Option<&str>,
    desired: &DesiredArtifact,
    force_restart: bool,
    found: XrayFindings,
) -> (r: Result<XrayAction, String>)
    ensures
        match desired {
            DesiredArtifact::Present { content, .. } => {
                let action = xray_action(
                    match previous {
                        Some(p) => Some(splice_of(json::json_of(p@))),
                        None => None,
                    },
                    splice_of(json::json_of(content@)),
                    force_restart,
                    found,
                );
                match r {
                    Ok(XrayAction::SwapOrRestart) => action == Ok::<bool, Seq<char>>(true),
                    Ok(XrayAction::Restart) => action == Ok::<bool, Seq<char>>(false),
                    Ok(_) => false,
                    Err(e) => action == Err::<bool, Seq<char>>(e@),
                }
            },
            DesiredArtifact::Disabled { .. } => r matches Ok(XrayAction::Stop),
            DesiredArtifact::Unmanaged { .. } => r matches Ok(XrayAction::Leave),
        },
{
    match desired {
        DesiredArtifact::Present { content, .. } => {
            let splice = match xray_needs_splice_disabled(content.as_str()) {
                Ok(splice) => splice,
                Err(e) => {
                    return Err(e);
                },
            };
            let same = match previous {
                Some(p) => match xray_needs_splice_disabled(p) {
                    Ok(before) => before == splice,
                    Err(e) => {
                        return Err(e);
                    },
                },
                None => false,
            };
            if !force_restart && found.running && same && found.bounded_log {
                Ok(XrayAction::SwapOrRestart)
            } else {
                Ok(XrayAction::Restart)
            }
        },
        DesiredArtifact::Disabled { .. } => Ok(XrayAction::Stop),
        DesiredArtifact::Unmanaged { .. } => Ok(XrayAction::Leave),
    }
}

/// A proxy whose splice has to change is always started again.
pub proof fn lemma_splice_changes_by_restart(
    previous: Option<Result<bool, Seq<char>>>,
    desired: Result<bool, Seq<char>>,
    force: bool,
    found: XrayFindings,
)
    requires
        previous != Some(desired),
    ensures
        xray_action(previous, desired, force, found) != Ok::<bool, Seq<char>>(true),
{
}

/// The files that go when the proxy is taken down, in order; the mark comes last.
pub fn stopped_xray_files(reason: &str) -> (r: Vec<FileStep>)
    ensures
        file_views(r@) == seq![
            (FileView::Remove { name: "xray.json"@ }),
            (FileView::Remove { name: "xray.bounded-log-v3"@ }),
            (FileView::Remove { name: "xray.bounded-log-v2"@ }),
            (FileView::Remove { name: "xray.bounded-log-v1"@ }),
            (FileView::Mark { name: "xray.disabled"@, reason: reason@ }),
        ],
{
    let mut out: Vec<FileStep> = Vec::new();
    out.push(FileStep::Remove { name: "xray.json".to_owned() });
    out.push(FileStep::Remove { name: "xray.bounded-log-v3".to_owned() });
    out.push(FileStep::Remove { name: "xray.bounded-log-v2".to_owned() });
    out.push(FileStep::Remove { name: "xray.bounded-log-v1".to_owned() });
    out.push(FileStep::Mark { name: "xray.disabled".to_owned(), reason: reason.to_owned() });
    assert(file_views(out@) =~= seq![
        FileView::Remove { name: "xray.json"@ },
        FileView::Remove { name: "xray.bounded-log-v3"@ },
        FileView::Remove { name: "xray.bounded-log-v2"@ },
        FileView::Remove { name: "xray.bounded-log-v1"@ },
        FileView::Mark { name: "xray.disabled"@, reason: reason@ },
    ]);
    out
}

/// The command line that runs the proxy into a sink.
pub open spec fn xray_pipeline(conf: Seq<char>, disable_splice: bool, sink: Seq<char>) -> Seq<char> {
    (if disable_splice {
        "env 'xray.buf.splice=disable' xray run -config "@
    } else {
        "xray run -config "@
    }) + shell::quoted(conf) + " 2>&1 | "@ + sink
}

/// The script that starts the proxy and waits until its interface listens. It shows the
/// log and fails where the proxy ends first, or never listens.
pub open spec fn launch_script(pipeline: Seq<char>, log: Seq<char>, api_port: u16) -> Seq<char> {
    let port = numbers::decimal(api_port as int);
    "set -eu\nnohup sh -c "@ + shell::quoted(pipeline)
        + " >/dev/null 2>&1 &\nlauncher=$!\nport_up() {\nif command -v ss >/dev/null 2>&1; then ss -ltn 2>/dev/null | grep -q ':"@
        + port + " ';\nelse netstat -ltn 2>/dev/null | grep -q ':"@ + port
        + " '; fi\n}\nfor _ in $(seq 1 400); do\nport_up && exit 0\nkill -0 \"$launcher\" 2>/dev/null || break\nsleep 0.05\ndone\ncat "@
        + shell::quoted(log) + " 2>/dev/null || true\nexit 1"@
}

/// The script that starts the proxy with a configuration, its log going to a sink.
pub fn apply_xray(content: &str, path: &str, log_path: &str, sink: &str, api_port: u16) -> (r: Result<
    String,
    String,
>)
    ensures
        match r {
            Ok(script) => splice_of(json::json_of(content@)) matches Ok(splice) && script@
                == launch_script(xray_pipeline(path@, splice, sink@), log_path@, api_port),
            Err(e) => splice_of(json::json_of(content@)) == Err::<bool, Seq<char>>(e@),
        },
{
    let disable_splice = match xray_needs_splice_disabled(content) {
        Ok(splice) => splice,
        Err(e) => {
            return Err(e);
        },
    };
    let mut pipeline = if disable_splice {
        "env 'xray.buf.splice=disable' xray run -config ".to_owned()
    } else {
        "xray run -config ".to_owned()
    };
    pipeline.append(shell::shell_quote(path).as_str());
    pipeline.append(" 2>&1 | ");
    pipeline.append(sink);
    let port = numbers::decimal_string(api_port as u64);
    let mut out = "set -eu\nnohup sh -c ".to_owned();
    out.append(shell::shell_quote(pipeline.as_str()).as_str());
    out.append(
        " >/dev/null 2>&1 &\nlauncher=$!\nport_up() {\nif command -v ss >/dev/null 2>&1; then ss -ltn 2>/dev/null | grep -q ':",
    );
    out.append(port.as_str());
    out.append(" ';\nelse netstat -ltn 2>/dev/null | grep -q ':");
    out.append(port.as_str());
    out.append(
        " '; fi\n}\nfor _ in $(seq 1 400); do\nport_up && exit 0\nkill -0 \"$launcher\" 2>/dev/null || break\nsleep 0.05\ndone\ncat ",
    );
    out.append(shell::shell_quote(log_path).as_str());
    out.append(" 2>/dev/null || true\nexit 1");
    Ok(out)
}

/// Where the proxy's configuration is taken from when its accounts are changed: from
/// what is asked for, or from what it runs with where that is left alone.
pub fn grants_source(desired_xray: &DesiredArtifact, local: Result<&str, &str>) -> (r: Result<
    String,
    String,
>)
    ensures
        match desired_xray {
            DesiredArtifact::Present { content, .. } => r matches Ok(c) && c@ == content@,
            DesiredArtifact::Unmanaged { .. } => match local {
                Ok(content) => r matches Ok(c) && c@ == content@,
                Err(error) => r matches Err(e) && e@ == "这一单不带 xray，本地也读不到 xray.json："@ + error@,
            },
            DesiredArtifact::Disabled { .. } => r matches Err(e) && e@
                == "cannot sync grants while xray is disabled"@,
        },
{
    match desired_xray {
        DesiredArtifact::Present { content, .. } => Ok(content.as_str().to_owned()),
        DesiredArtifact::Unmanaged { .. } => match local {
            Ok(content) => Ok(content.to_owned()),
            Err(error) => {
                let mut out = "这一单不带 xray，本地也读不到 xray.json：".to_owned();
                out.append(error);
                Err(out)
            },
        },
        DesiredArtifact::Disabled { .. } => Err(
            "cannot sync grants while xray is disabled".to_owned(),
        ),
    }
}

/// What was found of the tunnel.
#[derive(Debug)]
pub struct WireguardFindings<'a> {
    pub has_config: bool,
    pub has_mark: bool,
    pub has_interface: bool,
    /// The digest of its configuration.
    pub digest: Result<&'a str, &'a str>,
}

/// The state of the tunnel: what stands in the state directory and what the machine has
/// must agree.
pub open spec fn wireguard_state(
    desired: DesiredArtifact,
    config: bool,
    mark: bool,
    interface: bool,
    digest: Result<Seq<char>, Seq<char>>,
) -> plan::ArtifactView {
    if desired is Unmanaged {
        plan::ArtifactView::Unmanaged
    } else if config && mark {
        plan::ArtifactView::Dirty("wireguard.conf and wireguard.disabled both exist"@)
    } else if config && interface {
        plan::file_state(digest, "wireguard.conf"@)
    } else if config {
        plan::ArtifactView::Dirty("wireguard.conf exists but wg0 is not present"@)
    } else if mark && !interface {
        plan::ArtifactView::Disabled
    } else if mark {
        plan::ArtifactView::Dirty("wg0 is present while wireguard is disabled"@)
    } else if interface {
        plan::ArtifactView::Dirty("wg0 is present without wireguard.conf"@)
    } else {
        plan::ArtifactView::Unknown
    }
}

/// The state of the tunnel.
pub fn observe_linux_wireguard(desired: &DesiredArtifact, found: &WireguardFindings) -> (r:
    AppliedArtifactState)
    ensures
        r@ == wireguard_state(
            *desired,
            found.has_config,
            found.has_mark,
            found.has_interface,
            plan::seen(found.digest),
        ),
{
    match desired {
        DesiredArtifact::Unmanaged { .. } => {
            return AppliedArtifactState::Unmanaged;
        },
        _ => {},
    }
    match (found.has_config, found.has_mark, found.has_interface) {
        (true, true, _) => artifact_dirty("wireguard.conf and wireguard.disabled both exist"),
        (true, false, true) => plan::present_file_state(found.digest, "wireguard.conf"),
        (true, false, false) => artifact_dirty("wireguard.conf exists but wg0 is not present"),
        (false, true, false) => AppliedArtifactState::Disabled,
        (false, true, true) => artifact_dirty("wg0 is present while wireguard is disabled"),
        (false, false, true) => artifact_dirty("wg0 is present without wireguard.conf"),
        (false, false, false) => AppliedArtifactState::Unknown,
    }
}

/// What was found of the proxy.
#[derive(Debug)]
pub struct XrayReading<'a> {
    pub has_config: bool,
    pub has_mark: bool,
    pub running: bool,
    /// Its configuration, and that text's digest.
    pub content: Result<&'a str, &'a str>,
    pub digest: &'a str,
    /// Whether its own interface listens.
    pub api_listening: bool,
    pub bounded_log: bool,
}

/// The state of a proxy that has a configuration and runs.
pub open spec fn running_xray_state(found: XrayReading) -> plan::ArtifactView {
    match found.content {
        Err(error) => plan::ArtifactView::Dirty("failed to read xray.json: "@ + error@),
        Ok(content) => {
            let port = match json::json_of(content@) {
                Ok(config) => xray::api_port_of(config),
                Err(_) => None,
            };
            match port {
                None => plan::ArtifactView::Dirty("xray.json does not contain api inbound port"@),
                Some(p) => if !found.api_listening {
                    plan::ArtifactView::Dirty(
                        "xray api port "@ + numbers::decimal(p as int) + " is not listening"@,
                    )
                } else if !found.bounded_log {
                    plan::ArtifactView::Dirty("xray is still using the legacy unbounded log"@)
                } else {
                    plan::ArtifactView::Present(found.digest@)
                },
            }
        },
    }
}

/// The state of the proxy.
pub open spec fn xray_state(desired: DesiredArtifact, found: XrayReading) -> plan::ArtifactView {
    if desired is Unmanaged {
        plan::ArtifactView::Unmanaged
    } else if found.has_config && found.has_mark {
        plan::ArtifactView::Dirty("xray.json and xray.disabled both exist"@)
    } else if found.has_config && !found.running {
        plan::ArtifactView::Dirty("xray.json exists but xray is not running"@)
    } else if found.has_config {
        running_xray_state(found)
    } else if found.has_mark && !found.running {
        plan::ArtifactView::Disabled
    } else if found.has_mark {
        plan::ArtifactView::Dirty("xray is running while xray is disabled"@)
    } else if found.running {
        plan::ArtifactView::Dirty("xray is running without xray.json"@)
    } else {
        plan::ArtifactView::Unknown
    }
}

fn observe_running_xray(found: &XrayReading) -> (r: AppliedArtifactState)
    ensures
        r@ == running_xray_state(*found),
{
    let content = match found.content {
        Ok(content) => content,
        Err(error) => {
            let mut out = "failed to read xray.json: ".to_owned();
            out.append(error);
            return AppliedArtifactState::Dirty { reason: out };
        },
    };
    let port: u16 = match xray_api_port(content) {
        Some(port) => port,
        None => {
            return artifact_dirty("xray.json does not contain api inbound port");
        },
    };
    if !found.api_listening {
        let mut out = "xray api port ".to_owned();
        out.append(numbers::decimal_string(port as u64).as_str());
        out.append(" is not listening");
        return AppliedArtifactState::Dirty { reason: out };
    }
    if !found.bounded_log {
        return artifact_dirty("xray is still using the legacy unbounded log");
    }
    AppliedArtifactState::Present { sha256: found.digest.to_owned() }
}

/// The state of the proxy.
pub fn observe_linux_xray(desired: &DesiredArtifact, found: &XrayReading) -> (r:
    AppliedArtifactState)
    ensures
        r@ == xray_state(*desired, *found),
{
    match desired {
        DesiredArtifact::Unmanaged { .. } => {
            return AppliedArtifactState::Unmanaged;
        },
        _ => {},
    }
    match (found.has_config, found.has_mark, found.running) {
        (true, true, _) => artifact_dirty("xray.json and xray.disabled both exist"),
        (true, false, false) => artifact_dirty("xray.json exists but xray is not running"),
        (true, false, true) => observe_running_xray(found),
        (false, true, false) => AppliedArtifactState::Disabled,
        (false, true, true) => artifact_dirty("xray is running while xray is disabled"),
        (false, false, true) => artifact_dirty("xray is running without xray.json"),
        (false, false, false) => AppliedArtifactState::Unknown,
    }
}

/// The state of the port ranges, from whether the machine's rules are those asked for.
pub fn observe_port_hop(desired: &DesiredArtifact, matches: bool) -> (r: AppliedArtifactState)
    ensures
        r@ == (if !matches {
            plan::ArtifactView::Dirty("机器上的端口跳转规则跟产物对不上"@)
        } else {
            match desired {
                DesiredArtifact::Present { sha256, .. } => plan::ArtifactView::Present(sha256@),
                DesiredArtifact::Disabled { .. } => plan::ArtifactView::Disabled,
                DesiredArtifact::Unmanaged { .. } => plan::ArtifactView::Unmanaged,
            }
        }),
{
    if !matches {
        return artifact_dirty("机器上的端口跳转规则跟产物对不上");
    }
    match desired {
        DesiredArtifact::Present { sha256, .. } => AppliedArtifactState::Present {
            sha256: sha256.as_str().to_owned(),
        },
        DesiredArtifact::Disabled { .. } => AppliedArtifactState::Disabled,
        DesiredArtifact::Unmanaged { .. } => AppliedArtifactState::Unmanaged,
    }
}

/// What has to be known to tell the state of the accounts.
#[derive(Debug, PartialEq, Eq)]
pub enum GrantsStep {
    /// They are read from the proxy's interface.
    Read { api_port: u16 },
    /// Their state is known without that.
    Known { state: AppliedGrantsState },
}

/// The port of the proxy's interface: that of the configuration it runs with, or else
/// of the one that is asked for.
pub open spec fn grants_port(
    local: Result<Json, Seq<char>>,
    desired_xray: DesiredArtifact,
) -> Option<u16> {
    let own = match local {
        Ok(config) => xray::api_port_of(config),
        Err(_) => None,
    };
    match own {
        Some(port) => Some(port),
        None => match desired_xray {
            DesiredArtifact::Present { content, .. } => match json::json_of(content@) {
                Ok(config) => xray::api_port_of(config),
                Err(_) => None,
            },
            _ => None,
        },
    }
}

/// What has to be known to tell the state of the accounts. Where the proxy was left
/// alone its accounts are read all the same: that nothing was asked of it does not mean
/// that it does not run.
pub fn observe_linux_grants(
    desired_xray: &DesiredArtifact,
    desired: &DesiredGrants,
    observed_xray: &AppliedArtifactState,
    local: Result<&str, &str>,
) -> (r: GrantsStep)
    ensures
        match desired {
            DesiredGrants::Disabled { .. } => r matches GrantsStep::Known { state } && state@
                == plan::GrantsView::Disabled,
            DesiredGrants::Unmanaged { .. } => r matches GrantsStep::Known { state } && state@
                == plan::GrantsView::Unmanaged,
            DesiredGrants::Present { .. } => match observed_xray@ {
                plan::ArtifactView::Disabled => r matches GrantsStep::Known { state } && state@
                    == plan::GrantsView::Disabled,
                plan::ArtifactView::Unknown => r matches GrantsStep::Known { state } && state@
                    == plan::GrantsView::Unknown,
                plan::ArtifactView::Dirty(reason) => r matches GrantsStep::Known { state } && state@
                    == plan::GrantsView::Dirty(
                    "cannot observe grants because xray is dirty: "@ + reason,
                ),
                _ => match local {
                    Err(error) => r matches GrantsStep::Known { state } && state@
                        == plan::GrantsView::Dirty(
                        "failed to read xray.json for grants: "@ + error@,
                    ),
                    Ok(content) => match grants_port(json::json_of(content@), *desired_xray) {
                        Some(port) => r == (GrantsStep::Read { api_port: port }),
                        None => r matches GrantsStep::Known { state } && state@
                            == plan::GrantsView::Dirty(
                            "cannot observe grants without xray api port"@,
                        ),
                    },
                },
            },
        },
{
    match desired {
        DesiredGrants::Disabled { .. } => {
            return GrantsStep::Known { state: AppliedGrantsState::Disabled };
        },
        DesiredGrants::Unmanaged { .. } => {
            return GrantsStep::Known { state: AppliedGrantsState::Unmanaged };
        },
        DesiredGrants::Present { .. } => {},
    }
    match observed_xray {
        AppliedArtifactState::Disabled => {
            return GrantsStep::Known { state: AppliedGrantsState::Disabled };
        },
        AppliedArtifactState::Unknown => {
            return GrantsStep::Known { state: AppliedGrantsState::Unknown };
        },
        AppliedArtifactState::Dirty { reason } => {
            let mut out = "cannot observe grants because xray is dirty: ".to_owned();
            out.append(reason.as_str());
            return GrantsStep::Known { state: AppliedGrantsState::Dirty { reason: out } };
        },
        _ => {},
    }
    let content = match local {
        Ok(content) => content,
        Err(error) => {
            let mut out = "failed to read xray.json for grants: ".to_owned();
            out.append(error);
            return GrantsStep::Known { state: AppliedGrantsState::Dirty { reason: out } };
        },
    };
    let port = match xray_api_port(content) {
        Some(port) => Some(port),
        None => match desired_xray {
            DesiredArtifact::Present { content, .. } => xray_api_port(content.as_str()),
            _ => None,
        },
    };
    match port {
        Some(api_port) => GrantsStep::Read { api_port },
        None => GrantsStep::Known {
            state: AppliedGrantsState::Dirty {
                reason: "cannot observe grants without xray api port".to_owned(),
            },
        },
    }
}

/// The state of the accounts once they were read.
pub fn grants_state(read: Result<Vec<ObservedInbound>, String>) -> (r: AppliedGrantsState)
    ensures
        match read {
            Ok(inbounds) => r@ == plan::GrantsView::Present(
                grants::ordered_inbounds(plan::inbound_views(inbounds@)),
            ),
            Err(error) => r@ == plan::GrantsView::Dirty(error@),
        },
{
    match read {
        Ok(inbounds) => AppliedGrantsState::Present {
            inbounds: grants::read_observed_grants(inbounds),
        },
        Err(reason) => AppliedGrantsState::Dirty { reason },
    }
}

/// A tunnel that was put in force is found as it was asked for, and one that was taken
/// down is found so: where the interface is there exactly if it should be, whatever the
/// state directory held before.
pub proof fn lemma_converged_tunnel_is_found_as_asked(
    files: Map<Seq<char>, Seq<char>>,
    desired: DesiredArtifact,
    digest: Seq<char>,
)
    requires
        !(desired is Unmanaged),
    ensures
        ({
            let after = after_steps(
                files,
                artifact_steps("wireguard.conf"@, "wireguard.disabled"@, desired),
            );
            wireguard_state(
                desired,
                after.dom().contains("wireguard.conf"@),
                after.dom().contains("wireguard.disabled"@),
                desired is Present,
                Ok(digest),
            ) == if desired is Present {
                plan::ArtifactView::Present(digest)
            } else {
                plan::ArtifactView::Disabled
            }
        }),
{
    reveal_strlit("wireguard.conf");
    reveal_strlit("wireguard.disabled");
    assert("wireguard.conf"@.len() != "wireguard.disabled"@.len());
    lemma_artifact_and_mark_exclude_each_other(
        files,
        "wireguard.conf"@,
        "wireguard.disabled"@,
        desired,
    );
}

/// The tunnel is told as present exactly where its configuration stands without its mark and
/// its interface is there, and then by the digest of the configuration; as taken down
/// exactly where the mark stands alone and no interface is left; as unknown exactly where
/// there is nothing at all. What contradicts itself is told as such.
pub proof fn lemma_tunnel_state_is_what_was_found(
    desired: DesiredArtifact,
    config: bool,
    mark: bool,
    interface: bool,
    digest: Result<Seq<char>, Seq<char>>,
)
    ensures
        ({
            let state = wireguard_state(desired, config, mark, interface, digest);
            &&& state is Unmanaged <==> desired is Unmanaged
            &&& !(desired is Unmanaged) ==> {
                &&& state is Present <==> config && !mark && interface && digest is Ok
                &&& state is Present ==> digest == Ok::<Seq<char>, Seq<char>>(state->Present_0)
                &&& state is Disabled <==> !config && mark && !interface
                &&& state is Unknown <==> !config && !mark && !interface
                &&& state is Dirty <==> (config && mark) || config != interface || (config
                    && interface && !mark && digest is Err)
            }
        }),
{
}

/// The proxy is told as present exactly where its configuration stands without its mark and
/// names a port for its own interface, and it runs, listens there and writes bounded logs; as
/// taken down exactly where the mark stands alone and nothing runs; as unknown exactly where
/// there is nothing at all.
pub proof fn lemma_proxy_state_is_what_was_found(desired: DesiredArtifact, found: XrayReading)
    ensures
        ({
            let state = xray_state(desired, found);
            let port = match found.content {
                Ok(content) => match json::json_of(content@) {
                    Ok(config) => xray::api_port_of(config),
                    Err(_) => None,
                },
                Err(_) => None,
            };
            &&& state is Unmanaged <==> desired is Unmanaged
            &&& !(desired is Unmanaged) ==> {
                &&& state is Present <==> found.has_config && !found.has_mark && found.running
                    && port is Some && found.api_listening && found.bounded_log
                &&& state is Present ==> state->Present_0 == found.digest@
                &&& state is Disabled <==> !found.has_config && found.has_mark && !found.running
                &&& state is Unknown <==> !found.has_config && !found.has_mark && !found.running
            }
        }),
{
}

/// The proxy is changed as it runs exactly where nobody forces a restart, it runs into a
/// bounded log, and both its last configuration and the new one can be read and agree on
/// splice. It is refused exactly where one of them cannot be read.
pub proof fn lemma_proxy_is_swapped_only_in_place(
    previous: Option<Result<bool, Seq<char>>>,
    desired: Result<bool, Seq<char>>,
    force: bool,
    found: XrayFindings,
)
    ensures
        ({
            let action = xray_action(previous, desired, force, found);
            &&& action is Err <==> desired is Err || (previous matches Some(p) && p is Err)
            &&& action == Ok::<bool, Seq<char>>(true) <==> !force && found.running
                && found.bounded_log && desired is Ok && previous == Some(desired)
        }),
{
}

/// Whether one part of the work never comes behind another.
pub open spec fn precedes(stages: Seq<Stage>, first: Stage, second: Stage) -> bool {
    forall|i: int, j: int|
        0 <= i < stages.len() && 0 <= j < stages.len() && #[trigger] stages[i] == first
            && #[trigger] stages[j] == second ==> i < j
}

/// Programs are fetched before they are started, the disguise layer stands before the tunnel
/// that points at it, counters are read before the proxy may forget them, and what is taken
/// from the proxy's configuration or put into the proxy comes behind the proxy.
pub proof fn lemma_work_is_done_in_order(phantun: DesiredArtifact, accounting: bool)
    ensures
        ({
            let stages = linux_stages(phantun, accounting);
            &&& precedes(stages, Stage::PreparePhantun, Stage::Phantun)
            &&& precedes(stages, Stage::Phantun, Stage::Wireguard)
            &&& precedes(stages, Stage::SampleUsage, Stage::Xray)
            &&& precedes(stages, Stage::Wireguard, Stage::Xray)
            &&& precedes(stages, Stage::Xray, Stage::Conntrack)
            &&& precedes(stages, Stage::Xray, Stage::PortHop)
            &&& precedes(stages, Stage::Xray, Stage::Grants)
            &&& precedes(stages, Stage::Conntrack, Stage::Grants)
        }),
{
    lemma_lower_rank_precedes(phantun, accounting, Stage::PreparePhantun, Stage::Phantun);
    lemma_lower_rank_precedes(phantun, accounting, Stage::Phantun, Stage::Wireguard);
    lemma_lower_rank_precedes(phantun, accounting, Stage::SampleUsage, Stage::Xray);
    lemma_lower_rank_precedes(phantun, accounting, Stage::Wireguard, Stage::Xray);
    lemma_lower_rank_precedes(phantun, accounting, Stage::Xray, Stage::Conntrack);
    lemma_lower_rank_precedes(phantun, accounting, Stage::Xray, Stage::PortHop);
    lemma_lower_rank_precedes(phantun, accounting, Stage::Xray, Stage::Grants);
    lemma_lower_rank_precedes(phantun, accounting, Stage::Conntrack, Stage::Grants);
}

proof fn lemma_lower_rank_precedes(
    phantun: DesiredArtifact,
    accounting: bool,
    first: Stage,
    second: Stage,
)
    requires
        stage_rank(first) < stage_rank(second),
    ensures
        precedes(linux_stages(phantun, accounting), first, second),
{
    lemma_stages_keep_their_order(phantun, accounting);
    let stages = linux_stages(phantun, accounting);
    assert forall|i: int, j: int|
        0 <= i < stages.len() && 0 <= j < stages.len() && #[trigger] stages[i] == first
            && #[trigger] stages[j] == second implies i < j by {
        if j < i {
            assert(stage_rank(stages[j]) < stage_rank(stages[i]));
        }
    }
}

/// No part of the work is left out: the counters are read exactly where usage is accounted
/// for, programs are fetched exactly where the disguise layer is asked for, and everything
/// else is always done.
pub proof fn lemma_no_work_is_left_out(phantun: DesiredArtifact, accounting: bool)
    ensures
        ({
            let stages = linux_stages(phantun, accounting);
            &&& stages.contains(Stage::PreparePhantun) <==> phantun is Present
            &&& stages.contains(Stage::SampleUsage) <==> accounting
            &&& stages.contains(Stage::Phantun) && stages.contains(Stage::Wireguard)
            &&& stages.contains(Stage::Xray) && stages.contains(Stage::Conntrack)
            &&& stages.contains(Stage::PortHop) && stages.contains(Stage::Grants)
        }),
{
    let stages = linux_stages(phantun, accounting);
    let a: int = if phantun is Present {
        1
    } else {
        0
    };
    let b: int = if accounting {
        a + 3
    } else {
        a + 2
    };
    assert(a == 1 ==> stages[0] == Stage::PreparePhantun);
    assert(stages[a] == Stage::Phantun && stages[a + 1] == Stage::Wireguard);
    assert(accounting ==> stages[a + 2] == Stage::SampleUsage);
    assert(stages[b] == Stage::Xray && stages[b + 1] == Stage::Conntrack);
    assert(stages[b + 2] == Stage::PortHop && stages[b + 3] == Stage::Grants);
    assert(stages.len() == b + 4);
}

/// The accounts are read at the port of the configuration that runs where it names one, and
/// only else at the one that is asked for.
pub proof fn lemma_accounts_are_read_where_the_proxy_listens(
    local: Json,
    error: Seq<char>,
    desired: DesiredArtifact,
)
    ensures
        xray::api_port_of(local) is Some ==> grants_port(Ok(local), desired) == xray::api_port_of(
            local,
        ),
        xray::api_port_of(local) is None ==> grants_port(Ok(local), desired) == grants_port(
            Err(error),
            desired,
        ),
        match desired {
            DesiredArtifact::Present { content, .. } => match json::json_of(content@) {
                Ok(config) => grants_port(Err(error), desired) == xray::api_port_of(config),
                Err(_) => grants_port(Err(error), desired) is None,
            },
            _ => grants_port(Err(error), desired) is None,
        },
{
}

} // verus!
