//! Whether what should run on the machine does.
use vstd::prelude::*;
use vstd::string::*;

use crate::phantun::RuntimeProbe;
use crate::xray::XrayListenProtocol;
use crate::{launch, numbers, phantun, text};

verus! {

/// Whether a workload runs as planned.
#[derive(Debug, PartialEq, Eq)]
pub enum WorkloadRuntime {
    Healthy,
    Broken(String),
    Unknown(String),
}

/// Whether a workload runs as planned, by its characters.
pub enum RuntimeView {
    Healthy,
    Broken(Seq<char>),
    Unknown(Seq<char>),
}

impl View for WorkloadRuntime {
    type V = RuntimeView;

    open spec fn view(&self) -> RuntimeView {
        match *self {
            WorkloadRuntime::Healthy => RuntimeView::Healthy,
            WorkloadRuntime::Broken(s) => RuntimeView::Broken(s@),
            WorkloadRuntime::Unknown(s) => RuntimeView::Unknown(s@),
        }
    }
}

/// What is said of the checks that ended as `result`.
pub open spec fn said_of(probes: Seq<phantun::ProbeView>, result: Option<bool>) -> Seq<Seq<char>>
    decreases probes.len(),
{
    if probes.len() == 0 {
        seq![]
    } else {
        let front = said_of(probes.drop_last(), result);
        let last = probes.last();
        if last.result == result {
            match result {
                None => front.push(last.unknown),
                Some(_) => front.push(last.failed),
            }
        } else {
            front
        }
    }
}

/// What checks say together. What is known to be broken comes before what could not be
/// checked: a failure that was established is acted on.
pub open spec fn classified(
    process_running: bool,
    auxiliary_failure: Option<Seq<char>>,
    probes: Seq<phantun::ProbeView>,
) -> RuntimeView {
    let failures = said_of(probes, Some(false));
    let broken = match auxiliary_failure {
        Some(detail) => failures.push(detail),
        None => failures,
    };
    let unknown = said_of(probes, None);
    if !process_running {
        RuntimeView::Broken("进程没在运行"@)
    } else if broken.len() > 0 {
        RuntimeView::Broken(text::join(broken, "；"@))
    } else if unknown.len() > 0 {
        RuntimeView::Unknown(text::join(unknown, "；"@))
    } else {
        RuntimeView::Healthy
    }
}

/// What checks say together.
pub fn classify_workload_runtime(
    process_running: bool,
    auxiliary_failure: Option<&str>,
    probes: &Vec<RuntimeProbe>,
) -> (r: WorkloadRuntime)
    ensures
        r@ == classified(
            process_running,
            match auxiliary_failure {
                Some(d) => Some(d@),
                None => None,
            },
            phantun::probe_views(probes@),
        ),
{
    if !process_running {
        return WorkloadRuntime::Broken("进程没在运行".to_owned());
    }
    let ghost all = phantun::probe_views(probes@);
    let mut broken: Vec<String> = Vec::new();
    let mut unknown: Vec<String> = Vec::new();
    let mut i: usize = 0;
    assert(text::string_views(broken@) =~= seq![]);
    assert(text::string_views(unknown@) =~= seq![]);
    while i < probes.len()
        invariant
            i <= probes.len(),
            all == phantun::probe_views(probes@),
            text::string_views(broken@) == said_of(all.take(i as int), Some(false)),
            text::string_views(unknown@) == said_of(all.take(i as int), None),
        decreases probes.len() - i,
    {
        proof {
            assert(all.take(i + 1).drop_last() == all.take(i as int));
            assert(all.take(i + 1).last() == probes@[i as int]@);
        }
        let ghost b = broken@;
        let ghost u = unknown@;
        match probes[i].result {
            Some(true) => {},
            Some(false) => {
                broken.push(probes[i].failed.as_str().to_owned());
                assert(text::string_views(broken@) == text::string_views(b).push(
                    probes@[i as int].failed@,
                ));
            },
            None => {
                unknown.push(probes[i].unknown.as_str().to_owned());
                assert(text::string_views(unknown@) == text::string_views(u).push(
                    probes@[i as int].unknown@,
                ));
            },
        }
        i = i + 1;
    }
    assert(all.take(i as int) == all);
    match auxiliary_failure {
        Some(detail) => {
            let ghost b = broken@;
            broken.push(detail.to_owned());
            assert(text::string_views(broken@) == text::string_views(b).push(detail@));
        },
        None => {},
    }
    assert(text::string_views(broken@).len() == broken@.len());
    assert(text::string_views(unknown@).len() == unknown@.len());
    if broken.len() > 0 {
        WorkloadRuntime::Broken(text::join_strings(&broken, "；"))
    } else if unknown.len() > 0 {
        WorkloadRuntime::Unknown(text::join_strings(&unknown, "；"))
    } else {
        WorkloadRuntime::Healthy
    }
}

proof fn lemma_said_of_one(probes: Seq<phantun::ProbeView>, result: Option<bool>, i: int)
    requires
        0 <= i < probes.len(),
        probes[i].result == result,
    ensures
        said_of(probes, result).len() > 0,
    decreases probes.len(),
{
    if i < probes.len() - 1 {
        assert(probes.drop_last()[i] == probes[i]);
        lemma_said_of_one(probes.drop_last(), result, i);
    }
}

/// A failure that was established is never hidden behind a check that could not be
/// made.
pub proof fn lemma_established_failure_wins(
    auxiliary_failure: Option<Seq<char>>,
    probes: Seq<phantun::ProbeView>,
    i: int,
)
    requires
        0 <= i < probes.len(),
        probes[i].result == Some(false),
    ensures
        classified(true, auxiliary_failure, probes) is Broken,
{
    lemma_said_of_one(probes, Some(false), i);
}

/// Whether the disguise layer runs as planned: `probes` are the checks of all its
/// processes, or why its plan could not be read.
pub fn phantun_runtime(probes: Result<&Vec<RuntimeProbe>, &str>, nat_intact: bool) -> (r:
    WorkloadRuntime)
    ensures
        r@ == (match probes {
            Ok(list) => classified(
                true,
                if nat_intact {
                    None
                } else {
                    Some("NAT/转发规则不完整"@)
                },
                phantun::probe_views(list@),
            ),
            Err(e) => RuntimeView::Unknown("读不了计划："@ + e@),
        }),
{
    match probes {
        Ok(list) => {
            if nat_intact {
                classify_workload_runtime(true, None, list)
            } else {
                classify_workload_runtime(true, Some("NAT/转发规则不完整"), list)
            }
        },
        Err(e) => {
            let mut out = "读不了计划：".to_owned();
            out.append(e);
            WorkloadRuntime::Unknown(out)
        },
    }
}

/// The check of an inbound's port.
pub open spec fn port_probe(tag: Seq<char>, listen: Seq<char>, port: u16, result: Option<bool>) ->
    phantun::ProbeView {
    let name = tag + " "@ + listen + ":"@ + numbers::decimal(port as int);
    phantun::ProbeView { failed: name + " 没在监听"@, unknown: name + " 无法检查"@, result }
}

/// The checks of inbounds' ports.
pub open spec fn port_probes(
    ports: Seq<(String, String, u16, XrayListenProtocol)>,
    listening: Seq<Option<bool>>,
) -> Seq<phantun::ProbeView> {
    Seq::new(
        ports.len(),
        |i: int| port_probe(ports[i].0@, ports[i].1@, ports[i].2, listening[i]),
    )
}

/// Whether the proxy runs as planned: its process, and each port that it should listen
/// on.
pub fn xray_runtime(
    running: bool,
    ports: &Vec<(String, String, u16, XrayListenProtocol)>,
    listening: &Vec<Option<bool>>,
) -> (r: WorkloadRuntime)
    requires
        listening@.len() == ports@.len(),
    ensures
        r@ == classified(running, None, port_probes(ports@, listening@)),
{
    if !running {
        return WorkloadRuntime::Broken("进程没在运行".to_owned());
    }
    let ghost all = port_probes(ports@, listening@);
    let mut probes: Vec<RuntimeProbe> = Vec::new();
    let mut i: usize = 0;
    while i < ports.len()
        invariant
            i <= ports.len(),
            listening@.len() == ports@.len(),
            all == port_probes(ports@, listening@),
            phantun::probe_views(probes@) == all.take(i as int),
        decreases ports.len() - i,
    {
        let mut name = ports[i].0.as_str().to_owned();
        name.append(" ");
        name.append(ports[i].1.as_str());
        name.append(":");
        name.append(numbers::decimal_string(ports[i].2 as u64).as_str());
        let mut failed = name.as_str().to_owned();
        failed.append(" 没在监听");
        let mut unknown = name;
        unknown.append(" 无法检查");
        let ghost before = probes@;
        let one = RuntimeProbe { failed, unknown, result: listening[i] };
        probes.push(one);
        proof {
            assert(one@ == all[i as int]);
            assert(phantun::probe_views(probes@) == phantun::probe_views(before).push(one@));
            assert(all.take(i + 1) == all.take(i as int).push(all[i as int]));
        }
        i = i + 1;
    }
    assert(all.take(i as int) == all);
    classify_workload_runtime(true, None, &probes)
}

/// The script that tells whether a port is listened on. Where neither tool is there it
/// says so.
pub open spec fn port_script(port: u16, protocol: XrayListenProtocol) -> Seq<char> {
    let flag = match protocol {
        XrayListenProtocol::Tcp => "t"@,
        XrayListenProtocol::Udp => "u"@,
    };
    let number = numbers::decimal(port as int);
    "if command -v ss >/dev/null 2>&1; then ss -ln"@ + flag + " 2>/dev/null | grep -q ':"@ + number
        + " ' && echo yes || echo no; elif command -v netstat >/dev/null 2>&1; then netstat -ln"@
        + flag + " 2>/dev/null | grep -q ':"@ + number
        + " ' && echo yes || echo no; else echo unknown; fi"@
}

/// The script that tells whether a port is listened on.
pub fn port_listening_script(port: u16, protocol: XrayListenProtocol) -> (r: String)
    ensures
        r@ == port_script(port, protocol),
{
    let flag = match protocol {
        XrayListenProtocol::Tcp => "t",
        XrayListenProtocol::Udp => "u",
    };
    let number = numbers::decimal_string(port as u64);
    let mut out = "if command -v ss >/dev/null 2>&1; then ss -ln".to_owned();
    out.append(flag);
    out.append(" 2>/dev/null | grep -q ':");
    out.append(number.as_str());
    out.append(
        " ' && echo yes || echo no; elif command -v netstat >/dev/null 2>&1; then netstat -ln",
    );
    out.append(flag);
    out.append(" 2>/dev/null | grep -q ':");
    out.append(number.as_str());
    out.append(" ' && echo yes || echo no; else echo unknown; fi");
    out
}

/// What the answer of that script says; a script that failed says nothing.
pub open spec fn answer(output: Option<Seq<char>>) -> Option<bool> {
    match output {
        Some(t) => if text::trim(t) == "yes"@ {
            Some(true)
        } else if text::trim(t) == "no"@ {
            Some(false)
        } else {
            None
        },
        None => None,
    }
}

/// Whether a port is listened on, from the answer of the script.
pub fn xray_port_listening(output: Option<&str>) -> (r: Option<bool>)
    ensures
        r == answer(
            match output {
                Some(t) => Some(t@),
                None => None,
            },
        ),
{
    match output {
        Some(t) => {
            let chars = text::chars_of(t);
            let said = text::trimmed(chars.as_slice());
            if text::same(said, "yes") {
                Some(true)
            } else if text::same(said, "no") {
                Some(false)
            } else {
                None
            }
        },
        None => None,
    }
}

/// Whether a TCP port is certainly listened on.
pub fn tcp_port_listening(output: Option<&str>) -> (r: bool)
    ensures
        r == (answer(
            match output {
                Some(t) => Some(t@),
                None => None,
            },
        ) == Some(true)),
{
    match xray_port_listening(output) {
        Some(v) => v,
        None => false,
    }
}

/// Whether a UDP port is bound, from the answer of the script; unknown where it could
/// not be told.
pub fn udp_bound(output: Option<&str>) -> (r: Option<bool>)
    ensures
        r == answer(
            match output {
                Some(t) => Some(t@),
                None => None,
            },
        ),
{
    xray_port_listening(output)
}

/// A workload is broken exactly where it does not run, something beside it failed, or some
/// check found a fault. It is unknown exactly where nothing of that holds and some check could
/// not be made, and healthy exactly where it runs and every check was made and passed.
pub proof fn lemma_workload_is_judged_by_every_check(
    process_running: bool,
    auxiliary_failure: Option<Seq<char>>,
    probes: Seq<phantun::ProbeView>,
)
    ensures
        ({
            let judged = classified(process_running, auxiliary_failure, probes);
            let fault = exists|i: int|
                0 <= i < probes.len() && (#[trigger] probes[i]).result == Some(false);
            let doubt = exists|i: int| 0 <= i < probes.len() && (#[trigger] probes[i]).result is None;
            &&& judged is Broken <==> !process_running || auxiliary_failure is Some || fault
            &&& judged is Unknown <==> process_running && auxiliary_failure is None && !fault && doubt
            &&& judged is Healthy <==> process_running && auxiliary_failure is None && forall|i: int|
                0 <= i < probes.len() ==> (#[trigger] probes[i]).result == Some(true)
        }),
{
    lemma_said_of(probes, Some(false));
    lemma_said_of(probes, None);
    let judged = classified(process_running, auxiliary_failure, probes);
    if judged is Healthy {
        assert forall|i: int| 0 <= i < probes.len() implies (#[trigger] probes[i]).result == Some(
            true,
        ) by {
            if probes[i].result is None {
                assert(said_of(probes, None).len() > 0);
            }
            if probes[i].result == Some(false) {
                assert(said_of(probes, Some(false)).len() > 0);
            }
        }
    }
}

proof fn lemma_said_of(probes: Seq<phantun::ProbeView>, result: Option<bool>)
    ensures
        said_of(probes, result).len() > 0 <==> exists|i: int|
            0 <= i < probes.len() && (#[trigger] probes[i]).result == result,
    decreases probes.len(),
{
    if probes.len() > 0 {
        let front = probes.drop_last();
        let last = probes.len() - 1;
        lemma_said_of(front, result);
        assert(probes[last] == probes.last());
        assert forall|i: int| 0 <= i < last implies front[i] == probes[i] by {}
        if exists|i: int| 0 <= i < front.len() && (#[trigger] front[i]).result == result {
            let i = choose|i: int| 0 <= i < front.len() && (#[trigger] front[i]).result == result;
            assert(probes[i].result == result);
        }
        if exists|i: int| 0 <= i < probes.len() && (#[trigger] probes[i]).result == result {
            let i = choose|i: int| 0 <= i < probes.len() && (#[trigger] probes[i]).result == result;
            if i < last {
                assert(front[i].result == result);
            }
        }
    }
}

/// What a machine shows of its ports: which tools it has to list them, and the ports that they
/// list, of either protocol.
pub struct Ports {
    pub has_ss: bool,
    pub has_netstat: bool,
    pub tcp: Set<Seq<char>>,
    pub udp: Set<Seq<char>>,
}

/// What a tool says of a port, asked for one protocol's.
pub open spec fn tool_says(command: Seq<char>, tool: Seq<char>, ports: Ports) -> Seq<char> {
    let tcp = launch::between(
        command,
        tool + " -lnt 2>/dev/null | grep -q ':"@,
        " ' && echo yes || echo no"@,
    );
    let udp = launch::between(
        command,
        tool + " -lnu 2>/dev/null | grep -q ':"@,
        " ' && echo yes || echo no"@,
    );
    match (tcp, udp) {
        (Some(port), None) => if ports.tcp.contains(port) {
            "yes"@
        } else {
            "no"@
        },
        (None, Some(port)) => if ports.udp.contains(port) {
            "yes"@
        } else {
            "no"@
        },
        _ => "broken"@,
    }
}

/// What a script says that asks the one tool where it is there, else the other, and else says
/// that it does not know.
pub open spec fn script_says(script: Seq<char>, ports: Ports) -> Seq<char> {
    match launch::between(
        script,
        "if command -v ss >/dev/null 2>&1; then "@,
        "; else echo unknown; fi"@,
    ) {
        None => "broken"@,
        Some(tools) => match text::split_once_sub(
            tools,
            "; elif command -v netstat >/dev/null 2>&1; then "@,
        ) {
            None => "broken"@,
            Some((first, second)) => if ports.has_ss {
                tool_says(first, "ss"@, ports)
            } else if ports.has_netstat {
                tool_says(second, "netstat"@, ports)
            } else {
                "unknown"@
            },
        },
    }
}

proof fn lemma_tool_says(port: u16, protocol: XrayListenProtocol, tool: Seq<char>, ports: Ports)
    ensures
        ({
            let number = numbers::decimal(port as int);
            let flag = match protocol {
                XrayListenProtocol::Tcp => "t"@,
                XrayListenProtocol::Udp => "u"@,
            };
            let listed = match protocol {
                XrayListenProtocol::Tcp => ports.tcp,
                XrayListenProtocol::Udp => ports.udp,
            };
            tool_says(
                tool + " -ln"@ + flag + " 2>/dev/null | grep -q ':"@ + number
                    + " ' && echo yes || echo no"@,
                tool,
                ports,
            ) == (if listed.contains(number) {
                "yes"@
            } else {
                "no"@
            })
        }),
{
    let number = numbers::decimal(port as int);
    let (tcp, udp) = (
        tool + " -lnt 2>/dev/null | grep -q ':"@,
        tool + " -lnu 2>/dev/null | grep -q ':"@,
    );
    let ending = " ' && echo yes || echo no"@;
    reveal_strlit(" -ln");
    reveal_strlit("t");
    reveal_strlit("u");
    reveal_strlit(" 2>/dev/null | grep -q ':");
    reveal_strlit(" -lnt 2>/dev/null | grep -q ':");
    reveal_strlit(" -lnu 2>/dev/null | grep -q ':");
    let at = tool.len() as int + 4;
    assert(tcp[at] == 't' && udp[at] == 'u');
    launch::lemma_between(tcp, number, ending);
    launch::lemma_between(udp, number, ending);
    match protocol {
        XrayListenProtocol::Tcp => {
            let line = tool + " -ln"@ + "t"@ + " 2>/dev/null | grep -q ':"@ + number + ending;
            assert(line =~= tcp + number + ending);
            assert(line[at] == 't');
            launch::lemma_other_opening(line, udp, at);
        },
        XrayListenProtocol::Udp => {
            let line = tool + " -ln"@ + "u"@ + " 2>/dev/null | grep -q ':"@ + number + ending;
            assert(line =~= udp + number + ending);
            assert(line[at] == 'u');
            launch::lemma_other_opening(line, tcp, at);
        },
    }
}

/// Whether a port is listened on is told of the right protocol and the right port, by
/// whichever tool there is; where there is none nothing is told, and that is not taken for an
/// answer.
pub proof fn lemma_port_is_asked_for_as_it_is(
    port: u16,
    protocol: XrayListenProtocol,
    ports: Ports,
)
    ensures
        ({
            let listed = match protocol {
                XrayListenProtocol::Tcp => ports.tcp,
                XrayListenProtocol::Udp => ports.udp,
            };
            answer(Some(script_says(port_script(port, protocol), ports))) == (if ports.has_ss
                || ports.has_netstat {
                Some(listed.contains(numbers::decimal(port as int)))
            } else {
                None
            })
        }),
{
    let number = numbers::decimal(port as int);
    numbers::lemma_decimal_digits(port as int);
    let flag = match protocol {
        XrayListenProtocol::Tcp => "t"@,
        XrayListenProtocol::Udp => "u"@,
    };
    let script = port_script(port, protocol);
    let first = "ss"@ + " -ln"@ + flag + " 2>/dev/null | grep -q ':"@ + number
        + " ' && echo yes || echo no"@;
    let second = "netstat"@ + " -ln"@ + flag + " 2>/dev/null | grep -q ':"@ + number
        + " ' && echo yes || echo no"@;
    let opening = "if command -v ss >/dev/null 2>&1; then "@;
    let between = "; elif command -v netstat >/dev/null 2>&1; then "@;
    let ending = "; else echo unknown; fi"@;
    lemma_script_pieces();
    lemma_regrouped(
        opening,
        "ss"@,
        " -ln"@,
        flag,
        " 2>/dev/null | grep -q ':"@,
        number,
        " ' && echo yes || echo no"@,
        between,
        "netstat"@,
        ending,
    );
    launch::lemma_between(opening, first + between + second, ending);
    lemma_no_semicolon(flag, number);
    assert(between.len() > 0 && between[0] == ';') by {
        reveal_strlit("; elif command -v netstat >/dev/null 2>&1; then ");
    }
    lemma_cut_at_separator(first, between, second);
    lemma_tool_says(port, protocol, "ss"@, ports);
    lemma_tool_says(port, protocol, "netstat"@, ports);
    lemma_answers();
}

proof fn lemma_cut_at_separator(first: Seq<char>, between: Seq<char>, second: Seq<char>)
    requires
        between.len() > 0,
        forall|i: int| 0 <= i < first.len() ==> #[trigger] first[i] != between[0],
    ensures
        text::split_once_sub(first + between + second, between) == Some((first, second)),
{
    let all = first + between + second;
    let k = first.len() as int;
    assert(all.subrange(k, k + between.len()) =~= between);
    assert forall|j: int| 0 <= j < k implies #[trigger] all[j] != between[0] by {
        assert(all[j] == first[j]);
    }
    text::lemma_find_sub_at(all, between, 0, k);
    assert(all.take(k) =~= first);
    assert(all.skip((k + between.len()) as int) =~= second);
}

#[verifier::spinoff_prover]
#[verifier::rlimit(40)]
proof fn lemma_regrouped(
    opening: Seq<char>,
    ss: Seq<char>,
    a: Seq<char>,
    flag: Seq<char>,
    b: Seq<char>,
    number: Seq<char>,
    c: Seq<char>,
    between: Seq<char>,
    netstat: Seq<char>,
    ending: Seq<char>,
)
    ensures
        (opening + ss + a) + flag + b + number + (c + between + netstat + a) + flag + b + number + (c
            + ending) == opening + ((ss + a + flag + b + number + c) + between + (netstat + a + flag
            + b + number + c)) + ending,
{
}

proof fn lemma_answers()
    ensures
        text::trim("yes"@) == "yes"@,
        text::trim("no"@) == "no"@,
        text::trim("unknown"@) == "unknown"@,
        "yes"@ != "no"@,
        "unknown"@ != "yes"@,
        "unknown"@ != "no"@,
{
    reveal_strlit("yes");
    reveal_strlit("no");
    reveal_strlit("unknown");
    text::lemma_trim_of_trimmed("yes"@);
    text::lemma_trim_of_trimmed("no"@);
    text::lemma_trim_of_trimmed("unknown"@);
    assert("yes"@.len() == 3 && "no"@.len() == 2 && "unknown"@.len() == 7);
}

proof fn lemma_script_pieces()
    ensures
        "if command -v ss >/dev/null 2>&1; then ss -ln"@
            == "if command -v ss >/dev/null 2>&1; then "@ + "ss"@ + " -ln"@,
        " ' && echo yes || echo no; elif command -v netstat >/dev/null 2>&1; then netstat -ln"@
            == " ' && echo yes || echo no"@ + "; elif command -v netstat >/dev/null 2>&1; then "@
            + "netstat"@ + " -ln"@,
        " ' && echo yes || echo no; else echo unknown; fi"@ == " ' && echo yes || echo no"@
            + "; else echo unknown; fi"@,
{
    reveal_strlit("if command -v ss >/dev/null 2>&1; then ss -ln");
    reveal_strlit("if command -v ss >/dev/null 2>&1; then ");
    reveal_strlit("ss");
    reveal_strlit(" -ln");
    reveal_strlit("netstat");
    reveal_strlit(" ' && echo yes || echo no");
    reveal_strlit(
        " ' && echo yes || echo no; elif command -v netstat >/dev/null 2>&1; then netstat -ln",
    );
    reveal_strlit("; elif command -v netstat >/dev/null 2>&1; then ");
    reveal_strlit(" ' && echo yes || echo no; else echo unknown; fi");
    reveal_strlit("; else echo unknown; fi");
}

proof fn lemma_no_semicolon(flag: Seq<char>, number: Seq<char>)
    requires
        flag == "t"@ || flag == "u"@,
        forall|i: int| 0 <= i < number.len() ==> '0' <= #[trigger] number[i] <= '9',
    ensures
        ({
            let line = "ss"@ + " -ln"@ + flag + " 2>/dev/null | grep -q ':"@ + number
                + " ' && echo yes || echo no"@;
            forall|i: int| 0 <= i < line.len() ==> #[trigger] line[i] != ';'
        }),
{
    reveal_strlit("ss");
    reveal_strlit("t");
    reveal_strlit("u");
    reveal_strlit(" -ln");
    reveal_strlit(" 2>/dev/null | grep -q ':");
    reveal_strlit(" ' && echo yes || echo no");
    assert(forall|i: int| 0 <= i < flag.len() ==> #[trigger] flag[i] != ';');
}

} // verus!
