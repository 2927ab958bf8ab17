//! Changing a running proxy without starting it again.
use vstd::prelude::*;
use vstd::string::*;

use crate::{numbers, paths, text};

verus! {

/// What differs between the configuration that runs and the one that should. What is
/// added is given as the texts of JSON values, what is removed by its tags.
#[derive(Debug, PartialEq, Eq)]
pub struct HotSwap {
    pub add_outbounds: Vec<String>,
    pub remove_outbounds: Vec<String>,
    pub add_rules: Vec<String>,
    pub remove_rule_tags: Vec<String>,
    pub add_inbounds: Vec<String>,
    pub remove_inbounds: Vec<String>,
}

/// One thing that is done to the running proxy.
#[derive(Debug, Clone, Copy, PartialEq, Eq, Structural)]
pub enum SwapStep {
    StageOutbounds,
    AddOutbounds,
    RemoveInbounds,
    StageRules,
    AppendRules,
    RemoveRules,
    StageInbounds,
    AddInbounds,
    SyncGrants,
    RemoveOutbounds,
}

/// The order in which things are done. The new rules are appended while the old ones
/// still stand ahead of them, so the table is never empty. An inbound that goes does so
/// before its rule, and one that comes does so after, so no traffic arrives that no rule
/// describes. An outbound is there before any rule names it, and goes once none does.
pub open spec fn rank(step: SwapStep) -> int {
    match step {
        SwapStep::StageOutbounds => 0,
        SwapStep::AddOutbounds => 1,
        SwapStep::RemoveInbounds => 2,
        SwapStep::StageRules => 3,
        SwapStep::AppendRules => 4,
        SwapStep::RemoveRules => 5,
        SwapStep::StageInbounds => 6,
        SwapStep::AddInbounds => 7,
        SwapStep::SyncGrants => 8,
        SwapStep::RemoveOutbounds => 9,
    }
}

/// Some steps, where they are needed.
pub open spec fn steps_if(needed: bool, steps: Seq<SwapStep>) -> Seq<SwapStep> {
    if needed {
        steps
    } else {
        seq![]
    }
}

/// What is done for a swap. A rule table that did not change is left alone: appending
/// it again would collide with itself.
pub open spec fn swap_steps(swap: HotSwap) -> Seq<SwapStep> {
    steps_if(
        swap.add_outbounds@.len() > 0,
        seq![SwapStep::StageOutbounds, SwapStep::AddOutbounds],
    ) + steps_if(swap.remove_inbounds@.len() > 0, seq![SwapStep::RemoveInbounds]) + steps_if(
        swap.add_rules@.len() > 0,
        seq![SwapStep::StageRules, SwapStep::AppendRules, SwapStep::RemoveRules],
    ) + steps_if(
        swap.add_inbounds@.len() > 0,
        seq![SwapStep::StageInbounds, SwapStep::AddInbounds, SwapStep::SyncGrants],
    ) + steps_if(swap.remove_outbounds@.len() > 0, seq![SwapStep::RemoveOutbounds])
}

/// What is done for a swap, in the order in which it is done.
pub fn apply_hot_swap(swap: &HotSwap) -> (r: Vec<SwapStep>)
    ensures
        r@ == swap_steps(*swap),
{
    let mut out: Vec<SwapStep> = Vec::new();
    if swap.add_outbounds.len() > 0 {
        out.push(SwapStep::StageOutbounds);
        out.push(SwapStep::AddOutbounds);
    }
    if swap.remove_inbounds.len() > 0 {
        out.push(SwapStep::RemoveInbounds);
    }
    if swap.add_rules.len() > 0 {
        out.push(SwapStep::StageRules);
        out.push(SwapStep::AppendRules);
        out.push(SwapStep::RemoveRules);
    }
    if swap.add_inbounds.len() > 0 {
        out.push(SwapStep::StageInbounds);
        out.push(SwapStep::AddInbounds);
        out.push(SwapStep::SyncGrants);
    }
    if swap.remove_outbounds.len() > 0 {
        out.push(SwapStep::RemoveOutbounds);
    }
    assert(out@ =~= swap_steps(*swap));
    out
}

/// Whatever a swap asks for, its steps come in the one order that leaves no gap.
pub proof fn lemma_swap_leaves_no_gap(swap: HotSwap)
    ensures
        forall|i: int, j: int|
            0 <= i < j < swap_steps(swap).len() ==> rank(#[trigger] swap_steps(swap)[i]) < rank(
                #[trigger] swap_steps(swap)[j],
            ),
{
}

/// New rules are never installed without the old ones being taken out afterwards, and
/// old ones are never taken out without new ones standing behind them.
pub proof fn lemma_rules_are_replaced_together(swap: HotSwap)
    ensures
        swap_steps(swap).contains(SwapStep::AppendRules) <==> swap_steps(swap).contains(
            SwapStep::RemoveRules,
        ),
{
    let steps = swap_steps(swap);
    let at: int = steps_if(
        swap.add_outbounds@.len() > 0,
        seq![SwapStep::StageOutbounds, SwapStep::AddOutbounds],
    ).len() + steps_if(swap.remove_inbounds@.len() > 0, seq![SwapStep::RemoveInbounds]).len()
        as int;
    if swap.add_rules@.len() > 0 {
        assert(steps[at + 1] == SwapStep::AppendRules);
        assert(steps[at + 2] == SwapStep::RemoveRules);
    }
}

/// An inbound that is added gets its accounts before anything else is done.
pub proof fn lemma_new_inbound_gets_its_accounts(swap: HotSwap, i: int)
    requires
        0 <= i < swap_steps(swap).len(),
        swap_steps(swap)[i] == SwapStep::AddInbounds,
    ensures
        i + 1 < swap_steps(swap).len(),
        swap_steps(swap)[i + 1] == SwapStep::SyncGrants,
{
}

/// What a step is made of.
#[derive(Debug, PartialEq, Eq)]
pub enum SwapAction {
    /// A file that only this user may read.
    Write { path: String, content: String },
    /// The proxy's own program, with arguments.
    Run { args: Vec<String> },
    SyncGrants,
}

/// What a step is made of, by its characters.
pub enum ActionView {
    Write { path: Seq<char>, content: Seq<char> },
    Run { args: Seq<Seq<char>> },
    SyncGrants,
}

impl View for SwapAction {
    type V = ActionView;

    open spec fn view(&self) -> ActionView {
        match *self {
            SwapAction::Write { path, content } => ActionView::Write {
                path: path@,
                content: content@,
            },
            SwapAction::Run { args } => ActionView::Run { args: text::string_views(args@) },
            SwapAction::SyncGrants => ActionView::SyncGrants,
        }
    }
}

/// A call of the proxy's interface. The server is named right behind the verb: behind a
/// file's name it would be read as another file.
pub open spec fn call(verb: Seq<char>, api_port: u16, rest: Seq<Seq<char>>) -> ActionView {
    ActionView::Run {
        args: seq!["api"@, verb, "--server=127.0.0.1:"@ + numbers::decimal(api_port as int)] + rest,
    }
}

/// The text of an object whose one member is an array.
pub open spec fn array_of(name: Seq<char>, items: Seq<Seq<char>>) -> Seq<char> {
    "{\""@ + name + "\":["@ + text::join(items, ","@) + "]}"@
}

/// What a step is made of.
pub open spec fn action_of(step: SwapStep, swap: HotSwap, dir: Seq<char>, api_port: u16) -> ActionView {
    let outbounds = paths::joined(dir, "hotswap.outbounds.json"@);
    let rules = paths::joined(dir, "hotswap.rules.json"@);
    let inbounds = paths::joined(dir, "hotswap.inbounds.json"@);
    match step {
        SwapStep::StageOutbounds => ActionView::Write {
            path: outbounds,
            content: array_of("outbounds"@, text::string_views(swap.add_outbounds@)),
        },
        SwapStep::AddOutbounds => call("ado"@, api_port, seq![outbounds]),
        SwapStep::RemoveInbounds => call(
            "rmi"@,
            api_port,
            text::string_views(swap.remove_inbounds@),
        ),
        SwapStep::StageRules => ActionView::Write {
            path: rules,
            content: "{\"routing\":"@ + array_of("rules"@, text::string_views(swap.add_rules@)) + "}"@,
        },
        SwapStep::AppendRules => call("adrules"@, api_port, seq!["-append"@, rules]),
        SwapStep::RemoveRules => call(
            "rmrules"@,
            api_port,
            text::string_views(swap.remove_rule_tags@),
        ),
        SwapStep::StageInbounds => ActionView::Write {
            path: inbounds,
            content: array_of("inbounds"@, text::string_views(swap.add_inbounds@)),
        },
        SwapStep::AddInbounds => call("adi"@, api_port, seq![inbounds]),
        SwapStep::SyncGrants => ActionView::SyncGrants,
        SwapStep::RemoveOutbounds => call(
            "rmo"@,
            api_port,
            text::string_views(swap.remove_outbounds@),
        ),
    }
}

fn make_array(name: &str, items: &Vec<String>) -> (r: String)
    ensures
        r@ == array_of(name@, text::string_views(items@)),
{
    let mut out = "{\"".to_owned();
    out.append(name);
    out.append("\":[");
    out.append(text::join_strings(items, ",").as_str());
    out.append("]}");
    out
}

fn begin_call(verb: &str, api_port: u16) -> (r: Vec<String>)
    ensures
        text::string_views(r@) == seq![
            "api"@,
            verb@,
            "--server=127.0.0.1:"@ + numbers::decimal(api_port as int),
        ],
{
    let mut server = "--server=127.0.0.1:".to_owned();
    server.append(numbers::decimal_string(api_port as u64).as_str());
    let mut out: Vec<String> = Vec::new();
    out.push("api".to_owned());
    out.push(verb.to_owned());
    out.push(server);
    assert(text::string_views(out@) =~= seq![
        "api"@,
        verb@,
        "--server=127.0.0.1:"@ + numbers::decimal(api_port as int),
    ]);
    out
}

fn call_with_tags(verb: &str, api_port: u16, tags: &Vec<String>) -> (r: SwapAction)
    ensures
        r@ == call(verb@, api_port, text::string_views(tags@)),
{
    let mut args = begin_call(verb, api_port);
    let ghost head = text::string_views(args@);
    let ghost all = text::string_views(tags@);
    let mut i: usize = 0;
    assert(text::string_views(args@) == head + all.take(0));
    while i < tags.len()
        invariant
            i <= tags@.len(),
            all == text::string_views(tags@),
            all.len() == tags@.len(),
            text::string_views(args@) == head + all.take(i as int),
        decreases tags.len() - i,
    {
        let ghost before = args@;
        args.push(tags[i].as_str().to_owned());
        assert(text::string_views(args@) == text::string_views(before).push(all[i as int]));
        assert(all.take(i + 1) == all.take(i as int).push(all[i as int]));
        i = i + 1;
    }
    assert(all.take(i as int) == all);
    SwapAction::Run { args }
}

fn call_with_file(verb: &str, api_port: u16, path: String) -> (r: SwapAction)
    ensures
        r@ == call(verb@, api_port, seq![path@]),
{
    let mut args = begin_call(verb, api_port);
    let ghost before = args@;
    args.push(path);
    assert(text::string_views(args@) == text::string_views(before) + seq![path@]);
    SwapAction::Run { args }
}

/// What a step is made of.
pub fn swap_action(step: SwapStep, swap: &HotSwap, state_dir: &str, api_port: u16) -> (r: SwapAction)
    ensures
        r@ == action_of(step, *swap, state_dir@, api_port),
        step == SwapStep::RemoveInbounds ==> r@ == (ActionView::Run {
            args: seq!["api"@, "rmi"@, "--server=127.0.0.1:"@ + numbers::decimal(api_port as int)]
                + text::string_views(swap.remove_inbounds@),
        }),
        step == SwapStep::RemoveOutbounds ==> r@ == (ActionView::Run {
            args: seq!["api"@, "rmo"@, "--server=127.0.0.1:"@ + numbers::decimal(api_port as int)]
                + text::string_views(swap.remove_outbounds@),
        }),
        step == SwapStep::RemoveRules ==> r@ == (ActionView::Run {
            args: seq![
                "api"@,
                "rmrules"@,
                "--server=127.0.0.1:"@ + numbers::decimal(api_port as int),
            ] + text::string_views(swap.remove_rule_tags@),
        }),
{
    match step {
        SwapStep::StageOutbounds => SwapAction::Write {
            path: paths::join(state_dir, "hotswap.outbounds.json"),
            content: make_array("outbounds", &swap.add_outbounds),
        },
        SwapStep::AddOutbounds => call_with_file(
            "ado",
            api_port,
            paths::join(state_dir, "hotswap.outbounds.json"),
        ),
        SwapStep::RemoveInbounds => call_with_tags("rmi", api_port, &swap.remove_inbounds),
        SwapStep::StageRules => {
            let mut content = "{\"routing\":".to_owned();
            content.append(make_array("rules", &swap.add_rules).as_str());
            content.append("}");
            SwapAction::Write { path: paths::join(state_dir, "hotswap.rules.json"), content }
        },
        SwapStep::AppendRules => {
            let mut args = begin_call("adrules", api_port);
            let ghost before = args@;
            args.push("-append".to_owned());
            args.push(paths::join(state_dir, "hotswap.rules.json"));
            assert(text::string_views(args@) == text::string_views(before) + seq![
                "-append"@,
                paths::joined(state_dir@, "hotswap.rules.json"@),
            ]);
            SwapAction::Run { args }
        },
        SwapStep::RemoveRules => call_with_tags("rmrules", api_port, &swap.remove_rule_tags),
        SwapStep::StageInbounds => SwapAction::Write {
            path: paths::join(state_dir, "hotswap.inbounds.json"),
            content: make_array("inbounds", &swap.add_inbounds),
        },
        SwapStep::AddInbounds => call_with_file(
            "adi",
            api_port,
            paths::join(state_dir, "hotswap.inbounds.json"),
        ),
        SwapStep::SyncGrants => SwapAction::SyncGrants,
        SwapStep::RemoveOutbounds => call_with_tags("rmo", api_port, &swap.remove_outbounds),
    }
}

/// Whether one step never comes behind another.
pub open spec fn precedes(steps: Seq<SwapStep>, first: SwapStep, second: SwapStep) -> bool {
    forall|i: int, j: int|
        0 <= i < steps.len() && 0 <= j < steps.len() && #[trigger] steps[i] == first
            && #[trigger] steps[j] == second ==> i < j
}

/// A file is written before the call that reads it. An outbound is there before a rule
/// that may name it, and a rule is gone before the outbound that it may name. The new
/// rules stand before the old ones go, an inbound goes before its rule does, one that
/// comes does so once its rule stands, and only then gets its accounts.
pub proof fn lemma_steps_keep_their_order(swap: HotSwap)
    ensures
        precedes(swap_steps(swap), SwapStep::StageOutbounds, SwapStep::AddOutbounds),
        precedes(swap_steps(swap), SwapStep::AddOutbounds, SwapStep::AppendRules),
        precedes(swap_steps(swap), SwapStep::RemoveInbounds, SwapStep::RemoveRules),
        precedes(swap_steps(swap), SwapStep::StageRules, SwapStep::AppendRules),
        precedes(swap_steps(swap), SwapStep::AppendRules, SwapStep::RemoveRules),
        precedes(swap_steps(swap), SwapStep::AppendRules, SwapStep::AddInbounds),
        precedes(swap_steps(swap), SwapStep::StageInbounds, SwapStep::AddInbounds),
        precedes(swap_steps(swap), SwapStep::AddInbounds, SwapStep::SyncGrants),
        precedes(swap_steps(swap), SwapStep::RemoveRules, SwapStep::RemoveOutbounds),
{
    lemma_lower_rank_precedes(swap, SwapStep::StageOutbounds, SwapStep::AddOutbounds);
    lemma_lower_rank_precedes(swap, SwapStep::AddOutbounds, SwapStep::AppendRules);
    lemma_lower_rank_precedes(swap, SwapStep::RemoveInbounds, SwapStep::RemoveRules);
    lemma_lower_rank_precedes(swap, SwapStep::StageRules, SwapStep::AppendRules);
    lemma_lower_rank_precedes(swap, SwapStep::AppendRules, SwapStep::RemoveRules);
    lemma_lower_rank_precedes(swap, SwapStep::AppendRules, SwapStep::AddInbounds);
    lemma_lower_rank_precedes(swap, SwapStep::StageInbounds, SwapStep::AddInbounds);
    lemma_lower_rank_precedes(swap, SwapStep::AddInbounds, SwapStep::SyncGrants);
    lemma_lower_rank_precedes(swap, SwapStep::RemoveRules, SwapStep::RemoveOutbounds);
}

proof fn lemma_lower_rank_precedes(swap: HotSwap, first: SwapStep, second: SwapStep)
    requires
        rank(first) < rank(second),
    ensures
        precedes(swap_steps(swap), first, second),
{
    lemma_swap_leaves_no_gap(swap);
    let steps = swap_steps(swap);
    assert forall|i: int, j: int|
        0 <= i < steps.len() && 0 <= j < steps.len() && #[trigger] steps[i] == first
            && #[trigger] steps[j] == second implies i < j by {
        if j < i {
            assert(rank(steps[j]) < rank(steps[i]));
        }
    }
}

/// A proxy that runs, and the files that it can read. What it holds is given by the texts
/// of JSON values.
#[verifier::ext_equal]
pub struct Proxy {
    pub outbounds: Set<Seq<char>>,
    pub inbounds: Set<Seq<char>>,
    /// Those inbounds that have their accounts.
    pub granted: Set<Seq<char>>,
    pub rules: Seq<Seq<char>>,
    /// Whether the balancers stand, which only a start declares.
    pub balancers: bool,
    pub files: Map<Seq<char>, Seq<char>>,
}

/// How a proxy reads: the members of an array in a file's text, and the tag of a value.
pub struct Reader {
    pub members: spec_fn(Seq<char>, Seq<char>) -> Seq<Seq<char>>,
    pub tag: spec_fn(Seq<char>) -> Seq<char>,
}

/// The values whose tags are none of those.
pub open spec fn untagged(
    held: Set<Seq<char>>,
    tags: Seq<Seq<char>>,
    reader: Reader,
) -> Set<Seq<char>> {
    held.filter(|v: Seq<char>| !tags.contains((reader.tag)(v)))
}

/// The rules whose tags are none of those, in their order.
pub open spec fn rules_without(
    rules: Seq<Seq<char>>,
    tags: Seq<Seq<char>>,
    reader: Reader,
) -> Seq<Seq<char>> {
    rules.filter(|v: Seq<char>| !tags.contains((reader.tag)(v)))
}

/// What a call of the proxy's own program does to a proxy that listens for it at a port:
/// its arguments are the word for the interface, what is to be done, the server, and then
/// tags or the name of a file. Anything else does nothing.
pub open spec fn called(p: Proxy, args: Seq<Seq<char>>, port: u16, reader: Reader) -> Proxy {
    if args.len() < 3 || args[0] != "api"@ || args[2] != "--server=127.0.0.1:"@ + numbers::decimal(
        port as int,
    ) {
        p
    } else {
        let verb = args[1];
        let rest = args.skip(3);
        let file = p.files[rest.last()];
        if verb == "adi"@ {
            Proxy {
                inbounds: p.inbounds.union((reader.members)("inbounds"@, file).to_set()),
                ..p
            }
        } else if verb == "rmi"@ {
            Proxy { inbounds: untagged(p.inbounds, rest, reader), ..p }
        } else if verb == "ado"@ {
            Proxy {
                outbounds: p.outbounds.union((reader.members)("outbounds"@, file).to_set()),
                ..p
            }
        } else if verb == "rmo"@ {
            Proxy { outbounds: untagged(p.outbounds, rest, reader), ..p }
        } else if verb == "adrules"@ && rest[0] == "-append"@ {
            Proxy { rules: p.rules + (reader.members)("rules"@, file), ..p }
        } else if verb == "adrules"@ {
            Proxy { rules: (reader.members)("rules"@, file), balancers: false, ..p }
        } else if verb == "rmrules"@ {
            Proxy { rules: rules_without(p.rules, rest, reader), ..p }
        } else {
            p
        }
    }
}

/// What an action does to a proxy.
pub open spec fn acted(p: Proxy, action: ActionView, port: u16, reader: Reader) -> Proxy {
    match action {
        ActionView::Write { path, content } => Proxy { files: p.files.insert(path, content), ..p },
        ActionView::Run { args } => called(p, args, port, reader),
        ActionView::SyncGrants => Proxy { granted: p.inbounds, ..p },
    }
}

/// A proxy after steps.
pub open spec fn after_steps(
    p: Proxy,
    steps: Seq<SwapStep>,
    swap: HotSwap,
    dir: Seq<char>,
    port: u16,
    reader: Reader,
) -> Proxy
    decreases steps.len(),
{
    if steps.len() == 0 {
        p
    } else {
        acted(
            after_steps(p, steps.drop_last(), swap, dir, port, reader),
            action_of(steps.last(), swap, dir, port),
            port,
            reader,
        )
    }
}

/// Whether a proxy reads back what a swap adds, where it is written as an object of one
/// array, and for the rules such an object within another.
pub open spec fn reads_swap(reader: Reader, swap: HotSwap) -> bool {
    let outbounds = text::string_views(swap.add_outbounds@);
    let rules = text::string_views(swap.add_rules@);
    let inbounds = text::string_views(swap.add_inbounds@);
    &&& (reader.members)("outbounds"@, "{\"outbounds\":["@ + text::join(outbounds, ","@) + "]}"@)
        == outbounds
    &&& (reader.members)("rules"@, "{\"routing\":{\"rules\":["@ + text::join(rules, ","@) + "]}}"@)
        == rules
    &&& (reader.members)("inbounds"@, "{\"inbounds\":["@ + text::join(inbounds, ","@) + "]}"@)
        == inbounds
}

proof fn lemma_steps_then_steps(
    p: Proxy,
    first: Seq<SwapStep>,
    second: Seq<SwapStep>,
    swap: HotSwap,
    dir: Seq<char>,
    port: u16,
    reader: Reader,
)
    ensures
        after_steps(p, first + second, swap, dir, port, reader) == after_steps(
            after_steps(p, first, swap, dir, port, reader),
            second,
            swap,
            dir,
            port,
            reader,
        ),
    decreases second.len(),
{
    if second.len() == 0 {
        assert(first + second == first);
    } else {
        lemma_steps_then_steps(p, first, second.drop_last(), swap, dir, port, reader);
        assert((first + second).drop_last() == first + second.drop_last());
    }
}

proof fn lemma_verbs_differ()
    ensures
        "adi"@ != "rmi"@,
        "adi"@ != "ado"@,
        "adi"@ != "rmo"@,
        "rmi"@ != "ado"@,
        "rmi"@ != "rmo"@,
        "ado"@ != "rmo"@,
        "adrules"@ != "rmrules"@,
        "adi"@.len() == 3,
        "rmi"@.len() == 3,
        "ado"@.len() == 3,
        "rmo"@.len() == 3,
        "adrules"@.len() == 7,
        "rmrules"@.len() == 7,
{
    reveal_strlit("adi");
    reveal_strlit("rmi");
    reveal_strlit("ado");
    reveal_strlit("rmo");
    reveal_strlit("adrules");
    reveal_strlit("rmrules");
    assert("adi"@[0] == 'a' && "rmi"@[0] == 'r' && "ado"@[0] == 'a' && "rmo"@[0] == 'r');
    assert("adi"@[2] == 'i' && "rmi"@[2] == 'i' && "ado"@[2] == 'o' && "rmo"@[2] == 'o');
    assert("adrules"@[0] == 'a' && "rmrules"@[0] == 'r');
}

proof fn lemma_staged_texts(swap: HotSwap)
    ensures
        array_of("outbounds"@, text::string_views(swap.add_outbounds@)) == "{\"outbounds\":["@
            + text::join(text::string_views(swap.add_outbounds@), ","@) + "]}"@,
        array_of("inbounds"@, text::string_views(swap.add_inbounds@)) == "{\"inbounds\":["@
            + text::join(text::string_views(swap.add_inbounds@), ","@) + "]}"@,
        "{\"routing\":"@ + array_of("rules"@, text::string_views(swap.add_rules@)) + "}"@
            == "{\"routing\":{\"rules\":["@ + text::join(
            text::string_views(swap.add_rules@),
            ","@,
        ) + "]}}"@,
{
    reveal_strlit("{\"");
    reveal_strlit("\":[");
    reveal_strlit("]}");
    reveal_strlit("}");
    reveal_strlit("]}}");
    reveal_strlit("outbounds");
    reveal_strlit("inbounds");
    reveal_strlit("rules");
    reveal_strlit("{\"routing\":");
    reveal_strlit("{\"outbounds\":[");
    reveal_strlit("{\"inbounds\":[");
    reveal_strlit("{\"routing\":{\"rules\":[");
    assert("{\"outbounds\":["@ =~= "{\""@ + "outbounds"@ + "\":["@);
    assert("{\"inbounds\":["@ =~= "{\""@ + "inbounds"@ + "\":["@);
    assert("{\"routing\":{\"rules\":["@ =~= "{\"routing\":"@ + "{\""@ + "rules"@ + "\":["@);
    assert("]}}"@ =~= "]}"@ + "}"@);
    let rules = text::join(text::string_views(swap.add_rules@), ","@);
    assert("{\"routing\":"@ + ("{\""@ + "rules"@ + "\":["@ + rules + "]}"@) + "}"@ =~= (
    "{\"routing\":"@ + "{\""@ + "rules"@ + "\":["@) + rules + ("]}"@ + "}"@));
}

proof fn lemma_adding_outbounds(p: Proxy, swap: HotSwap, dir: Seq<char>, port: u16, reader: Reader)
    requires
        reads_swap(reader, swap),
    ensures
        ({
            let steps = steps_if(
                swap.add_outbounds@.len() > 0,
                seq![SwapStep::StageOutbounds, SwapStep::AddOutbounds],
            );
            let end = after_steps(p, steps, swap, dir, port, reader);
            &&& end.outbounds == p.outbounds.union(
                text::string_views(swap.add_outbounds@).to_set(),
            )
            &&& end.inbounds == p.inbounds && end.rules == p.rules
            &&& end.balancers == p.balancers && end.granted == p.granted
        }),
{
    lemma_verbs_differ();
    lemma_staged_texts(swap);
    let added = text::string_views(swap.add_outbounds@);
    if swap.add_outbounds@.len() > 0 {
        let steps = seq![SwapStep::StageOutbounds, SwapStep::AddOutbounds];
        let path = paths::joined(dir, "hotswap.outbounds.json"@);
        reveal_with_fuel(after_steps, 3);
        assert(steps.drop_last() == seq![SwapStep::StageOutbounds]);
        assert(steps.drop_last().drop_last() == Seq::<SwapStep>::empty());
        lemma_behind_server("ado"@, port, seq![path]);
    } else {
        assert(p.outbounds.union(added.to_set()) =~= p.outbounds);
    }
}

proof fn lemma_behind_server(verb: Seq<char>, port: u16, rest: Seq<Seq<char>>)
    ensures
        call(verb, port, rest)->args.skip(3) == rest,
{
}

proof fn lemma_removing_inbounds(
    p: Proxy,
    swap: HotSwap,
    dir: Seq<char>,
    port: u16,
    reader: Reader,
)
    ensures
        ({
            let steps = steps_if(swap.remove_inbounds@.len() > 0, seq![SwapStep::RemoveInbounds]);
            let end = after_steps(p, steps, swap, dir, port, reader);
            &&& end.inbounds == untagged(
                p.inbounds,
                text::string_views(swap.remove_inbounds@),
                reader,
            )
            &&& end.outbounds == p.outbounds && end.rules == p.rules
            &&& end.balancers == p.balancers && end.granted == p.granted
        }),
{
    lemma_verbs_differ();
    let gone = text::string_views(swap.remove_inbounds@);
    if swap.remove_inbounds@.len() > 0 {
        let steps = seq![SwapStep::RemoveInbounds];
        reveal_with_fuel(after_steps, 2);
        assert(steps.drop_last() == Seq::<SwapStep>::empty());
        lemma_behind_server("rmi"@, port, gone);
    } else {
        assert(untagged(p.inbounds, gone, reader) =~= p.inbounds);
    }
}

proof fn lemma_replacing_rules(p: Proxy, swap: HotSwap, dir: Seq<char>, port: u16, reader: Reader)
    requires
        reads_swap(reader, swap),
        forall|i: int|
            0 <= i < swap.add_rules@.len() ==> !text::string_views(
                swap.remove_rule_tags@,
            ).contains((reader.tag)(#[trigger] swap.add_rules@[i]@)),
    ensures
        ({
            let steps = steps_if(
                swap.add_rules@.len() > 0,
                seq![SwapStep::StageRules, SwapStep::AppendRules, SwapStep::RemoveRules],
            );
            let end = after_steps(p, steps, swap, dir, port, reader);
            &&& end.rules == (if swap.add_rules@.len() == 0 {
                p.rules
            } else {
                rules_without(p.rules, text::string_views(swap.remove_rule_tags@), reader)
                    + text::string_views(swap.add_rules@)
            })
            &&& end.outbounds == p.outbounds && end.inbounds == p.inbounds
            &&& end.balancers == p.balancers && end.granted == p.granted
        }),
{
    lemma_verbs_differ();
    lemma_staged_texts(swap);
    let added = text::string_views(swap.add_rules@);
    let gone = text::string_views(swap.remove_rule_tags@);
    if swap.add_rules@.len() > 0 {
        let steps = seq![SwapStep::StageRules, SwapStep::AppendRules, SwapStep::RemoveRules];
        let path = paths::joined(dir, "hotswap.rules.json"@);
        reveal_with_fuel(after_steps, 4);
        assert(steps.drop_last() == seq![SwapStep::StageRules, SwapStep::AppendRules]);
        assert(steps.drop_last().drop_last() == seq![SwapStep::StageRules]);
        assert(steps.drop_last().drop_last().drop_last() == Seq::<SwapStep>::empty());
        lemma_behind_server("adrules"@, port, seq!["-append"@, path]);
        lemma_behind_server("rmrules"@, port, gone);
        let stays = |v: Seq<char>| !gone.contains((reader.tag)(v));
        Seq::<Seq<char>>::filter_distributes_over_add(p.rules, added, stays);
        assert forall|i: int| 0 <= i < added.len() implies stays(#[trigger] added[i]) by {
            assert(added[i] == swap.add_rules@[i]@);
        }
        lemma_all_stay(added, stays);
    }
}

proof fn lemma_all_stay(rules: Seq<Seq<char>>, stays: spec_fn(Seq<char>) -> bool)
    requires
        forall|i: int| 0 <= i < rules.len() ==> stays(#[trigger] rules[i]),
    ensures
        rules.filter(stays) == rules,
    decreases rules.len(),
{
    reveal(Seq::filter);
    if rules.len() > 0 {
        let front = rules.drop_last();
        assert forall|i: int| 0 <= i < front.len() implies stays(#[trigger] front[i]) by {
            assert(front[i] == rules[i]);
        }
        lemma_all_stay(front, stays);
        assert(stays(rules[rules.len() - 1]));
        assert(front.push(rules.last()) == rules);
    }
}

proof fn lemma_adding_inbounds(p: Proxy, swap: HotSwap, dir: Seq<char>, port: u16, reader: Reader)
    requires
        reads_swap(reader, swap),
    ensures
        ({
            let steps = steps_if(
                swap.add_inbounds@.len() > 0,
                seq![SwapStep::StageInbounds, SwapStep::AddInbounds, SwapStep::SyncGrants],
            );
            let end = after_steps(p, steps, swap, dir, port, reader);
            &&& end.inbounds == p.inbounds.union(text::string_views(swap.add_inbounds@).to_set())
            &&& end.outbounds == p.outbounds && end.rules == p.rules
            &&& end.balancers == p.balancers
            &&& swap.add_inbounds@.len() > 0 ==> end.granted == end.inbounds
        }),
{
    lemma_verbs_differ();
    lemma_staged_texts(swap);
    let added = text::string_views(swap.add_inbounds@);
    if swap.add_inbounds@.len() > 0 {
        let steps = seq![SwapStep::StageInbounds, SwapStep::AddInbounds, SwapStep::SyncGrants];
        let path = paths::joined(dir, "hotswap.inbounds.json"@);
        reveal_with_fuel(after_steps, 4);
        assert(steps.drop_last() == seq![SwapStep::StageInbounds, SwapStep::AddInbounds]);
        assert(steps.drop_last().drop_last() == seq![SwapStep::StageInbounds]);
        assert(steps.drop_last().drop_last().drop_last() == Seq::<SwapStep>::empty());
        lemma_behind_server("adi"@, port, seq![path]);
    } else {
        assert(p.inbounds.union(added.to_set()) =~= p.inbounds);
    }
}

proof fn lemma_removing_outbounds(
    p: Proxy,
    swap: HotSwap,
    dir: Seq<char>,
    port: u16,
    reader: Reader,
)
    ensures
        ({
            let steps = steps_if(swap.remove_outbounds@.len() > 0, seq![SwapStep::RemoveOutbounds]);
            let end = after_steps(p, steps, swap, dir, port, reader);
            &&& end.outbounds == untagged(
                p.outbounds,
                text::string_views(swap.remove_outbounds@),
                reader,
            )
            &&& end.inbounds == p.inbounds && end.rules == p.rules
            &&& end.balancers == p.balancers && end.granted == p.granted
        }),
{
    lemma_verbs_differ();
    let gone = text::string_views(swap.remove_outbounds@);
    if swap.remove_outbounds@.len() > 0 {
        let steps = seq![SwapStep::RemoveOutbounds];
        reveal_with_fuel(after_steps, 2);
        assert(steps.drop_last() == Seq::<SwapStep>::empty());
        lemma_behind_server("rmo"@, port, gone);
    } else {
        assert(untagged(p.outbounds, gone, reader) =~= p.outbounds);
    }
}

/// What a swap leaves behind in a running proxy: of each kind what was there without what
/// the swap removes, and with what it adds. The rules that stay keep their places ahead of
/// those that come, the balancers stand as they did, and every inbound has its accounts
/// where one was added. Rules are only touched where some are added; and since what is
/// added of rules and outbounds comes before what goes, it must not bear a tag that goes.
pub proof fn lemma_swap_leaves_what_is_wanted(
    p: Proxy,
    swap: HotSwap,
    dir: Seq<char>,
    port: u16,
    reader: Reader,
)
    requires
        reads_swap(reader, swap),
        forall|i: int|
            0 <= i < swap.add_outbounds@.len() ==> !text::string_views(
                swap.remove_outbounds@,
            ).contains((reader.tag)(#[trigger] swap.add_outbounds@[i]@)),
        forall|i: int|
            0 <= i < swap.add_rules@.len() ==> !text::string_views(
                swap.remove_rule_tags@,
            ).contains((reader.tag)(#[trigger] swap.add_rules@[i]@)),
    ensures
        ({
            let end = after_steps(p, swap_steps(swap), swap, dir, port, reader);
            let gone_in = text::string_views(swap.remove_inbounds@);
            let gone_out = text::string_views(swap.remove_outbounds@);
            let gone_rules = text::string_views(swap.remove_rule_tags@);
            &&& forall|v: Seq<char>| #[trigger]
                end.inbounds.contains(v) <==> (p.inbounds.contains(v) && !gone_in.contains(
                    (reader.tag)(v),
                )) || text::string_views(swap.add_inbounds@).contains(v)
            &&& forall|v: Seq<char>| #[trigger]
                end.outbounds.contains(v) <==> (p.outbounds.contains(v) && !gone_out.contains(
                    (reader.tag)(v),
                )) || text::string_views(swap.add_outbounds@).contains(v)
            &&& end.rules == (if swap.add_rules@.len() == 0 {
                p.rules
            } else {
                rules_without(p.rules, gone_rules, reader) + text::string_views(swap.add_rules@)
            })
            &&& end.balancers == p.balancers
            &&& swap.add_inbounds@.len() > 0 ==> end.granted == end.inbounds
        }),
{
    lemma_verbs_differ();
    let s1 = steps_if(
        swap.add_outbounds@.len() > 0,
        seq![SwapStep::StageOutbounds, SwapStep::AddOutbounds],
    );
    let s2 = steps_if(swap.remove_inbounds@.len() > 0, seq![SwapStep::RemoveInbounds]);
    let s3 = steps_if(
        swap.add_rules@.len() > 0,
        seq![SwapStep::StageRules, SwapStep::AppendRules, SwapStep::RemoveRules],
    );
    let s4 = steps_if(
        swap.add_inbounds@.len() > 0,
        seq![SwapStep::StageInbounds, SwapStep::AddInbounds, SwapStep::SyncGrants],
    );
    let s5 = steps_if(swap.remove_outbounds@.len() > 0, seq![SwapStep::RemoveOutbounds]);
    let p1 = after_steps(p, s1, swap, dir, port, reader);
    let p2 = after_steps(p1, s2, swap, dir, port, reader);
    let p3 = after_steps(p2, s3, swap, dir, port, reader);
    let p4 = after_steps(p3, s4, swap, dir, port, reader);
    let p5 = after_steps(p4, s5, swap, dir, port, reader);
    lemma_steps_then_steps(p, s1, s2, swap, dir, port, reader);
    lemma_steps_then_steps(p, s1 + s2, s3, swap, dir, port, reader);
    lemma_steps_then_steps(p, s1 + s2 + s3, s4, swap, dir, port, reader);
    lemma_steps_then_steps(p, s1 + s2 + s3 + s4, s5, swap, dir, port, reader);
    lemma_adding_outbounds(p, swap, dir, port, reader);
    lemma_removing_inbounds(p1, swap, dir, port, reader);
    lemma_replacing_rules(p2, swap, dir, port, reader);
    lemma_adding_inbounds(p3, swap, dir, port, reader);
    lemma_removing_outbounds(p4, swap, dir, port, reader);
    let added = text::string_views(swap.add_outbounds@);
    let gone = text::string_views(swap.remove_outbounds@);
    assert forall|v: Seq<char>| added.contains(v) implies !gone.contains((reader.tag)(v)) by {
        let i = choose|i: int| 0 <= i < added.len() && added[i] == v;
        assert(swap.add_outbounds@[i]@ == v);
    }
}

} // verus!
