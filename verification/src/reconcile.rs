//! Putting right what drifted on the machine by itself, from what is kept on disk.
use vstd::prelude::*;
use vstd::string::*;

use crate::text;

verus! {

/// When a replay acts.
#[derive(Debug, Clone, Copy, PartialEq, Eq, Structural)]
pub enum Drift {
    /// Only on what is known to be broken.
    OnlyWhenBroken,
    /// On everything, without looking first.
    Always,
}

/// A part that is replayed.
#[derive(Debug, Clone, Copy, PartialEq, Eq, Structural)]
pub enum Part {
    Phantun,
    Wireguard,
    PortHop,
    Xray,
    Conntrack,
    Grants,
}

/// What a part is called.
pub open spec fn part_name(part: Part) -> Seq<char> {
    match part {
        Part::Phantun => "phantun"@,
        Part::Wireguard => "wireguard"@,
        Part::PortHop => "port-hop"@,
        Part::Xray => "xray"@,
        Part::Conntrack => "conntrack"@,
        Part::Grants => "grants"@,
    }
}

impl Part {
    /// What a part is called.
    pub fn name(&self) -> (r: &'static str)
        ensures
            r@ == part_name(*self),
    {
        match self {
            Part::Phantun => "phantun",
            Part::Wireguard => "wireguard",
            Part::PortHop => "port-hop",
            Part::Xray => "xray",
            Part::Conntrack => "conntrack",
            Part::Grants => "grants",
        }
    }
}

/// The order in which parts are replayed. The disguise layer comes before the tunnel,
/// whose peers may point at it; the exemption comes before the accounts, which talk to
/// a process that may have just started.
pub open spec fn rank(part: Part) -> int {
    match part {
        Part::Phantun => 0,
        Part::Wireguard => 1,
        Part::PortHop => 2,
        Part::Xray => 3,
        Part::Conntrack => 4,
        Part::Grants => 5,
    }
}

/// Whether an artifact is kept, and it is not marked as taken down.
#[derive(Debug, Clone, Copy, PartialEq, Eq, Structural)]
pub struct Kept {
    pub present: bool,
    pub disabled: bool,
}

impl Kept {
    pub open spec fn wanted(self) -> bool {
        self.present && !self.disabled
    }
}

/// What was found of each part.
#[derive(Debug, Clone, Copy, PartialEq, Eq, Structural)]
pub struct Findings {
    pub phantun: Kept,
    /// Whether its plan asks for any process.
    pub phantun_wanted: bool,
    pub phantun_broken: bool,
    pub wireguard: Kept,
    pub wg_interface: bool,
    pub wg_wanted_mtu: Option<u16>,
    pub wg_live_mtu: Option<u16>,
    pub port_hop: Kept,
    pub port_hop_matches: bool,
    pub xray: Kept,
    pub xray_broken: bool,
    pub conntrack_matches: bool,
    /// Whether the accounts that should be let in are kept.
    pub grants_kept: bool,
    /// Whether those that are let in are others.
    pub grants_drifted: bool,
}

/// Whether the tunnel is not as its configuration says: no interface, or one that
/// carries packets of another size.
pub open spec fn wireguard_broken(f: Findings) -> bool {
    !f.wg_interface || (f.wg_wanted_mtu matches Some(want) && f.wg_live_mtu != Some(want))
}

/// Whether a part is replayed. An account list lives in the proxy's memory alone, so a
/// proxy that is started again always gets it again.
pub open spec fn needed(part: Part, force: bool, f: Findings) -> bool {
    match part {
        Part::Phantun => f.phantun.wanted() && (force || (f.phantun_wanted && f.phantun_broken)),
        Part::Wireguard => f.wireguard.wanted() && (force || wireguard_broken(f)),
        Part::PortHop => f.port_hop.wanted() && (force || !f.port_hop_matches),
        Part::Xray => f.xray.wanted() && (force || f.xray_broken),
        Part::Conntrack => f.xray.wanted() && (force || !f.conntrack_matches),
        Part::Grants => f.xray.wanted() && f.grants_kept && (force || f.xray_broken
            || f.grants_drifted),
    }
}

/// Whether a part is replayed, from what was found.
pub fn is_needed(part: Part, mode: Drift, f: &Findings) -> (r: bool)
    ensures
        r == needed(part, mode == Drift::Always, *f),
{
    let force = match mode {
        Drift::Always => true,
        Drift::OnlyWhenBroken => false,
    };
    match part {
        Part::Phantun => f.phantun.present && !f.phantun.disabled && (force || (f.phantun_wanted
            && f.phantun_broken)),
        Part::Wireguard => {
            let other_size = match f.wg_wanted_mtu {
                Some(want) => match f.wg_live_mtu {
                    Some(live) => live != want,
                    None => true,
                },
                None => false,
            };
            f.wireguard.present && !f.wireguard.disabled && (force || !f.wg_interface
                || other_size)
        },
        Part::PortHop => f.port_hop.present && !f.port_hop.disabled && (force
            || !f.port_hop_matches),
        Part::Xray => f.xray.present && !f.xray.disabled && (force || f.xray_broken),
        Part::Conntrack => f.xray.present && !f.xray.disabled && (force || !f.conntrack_matches),
        Part::Grants => f.xray.present && !f.xray.disabled && f.grants_kept && (force
            || f.xray_broken || f.grants_drifted),
    }
}

/// The parts in the order they are replayed.
pub open spec fn all_parts() -> Seq<Part> {
    seq![
        Part::Phantun,
        Part::Wireguard,
        Part::PortHop,
        Part::Xray,
        Part::Conntrack,
        Part::Grants,
    ]
}

/// The parts among the first `n` that are replayed.
pub open spec fn chosen(force: bool, f: Findings, n: int) -> Seq<Part>
    decreases n,
{
    if n <= 0 || n > all_parts().len() {
        seq![]
    } else {
        let front = chosen(force, f, n - 1);
        let part = all_parts()[n - 1];
        if needed(part, force, f) {
            front.push(part)
        } else {
            front
        }
    }
}

/// The parts that are replayed, in order.
pub fn reconcile_local(mode: Drift, f: &Findings) -> (r: Vec<Part>)
    ensures
        r@ == chosen(mode == Drift::Always, *f, 6),
{
    let parts = [
        Part::Phantun,
        Part::Wireguard,
        Part::PortHop,
        Part::Xray,
        Part::Conntrack,
        Part::Grants,
    ];
    assert(parts@ =~= all_parts());
    let mut out: Vec<Part> = Vec::new();
    let mut i: usize = 0;
    while i < 6
        invariant
            i <= 6,
            parts@ == all_parts(),
            all_parts().len() == 6,
            out@ == chosen(mode == Drift::Always, *f, i as int),
        decreases 6 - i,
    {
        if is_needed(parts[i], mode, f) {
            out.push(parts[i]);
        }
        i = i + 1;
    }
    out
}

/// Whether parts stand in the order in which they are replayed.
pub open spec fn in_order(parts: Seq<Part>) -> bool {
    forall|i: int, j: int| 0 <= i < j < parts.len() ==> rank(parts[i]) < rank(parts[j])
}

proof fn lemma_chosen_in_order(force: bool, f: Findings, n: int)
    requires
        0 <= n <= 6,
    ensures
        in_order(chosen(force, f, n)),
        forall|i: int|
            0 <= i < chosen(force, f, n).len() ==> rank(#[trigger] chosen(force, f, n)[i]) < n
                && needed(chosen(force, f, n)[i], force, f),
    decreases n,
{
    if n > 0 {
        lemma_chosen_in_order(force, f, n - 1);
        assert(rank(all_parts()[n - 1]) == n - 1);
    }
}

/// Whatever is found, parts are replayed in their order, and only where they are
/// needed.
pub proof fn lemma_replay_keeps_its_order(force: bool, f: Findings)
    ensures
        in_order(chosen(force, f, 6)),
        forall|i: int|
            0 <= i < chosen(force, f, 6).len() ==> needed(
                #[trigger] chosen(force, f, 6)[i],
                force,
                f,
            ),
{
    lemma_chosen_in_order(force, f, 6);
}

/// A machine on which nothing is broken is left alone.
pub proof fn lemma_healthy_machine_is_left_alone(f: Findings)
    requires
        !f.phantun_broken,
        !wireguard_broken(f),
        f.port_hop_matches,
        !f.xray_broken,
        f.conntrack_matches,
        !f.grants_drifted,
    ensures
        chosen(false, f, 6).len() == 0,
{
    reveal_with_fuel(chosen, 7);
}

/// A proxy that is started again gets its accounts again, wherever they are kept.
pub proof fn lemma_restart_restores_accounts(force: bool, f: Findings)
    requires
        needed(Part::Xray, force, f),
        f.grants_kept,
    ensures
        needed(Part::Grants, force, f),
{
}

/// The names of parts.
pub open spec fn part_names(parts: Seq<Part>) -> Seq<Seq<char>> {
    Seq::new(parts.len(), |i: int| part_name(parts[i]))
}

fn name_all(parts: &Vec<Part>) -> (r: Vec<String>)
    ensures
        text::string_views(r@) == part_names(parts@),
{
    let ghost all = part_names(parts@);
    let mut names: Vec<String> = Vec::new();
    let mut i: usize = 0;
    while i < parts.len()
        invariant
            i <= parts.len(),
            all == part_names(parts@),
            text::string_views(names@) == all.take(i as int),
        decreases parts.len() - i,
    {
        let ghost before = names@;
        names.push(parts[i].name().to_owned());
        assert(text::string_views(names@) == text::string_views(before).push(all[i as int]));
        assert(all.take(i + 1) == all.take(i as int).push(all[i as int]));
        i = i + 1;
    }
    assert(all.take(i as int) == all);
    names
}

/// What is said of a replay once it is over: what was replayed, or that there was
/// nothing to replay where somebody asked for it.
pub fn reconcile_outcome(mode: Drift, acted: &Vec<Part>, state_dir: &str) -> (r: Result<
    Option<String>,
    String,
>)
    ensures
        match r {
            Ok(None) => acted@.len() == 0 && mode == Drift::OnlyWhenBroken,
            Ok(Some(line)) => acted@.len() > 0 && line@ == "本地对账：重放了 "@ + text::join(
                part_names(acted@),
                "、"@,
            ),
            Err(e) => acted@.len() == 0 && mode == Drift::Always && e@ == state_dir@
                + " 里没有任何制品，这台机器还没接收过发布"@,
        },
{
    if acted.len() == 0 {
        return match mode {
            Drift::Always => {
                let mut out = state_dir.to_owned();
                out.append(" 里没有任何制品，这台机器还没接收过发布");
                Err(out)
            },
            Drift::OnlyWhenBroken => Ok(None),
        };
    }
    let mut out = "本地对账：重放了 ".to_owned();
    out.append(text::join_strings(&name_all(acted), "、").as_str());
    Ok(Some(out))
}

/// The file that the last replay is recorded in.
pub const LOCAL_RECONCILE_FILE: &'static str = "local-reconcile.json";

/// The record of a replay.
#[derive(Debug, PartialEq, Eq)]
pub struct ReplayRecord {
    /// The names of the parts that were replayed.
    pub actions: Vec<String>,
    /// What stopped it, where anything did.
    pub error: Option<String>,
}

/// The record of a replay, from the parts that were replayed before it ended and how it
/// ended. One that failed is recorded too, with what it had done by then.
pub fn record_local_reconcile(acted: &Vec<Part>, result: &Result<(), String>) -> (r: ReplayRecord)
    ensures
        text::string_views(r.actions@) == part_names(acted@),
        match *result {
            Ok(()) => r.error is None,
            Err(error) => r.error matches Some(e) && e@ == error@,
        },
{
    let error = match result {
        Ok(()) => None,
        Err(error) => Some(error.as_str().to_owned()),
    };
    ReplayRecord { actions: name_all(acted), error }
}

/// What a replay comes to together with the record of it: neither hides the other.
pub fn with_record(result: Result<(), String>, recorded: Result<(), String>) -> (r: Result<
    (),
    String,
>)
    ensures
        match (result, recorded) {
            (Ok(()), Ok(())) => r is Ok,
            (Err(error), Ok(())) => r matches Err(e) && e@ == error@,
            (Ok(()), Err(record)) => r matches Err(e) && e@ == "本地对账完成，但记录结果失败："@ + record@,
            (Err(error), Err(record)) => r matches Err(e) && e@ == error@ + "；记录本地对账失败："@
                + record@,
        },
{
    match (result, recorded) {
        (Ok(()), Ok(())) => Ok(()),
        (Err(error), Ok(())) => Err(error),
        (Ok(()), Err(record)) => {
            let mut out = "本地对账完成，但记录结果失败：".to_owned();
            out.append(record.as_str());
            Err(out)
        },
        (Err(error), Err(record)) => {
            let mut out = error;
            out.append("；记录本地对账失败：");
            out.append(record.as_str());
            Err(out)
        },
    }
}

/// The state directory that arguments name: the value after the first `--state-dir` at
/// or after `from` that has one.
pub open spec fn named_dir(args: Seq<Seq<char>>, from: int) -> Option<Seq<char>>
    decreases args.len() - from,
{
    if from < 0 || from >= args.len() {
        None
    } else if args[from] == "--state-dir"@ && from + 1 < args.len() {
        Some(args[from + 1])
    } else {
        named_dir(args, from + 1)
    }
}

/// The state directory for commands that need no server: the arguments', the
/// environment's, or the usual one.
pub fn health_state_dir(args: &Vec<String>, variable: Option<&str>) -> (r: String)
    ensures
        r@ == (match named_dir(text::string_views(args@), 0) {
            Some(d) => d,
            None => match variable {
                Some(v) => v@,
                None => "./brocade-agent-state"@,
            },
        }),
{
    let ghost all = text::string_views(args@);
    let n: usize = args.len();
    let mut i: usize = 0;
    assert(all.len() == n);
    while i < n
        invariant
            i <= n,
            n == args@.len(),
            all.len() == n,
            all == text::string_views(args@),
            named_dir(all, 0) == named_dir(all, i as int),
        decreases n - i,
    {
        assert(all[i as int] == args@[i as int]@);
        if text::same_str(args[i].as_str(), "--state-dir") && n - i > 1 {
            assert(all[i + 1] == args@[i + 1]@);
            return args[i + 1].as_str().to_owned();
        }
        i = i + 1;
    }
    match variable {
        Some(v) => v.to_owned(),
        None => "./brocade-agent-state".to_owned(),
    }
}

/// Each part is replayed exactly where it is kept and not taken down, and either everything is
/// replayed or it is not as it should be: a wanted process of the disguise layer is broken, the
/// tunnel has no interface or one of another size, a table has other rules, the proxy is
/// broken, or other accounts are let in than should be. Accounts are replayed too where the
/// proxy is, and only where they are kept.
pub proof fn lemma_each_part_is_replayed_where_broken(force: bool, f: Findings)
    ensures
        ({
            let parts = chosen(force, f, 6);
            let proxy = f.xray.present && !f.xray.disabled;
            &&& parts.contains(Part::Phantun) <==> f.phantun.present && !f.phantun.disabled && (force
                || (f.phantun_wanted && f.phantun_broken))
            &&& parts.contains(Part::Wireguard) <==> f.wireguard.present && !f.wireguard.disabled && (
            force || !f.wg_interface || (f.wg_wanted_mtu is Some && f.wg_live_mtu
                != f.wg_wanted_mtu))
            &&& parts.contains(Part::PortHop) <==> f.port_hop.present && !f.port_hop.disabled && (
            force || !f.port_hop_matches)
            &&& parts.contains(Part::Xray) <==> proxy && (force || f.xray_broken)
            &&& parts.contains(Part::Conntrack) <==> proxy && (force || !f.conntrack_matches)
            &&& parts.contains(Part::Grants) <==> proxy && f.grants_kept && (force || f.xray_broken
                || f.grants_drifted)
        }),
{
    lemma_chosen_holds(force, f, 6, 0);
    lemma_chosen_holds(force, f, 6, 1);
    lemma_chosen_holds(force, f, 6, 2);
    lemma_chosen_holds(force, f, 6, 3);
    lemma_chosen_holds(force, f, 6, 4);
    lemma_chosen_holds(force, f, 6, 5);
}

proof fn lemma_chosen_holds(force: bool, f: Findings, n: int, k: int)
    requires
        0 <= k < 6,
        0 <= n <= 6,
    ensures
        chosen(force, f, n).contains(all_parts()[k]) <==> k < n && needed(all_parts()[k], force, f),
    decreases n,
{
    if n > 0 {
        lemma_chosen_holds(force, f, n - 1, k);
        let front = chosen(force, f, n - 1);
        let part = all_parts()[n - 1];
        let all = chosen(force, f, n);
        if needed(part, force, f) {
            assert(all == front.push(part));
            assert(all[all.len() - 1] == part);
            if front.contains(all_parts()[k]) {
                let i = choose|i: int| 0 <= i < front.len() && front[i] == all_parts()[k];
                assert(all[i] == all_parts()[k]);
            }
            if all.contains(all_parts()[k]) && k != n - 1 {
                let i = choose|i: int| 0 <= i < all.len() && all[i] == all_parts()[k];
                assert(i < front.len());
                assert(front[i] == all_parts()[k]);
            }
        }
    }
}

/// Whether one part is never replayed behind another.
pub open spec fn precedes(parts: Seq<Part>, first: Part, second: Part) -> bool {
    forall|i: int, j: int|
        0 <= i < parts.len() && 0 <= j < parts.len() && #[trigger] parts[i] == first
            && #[trigger] parts[j] == second ==> i < j
}

/// The disguise layer is replayed before the tunnel that points at it, the tunnel before the
/// proxy that speaks through it, and the proxy before what is taken from its configuration and
/// before the accounts that are put into it.
pub proof fn lemma_parts_are_replayed_in_order(force: bool, f: Findings)
    ensures
        precedes(chosen(force, f, 6), Part::Phantun, Part::Wireguard),
        precedes(chosen(force, f, 6), Part::Wireguard, Part::Xray),
        precedes(chosen(force, f, 6), Part::Xray, Part::Conntrack),
        precedes(chosen(force, f, 6), Part::Xray, Part::Grants),
        precedes(chosen(force, f, 6), Part::Conntrack, Part::Grants),
{
    lemma_lower_rank_precedes(force, f, Part::Phantun, Part::Wireguard);
    lemma_lower_rank_precedes(force, f, Part::Wireguard, Part::Xray);
    lemma_lower_rank_precedes(force, f, Part::Xray, Part::Conntrack);
    lemma_lower_rank_precedes(force, f, Part::Xray, Part::Grants);
    lemma_lower_rank_precedes(force, f, Part::Conntrack, Part::Grants);
}

proof fn lemma_lower_rank_precedes(force: bool, f: Findings, first: Part, second: Part)
    requires
        rank(first) < rank(second),
    ensures
        precedes(chosen(force, f, 6), first, second),
{
    lemma_replay_keeps_its_order(force, f);
    let parts = chosen(force, f, 6);
    assert forall|i: int, j: int|
        0 <= i < parts.len() && 0 <= j < parts.len() && #[trigger] parts[i] == first
            && #[trigger] parts[j] == second implies i < j by {
        if j < i {
            assert(rank(parts[j]) < rank(parts[i]));
        }
    }
}

/// A directory is named by what stands behind the first option for it, wherever that stands.
pub proof fn lemma_directory_stands_behind_its_option(
    before: Seq<Seq<char>>,
    dir: Seq<char>,
    behind: Seq<Seq<char>>,
    from: int,
)
    requires
        0 <= from <= before.len(),
        forall|i: int| 0 <= i < before.len() ==> #[trigger] before[i] != "--state-dir"@,
    ensures
        named_dir(before + seq!["--state-dir"@, dir] + behind, from) == Some(dir),
        named_dir(before, from) is None,
    decreases before.len() - from,
{
    let args = before + seq!["--state-dir"@, dir] + behind;
    let at = before.len() as int;
    assert(args[at] == "--state-dir"@ && args[at + 1] == dir);
    if from < at {
        assert(args[from] == before[from]);
        lemma_directory_stands_behind_its_option(before, dir, behind, from + 1);
    }
}

} // verus!
