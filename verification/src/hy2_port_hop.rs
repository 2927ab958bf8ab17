//! Port hopping: folding a range of UDP ports onto one listener.
//!
//! The redirects live in a table of their own, rebuilt whole. ICMP is kept out
//! of connection tracking in the same table, in both families and both
//! directions: once the tracking table is full the machine drops new flows, the
//! hopping ones among them.
use vstd::prelude::*;
use vstd::string::*;

use crate::json::{parse_json, Json};
use crate::plan::DesiredArtifact;
use crate::{conntrack, json, numbers, text};

verus! {

/// One range folded onto one port.
#[derive(Debug, Clone, Copy, PartialEq, Eq, Structural)]
pub struct Redirect {
    pub start: u16,
    pub end: u16,
    pub to: u16,
}

impl Redirect {
    /// The listener lies inside the range it serves.
    pub open spec fn valid(self) -> bool {
        self.start <= self.to <= self.end
    }

    pub open spec fn triple(self) -> (u16, u16, u16) {
        (self.start, self.end, self.to)
    }
}

/// What is said of a port that is missing or does not fit.
pub open spec fn missing(name: Seq<char>) -> Seq<char> {
    "hy2_port_hop.json: redirects[]."@ + name + " 缺失或越界"@
}

/// The redirect that one entry asks for, or what is wrong with it.
pub open spec fn redirect_of(item: Json) -> Result<Redirect, Seq<char>> {
    match item.u16_at("start"@) {
        None => Err(missing("start"@)),
        Some(start) => match item.u16_at("end"@) {
            None => Err(missing("end"@)),
            Some(end) => match item.u16_at("to"@) {
                None => Err(missing("to"@)),
                Some(to) => if start > end {
                    Err(
                        "hy2_port_hop.json: 区间 "@ + numbers::decimal(start as int) + "-"@
                            + numbers::decimal(end as int) + " 起点大于终点"@,
                    )
                } else if to < start || to > end {
                    Err(
                        "hy2_port_hop.json: 区间 "@ + numbers::decimal(start as int) + "-"@
                            + numbers::decimal(end as int) + " 不包含监听口 "@ + numbers::decimal(
                            to as int,
                        ),
                    )
                } else {
                    Ok(Redirect { start, end, to })
                },
            },
        },
    }
}

/// The redirects that a list asks for; the first bad entry decides.
pub open spec fn redirects_of(items: Seq<Json>) -> Result<Seq<Redirect>, Seq<char>>
    decreases items.len(),
{
    if items.len() == 0 {
        Ok(seq![])
    } else {
        match redirects_of(items.drop_last()) {
            Err(e) => Err(e),
            Ok(front) => match redirect_of(items.last()) {
                Err(e) => Err(e),
                Ok(r) => Ok(front.push(r)),
            },
        }
    }
}

/// The redirects that an artifact text asks for.
pub open spec fn parsed(content: Seq<char>) -> Result<Seq<Redirect>, Seq<char>> {
    match json::json_of(content) {
        Err(error) => Err("hy2_port_hop.json 解析失败："@ + error),
        Ok(value) => redirects_of(value.items_at("redirects"@)),
    }
}

fn missing_text(name: &str) -> (r: String)
    ensures
        r@ == missing(name@),
{
    let mut e = "hy2_port_hop.json: redirects[].".to_owned();
    e.append(name);
    e.append(" 缺失或越界");
    e
}

fn read_redirect(item: &Json) -> (r: Result<Redirect, String>)
    ensures
        match r {
            Ok(v) => redirect_of(*item) == Ok::<Redirect, Seq<char>>(v),
            Err(e) => redirect_of(*item) == Err::<Redirect, Seq<char>>(e@),
        },
{
    let start = match item.u16_of("start") {
        None => {
            return Err(missing_text("start"));
        },
        Some(start) => start,
    };
    let end = match item.u16_of("end") {
        None => {
            return Err(missing_text("end"));
        },
        Some(end) => end,
    };
    let to = match item.u16_of("to") {
        None => {
            return Err(missing_text("to"));
        },
        Some(to) => to,
    };
    if start > end {
        let mut e = "hy2_port_hop.json: 区间 ".to_owned();
        numbers::push_decimal(&mut e, start as u64);
        e.append("-");
        numbers::push_decimal(&mut e, end as u64);
        e.append(" 起点大于终点");
        return Err(e);
    }
    if to < start || to > end {
        let mut e = "hy2_port_hop.json: 区间 ".to_owned();
        numbers::push_decimal(&mut e, start as u64);
        e.append("-");
        numbers::push_decimal(&mut e, end as u64);
        e.append(" 不包含监听口 ");
        numbers::push_decimal(&mut e, to as u64);
        return Err(e);
    }
    Ok(Redirect { start, end, to })
}

/// Reads a list of redirects.
pub fn read_redirects(items: &[Json]) -> (r: Result<Vec<Redirect>, String>)
    ensures
        match r {
            Ok(v) => redirects_of(items@) == Ok::<Seq<Redirect>, Seq<char>>(v@),
            Err(e) => redirects_of(items@) == Err::<Seq<Redirect>, Seq<char>>(e@),
        },
{
    let mut out: Vec<Redirect> = Vec::new();
    let mut failure: Option<String> = None;
    let mut i: usize = 0;
    while i < items.len()
        invariant
            i <= items.len(),
            match failure {
                None => redirects_of(items@.take(i as int)) == Ok::<Seq<Redirect>, Seq<char>>(out@),
                Some(e) => redirects_of(items@.take(i as int)) == Err::<Seq<Redirect>, Seq<char>>(
                    e@,
                ),
            },
        decreases items.len() - i,
    {
        assert(items@.take(i + 1).drop_last() == items@.take(i as int));
        if failure.is_none() {
            match read_redirect(&items[i]) {
                Ok(r) => {
                    out.push(r);
                },
                Err(e) => {
                    failure = Some(e);
                },
            }
        }
        i = i + 1;
    }
    assert(items@.take(i as int) == items@);
    match failure {
        None => Ok(out),
        Some(e) => Err(e),
    }
}

/// Reads the artifact. One without a list asks for no redirects.
pub fn parse(content: &str) -> (r: Result<Vec<Redirect>, String>)
    ensures
        match r {
            Ok(v) => parsed(content@) == Ok::<Seq<Redirect>, Seq<char>>(v@),
            Err(e) => parsed(content@) == Err::<Seq<Redirect>, Seq<char>>(e@),
        },
{
    match parse_json(content) {
        Err(error) => {
            let mut e = "hy2_port_hop.json 解析失败：".to_owned();
            e.append(error.as_str());
            Err(e)
        },
        Ok(value) => read_redirects(value.items_of("redirects")),
    }
}

/// Whatever is accepted serves its listener: every redirect of an accepted list
/// has its target inside its range.
pub proof fn lemma_accepted_ranges_hold_their_listener(items: Seq<Json>)
    ensures
        redirects_of(items) matches Ok(list) ==> forall|i: int|
            0 <= i < list.len() ==> (#[trigger] list[i]).valid(),
    decreases items.len(),
{
    if items.len() > 0 {
        lemma_accepted_ranges_hold_their_listener(items.drop_last());
    }
}

/// The rule that folds one range.
pub open spec fn rule(r: Redirect) -> Seq<char> {
    "add rule inet brocade_hy2_port_hop prerouting udp dport "@ + numbers::decimal(r.start as int)
        + "-"@ + numbers::decimal(r.end as int) + " redirect to :"@ + numbers::decimal(r.to as int)
}

/// One rule per redirect, in order.
pub open spec fn rules(redirects: Seq<Redirect>) -> Seq<Seq<char>> {
    redirects.map_values(|r: Redirect| rule(r))
}

/// The rule lines: one per range.
pub fn rule_lines(redirects: &[Redirect]) -> (r: Vec<String>)
    ensures
        text::string_views(r@) == rules(redirects@),
{
    let mut out: Vec<String> = Vec::new();
    let mut i: usize = 0;
    while i < redirects.len()
        invariant
            i <= redirects.len(),
            text::string_views(out@) == rules(redirects@).take(i as int),
        decreases redirects.len() - i,
    {
        let mut a = "add rule inet brocade_hy2_port_hop prerouting udp dport ".to_owned();
        numbers::push_decimal(&mut a, redirects[i].start as u64);
        a.append("-");
        numbers::push_decimal(&mut a, redirects[i].end as u64);
        a.append(" redirect to :");
        numbers::push_decimal(&mut a, redirects[i].to as u64);
        let ghost before = out@;
        out.push(a);
        assert(text::string_views(out@) == text::string_views(before).push(a@));
        assert(rules(redirects@).take(i as int).push(rules(redirects@)[i as int]) == rules(
            redirects@,
        ).take(i + 1));
        i = i + 1;
    }
    assert(rules(redirects@).take(i as int) == rules(redirects@));
    out
}

/// The ICMP rules: both families, both directions.
pub open spec fn notrack_rules() -> Seq<Seq<char>> {
    seq![
        "add rule inet brocade_hy2_port_hop prerouting_raw ip protocol icmp notrack"@,
        "add rule inet brocade_hy2_port_hop prerouting_raw ip6 nexthdr icmpv6 notrack"@,
        "add rule inet brocade_hy2_port_hop output_raw ip protocol icmp notrack"@,
        "add rule inet brocade_hy2_port_hop output_raw ip6 nexthdr icmpv6 notrack"@,
    ]
}

/// The lines that keep ICMP out of connection tracking.
pub fn notrack_lines() -> (r: Vec<String>)
    ensures
        text::string_views(r@) == notrack_rules(),
{
    let mut out: Vec<String> = Vec::new();
    out.push(
        "add rule inet brocade_hy2_port_hop prerouting_raw ip protocol icmp notrack".to_owned(),
    );
    out.push(
        "add rule inet brocade_hy2_port_hop prerouting_raw ip6 nexthdr icmpv6 notrack".to_owned(),
    );
    out.push("add rule inet brocade_hy2_port_hop output_raw ip protocol icmp notrack".to_owned());
    out.push("add rule inet brocade_hy2_port_hop output_raw ip6 nexthdr icmpv6 notrack".to_owned());
    assert(text::string_views(out@) =~= notrack_rules());
    out
}

/// The script that replaces the table by one with these redirects.
pub open spec fn install_script(redirects: Seq<Redirect>) -> Seq<char> {
    "set -eu
command -v nft >/dev/null 2>&1 || { echo '需要 nft（nftables）才能做端口跳转' >&2; exit 1; }
nft delete table inet brocade_hy2_port_hop 2>/dev/null || true
nft -f - <<'NFT'
table inet brocade_hy2_port_hop {
chain prerouting { type nat hook prerouting priority -100; }
chain prerouting_raw { type filter hook prerouting priority raw; }
chain output_raw { type filter hook output priority raw; }
}
"@ + text::join(rules(redirects), "\n"@) + "\n"@ + text::join(notrack_rules(), "\n"@) + "
NFT
"@
}

/// The script that takes the table down. An absent table is success.
pub open spec fn disable_script() -> Seq<char> {
    "nft delete table inet brocade_hy2_port_hop 2>/dev/null || true"@
}

/// The script that installs these redirects.
pub fn install(redirects: &[Redirect]) -> (r: String)
    ensures
        r@ == install_script(redirects@),
{
    let rules = text::join_strings(&rule_lines(redirects), "\n");
    let notrack = text::join_strings(&notrack_lines(), "\n");
    let mut out = "set -eu
command -v nft >/dev/null 2>&1 || { echo '需要 nft（nftables）才能做端口跳转' >&2; exit 1; }
nft delete table inet brocade_hy2_port_hop 2>/dev/null || true
nft -f - <<'NFT'
table inet brocade_hy2_port_hop {
chain prerouting { type nat hook prerouting priority -100; }
chain prerouting_raw { type filter hook prerouting priority raw; }
chain output_raw { type filter hook output priority raw; }
}
".to_owned();
    out.append(rules.as_str());
    out.append("\n");
    out.append(notrack.as_str());
    out.append("
NFT
");
    out
}

/// The script that takes the table down.
pub fn disable() -> (r: String)
    ensures
        r@ == disable_script(),
{
    "nft delete table inet brocade_hy2_port_hop 2>/dev/null || true".to_owned()
}

/// The script for a list of redirects: none takes the table down.
pub open spec fn script_of(redirects: Seq<Redirect>) -> Seq<char> {
    if redirects.len() == 0 {
        disable_script()
    } else {
        install_script(redirects)
    }
}

/// The script to run for an artifact text.
pub fn apply_content(content: &str) -> (r: Result<String, String>)
    ensures
        match r {
            Ok(script) => parsed(content@) matches Ok(list) && script@ == script_of(list),
            Err(e) => parsed(content@) == Err::<Seq<Redirect>, Seq<char>>(e@),
        },
{
    match parse(content) {
        Err(e) => Err(e),
        Ok(redirects) => if redirects.len() == 0 {
            Ok(disable())
        } else {
            Ok(install(redirects.as_slice()))
        },
    }
}

/// The script to run for a desired artifact: none where this agent does not manage it.
pub fn apply(desired: &DesiredArtifact) -> (r: Result<Option<String>, String>)
    ensures
        match desired {
            DesiredArtifact::Present { content, .. } => match r {
                Ok(script) => script matches Some(s) && parsed(content@) matches Ok(list) && s@
                    == script_of(list),
                Err(e) => parsed(content@) == Err::<Seq<Redirect>, Seq<char>>(e@),
            },
            DesiredArtifact::Disabled { .. } => r matches Ok(Some(s)) && s@ == disable_script(),
            DesiredArtifact::Unmanaged { .. } => r matches Ok(None),
        },
{
    match desired {
        DesiredArtifact::Present { content, .. } => match apply_content(content.as_str()) {
            Ok(script) => Ok(Some(script)),
            Err(e) => Err(e),
        },
        DesiredArtifact::Disabled { .. } => Ok(Some(disable())),
        DesiredArtifact::Unmanaged { .. } => Ok(None),
    }
}

/// The heading of the chain that line `i` stands in: the nearest one above it.
pub open spec fn enclosing(lines: Seq<Seq<char>>, i: int) -> Option<Seq<char>>
    decreases i,
{
    if i <= 0 || i > lines.len() {
        None
    } else if text::starts_with(text::trim(lines[i - 1]), "chain "@) {
        Some(text::trim(lines[i - 1]))
    } else {
        enclosing(lines, i - 1)
    }
}

/// Whether line `i` stands in a chain whose heading mentions `chain`.
pub open spec fn inside(lines: Seq<Seq<char>>, i: int, chain: Seq<char>) -> bool {
    enclosing(lines, i) matches Some(heading) && text::contains_sub(heading, chain)
}

/// Whether `rule` is line `i`, inside `chain`.
pub open spec fn rule_at(
    lines: Seq<Seq<char>>,
    i: int,
    chain: Seq<char>,
    rule: Seq<char>,
) -> bool {
    text::trim(lines[i]) == rule && inside(lines, i, chain)
}

/// Whether one of the first `n` lines is `rule`, inside `chain`.
pub open spec fn holds_rule(
    lines: Seq<Seq<char>>,
    n: int,
    chain: Seq<char>,
    rule: Seq<char>,
) -> bool {
    exists|i: int| 0 <= i < n && #[trigger] rule_at(lines, i, chain, rule)
}

/// Whether all four ICMP rules are in their chains, as `nft` prints them.
pub open spec fn notrack_in(lines: Seq<Seq<char>>) -> bool {
    let n = lines.len() as int;
    &&& holds_rule(lines, n, "prerouting_raw"@, "ip protocol icmp notrack"@)
    &&& holds_rule(lines, n, "prerouting_raw"@, "ip6 nexthdr ipv6-icmp notrack"@)
    &&& holds_rule(lines, n, "output_raw"@, "ip protocol icmp notrack"@)
    &&& holds_rule(lines, n, "output_raw"@, "ip6 nexthdr ipv6-icmp notrack"@)
}

proof fn lemma_holds_rule_step(lines: Seq<Seq<char>>, n: int, chain: Seq<char>, rule: Seq<char>)
    requires
        0 <= n < lines.len(),
    ensures
        holds_rule(lines, n + 1, chain, rule) == (holds_rule(lines, n, chain, rule) || rule_at(
            lines,
            n,
            chain,
            rule,
        )),
{
    if holds_rule(lines, n, chain, rule) {
        let i = choose|i: int| 0 <= i < n && #[trigger] rule_at(lines, i, chain, rule);
        assert(rule_at(lines, i, chain, rule));
    }
}

/// The four ICMP rules, in their chains, are present in `nft list table` output.
pub fn notrack_present(listing: &str) -> (r: bool)
    ensures
        r == notrack_in(text::lines(listing@)),
{
    let chars = text::chars_of(listing);
    let lines = text::split_lines(chars.as_slice());
    let ghost all = text::views(lines@);
    let mut in_pre = false;
    let mut in_out = false;
    let mut pre4 = false;
    let mut pre6 = false;
    let mut out4 = false;
    let mut out6 = false;
    let mut i: usize = 0;
    while i < lines.len()
        invariant
            i <= lines.len(),
            all == text::views(lines@),
            in_pre == inside(all, i as int, "prerouting_raw"@),
            in_out == inside(all, i as int, "output_raw"@),
            pre4 == holds_rule(all, i as int, "prerouting_raw"@, "ip protocol icmp notrack"@),
            pre6 == holds_rule(all, i as int, "prerouting_raw"@, "ip6 nexthdr ipv6-icmp notrack"@),
            out4 == holds_rule(all, i as int, "output_raw"@, "ip protocol icmp notrack"@),
            out6 == holds_rule(all, i as int, "output_raw"@, "ip6 nexthdr ipv6-icmp notrack"@),
        decreases lines.len() - i,
    {
        let line = text::trimmed(lines[i]);
        let echo4 = text::same(line, "ip protocol icmp notrack");
        let echo6 = text::same(line, "ip6 nexthdr ipv6-icmp notrack");
        proof {
            assert(all[i as int] == lines@[i as int]@);
            lemma_holds_rule_step(all, i as int, "prerouting_raw"@, "ip protocol icmp notrack"@);
            lemma_holds_rule_step(
                all,
                i as int,
                "prerouting_raw"@,
                "ip6 nexthdr ipv6-icmp notrack"@,
            );
            lemma_holds_rule_step(all, i as int, "output_raw"@, "ip protocol icmp notrack"@);
            lemma_holds_rule_step(all, i as int, "output_raw"@, "ip6 nexthdr ipv6-icmp notrack"@);
        }
        pre4 = pre4 || (in_pre && echo4);
        pre6 = pre6 || (in_pre && echo6);
        out4 = out4 || (in_out && echo4);
        out6 = out6 || (in_out && echo6);
        if text::begins(line, "chain ") {
            in_pre = text::contains(line, "prerouting_raw");
            in_out = text::contains(line, "output_raw");
        }
        i = i + 1;
    }
    pre4 && pre6 && out4 && out6
}

/// Whether the ICMP rules are installed; a listing that could not be had has none.
pub fn notrack_installed(listing: Option<&str>) -> (r: bool)
    ensures
        r == match listing {
            Some(t) => notrack_in(text::lines(t@)),
            None => false,
        },
{
    match listing {
        Some(t) => notrack_present(t),
        None => false,
    }
}

/// The first word of a text, as a port.
pub open spec fn first_port(s: Seq<char>) -> Option<u16> {
    if text::words(s).len() > 0 {
        numbers::as_u16(text::words(s)[0])
    } else {
        None
    }
}

/// The redirect that one line of a table listing shows.
pub open spec fn installed_redirect(line: Seq<char>) -> Option<(u16, u16, u16)> {
    match text::strip_prefix(text::trim(line), "udp dport "@) {
        None => None,
        Some(rest) => match text::split_once_sub(rest, " redirect to :"@) {
            None => None,
            Some((range, target)) => match text::split_once(range, '-') {
                None => None,
                Some((start, end)) => match (
                    numbers::as_u16(text::trim(start)),
                    numbers::as_u16(text::trim(end)),
                    first_port(target),
                ) {
                    (Some(a), Some(b), Some(c)) => Some((a, b, c)),
                    _ => None,
                },
            },
        },
    }
}

/// The redirects that a table listing shows, in order.
pub open spec fn listed_redirects(lines: Seq<Seq<char>>) -> Seq<(u16, u16, u16)>
    decreases lines.len(),
{
    if lines.len() == 0 {
        seq![]
    } else {
        let front = listed_redirects(lines.drop_last());
        match installed_redirect(lines.last()) {
            Some(t) => front.push(t),
            None => front,
        }
    }
}

/// The redirects on a machine whose table listing is `listing`.
pub open spec fn installed_redirects(listing: Option<Seq<char>>) -> Seq<(u16, u16, u16)> {
    match listing {
        Some(t) => listed_redirects(text::lines(t)),
        None => seq![],
    }
}

fn read_installed_redirect(line: &[char]) -> (r: Option<(u16, u16, u16)>)
    ensures
        r == installed_redirect(line@),
{
    match text::after_prefix(text::trimmed(line), "udp dport ") {
        None => None,
        Some(rest) => match text::cut_once_sub(rest, " redirect to :") {
            None => None,
            Some((range, target)) => match text::cut_once(range, '-') {
                None => None,
                Some((start, end)) => {
                    let words = text::split_words(target);
                    assert(text::views(words@).len() == words@.len());
                    let to: Option<u16> = if words.len() > 0 {
                        assert(text::views(words@)[0] == words@[0]@);
                        numbers::read_u16(words[0])
                    } else {
                        None
                    };
                    match (
                        numbers::read_u16(text::trimmed(start)),
                        numbers::read_u16(text::trimmed(end)),
                        to,
                    ) {
                        (Some(a), Some(b), Some(c)) => Some((a, b, c)),
                        _ => None,
                    }
                },
            },
        },
    }
}

/// What is actually installed, read from the output of `nft list table`.
pub fn installed(listing: Option<&str>) -> (r: Vec<(u16, u16, u16)>)
    ensures
        r@ == installed_redirects(conntrack::listing_view(listing)),
{
    let mut out: Vec<(u16, u16, u16)> = Vec::new();
    match listing {
        None => {
            assert(out@ =~= seq![]);
        },
        Some(t) => {
            let chars = text::chars_of(t);
            let lines = text::split_lines(chars.as_slice());
            let ghost all = text::views(lines@);
            let mut i: usize = 0;
            while i < lines.len()
                invariant
                    i <= lines.len(),
                    all == text::views(lines@),
                    out@ == listed_redirects(all.take(i as int)),
                decreases lines.len() - i,
            {
                assert(all.take(i + 1).drop_last() == all.take(i as int));
                assert(all.take(i + 1).last() == lines@[i as int]@);
                match read_installed_redirect(lines[i]) {
                    Some(t) => {
                        out.push(t);
                    },
                    None => {},
                }
                i = i + 1;
            }
            assert(all.take(i as int) == all);
        },
    }
    out
}

/// The redirects an artifact text asks for; none where it cannot be read.
pub open spec fn wanted(content: Seq<char>) -> Seq<(u16, u16, u16)> {
    match parsed(content) {
        Ok(list) => list.map_values(|r: Redirect| r.triple()),
        Err(_) => seq![],
    }
}

fn same_triple(a: (u16, u16, u16), b: (u16, u16, u16)) -> (r: bool)
    ensures
        r == (a == b),
{
    a.0 == b.0 && a.1 == b.1 && a.2 == b.2
}

/// Whether two lists hold the same triples, in whatever order.
fn same_triples(a: &Vec<(u16, u16, u16)>, b: &Vec<(u16, u16, u16)>) -> (r: bool)
    ensures
        r == (a@.to_multiset() == b@.to_multiset()),
{
    broadcast use vstd::multiset::group_multiset_axioms;
    broadcast use vstd::seq_lib::group_to_multiset_ensures;

    let mut rest: Vec<(u16, u16, u16)> = Vec::new();
    let mut c: usize = 0;
    while c < b.len()
        invariant
            c <= b.len(),
            rest@ == b@.take(c as int),
        decreases b.len() - c,
    {
        rest.push(b[c]);
        c = c + 1;
        assert(rest@ == b@.take(c as int));
    }
    assert(rest@ == b@);
    let mut i: usize = 0;
    assert(a@.take(0) =~= Seq::<(u16, u16, u16)>::empty());
    assert(a@.take(0).to_multiset().add(rest@.to_multiset()) =~= b@.to_multiset());
    while i < a.len()
        invariant
            i <= a.len(),
            a@.take(i as int).to_multiset().add(rest@.to_multiset()) == b@.to_multiset(),
        decreases a.len() - i,
    {
        let mut k: usize = 0;
        while k < rest.len() && !same_triple(rest[k], a[i])
            invariant
                k <= rest.len(),
                i < a.len(),
                forall|j: int| 0 <= j < k ==> rest@[j] != a@[i as int],
            decreases rest.len() - k,
        {
            k = k + 1;
        }
        proof {
            assert(a@.take(i + 1) == a@.take(i as int).push(a@[i as int]));
        }
        if k == rest.len() {
            proof {
                let x = a@[i as int];
                rest@.to_multiset_ensures();
                a@.take(i as int).to_multiset_ensures();
                assert(!rest@.contains(x));
                assert(rest@.to_multiset().count(x) == 0);
                let whole = a@;
                assert(whole == a@.take(i + 1) + a@.skip(i + 1));
                vstd::seq_lib::lemma_multiset_commutative(a@.take(i + 1), a@.skip(i + 1));
                assert(a@.to_multiset().count(x) >= a@.take(i + 1).to_multiset().count(x));
                assert(a@.take(i + 1).to_multiset().count(x) == a@.take(
                    i as int,
                ).to_multiset().count(x) + 1);
                assert(b@.to_multiset().count(x) == a@.take(i as int).to_multiset().count(x));
            }
            return false;
        }
        let ghost before = rest@;
        let gone = rest.remove(k);
        proof {
            before.to_multiset_ensures();
            a@.take(i as int).to_multiset_ensures();
            assert(before[k as int] == a@[i as int]);
            assert(before.contains(a@[i as int]));
            assert(rest@ == before.remove(k as int));
            assert(before.to_multiset().count(a@[i as int]) > 0);
            assert(rest@.to_multiset() =~= before.to_multiset().remove(a@[i as int]));
            assert(a@.take(i + 1).to_multiset() =~= a@.take(i as int).to_multiset().insert(
                a@[i as int],
            ));
            assert(a@.take(i + 1).to_multiset().add(rest@.to_multiset()) =~= b@.to_multiset());
        }
        i = i + 1;
    }
    assert(a@.take(i as int) == a@);
    if rest.len() == 0 {
        proof {
            assert(rest@ =~= Seq::<(u16, u16, u16)>::empty());
            assert(a@.to_multiset() =~= b@.to_multiset());
        }
        true
    } else {
        proof {
            let x = rest@[0];
            rest@.to_multiset_ensures();
            assert(rest@.contains(x));
            assert(rest@.to_multiset().count(x) > 0);
            assert(a@.to_multiset().add(rest@.to_multiset()).count(x) == a@.to_multiset().count(x)
                + rest@.to_multiset().count(x));
        }
        false
    }
}

/// Whether the machine already matches this artifact text: the same redirects,
/// in whatever order, and the ICMP rules.
pub open spec fn content_matches(content: Seq<char>, listing: Option<Seq<char>>) -> bool {
    &&& wanted(content).to_multiset() == installed_redirects(listing).to_multiset()
    &&& listing matches Some(t) && notrack_in(text::lines(t))
}

/// Whether the machine already matches this artifact text.
pub fn matches_content(content: &str, listing: Option<&str>) -> (r: bool)
    ensures
        r == content_matches(content@, conntrack::listing_view(listing)),
{
    let mut triples: Vec<(u16, u16, u16)> = Vec::new();
    match parse(content) {
        Ok(list) => {
            let mut i: usize = 0;
            while i < list.len()
                invariant
                    i <= list.len(),
                    triples@ == list@.map_values(|r: Redirect| r.triple()).take(i as int),
                decreases list.len() - i,
            {
                triples.push((list[i].start, list[i].end, list[i].to));
                i = i + 1;
                assert(triples@ == list@.map_values(|r: Redirect| r.triple()).take(i as int));
            }
            assert(triples@ == list@.map_values(|r: Redirect| r.triple()));
        },
        Err(_) => {
            assert(triples@ =~= seq![]);
        },
    }
    let found = installed(listing);
    same_triples(&triples, &found) && notrack_installed(listing)
}

/// Whether the machine matches the artifact.
pub fn matches(desired: &DesiredArtifact, listing: Option<&str>) -> (r: bool)
    ensures
        r == match desired {
            DesiredArtifact::Present { content, .. } => content_matches(
                content@,
                conntrack::listing_view(listing),
            ),
            DesiredArtifact::Disabled { .. } => installed_redirects(
                conntrack::listing_view(listing),
            ).len() == 0,
            DesiredArtifact::Unmanaged { .. } => true,
        },
{
    match desired {
        DesiredArtifact::Present { content, .. } => matches_content(content.as_str(), listing),
        DesiredArtifact::Disabled { .. } => installed(listing).len() == 0,
        DesiredArtifact::Unmanaged { .. } => true,
    }
}

/// How `nft list table` prints a redirect.
pub open spec fn printed_redirect(r: Redirect) -> Seq<char> {
    "udp dport "@ + numbers::decimal(r.start as int) + "-"@ + numbers::decimal(r.end as int)
        + " redirect to :"@ + numbers::decimal(r.to as int)
}

proof fn lemma_word_of_digits(s: Seq<char>, from: int)
    requires
        0 <= from <= s.len(),
        forall|i: int| 0 <= i < s.len() ==> '0' <= #[trigger] s[i] <= '9',
    ensures
        text::word_end(s, from) == s.len(),
    decreases s.len() - from,
{
    if from < s.len() {
        assert('0' <= s[from] <= '9');
        lemma_word_of_digits(s, from + 1);
    }
}

/// A printed redirect reads back as it, however the line is indented.
pub proof fn lemma_printed_redirect_reads_back(line: Seq<char>, r: Redirect)
    requires
        text::trim(line) == printed_redirect(r),
    ensures
        installed_redirect(line) == Some(r.triple()),
{
    let a = numbers::decimal(r.start as int);
    let b = numbers::decimal(r.end as int);
    let c = numbers::decimal(r.to as int);
    let prefix = "udp dport "@;
    let middle = " redirect to :"@;
    let printed = printed_redirect(r);
    reveal_strlit("udp dport ");
    reveal_strlit(" redirect to :");
    reveal_strlit("-");
    numbers::lemma_decimal_digits(r.start as int);
    numbers::lemma_decimal_digits(r.end as int);
    numbers::lemma_decimal_digits(r.to as int);
    numbers::lemma_parse_decimal(r.start as int, u16::MAX as int);
    numbers::lemma_parse_decimal(r.end as int, u16::MAX as int);
    numbers::lemma_parse_decimal(r.to as int, u16::MAX as int);
    assert(printed.subrange(0, prefix.len() as int) == prefix);
    let rest = printed.skip(prefix.len() as int);
    let range = a + "-"@ + b;
    assert(rest == range + middle + c);
    let k = range.len() as int;
    assert(rest.subrange(k, k + middle.len()) == middle);
    assert forall|j: int| 0 <= j < k implies #[trigger] rest[j] != middle[0] by {
        assert(rest[j] == range[j]);
        if j < a.len() {
            assert(range[j] == a[j]);
        } else if j > a.len() {
            assert(range[j] == b[j - a.len() - 1]);
        }
    }
    text::lemma_find_sub_at(rest, middle, 0, k);
    assert(rest.take(k) == range);
    assert(rest.skip(k + middle.len()) == c);
    assert forall|j: int| 0 <= j < a.len() implies #[trigger] range[j] != '-' by {
        assert(range[j] == a[j]);
    }
    text::lemma_find_char_at(range, '-', 0, a.len() as int);
    assert(range.take(a.len() as int) == a);
    assert(range.skip(a.len() as int + 1) == b);
    assert(a.last() == a[a.len() - 1] && b.last() == b[b.len() - 1]);
    text::lemma_trim_of_trimmed(a);
    text::lemma_trim_of_trimmed(b);
    assert(!text::is_space(c[0]));
    lemma_word_of_digits(c, 0);
    assert(c.take(c.len() as int) == c);
    assert(text::words(c)[0] == c);
}

/// Whether the lines of a listing print these redirects, in order, among others that print
/// none.
pub open spec fn prints(lines: Seq<Seq<char>>, redirects: Seq<Redirect>) -> bool
    decreases lines.len(),
{
    if lines.len() == 0 {
        redirects.len() == 0
    } else if installed_redirect(lines.last()) is None {
        prints(lines.drop_last(), redirects)
    } else {
        redirects.len() > 0 && text::trim(lines.last()) == printed_redirect(redirects.last())
            && prints(lines.drop_last(), redirects.drop_last())
    }
}

proof fn lemma_printed_list(lines: Seq<Seq<char>>, redirects: Seq<Redirect>)
    requires
        prints(lines, redirects),
    ensures
        listed_redirects(lines) == redirects.map_values(|r: Redirect| r.triple()),
    decreases lines.len(),
{
    let triples = redirects.map_values(|r: Redirect| r.triple());
    if lines.len() > 0 {
        if installed_redirect(lines.last()) is None {
            lemma_printed_list(lines.drop_last(), redirects);
        } else {
            lemma_printed_list(lines.drop_last(), redirects.drop_last());
            lemma_printed_redirect_reads_back(lines.last(), redirects.last());
            assert(redirects.drop_last().map_values(|r: Redirect| r.triple())
                == triples.drop_last());
            assert(triples.drop_last().push(triples.last()) == triples);
        }
    } else {
        assert(triples =~= seq![]);
    }
}

/// What was installed is found again: a listing that prints the redirects of an artifact,
/// and the rules for ICMP, matches the artifact.
pub proof fn lemma_installed_redirects_match(
    content: Seq<char>,
    redirects: Seq<Redirect>,
    listing: Seq<char>,
)
    requires
        parsed(content) == Ok::<Seq<Redirect>, Seq<char>>(redirects),
        prints(text::lines(listing), redirects),
        notrack_in(text::lines(listing)),
    ensures
        content_matches(content, Some(listing)),
{
    lemma_printed_list(text::lines(listing), redirects);
}

/// A list is accepted exactly where each of its entries names three ports and its listener
/// lies in its range. Each entry is then one redirect, in the order of the list.
pub proof fn lemma_every_entry_is_one_redirect(items: Seq<Json>)
    ensures
        redirects_of(items) is Ok <==> forall|i: int|
            0 <= i < items.len() ==> asks_well(#[trigger] items[i]),
        redirects_of(items) matches Ok(list) ==> list.len() == items.len() && forall|i: int|
            0 <= i < items.len() ==> items[i].u16_at("start"@) == Some(
                (#[trigger] list[i]).start,
            ) && items[i].u16_at("end"@) == Some(list[i].end) && items[i].u16_at("to"@) == Some(
                list[i].to,
            ),
    decreases items.len(),
{
    if items.len() > 0 {
        let front = items.drop_last();
        lemma_every_entry_is_one_redirect(front);
        assert forall|i: int| 0 <= i < front.len() implies front[i] == #[trigger] items[i] by {}
        assert(items.last() == items[items.len() - 1]);
        if redirects_of(front) is Err {
            let k = choose|k: int| 0 <= k < front.len() && !asks_well(#[trigger] front[k]);
            assert(!asks_well(items[k]));
        } else {
            assert forall|i: int| 0 <= i < front.len() implies asks_well(#[trigger] items[i]) by {
                assert(asks_well(front[i]));
            }
        }
    }
}

/// Whether an entry names three ports with the listener in the range.
pub open spec fn asks_well(item: Json) -> bool {
    match (item.u16_at("start"@), item.u16_at("end"@), item.u16_at("to"@)) {
        (Some(start), Some(end), Some(to)) => start <= to <= end,
        _ => false,
    }
}

} // verus!
