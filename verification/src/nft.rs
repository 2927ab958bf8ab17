//! What the scripts for the firewall leave in it.
use vstd::prelude::*;
use vstd::string::*;

use crate::hy2_port_hop::Redirect;
use crate::{conntrack, hy2_port_hop, numbers, phantun, text};

verus! {

/// Where in a packet's way a chain stands.
pub enum Hook {
    /// Where a packet that came in may be given another destination.
    NatPrerouting,
    /// Where a packet that goes out may be given another source.
    NatPostrouting,
    /// Where a packet that came in may be kept out of connection tracking.
    RawPrerouting,
    /// Where a packet that the machine sends may be kept out of connection tracking.
    RawOutput,
    /// Where a packet that passes through is let through or not.
    Forward,
}

/// One table of the firewall, and how far the reading of a script has come.
#[verifier::ext_equal]
pub struct Firewall {
    pub chains: Map<Seq<char>, Hook>,
    /// The rules in their order, each with its chain.
    pub rules: Seq<(Seq<char>, Seq<char>)>,
    /// Whether packets are forwarded at all.
    pub forwarding: bool,
    /// Whether what is read is meant for the firewall's own program.
    pub reading: bool,
    /// Whether it stands inside the declaration of the table.
    pub inside: bool,
    /// Whether it came to a line that does not succeed, and stopped.
    pub stopped: bool,
}

/// A machine whose table holds whatever it holds, before a script.
pub open spec fn at_first(fw: Firewall) -> bool {
    !fw.reading && !fw.inside && !fw.stopped
}

/// The chain that a line declares, and where it stands.
pub open spec fn declared(line: Seq<char>) -> Option<(Seq<char>, Hook)> {
    if line == "chain prerouting { type nat hook prerouting priority -100; }"@ {
        Some(("prerouting"@, Hook::NatPrerouting))
    } else if line == "chain postrouting { type nat hook postrouting priority 100; }"@ {
        Some(("postrouting"@, Hook::NatPostrouting))
    } else if line == "chain prerouting_raw { type filter hook prerouting priority raw; }"@ {
        Some(("prerouting_raw"@, Hook::RawPrerouting))
    } else if line == "chain output_raw { type filter hook output priority raw; }"@ {
        Some(("output_raw"@, Hook::RawOutput))
    } else if line == "chain forward { type filter hook forward priority 0; }"@ {
        Some(("forward"@, Hook::Forward))
    } else {
        None
    }
}

/// The chain of a table that a line adds a rule to, and the rule.
pub open spec fn added(line: Seq<char>, table: Seq<char>) -> Option<(Seq<char>, Seq<char>)> {
    match text::strip_prefix(line, "add rule inet "@ + table + " "@) {
        Some(rest) => text::split_once(rest, ' '),
        None => None,
    }
}

/// What a line does. The firewall's program is taken to be there. A line that is none of
/// those it knows, or that adds to a chain that is not there, stops it.
pub open spec fn read_line(fw: Firewall, table: Seq<char>, line: Seq<char>) -> Firewall {
    if fw.stopped {
        fw
    } else if fw.inside {
        match declared(line) {
            Some((name, hook)) => Firewall { chains: fw.chains.insert(name, hook), ..fw },
            None => if line == "}"@ {
                Firewall { inside: false, ..fw }
            } else {
                Firewall { stopped: true, ..fw }
            },
        }
    } else if fw.reading {
        if line == "NFT"@ {
            Firewall { reading: false, ..fw }
        } else if line == "table inet "@ + table + " {"@ {
            Firewall { inside: true, ..fw }
        } else {
            match added(line, table) {
                Some((chain, rule)) => if fw.chains.dom().contains(chain) {
                    Firewall { rules: fw.rules.push((chain, rule)), ..fw }
                } else {
                    Firewall { stopped: true, ..fw }
                },
                None => Firewall { stopped: true, ..fw },
            }
        }
    } else if line == "set -eu"@ || line.len() == 0 || text::starts_with(
        line,
        "command -v nft >/dev/null 2>&1 || { echo '"@,
    ) {
        fw
    } else if line == "sysctl -qw net.ipv4.ip_forward=1"@ {
        Firewall { forwarding: true, ..fw }
    } else if line == "nft delete table inet "@ + table + " 2>/dev/null || true"@ {
        Firewall { chains: Map::empty(), rules: seq![], ..fw }
    } else if line == "nft -f - <<'NFT'"@ {
        Firewall { reading: true, ..fw }
    } else {
        Firewall { stopped: true, ..fw }
    }
}

/// What lines do, one after the other.
pub open spec fn read_lines(fw: Firewall, table: Seq<char>, lines: Seq<Seq<char>>) -> Firewall
    decreases lines.len(),
{
    if lines.len() == 0 {
        fw
    } else {
        read_line(read_lines(fw, table, lines.drop_last()), table, lines.last())
    }
}

/// What a script does.
pub open spec fn ran(fw: Firewall, table: Seq<char>, script: Seq<char>) -> Firewall {
    read_lines(fw, table, text::split_char(script, '\n'))
}

proof fn lemma_lines_then_lines(
    fw: Firewall,
    table: Seq<char>,
    first: Seq<Seq<char>>,
    second: Seq<Seq<char>>,
)
    ensures
        read_lines(fw, table, first + second) == read_lines(
            read_lines(fw, table, first),
            table,
            second,
        ),
    decreases second.len(),
{
    if second.len() == 0 {
        assert(first + second == first);
    } else {
        lemma_lines_then_lines(fw, table, first, second.drop_last());
        assert((first + second).drop_last() == first + second.drop_last());
    }
}

proof fn lemma_line_more(fw: Firewall, table: Seq<char>, lines: Seq<Seq<char>>, line: Seq<char>)
    ensures
        read_lines(fw, table, lines.push(line)) == read_line(
            read_lines(fw, table, lines),
            table,
            line,
        ),
{
    assert(lines.push(line).drop_last() =~= lines);
}

/// The line that adds a rule.
pub open spec fn adding(table: Seq<char>, rule: (Seq<char>, Seq<char>)) -> Seq<char> {
    "add rule inet "@ + table + " "@ + rule.0 + " "@ + rule.1
}

proof fn lemma_added(table: Seq<char>, rule: (Seq<char>, Seq<char>))
    requires
        !rule.0.contains(' '),
    ensures
        added(adding(table, rule), table) == Some(rule),
        adding(table, rule) != "NFT"@,
        adding(table, rule) != "table inet "@ + table + " {"@,
{
    reveal_strlit("add rule inet ");
    reveal_strlit(" ");
    reveal_strlit("NFT");
    reveal_strlit("table inet ");
    let head = "add rule inet "@ + table + " "@;
    let rest = rule.0 + " "@ + rule.1;
    let line = adding(table, rule);
    assert(line =~= head + rest);
    assert(line.subrange(0, head.len() as int) =~= head);
    assert(line.skip(head.len() as int) =~= rest);
    assert forall|j: int| 0 <= j < rule.0.len() implies rest[j] != ' ' by {
        assert(rule.0.contains(rule.0[j]));
    }
    text::lemma_find_char_at(rest, ' ', 0, rule.0.len() as int);
    assert(rest.take(rule.0.len() as int) =~= rule.0);
    assert(rest.skip(rule.0.len() as int + 1) =~= rule.1);
    assert(line[0] == 'a');
    assert(("table inet "@ + table + " {"@)[0] == 't');
    assert("NFT"@[0] == 'N');
}

proof fn lemma_rules_are_read(
    fw: Firewall,
    table: Seq<char>,
    lines: Seq<Seq<char>>,
    rules: Seq<(Seq<char>, Seq<char>)>,
)
    requires
        fw.reading && !fw.inside && !fw.stopped,
        lines.len() == rules.len(),
        forall|i: int|
            0 <= i < lines.len() ==> #[trigger] lines[i] == adding(table, rules[i])
                && !rules[i].0.contains(' ') && fw.chains.dom().contains(rules[i].0),
    ensures
        read_lines(fw, table, lines) == (Firewall { rules: fw.rules + rules, ..fw }),
    decreases lines.len(),
{
    if lines.len() == 0 {
        assert(fw.rules + rules =~= fw.rules);
    } else {
        let front = lines.drop_last();
        assert forall|i: int| 0 <= i < front.len() implies #[trigger] front[i] == adding(
            table,
            rules.drop_last()[i],
        ) && !rules.drop_last()[i].0.contains(' ') && fw.chains.dom().contains(
            rules.drop_last()[i].0,
        ) by {
            assert(front[i] == lines[i]);
        }
        lemma_rules_are_read(fw, table, front, rules.drop_last());
        assert(lines[lines.len() - 1] == adding(table, rules.last()));
        lemma_added(table, rules.last());
        assert(fw.rules + rules =~= (fw.rules + rules.drop_last()).push(rules.last()));
    }
}

proof fn lemma_join_then(first: Seq<Seq<char>>, second: Seq<Seq<char>>, sep: Seq<char>)
    requires
        first.len() > 0,
        second.len() > 0,
    ensures
        text::join(first + second, sep) == text::join(first, sep) + sep + text::join(second, sep),
    decreases second.len(),
{
    let all = first + second;
    assert(all.drop_last() =~= first + second.drop_last());
    if second.len() == 1 {
        assert(first + second.drop_last() =~= first);
    } else {
        lemma_join_then(first, second.drop_last(), sep);
        assert(text::join(all, sep) =~= text::join(first, sep) + sep + text::join(second, sep));
    }
}

/// What stands behind the rules.
spec fn closing() -> Seq<Seq<char>> {
    seq!["NFT"@, Seq::empty()]
}

proof fn lemma_closing(fw: Firewall, table: Seq<char>)
    requires
        fw.reading && !fw.inside && !fw.stopped,
    ensures
        read_lines(fw, table, closing()) == (Firewall { reading: false, ..fw }),
        text::join(closing(), "\n"@) == "NFT\n"@,
{
    let none = Seq::<Seq<char>>::empty();
    assert(read_lines(fw, table, none) == fw);
    lemma_line_more(fw, table, none, "NFT"@);
    lemma_line_more(fw, table, none.push("NFT"@), Seq::empty());
    assert(closing() =~= none.push("NFT"@).push(Seq::empty()));
    reveal_strlit("NFT");
    reveal_strlit("\n");
    reveal_strlit("NFT\n");
    text::lemma_join_one_more(seq!["NFT"@], Seq::empty(), "\n"@);
    assert(seq!["NFT"@].push(Seq::empty()) =~= closing());
    assert(text::join(seq!["NFT"@], "\n"@) == "NFT"@);
    assert("NFT"@ + "\n"@ + Seq::<char>::empty() =~= "NFT\n"@);
}

/// Whether packets that come in for a TCP port are kept out of connection tracking.
pub open spec fn inbound_untracked(fw: Firewall, port: u16) -> bool {
    exists|i: int|
        0 <= i < fw.rules.len() && fw.chains.dom().contains((#[trigger] fw.rules[i]).0)
            && fw.chains[fw.rules[i].0] is RawPrerouting && fw.rules[i].1 == "tcp dport "@
            + numbers::decimal(port as int) + " notrack"@
}

/// Whether packets that go out from a TCP port are kept out of connection tracking.
pub open spec fn outbound_untracked(fw: Firewall, port: u16) -> bool {
    exists|i: int|
        0 <= i < fw.rules.len() && fw.chains.dom().contains((#[trigger] fw.rules[i]).0)
            && fw.chains[fw.rules[i].0] is RawOutput && fw.rules[i].1 == "tcp sport "@
            + numbers::decimal(port as int) + " notrack"@
}

spec fn conntrack_head() -> Seq<Seq<char>> {
    seq![
        "set -eu"@,
        "command -v nft >/dev/null 2>&1 || { echo '需要 nft（nftables）才能免除连接跟踪' >&2; exit 1; }"@,
        "nft delete table inet brocade_conntrack 2>/dev/null || true"@,
        "nft -f - <<'NFT'"@,
        "table inet brocade_conntrack {"@,
        "chain prerouting_raw { type filter hook prerouting priority raw; }"@,
        "chain output_raw { type filter hook output priority raw; }"@,
        "}"@,
    ]
}

spec fn conntrack_chains() -> Map<Seq<char>, Hook> {
    Map::empty().insert("prerouting_raw"@, Hook::RawPrerouting).insert("output_raw"@, Hook::RawOutput)
}

proof fn lemma_conntrack_head_text()
    ensures
        "set -eu\ncommand -v nft >/dev/null 2>&1 || { echo '需要 nft（nftables）才能免除连接跟踪' >&2; exit 1; }\nnft delete table inet brocade_conntrack 2>/dev/null || true\nnft -f - <<'NFT'\ntable inet brocade_conntrack {\nchain prerouting_raw { type filter hook prerouting priority raw; }\nchain output_raw { type filter hook output priority raw; }\n}\n"@
            == text::join(conntrack_head(), "\n"@) + "\n"@,
        forall|i: int|
            0 <= i < conntrack_head().len() ==> !(#[trigger] conntrack_head()[i]).contains('\n'),
{
    let nl = "\n"@;
    let all = conntrack_head();
    let a1 = seq![all[0]];
    let a2 = a1.push(all[1]);
    let a3 = a2.push(all[2]);
    let a4 = a3.push(all[3]);
    let a5 = a4.push(all[4]);
    let a6 = a5.push(all[5]);
    let a7 = a6.push(all[6]);
    let a8 = a7.push(all[7]);
    text::lemma_join_one_more(a1, all[1], nl);
    text::lemma_join_one_more(a2, all[2], nl);
    text::lemma_join_one_more(a3, all[3], nl);
    text::lemma_join_one_more(a4, all[4], nl);
    text::lemma_join_one_more(a5, all[5], nl);
    text::lemma_join_one_more(a6, all[6], nl);
    text::lemma_join_one_more(a7, all[7], nl);
    assert(a8 =~= all);
    reveal_strlit("\n");
    reveal_strlit("set -eu");
    reveal_strlit("command -v nft >/dev/null 2>&1 || { echo '需要 nft（nftables）才能免除连接跟踪' >&2; exit 1; }");
    reveal_strlit("nft delete table inet brocade_conntrack 2>/dev/null || true");
    reveal_strlit("nft -f - <<'NFT'");
    reveal_strlit("table inet brocade_conntrack {");
    reveal_strlit("chain prerouting_raw { type filter hook prerouting priority raw; }");
    reveal_strlit("chain output_raw { type filter hook output priority raw; }");
    reveal_strlit("}");
    reveal_strlit("set -eu\ncommand -v nft >/dev/null 2>&1 || { echo '需要 nft（nftables）才能免除连接跟踪' >&2; exit 1; }\nnft delete table inet brocade_conntrack 2>/dev/null || true\nnft -f - <<'NFT'\ntable inet brocade_conntrack {\nchain prerouting_raw { type filter hook prerouting priority raw; }\nchain output_raw { type filter hook output priority raw; }\n}\n");
}

proof fn lemma_conntrack_head_is_read(fw: Firewall)
    requires
        at_first(fw),
    ensures
        read_lines(fw, "brocade_conntrack"@, conntrack_head()) == (Firewall {
            chains: conntrack_chains(),
            rules: seq![],
            forwarding: fw.forwarding,
            reading: true,
            ..fw
        }),
{
    let table = "brocade_conntrack"@;
    let all = conntrack_head();
    let l0 = Seq::<Seq<char>>::empty();
    let l1 = l0.push(all[0]);
    let l2 = l1.push(all[1]);
    let l3 = l2.push(all[2]);
    let l4 = l3.push(all[3]);
    let l5 = l4.push(all[4]);
    let l6 = l5.push(all[5]);
    let l7 = l6.push(all[6]);
    let l8 = l7.push(all[7]);
    lemma_line_more(fw, table, l0, all[0]);
    lemma_line_more(fw, table, l1, all[1]);
    lemma_line_more(fw, table, l2, all[2]);
    lemma_line_more(fw, table, l3, all[3]);
    lemma_line_more(fw, table, l4, all[4]);
    lemma_line_more(fw, table, l5, all[5]);
    lemma_line_more(fw, table, l6, all[6]);
    lemma_line_more(fw, table, l7, all[7]);
    assert(l8 =~= all);
    lemma_declarations_differ();
    lemma_conntrack_lines_differ();
    assert(read_lines(fw, table, l0) == fw);
    assert(read_lines(fw, table, l1) == fw);
    assert(read_lines(fw, table, l2) == fw);
    let gone = Firewall { chains: Map::empty(), rules: seq![], ..fw };
    assert(read_lines(fw, table, l3) == gone);
    let reads = Firewall { reading: true, ..gone };
    assert(read_lines(fw, table, l4) == reads);
    let opened = Firewall { inside: true, ..reads };
    assert(read_lines(fw, table, l5) == opened);
    let c0 = Firewall { chains: opened.chains.insert("prerouting_raw"@, Hook::RawPrerouting), ..opened };
    assert(read_lines(fw, table, l6) == c0);
    let c1 = Firewall { chains: c0.chains.insert("output_raw"@, Hook::RawOutput), ..c0 };
    assert(read_lines(fw, table, l7) == c1);
    assert(read_lines(fw, table, l8) == (Firewall { inside: false, ..c1 }));
}

proof fn lemma_conntrack_lines_differ()
    ensures
        "nft delete table inet brocade_conntrack 2>/dev/null || true"@ == "nft delete table inet "@ + "brocade_conntrack"@ + " 2>/dev/null || true"@,
        "table inet brocade_conntrack {"@ == "table inet "@ + "brocade_conntrack"@ + " {"@,
        "table inet brocade_conntrack {"@ != "NFT"@,
        text::starts_with(
            "command -v nft >/dev/null 2>&1 || { echo '需要 nft（nftables）才能免除连接跟踪' >&2; exit 1; }"@,
            "command -v nft >/dev/null 2>&1 || { echo '"@,
        ),
        !text::starts_with("sysctl -qw net.ipv4.ip_forward=1"@, "command -v nft >/dev/null 2>&1 || { echo '"@),
        "sysctl -qw net.ipv4.ip_forward=1"@.len() > 0,
        "sysctl -qw net.ipv4.ip_forward=1"@ != "set -eu"@,
        !text::starts_with("nft delete table inet brocade_conntrack 2>/dev/null || true"@, "command -v nft >/dev/null 2>&1 || { echo '"@),
        "nft delete table inet brocade_conntrack 2>/dev/null || true"@.len() > 0,
        "nft delete table inet brocade_conntrack 2>/dev/null || true"@ != "set -eu"@,
        !text::starts_with("nft -f - <<'NFT'"@, "command -v nft >/dev/null 2>&1 || { echo '"@),
        "nft -f - <<'NFT'"@.len() > 0,
        "nft -f - <<'NFT'"@ != "set -eu"@,
        "nft delete table inet brocade_conntrack 2>/dev/null || true"@ != "sysctl -qw net.ipv4.ip_forward=1"@,
        "nft -f - <<'NFT'"@ != "sysctl -qw net.ipv4.ip_forward=1"@,
        "nft -f - <<'NFT'"@ != "nft delete table inet brocade_conntrack 2>/dev/null || true"@,
{
    reveal_strlit("nft delete table inet ");
    reveal_strlit("brocade_conntrack");
    reveal_strlit(" 2>/dev/null || true");
    reveal_strlit("table inet ");
    reveal_strlit(" {");
    reveal_strlit("NFT");
    reveal_strlit("set -eu");
    reveal_strlit("sysctl -qw net.ipv4.ip_forward=1");
    reveal_strlit("nft -f - <<'NFT'");
    reveal_strlit("nft delete table inet brocade_conntrack 2>/dev/null || true");
    reveal_strlit("table inet brocade_conntrack {");
    reveal_strlit("command -v nft >/dev/null 2>&1 || { echo '需要 nft（nftables）才能免除连接跟踪' >&2; exit 1; }");
    reveal_strlit("command -v nft >/dev/null 2>&1 || { echo '");
    let probe = "command -v nft >/dev/null 2>&1 || { echo '"@;
    assert("nft delete table inet brocade_conntrack 2>/dev/null || true"@ =~= "nft delete table inet "@ + "brocade_conntrack"@ + " 2>/dev/null || true"@);
    assert("table inet brocade_conntrack {"@ =~= "table inet "@ + "brocade_conntrack"@ + " {"@);
    assert("command -v nft >/dev/null 2>&1 || { echo '需要 nft（nftables）才能免除连接跟踪' >&2; exit 1; }"@.subrange(0, probe.len() as int) =~= probe);
    assert(probe[0] == 'c');
    if text::starts_with("sysctl -qw net.ipv4.ip_forward=1"@, probe) {
        assert("sysctl -qw net.ipv4.ip_forward=1"@.subrange(0, probe.len() as int)[0] == "sysctl -qw net.ipv4.ip_forward=1"@[0]);
    }
    if text::starts_with("nft delete table inet brocade_conntrack 2>/dev/null || true"@, probe) {
        assert("nft delete table inet brocade_conntrack 2>/dev/null || true"@.subrange(0, probe.len() as int)[0] == "nft delete table inet brocade_conntrack 2>/dev/null || true"@[0]);
    }
    if text::starts_with("nft -f - <<'NFT'"@, probe) {
        assert("nft -f - <<'NFT'"@.subrange(0, probe.len() as int)[0] == "nft -f - <<'NFT'"@[0]);
    }
    assert("nft delete table inet brocade_conntrack 2>/dev/null || true"@[4] == 'd' && "nft -f - <<'NFT'"@[4] == '-');
    assert("sysctl -qw net.ipv4.ip_forward=1"@[0] == 's' && "nft -f - <<'NFT'"@[0] == 'n' && "nft delete table inet brocade_conntrack 2>/dev/null || true"@[0] == 'n');
}

spec fn hop_head() -> Seq<Seq<char>> {
    seq![
        "set -eu"@,
        "command -v nft >/dev/null 2>&1 || { echo '需要 nft（nftables）才能做端口跳转' >&2; exit 1; }"@,
        "nft delete table inet brocade_hy2_port_hop 2>/dev/null || true"@,
        "nft -f - <<'NFT'"@,
        "table inet brocade_hy2_port_hop {"@,
        "chain prerouting { type nat hook prerouting priority -100; }"@,
        "chain prerouting_raw { type filter hook prerouting priority raw; }"@,
        "chain output_raw { type filter hook output priority raw; }"@,
        "}"@,
    ]
}

spec fn hop_chains() -> Map<Seq<char>, Hook> {
    Map::empty().insert("prerouting"@, Hook::NatPrerouting).insert("prerouting_raw"@, Hook::RawPrerouting).insert("output_raw"@, Hook::RawOutput)
}

proof fn lemma_hop_head_text()
    ensures
        "set -eu\ncommand -v nft >/dev/null 2>&1 || { echo '需要 nft（nftables）才能做端口跳转' >&2; exit 1; }\nnft delete table inet brocade_hy2_port_hop 2>/dev/null || true\nnft -f - <<'NFT'\ntable inet brocade_hy2_port_hop {\nchain prerouting { type nat hook prerouting priority -100; }\nchain prerouting_raw { type filter hook prerouting priority raw; }\nchain output_raw { type filter hook output priority raw; }\n}\n"@
            == text::join(hop_head(), "\n"@) + "\n"@,
        forall|i: int|
            0 <= i < hop_head().len() ==> !(#[trigger] hop_head()[i]).contains('\n'),
{
    let nl = "\n"@;
    let all = hop_head();
    let a1 = seq![all[0]];
    let a2 = a1.push(all[1]);
    let a3 = a2.push(all[2]);
    let a4 = a3.push(all[3]);
    let a5 = a4.push(all[4]);
    let a6 = a5.push(all[5]);
    let a7 = a6.push(all[6]);
    let a8 = a7.push(all[7]);
    let a9 = a8.push(all[8]);
    text::lemma_join_one_more(a1, all[1], nl);
    text::lemma_join_one_more(a2, all[2], nl);
    text::lemma_join_one_more(a3, all[3], nl);
    text::lemma_join_one_more(a4, all[4], nl);
    text::lemma_join_one_more(a5, all[5], nl);
    text::lemma_join_one_more(a6, all[6], nl);
    text::lemma_join_one_more(a7, all[7], nl);
    text::lemma_join_one_more(a8, all[8], nl);
    assert(a9 =~= all);
    reveal_strlit("\n");
    reveal_strlit("set -eu");
    reveal_strlit("command -v nft >/dev/null 2>&1 || { echo '需要 nft（nftables）才能做端口跳转' >&2; exit 1; }");
    reveal_strlit("nft delete table inet brocade_hy2_port_hop 2>/dev/null || true");
    reveal_strlit("nft -f - <<'NFT'");
    reveal_strlit("table inet brocade_hy2_port_hop {");
    reveal_strlit("chain prerouting { type nat hook prerouting priority -100; }");
    reveal_strlit("chain prerouting_raw { type filter hook prerouting priority raw; }");
    reveal_strlit("chain output_raw { type filter hook output priority raw; }");
    reveal_strlit("}");
    reveal_strlit("set -eu\ncommand -v nft >/dev/null 2>&1 || { echo '需要 nft（nftables）才能做端口跳转' >&2; exit 1; }\nnft delete table inet brocade_hy2_port_hop 2>/dev/null || true\nnft -f - <<'NFT'\ntable inet brocade_hy2_port_hop {\nchain prerouting { type nat hook prerouting priority -100; }\nchain prerouting_raw { type filter hook prerouting priority raw; }\nchain output_raw { type filter hook output priority raw; }\n}\n");
}

proof fn lemma_hop_head_is_read(fw: Firewall)
    requires
        at_first(fw),
    ensures
        read_lines(fw, "brocade_hy2_port_hop"@, hop_head()) == (Firewall {
            chains: hop_chains(),
            rules: seq![],
            forwarding: fw.forwarding,
            reading: true,
            ..fw
        }),
{
    let table = "brocade_hy2_port_hop"@;
    let all = hop_head();
    let l0 = Seq::<Seq<char>>::empty();
    let l1 = l0.push(all[0]);
    let l2 = l1.push(all[1]);
    let l3 = l2.push(all[2]);
    let l4 = l3.push(all[3]);
    let l5 = l4.push(all[4]);
    let l6 = l5.push(all[5]);
    let l7 = l6.push(all[6]);
    let l8 = l7.push(all[7]);
    let l9 = l8.push(all[8]);
    lemma_line_more(fw, table, l0, all[0]);
    lemma_line_more(fw, table, l1, all[1]);
    lemma_line_more(fw, table, l2, all[2]);
    lemma_line_more(fw, table, l3, all[3]);
    lemma_line_more(fw, table, l4, all[4]);
    lemma_line_more(fw, table, l5, all[5]);
    lemma_line_more(fw, table, l6, all[6]);
    lemma_line_more(fw, table, l7, all[7]);
    lemma_line_more(fw, table, l8, all[8]);
    assert(l9 =~= all);
    lemma_declarations_differ();
    lemma_hop_lines_differ();
    assert(read_lines(fw, table, l0) == fw);
    assert(read_lines(fw, table, l1) == fw);
    assert(read_lines(fw, table, l2) == fw);
    let gone = Firewall { chains: Map::empty(), rules: seq![], ..fw };
    assert(read_lines(fw, table, l3) == gone);
    let reads = Firewall { reading: true, ..gone };
    assert(read_lines(fw, table, l4) == reads);
    let opened = Firewall { inside: true, ..reads };
    assert(read_lines(fw, table, l5) == opened);
    let c0 = Firewall { chains: opened.chains.insert("prerouting"@, Hook::NatPrerouting), ..opened };
    assert(read_lines(fw, table, l6) == c0);
    let c1 = Firewall { chains: c0.chains.insert("prerouting_raw"@, Hook::RawPrerouting), ..c0 };
    assert(read_lines(fw, table, l7) == c1);
    let c2 = Firewall { chains: c1.chains.insert("output_raw"@, Hook::RawOutput), ..c1 };
    assert(read_lines(fw, table, l8) == c2);
    assert(read_lines(fw, table, l9) == (Firewall { inside: false, ..c2 }));
}

proof fn lemma_hop_lines_differ()
    ensures
        "nft delete table inet brocade_hy2_port_hop 2>/dev/null || true"@ == "nft delete table inet "@ + "brocade_hy2_port_hop"@ + " 2>/dev/null || true"@,
        "table inet brocade_hy2_port_hop {"@ == "table inet "@ + "brocade_hy2_port_hop"@ + " {"@,
        "table inet brocade_hy2_port_hop {"@ != "NFT"@,
        text::starts_with(
            "command -v nft >/dev/null 2>&1 || { echo '需要 nft（nftables）才能做端口跳转' >&2; exit 1; }"@,
            "command -v nft >/dev/null 2>&1 || { echo '"@,
        ),
        !text::starts_with("sysctl -qw net.ipv4.ip_forward=1"@, "command -v nft >/dev/null 2>&1 || { echo '"@),
        "sysctl -qw net.ipv4.ip_forward=1"@.len() > 0,
        "sysctl -qw net.ipv4.ip_forward=1"@ != "set -eu"@,
        !text::starts_with("nft delete table inet brocade_hy2_port_hop 2>/dev/null || true"@, "command -v nft >/dev/null 2>&1 || { echo '"@),
        "nft delete table inet brocade_hy2_port_hop 2>/dev/null || true"@.len() > 0,
        "nft delete table inet brocade_hy2_port_hop 2>/dev/null || true"@ != "set -eu"@,
        !text::starts_with("nft -f - <<'NFT'"@, "command -v nft >/dev/null 2>&1 || { echo '"@),
        "nft -f - <<'NFT'"@.len() > 0,
        "nft -f - <<'NFT'"@ != "set -eu"@,
        "nft delete table inet brocade_hy2_port_hop 2>/dev/null || true"@ != "sysctl -qw net.ipv4.ip_forward=1"@,
        "nft -f - <<'NFT'"@ != "sysctl -qw net.ipv4.ip_forward=1"@,
        "nft -f - <<'NFT'"@ != "nft delete table inet brocade_hy2_port_hop 2>/dev/null || true"@,
{
    reveal_strlit("nft delete table inet ");
    reveal_strlit("brocade_hy2_port_hop");
    reveal_strlit(" 2>/dev/null || true");
    reveal_strlit("table inet ");
    reveal_strlit(" {");
    reveal_strlit("NFT");
    reveal_strlit("set -eu");
    reveal_strlit("sysctl -qw net.ipv4.ip_forward=1");
    reveal_strlit("nft -f - <<'NFT'");
    reveal_strlit("nft delete table inet brocade_hy2_port_hop 2>/dev/null || true");
    reveal_strlit("table inet brocade_hy2_port_hop {");
    reveal_strlit("command -v nft >/dev/null 2>&1 || { echo '需要 nft（nftables）才能做端口跳转' >&2; exit 1; }");
    reveal_strlit("command -v nft >/dev/null 2>&1 || { echo '");
    let probe = "command -v nft >/dev/null 2>&1 || { echo '"@;
    assert("nft delete table inet brocade_hy2_port_hop 2>/dev/null || true"@ =~= "nft delete table inet "@ + "brocade_hy2_port_hop"@ + " 2>/dev/null || true"@);
    assert("table inet brocade_hy2_port_hop {"@ =~= "table inet "@ + "brocade_hy2_port_hop"@ + " {"@);
    assert("command -v nft >/dev/null 2>&1 || { echo '需要 nft（nftables）才能做端口跳转' >&2; exit 1; }"@.subrange(0, probe.len() as int) =~= probe);
    assert(probe[0] == 'c');
    if text::starts_with("sysctl -qw net.ipv4.ip_forward=1"@, probe) {
        assert("sysctl -qw net.ipv4.ip_forward=1"@.subrange(0, probe.len() as int)[0] == "sysctl -qw net.ipv4.ip_forward=1"@[0]);
    }
    if text::starts_with("nft delete table inet brocade_hy2_port_hop 2>/dev/null || true"@, probe) {
        assert("nft delete table inet brocade_hy2_port_hop 2>/dev/null || true"@.subrange(0, probe.len() as int)[0] == "nft delete table inet brocade_hy2_port_hop 2>/dev/null || true"@[0]);
    }
    if text::starts_with("nft -f - <<'NFT'"@, probe) {
        assert("nft -f - <<'NFT'"@.subrange(0, probe.len() as int)[0] == "nft -f - <<'NFT'"@[0]);
    }
    assert("nft delete table inet brocade_hy2_port_hop 2>/dev/null || true"@[4] == 'd' && "nft -f - <<'NFT'"@[4] == '-');
    assert("sysctl -qw net.ipv4.ip_forward=1"@[0] == 's' && "nft -f - <<'NFT'"@[0] == 'n' && "nft delete table inet brocade_hy2_port_hop 2>/dev/null || true"@[0] == 'n');
}

spec fn phantun_head() -> Seq<Seq<char>> {
    seq![
        "set -eu"@,
        "command -v nft >/dev/null 2>&1 || { echo '需要 nft（nftables）来给 phantun 配 NAT' >&2; exit 1; }"@,
        "sysctl -qw net.ipv4.ip_forward=1"@,
        "nft delete table inet brocade 2>/dev/null || true"@,
        "nft -f - <<'NFT'"@,
        "table inet brocade {"@,
        "chain prerouting { type nat hook prerouting priority -100; }"@,
        "chain postrouting { type nat hook postrouting priority 100; }"@,
        "chain forward { type filter hook forward priority 0; }"@,
        "}"@,
    ]
}

spec fn phantun_chains() -> Map<Seq<char>, Hook> {
    Map::empty().insert("prerouting"@, Hook::NatPrerouting).insert("postrouting"@, Hook::NatPostrouting).insert("forward"@, Hook::Forward)
}

proof fn lemma_phantun_head_text()
    ensures
        "set -eu\ncommand -v nft >/dev/null 2>&1 || { echo '需要 nft（nftables）来给 phantun 配 NAT' >&2; exit 1; }\nsysctl -qw net.ipv4.ip_forward=1\nnft delete table inet brocade 2>/dev/null || true\nnft -f - <<'NFT'\ntable inet brocade {\nchain prerouting { type nat hook prerouting priority -100; }\nchain postrouting { type nat hook postrouting priority 100; }\nchain forward { type filter hook forward priority 0; }\n}\n"@
            == text::join(phantun_head(), "\n"@) + "\n"@,
        forall|i: int|
            0 <= i < phantun_head().len() ==> !(#[trigger] phantun_head()[i]).contains('\n'),
{
    let nl = "\n"@;
    let all = phantun_head();
    let a1 = seq![all[0]];
    let a2 = a1.push(all[1]);
    let a3 = a2.push(all[2]);
    let a4 = a3.push(all[3]);
    let a5 = a4.push(all[4]);
    let a6 = a5.push(all[5]);
    let a7 = a6.push(all[6]);
    let a8 = a7.push(all[7]);
    let a9 = a8.push(all[8]);
    let a10 = a9.push(all[9]);
    text::lemma_join_one_more(a1, all[1], nl);
    text::lemma_join_one_more(a2, all[2], nl);
    text::lemma_join_one_more(a3, all[3], nl);
    text::lemma_join_one_more(a4, all[4], nl);
    text::lemma_join_one_more(a5, all[5], nl);
    text::lemma_join_one_more(a6, all[6], nl);
    text::lemma_join_one_more(a7, all[7], nl);
    text::lemma_join_one_more(a8, all[8], nl);
    text::lemma_join_one_more(a9, all[9], nl);
    assert(a10 =~= all);
    reveal_strlit("\n");
    reveal_strlit("set -eu");
    reveal_strlit("command -v nft >/dev/null 2>&1 || { echo '需要 nft（nftables）来给 phantun 配 NAT' >&2; exit 1; }");
    reveal_strlit("sysctl -qw net.ipv4.ip_forward=1");
    reveal_strlit("nft delete table inet brocade 2>/dev/null || true");
    reveal_strlit("nft -f - <<'NFT'");
    reveal_strlit("table inet brocade {");
    reveal_strlit("chain prerouting { type nat hook prerouting priority -100; }");
    reveal_strlit("chain postrouting { type nat hook postrouting priority 100; }");
    reveal_strlit("chain forward { type filter hook forward priority 0; }");
    reveal_strlit("}");
    reveal_strlit("set -eu\ncommand -v nft >/dev/null 2>&1 || { echo '需要 nft（nftables）来给 phantun 配 NAT' >&2; exit 1; }\nsysctl -qw net.ipv4.ip_forward=1\nnft delete table inet brocade 2>/dev/null || true\nnft -f - <<'NFT'\ntable inet brocade {\nchain prerouting { type nat hook prerouting priority -100; }\nchain postrouting { type nat hook postrouting priority 100; }\nchain forward { type filter hook forward priority 0; }\n}\n");
}

proof fn lemma_phantun_head_is_read(fw: Firewall)
    requires
        at_first(fw),
    ensures
        read_lines(fw, "brocade"@, phantun_head()) == (Firewall {
            chains: phantun_chains(),
            rules: seq![],
            forwarding: true,
            reading: true,
            ..fw
        }),
{
    let table = "brocade"@;
    let all = phantun_head();
    let l0 = Seq::<Seq<char>>::empty();
    let l1 = l0.push(all[0]);
    let l2 = l1.push(all[1]);
    let l3 = l2.push(all[2]);
    let l4 = l3.push(all[3]);
    let l5 = l4.push(all[4]);
    let l6 = l5.push(all[5]);
    let l7 = l6.push(all[6]);
    let l8 = l7.push(all[7]);
    let l9 = l8.push(all[8]);
    let l10 = l9.push(all[9]);
    lemma_line_more(fw, table, l0, all[0]);
    lemma_line_more(fw, table, l1, all[1]);
    lemma_line_more(fw, table, l2, all[2]);
    lemma_line_more(fw, table, l3, all[3]);
    lemma_line_more(fw, table, l4, all[4]);
    lemma_line_more(fw, table, l5, all[5]);
    lemma_line_more(fw, table, l6, all[6]);
    lemma_line_more(fw, table, l7, all[7]);
    lemma_line_more(fw, table, l8, all[8]);
    lemma_line_more(fw, table, l9, all[9]);
    assert(l10 =~= all);
    lemma_declarations_differ();
    lemma_phantun_lines_differ();
    assert(read_lines(fw, table, l0) == fw);
    assert(read_lines(fw, table, l1) == fw);
    assert(read_lines(fw, table, l2) == fw);
    let f3 = Firewall { forwarding: true, ..fw };
    assert(read_lines(fw, table, l3) == f3);
    let gone = Firewall { chains: Map::empty(), rules: seq![], ..f3 };
    assert(read_lines(fw, table, l4) == gone);
    let reads = Firewall { reading: true, ..gone };
    assert(read_lines(fw, table, l5) == reads);
    let opened = Firewall { inside: true, ..reads };
    assert(read_lines(fw, table, l6) == opened);
    let c0 = Firewall { chains: opened.chains.insert("prerouting"@, Hook::NatPrerouting), ..opened };
    assert(read_lines(fw, table, l7) == c0);
    let c1 = Firewall { chains: c0.chains.insert("postrouting"@, Hook::NatPostrouting), ..c0 };
    assert(read_lines(fw, table, l8) == c1);
    let c2 = Firewall { chains: c1.chains.insert("forward"@, Hook::Forward), ..c1 };
    assert(read_lines(fw, table, l9) == c2);
    assert(read_lines(fw, table, l10) == (Firewall { inside: false, ..c2 }));
}

proof fn lemma_phantun_lines_differ()
    ensures
        "nft delete table inet brocade 2>/dev/null || true"@ == "nft delete table inet "@ + "brocade"@ + " 2>/dev/null || true"@,
        "table inet brocade {"@ == "table inet "@ + "brocade"@ + " {"@,
        "table inet brocade {"@ != "NFT"@,
        text::starts_with(
            "command -v nft >/dev/null 2>&1 || { echo '需要 nft（nftables）来给 phantun 配 NAT' >&2; exit 1; }"@,
            "command -v nft >/dev/null 2>&1 || { echo '"@,
        ),
        !text::starts_with("sysctl -qw net.ipv4.ip_forward=1"@, "command -v nft >/dev/null 2>&1 || { echo '"@),
        "sysctl -qw net.ipv4.ip_forward=1"@.len() > 0,
        "sysctl -qw net.ipv4.ip_forward=1"@ != "set -eu"@,
        !text::starts_with("nft delete table inet brocade 2>/dev/null || true"@, "command -v nft >/dev/null 2>&1 || { echo '"@),
        "nft delete table inet brocade 2>/dev/null || true"@.len() > 0,
        "nft delete table inet brocade 2>/dev/null || true"@ != "set -eu"@,
        !text::starts_with("nft -f - <<'NFT'"@, "command -v nft >/dev/null 2>&1 || { echo '"@),
        "nft -f - <<'NFT'"@.len() > 0,
        "nft -f - <<'NFT'"@ != "set -eu"@,
        "nft delete table inet brocade 2>/dev/null || true"@ != "sysctl -qw net.ipv4.ip_forward=1"@,
        "nft -f - <<'NFT'"@ != "sysctl -qw net.ipv4.ip_forward=1"@,
        "nft -f - <<'NFT'"@ != "nft delete table inet brocade 2>/dev/null || true"@,
{
    reveal_strlit("nft delete table inet ");
    reveal_strlit("brocade");
    reveal_strlit(" 2>/dev/null || true");
    reveal_strlit("table inet ");
    reveal_strlit(" {");
    reveal_strlit("NFT");
    reveal_strlit("set -eu");
    reveal_strlit("sysctl -qw net.ipv4.ip_forward=1");
    reveal_strlit("nft -f - <<'NFT'");
    reveal_strlit("nft delete table inet brocade 2>/dev/null || true");
    reveal_strlit("table inet brocade {");
    reveal_strlit("command -v nft >/dev/null 2>&1 || { echo '需要 nft（nftables）来给 phantun 配 NAT' >&2; exit 1; }");
    reveal_strlit("command -v nft >/dev/null 2>&1 || { echo '");
    let probe = "command -v nft >/dev/null 2>&1 || { echo '"@;
    assert("nft delete table inet brocade 2>/dev/null || true"@ =~= "nft delete table inet "@ + "brocade"@ + " 2>/dev/null || true"@);
    assert("table inet brocade {"@ =~= "table inet "@ + "brocade"@ + " {"@);
    assert("command -v nft >/dev/null 2>&1 || { echo '需要 nft（nftables）来给 phantun 配 NAT' >&2; exit 1; }"@.subrange(0, probe.len() as int) =~= probe);
    assert(probe[0] == 'c');
    if text::starts_with("sysctl -qw net.ipv4.ip_forward=1"@, probe) {
        assert("sysctl -qw net.ipv4.ip_forward=1"@.subrange(0, probe.len() as int)[0] == "sysctl -qw net.ipv4.ip_forward=1"@[0]);
    }
    if text::starts_with("nft delete table inet brocade 2>/dev/null || true"@, probe) {
        assert("nft delete table inet brocade 2>/dev/null || true"@.subrange(0, probe.len() as int)[0] == "nft delete table inet brocade 2>/dev/null || true"@[0]);
    }
    if text::starts_with("nft -f - <<'NFT'"@, probe) {
        assert("nft -f - <<'NFT'"@.subrange(0, probe.len() as int)[0] == "nft -f - <<'NFT'"@[0]);
    }
    assert("nft delete table inet brocade 2>/dev/null || true"@[4] == 'd' && "nft -f - <<'NFT'"@[4] == '-');
    assert("sysctl -qw net.ipv4.ip_forward=1"@[0] == 's' && "nft -f - <<'NFT'"@[0] == 'n' && "nft delete table inet brocade 2>/dev/null || true"@[0] == 'n');
}

proof fn lemma_declarations_differ()
    ensures
        "chain prerouting { type nat hook prerouting priority -100; }"@ != "chain postrouting { type nat hook postrouting priority 100; }"@,
        "chain prerouting { type nat hook prerouting priority -100; }"@ != "chain prerouting_raw { type filter hook prerouting priority raw; }"@,
        "chain prerouting { type nat hook prerouting priority -100; }"@ != "chain output_raw { type filter hook output priority raw; }"@,
        "chain prerouting { type nat hook prerouting priority -100; }"@ != "chain forward { type filter hook forward priority 0; }"@,
        "chain postrouting { type nat hook postrouting priority 100; }"@ != "chain prerouting_raw { type filter hook prerouting priority raw; }"@,
        "chain postrouting { type nat hook postrouting priority 100; }"@ != "chain output_raw { type filter hook output priority raw; }"@,
        "chain postrouting { type nat hook postrouting priority 100; }"@ != "chain forward { type filter hook forward priority 0; }"@,
        "chain prerouting_raw { type filter hook prerouting priority raw; }"@ != "chain output_raw { type filter hook output priority raw; }"@,
        "chain prerouting_raw { type filter hook prerouting priority raw; }"@ != "chain forward { type filter hook forward priority 0; }"@,
        "chain output_raw { type filter hook output priority raw; }"@ != "chain forward { type filter hook forward priority 0; }"@,
        "chain prerouting { type nat hook prerouting priority -100; }"@ != "}"@,
        "chain postrouting { type nat hook postrouting priority 100; }"@ != "}"@,
        "chain prerouting_raw { type filter hook prerouting priority raw; }"@ != "}"@,
        "chain output_raw { type filter hook output priority raw; }"@ != "}"@,
        "chain forward { type filter hook forward priority 0; }"@ != "}"@,
{
    reveal_strlit("}");
    reveal_strlit("chain prerouting { type nat hook prerouting priority -100; }");
    reveal_strlit("chain postrouting { type nat hook postrouting priority 100; }");
    reveal_strlit("chain prerouting_raw { type filter hook prerouting priority raw; }");
    reveal_strlit("chain output_raw { type filter hook output priority raw; }");
    reveal_strlit("chain forward { type filter hook forward priority 0; }");
    assert("chain prerouting { type nat hook prerouting priority -100; }"@.len() != "chain postrouting { type nat hook postrouting priority 100; }"@.len());
    assert("chain prerouting { type nat hook prerouting priority -100; }"@.len() != "chain prerouting_raw { type filter hook prerouting priority raw; }"@.len());
    assert("chain prerouting { type nat hook prerouting priority -100; }"@.len() != "chain output_raw { type filter hook output priority raw; }"@.len());
    assert("chain prerouting { type nat hook prerouting priority -100; }"@.len() != "chain forward { type filter hook forward priority 0; }"@.len());
    assert("chain postrouting { type nat hook postrouting priority 100; }"@.len() != "chain prerouting_raw { type filter hook prerouting priority raw; }"@.len());
    assert("chain postrouting { type nat hook postrouting priority 100; }"@.len() != "chain output_raw { type filter hook output priority raw; }"@.len());
    assert("chain postrouting { type nat hook postrouting priority 100; }"@.len() != "chain forward { type filter hook forward priority 0; }"@.len());
    assert("chain prerouting_raw { type filter hook prerouting priority raw; }"@.len() != "chain output_raw { type filter hook output priority raw; }"@.len());
    assert("chain prerouting_raw { type filter hook prerouting priority raw; }"@.len() != "chain forward { type filter hook forward priority 0; }"@.len());
    assert("chain output_raw { type filter hook output priority raw; }"@.len() != "chain forward { type filter hook forward priority 0; }"@.len());
    assert("chain prerouting { type nat hook prerouting priority -100; }"@.len() > 1);
    assert("chain postrouting { type nat hook postrouting priority 100; }"@.len() > 1);
    assert("chain prerouting_raw { type filter hook prerouting priority raw; }"@.len() > 1);
    assert("chain output_raw { type filter hook output priority raw; }"@.len() > 1);
    assert("chain forward { type filter hook forward priority 0; }"@.len() > 1);
}

proof fn lemma_number_is_told(a: u16, b: u16, opening: Seq<char>, ending: Seq<char>)
    requires
        opening + numbers::decimal(a as int) + ending == opening + numbers::decimal(b as int)
            + ending,
    ensures
        a == b,
{
    let (da, db) = (numbers::decimal(a as int), numbers::decimal(b as int));
    let (sa, sb) = (opening + da + ending, opening + db + ending);
    assert(sa.len() == opening.len() + da.len() + ending.len());
    assert(sb.len() == opening.len() + db.len() + ending.len());
    assert(sa.subrange(opening.len() as int, (opening.len() + da.len()) as int) =~= da);
    assert(sb.subrange(opening.len() as int, (opening.len() + db.len()) as int) =~= db);
    numbers::lemma_parse_decimal(a as int, u16::MAX as int);
    numbers::lemma_parse_decimal(b as int, u16::MAX as int);
}

spec fn exemptions(ports: Seq<u16>) -> Seq<(Seq<char>, Seq<char>)> {
    Seq::new(
        2 * ports.len(),
        |i: int|
            if i % 2 == 0 {
                (
                    "prerouting_raw"@,
                    "tcp dport "@ + numbers::decimal(ports[i / 2] as int) + " notrack"@,
                )
            } else {
                (
                    "output_raw"@,
                    "tcp sport "@ + numbers::decimal(ports[i / 2] as int) + " notrack"@,
                )
            },
    )
}

proof fn lemma_exemption_lines(ports: Seq<u16>, i: int)
    requires
        0 <= i < 2 * ports.len(),
    ensures
        conntrack::rules(ports).len() == 2 * ports.len(),
        conntrack::rules(ports)[i] == adding("brocade_conntrack"@, exemptions(ports)[i]),
        !exemptions(ports)[i].0.contains(' '),
        !conntrack::rules(ports)[i].contains('\n'),
{
    let k = i / 2;
    conntrack::lemma_both_directions(ports, k);
    let n = numbers::decimal(ports[k] as int);
    numbers::lemma_decimal_digits(ports[k] as int);
    reveal_strlit("add rule inet ");
    reveal_strlit("brocade_conntrack");
    reveal_strlit(" ");
    reveal_strlit("prerouting_raw");
    reveal_strlit("output_raw");
    reveal_strlit("tcp dport ");
    reveal_strlit("tcp sport ");
    reveal_strlit(" notrack");
    reveal_strlit("add rule inet brocade_conntrack prerouting_raw tcp dport ");
    reveal_strlit("add rule inet brocade_conntrack output_raw tcp sport ");
    assert("add rule inet brocade_conntrack prerouting_raw tcp dport "@ =~= "add rule inet "@
        + "brocade_conntrack"@ + " "@ + "prerouting_raw"@ + " "@ + "tcp dport "@);
    assert("add rule inet brocade_conntrack output_raw tcp sport "@ =~= "add rule inet "@
        + "brocade_conntrack"@ + " "@ + "output_raw"@ + " "@ + "tcp sport "@);
    assert(conntrack::rules(ports)[i] =~= adding("brocade_conntrack"@, exemptions(ports)[i]));
}

/// Whatever the table held, after the script exactly the ports that were asked for are kept
/// out of connection tracking, each in both directions.
pub proof fn lemma_exactly_the_ports_are_untracked(fw: Firewall, ports: Seq<u16>, port: u16)
    requires
        at_first(fw),
        ports.len() > 0,
    ensures
        ({
            let end = ran(fw, "brocade_conntrack"@, conntrack::install_script(ports));
            &&& !end.stopped && !end.reading
            &&& inbound_untracked(end, port) <==> ports.contains(port)
            &&& outbound_untracked(end, port) <==> ports.contains(port)
        }),
{
    let table = "brocade_conntrack"@;
    let nl = "\n"@;
    let head = conntrack_head();
    let rules = conntrack::rules(ports);
    let told = exemptions(ports);
    let script = conntrack::install_script(ports);
    lemma_conntrack_head_text();
    lemma_conntrack_head_is_read(fw);
    let opened = read_lines(fw, table, head);
    assert(opened.chains.dom().contains("prerouting_raw"@));
    assert(opened.chains.dom().contains("output_raw"@));
    conntrack::lemma_both_directions(ports, 0);
    assert forall|i: int| 0 <= i < rules.len() implies #[trigger] rules[i] == adding(table, told[i])
        && !told[i].0.contains(' ') && opened.chains.dom().contains(told[i].0)
        && !rules[i].contains('\n') by {
        lemma_exemption_lines(ports, i);
    }
    lemma_rules_are_read(opened, table, rules, told);
    let filled = read_lines(opened, table, rules);
    lemma_closing(filled, table);
    let all = head + rules + closing();
    lemma_lines_then_lines(fw, table, head, rules);
    lemma_lines_then_lines(fw, table, head + rules, closing());
    lemma_join_then(head, rules, nl);
    lemma_join_then(head + rules, closing(), nl);
    assert(script =~= text::join(all, nl)) by {
        reveal_strlit("\n");
        reveal_strlit("NFT\n");
        reveal_strlit("\nNFT\n");
    }
    assert forall|i: int| 0 <= i < all.len() implies !(#[trigger] all[i]).contains('\n') by {
        reveal_strlit("NFT");
        if i < head.len() {
            assert(all[i] == head[i]);
        } else if i < head.len() + rules.len() {
            assert(all[i] == rules[i - head.len()]);
        } else {
            assert(all[i] == closing()[i - head.len() - rules.len()]);
        }
    }
    assert(nl =~= seq!['\n']) by {
        reveal_strlit("\n");
    }
    text::lemma_split_joined(all, '\n', nl);
    let end = ran(fw, table, script);
    assert(end.rules =~= told);
    lemma_chain_names_differ();
    lemma_port_rules_differ();
    if ports.contains(port) {
        let k = choose|k: int| 0 <= k < ports.len() && ports[k] == port;
        assert(end.rules[2 * k] == told[2 * k]);
        assert(end.rules[2 * k + 1] == told[2 * k + 1]);
    }
    if inbound_untracked(end, port) {
        let i = choose|i: int|
            0 <= i < end.rules.len() && end.chains.dom().contains((#[trigger] end.rules[i]).0)
                && end.chains[end.rules[i].0] is RawPrerouting && end.rules[i].1 == "tcp dport "@
                + numbers::decimal(port as int) + " notrack"@;
        assert(i % 2 == 0);
        lemma_number_is_told(port, ports[i / 2], "tcp dport "@, " notrack"@);
        assert(ports.contains(ports[i / 2]));
    }
    if outbound_untracked(end, port) {
        let i = choose|i: int|
            0 <= i < end.rules.len() && end.chains.dom().contains((#[trigger] end.rules[i]).0)
                && end.chains[end.rules[i].0] is RawOutput && end.rules[i].1 == "tcp sport "@
                + numbers::decimal(port as int) + " notrack"@;
        assert(i % 2 == 1);
        lemma_number_is_told(port, ports[i / 2], "tcp sport "@, " notrack"@);
        assert(ports.contains(ports[i / 2]));
    }
}

proof fn lemma_chain_names_differ()
    ensures
        "prerouting"@.len() == 10,
        "postrouting"@.len() == 11,
        "prerouting_raw"@.len() == 14,
        "output_raw"@.len() == 10,
        "forward"@.len() == 7,
        "prerouting"@ != "output_raw"@,
{
    reveal_strlit("prerouting");
    reveal_strlit("postrouting");
    reveal_strlit("prerouting_raw");
    reveal_strlit("output_raw");
    reveal_strlit("forward");
    assert("prerouting"@[0] == 'p' && "output_raw"@[0] == 'o');
}

proof fn lemma_port_rules_differ()
    ensures
        "tcp dport "@.len() == 10,
        "tcp sport "@.len() == 10,
        "tcp dport "@[4] == 'd',
        "tcp sport "@[4] == 's',
{
    reveal_strlit("tcp dport ");
    reveal_strlit("tcp sport ");
}

proof fn lemma_script_is_read(
    fw: Firewall,
    table: Seq<char>,
    script: Seq<char>,
    head: Seq<Seq<char>>,
    rules: Seq<Seq<char>>,
    told: Seq<(Seq<char>, Seq<char>)>,
)
    requires
        head.len() > 0,
        rules.len() > 0,
        rules.len() == told.len(),
        script == text::join(head, "\n"@) + "\n"@ + text::join(rules, "\n"@) + "\nNFT\n"@,
        forall|i: int| 0 <= i < head.len() ==> !(#[trigger] head[i]).contains('\n'),
        ({
            let opened = read_lines(fw, table, head);
            &&& opened.reading && !opened.inside && !opened.stopped
            &&& opened.rules.len() == 0
            &&& forall|i: int|
                0 <= i < rules.len() ==> #[trigger] rules[i] == adding(table, told[i])
                    && !told[i].0.contains(' ') && opened.chains.dom().contains(told[i].0)
                    && !rules[i].contains('\n')
        }),
    ensures
        ran(fw, table, script) == (Firewall {
            rules: told,
            reading: false,
            ..read_lines(fw, table, head)
        }),
{
    let nl = "\n"@;
    let opened = read_lines(fw, table, head);
    lemma_rules_are_read(opened, table, rules, told);
    let filled = read_lines(opened, table, rules);
    assert(filled.rules =~= told);
    lemma_closing(filled, table);
    let all = head + rules + closing();
    lemma_lines_then_lines(fw, table, head, rules);
    lemma_lines_then_lines(fw, table, head + rules, closing());
    lemma_join_then(head, rules, nl);
    lemma_join_then(head + rules, closing(), nl);
    assert("\nNFT\n"@ =~= nl + "NFT\n"@) by {
        reveal_strlit("\n");
        reveal_strlit("NFT\n");
        reveal_strlit("\nNFT\n");
    }
    assert(script =~= text::join(all, nl));
    assert forall|i: int| 0 <= i < all.len() implies !(#[trigger] all[i]).contains('\n') by {
        reveal_strlit("NFT");
        if i < head.len() {
            assert(all[i] == head[i]);
        } else if i < head.len() + rules.len() {
            assert(all[i] == rules[i - head.len()]);
        } else {
            assert(all[i] == closing()[i - head.len() - rules.len()]);
        }
    }
    assert(nl =~= seq!['\n']) by {
        reveal_strlit("\n");
    }
    text::lemma_split_joined(all, '\n', nl);
}

spec fn foldings(redirects: Seq<Redirect>) -> Seq<(Seq<char>, Seq<char>)> {
    Seq::new(
        redirects.len(),
        |i: int|
            (
                "prerouting"@,
                "udp dport "@ + numbers::decimal(redirects[i].start as int) + "-"@
                    + numbers::decimal(redirects[i].end as int) + " redirect to :"@
                    + numbers::decimal(redirects[i].to as int),
            ),
    ) + seq![
        ("prerouting_raw"@, "ip protocol icmp notrack"@),
        ("prerouting_raw"@, "ip6 nexthdr icmpv6 notrack"@),
        ("output_raw"@, "ip protocol icmp notrack"@),
        ("output_raw"@, "ip6 nexthdr icmpv6 notrack"@),
    ]
}

proof fn lemma_folding_line(r: Redirect)
    ensures
        hy2_port_hop::rule(r) == adding(
            "brocade_hy2_port_hop"@,
            (
                "prerouting"@,
                "udp dport "@ + numbers::decimal(r.start as int) + "-"@ + numbers::decimal(
                    r.end as int,
                ) + " redirect to :"@ + numbers::decimal(r.to as int),
            ),
        ),
        !hy2_port_hop::rule(r).contains('\n'),
        !"prerouting"@.contains(' '),
{
    numbers::lemma_decimal_digits(r.start as int);
    numbers::lemma_decimal_digits(r.end as int);
    numbers::lemma_decimal_digits(r.to as int);
    let (s, e, t) = (
        numbers::decimal(r.start as int),
        numbers::decimal(r.end as int),
        numbers::decimal(r.to as int),
    );
    reveal_strlit("add rule inet ");
    reveal_strlit("brocade_hy2_port_hop");
    reveal_strlit(" ");
    reveal_strlit("-");
    reveal_strlit("prerouting");
    reveal_strlit("udp dport ");
    reveal_strlit(" redirect to :");
    reveal_strlit("add rule inet brocade_hy2_port_hop prerouting udp dport ");
    let opening = "add rule inet brocade_hy2_port_hop prerouting udp dport "@;
    assert(opening =~= "add rule inet "@ + "brocade_hy2_port_hop"@ + " "@ + "prerouting"@ + " "@
        + "udp dport "@);
    assert(hy2_port_hop::rule(r) =~= adding(
        "brocade_hy2_port_hop"@,
        ("prerouting"@, "udp dport "@ + s + "-"@ + e + " redirect to :"@ + t),
    ));
    assert(!opening.contains('\n'));
    assert(!" redirect to :"@.contains('\n'));
    let line = hy2_port_hop::rule(r);
    assert forall|i: int| 0 <= i < line.len() implies line[i] != '\n' by {
        let a = opening.len() as int;
        let b = a + s.len();
        let c = b + 1;
        let d = c + e.len();
        let f = d + " redirect to :"@.len();
        if i < a {
            assert(line[i] == opening[i]);
        } else if i < b {
            assert(line[i] == s[i - a]);
        } else if i < c {
            assert(line[i] == "-"@[i - b]);
        } else if i < d {
            assert(line[i] == e[i - c]);
        } else if i < f {
            assert(line[i] == " redirect to :"@[i - d]);
        } else {
            assert(line[i] == t[i - f]);
        }
    }
}

proof fn lemma_echo_lines(i: int)
    requires
        0 <= i < 4,
    ensures
        hy2_port_hop::notrack_rules()[i] == adding("brocade_hy2_port_hop"@, foldings(seq![])[i]),
        !hy2_port_hop::notrack_rules()[i].contains('\n'),
        !"prerouting_raw"@.contains(' '),
        !"output_raw"@.contains(' '),
        hy2_port_hop::notrack_rules().len() == 4,
{
    reveal_strlit("add rule inet ");
    reveal_strlit("brocade_hy2_port_hop");
    reveal_strlit(" ");
    reveal_strlit("prerouting_raw");
    reveal_strlit("output_raw");
    reveal_strlit("ip protocol icmp notrack");
    reveal_strlit("ip6 nexthdr icmpv6 notrack");
    reveal_strlit("add rule inet brocade_hy2_port_hop prerouting_raw ip protocol icmp notrack");
    reveal_strlit("add rule inet brocade_hy2_port_hop prerouting_raw ip6 nexthdr icmpv6 notrack");
    reveal_strlit("add rule inet brocade_hy2_port_hop output_raw ip protocol icmp notrack");
    reveal_strlit("add rule inet brocade_hy2_port_hop output_raw ip6 nexthdr icmpv6 notrack");
    assert(hy2_port_hop::notrack_rules()[0] =~= adding(
        "brocade_hy2_port_hop"@,
        ("prerouting_raw"@, "ip protocol icmp notrack"@),
    ));
    assert(hy2_port_hop::notrack_rules()[1] =~= adding(
        "brocade_hy2_port_hop"@,
        ("prerouting_raw"@, "ip6 nexthdr icmpv6 notrack"@),
    ));
    assert(hy2_port_hop::notrack_rules()[2] =~= adding(
        "brocade_hy2_port_hop"@,
        ("output_raw"@, "ip protocol icmp notrack"@),
    ));
    assert(hy2_port_hop::notrack_rules()[3] =~= adding(
        "brocade_hy2_port_hop"@,
        ("output_raw"@, "ip6 nexthdr icmpv6 notrack"@),
    ));
}

/// Whatever the table held, after the script it folds each range onto its port where packets
/// come in, in the order that was asked for, and keeps ICMP of both families out of
/// connection tracking in both directions. It holds no other rule.
pub proof fn lemma_ranges_are_folded(fw: Firewall, redirects: Seq<Redirect>)
    requires
        at_first(fw),
        redirects.len() > 0,
    ensures
        ({
            let end = ran(fw, "brocade_hy2_port_hop"@, hy2_port_hop::install_script(redirects));
            let n = redirects.len() as int;
            &&& !end.stopped && !end.reading
            &&& end.chains.dom().contains("prerouting"@) && end.chains["prerouting"@] is NatPrerouting
            &&& end.chains.dom().contains("prerouting_raw"@)
                && end.chains["prerouting_raw"@] is RawPrerouting
            &&& end.chains.dom().contains("output_raw"@) && end.chains["output_raw"@] is RawOutput
            &&& end.rules.len() == n + 4
            &&& forall|i: int|
                0 <= i < n ==> #[trigger] end.rules[i] == (
                    "prerouting"@,
                    "udp dport "@ + numbers::decimal(redirects[i].start as int) + "-"@
                        + numbers::decimal(redirects[i].end as int) + " redirect to :"@
                        + numbers::decimal(redirects[i].to as int),
                )
            &&& end.rules[n] == ("prerouting_raw"@, "ip protocol icmp notrack"@)
            &&& end.rules[n + 1] == ("prerouting_raw"@, "ip6 nexthdr icmpv6 notrack"@)
            &&& end.rules[n + 2] == ("output_raw"@, "ip protocol icmp notrack"@)
            &&& end.rules[n + 3] == ("output_raw"@, "ip6 nexthdr icmpv6 notrack"@)
        }),
{
    let table = "brocade_hy2_port_hop"@;
    let nl = "\n"@;
    let head = hop_head();
    let told = foldings(redirects);
    let rules = hy2_port_hop::rules(redirects) + hy2_port_hop::notrack_rules();
    let script = hy2_port_hop::install_script(redirects);
    lemma_hop_head_text();
    lemma_hop_head_is_read(fw);
    lemma_chain_names_differ();
    let opened = read_lines(fw, table, head);
    let n = redirects.len();
    lemma_echo_lines(0);
    assert(hy2_port_hop::rules(redirects).len() == n);
    assert forall|i: int| 0 <= i < rules.len() implies #[trigger] rules[i] == adding(table, told[i])
        && !told[i].0.contains(' ') && opened.chains.dom().contains(told[i].0)
        && !rules[i].contains('\n') by {
        if i < n {
            lemma_folding_line(redirects[i]);
            assert(hy2_port_hop::rules(redirects)[i] == hy2_port_hop::rule(redirects[i]));
        } else {
            lemma_echo_lines(i - n);
            assert(told[i] == foldings(seq![])[i - n]);
        }
    }
    lemma_join_then(hy2_port_hop::rules(redirects), hy2_port_hop::notrack_rules(), nl);
    assert(script =~= text::join(head, nl) + nl + text::join(rules, nl) + "\nNFT\n"@);
    lemma_script_is_read(fw, table, script, head, rules, told);
}

spec fn steerings(instances: Seq<phantun::InstanceView>) -> Seq<(Seq<char>, Seq<char>)> {
    seq![
        ("forward"@, "iifname \"bt*\" accept"@),
        ("forward"@, "oifname \"bt*\" accept"@),
    ] + Seq::new(instances.len(), |i: int| steering(instances[i]))
}

/// The rule that a process of the disguise layer needs. What comes in for a server, and not
/// from the layer itself, goes to the far end of its device; what a client sends out of its
/// device gets an address of the machine.
pub open spec fn steering(instance: phantun::InstanceView) -> (Seq<char>, Seq<char>) {
    match instance.kind {
        phantun::KindView::Server { tcp_port, .. } => (
            "prerouting"@,
            "iifname != \"bt*\" tcp dport "@ + numbers::decimal(tcp_port as int) + " dnat ip to "@
                + instance.peer,
        ),
        phantun::KindView::Client { .. } => (
            "postrouting"@,
            "ip saddr "@ + instance.peer + " masquerade"@,
        ),
    }
}

proof fn lemma_steering_line(instance: phantun::InstanceView)
    requires
        !instance.peer.contains('\n'),
    ensures
        instance.rule() == adding("brocade"@, steering(instance)),
        !instance.rule().contains('\n'),
        !steering(instance).0.contains(' '),
{
    reveal_strlit("add rule inet ");
    reveal_strlit("brocade");
    reveal_strlit(" ");
    reveal_strlit("prerouting");
    reveal_strlit("postrouting");
    let peer = instance.peer;
    let line = instance.rule();
    match instance.kind {
        phantun::KindView::Server { tcp_port, .. } => {
            let n = numbers::decimal(tcp_port as int);
            numbers::lemma_decimal_digits(tcp_port as int);
            reveal_strlit("add rule inet brocade prerouting iifname != \"bt*\" tcp dport ");
            reveal_strlit("iifname != \"bt*\" tcp dport ");
            reveal_strlit(" dnat ip to ");
            let opening = "add rule inet brocade prerouting iifname != \"bt*\" tcp dport "@;
            let middle = " dnat ip to "@;
            assert(opening =~= "add rule inet "@ + "brocade"@ + " "@ + "prerouting"@ + " "@
                + "iifname != \"bt*\" tcp dport "@);
            assert(line =~= adding("brocade"@, steering(instance)));
            assert(!opening.contains('\n'));
            assert(!middle.contains('\n'));
            assert forall|i: int| 0 <= i < line.len() implies line[i] != '\n' by {
                let a = opening.len() as int;
                let b = a + n.len();
                let c = b + middle.len();
                if i < a {
                    assert(line[i] == opening[i]);
                } else if i < b {
                    assert(line[i] == n[i - a]);
                } else if i < c {
                    assert(line[i] == middle[i - b]);
                } else {
                    assert(line[i] == peer[i - c]);
                    assert(peer.contains(peer[i - c]));
                }
            }
        },
        phantun::KindView::Client { .. } => {
            reveal_strlit("add rule inet brocade postrouting ip saddr ");
            reveal_strlit("ip saddr ");
            reveal_strlit(" masquerade");
            let opening = "add rule inet brocade postrouting ip saddr "@;
            let ending = " masquerade"@;
            assert(opening =~= "add rule inet "@ + "brocade"@ + " "@ + "postrouting"@ + " "@
                + "ip saddr "@);
            assert(line =~= adding("brocade"@, steering(instance)));
            assert(!opening.contains('\n'));
            assert(!ending.contains('\n'));
            assert forall|i: int| 0 <= i < line.len() implies line[i] != '\n' by {
                let a = opening.len() as int;
                let b = a + peer.len();
                if i < a {
                    assert(line[i] == opening[i]);
                } else if i < b {
                    assert(line[i] == peer[i - a]);
                    assert(peer.contains(peer[i - a]));
                } else {
                    assert(line[i] == ending[i - b]);
                }
            }
        },
    }
}

/// Whatever the table held, after the script packets are forwarded, those of the disguise
/// layer's devices are let through in both directions, and each process has its rule where
/// it belongs. The table holds no other rule.
pub proof fn lemma_disguise_layer_gets_its_rules(
    fw: Firewall,
    instances: Seq<phantun::InstanceView>,
)
    requires
        at_first(fw),
        instances.len() > 0,
        forall|i: int| 0 <= i < instances.len() ==> !(#[trigger] instances[i]).peer.contains('\n'),
    ensures
        ({
            let end = ran(fw, "brocade"@, phantun::nat_script(phantun::rules_of(instances)));
            &&& !end.stopped && !end.reading && end.forwarding
            &&& end.chains.dom().contains("prerouting"@) && end.chains["prerouting"@] is NatPrerouting
            &&& end.chains.dom().contains("postrouting"@)
                && end.chains["postrouting"@] is NatPostrouting
            &&& end.chains.dom().contains("forward"@) && end.chains["forward"@] is Forward
            &&& end.rules.len() == 2 + instances.len()
            &&& end.rules[0] == ("forward"@, "iifname \"bt*\" accept"@)
            &&& end.rules[1] == ("forward"@, "oifname \"bt*\" accept"@)
            &&& forall|i: int|
                0 <= i < instances.len() ==> end.rules[2 + i] == steering(#[trigger] instances[i])
        }),
{
    let table = "brocade"@;
    let nl = "\n"@;
    let head = phantun_head();
    let told = steerings(instances);
    let first = "add rule inet brocade forward iifname \"bt*\" accept"@;
    let second = "add rule inet brocade forward oifname \"bt*\" accept"@;
    let own = phantun::rules_of(instances);
    let rules = seq![first, second] + own;
    let script = phantun::nat_script(own);
    lemma_phantun_head_text();
    lemma_phantun_head_is_read(fw);
    lemma_chain_names_differ();
    lemma_forward_lines();
    let opened = read_lines(fw, table, head);
    assert forall|i: int| 0 <= i < rules.len() implies #[trigger] rules[i] == adding(table, told[i])
        && !told[i].0.contains(' ') && opened.chains.dom().contains(told[i].0)
        && !rules[i].contains('\n') by {
        if i >= 2 {
            lemma_steering_line(instances[i - 2]);
            assert(told[i] == steering(instances[i - 2]));
        }
    }
    lemma_join_then(seq![first, second], own, nl);
    text::lemma_join_one_more(seq![first], second, nl);
    assert(seq![first].push(second) =~= seq![first, second]);
    assert(text::join(seq![first], nl) == first);
    lemma_phantun_opening();
    assert(script =~= text::join(head, nl) + nl + text::join(rules, nl) + "\nNFT\n"@);
    lemma_script_is_read(fw, table, script, head, rules, told);
}

proof fn lemma_forward_lines()
    ensures
        "add rule inet brocade forward iifname \"bt*\" accept"@ == adding(
            "brocade"@,
            ("forward"@, "iifname \"bt*\" accept"@),
        ),
        "add rule inet brocade forward oifname \"bt*\" accept"@ == adding(
            "brocade"@,
            ("forward"@, "oifname \"bt*\" accept"@),
        ),
        !"add rule inet brocade forward iifname \"bt*\" accept"@.contains('\n'),
        !"add rule inet brocade forward oifname \"bt*\" accept"@.contains('\n'),
        !"forward"@.contains(' '),
{
    reveal_strlit("add rule inet ");
    reveal_strlit("brocade");
    reveal_strlit(" ");
    reveal_strlit("forward");
    reveal_strlit("iifname \"bt*\" accept");
    reveal_strlit("oifname \"bt*\" accept");
    reveal_strlit("add rule inet brocade forward iifname \"bt*\" accept");
    reveal_strlit("add rule inet brocade forward oifname \"bt*\" accept");
}

/// Taking a table down leaves nothing of it, whatever it held.
pub proof fn lemma_table_is_taken_down(fw: Firewall)
    requires
        at_first(fw),
    ensures
        ran(fw, "brocade_conntrack"@, conntrack::disable_script()) == (Firewall {
            chains: Map::empty(),
            rules: seq![],
            ..fw
        }),
        ran(fw, "brocade_hy2_port_hop"@, hy2_port_hop::disable_script()) == (Firewall {
            chains: Map::empty(),
            rules: seq![],
            ..fw
        }),
        ran(fw, "brocade"@, phantun::table_down_script()) == (Firewall {
            chains: Map::empty(),
            rules: seq![],
            ..fw
        }),
{
    lemma_conntrack_lines_differ();
    lemma_hop_lines_differ();
    lemma_phantun_lines_differ();
    lemma_only_line(fw, "brocade"@, phantun::table_down_script());
    reveal_strlit("nft delete table inet brocade 2>/dev/null || true");
    lemma_only_line(fw, "brocade_conntrack"@, conntrack::disable_script());
    lemma_only_line(fw, "brocade_hy2_port_hop"@, hy2_port_hop::disable_script());
    reveal_strlit("nft delete table inet brocade_conntrack 2>/dev/null || true");
    reveal_strlit("nft delete table inet brocade_hy2_port_hop 2>/dev/null || true");
}

proof fn lemma_only_line(fw: Firewall, table: Seq<char>, line: Seq<char>)
    ensures
        !line.contains('\n') ==> ran(fw, table, line) == read_line(fw, table, line),
{
    if !line.contains('\n') {
        let none = Seq::<Seq<char>>::empty();
        text::lemma_split_joined(seq![line], '\n', seq!['\n']);
        assert(text::join(seq![line], seq!['\n']) == line);
        lemma_line_more(fw, table, none, line);
        assert(none.push(line) =~= seq![line]);
        assert(read_lines(fw, table, none) == fw);
    }
}

proof fn lemma_phantun_opening()
    ensures
        "set -eu\ncommand -v nft >/dev/null 2>&1 || { echo '需要 nft（nftables）来给 phantun 配 NAT' >&2; exit 1; }\nsysctl -qw net.ipv4.ip_forward=1\nnft delete table inet brocade 2>/dev/null || true\nnft -f - <<'NFT'\ntable inet brocade {\nchain prerouting { type nat hook prerouting priority -100; }\nchain postrouting { type nat hook postrouting priority 100; }\nchain forward { type filter hook forward priority 0; }\n}\nadd rule inet brocade forward iifname \"bt*\" accept\nadd rule inet brocade forward oifname \"bt*\" accept\n"@
            == "set -eu\ncommand -v nft >/dev/null 2>&1 || { echo '需要 nft（nftables）来给 phantun 配 NAT' >&2; exit 1; }\nsysctl -qw net.ipv4.ip_forward=1\nnft delete table inet brocade 2>/dev/null || true\nnft -f - <<'NFT'\ntable inet brocade {\nchain prerouting { type nat hook prerouting priority -100; }\nchain postrouting { type nat hook postrouting priority 100; }\nchain forward { type filter hook forward priority 0; }\n}\n"@
            + "add rule inet brocade forward iifname \"bt*\" accept"@ + "\n"@
            + "add rule inet brocade forward oifname \"bt*\" accept"@ + "\n"@,
{
    reveal_strlit("\n");
    reveal_strlit("add rule inet brocade forward iifname \"bt*\" accept");
    reveal_strlit("add rule inet brocade forward oifname \"bt*\" accept");
    reveal_strlit("set -eu\ncommand -v nft >/dev/null 2>&1 || { echo '需要 nft（nftables）来给 phantun 配 NAT' >&2; exit 1; }\nsysctl -qw net.ipv4.ip_forward=1\nnft delete table inet brocade 2>/dev/null || true\nnft -f - <<'NFT'\ntable inet brocade {\nchain prerouting { type nat hook prerouting priority -100; }\nchain postrouting { type nat hook postrouting priority 100; }\nchain forward { type filter hook forward priority 0; }\n}\n");
    reveal_strlit("set -eu\ncommand -v nft >/dev/null 2>&1 || { echo '需要 nft（nftables）来给 phantun 配 NAT' >&2; exit 1; }\nsysctl -qw net.ipv4.ip_forward=1\nnft delete table inet brocade 2>/dev/null || true\nnft -f - <<'NFT'\ntable inet brocade {\nchain prerouting { type nat hook prerouting priority -100; }\nchain postrouting { type nat hook postrouting priority 100; }\nchain forward { type filter hook forward priority 0; }\n}\nadd rule inet brocade forward iifname \"bt*\" accept\nadd rule inet brocade forward oifname \"bt*\" accept\n");
}

/// A chain that belongs to somebody else, where it is there: its rules in order, each with
/// whether it bears this layer's mark.
pub enum Chain {
    Missing,
    Rules(Seq<(Seq<char>, bool)>),
}

/// A shell that works on that chain.
pub struct Keeper {
    pub chain: Chain,
    /// Whether it ended, and whether that was with success.
    pub ended: Option<bool>,
    /// Whether the last line succeeded.
    pub good: bool,
}

/// The rules without the mark.
pub open spec fn unmarked(rules: Seq<(Seq<char>, bool)>) -> Seq<(Seq<char>, bool)> {
    rules.filter(|rule: (Seq<char>, bool)| !rule.1)
}

/// What it does at a line; at one that it does not know it ends without success.
pub open spec fn keep_line(k: Keeper, line: Seq<char>) -> Keeper {
    if k.ended is Some {
        k
    } else if line == "nft list chain ip filter DOCKER-USER >/dev/null 2>&1 || exit 0"@ {
        match k.chain {
            Chain::Missing => Keeper { ended: Some(true), ..k },
            Chain::Rules(_) => Keeper { good: true, ..k },
        }
    } else {
        match k.chain {
            Chain::Missing => Keeper { ended: Some(false), ..k },
            Chain::Rules(rules) => if line
                == "nft -a list chain ip filter DOCKER-USER 2>/dev/null | grep 'comment \"brocade\"' | grep -o 'handle [0-9]*' | awk '{print $2}' | while read -r h; do nft delete rule ip filter DOCKER-USER handle $h || true; done"@
                || line
                == "nft -a list chain ip filter DOCKER-USER 2>/dev/null | grep 'comment \"brocade\"' | grep -o 'handle [0-9]*' | awk '{print $2}' | while read -r h; do nft delete rule ip filter DOCKER-USER handle \"$h\" || true; done"@ {
                Keeper { chain: Chain::Rules(unmarked(rules)), good: true, ..k }
            } else if line == "nft insert rule ip filter DOCKER-USER iifname \"bt*\" accept comment \"brocade\""@ {
                Keeper {
                    chain: Chain::Rules(seq![("iifname \"bt*\" accept"@, true)] + rules),
                    good: true,
                    ..k
                }
            } else if line == "nft insert rule ip filter DOCKER-USER oifname \"bt*\" accept comment \"brocade\""@ {
                Keeper {
                    chain: Chain::Rules(seq![("oifname \"bt*\" accept"@, true)] + rules),
                    good: true,
                    ..k
                }
            } else if line == "nft list chain ip filter DOCKER-USER 2>/dev/null | grep -q 'comment \"brocade\"'"@ {
                Keeper {
                    good: exists|i: int| 0 <= i < rules.len() && (#[trigger] rules[i]).1,
                    ..k
                }
            } else if text::starts_with(line, "echo '"@) {
                Keeper { good: true, ..k }
            } else {
                Keeper { ended: Some(false), ..k }
            },
        }
    }
}

/// What it does at lines, one after the other.
pub open spec fn keep_lines(k: Keeper, lines: Seq<Seq<char>>) -> Keeper
    decreases lines.len(),
{
    if lines.len() == 0 {
        k
    } else {
        keep_line(keep_lines(k, lines.drop_last()), lines.last())
    }
}

/// What a script leaves of a chain, and whether it succeeds.
pub open spec fn kept(chain: Chain, script: Seq<char>) -> (Chain, bool) {
    let end = keep_lines(
        Keeper { chain, ended: None, good: true },
        text::split_char(script, '\n'),
    );
    (
        end.chain,
        match end.ended {
            Some(good) => good,
            None => end.good,
        },
    )
}

proof fn lemma_keep_more(k: Keeper, lines: Seq<Seq<char>>, line: Seq<char>)
    ensures
        keep_lines(k, lines.push(line)) == keep_line(keep_lines(k, lines), line),
{
    assert(lines.push(line).drop_last() =~= lines);
}

proof fn lemma_allow_text()
    ensures
        text::split_char("nft list chain ip filter DOCKER-USER >/dev/null 2>&1 || exit 0\nnft -a list chain ip filter DOCKER-USER 2>/dev/null | grep 'comment \"brocade\"' | grep -o 'handle [0-9]*' | awk '{print $2}' | while read -r h; do nft delete rule ip filter DOCKER-USER handle $h || true; done\nnft insert rule ip filter DOCKER-USER iifname \"bt*\" accept comment \"brocade\"\nnft insert rule ip filter DOCKER-USER oifname \"bt*\" accept comment \"brocade\"\necho 'phantun: 已在 DOCKER-USER 里放行 bt* 的转发' >&2"@, '\n') == seq![
            "nft list chain ip filter DOCKER-USER >/dev/null 2>&1 || exit 0"@,
            "nft -a list chain ip filter DOCKER-USER 2>/dev/null | grep 'comment \"brocade\"' | grep -o 'handle [0-9]*' | awk '{print $2}' | while read -r h; do nft delete rule ip filter DOCKER-USER handle $h || true; done"@,
            "nft insert rule ip filter DOCKER-USER iifname \"bt*\" accept comment \"brocade\""@,
            "nft insert rule ip filter DOCKER-USER oifname \"bt*\" accept comment \"brocade\""@,
            "echo 'phantun: 已在 DOCKER-USER 里放行 bt* 的转发' >&2"@,
        ],
{
    let all = seq![
        "nft list chain ip filter DOCKER-USER >/dev/null 2>&1 || exit 0"@,
        "nft -a list chain ip filter DOCKER-USER 2>/dev/null | grep 'comment \"brocade\"' | grep -o 'handle [0-9]*' | awk '{print $2}' | while read -r h; do nft delete rule ip filter DOCKER-USER handle $h || true; done"@,
        "nft insert rule ip filter DOCKER-USER iifname \"bt*\" accept comment \"brocade\""@,
        "nft insert rule ip filter DOCKER-USER oifname \"bt*\" accept comment \"brocade\""@,
        "echo 'phantun: 已在 DOCKER-USER 里放行 bt* 的转发' >&2"@,
    ];
    let nl = "\n"@;
    let a1 = seq![all[0]];
    let a2 = a1.push(all[1]);
    let a3 = a2.push(all[2]);
    let a4 = a3.push(all[3]);
    let a5 = a4.push(all[4]);
    text::lemma_join_one_more(a1, all[1], nl);
    text::lemma_join_one_more(a2, all[2], nl);
    text::lemma_join_one_more(a3, all[3], nl);
    text::lemma_join_one_more(a4, all[4], nl);
    assert(a5 =~= all);
    reveal_strlit("\n");
    reveal_strlit("nft list chain ip filter DOCKER-USER >/dev/null 2>&1 || exit 0");
    reveal_strlit("nft -a list chain ip filter DOCKER-USER 2>/dev/null | grep 'comment \"brocade\"' | grep -o 'handle [0-9]*' | awk '{print $2}' | while read -r h; do nft delete rule ip filter DOCKER-USER handle $h || true; done");
    reveal_strlit("nft insert rule ip filter DOCKER-USER iifname \"bt*\" accept comment \"brocade\"");
    reveal_strlit("nft insert rule ip filter DOCKER-USER oifname \"bt*\" accept comment \"brocade\"");
    reveal_strlit("echo 'phantun: 已在 DOCKER-USER 里放行 bt* 的转发' >&2");
    reveal_strlit("nft list chain ip filter DOCKER-USER >/dev/null 2>&1 || exit 0\nnft -a list chain ip filter DOCKER-USER 2>/dev/null | grep 'comment \"brocade\"' | grep -o 'handle [0-9]*' | awk '{print $2}' | while read -r h; do nft delete rule ip filter DOCKER-USER handle $h || true; done\nnft insert rule ip filter DOCKER-USER iifname \"bt*\" accept comment \"brocade\"\nnft insert rule ip filter DOCKER-USER oifname \"bt*\" accept comment \"brocade\"\necho 'phantun: 已在 DOCKER-USER 里放行 bt* 的转发' >&2");
    assert(nl =~= seq!['\n']);
    assert("nft list chain ip filter DOCKER-USER >/dev/null 2>&1 || exit 0\nnft -a list chain ip filter DOCKER-USER 2>/dev/null | grep 'comment \"brocade\"' | grep -o 'handle [0-9]*' | awk '{print $2}' | while read -r h; do nft delete rule ip filter DOCKER-USER handle $h || true; done\nnft insert rule ip filter DOCKER-USER iifname \"bt*\" accept comment \"brocade\"\nnft insert rule ip filter DOCKER-USER oifname \"bt*\" accept comment \"brocade\"\necho 'phantun: 已在 DOCKER-USER 里放行 bt* 的转发' >&2"@ =~= text::join(all, nl));
    assert forall|i: int| 0 <= i < all.len() implies !(#[trigger] all[i]).contains('\n') by {}
    text::lemma_split_joined(all, '\n', nl);
}

proof fn lemma_withdraw_text()
    ensures
        text::split_char("nft list chain ip filter DOCKER-USER >/dev/null 2>&1 || exit 0\nnft -a list chain ip filter DOCKER-USER 2>/dev/null | grep 'comment \"brocade\"' | grep -o 'handle [0-9]*' | awk '{print $2}' | while read -r h; do nft delete rule ip filter DOCKER-USER handle \"$h\" || true; done"@, '\n') == seq![
            "nft list chain ip filter DOCKER-USER >/dev/null 2>&1 || exit 0"@,
            "nft -a list chain ip filter DOCKER-USER 2>/dev/null | grep 'comment \"brocade\"' | grep -o 'handle [0-9]*' | awk '{print $2}' | while read -r h; do nft delete rule ip filter DOCKER-USER handle \"$h\" || true; done"@,
        ],
{
    let all = seq![
        "nft list chain ip filter DOCKER-USER >/dev/null 2>&1 || exit 0"@,
        "nft -a list chain ip filter DOCKER-USER 2>/dev/null | grep 'comment \"brocade\"' | grep -o 'handle [0-9]*' | awk '{print $2}' | while read -r h; do nft delete rule ip filter DOCKER-USER handle \"$h\" || true; done"@,
    ];
    let nl = "\n"@;
    let a1 = seq![all[0]];
    let a2 = a1.push(all[1]);
    text::lemma_join_one_more(a1, all[1], nl);
    assert(a2 =~= all);
    reveal_strlit("\n");
    reveal_strlit("nft list chain ip filter DOCKER-USER >/dev/null 2>&1 || exit 0");
    reveal_strlit("nft -a list chain ip filter DOCKER-USER 2>/dev/null | grep 'comment \"brocade\"' | grep -o 'handle [0-9]*' | awk '{print $2}' | while read -r h; do nft delete rule ip filter DOCKER-USER handle \"$h\" || true; done");
    reveal_strlit("nft list chain ip filter DOCKER-USER >/dev/null 2>&1 || exit 0\nnft -a list chain ip filter DOCKER-USER 2>/dev/null | grep 'comment \"brocade\"' | grep -o 'handle [0-9]*' | awk '{print $2}' | while read -r h; do nft delete rule ip filter DOCKER-USER handle \"$h\" || true; done");
    assert(nl =~= seq!['\n']);
    assert("nft list chain ip filter DOCKER-USER >/dev/null 2>&1 || exit 0\nnft -a list chain ip filter DOCKER-USER 2>/dev/null | grep 'comment \"brocade\"' | grep -o 'handle [0-9]*' | awk '{print $2}' | while read -r h; do nft delete rule ip filter DOCKER-USER handle \"$h\" || true; done"@ =~= text::join(all, nl));
    assert forall|i: int| 0 <= i < all.len() implies !(#[trigger] all[i]).contains('\n') by {}
    text::lemma_split_joined(all, '\n', nl);
}

proof fn lemma_check_text()
    ensures
        text::split_char("nft list chain ip filter DOCKER-USER >/dev/null 2>&1 || exit 0\nnft list chain ip filter DOCKER-USER 2>/dev/null | grep -q 'comment \"brocade\"'"@, '\n') == seq![
            "nft list chain ip filter DOCKER-USER >/dev/null 2>&1 || exit 0"@,
            "nft list chain ip filter DOCKER-USER 2>/dev/null | grep -q 'comment \"brocade\"'"@,
        ],
{
    let all = seq![
        "nft list chain ip filter DOCKER-USER >/dev/null 2>&1 || exit 0"@,
        "nft list chain ip filter DOCKER-USER 2>/dev/null | grep -q 'comment \"brocade\"'"@,
    ];
    let nl = "\n"@;
    let a1 = seq![all[0]];
    let a2 = a1.push(all[1]);
    text::lemma_join_one_more(a1, all[1], nl);
    assert(a2 =~= all);
    reveal_strlit("\n");
    reveal_strlit("nft list chain ip filter DOCKER-USER >/dev/null 2>&1 || exit 0");
    reveal_strlit("nft list chain ip filter DOCKER-USER 2>/dev/null | grep -q 'comment \"brocade\"'");
    reveal_strlit("nft list chain ip filter DOCKER-USER >/dev/null 2>&1 || exit 0\nnft list chain ip filter DOCKER-USER 2>/dev/null | grep -q 'comment \"brocade\"'");
    assert(nl =~= seq!['\n']);
    assert("nft list chain ip filter DOCKER-USER >/dev/null 2>&1 || exit 0\nnft list chain ip filter DOCKER-USER 2>/dev/null | grep -q 'comment \"brocade\"'"@ =~= text::join(all, nl));
    assert forall|i: int| 0 <= i < all.len() implies !(#[trigger] all[i]).contains('\n') by {}
    text::lemma_split_joined(all, '\n', nl);
}

proof fn lemma_keeping_lines_differ()
    ensures
        "nft list chain ip filter DOCKER-USER >/dev/null 2>&1 || exit 0"@ != "nft -a list chain ip filter DOCKER-USER 2>/dev/null | grep 'comment \"brocade\"' | grep -o 'handle [0-9]*' | awk '{print $2}' | while read -r h; do nft delete rule ip filter DOCKER-USER handle $h || true; done"@,
        "nft list chain ip filter DOCKER-USER >/dev/null 2>&1 || exit 0"@ != "nft -a list chain ip filter DOCKER-USER 2>/dev/null | grep 'comment \"brocade\"' | grep -o 'handle [0-9]*' | awk '{print $2}' | while read -r h; do nft delete rule ip filter DOCKER-USER handle \"$h\" || true; done"@,
        "nft list chain ip filter DOCKER-USER >/dev/null 2>&1 || exit 0"@ != "nft insert rule ip filter DOCKER-USER iifname \"bt*\" accept comment \"brocade\""@,
        "nft list chain ip filter DOCKER-USER >/dev/null 2>&1 || exit 0"@ != "nft insert rule ip filter DOCKER-USER oifname \"bt*\" accept comment \"brocade\""@,
        "nft list chain ip filter DOCKER-USER >/dev/null 2>&1 || exit 0"@ != "nft list chain ip filter DOCKER-USER 2>/dev/null | grep -q 'comment \"brocade\"'"@,
        "nft list chain ip filter DOCKER-USER >/dev/null 2>&1 || exit 0"@ != "echo 'phantun: 已在 DOCKER-USER 里放行 bt* 的转发' >&2"@,
        "nft -a list chain ip filter DOCKER-USER 2>/dev/null | grep 'comment \"brocade\"' | grep -o 'handle [0-9]*' | awk '{print $2}' | while read -r h; do nft delete rule ip filter DOCKER-USER handle $h || true; done"@ != "nft -a list chain ip filter DOCKER-USER 2>/dev/null | grep 'comment \"brocade\"' | grep -o 'handle [0-9]*' | awk '{print $2}' | while read -r h; do nft delete rule ip filter DOCKER-USER handle \"$h\" || true; done"@,
        "nft -a list chain ip filter DOCKER-USER 2>/dev/null | grep 'comment \"brocade\"' | grep -o 'handle [0-9]*' | awk '{print $2}' | while read -r h; do nft delete rule ip filter DOCKER-USER handle $h || true; done"@ != "nft insert rule ip filter DOCKER-USER iifname \"bt*\" accept comment \"brocade\""@,
        "nft -a list chain ip filter DOCKER-USER 2>/dev/null | grep 'comment \"brocade\"' | grep -o 'handle [0-9]*' | awk '{print $2}' | while read -r h; do nft delete rule ip filter DOCKER-USER handle $h || true; done"@ != "nft insert rule ip filter DOCKER-USER oifname \"bt*\" accept comment \"brocade\""@,
        "nft -a list chain ip filter DOCKER-USER 2>/dev/null | grep 'comment \"brocade\"' | grep -o 'handle [0-9]*' | awk '{print $2}' | while read -r h; do nft delete rule ip filter DOCKER-USER handle $h || true; done"@ != "nft list chain ip filter DOCKER-USER 2>/dev/null | grep -q 'comment \"brocade\"'"@,
        "nft -a list chain ip filter DOCKER-USER 2>/dev/null | grep 'comment \"brocade\"' | grep -o 'handle [0-9]*' | awk '{print $2}' | while read -r h; do nft delete rule ip filter DOCKER-USER handle $h || true; done"@ != "echo 'phantun: 已在 DOCKER-USER 里放行 bt* 的转发' >&2"@,
        "nft -a list chain ip filter DOCKER-USER 2>/dev/null | grep 'comment \"brocade\"' | grep -o 'handle [0-9]*' | awk '{print $2}' | while read -r h; do nft delete rule ip filter DOCKER-USER handle \"$h\" || true; done"@ != "nft insert rule ip filter DOCKER-USER iifname \"bt*\" accept comment \"brocade\""@,
        "nft -a list chain ip filter DOCKER-USER 2>/dev/null | grep 'comment \"brocade\"' | grep -o 'handle [0-9]*' | awk '{print $2}' | while read -r h; do nft delete rule ip filter DOCKER-USER handle \"$h\" || true; done"@ != "nft insert rule ip filter DOCKER-USER oifname \"bt*\" accept comment \"brocade\""@,
        "nft -a list chain ip filter DOCKER-USER 2>/dev/null | grep 'comment \"brocade\"' | grep -o 'handle [0-9]*' | awk '{print $2}' | while read -r h; do nft delete rule ip filter DOCKER-USER handle \"$h\" || true; done"@ != "nft list chain ip filter DOCKER-USER 2>/dev/null | grep -q 'comment \"brocade\"'"@,
        "nft -a list chain ip filter DOCKER-USER 2>/dev/null | grep 'comment \"brocade\"' | grep -o 'handle [0-9]*' | awk '{print $2}' | while read -r h; do nft delete rule ip filter DOCKER-USER handle \"$h\" || true; done"@ != "echo 'phantun: 已在 DOCKER-USER 里放行 bt* 的转发' >&2"@,
        "nft insert rule ip filter DOCKER-USER iifname \"bt*\" accept comment \"brocade\""@ != "nft insert rule ip filter DOCKER-USER oifname \"bt*\" accept comment \"brocade\""@,
        "nft insert rule ip filter DOCKER-USER iifname \"bt*\" accept comment \"brocade\""@ != "nft list chain ip filter DOCKER-USER 2>/dev/null | grep -q 'comment \"brocade\"'"@,
        "nft insert rule ip filter DOCKER-USER iifname \"bt*\" accept comment \"brocade\""@ != "echo 'phantun: 已在 DOCKER-USER 里放行 bt* 的转发' >&2"@,
        "nft insert rule ip filter DOCKER-USER oifname \"bt*\" accept comment \"brocade\""@ != "nft list chain ip filter DOCKER-USER 2>/dev/null | grep -q 'comment \"brocade\"'"@,
        "nft insert rule ip filter DOCKER-USER oifname \"bt*\" accept comment \"brocade\""@ != "echo 'phantun: 已在 DOCKER-USER 里放行 bt* 的转发' >&2"@,
        "nft list chain ip filter DOCKER-USER 2>/dev/null | grep -q 'comment \"brocade\"'"@ != "echo 'phantun: 已在 DOCKER-USER 里放行 bt* 的转发' >&2"@,
        text::starts_with("echo 'phantun: 已在 DOCKER-USER 里放行 bt* 的转发' >&2"@, "echo '"@),
{
    reveal_strlit("nft list chain ip filter DOCKER-USER >/dev/null 2>&1 || exit 0");
    reveal_strlit("nft -a list chain ip filter DOCKER-USER 2>/dev/null | grep 'comment \"brocade\"' | grep -o 'handle [0-9]*' | awk '{print $2}' | while read -r h; do nft delete rule ip filter DOCKER-USER handle $h || true; done");
    reveal_strlit("nft -a list chain ip filter DOCKER-USER 2>/dev/null | grep 'comment \"brocade\"' | grep -o 'handle [0-9]*' | awk '{print $2}' | while read -r h; do nft delete rule ip filter DOCKER-USER handle \"$h\" || true; done");
    reveal_strlit("nft insert rule ip filter DOCKER-USER iifname \"bt*\" accept comment \"brocade\"");
    reveal_strlit("nft insert rule ip filter DOCKER-USER oifname \"bt*\" accept comment \"brocade\"");
    reveal_strlit("nft list chain ip filter DOCKER-USER 2>/dev/null | grep -q 'comment \"brocade\"'");
    reveal_strlit("echo 'phantun: 已在 DOCKER-USER 里放行 bt* 的转发' >&2");
    reveal_strlit("echo '");
    assert("echo 'phantun: 已在 DOCKER-USER 里放行 bt* 的转发' >&2"@.subrange(0, 6) =~= "echo '"@);
    assert("nft list chain ip filter DOCKER-USER >/dev/null 2>&1 || exit 0"@.len() != "nft -a list chain ip filter DOCKER-USER 2>/dev/null | grep 'comment \"brocade\"' | grep -o 'handle [0-9]*' | awk '{print $2}' | while read -r h; do nft delete rule ip filter DOCKER-USER handle $h || true; done"@.len());
    assert("nft list chain ip filter DOCKER-USER >/dev/null 2>&1 || exit 0"@.len() != "nft -a list chain ip filter DOCKER-USER 2>/dev/null | grep 'comment \"brocade\"' | grep -o 'handle [0-9]*' | awk '{print $2}' | while read -r h; do nft delete rule ip filter DOCKER-USER handle \"$h\" || true; done"@.len());
    assert("nft list chain ip filter DOCKER-USER >/dev/null 2>&1 || exit 0"@.len() != "nft insert rule ip filter DOCKER-USER iifname \"bt*\" accept comment \"brocade\""@.len());
    assert("nft list chain ip filter DOCKER-USER >/dev/null 2>&1 || exit 0"@.len() != "nft insert rule ip filter DOCKER-USER oifname \"bt*\" accept comment \"brocade\""@.len());
    assert("nft list chain ip filter DOCKER-USER >/dev/null 2>&1 || exit 0"@.len() != "nft list chain ip filter DOCKER-USER 2>/dev/null | grep -q 'comment \"brocade\"'"@.len());
    assert("nft list chain ip filter DOCKER-USER >/dev/null 2>&1 || exit 0"@.len() != "echo 'phantun: 已在 DOCKER-USER 里放行 bt* 的转发' >&2"@.len());
    assert("nft -a list chain ip filter DOCKER-USER 2>/dev/null | grep 'comment \"brocade\"' | grep -o 'handle [0-9]*' | awk '{print $2}' | while read -r h; do nft delete rule ip filter DOCKER-USER handle $h || true; done"@.len() != "nft -a list chain ip filter DOCKER-USER 2>/dev/null | grep 'comment \"brocade\"' | grep -o 'handle [0-9]*' | awk '{print $2}' | while read -r h; do nft delete rule ip filter DOCKER-USER handle \"$h\" || true; done"@.len());
    assert("nft -a list chain ip filter DOCKER-USER 2>/dev/null | grep 'comment \"brocade\"' | grep -o 'handle [0-9]*' | awk '{print $2}' | while read -r h; do nft delete rule ip filter DOCKER-USER handle $h || true; done"@.len() != "nft insert rule ip filter DOCKER-USER iifname \"bt*\" accept comment \"brocade\""@.len());
    assert("nft -a list chain ip filter DOCKER-USER 2>/dev/null | grep 'comment \"brocade\"' | grep -o 'handle [0-9]*' | awk '{print $2}' | while read -r h; do nft delete rule ip filter DOCKER-USER handle $h || true; done"@.len() != "nft insert rule ip filter DOCKER-USER oifname \"bt*\" accept comment \"brocade\""@.len());
    assert("nft -a list chain ip filter DOCKER-USER 2>/dev/null | grep 'comment \"brocade\"' | grep -o 'handle [0-9]*' | awk '{print $2}' | while read -r h; do nft delete rule ip filter DOCKER-USER handle $h || true; done"@.len() != "nft list chain ip filter DOCKER-USER 2>/dev/null | grep -q 'comment \"brocade\"'"@.len());
    assert("nft -a list chain ip filter DOCKER-USER 2>/dev/null | grep 'comment \"brocade\"' | grep -o 'handle [0-9]*' | awk '{print $2}' | while read -r h; do nft delete rule ip filter DOCKER-USER handle $h || true; done"@.len() != "echo 'phantun: 已在 DOCKER-USER 里放行 bt* 的转发' >&2"@.len());
    assert("nft -a list chain ip filter DOCKER-USER 2>/dev/null | grep 'comment \"brocade\"' | grep -o 'handle [0-9]*' | awk '{print $2}' | while read -r h; do nft delete rule ip filter DOCKER-USER handle \"$h\" || true; done"@.len() != "nft insert rule ip filter DOCKER-USER iifname \"bt*\" accept comment \"brocade\""@.len());
    assert("nft -a list chain ip filter DOCKER-USER 2>/dev/null | grep 'comment \"brocade\"' | grep -o 'handle [0-9]*' | awk '{print $2}' | while read -r h; do nft delete rule ip filter DOCKER-USER handle \"$h\" || true; done"@.len() != "nft insert rule ip filter DOCKER-USER oifname \"bt*\" accept comment \"brocade\""@.len());
    assert("nft -a list chain ip filter DOCKER-USER 2>/dev/null | grep 'comment \"brocade\"' | grep -o 'handle [0-9]*' | awk '{print $2}' | while read -r h; do nft delete rule ip filter DOCKER-USER handle \"$h\" || true; done"@.len() != "nft list chain ip filter DOCKER-USER 2>/dev/null | grep -q 'comment \"brocade\"'"@.len());
    assert("nft -a list chain ip filter DOCKER-USER 2>/dev/null | grep 'comment \"brocade\"' | grep -o 'handle [0-9]*' | awk '{print $2}' | while read -r h; do nft delete rule ip filter DOCKER-USER handle \"$h\" || true; done"@.len() != "echo 'phantun: 已在 DOCKER-USER 里放行 bt* 的转发' >&2"@.len());
    assert("nft insert rule ip filter DOCKER-USER iifname \"bt*\" accept comment \"brocade\""@[38] != "nft insert rule ip filter DOCKER-USER oifname \"bt*\" accept comment \"brocade\""@[38]);
    assert("nft insert rule ip filter DOCKER-USER iifname \"bt*\" accept comment \"brocade\""@.len() != "nft list chain ip filter DOCKER-USER 2>/dev/null | grep -q 'comment \"brocade\"'"@.len());
    assert("nft insert rule ip filter DOCKER-USER iifname \"bt*\" accept comment \"brocade\""@.len() != "echo 'phantun: 已在 DOCKER-USER 里放行 bt* 的转发' >&2"@.len());
    assert("nft insert rule ip filter DOCKER-USER oifname \"bt*\" accept comment \"brocade\""@.len() != "nft list chain ip filter DOCKER-USER 2>/dev/null | grep -q 'comment \"brocade\"'"@.len());
    assert("nft insert rule ip filter DOCKER-USER oifname \"bt*\" accept comment \"brocade\""@.len() != "echo 'phantun: 已在 DOCKER-USER 里放行 bt* 的转发' >&2"@.len());
    assert("nft list chain ip filter DOCKER-USER 2>/dev/null | grep -q 'comment \"brocade\"'"@.len() != "echo 'phantun: 已在 DOCKER-USER 里放行 bt* 的转发' >&2"@.len());
}

/// A chain that is not there is left so, and that is a success. One that is there keeps the
/// rules of others in their order: letting this layer's packets through puts two rules of its
/// own before them, in place of any it had, and withdrawing leaves none.
pub proof fn lemma_rules_of_others_are_kept(rules: Seq<(Seq<char>, bool)>)
    ensures
        kept(Chain::Missing, phantun::allow_script()) == (Chain::Missing, true),
        kept(Chain::Missing, phantun::withdraw_script()) == (Chain::Missing, true),
        kept(Chain::Missing, phantun::still_allowed_script()) == (Chain::Missing, true),
        kept(Chain::Rules(rules), phantun::allow_script()) == (
            Chain::Rules(
                seq![("oifname \"bt*\" accept"@, true)] + (seq![("iifname \"bt*\" accept"@, true)]
                    + unmarked(rules)),
            ),
            true,
        ),
        kept(Chain::Rules(rules), phantun::withdraw_script()) == (Chain::Rules(unmarked(rules)), true),
        kept(Chain::Rules(rules), phantun::still_allowed_script()) == (
            Chain::Rules(rules),
            exists|i: int| 0 <= i < rules.len() && (#[trigger] rules[i]).1,
        ),
{
    lemma_keeping_lines_differ();
    lemma_allow_text();
    lemma_withdraw_text();
    lemma_check_text();
    let none = Seq::<Seq<char>>::empty();
    let first = none.push("nft list chain ip filter DOCKER-USER >/dev/null 2>&1 || exit 0"@);
    let a2 = first.push("nft -a list chain ip filter DOCKER-USER 2>/dev/null | grep 'comment \"brocade\"' | grep -o 'handle [0-9]*' | awk '{print $2}' | while read -r h; do nft delete rule ip filter DOCKER-USER handle $h || true; done"@);
    let a3 = a2.push("nft insert rule ip filter DOCKER-USER iifname \"bt*\" accept comment \"brocade\""@);
    let a4 = a3.push("nft insert rule ip filter DOCKER-USER oifname \"bt*\" accept comment \"brocade\""@);
    let a5 = a4.push("echo 'phantun: 已在 DOCKER-USER 里放行 bt* 的转发' >&2"@);
    let w2 = first.push("nft -a list chain ip filter DOCKER-USER 2>/dev/null | grep 'comment \"brocade\"' | grep -o 'handle [0-9]*' | awk '{print $2}' | while read -r h; do nft delete rule ip filter DOCKER-USER handle \"$h\" || true; done"@);
    let c2 = first.push("nft list chain ip filter DOCKER-USER 2>/dev/null | grep -q 'comment \"brocade\"'"@);
    assert(a5 =~= text::split_char(phantun::allow_script(), '\n'));
    assert(w2 =~= text::split_char(phantun::withdraw_script(), '\n'));
    assert(c2 =~= text::split_char(phantun::still_allowed_script(), '\n'));
    lemma_keeping(Chain::Missing, none, first, a2, a3, a4, a5, w2, c2);
    lemma_keeping(Chain::Rules(rules), none, first, a2, a3, a4, a5, w2, c2);
}

proof fn lemma_keeping(
    chain: Chain,
    none: Seq<Seq<char>>,
    first: Seq<Seq<char>>,
    a2: Seq<Seq<char>>,
    a3: Seq<Seq<char>>,
    a4: Seq<Seq<char>>,
    a5: Seq<Seq<char>>,
    w2: Seq<Seq<char>>,
    c2: Seq<Seq<char>>,
)
    requires
        none == Seq::<Seq<char>>::empty(),
        first == none.push("nft list chain ip filter DOCKER-USER >/dev/null 2>&1 || exit 0"@),
        a2 == first.push("nft -a list chain ip filter DOCKER-USER 2>/dev/null | grep 'comment \"brocade\"' | grep -o 'handle [0-9]*' | awk '{print $2}' | while read -r h; do nft delete rule ip filter DOCKER-USER handle $h || true; done"@),
        a3 == a2.push("nft insert rule ip filter DOCKER-USER iifname \"bt*\" accept comment \"brocade\""@),
        a4 == a3.push("nft insert rule ip filter DOCKER-USER oifname \"bt*\" accept comment \"brocade\""@),
        a5 == a4.push("echo 'phantun: 已在 DOCKER-USER 里放行 bt* 的转发' >&2"@),
        w2 == first.push("nft -a list chain ip filter DOCKER-USER 2>/dev/null | grep 'comment \"brocade\"' | grep -o 'handle [0-9]*' | awk '{print $2}' | while read -r h; do nft delete rule ip filter DOCKER-USER handle \"$h\" || true; done"@),
        c2 == first.push("nft list chain ip filter DOCKER-USER 2>/dev/null | grep -q 'comment \"brocade\"'"@),
    ensures
        ({
            let k = Keeper { chain, ended: None, good: true };
            let k1 = keep_line(k, "nft list chain ip filter DOCKER-USER >/dev/null 2>&1 || exit 0"@);
            &&& keep_lines(k, a5) == keep_line(
                keep_line(
                    keep_line(keep_line(k1, "nft -a list chain ip filter DOCKER-USER 2>/dev/null | grep 'comment \"brocade\"' | grep -o 'handle [0-9]*' | awk '{print $2}' | while read -r h; do nft delete rule ip filter DOCKER-USER handle $h || true; done"@), "nft insert rule ip filter DOCKER-USER iifname \"bt*\" accept comment \"brocade\""@),
                    "nft insert rule ip filter DOCKER-USER oifname \"bt*\" accept comment \"brocade\""@,
                ),
                "echo 'phantun: 已在 DOCKER-USER 里放行 bt* 的转发' >&2"@,
            )
            &&& keep_lines(k, w2) == keep_line(k1, "nft -a list chain ip filter DOCKER-USER 2>/dev/null | grep 'comment \"brocade\"' | grep -o 'handle [0-9]*' | awk '{print $2}' | while read -r h; do nft delete rule ip filter DOCKER-USER handle \"$h\" || true; done"@)
            &&& keep_lines(k, c2) == keep_line(k1, "nft list chain ip filter DOCKER-USER 2>/dev/null | grep -q 'comment \"brocade\"'"@)
        }),
{
    let k = Keeper { chain, ended: None, good: true };
    assert(keep_lines(k, none) == k);
    lemma_keep_more(k, none, "nft list chain ip filter DOCKER-USER >/dev/null 2>&1 || exit 0"@);
    lemma_keep_more(k, first, "nft -a list chain ip filter DOCKER-USER 2>/dev/null | grep 'comment \"brocade\"' | grep -o 'handle [0-9]*' | awk '{print $2}' | while read -r h; do nft delete rule ip filter DOCKER-USER handle $h || true; done"@);
    lemma_keep_more(k, a2, "nft insert rule ip filter DOCKER-USER iifname \"bt*\" accept comment \"brocade\""@);
    lemma_keep_more(k, a3, "nft insert rule ip filter DOCKER-USER oifname \"bt*\" accept comment \"brocade\""@);
    lemma_keep_more(k, a4, "echo 'phantun: 已在 DOCKER-USER 里放行 bt* 的转发' >&2"@);
    lemma_keep_more(k, first, "nft -a list chain ip filter DOCKER-USER 2>/dev/null | grep 'comment \"brocade\"' | grep -o 'handle [0-9]*' | awk '{print $2}' | while read -r h; do nft delete rule ip filter DOCKER-USER handle \"$h\" || true; done"@);
    lemma_keep_more(k, first, "nft list chain ip filter DOCKER-USER 2>/dev/null | grep -q 'comment \"brocade\"'"@);
}

} // verus!
