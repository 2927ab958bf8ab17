//! Keeping xray's inbound TCP out of the connection tracking table.
//!
//! Every public TCP inbound gets two `notrack` rules in a table of its own, one
//! for each direction: untracked packets have no flow by which the reply could
//! be recognised, so the reply is matched too. UDP stays tracked, because port
//! hopping is NAT and NAT lives in conntrack; loopback listens cost one entry
//! each and stay as they are.
use vstd::prelude::*;
use vstd::string::*;

use crate::address::parse_ip;
use crate::json::{parse_json, Json};
use crate::plan::DesiredArtifact;
use crate::ports::{insert_port, same_ports};
use crate::xray::{listen_ports, XrayListenProtocol};
use crate::{address, json, numbers, ports, text, xray};

verus! {

/// `s` without the characters `c` that lead it.
pub open spec fn trim_start_char(s: Seq<char>, c: char) -> Seq<char>
    decreases s.len(),
{
    if s.len() > 0 && s[0] == c {
        trim_start_char(s.skip(1), c)
    } else {
        s
    }
}

/// `s` without the characters `c` that trail it.
pub open spec fn trim_end_char(s: Seq<char>, c: char) -> Seq<char>
    decreases s.len(),
{
    if s.len() > 0 && s.last() == c {
        trim_end_char(s.drop_last(), c)
    } else {
        s
    }
}

/// Whether an inbound's `listen` keeps it on this machine. What is no address
/// counts as public.
pub open spec fn stays_local(listen: Seq<char>) -> bool {
    match address::ip_literal(
        trim_end_char(trim_start_char(text::trim(listen), '['), ']'),
    ) {
        Some(ip) => ip.loopback(),
        None => false,
    }
}

/// Whether an inbound is to be exempted from tracking.
pub open spec fn is_exempt(inbound: (Seq<char>, Seq<char>, u16, XrayListenProtocol)) -> bool {
    inbound.3 == XrayListenProtocol::Tcp && !stays_local(inbound.1)
}

/// The ports of the public TCP inbounds.
pub open spec fn exempt_ports(
    inbounds: Seq<(Seq<char>, Seq<char>, u16, XrayListenProtocol)>,
) -> Set<u16> {
    Set::new(
        |p: u16|
            exists|i: int|
                0 <= i < inbounds.len() && is_exempt(#[trigger] inbounds[i]) && inbounds[i].2 == p,
    )
}

/// The ports to exempt for a parsed configuration.
pub open spec fn ports_of(value: Json) -> Set<u16> {
    exempt_ports(xray::inbounds_of(value.items_at("inbounds"@)))
}

/// The ports to exempt for a configuration text; none where it is no JSON.
pub open spec fn wanted_ports(content: Seq<char>) -> Set<u16> {
    match json::json_of(content) {
        Ok(value) => ports_of(value),
        Err(_) => Set::empty(),
    }
}

/// Whether an inbound's `listen` keeps it on this machine.
pub fn is_loopback(listen: &str) -> (r: bool)
    ensures
        r == stays_local(listen@),
{
    let chars = text::chars_of(listen);
    let t = text::trimmed(chars.as_slice());
    let n: usize = t.len();
    let mut from: usize = 0;
    assert(t@.skip(0) == t@);
    while from < n && t[from] == '['
        invariant
            from <= n == t@.len(),
            trim_start_char(t@, '[') == trim_start_char(t@.skip(from as int), '['),
        decreases n - from,
    {
        assert(t@.skip(from as int).skip(1) == t@.skip(from + 1));
        from = from + 1;
    }
    let u = vstd::slice::slice_subrange(t, from, n);
    assert(u@ == t@.skip(from as int));
    let mut to: usize = u.len();
    assert(u@.take(to as int) == u@);
    while to > 0 && u[to - 1] == ']'
        invariant
            to <= u@.len(),
            trim_end_char(u@, ']') == trim_end_char(u@.take(to as int), ']'),
        decreases to,
    {
        assert(u@.take(to as int).drop_last() == u@.take(to - 1));
        to = to - 1;
    }
    let v = vstd::slice::slice_subrange(u, 0, to);
    assert(v@ == u@.take(to as int));
    match parse_ip(v) {
        Some(ip) => ip.is_loopback(),
        None => false,
    }
}

/// The ports to exempt for a parsed configuration.
pub fn exempted(value: &Json) -> (r: Vec<u16>)
    ensures
        ports::increasing(r@),
        r@.to_set() == ports_of(*value),
{
    let inbounds = listen_ports(value);
    let ghost all = xray::inbound_views(inbounds@);
    let mut out: Vec<u16> = Vec::new();
    let mut i: usize = 0;
    proof {
        assert(out@.to_set() =~= exempt_ports(all.take(0)));
    }
    while i < inbounds.len()
        invariant
            i <= inbounds.len(),
            all == xray::inbound_views(inbounds@),
            ports::increasing(out@),
            out@.to_set() == exempt_ports(all.take(i as int)),
        decreases inbounds.len() - i,
    {
        let exempt = inbounds[i].3 == XrayListenProtocol::Tcp && !is_loopback(
            inbounds[i].1.as_str(),
        );
        proof {
            let here = all[i as int];
            assert(exempt == is_exempt(here));
            let smaller = exempt_ports(all.take(i as int));
            let larger = exempt_ports(all.take(i + 1));
            assert forall|p: u16|
                larger.contains(p) == (smaller.contains(p) || (exempt && p == here.2)) by {
                if smaller.contains(p) {
                    let k = choose|k: int|
                        0 <= k < i && is_exempt(#[trigger] all.take(i as int)[k]) && all.take(
                            i as int,
                        )[k].2 == p;
                    assert(all.take(i + 1)[k] == all.take(i as int)[k]);
                }
                if larger.contains(p) {
                    let k = choose|k: int|
                        0 <= k < i + 1 && is_exempt(#[trigger] all.take(i + 1)[k]) && all.take(
                            i + 1,
                        )[k].2 == p;
                    if k < i {
                        assert(all.take(i as int)[k] == all.take(i + 1)[k]);
                    }
                }
                if exempt && p == here.2 {
                    assert(all.take(i + 1)[i as int] == here);
                }
            }
            if exempt {
                assert(larger =~= smaller.insert(here.2));
            } else {
                assert(larger =~= smaller);
            }
        }
        if exempt {
            insert_port(&mut out, inbounds[i].2);
        }
        i = i + 1;
    }
    assert(all.take(i as int) == all);
    out
}

/// The ports to exempt: every public TCP inbound in `xray.json`.
pub fn ports(content: &str) -> (r: Vec<u16>)
    ensures
        ports::increasing(r@),
        r@.to_set() == wanted_ports(content@),
{
    match parse_json(content) {
        Ok(value) => exempted(&value),
        Err(_) => {
            let none: Vec<u16> = Vec::new();
            assert(none@.to_set() =~= Set::<u16>::empty());
            none
        },
    }
}

/// The rule for packets on their way in.
pub open spec fn inbound_rule(port: u16) -> Seq<char> {
    "add rule inet brocade_conntrack prerouting_raw tcp dport "@ + numbers::decimal(port as int)
        + " notrack"@
}

/// The rule for replies on their way out.
pub open spec fn outbound_rule(port: u16) -> Seq<char> {
    "add rule inet brocade_conntrack output_raw tcp sport "@ + numbers::decimal(port as int)
        + " notrack"@
}

/// Two rules per port, in the order of the ports.
pub open spec fn rules(ports: Seq<u16>) -> Seq<Seq<char>>
    decreases ports.len(),
{
    if ports.len() == 0 {
        seq![]
    } else {
        rules(ports.drop_last()).push(inbound_rule(ports.last())).push(outbound_rule(ports.last()))
    }
}

/// The rule lines: one per port and direction.
pub fn rule_lines(ports: &Vec<u16>) -> (r: Vec<String>)
    ensures
        text::string_views(r@) == rules(ports@),
{
    let mut out: Vec<String> = Vec::new();
    let mut i: usize = 0;
    while i < ports.len()
        invariant
            i <= ports.len(),
            text::string_views(out@) == rules(ports@.take(i as int)),
        decreases ports.len() - i,
    {
        assert(ports@.take(i + 1).drop_last() == ports@.take(i as int));
        let port: u64 = ports[i] as u64;
        let mut a = "add rule inet brocade_conntrack prerouting_raw tcp dport ".to_owned();
        numbers::push_decimal(&mut a, port);
        a.append(" notrack");
        let mut b = "add rule inet brocade_conntrack output_raw tcp sport ".to_owned();
        numbers::push_decimal(&mut b, port);
        b.append(" notrack");
        let ghost before = out@;
        out.push(a);
        out.push(b);
        assert(text::string_views(out@) == text::string_views(before).push(a@).push(b@));
        i = i + 1;
    }
    assert(ports@.take(i as int) == ports@);
    out
}

/// The script that replaces the table by one with these ports' rules.
pub open spec fn install_script(ports: Seq<u16>) -> Seq<char> {
    "set -eu
command -v nft >/dev/null 2>&1 || { echo '需要 nft（nftables）才能免除连接跟踪' >&2; exit 1; }
nft delete table inet brocade_conntrack 2>/dev/null || true
nft -f - <<'NFT'
table inet brocade_conntrack {
chain prerouting_raw { type filter hook prerouting priority raw; }
chain output_raw { type filter hook output priority raw; }
}
"@ + text::join(rules(ports), "\n"@) + "
NFT
"@
}

/// The script that takes the table down. An absent table is success.
pub open spec fn disable_script() -> Seq<char> {
    "nft delete table inet brocade_conntrack 2>/dev/null || true"@
}

/// The script that installs the rules for these ports.
pub fn install(ports: &Vec<u16>) -> (r: String)
    ensures
        r@ == install_script(ports@),
{
    let rules = text::join_strings(&rule_lines(ports), "\n");
    let mut out = "set -eu
command -v nft >/dev/null 2>&1 || { echo '需要 nft（nftables）才能免除连接跟踪' >&2; exit 1; }
nft delete table inet brocade_conntrack 2>/dev/null || true
nft -f - <<'NFT'
table inet brocade_conntrack {
chain prerouting_raw { type filter hook prerouting priority raw; }
chain output_raw { type filter hook output priority raw; }
}
".to_owned();
    out.append(rules.as_str());
    out.append("
NFT
");
    out
}

/// The script that takes the table down.
pub fn disable() -> (r: String)
    ensures
        r@ == disable_script(),
{
    "nft delete table inet brocade_conntrack 2>/dev/null || true".to_owned()
}

/// The script for a set of ports: nothing to exempt takes the table down.
pub fn apply_ports(ports: &Vec<u16>) -> (r: String)
    ensures
        r@ == (if ports@.len() == 0 {
            disable_script()
        } else {
            install_script(ports@)
        }),
{
    if ports.len() == 0 {
        disable()
    } else {
        install(ports)
    }
}

/// The script to run for an `xray.json`.
pub fn apply_content(content: &str) -> (r: String)
    ensures
        exists|order: Seq<u16>|
            ports::increasing(order) && #[trigger] order.to_set() == wanted_ports(content@) && r@
                == (if order.len() == 0 {
                disable_script()
            } else {
                install_script(order)
            }),
{
    let wanted = ports(content);
    let script = apply_ports(&wanted);
    assert(wanted@.to_set() == wanted_ports(content@));
    script
}

/// The script to run for a desired xray: none where this agent does not manage it.
pub fn apply(desired: &DesiredArtifact) -> (r: Option<String>)
    ensures
        match desired {
            DesiredArtifact::Present { content, .. } => r matches Some(script) && exists|
                order: Seq<u16>,
            |
                ports::increasing(order) && #[trigger] order.to_set() == wanted_ports(content@)
                    && script@ == (if order.len() == 0 {
                    disable_script()
                } else {
                    install_script(order)
                }),
            DesiredArtifact::Disabled { .. } => r matches Some(script) && script@
                == disable_script(),
            DesiredArtifact::Unmanaged { .. } => r is None,
        },
{
    match desired {
        DesiredArtifact::Present { content, .. } => Some(apply_content(content.as_str())),
        DesiredArtifact::Disabled { .. } => Some(disable()),
        DesiredArtifact::Unmanaged { .. } => None,
    }
}

/// The port that one line of a table listing exempts.
pub open spec fn installed_port(line: Seq<char>) -> Option<u16> {
    match text::strip_prefix(text::trim(line), "tcp dport "@) {
        Some(rest) => match text::strip_suffix(rest, " notrack"@) {
            Some(port) => numbers::as_u16(text::trim(port)),
            None => None,
        },
        None => None,
    }
}

/// The ports that a table listing exempts.
pub open spec fn listed_ports(lines: Seq<Seq<char>>) -> Set<u16> {
    Set::new(
        |p: u16|
            exists|i: int| 0 <= i < lines.len() && installed_port(#[trigger] lines[i]) == Some(p),
    )
}

fn read_installed_port(line: &[char]) -> (r: Option<u16>)
    ensures
        r == installed_port(line@),
{
    match text::after_prefix(text::trimmed(line), "tcp dport ") {
        Some(rest) => match text::before_suffix(rest, " notrack") {
            Some(port) => numbers::read_u16(text::trimmed(port)),
            None => None,
        },
        None => None,
    }
}

/// The ports that the output of `nft list table` exempts. Only the rules for
/// packets on their way in are read: both are written together.
pub fn parse_installed(listing: &str) -> (r: Vec<u16>)
    ensures
        ports::increasing(r@),
        r@.to_set() == listed_ports(text::lines(listing@)),
{
    let chars = text::chars_of(listing);
    let lines = text::split_lines(chars.as_slice());
    let ghost all = text::views(lines@);
    let mut out: Vec<u16> = Vec::new();
    let mut i: usize = 0;
    proof {
        assert(out@.to_set() =~= listed_ports(all.take(0)));
    }
    while i < lines.len()
        invariant
            i <= lines.len(),
            all == text::views(lines@),
            ports::increasing(out@),
            out@.to_set() == listed_ports(all.take(i as int)),
        decreases lines.len() - i,
    {
        let port = read_installed_port(lines[i]);
        proof {
            assert(all[i as int] == lines@[i as int]@);
            let smaller = listed_ports(all.take(i as int));
            let larger = listed_ports(all.take(i + 1));
            assert forall|p: u16|
                larger.contains(p) == (smaller.contains(p) || port == Some(p)) by {
                if smaller.contains(p) {
                    let k = choose|k: int|
                        0 <= k < i && installed_port(#[trigger] all.take(i as int)[k]) == Some(p);
                    assert(all.take(i + 1)[k] == all.take(i as int)[k]);
                }
                if larger.contains(p) {
                    let k = choose|k: int|
                        0 <= k < i + 1 && installed_port(#[trigger] all.take(i + 1)[k]) == Some(p);
                    if k < i {
                        assert(all.take(i as int)[k] == all.take(i + 1)[k]);
                    }
                }
                if port == Some(p) {
                    assert(all.take(i + 1)[i as int] == all[i as int]);
                }
            }
            match port {
                Some(p) => {
                    assert(larger =~= smaller.insert(p));
                },
                None => {
                    assert(larger =~= smaller);
                },
            }
        }
        match port {
            Some(p) => {
                insert_port(&mut out, p);
            },
            None => {},
        }
        i = i + 1;
    }
    assert(all.take(i as int) == all);
    out
}

/// The ports that are exempt on a machine whose table listing is `listing`;
/// none where it could not be had.
pub open spec fn installed_ports(listing: Option<Seq<char>>) -> Set<u16> {
    match listing {
        Some(t) => listed_ports(text::lines(t)),
        None => Set::empty(),
    }
}

/// What a listing says, if there is one.
pub open spec fn listing_view(listing: Option<&str>) -> Option<Seq<char>> {
    match listing {
        Some(t) => Some(t@),
        None => None,
    }
}

/// Which ports are exempt on this machine.
pub fn installed(listing: Option<&str>) -> (r: Vec<u16>)
    ensures
        ports::increasing(r@),
        r@.to_set() == installed_ports(listing_view(listing)),
{
    match listing {
        Some(t) => parse_installed(t),
        None => {
            let none: Vec<u16> = Vec::new();
            assert(none@.to_set() =~= Set::<u16>::empty());
            none
        },
    }
}

/// Whether the machine already matches this `xray.json`.
pub fn matches_content(content: &str, listing: Option<&str>) -> (r: bool)
    ensures
        r == (installed_ports(listing_view(listing)) == wanted_ports(content@)),
{
    same_ports(&installed(listing), &ports(content))
}

/// How `nft list table` prints the rule for packets on their way in.
pub open spec fn printed_rule(port: u16) -> Seq<char> {
    "tcp dport "@ + numbers::decimal(port as int) + " notrack"@
}

/// A printed rule reads back as its port, however the line is indented.
pub proof fn lemma_printed_rule_reads_back(line: Seq<char>, port: u16)
    requires
        text::trim(line) == printed_rule(port),
    ensures
        installed_port(line) == Some(port),
{
    let digits = numbers::decimal(port as int);
    let printed = printed_rule(port);
    reveal_strlit("tcp dport ");
    reveal_strlit(" notrack");
    assert(printed.subrange(0, "tcp dport "@.len() as int) == "tcp dport "@);
    let rest = printed.skip("tcp dport "@.len() as int);
    assert(rest == digits + " notrack"@);
    assert(rest.subrange(rest.len() - " notrack"@.len(), rest.len() as int) == " notrack"@);
    assert(rest.take(rest.len() - " notrack"@.len()) == digits);
    numbers::lemma_decimal_digits(port as int);
    numbers::lemma_parse_decimal(port as int, u16::MAX as int);
    assert(!text::is_space(digits[0]));
    assert('0' <= digits[digits.len() - 1] <= '9');
    assert(text::trim(digits) == digits);
}

/// What was written reads back: where every port has its printed rule in a
/// listing, and every line that reads as a rule is the printed rule of one of
/// the ports, the machine reports exactly these ports.
pub proof fn lemma_listing_reads_back(listing: Seq<char>, wanted: Set<u16>)
    requires
        forall|p: u16| wanted.contains(p) ==> exists|i: int|
            0 <= i < text::lines(listing).len() && text::trim(#[trigger] text::lines(listing)[i])
                == printed_rule(p),
        forall|i: int|
            0 <= i < text::lines(listing).len() && installed_port(
                #[trigger] text::lines(listing)[i],
            ) is Some ==> exists|p: u16|
                wanted.contains(p) && text::trim(text::lines(listing)[i]) == #[trigger]
                printed_rule(p),
    ensures
        installed_ports(Some(listing)) == wanted,
{
    let lines = text::lines(listing);
    assert forall|p: u16| listed_ports(lines).contains(p) == wanted.contains(p) by {
        if wanted.contains(p) {
            let i = choose|i: int|
                0 <= i < lines.len() && text::trim(#[trigger] lines[i]) == printed_rule(p);
            lemma_printed_rule_reads_back(lines[i], p);
        }
        if listed_ports(lines).contains(p) {
            let i = choose|i: int|
                0 <= i < lines.len() && installed_port(#[trigger] lines[i]) == Some(p);
            let q = choose|q: u16|
                wanted.contains(q) && text::trim(lines[i]) == #[trigger] printed_rule(q);
            lemma_printed_rule_reads_back(lines[i], q);
        }
    }
    assert(listed_ports(lines) =~= wanted);
}

/// Untracked packets are matched in both directions: every port has an inbound
/// and an outbound rule among the lines.
pub proof fn lemma_both_directions(ports: Seq<u16>, k: int)
    requires
        0 <= k < ports.len(),
    ensures
        rules(ports).len() == 2 * ports.len(),
        rules(ports)[2 * k] == inbound_rule(ports[k]),
        rules(ports)[2 * k + 1] == outbound_rule(ports[k]),
    decreases ports.len(),
{
    reveal_with_fuel(rules, 2);
    if k < ports.len() - 1 {
        lemma_both_directions(ports.drop_last(), k);
    } else if ports.len() > 1 {
        lemma_both_directions(ports.drop_last(), k - 1);
    }
}

/// A port is kept out of tracking exactly where it serves TCP and its address is not one of
/// the machine's own.
pub proof fn lemma_public_listeners_are_exempt(
    tag: Seq<char>,
    a: u8,
    b: u8,
    c: u8,
    d: u8,
    port: u16,
    protocol: XrayListenProtocol,
)
    ensures
        ({
            let listen = numbers::decimal(a as int) + "."@ + numbers::decimal(b as int) + "."@
                + numbers::decimal(c as int) + "."@ + numbers::decimal(d as int);
            exempt_ports(seq![(tag, listen, port, protocol)]).contains(port) <==> protocol
                == XrayListenProtocol::Tcp && a != 127
        }),
{
    let (first, last) = (numbers::decimal(a as int), numbers::decimal(d as int));
    let listen = first + "."@ + numbers::decimal(b as int) + "."@ + numbers::decimal(c as int)
        + "."@ + last;
    address::lemma_dotted_quad_reads_back(a, b, c, d);
    numbers::lemma_decimal_digits(a as int);
    numbers::lemma_decimal_digits(d as int);
    assert(listen[0] == first[0]);
    assert(listen.last() == last[last.len() - 1]);
    text::lemma_trim_of_trimmed(listen);
    assert(trim_start_char(listen, '[') == listen);
    assert(trim_end_char(listen, ']') == listen);
    let all = seq![(tag, listen, port, protocol)];
    assert(all[0] == (tag, listen, port, protocol));
    if is_exempt(all[0]) {
        assert(all[0].2 == port);
    }
}

} // verus!
