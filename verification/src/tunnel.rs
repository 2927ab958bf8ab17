//! What the scripts for the tunnel do to its interface.
use vstd::prelude::*;
use vstd::string::*;

use crate::{converge, shell, text};

verus! {

/// What a configuration of the tunnel says, each as its text: an address with the length
/// of its prefix, a packet size, and the networks that are reached through it. A text that
/// is not given is empty.
pub struct Configuration {
    pub address: Seq<char>,
    pub mtu: Seq<char>,
    pub networks: Seq<Seq<char>>,
}

/// The interface of the tunnel.
#[verifier::ext_equal]
pub struct Interface {
    pub exists: bool,
    pub up: bool,
    /// Whether what peers had agreed on is still in force.
    pub sessions: bool,
    pub addresses: Set<Seq<char>>,
    pub mtu: Seq<char>,
    pub routes: Set<Seq<char>>,
    /// The networks of the peers that were put into it.
    pub networks: Seq<Seq<char>>,
}

/// A shell on the machine: the configuration that it was pointed to, the interface, and how
/// far it has come.
#[verifier::ext_equal]
pub struct Shell {
    pub file: Configuration,
    pub link: Interface,
    /// Whether the part of the configuration that belongs to the peers was set aside.
    pub stripped: bool,
    pub addr: Seq<char>,
    pub mtu: Seq<char>,
    /// Whether it passes over lines up to the end of a condition.
    pub skips: bool,
    /// Whether it is inside the loop over the networks of the peers.
    pub loops: bool,
    /// Whether it came to a line that does not succeed, and stopped.
    pub stopped: bool,
}

/// A shell that starts on a machine.
pub open spec fn started(file: Configuration, link: Interface) -> Shell {
    Shell {
        file,
        link,
        stripped: false,
        addr: seq![],
        mtu: seq![],
        skips: false,
        loops: false,
        stopped: false,
    }
}

/// An address without the length of its prefix.
pub open spec fn host_of(address: Seq<char>) -> Seq<char> {
    match text::rsplit_once(address, '/') {
        Some((host, _)) => host,
        None => address,
    }
}

/// Whether a text is found among the addresses of an interface.
pub open spec fn shows(link: Interface, host: Seq<char>) -> bool {
    exists|address: Seq<char>| #[trigger]
        link.addresses.contains(address) && text::contains_sub(address, host)
}

/// The networks that are given.
pub open spec fn given(networks: Seq<Seq<char>>) -> Set<Seq<char>> {
    networks.to_set().filter(|net: Seq<char>| net.len() > 0)
}

/// What a shell does at a line. A line that is none of those it knows, or that comes where
/// it cannot succeed, stops it.
pub open spec fn read_line(sh: Shell, line: Seq<char>) -> Shell {
    let link = sh.link;
    if sh.stopped {
        sh
    } else if sh.skips {
        Shell { skips: line != "fi"@, ..sh }
    } else if sh.loops {
        if line == "done"@ {
            Shell { loops: false, ..sh }
        } else if line == "[ -n \"$net\" ] && ip route replace \"$net\" dev wg0 || true"@ {
            Shell {
                link: Interface { routes: link.routes.union(given(link.networks)), ..link },
                ..sh
            }
        } else {
            Shell { stopped: true, ..sh }
        }
    } else if line == "wg-quick strip \"$CONF\" > /tmp/brocade-agent-wg0.stripped"@ {
        Shell { stripped: true, ..sh }
    } else if line == "ip link add wg0 type wireguard"@ {
        if link.exists {
            Shell { stopped: true, ..sh }
        } else {
            Shell {
                link: Interface {
                    exists: true,
                    up: false,
                    sessions: false,
                    addresses: Set::empty(),
                    mtu: seq![],
                    routes: Set::empty(),
                    networks: seq![],
                },
                ..sh
            }
        }
    } else if line == "ip link del wg0 2>/dev/null || true"@ {
        Shell { link: Interface { exists: false, up: false, ..link }, ..sh }
    } else if line == "wg syncconf wg0 /tmp/brocade-agent-wg0.stripped"@ && link.exists && sh.stripped {
        Shell { link: Interface { networks: sh.file.networks, ..link }, ..sh }
    } else if line == "wg setconf wg0 /tmp/brocade-agent-wg0.stripped"@ && link.exists && sh.stripped {
        Shell {
            link: Interface { networks: sh.file.networks, sessions: false, ..link },
            ..sh
        }
    } else if line
        == "ADDR=$(awk -F'= *' '/^Address/{print $2; exit}' \"$CONF\" | tr -d ' ')"@ {
        Shell { addr: sh.file.address, ..sh }
    } else if line
        == "MTU=$(awk -F'= *' '/^MTU/{print $2; exit}' \"$CONF\" | tr -d ' ')"@ {
        Shell { mtu: sh.file.mtu, ..sh }
    } else if line == "if [ -n \"$MTU\" ]; then ip link set wg0 mtu \"$MTU\"; fi"@ && link.exists {
        if sh.mtu.len() > 0 {
            Shell { link: Interface { mtu: sh.mtu, ..link }, ..sh }
        } else {
            sh
        }
    } else if line
        == "if [ -n \"$ADDR\" ] && ! ip addr show dev wg0 | grep -q \"${ADDR%/*}\"; then"@ {
        Shell { skips: !(sh.addr.len() > 0 && !shows(link, host_of(sh.addr))), ..sh }
    } else if line
        == "if [ -n \"$ADDR\" ] && ip addr show dev wg0 | grep -q \"${ADDR%/*}\"; then"@ {
        Shell { skips: !(sh.addr.len() > 0 && shows(link, host_of(sh.addr))), ..sh }
    } else if line == "ip addr add \"$ADDR\" dev wg0 2>/dev/null || true"@ && link.exists {
        Shell { link: Interface { addresses: link.addresses.insert(sh.addr), ..link }, ..sh }
    } else if line == "fi"@ {
        sh
    } else if line == "ip link set wg0 up"@ && link.exists {
        Shell { link: Interface { up: true, ..link }, ..sh }
    } else if line == "wg show wg0 allowed-ips | awk '{print $2}' | while read -r net; do"@ && link.exists {
        Shell { loops: true, ..sh }
    } else {
        Shell { stopped: true, ..sh }
    }
}

/// What a shell does at lines, one after the other.
pub open spec fn read_lines(sh: Shell, lines: Seq<Seq<char>>) -> Shell
    decreases lines.len(),
{
    if lines.len() == 0 {
        sh
    } else {
        read_line(read_lines(sh, lines.drop_last()), lines.last())
    }
}

/// What a script begins with that stops at what fails and is pointed to a configuration.
pub open spec fn opening(conf: Seq<char>) -> Seq<char> {
    "set -eu\nCONF="@ + shell::quoted(conf) + "\n"@
}

/// What a shell does in a script on the configuration at a path. A script that does not begin
/// as it should stops it.
pub open spec fn ran(sh: Shell, conf: Seq<char>, script: Seq<char>) -> Shell {
    if text::starts_with(script, opening(conf)) {
        read_lines(sh, text::split_char(script.skip(opening(conf).len() as int), '\n'))
    } else {
        Shell { stopped: true, ..sh }
    }
}

proof fn lemma_lines_of_script(script: Seq<char>, conf: Seq<char>, lines: Seq<Seq<char>>)
    requires
        lines.len() > 0,
        script == opening(conf) + text::join(lines, "\n"@),
        forall|i: int| 0 <= i < lines.len() ==> !(#[trigger] lines[i]).contains('\n'),
    ensures
        forall|sh: Shell| #[trigger] ran(sh, conf, script) == read_lines(sh, lines),
{
    reveal_strlit("\n");
    let head = opening(conf);
    assert("\n"@ =~= seq!['\n']);
    assert(script.subrange(0, head.len() as int) =~= head);
    assert(script.skip(head.len() as int) =~= text::join(lines, "\n"@));
    text::lemma_split_joined(lines, '\n', "\n"@);
}

proof fn lemma_one_more_line(sh: Shell, lines: Seq<Seq<char>>, line: Seq<char>)
    ensures
        read_lines(sh, lines.push(line)) == read_line(read_lines(sh, lines), line),
{
    assert(lines.push(line).drop_last() =~= lines);
}

proof fn lemma_join_ten(all: Seq<Seq<char>>, nl: Seq<char>)
    requires
        all.len() == 10,
    ensures
        text::join(all, nl) == all[0] + nl + all[1] + nl + all[2] + nl + all[3] + nl + all[4] + nl
            + all[5] + nl + all[6] + nl + all[7] + nl + all[8] + nl + all[9],
{
    let a1 = seq![all[0]];
    let a2 = a1.push(all[1]);
    let a3 = a2.push(all[2]);
    let a4 = a3.push(all[3]);
    let a5 = a4.push(all[4]);
    let a6 = a5.push(all[5]);
    let a7 = a6.push(all[6]);
    let a8 = a7.push(all[7]);
    let a9 = a8.push(all[8]);
    text::lemma_join_one_more(a1, all[1], nl);
    text::lemma_join_one_more(a2, all[2], nl);
    text::lemma_join_one_more(a3, all[3], nl);
    text::lemma_join_one_more(a4, all[4], nl);
    text::lemma_join_one_more(a5, all[5], nl);
    text::lemma_join_one_more(a6, all[6], nl);
    text::lemma_join_one_more(a7, all[7], nl);
    text::lemma_join_one_more(a8, all[8], nl);
    text::lemma_join_one_more(a9, all[9], nl);
    assert(a9.push(all[9]) =~= all);
}

proof fn lemma_finishing_text()
    ensures
        "\nADDR=$(awk -F'= *' '/^Address/{print $2; exit}' \"$CONF\" | tr -d ' ')\nMTU=$(awk -F'= *' '/^MTU/{print $2; exit}' \"$CONF\" | tr -d ' ')\nif [ -n \"$MTU\" ]; then ip link set wg0 mtu \"$MTU\"; fi\nif [ -n \"$ADDR\" ] && ! ip addr show dev wg0 | grep -q \"${ADDR%/*}\"; then\nip addr add \"$ADDR\" dev wg0 2>/dev/null || true\nfi\nip link set wg0 up\nwg show wg0 allowed-ips | awk '{print $2}' | while read -r net; do\n[ -n \"$net\" ] && ip route replace \"$net\" dev wg0 || true\ndone"@
            == "\n"@ + text::join(finishing_lines(), "\n"@),
        forall|i: int|
            0 <= i < finishing_lines().len() ==> !(#[trigger] finishing_lines()[i]).contains('\n'),
{
    lemma_join_ten(finishing_lines(), "\n"@);
    reveal_strlit("\n");
    reveal_strlit("ADDR=$(awk -F'= *' '/^Address/{print $2; exit}' \"$CONF\" | tr -d ' ')");
    reveal_strlit("MTU=$(awk -F'= *' '/^MTU/{print $2; exit}' \"$CONF\" | tr -d ' ')");
    reveal_strlit("if [ -n \"$MTU\" ]; then ip link set wg0 mtu \"$MTU\"; fi");
    reveal_strlit("if [ -n \"$ADDR\" ] && ! ip addr show dev wg0 | grep -q \"${ADDR%/*}\"; then");
    reveal_strlit("ip addr add \"$ADDR\" dev wg0 2>/dev/null || true");
    reveal_strlit("fi");
    reveal_strlit("ip link set wg0 up");
    reveal_strlit("wg show wg0 allowed-ips | awk '{print $2}' | while read -r net; do");
    reveal_strlit("[ -n \"$net\" ] && ip route replace \"$net\" dev wg0 || true");
    reveal_strlit("done");
    reveal_strlit("\nADDR=$(awk -F'= *' '/^Address/{print $2; exit}' \"$CONF\" | tr -d ' ')\nMTU=$(awk -F'= *' '/^MTU/{print $2; exit}' \"$CONF\" | tr -d ' ')\nif [ -n \"$MTU\" ]; then ip link set wg0 mtu \"$MTU\"; fi\nif [ -n \"$ADDR\" ] && ! ip addr show dev wg0 | grep -q \"${ADDR%/*}\"; then\nip addr add \"$ADDR\" dev wg0 2>/dev/null || true\nfi\nip link set wg0 up\nwg show wg0 allowed-ips | awk '{print $2}' | while read -r net; do\n[ -n \"$net\" ] && ip route replace \"$net\" dev wg0 || true\ndone");
}

/// The lines that finish the interface.
spec fn finishing_lines() -> Seq<Seq<char>> {
    seq![
        "ADDR=$(awk -F'= *' '/^Address/{print $2; exit}' \"$CONF\" | tr -d ' ')"@,
        "MTU=$(awk -F'= *' '/^MTU/{print $2; exit}' \"$CONF\" | tr -d ' ')"@,
        "if [ -n \"$MTU\" ]; then ip link set wg0 mtu \"$MTU\"; fi"@,
        "if [ -n \"$ADDR\" ] && ! ip addr show dev wg0 | grep -q \"${ADDR%/*}\"; then"@,
        "ip addr add \"$ADDR\" dev wg0 2>/dev/null || true"@,
        "fi"@,
        "ip link set wg0 up"@,
        "wg show wg0 allowed-ips | awk '{print $2}' | while read -r net; do"@,
        "[ -n \"$net\" ] && ip route replace \"$net\" dev wg0 || true"@,
        "done"@,
    ]
}

proof fn lemma_line_lengths()
    ensures
        "ip link del wg0 2>/dev/null || true"@.len() == 35,
        "wg-quick strip \"$CONF\" > /tmp/brocade-agent-wg0.stripped"@.len() == 56,
        "ip link add wg0 type wireguard"@.len() == 30,
        "wg syncconf wg0 /tmp/brocade-agent-wg0.stripped"@.len() == 47,
        "wg setconf wg0 /tmp/brocade-agent-wg0.stripped"@.len() == 46,
        "ADDR=$(awk -F'= *' '/^Address/{print $2; exit}' \"$CONF\" | tr -d ' ')"@.len() == 68,
        "MTU=$(awk -F'= *' '/^MTU/{print $2; exit}' \"$CONF\" | tr -d ' ')"@.len() == 63,
        "if [ -n \"$MTU\" ]; then ip link set wg0 mtu \"$MTU\"; fi"@.len() == 53,
        "if [ -n \"$ADDR\" ] && ! ip addr show dev wg0 | grep -q \"${ADDR%/*}\"; then"@.len() == 72,
        "ip addr add \"$ADDR\" dev wg0 2>/dev/null || true"@.len() == 47,
        "fi"@.len() == 2,
        "ip link set wg0 up"@.len() == 18,
        "wg show wg0 allowed-ips | awk '{print $2}' | while read -r net; do"@.len() == 66,
        "[ -n \"$net\" ] && ip route replace \"$net\" dev wg0 || true"@.len() == 56,
        "done"@.len() == 4,
        "if [ -n \"$ADDR\" ] && ip addr show dev wg0 | grep -q \"${ADDR%/*}\"; then"@.len() == 70,
        "wg-quick strip \"$CONF\" > /tmp/brocade-agent-wg0.stripped"@ != "[ -n \"$net\" ] && ip route replace \"$net\" dev wg0 || true"@,
        "wg syncconf wg0 /tmp/brocade-agent-wg0.stripped"@ != "ip addr add \"$ADDR\" dev wg0 2>/dev/null || true"@,
{
    reveal_strlit("ip link del wg0 2>/dev/null || true");
    reveal_strlit("wg-quick strip \"$CONF\" > /tmp/brocade-agent-wg0.stripped");
    reveal_strlit("ip link add wg0 type wireguard");
    reveal_strlit("wg syncconf wg0 /tmp/brocade-agent-wg0.stripped");
    reveal_strlit("wg setconf wg0 /tmp/brocade-agent-wg0.stripped");
    reveal_strlit("ADDR=$(awk -F'= *' '/^Address/{print $2; exit}' \"$CONF\" | tr -d ' ')");
    reveal_strlit("MTU=$(awk -F'= *' '/^MTU/{print $2; exit}' \"$CONF\" | tr -d ' ')");
    reveal_strlit("if [ -n \"$MTU\" ]; then ip link set wg0 mtu \"$MTU\"; fi");
    reveal_strlit("if [ -n \"$ADDR\" ] && ! ip addr show dev wg0 | grep -q \"${ADDR%/*}\"; then");
    reveal_strlit("ip addr add \"$ADDR\" dev wg0 2>/dev/null || true");
    reveal_strlit("fi");
    reveal_strlit("ip link set wg0 up");
    reveal_strlit("wg show wg0 allowed-ips | awk '{print $2}' | while read -r net; do");
    reveal_strlit("[ -n \"$net\" ] && ip route replace \"$net\" dev wg0 || true");
    reveal_strlit("done");
    reveal_strlit("if [ -n \"$ADDR\" ] && ip addr show dev wg0 | grep -q \"${ADDR%/*}\"; then");
    assert("wg-quick strip \"$CONF\" > /tmp/brocade-agent-wg0.stripped"@[0] != "[ -n \"$net\" ] && ip route replace \"$net\" dev wg0 || true"@[0]);
    assert("wg syncconf wg0 /tmp/brocade-agent-wg0.stripped"@[0] != "ip addr add \"$ADDR\" dev wg0 2>/dev/null || true"@[0]);
}

/// What the first script does, whether or not the interface was there: it is there, it has the
/// peers of the configuration, and where it was there before nothing else of it changed, so
/// that what its peers had agreed on goes on.
pub proof fn lemma_setup_puts_peers_in(file: Configuration, link: Interface, conf: Seq<char>)
    ensures
        ({
            let end = ran(started(file, link), conf, converge::wireguard_setup(conf, link.exists));
            &&& !end.stopped
            &&& end.file == file
            &&& end.link.exists
            &&& end.link.networks == file.networks
            &&& link.exists ==> end.link == (Interface { networks: file.networks, ..link })
            &&& !link.exists ==> end.link.addresses == Set::<Seq<char>>::empty()
        }),
{
    let sh = started(file, link);
    let script = converge::wireguard_setup(conf, link.exists);
    lemma_line_lengths();
    let strip = "wg-quick strip \"$CONF\" > /tmp/brocade-agent-wg0.stripped"@;
    let nl = "\n"@;
    let lines = if link.exists {
        seq![strip, "wg syncconf wg0 /tmp/brocade-agent-wg0.stripped"@]
    } else {
        seq![
            strip,
            "ip link add wg0 type wireguard"@,
            "wg setconf wg0 /tmp/brocade-agent-wg0.stripped"@,
        ]
    };
    assert(script == opening(conf) + text::join(lines, nl) && (forall|i: int|
        0 <= i < lines.len() ==> !(#[trigger] lines[i]).contains('\n'))) by {
        reveal_strlit("\n");
        reveal_strlit("wg-quick strip \"$CONF\" > /tmp/brocade-agent-wg0.stripped");
        reveal_strlit("\nwg-quick strip \"$CONF\" > /tmp/brocade-agent-wg0.stripped\n");
        reveal_strlit("wg syncconf wg0 /tmp/brocade-agent-wg0.stripped");
        reveal_strlit("ip link add wg0 type wireguard");
        reveal_strlit("wg setconf wg0 /tmp/brocade-agent-wg0.stripped");
        reveal_strlit("ip link add wg0 type wireguard\nwg setconf wg0 /tmp/brocade-agent-wg0.stripped");
        assert("\nwg-quick strip \"$CONF\" > /tmp/brocade-agent-wg0.stripped\n"@ =~= nl + strip + nl);
        if link.exists {
            text::lemma_join_one_more(
                seq![strip],
                "wg syncconf wg0 /tmp/brocade-agent-wg0.stripped"@,
                nl,
            );
            assert(text::join(seq![strip], nl) == strip);
            assert(lines =~= seq![strip].push("wg syncconf wg0 /tmp/brocade-agent-wg0.stripped"@));
            assert(script =~= opening(conf) + text::join(lines, nl));
        } else {
            let last = "wg setconf wg0 /tmp/brocade-agent-wg0.stripped"@;
            text::lemma_join_one_more(seq![strip], "ip link add wg0 type wireguard"@, nl);
            text::lemma_join_one_more(seq![strip, "ip link add wg0 type wireguard"@], last, nl);
            assert(text::join(seq![strip], nl) == strip);
            assert("ip link add wg0 type wireguard\nwg setconf wg0 /tmp/brocade-agent-wg0.stripped"@ =~= "ip link add wg0 type wireguard"@ + nl + last);
            assert(lines =~= seq![strip, "ip link add wg0 type wireguard"@].push(last));
            assert(seq![strip, "ip link add wg0 type wireguard"@] =~= seq![strip].push("ip link add wg0 type wireguard"@));
            assert(script =~= opening(conf) + text::join(lines, nl));
        }
    }
    lemma_lines_of_script(script, conf, lines);
    let none = Seq::<Seq<char>>::empty();
    assert(read_lines(sh, none) == sh);
    lemma_one_more_line(sh, none, strip);
    assert(none.push(strip) =~= seq![strip]);
    if link.exists {
        lemma_one_more_line(sh, seq![strip], "wg syncconf wg0 /tmp/brocade-agent-wg0.stripped"@);
        assert(lines =~= seq![strip].push("wg syncconf wg0 /tmp/brocade-agent-wg0.stripped"@));
    } else {
        lemma_one_more_line(sh, seq![strip], "ip link add wg0 type wireguard"@);
        lemma_one_more_line(
            sh,
            seq![strip, "ip link add wg0 type wireguard"@],
            "wg setconf wg0 /tmp/brocade-agent-wg0.stripped"@,
        );
        assert(seq![strip, "ip link add wg0 type wireguard"@] =~= seq![strip].push("ip link add wg0 type wireguard"@));
        assert(lines =~= seq![strip, "ip link add wg0 type wireguard"@].push(
            "wg setconf wg0 /tmp/brocade-agent-wg0.stripped"@,
        ));
    }
}

/// What the last script does to an interface that is there: it is up, has the packet size of
/// the configuration where one is given, has a route to each network of its peers beside those
/// it had, and has the address of the configuration where one is given. The address is added
/// exactly where the interface does not show it yet.
pub proof fn lemma_finish_completes_interface(file: Configuration, link: Interface, conf: Seq<char>)
    requires
        link.exists,
    ensures
        ({
            let end = ran(started(file, link), conf, converge::wireguard_finish(conf));
            &&& !end.stopped
            &&& end.link == (Interface {
                up: true,
                mtu: if file.mtu.len() > 0 {
                    file.mtu
                } else {
                    link.mtu
                },
                addresses: if file.address.len() > 0 && !shows(link, host_of(file.address)) {
                    link.addresses.insert(file.address)
                } else {
                    link.addresses
                },
                routes: link.routes.union(given(link.networks)),
                ..link
            })
        }),
{
    let sh = started(file, link);
    let script = converge::wireguard_finish(conf);
    let lines = finishing_lines();
    lemma_finishing_text();
    assert(script =~= opening(conf) + text::join(lines, "\n"@));
    lemma_lines_of_script(script, conf, lines);
    lemma_line_lengths();
    let l0 = Seq::<Seq<char>>::empty();
    let l1 = l0.push(lines[0]);
    let l2 = l1.push(lines[1]);
    let l3 = l2.push(lines[2]);
    let l4 = l3.push(lines[3]);
    let l5 = l4.push(lines[4]);
    let l6 = l5.push(lines[5]);
    let l7 = l6.push(lines[6]);
    let l8 = l7.push(lines[7]);
    let l9 = l8.push(lines[8]);
    let l10 = l9.push(lines[9]);
    lemma_one_more_line(sh, l0, lines[0]);
    lemma_one_more_line(sh, l1, lines[1]);
    lemma_one_more_line(sh, l2, lines[2]);
    lemma_one_more_line(sh, l3, lines[3]);
    lemma_one_more_line(sh, l4, lines[4]);
    lemma_one_more_line(sh, l5, lines[5]);
    lemma_one_more_line(sh, l6, lines[6]);
    lemma_one_more_line(sh, l7, lines[7]);
    lemma_one_more_line(sh, l8, lines[8]);
    lemma_one_more_line(sh, l9, lines[9]);
    assert(l10 =~= lines);
    assert(read_lines(sh, l0) == sh);
    let s1 = Shell { addr: file.address, ..sh };
    assert(read_lines(sh, l1) == s1);
    let s2 = Shell { mtu: file.mtu, ..s1 };
    assert(read_lines(sh, l2) == s2);
    let sized = Interface {
        mtu: if file.mtu.len() > 0 {
            file.mtu
        } else {
            link.mtu
        },
        ..link
    };
    let s3 = Shell { link: sized, ..s2 };
    assert(read_lines(sh, l3) == s3);
    let adds = file.address.len() > 0 && !shows(link, host_of(file.address));
    assert(shows(sized, host_of(file.address)) == shows(link, host_of(file.address)));
    let s4 = Shell { skips: !adds, ..s3 };
    assert(read_lines(sh, l4) == s4);
    let addressed = if adds {
        Interface { addresses: link.addresses.insert(file.address), ..sized }
    } else {
        sized
    };
    assert("ip addr add \"$ADDR\" dev wg0 2>/dev/null || true"@ != "fi"@);
    let s5 = Shell { link: addressed, ..s4 };
    assert(read_lines(sh, l5) == s5);
    let s6 = Shell { skips: false, ..s5 };
    assert(read_lines(sh, l6) == s6);
    let s7 = Shell { link: Interface { up: true, ..addressed }, ..s6 };
    assert(read_lines(sh, l7) == s7);
    let s8 = Shell { loops: true, ..s7 };
    assert(read_lines(sh, l8) == s8);
    let s9 = Shell {
        link: Interface { routes: link.routes.union(given(link.networks)), ..s7.link },
        ..s8
    };
    assert(read_lines(sh, l9) == s9);
    assert(read_lines(sh, l10) == (Shell { loops: false, ..s9 }));
}

/// Removing leaves no interface, whether or not there was one.
pub proof fn lemma_removal_leaves_no_interface(file: Configuration, link: Interface)
    ensures
        ({
            let end = read_lines(
                started(file, link),
                text::split_char(converge::wireguard_removal(), '\n'),
            );
            !end.stopped && !end.link.exists && !end.link.up
        }),
{
    let line = converge::wireguard_removal();
    let sh = started(file, link);
    let none = Seq::<Seq<char>>::empty();
    reveal_strlit("ip link del wg0 2>/dev/null || true");
    text::lemma_split_joined(seq![line], '\n', seq!['\n']);
    assert(text::join(seq![line], seq!['\n']) == line);
    lemma_one_more_line(sh, none, line);
    assert(none.push(line) =~= seq![line]);
    assert(read_lines(sh, none) == sh);
    lemma_line_lengths();
}

/// What both scripts come to, on a fresh machine and on one that has the tunnel: the
/// interface is there and up, with the peers of the configuration, a route to each of
/// their networks, the packet size where one is given, and an address that shows the one
/// that is given. On a fresh machine that is the address itself.
pub proof fn lemma_tunnel_is_brought_up(file: Configuration, link: Interface, conf: Seq<char>)
    ensures
        ({
            let first = ran(started(file, link), conf, converge::wireguard_setup(conf, link.exists));
            let last = ran(started(file, first.link), conf, converge::wireguard_finish(conf));
            &&& !first.stopped && !last.stopped
            &&& last.link.exists && last.link.up
            &&& last.link.networks == file.networks
            &&& file.mtu.len() > 0 ==> last.link.mtu == file.mtu
            &&& forall|i: int|
                0 <= i < file.networks.len() && (#[trigger] file.networks[i]).len() > 0
                    ==> last.link.routes.contains(file.networks[i])
            &&& file.address.len() > 0 && !link.exists ==> last.link.addresses == set![file.address]
            &&& file.address.len() > 0 && link.exists && !shows(link, host_of(file.address))
                ==> last.link.addresses.contains(file.address)
            &&& link.exists ==> last.link.sessions == link.sessions
            &&& forall|address: Seq<char>|
                link.exists && link.addresses.contains(address)
                    ==> #[trigger] last.link.addresses.contains(address)
        }),
{
    lemma_setup_puts_peers_in(file, link, conf);
    let first = ran(started(file, link), conf, converge::wireguard_setup(conf, link.exists));
    lemma_finish_completes_interface(file, first.link, conf);
    let last = ran(started(file, first.link), conf, converge::wireguard_finish(conf));
    assert forall|i: int| 0 <= i < file.networks.len() && (#[trigger] file.networks[i]).len() > 0
        implies last.link.routes.contains(file.networks[i]) by {
        assert(file.networks.to_set().contains(file.networks[i]));
    }
    if file.address.len() > 0 && !link.exists {
        assert(!shows(first.link, host_of(file.address)));
    }
}

} // verus!
