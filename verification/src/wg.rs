//! The tunnel: what its configuration asks for, what the interface shows, and what is
//! done about a peer that does not answer.
use vstd::prelude::*;
use vstd::slice::slice_subrange;
use vstd::string::*;

use crate::address::{parse_ip, Ip};
use crate::order::TextMap;
use crate::{address, numbers, text};

verus! {

/// How old a handshake may be, in seconds, before the peer has to be asked.
pub const HANDSHAKE_STALE_SECS: i64 = 120;

/// How often the interface is looked at, in seconds.
pub const WG_GUARD_INTERVAL: u64 = 5;

/// How long a remedy is given, in seconds, before the next.
pub const WG_REMEDY_DWELL: u64 = 15;

/// The longest wait between two remedies once all were tried, in seconds.
pub const WG_BACKOFF_MAX: u64 = 900;

/// The shortest wait between two remedies once all were tried, in seconds.
pub const WG_BACKOFF_MIN: u64 = 60;

/// The key and the value of a line of the configuration.
pub open spec fn setting(line: Seq<char>) -> Option<(Seq<char>, Seq<char>)> {
    match text::split_once(line, '=') {
        Some((key, value)) => Some((text::trim(key), text::trim(value))),
        None => None,
    }
}

fn read_setting<'a>(line: &'a [char]) -> (r: Option<(&'a [char], &'a [char])>)
    ensures
        match r {
            Some((k, v)) => setting(line@) == Some((k@, v@)),
            None => setting(line@) is None,
        },
{
    match text::cut_once(line, '=') {
        Some((key, value)) => Some((text::trimmed(key), text::trimmed(value))),
        None => None,
    }
}

/// The value of the first line at or after `from` whose key is `key`.
pub open spec fn value_of(lines: Seq<Seq<char>>, key: Seq<char>, from: int) -> Option<Seq<char>>
    decreases lines.len() - from,
{
    if from < 0 || from >= lines.len() {
        None
    } else {
        match setting(lines[from]) {
            Some((k, v)) => if k == key {
                Some(v)
            } else {
                value_of(lines, key, from + 1)
            },
            None => value_of(lines, key, from + 1),
        }
    }
}

/// The packet size that a configuration asks for.
pub open spec fn conf_mtu(content: Seq<char>) -> Option<u16> {
    match value_of(text::lines(content), "MTU"@, 0) {
        Some(v) => numbers::as_u16(v),
        None => None,
    }
}

/// The packet size that a configuration asks for.
pub fn wireguard_conf_mtu(content: &str) -> (r: Option<u16>)
    ensures
        r == conf_mtu(content@),
{
    let chars = text::chars_of(content);
    let lines = text::split_lines(chars.as_slice());
    let ghost all = text::lines(content@);
    let n: usize = lines.len();
    assert(text::views(lines@).len() == lines@.len());
    let mut i: usize = 0;
    while i < n
        invariant
            i <= n,
            n == lines@.len(),
            all == text::lines(content@),
            text::views(lines@) == all,
            all.len() == n,
            value_of(all, "MTU"@, 0) == value_of(all, "MTU"@, i as int),
        decreases n - i,
    {
        assert(text::views(lines@)[i as int] == lines@[i as int]@);
        if let Some((key, value)) = read_setting(lines[i]) {
            if text::same(key, "MTU") {
                return numbers::read_u16(value);
            }
        }
        i = i + 1;
    }
    None
}

/// A peer that the configuration names.
#[derive(Debug, PartialEq, Eq)]
pub struct ConfPeer {
    pub name: String,
    pub public_key: String,
    /// Where it is dialled; none where only it dials here.
    pub endpoint: Option<String>,
    pub overlay_ip: Option<String>,
}

/// A peer that the configuration names, by its characters.
pub struct ConfView {
    pub name: Seq<char>,
    pub public_key: Seq<char>,
    pub endpoint: Option<Seq<char>>,
    pub overlay_ip: Option<Seq<char>>,
}

impl View for ConfPeer {
    type V = ConfView;

    open spec fn view(&self) -> ConfView {
        ConfView {
            name: self.name@,
            public_key: self.public_key@,
            endpoint: text::optional(self.endpoint),
            overlay_ip: text::optional(self.overlay_ip),
        }
    }
}

pub open spec fn conf_views(peers: Seq<ConfPeer>) -> Seq<ConfView> {
    Seq::new(peers.len(), |i: int| peers[i]@)
}

/// The address of the first network of a list: what stands before its comma and its
/// slash.
pub open spec fn first_address(list: Seq<char>) -> Seq<char> {
    let net = match text::split_once(list, ',') {
        Some((first, _)) => first,
        None => list,
    };
    text::trim(
        match text::split_once(net, '/') {
            Some((address, _)) => address,
            None => net,
        },
    )
}

fn read_first_address(list: &[char]) -> (r: String)
    ensures
        r@ == first_address(list@),
{
    let net = match text::cut_once(list, ',') {
        Some((first, _)) => first,
        None => list,
    };
    let address = match text::cut_once(net, '/') {
        Some((address, _)) => address,
        None => net,
    };
    text::string_of(text::trimmed(address))
}

/// A peer once one more line of its section is read.
pub open spec fn with_line(peer: ConfView, line: Seq<char>) -> ConfView {
    if line.len() > 0 && line[0] == '#' {
        ConfView { name: text::trim(line.skip(1)), ..peer }
    } else {
        match setting(line) {
            Some((key, value)) => if key == "PublicKey"@ {
                ConfView { public_key: value, ..peer }
            } else if key == "Endpoint"@ {
                ConfView { endpoint: Some(value), ..peer }
            } else if key == "AllowedIPs"@ {
                ConfView { overlay_ip: Some(first_address(value)), ..peer }
            } else {
                peer
            },
            None => peer,
        }
    }
}

pub open spec fn nameless() -> ConfView {
    ConfView { name: ""@, public_key: ""@, endpoint: None, overlay_ip: None }
}

/// The peers that lines name, and whether the last of them stands in a peer's section.
pub open spec fn conf_peers(lines: Seq<Seq<char>>) -> (Seq<ConfView>, bool)
    decreases lines.len(),
{
    if lines.len() == 0 {
        (seq![], false)
    } else {
        let (peers, inside) = conf_peers(lines.drop_last());
        let line = text::trim(lines.last());
        if line == "[Peer]"@ {
            (peers.push(nameless()), true)
        } else if line.len() > 0 && line[0] == '[' {
            (peers, false)
        } else if inside && peers.len() > 0 {
            (peers.drop_last().push(with_line(peers.last(), line)), true)
        } else {
            (peers, inside)
        }
    }
}

fn read_line_into(peer: &mut ConfPeer, line: &[char])
    ensures
        final(peer)@ == with_line(old(peer)@, line@),
{
    let n: usize = line.len();
    if n > 0 && line[0] == '#' {
        let rest = slice_subrange(line, 1, n);
        assert(rest@ == line@.skip(1));
        peer.name = text::string_of(text::trimmed(rest));
        return;
    }
    if let Some((key, value)) = read_setting(line) {
        if text::same(key, "PublicKey") {
            peer.public_key = text::string_of(value);
        } else if text::same(key, "Endpoint") {
            peer.endpoint = Some(text::string_of(value));
        } else if text::same(key, "AllowedIPs") {
            peer.overlay_ip = Some(read_first_address(value));
        }
    }
}

/// The peers that a configuration names: one for each `[Peer]` section, called after
/// the comment in it.
pub fn parse_wireguard_conf_peers(content: &str) -> (r: Vec<ConfPeer>)
    ensures
        conf_views(r@) == conf_peers(text::lines(content@)).0,
{
    let chars = text::chars_of(content);
    let lines = text::split_lines(chars.as_slice());
    let ghost all = text::lines(content@);
    assert(text::views(lines@).len() == lines@.len());
    let mut out: Vec<ConfPeer> = Vec::new();
    let mut inside = false;
    let mut i: usize = 0;
    assert(conf_views(out@) == conf_peers(all.take(0)).0);
    while i < lines.len()
        invariant
            i <= lines@.len(),
            text::views(lines@) == all,
            all.len() == lines@.len(),
            conf_views(out@) == conf_peers(all.take(i as int)).0,
            inside == conf_peers(all.take(i as int)).1,
        decreases lines.len() - i,
    {
        assert(text::views(lines@)[i as int] == lines@[i as int]@);
        assert(all.take(i + 1).drop_last() == all.take(i as int));
        assert(all.take(i + 1).last() == all[i as int]);
        let line = text::trimmed(lines[i]);
        let ghost before = out@;
        assert(conf_views(before).len() == before.len());
        if text::same(line, "[Peer]") {
            out.push(
                ConfPeer {
                    name: "".to_owned(),
                    public_key: "".to_owned(),
                    endpoint: None,
                    overlay_ip: None,
                },
            );
            assert(conf_views(out@) == conf_views(before).push(nameless()));
            inside = true;
        } else if line.len() > 0 && line[0] == '[' {
            inside = false;
        } else if inside {
            if let Some(peer) = out.pop() {
                let mut peer = peer;
                read_line_into(&mut peer, line);
                out.push(peer);
                assert(conf_views(out@) == conf_views(before).drop_last().push(
                    with_line(conf_views(before).last(), line@),
                ));
            } else {
                assert(conf_views(out@) == conf_views(before));
            }
        }
        i = i + 1;
    }
    assert(all.take(i as int) == all);
    out
}

/// A peer that the interface shows.
#[derive(Debug, PartialEq, Eq)]
pub struct LivePeer {
    pub public_key: String,
    pub endpoint: Option<String>,
    pub overlay_ip: Option<String>,
    /// When it last shook hands; 0 where it never did.
    pub latest_handshake: i64,
    /// How often it is kept awake; 0 where it is not.
    pub persistent_keepalive: u16,
}

/// A peer that the interface shows, by its characters.
pub struct LiveView {
    pub public_key: Seq<char>,
    pub endpoint: Option<Seq<char>>,
    pub overlay_ip: Option<Seq<char>>,
    pub latest_handshake: i64,
    pub persistent_keepalive: u16,
}

impl View for LivePeer {
    type V = LiveView;

    open spec fn view(&self) -> LiveView {
        LiveView {
            public_key: self.public_key@,
            endpoint: text::optional(self.endpoint),
            overlay_ip: text::optional(self.overlay_ip),
            latest_handshake: self.latest_handshake,
            persistent_keepalive: self.persistent_keepalive,
        }
    }
}

pub open spec fn live_views(peers: Seq<LivePeer>) -> Seq<LiveView> {
    Seq::new(peers.len(), |i: int| peers[i]@)
}

/// A field of the dump, where it is not marked as absent.
pub open spec fn unless_none(field: Seq<char>) -> Option<Seq<char>> {
    if field == "(none)"@ {
        None
    } else {
        Some(field)
    }
}

/// The peer that a line of the dump shows. A peer has eight fields; the interface's own
/// line has fewer.
pub open spec fn dump_line(line: Seq<char>) -> Option<LiveView> {
    let fields = text::split_char(line, '\t');
    if fields.len() < 8 {
        None
    } else {
        Some(
            LiveView {
                public_key: fields[0],
                endpoint: unless_none(fields[2]),
                overlay_ip: match unless_none(fields[3]) {
                    Some(list) => Some(first_address(list)),
                    None => None,
                },
                latest_handshake: match numbers::as_i64(fields[4]) {
                    Some(at) => at,
                    None => 0,
                },
                persistent_keepalive: match numbers::as_u16(fields[7]) {
                    Some(secs) => secs,
                    None => 0,
                },
            },
        )
    }
}

/// The peers that lines of the dump show.
pub open spec fn dump_peers(lines: Seq<Seq<char>>) -> Seq<LiveView>
    decreases lines.len(),
{
    if lines.len() == 0 {
        seq![]
    } else {
        let front = dump_peers(lines.drop_last());
        match dump_line(lines.last()) {
            Some(peer) => front.push(peer),
            None => front,
        }
    }
}

fn read_unless_none(field: &[char]) -> (r: Option<String>)
    ensures
        text::optional(r) == unless_none(field@),
{
    if text::same(field, "(none)") {
        None
    } else {
        Some(text::string_of(field))
    }
}

fn read_dump_line(line: &[char]) -> (r: Option<LivePeer>)
    ensures
        match r {
            Some(peer) => dump_line(line@) == Some(peer@),
            None => dump_line(line@) is None,
        },
{
    let fields = text::split_at_char(line, '\t');
    let ghost all = text::split_char(line@, '\t');
    assert(text::views(fields@).len() == fields@.len());
    if fields.len() < 8 {
        return None;
    }
    assert(text::views(fields@)[0] == fields@[0]@);
    assert(text::views(fields@)[2] == fields@[2]@);
    assert(text::views(fields@)[3] == fields@[3]@);
    assert(text::views(fields@)[4] == fields@[4]@);
    assert(text::views(fields@)[7] == fields@[7]@);
    let overlay_ip = if text::same(fields[3], "(none)") {
        None
    } else {
        Some(read_first_address(fields[3]))
    };
    let latest_handshake: i64 = match numbers::read_i64(fields[4]) {
        Ok(at) => at,
        Err(_) => 0,
    };
    let persistent_keepalive: u16 = match numbers::read_u16(fields[7]) {
        Some(secs) => secs,
        None => 0,
    };
    let peer = LivePeer {
        public_key: text::string_of(fields[0]),
        endpoint: read_unless_none(fields[2]),
        overlay_ip,
        latest_handshake,
        persistent_keepalive,
    };
    Some(peer)
}

/// The peers that the interface shows, from `wg show wg0 dump`.
pub fn parse_wg_dump(dump: &str) -> (r: Vec<LivePeer>)
    ensures
        live_views(r@) == dump_peers(text::lines(dump@)),
{
    let chars = text::chars_of(dump);
    let lines = text::split_lines(chars.as_slice());
    let ghost all = text::lines(dump@);
    assert(text::views(lines@).len() == lines@.len());
    let mut out: Vec<LivePeer> = Vec::new();
    let mut i: usize = 0;
    assert(live_views(out@) == dump_peers(all.take(0)));
    while i < lines.len()
        invariant
            i <= lines@.len(),
            text::views(lines@) == all,
            all.len() == lines@.len(),
            live_views(out@) == dump_peers(all.take(i as int)),
        decreases lines.len() - i,
    {
        assert(text::views(lines@)[i as int] == lines@[i as int]@);
        assert(all.take(i + 1).drop_last() == all.take(i as int));
        assert(all.take(i + 1).last() == all[i as int]);
        let ghost before = out@;
        if let Some(peer) = read_dump_line(lines[i]) {
            out.push(peer);
            assert(live_views(out@) == live_views(before).push(peer@));
        }
        i = i + 1;
    }
    assert(all.take(i as int) == all);
    out
}

/// An address with a port: a dotted quad, or an IPv6 address in brackets.
pub open spec fn socket_address(s: Seq<char>) -> Option<(Ip, u16)> {
    match text::rsplit_once(s, ':') {
        Some((host, port)) => {
            let number = if port.len() > 0 && port[0] == '+' {
                None
            } else {
                numbers::as_u16(port)
            };
            let bracketed = host.len() >= 2 && host[0] == '[' && host[host.len() - 1] == ']';
            let ip = if bracketed {
                address::ip_literal(host.subrange(1, host.len() - 1))
            } else {
                address::ip_literal(host)
            };
            match (ip, number) {
                (Some(Ip::V4(bits)), Some(p)) => if bracketed {
                    None
                } else {
                    Some((Ip::V4(bits), p))
                },
                (Some(Ip::V6(high, low)), Some(p)) => if bracketed {
                    Some((Ip::V6(high, low), p))
                } else {
                    None
                },
                _ => None,
            }
        },
        None => None,
    }
}

fn read_socket_address(s: &str) -> (r: Option<(Ip, u16)>)
    ensures
        r == socket_address(s@),
{
    let chars = text::chars_of(s);
    match text::rcut_once(chars.as_slice(), ':') {
        Some((host, port)) => {
            let number = if port.len() > 0 && port[0] == '+' {
                None
            } else {
                numbers::read_u16(port)
            };
            let n: usize = host.len();
            let bracketed = n >= 2 && host[0] == '[' && host[n - 1] == ']';
            let ip = if bracketed {
                parse_ip(slice_subrange(host, 1, n - 1))
            } else {
                parse_ip(host)
            };
            match (ip, number) {
                (Some(Ip::V4(bits)), Some(p)) => if bracketed {
                    None
                } else {
                    Some((Ip::V4(bits), p))
                },
                (Some(Ip::V6(high, low)), Some(p)) => if bracketed {
                    Some((Ip::V6(high, low), p))
                } else {
                    None
                },
                _ => None,
            }
        },
        None => None,
    }
}

/// Whether two endpoints are the same: by address and port, not by spelling. What
/// cannot be read is nobody's drift, since rewriting it would repeat every round.
pub open spec fn same_endpoint(a: Seq<char>, b: Seq<char>) -> bool {
    match (socket_address(a), socket_address(b)) {
        (Some(x), Some(y)) => x == y,
        _ => true,
    }
}

/// Whether two endpoints are the same.
pub fn endpoint_matches(a: &str, b: &str) -> (r: bool)
    ensures
        r == same_endpoint(a@, b@),
{
    match (read_socket_address(a), read_socket_address(b)) {
        (Some((ip, port)), Some((other_ip, other_port))) => ip == other_ip && port == other_port,
        _ => true,
    }
}

/// Whether an endpoint is on this machine, where the disguise layer listens.
pub open spec fn local_endpoint(s: Seq<char>) -> bool {
    match socket_address(s) {
        Some((ip, _)) => ip.loopback(),
        None => false,
    }
}

/// Whether an endpoint is on this machine.
pub fn endpoint_is_local(s: &str) -> (r: bool)
    ensures
        r == local_endpoint(s@),
{
    match read_socket_address(s) {
        Some((ip, _)) => ip.is_loopback(),
        None => false,
    }
}

/// What is known of a peer.
#[derive(Debug, PartialEq, Eq)]
pub enum PeerState {
    /// It shook hands a moment ago.
    Fresh,
    /// It did not, but answers.
    Alive,
    /// It did not, and this machine cannot ask.
    Unprobed { reason: String },
    /// It did not, and has not been asked yet.
    Suspect,
    Down { detail: String },
}

/// What is known of a peer, by its characters.
pub enum StateView {
    Fresh,
    Alive,
    Unprobed(Seq<char>),
    Suspect,
    Down(Seq<char>),
}

impl View for PeerState {
    type V = StateView;

    open spec fn view(&self) -> StateView {
        match *self {
            PeerState::Fresh => StateView::Fresh,
            PeerState::Alive => StateView::Alive,
            PeerState::Unprobed { reason } => StateView::Unprobed(reason@),
            PeerState::Suspect => StateView::Suspect,
            PeerState::Down { detail } => StateView::Down(detail@),
        }
    }
}

/// What was found of a peer.
#[derive(Debug, PartialEq, Eq)]
pub struct PeerCheck {
    pub name: String,
    pub overlay_ip: Option<String>,
    /// The seconds since it last shook hands.
    pub handshake_age: Option<i64>,
    /// The endpoint that the configuration asks for, and the one it has.
    pub endpoint_drift: Option<(String, String)>,
    /// An endpoint elsewhere of a peer that comes in through this machine.
    pub stray_endpoint: Option<String>,
    pub state: PeerState,
}

/// What was found of a peer, by its characters.
pub struct CheckView {
    pub name: Seq<char>,
    pub overlay_ip: Option<Seq<char>>,
    pub handshake_age: Option<i64>,
    pub endpoint_drift: Option<(Seq<char>, Seq<char>)>,
    pub stray_endpoint: Option<Seq<char>>,
    pub state: StateView,
}

impl View for PeerCheck {
    type V = CheckView;

    open spec fn view(&self) -> CheckView {
        CheckView {
            name: self.name@,
            overlay_ip: text::optional(self.overlay_ip),
            handshake_age: self.handshake_age,
            endpoint_drift: match self.endpoint_drift {
                Some((want, live)) => Some((want@, live@)),
                None => None,
            },
            stray_endpoint: text::optional(self.stray_endpoint),
            state: self.state@,
        }
    }
}

pub open spec fn check_views(checks: Seq<PeerCheck>) -> Seq<CheckView> {
    Seq::new(checks.len(), |i: int| checks[i]@)
}

/// The seconds since a handshake; none where there never was one.
pub open spec fn age_at(latest: i64, now: i64) -> Option<i64> {
    if latest <= 0 {
        None
    } else if now < latest {
        Some(0)
    } else {
        Some((now - latest) as i64)
    }
}

/// What a peer of the configuration comes to, from the peer that the interface shows
/// under its key.
pub open spec fn judged(conf: ConfView, live: Option<LiveView>, now: i64, via: bool) -> CheckView {
    match live {
        None => CheckView {
            name: conf.name,
            overlay_ip: conf.overlay_ip,
            handshake_age: None,
            endpoint_drift: None,
            stray_endpoint: None,
            state: StateView::Down("不在 wg0 的运行态里"@),
        },
        Some(peer) => {
            let age = age_at(peer.latest_handshake, now);
            CheckView {
                name: conf.name,
                overlay_ip: conf.overlay_ip,
                handshake_age: age,
                endpoint_drift: match conf.endpoint {
                    Some(want) => match peer.endpoint {
                        Some(has) => if same_endpoint(want, has) {
                            None
                        } else {
                            Some((want, has))
                        },
                        None => Some((want, "(none)"@)),
                    },
                    None => None,
                },
                stray_endpoint: match peer.endpoint {
                    Some(has) => if conf.endpoint is None && via && !local_endpoint(has) {
                        Some(has)
                    } else {
                        None
                    },
                    None => None,
                },
                state: if age is Some && age->0 <= HANDSHAKE_STALE_SECS {
                    StateView::Fresh
                } else {
                    StateView::Suspect
                },
            }
        },
    }
}

/// The first peer at or after `from` with a key.
pub open spec fn peer_with_key(live: Seq<LiveView>, key: Seq<char>, from: int) -> Option<LiveView>
    decreases live.len() - from,
{
    if from < 0 || from >= live.len() {
        None
    } else if live[from].public_key == key {
        Some(live[from])
    } else {
        peer_with_key(live, key, from + 1)
    }
}

/// What the peers of a configuration come to.
pub open spec fn all_judged(
    conf: Seq<ConfView>,
    live: Seq<LiveView>,
    now: i64,
    via: Seq<Seq<char>>,
) -> Seq<CheckView> {
    Seq::new(
        conf.len(),
        |i: int|
            judged(
                conf[i],
                peer_with_key(live, conf[i].public_key, 0),
                now,
                via.contains(conf[i].name),
            ),
    )
}

fn find_peer<'a>(live: &'a Vec<LivePeer>, key: &str) -> (r: Option<&'a LivePeer>)
    ensures
        match r {
            Some(peer) => peer_with_key(live_views(live@), key@, 0) == Some(peer@),
            None => peer_with_key(live_views(live@), key@, 0) is None,
        },
{
    let ghost all = live_views(live@);
    assert(all.len() == live@.len());
    let mut i: usize = 0;
    while i < live.len()
        invariant
            i <= live@.len(),
            all == live_views(live@),
            all.len() == live@.len(),
            peer_with_key(all, key@, 0) == peer_with_key(all, key@, i as int),
        decreases live.len() - i,
    {
        assert(all[i as int] == live@[i as int]@);
        if text::same_str(live[i].public_key.as_str(), key) {
            return Some(&live[i]);
        }
        i = i + 1;
    }
    None
}

fn is_named(names: &Vec<String>, name: &str) -> (r: bool)
    ensures
        r == text::string_views(names@).contains(name@),
{
    let ghost all = text::string_views(names@);
    assert(all.len() == names@.len());
    let mut i: usize = 0;
    while i < names.len()
        invariant
            i <= names@.len(),
            all == text::string_views(names@),
            all.len() == names@.len(),
            forall|k: int| 0 <= k < i ==> all[k] != name@,
        decreases names.len() - i,
    {
        assert(all[i as int] == names@[i as int]@);
        if text::same_str(names[i].as_str(), name) {
            return true;
        }
        i = i + 1;
    }
    false
}

fn copied(s: &Option<String>) -> (r: Option<String>)
    ensures
        text::optional(r) == text::optional(*s),
{
    match s {
        Some(t) => Some(t.as_str().to_owned()),
        None => None,
    }
}

fn judge_peer(conf: &ConfPeer, live: Option<&LivePeer>, now: i64, via: bool) -> (r: PeerCheck)
    ensures
        r@ == judged(
            conf@,
            match live {
                Some(peer) => Some(peer@),
                None => None,
            },
            now,
            via,
        ),
{
    let name = conf.name.as_str().to_owned();
    let overlay_ip = copied(&conf.overlay_ip);
    match live {
        None => PeerCheck {
            name,
            overlay_ip,
            handshake_age: None,
            endpoint_drift: None,
            stray_endpoint: None,
            state: PeerState::Down { detail: "不在 wg0 的运行态里".to_owned() },
        },
        Some(peer) => {
            let age: Option<i64> = if peer.latest_handshake <= 0 {
                None
            } else if now < peer.latest_handshake {
                Some(0)
            } else {
                Some(now - peer.latest_handshake)
            };
            let endpoint_drift = match &conf.endpoint {
                Some(want) => match &peer.endpoint {
                    Some(has) => if endpoint_matches(want.as_str(), has.as_str()) {
                        None
                    } else {
                        Some((want.as_str().to_owned(), has.as_str().to_owned()))
                    },
                    None => Some((want.as_str().to_owned(), "(none)".to_owned())),
                },
                None => None,
            };
            let stray_endpoint = match &peer.endpoint {
                Some(has) => if conf.endpoint.is_none() && via && !endpoint_is_local(
                    has.as_str(),
                ) {
                    Some(has.as_str().to_owned())
                } else {
                    None
                },
                None => None,
            };
            let state = match age {
                Some(secs) => if secs <= HANDSHAKE_STALE_SECS {
                    PeerState::Fresh
                } else {
                    PeerState::Suspect
                },
                None => PeerState::Suspect,
            };
            PeerCheck { name, overlay_ip, handshake_age: age, endpoint_drift, stray_endpoint, state }
        },
    }
}

/// What the peers of a configuration come to. An old handshake makes a peer suspect and
/// no more: an idle tunnel has one too. `via_phantun` names the peers that come in
/// through this machine's disguise layer.
pub fn judge_wg_peers(
    conf: &Vec<ConfPeer>,
    live: &Vec<LivePeer>,
    now: i64,
    via_phantun: &Vec<String>,
) -> (r: Vec<PeerCheck>)
    ensures
        check_views(r@) == all_judged(
            conf_views(conf@),
            live_views(live@),
            now,
            text::string_views(via_phantun@),
        ),
{
    let ghost all = all_judged(
        conf_views(conf@),
        live_views(live@),
        now,
        text::string_views(via_phantun@),
    );
    assert(conf_views(conf@).len() == conf@.len());
    let mut out: Vec<PeerCheck> = Vec::new();
    let mut i: usize = 0;
    while i < conf.len()
        invariant
            i <= conf@.len(),
            all.len() == conf@.len(),
            all == all_judged(
                conf_views(conf@),
                live_views(live@),
                now,
                text::string_views(via_phantun@),
            ),
            check_views(out@) == all.take(i as int),
        decreases conf.len() - i,
    {
        assert(conf_views(conf@)[i as int] == conf@[i as int]@);
        let peer = &conf[i];
        let found = find_peer(live, peer.public_key.as_str());
        let via = is_named(via_phantun, peer.name.as_str());
        let ghost before = out@;
        let check = judge_peer(peer, found, now, via);
        out.push(check);
        assert(check_views(out@) == check_views(before).push(check@));
        assert(all.take(i + 1) == all.take(i as int).push(all[i as int]));
        i = i + 1;
    }
    assert(all.take(i as int) == all);
    out
}

/// Whether an endpoint that moved is put back at once. Off the disguise layer the link
/// is dead whatever its handshake says; elsewhere roaming is ordinary, and only a peer
/// that is down is corrected.
pub open spec fn fatal_drift(check: CheckView) -> bool {
    match check.endpoint_drift {
        Some((want, _)) => local_endpoint(want) || check.state is Down,
        None => false,
    }
}

/// Whether an endpoint that moved is put back at once.
pub fn drift_is_fatal(check: &PeerCheck) -> (r: bool)
    ensures
        r == fatal_drift(check@),
{
    match &check.endpoint_drift {
        Some((want, _)) => {
            let down = match &check.state {
                PeerState::Down { .. } => true,
                _ => false,
            };
            endpoint_is_local(want.as_str()) || down
        },
        None => false,
    }
}

/// Whether something has to be done about a peer.
pub fn is_down(check: &PeerCheck) -> (r: bool)
    ensures
        r == (check@.state is Down || fatal_drift(check@)),
{
    match &check.state {
        PeerState::Down { .. } => true,
        _ => drift_is_fatal(check),
    }
}

/// How long ago a peer shook hands, in words.
pub open spec fn age_text(age: Option<i64>) -> Seq<char> {
    match age {
        Some(secs) => numbers::signed_decimal(secs as int) + " 秒没握手"@,
        None => "从没握过手"@,
    }
}

/// How long ago a peer shook hands, in words.
pub fn handshake_age_text(age: Option<i64>) -> (r: String)
    ensures
        r@ == age_text(age),
{
    match age {
        Some(secs) => {
            let mut out = numbers::signed_string(secs);
            out.append(" 秒没握手");
            out
        },
        None => "从没握过手".to_owned(),
    }
}

/// What a suspect peer is once it was asked. That it could not be asked says something
/// of this machine, and nothing of the peer.
pub open spec fn settled(check: CheckView, answer: Option<Result<bool, Seq<char>>>) -> StateView {
    if check.state is Suspect {
        match answer {
            Some(Ok(true)) => StateView::Alive,
            Some(Ok(false)) => StateView::Down(age_text(check.handshake_age) + "，ping 不通"@),
            Some(Err(reason)) => StateView::Unprobed(reason),
            None => StateView::Unprobed("没有 overlay 地址可探"@),
        }
    } else {
        check.state
    }
}

/// What is known of a peer's address from asking.
pub open spec fn answer_for(
    ip: Option<Seq<char>>,
    reachable: Map<Seq<char>, Result<bool, String>>,
) -> Option<Result<bool, Seq<char>>> {
    match ip {
        Some(ip) => if reachable.dom().contains(ip) {
            match reachable[ip] {
                Ok(answers) => Some(Ok(answers)),
                Err(reason) => Some(Err(reason@)),
            }
        } else {
            None
        },
        None => None,
    }
}

fn settle(check: &PeerCheck, reachable: &TextMap<Result<bool, String>>) -> (r: Option<PeerState>)
    requires
        reachable.wf(),
    ensures
        match r {
            Some(state) => check@.state is Suspect && state@ == settled(
                check@,
                answer_for(check@.overlay_ip, reachable@),
            ),
            None => !(check@.state is Suspect),
        },
{
    match &check.state {
        PeerState::Suspect => {},
        _ => {
            return None;
        },
    }
    let answer = match &check.overlay_ip {
        Some(ip) => reachable.get(ip.as_str()),
        None => None,
    };
    match answer {
        Some(Ok(answers)) => if *answers {
            Some(PeerState::Alive)
        } else {
            let mut detail = handshake_age_text(check.handshake_age);
            detail.append("，ping 不通");
            Some(PeerState::Down { detail })
        },
        Some(Err(reason)) => Some(PeerState::Unprobed { reason: reason.as_str().to_owned() }),
        None => Some(PeerState::Unprobed { reason: "没有 overlay 地址可探".to_owned() }),
    }
}

/// What the peers come to once the suspect ones were asked.
pub open spec fn all_settled(
    checks: Seq<CheckView>,
    reachable: Map<Seq<char>, Result<bool, String>>,
) -> Seq<CheckView> {
    Seq::new(
        checks.len(),
        |i: int|
            CheckView {
                state: settled(checks[i], answer_for(checks[i].overlay_ip, reachable)),
                ..checks[i]
            },
    )
}

/// Settles the suspect peers by what asking them came to.
pub fn apply_reachability(
    checks: &mut Vec<PeerCheck>,
    reachable: &TextMap<Result<bool, String>>,
)
    requires
        reachable.wf(),
    ensures
        check_views(final(checks)@) == all_settled(check_views(old(checks)@), reachable@),
{
    let ghost start = check_views(checks@);
    let ghost all = all_settled(start, reachable@);
    let n: usize = checks.len();
    let mut i: usize = 0;
    assert(start.len() == n);
    while i < n
        invariant
            i <= n,
            checks@.len() == n,
            start.len() == n,
            reachable.wf(),
            all == all_settled(start, reachable@),
            forall|k: int| 0 <= k < i ==> (#[trigger] checks@[k])@ == all[k],
            forall|k: int| i <= k < n ==> (#[trigger] checks@[k])@ == start[k],
        decreases n - i,
    {
        assert(checks@[i as int]@ == start[i as int]);
        if let Some(state) = settle(&checks[i], reachable) {
            checks[i].state = state;
        }
        i = i + 1;
    }
    assert(check_views(checks@) == all);
}

/// A peer that could not be asked is never taken to be down.
pub proof fn lemma_unprobed_is_never_down(check: CheckView, reason: Seq<char>)
    requires
        !(check.state is Down),
    ensures
        !(settled(check, Some(Err(reason))) is Down),
        !(settled(check, None) is Down),
{
}

/// What is done about peers that stay down, from the mildest to the harshest.
#[derive(Debug, Clone, Copy, PartialEq, Eq, Structural)]
pub enum Rung {
    /// The configuration is applied again; sessions go on.
    Syncconf,
    /// The interface is taken down and up.
    Bounce,
    /// The interface is made anew.
    Rebuild,
    /// As far as one can go while a peer still works.
    SpareTheLive,
}

/// The seconds after which sessions may be cut.
pub const BOUNCE_AFTER: u64 = 45;

/// The seconds after which the interface may be made anew.
pub const REBUILD_AFTER: u64 = 120;

/// What is done about peers that have been down for some seconds.
pub open spec fn rung_for(elapsed: int, down: usize, total: usize) -> Rung {
    if elapsed < BOUNCE_AFTER {
        Rung::Syncconf
    } else if elapsed < REBUILD_AFTER {
        Rung::Bounce
    } else if down >= total {
        Rung::Rebuild
    } else {
        Rung::SpareTheLive
    }
}

/// What is done about `down` of `total` peers that have been down for some seconds. The
/// interface is made anew only where nothing works: it carries the overlay address that
/// the other peers come in on.
pub fn pick_rung(elapsed: u64, down: usize, total: usize) -> (r: Rung)
    ensures
        r == rung_for(elapsed as int, down, total),
{
    if elapsed < BOUNCE_AFTER {
        Rung::Syncconf
    } else if elapsed < REBUILD_AFTER {
        Rung::Bounce
    } else if down >= total {
        Rung::Rebuild
    } else {
        Rung::SpareTheLive
    }
}

impl Rung {
    /// Whether there is nothing harsher: only then are remedies spaced out.
    pub fn is_top(&self) -> (r: bool)
        ensures
            r == (*self == Rung::Rebuild || *self == Rung::SpareTheLive),
    {
        match self {
            Rung::Rebuild => true,
            Rung::SpareTheLive => true,
            _ => false,
        }
    }
}

/// The wait after a remedy that was the harshest: twice the last, within limits.
pub open spec fn longer_dwell(dwell: u64) -> u64 {
    if dwell * 2 < WG_BACKOFF_MIN {
        WG_BACKOFF_MIN
    } else if dwell * 2 > WG_BACKOFF_MAX {
        WG_BACKOFF_MAX
    } else {
        (dwell * 2) as u64
    }
}

/// The wait after a remedy that was the harshest.
pub fn next_dwell(dwell: u64) -> (r: u64)
    ensures
        r == longer_dwell(dwell),
{
    if dwell > WG_BACKOFF_MAX / 2 {
        WG_BACKOFF_MAX
    } else if dwell * 2 < WG_BACKOFF_MIN {
        WG_BACKOFF_MIN
    } else {
        dwell * 2
    }
}

/// Waits between remedies never shrink, and never stop growing before their limit.
pub proof fn lemma_remedies_are_spaced_out(dwell: u64)
    requires
        dwell <= WG_BACKOFF_MAX,
    ensures
        dwell <= longer_dwell(dwell) <= WG_BACKOFF_MAX,
        dwell < WG_BACKOFF_MAX ==> dwell < longer_dwell(dwell),
{
}

/// How long peers have been down, and what was done about it last; times are in seconds.
#[derive(Debug, Clone, Copy, PartialEq, Eq, Structural)]
pub struct Guard {
    /// When a peer was first found down.
    pub since: Option<u64>,
    /// When something was last done about it.
    pub acted: Option<u64>,
    /// How long to leave things alone after that.
    pub dwell: u64,
}

/// What follows a look at the peers.
#[derive(Debug, Clone, Copy, PartialEq, Eq, Structural)]
pub enum GuardStep {
    /// All is well, and was.
    Quiet,
    /// All is well again.
    Recovered,
    /// What was done last has not had its time yet.
    Wait,
    Act(Rung),
}

/// The time from one moment to another; none where the clock went back.
pub open spec fn passed(from: u64, to: u64) -> int {
    if to >= from {
        to - from
    } else {
        0
    }
}

impl Guard {
    /// A guard that has seen nothing.
    pub open spec fn fresh() -> Guard {
        Guard { since: None, acted: None, dwell: WG_REMEDY_DWELL }
    }

    /// Whether what was done last has not had its time yet.
    pub open spec fn dwells(self, now: u64) -> bool {
        self.acted matches Some(at) && passed(at, now) < self.dwell
    }

    /// What follows finding `down` of `total` peers down.
    pub open spec fn step(self, now: u64, down: usize, total: usize) -> GuardStep {
        if down == 0 {
            if self.since is Some {
                GuardStep::Recovered
            } else {
                GuardStep::Quiet
            }
        } else if self.dwells(now) {
            GuardStep::Wait
        } else {
            GuardStep::Act(rung_for(
                match self.since {
                    Some(at) => passed(at, now),
                    None => 0,
                },
                down,
                total,
            ))
        }
    }

    /// The guard after that.
    pub open spec fn looked(self, now: u64, down: usize, total: usize) -> Guard {
        let since = match self.since {
            Some(at) => at,
            None => now,
        };
        match self.step(now, down, total) {
            GuardStep::Quiet | GuardStep::Recovered => Guard::fresh(),
            GuardStep::Wait => Guard { since: Some(since), ..self },
            GuardStep::Act(rung) => Guard {
                since: Some(since),
                acted: Some(now),
                dwell: if rung == Rung::Rebuild || rung == Rung::SpareTheLive {
                    longer_dwell(self.dwell)
                } else {
                    self.dwell
                },
            },
        }
    }

    /// A guard that has seen nothing.
    pub fn new() -> (r: Guard)
        ensures
            r == Guard::fresh(),
    {
        Guard { since: None, acted: None, dwell: WG_REMEDY_DWELL }
    }

    /// Takes note of how many peers are down. A remedy gets its time before the next, and
    /// only the harshest are spaced out further and further.
    pub fn look(&mut self, now: u64, down: usize, total: usize) -> (r: GuardStep)
        ensures
            r == old(self).step(now, down, total),
            *final(self) == old(self).looked(now, down, total),
    {
        if down == 0 {
            let before = self.since;
            *self = Guard::new();
            return match before {
                Some(_) => GuardStep::Recovered,
                None => GuardStep::Quiet,
            };
        }
        let since: u64 = match self.since {
            Some(at) => at,
            None => now,
        };
        self.since = Some(since);
        match self.acted {
            Some(at) => {
                let rested: u64 = if now >= at {
                    now - at
                } else {
                    0
                };
                if rested < self.dwell {
                    return GuardStep::Wait;
                }
            },
            None => {},
        }
        let elapsed: u64 = if now >= since {
            now - since
        } else {
            0
        };
        let rung = pick_rung(elapsed, down, total);
        if rung.is_top() {
            self.dwell = next_dwell(self.dwell);
        }
        self.acted = Some(now);
        GuardStep::Act(rung)
    }
}

/// Between two remedies lies at least the wait that the first one left behind, however
/// often the peers are looked at in between.
pub proof fn lemma_remedies_leave_each_other_time(
    guard: Guard,
    first: u64,
    second: u64,
    down: usize,
    total: usize,
)
    requires
        guard.step(first, down, total) is Act,
        guard.looked(first, down, total).step(second, down, total) is Act,
    ensures
        passed(first, second) >= guard.looked(first, down, total).dwell,
{
}

/// How harsh a remedy is.
pub open spec fn harshness(rung: Rung) -> int {
    match rung {
        Rung::Syncconf => 0,
        Rung::Bounce | Rung::SpareTheLive => 1,
        Rung::Rebuild => 2,
    }
}

/// The longer peers are down the harsher the remedy, never milder. No session is cut
/// within forty-five seconds. The interface is made anew only after two minutes, and only
/// where no peer works; there it always is.
pub proof fn lemma_remedies_grow_harsher(earlier: int, later: int, down: usize, total: usize)
    requires
        0 <= earlier <= later,
    ensures
        harshness(rung_for(earlier, down, total)) <= harshness(rung_for(later, down, total)),
        earlier < 45 <==> rung_for(earlier, down, total) == Rung::Syncconf,
        rung_for(earlier, down, total) == Rung::Rebuild <==> earlier >= 120 && down >= total,
        rung_for(earlier, down, total) == Rung::SpareTheLive <==> earlier >= 120 && down < total,
{
}

/// The wait after the harshest remedy is twice the last, but a minute at least and a
/// quarter of an hour at most.
pub proof fn lemma_wait_doubles(dwell: u64)
    ensures
        60 <= longer_dwell(dwell) <= 900,
        30 <= dwell <= 450 ==> longer_dwell(dwell) == dwell + dwell,
        dwell < 30 ==> longer_dwell(dwell) == 60,
        dwell > 450 ==> longer_dwell(dwell) == 900,
{
}

/// Whenever all peers work the guard forgets what was, and says so once. While some do
/// not, it keeps the moment when that was first found and counts from there; it waits for
/// as long as it set itself, and then does something. Only the harshest remedies make it
/// wait longer.
pub proof fn lemma_guard_counts_from_the_first_finding(
    guard: Guard,
    now: u64,
    down: usize,
    total: usize,
)
    ensures
        ({
            let next = guard.looked(now, down, total);
            let step = guard.step(now, down, total);
            let since = match guard.since {
                Some(at) => at,
                None => now,
            };
            let due = match guard.acted {
                Some(at) => now >= at + guard.dwell || guard.dwell == 0,
                None => true,
            };
            &&& step == GuardStep::Recovered <==> down == 0 && guard.since is Some
            &&& step == GuardStep::Quiet <==> down == 0 && guard.since is None
            &&& step == GuardStep::Wait <==> down > 0 && !due
            &&& down == 0 ==> next.since is None && next.acted is None && next.dwell == 15
            &&& down > 0 ==> next.since == Some(since)
            &&& down > 0 && !due ==> next.acted == guard.acted && next.dwell == guard.dwell
            &&& down > 0 && due ==> {
                &&& step is Act && next.acted == Some(now)
                &&& now < since + 45 ==> step == GuardStep::Act(Rung::Syncconf)
                &&& since + 45 <= now < since + 120 ==> step == GuardStep::Act(Rung::Bounce)
                &&& since + 120 <= now && down >= total ==> step == GuardStep::Act(Rung::Rebuild)
                &&& since + 120 <= now && down < total ==> step == GuardStep::Act(
                    Rung::SpareTheLive,
                )
                &&& now < since + 120 ==> next.dwell == guard.dwell
                &&& since + 120 <= now && 30 <= guard.dwell <= 450 ==> next.dwell == guard.dwell
                    + guard.dwell
            }
        }),
{
}

/// What a peer is taken for. One that the interface does not show is down. Any other is
/// fresh exactly where it shook hands within two minutes, and suspect else; that alone
/// never makes it down. Its endpoint drifted exactly where the configuration gives one and
/// the interface shows none or another, and it strayed exactly where the configuration
/// gives none, it comes through the disguise layer and is seen elsewhere.
pub proof fn lemma_peer_is_taken_for_what_it_shows(
    conf: ConfView,
    live: Option<LiveView>,
    now: i64,
    via: bool,
)
    ensures
        ({
            let check = judged(conf, live, now, via);
            &&& check.name == conf.name && check.overlay_ip == conf.overlay_ip
            &&& live is None ==> check.state is Down && check.endpoint_drift is None
                && check.stray_endpoint is None && check.handshake_age is None
            &&& live matches Some(peer) ==> {
                let shook = peer.latest_handshake > 0;
                &&& check.state is Fresh <==> shook && now - peer.latest_handshake <= 120
                &&& check.state is Suspect <==> !(shook && now - peer.latest_handshake <= 120)
                &&& check.handshake_age is Some <==> shook
                &&& shook && peer.latest_handshake <= now ==> peer.latest_handshake
                    + check.handshake_age->0 == now
                &&& shook && peer.latest_handshake > now ==> check.handshake_age == Some(0i64)
                &&& check.endpoint_drift is Some <==> conf.endpoint is Some && (peer.endpoint is None
                    || !same_endpoint(conf.endpoint->0, peer.endpoint->0))
                &&& check.endpoint_drift matches Some((want, has)) ==> Some(want) == conf.endpoint
                    && has == (if peer.endpoint is Some {
                    peer.endpoint->0
                } else {
                    "(none)"@
                })
                &&& check.stray_endpoint is Some <==> conf.endpoint is None && via
                    && peer.endpoint is Some && !local_endpoint(peer.endpoint->0)
                &&& check.stray_endpoint is Some ==> check.stray_endpoint == peer.endpoint
            }
        }),
{
}

/// The peer that goes by a key is the first that the interface shows with that key, and
/// there is none exactly where it shows no such peer.
pub proof fn lemma_peer_goes_by_its_key(live: Seq<LiveView>, key: Seq<char>, from: int)
    requires
        0 <= from,
    ensures
        match peer_with_key(live, key, from) {
            Some(peer) => exists|i: int|
                from <= i < live.len() && #[trigger] live[i] == peer && peer.public_key == key && (
                forall|j: int| from <= j < i ==> (#[trigger] live[j]).public_key != key),
            None => forall|j: int|
                from <= j < live.len() ==> (#[trigger] live[j]).public_key != key,
        },
    decreases live.len() - from,
{
    if from < live.len() && live[from].public_key != key {
        lemma_peer_goes_by_its_key(live, key, from + 1);
    }
}

/// Asking settles suspect peers and no others, and changes nothing of a peer but its
/// state: one that answered is alive, one that did not is down, and one that was not or
/// could not be asked is neither.
pub proof fn lemma_asking_settles_suspects_only(
    checks: Seq<CheckView>,
    reachable: Map<Seq<char>, Result<bool, String>>,
    i: int,
)
    requires
        0 <= i < checks.len(),
    ensures
        ({
            let before = checks[i];
            let after = all_settled(checks, reachable)[i];
            let asked = before.overlay_ip matches Some(ip) && reachable.dom().contains(ip);
            let answer = reachable[before.overlay_ip->0];
            &&& all_settled(checks, reachable).len() == checks.len()
            &&& after == (CheckView { state: after.state, ..before })
            &&& !(before.state is Suspect) ==> after == before
            &&& before.state is Suspect ==> {
                &&& after.state is Alive <==> asked && answer == Ok::<bool, String>(true)
                &&& after.state is Down <==> asked && answer == Ok::<bool, String>(false)
                &&& after.state is Unprobed <==> !asked || answer is Err
                &&& asked && answer is Err ==> after.state == StateView::Unprobed(answer->Err_0@)
            }
        }),
{
}

/// Two endpoints drift apart in either direction or in none, and none drifts from itself.
pub proof fn lemma_same_endpoint_is_mutual(a: Seq<char>, b: Seq<char>)
    ensures
        same_endpoint(a, a),
        same_endpoint(a, b) == same_endpoint(b, a),
        !same_endpoint(a, b) <==> socket_address(a) is Some && socket_address(b) is Some
            && socket_address(a) != socket_address(b),
{
}

/// An endpoint is read as it is written: the address, a colon and the port, where an
/// address of the longer kind stands in brackets and one of the shorter does not.
pub proof fn lemma_endpoint_reads_back(host: Seq<char>, ip: Ip, port: u16)
    requires
        address::ip_literal(host) == Some(ip),
        host.len() > 0 && host[0] != '[',
    ensures
        ip is V4 ==> socket_address(host + ":"@ + numbers::decimal(port as int)) == Some((ip, port)),
        ip is V6 ==> socket_address(host + ":"@ + numbers::decimal(port as int)) is None,
        ip is V6 ==> socket_address("["@ + host + "]:"@ + numbers::decimal(port as int)) == Some(
            (ip, port),
        ),
        ip is V4 ==> socket_address("["@ + host + "]:"@ + numbers::decimal(port as int)) is None,
        local_endpoint(host + ":"@ + numbers::decimal(port as int)) <==> ip is V4 && ip.loopback(),
{
    reveal_strlit(":");
    reveal_strlit("[");
    reveal_strlit("]:");
    let digits = numbers::decimal(port as int);
    numbers::lemma_decimal_digits(port as int);
    numbers::lemma_parse_decimal(port as int, u16::MAX as int);
    let plain = host + ":"@ + digits;
    let boxed = "["@ + host + "]:"@ + digits;
    text::lemma_rfind_char(plain, ':', plain.len() as int);
    text::lemma_rfind_char(boxed, ':', boxed.len() as int);
    let at = host.len() as int;
    assert(plain[at] == ':');
    assert(boxed[at + 2] == ':');
    assert forall|j: int| at < j < plain.len() implies plain[j] != ':' by {
        assert(plain[j] == digits[j - at - 1]);
    }
    assert forall|j: int| at + 2 < j < boxed.len() implies boxed[j] != ':' by {
        assert(boxed[j] == digits[j - at - 3]);
    }
    assert(text::rfind_char(plain, ':', plain.len() as int) == Some(at));
    assert(text::rfind_char(boxed, ':', boxed.len() as int) == Some(at + 2));
    assert(plain.take(at) =~= host);
    assert(plain.skip(at + 1) =~= digits);
    let inner = boxed.take(at + 2);
    assert(boxed.skip(at + 3) =~= digits);
    assert(inner.subrange(1, inner.len() - 1) =~= host);
    assert(digits[0] != '+');
}

/// A line of a peer's section is read as it is written: a comment names the peer, and a
/// setting sets what it is for and nothing else.
pub proof fn lemma_setting_is_read_as_written(peer: ConfView, value: Seq<char>)
    requires
        text::trim(value) == value,
    ensures
        with_line(peer, "# "@ + value) == (ConfView { name: value, ..peer }),
        with_line(peer, "PublicKey = "@ + value) == (ConfView { public_key: value, ..peer }),
        with_line(peer, "Endpoint = "@ + value) == (ConfView { endpoint: Some(value), ..peer }),
        with_line(peer, "AllowedIPs = "@ + value) == (ConfView {
            overlay_ip: Some(first_address(value)),
            ..peer
        }),
        with_line(peer, "PresharedKey = "@ + value) == peer,
        with_line(peer, "PersistentKeepalive = "@ + value) == peer,
{
    reveal_strlit("# ");
    assert(("# "@ + value).skip(1) =~= seq![' '] + value);
    lemma_trim_behind_space(value);
    reveal_strlit("PublicKey");
    reveal_strlit("Endpoint");
    reveal_strlit("AllowedIPs");
    reveal_strlit("PresharedKey");
    reveal_strlit("PersistentKeepalive");
    reveal_strlit("PublicKey = ");
    reveal_strlit("Endpoint = ");
    reveal_strlit("AllowedIPs = ");
    reveal_strlit("PresharedKey = ");
    reveal_strlit("PersistentKeepalive = ");
    lemma_setting_of("PublicKey"@, "PublicKey = "@, value);
    lemma_setting_of("Endpoint"@, "Endpoint = "@, value);
    lemma_setting_of("AllowedIPs"@, "AllowedIPs = "@, value);
    lemma_setting_of("PresharedKey"@, "PresharedKey = "@, value);
    lemma_setting_of("PersistentKeepalive"@, "PersistentKeepalive = "@, value);
}

proof fn lemma_trim_behind_space(value: Seq<char>)
    requires
        text::trim(value) == value,
    ensures
        text::trim(seq![' '] + value) == value,
{
    let s = seq![' '] + value;
    assert(s.skip(1) =~= value);
    assert(text::trim_start(s) == text::trim_start(s.skip(1)));
}

proof fn lemma_setting_of(key: Seq<char>, opening: Seq<char>, value: Seq<char>)
    requires
        text::trim(value) == value,
        opening =~= key + seq![' ', '=', ' '],
        key.len() > 0,
        forall|i: int| 0 <= i < key.len() ==> #[trigger] key[i] != '=',
        !text::is_space(key[0]),
        !text::is_space(key.last()),
    ensures
        setting(opening + value) == Some((key, value)),
{
    let line = opening + value;
    let at = key.len() as int + 1;
    assert forall|j: int| 0 <= j < at implies line[j] != '=' by {
        if j < key.len() {
            assert(line[j] == key[j]);
        }
    }
    text::lemma_find_char_at(line, '=', 0, at);
    assert(line.take(at) =~= key + seq![' ']);
    assert(line.skip(at + 1) =~= seq![' '] + value);
    lemma_trim_behind_space(value);
    let padded = key + seq![' '];
    assert(text::trim_start(padded) == padded);
    assert(padded.drop_last() =~= key);
    assert(text::trim_end(padded) == text::trim_end(key));
    assert(text::trim_end(key) == key);
}

/// The address of a network is what stands before the length of its prefix, and of more
/// than one network the first counts.
pub proof fn lemma_first_network_counts(address: Seq<char>, prefix: Seq<char>, others: Seq<char>)
    requires
        text::trim(address) == address,
        !address.contains(',') && !address.contains('/') && !prefix.contains(','),
    ensures
        first_address(address + "/"@ + prefix) == address,
        first_address(address + "/"@ + prefix + ", "@ + others) == address,
{
    reveal_strlit("/");
    reveal_strlit(", ");
    let net = address + "/"@ + prefix;
    assert forall|j: int| 0 <= j < net.len() implies net[j] != ',' by {
        if j < address.len() {
            assert(address.contains(address[j]));
        } else if j > address.len() {
            assert(prefix.contains(prefix[j - address.len() - 1]));
        }
    }
    text::lemma_find_char(net, ',', 0);
    assert forall|j: int| 0 <= j < address.len() implies net[j] != '/' by {
        assert(address.contains(address[j]));
    }
    text::lemma_find_char_at(net, '/', 0, address.len() as int);
    assert(net.take(address.len() as int) =~= address);
    let list = net + ", "@ + others;
    assert forall|j: int| 0 <= j < net.len() implies list[j] != ',' by {
        assert(list[j] == net[j]);
    }
    text::lemma_find_char_at(list, ',', 0, net.len() as int);
    assert(list.take(net.len() as int) =~= net);
}

/// A line of the dump is read as it is written: a peer's key, the key shared with it, its
/// endpoint, its networks, its last handshake, what came and went, and how often it is
/// kept alive, with tabs between. What is not there is written `(none)`.
pub proof fn lemma_dump_line_reads_back(
    fields: Seq<Seq<char>>,
    handshake: i64,
    keepalive: u16,
)
    requires
        fields.len() == 8,
        forall|i: int| 0 <= i < fields.len() ==> !(#[trigger] fields[i]).contains('\t'),
        fields[4] == numbers::signed_decimal(handshake as int),
        fields[7] == numbers::decimal(keepalive as int),
    ensures
        dump_line(text::join(fields, "\t"@)) == Some(
            LiveView {
                public_key: fields[0],
                endpoint: if fields[2] == "(none)"@ {
                    None
                } else {
                    Some(fields[2])
                },
                overlay_ip: if fields[3] == "(none)"@ {
                    None
                } else {
                    Some(first_address(fields[3]))
                },
                latest_handshake: handshake,
                persistent_keepalive: keepalive,
            },
        ),
{
    reveal_strlit("\t");
    assert("\t"@ =~= seq!['\t']);
    text::lemma_split_joined(fields, '\t', "\t"@);
    numbers::lemma_parse_signed_decimal(handshake as int, i64::MIN as int, i64::MAX as int);
    numbers::lemma_parse_decimal(keepalive as int, u16::MAX as int);
}

/// How many sections of lines begin a peer.
pub open spec fn sections(lines: Seq<Seq<char>>) -> nat
    decreases lines.len(),
{
    if lines.len() == 0 {
        0
    } else {
        sections(lines.drop_last()) + if text::trim(lines.last()) == "[Peer]"@ {
            1nat
        } else {
            0
        }
    }
}

/// Every section of a peer is one peer, and what stands in another section says nothing of any.
pub proof fn lemma_every_section_is_one_peer(lines: Seq<Seq<char>>, line: Seq<char>)
    ensures
        conf_peers(lines).0.len() == sections(lines),
        !conf_peers(lines).1 && text::trim(line) != "[Peer]"@ ==> conf_peers(lines.push(line))
            == conf_peers(lines),
        text::trim(line).len() > 0 && text::trim(line)[0] == '[' ==> conf_peers(
            lines.push(line),
        ).0.take(conf_peers(lines).0.len() as int) == conf_peers(lines).0,
    decreases lines.len(),
{
    if lines.len() > 0 {
        lemma_every_section_is_one_peer(lines.drop_last(), line);
    }
    let more = lines.push(line);
    assert(more.drop_last() =~= lines);
    assert(more.last() == line);
    let peers = conf_peers(lines).0;
    assert(peers.take(peers.len() as int) =~= peers);
    assert(peers.push(nameless()).take(peers.len() as int) =~= peers);
}

/// Of the settings with one name the first counts, and there is none exactly where no line sets
/// it.
pub proof fn lemma_first_setting_counts(lines: Seq<Seq<char>>, key: Seq<char>, from: int)
    requires
        0 <= from <= lines.len(),
    ensures
        match value_of(lines, key, from) {
            Some(v) => exists|k: int|
                from <= k < lines.len() && setting(#[trigger] lines[k]) == Some((key, v)) && forall|
                    j: int,
                |
                    from <= j < k ==> !sets(#[trigger] lines[j], key),
            None => forall|j: int| from <= j < lines.len() ==> !sets(#[trigger] lines[j], key),
        },
    decreases lines.len() - from,
{
    if from < lines.len() {
        lemma_first_setting_counts(lines, key, from + 1);
        let found = value_of(lines, key, from);
        if sets(lines[from], key) {
            assert(setting(lines[from]) == Some((key, found->0)));
        } else {
            assert(found == value_of(lines, key, from + 1));
            if found is Some {
                let v = found->0;
                let k = choose|k: int|
                    from + 1 <= k < lines.len() && setting(#[trigger] lines[k]) == Some((key, v))
                        && forall|j: int| from + 1 <= j < k ==> !sets(#[trigger] lines[j], key);
                assert(setting(lines[k]) == Some((key, v)));
            }
        }
    }
}

/// Whether a line sets something.
pub open spec fn sets(line: Seq<char>, key: Seq<char>) -> bool {
    match setting(line) {
        Some((k, _)) => k == key,
        None => false,
    }
}

} // verus!
