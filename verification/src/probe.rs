//! Probes: how large a packet a path carries, which hops are alive, and how long a
//! connection takes.
use vstd::prelude::*;
use vstd::string::*;

use crate::address::Ip;
use crate::echo::{wireguard_overhead, ProbeTransport};
use crate::order::TextMap;
use crate::xray::hop_of_tag;
use crate::{echo, numbers, processes, procfs, text, xray};

verus! {

/// The smallest packet that is tried.
pub const PROBE_MTU_MIN: u16 = 1000;

/// The largest packet that is tried.
pub const PROBE_MTU_MAX: u16 = 1500;

/// How probing a path ended.
#[derive(Debug, Clone, Copy, PartialEq, Eq, Structural)]
pub enum LinkProbeStatus {
    Measured,
    Unreachable,
    Blocked,
    Unsupported,
}

/// Finds the largest packet that gets through, by halving the range between one that
/// does and one that does not. Reachability is asked first: a machine that is off is
/// not a path that carries only small packets. No size outside the range is ever tried:
/// `fits` need not answer for one.
pub fn probe_path_mtu_with<R: Fn() -> bool, F: Fn(u16) -> bool>(reachable: R, fits: F) -> (r: (
    LinkProbeStatus,
    Option<u16>,
))
    requires
        call_requires(reachable, ()),
        forall|mtu: u16|
            PROBE_MTU_MIN <= mtu <= PROBE_MTU_MAX ==> #[trigger] call_requires(fits, (mtu,)),
    ensures
        match r {
            (LinkProbeStatus::Unreachable, None) => call_ensures(reachable, (), false),
            (LinkProbeStatus::Blocked, None) => call_ensures(reachable, (), true) && call_ensures(
                fits,
                (PROBE_MTU_MIN,),
                false,
            ),
            (LinkProbeStatus::Measured, Some(mtu)) => {
                &&& call_ensures(reachable, (), true)
                &&& call_ensures(fits, (PROBE_MTU_MIN,), true)
                &&& PROBE_MTU_MIN <= mtu <= PROBE_MTU_MAX
                &&& call_ensures(fits, (mtu,), true)
                &&& mtu < PROBE_MTU_MAX ==> call_ensures(fits, ((mtu + 1) as u16,), false)
            },
            _ => false,
        },
{
    if !reachable() {
        return (LinkProbeStatus::Unreachable, None);
    }
    if !fits(PROBE_MTU_MIN) {
        return (LinkProbeStatus::Blocked, None);
    }
    if fits(PROBE_MTU_MAX) {
        return (LinkProbeStatus::Measured, Some(PROBE_MTU_MAX));
    }
    let mut low: u16 = PROBE_MTU_MIN;
    let mut high: u16 = PROBE_MTU_MAX;
    while high - low > 1
        invariant
            PROBE_MTU_MIN <= low < high <= PROBE_MTU_MAX,
            forall|mtu: u16|
                PROBE_MTU_MIN <= mtu <= PROBE_MTU_MAX ==> #[trigger] call_requires(fits, (mtu,)),
            call_ensures(fits, (low,), true),
            call_ensures(fits, (high,), false),
        decreases high - low,
    {
        let middle: u16 = low + (high - low) / 2;
        if fits(middle) {
            low = middle;
        } else {
            high = middle;
        }
    }
    (LinkProbeStatus::Measured, Some(low))
}

/// On a path that carries everything up to some size and nothing above it, a packet
/// that gets through while the next larger one does not, or none larger is tried, is the
/// largest that does.
pub proof fn lemma_boundary_is_the_largest_that_fits(fits: spec_fn(u16) -> bool, mtu: u16)
    requires
        PROBE_MTU_MIN <= mtu <= PROBE_MTU_MAX,
        forall|a: u16, b: u16|
            PROBE_MTU_MIN <= a <= b <= PROBE_MTU_MAX && #[trigger] fits(b) ==> #[trigger] fits(a),
        fits(mtu),
        mtu < PROBE_MTU_MAX ==> !fits((mtu + 1) as u16),
    ensures
        forall|n: u16|
            PROBE_MTU_MIN <= n <= PROBE_MTU_MAX ==> #[trigger] fits(n) == (n <= mtu),
{
    assert forall|n: u16| PROBE_MTU_MIN <= n <= PROBE_MTU_MAX implies #[trigger] fits(n) == (n
        <= mtu) by {
        if n > mtu && fits(n) {
            assert(fits((mtu + 1) as u16));
        }
    }
}

/// The tunnel's packet size that a path's suggests.
pub fn suggested_wg_mtu(path_mtu: Option<u16>, also_v6: bool, transport: ProbeTransport) -> (r:
    Option<u16>)
    ensures
        r == (match path_mtu {
            Some(mtu) => Some(
                (if mtu >= echo::overhead(also_v6, transport) {
                    mtu - echo::overhead(also_v6, transport)
                } else {
                    0
                }) as u16,
            ),
            None => None::<u16>,
        }),
{
    match path_mtu {
        Some(mtu) => Some(mtu.saturating_sub(wireguard_overhead(also_v6, transport))),
        None => None,
    }
}

/// What was found of the path to one peer.
#[derive(Debug, PartialEq, Eq)]
pub struct LinkProbe {
    pub peer_node_id: String,
    pub endpoint_host: String,
    pub status: LinkProbeStatus,
    pub path_mtu: Option<u16>,
    pub suggested_wg_mtu: Option<u16>,
}

/// The line that tells what was found of a path.
pub fn link_line(link: &LinkProbe) -> (r: String)
    ensures
        r@ == (match (link.status, link.path_mtu, link.suggested_wg_mtu) {
            (LinkProbeStatus::Measured, Some(path), Some(wg)) => "probe: "@ + link.peer_node_id@ + " 经 "@
                + link.endpoint_host@ + " 路径 MTU "@ + numbers::decimal(path as int)
                + "，建议 wg MTU "@ + numbers::decimal(wg as int),
            (LinkProbeStatus::Unreachable, _, _) => "probe: "@ + link.peer_node_id@ + " 经 "@
                + link.endpoint_host@ + " ping 不通"@,
            (LinkProbeStatus::Unsupported, _, _) =>
            "probe: 这台机器上开不了 ICMP socket，量不了路径 MTU（上面一行有原因）"@,
            _ => "probe: "@ + link.peer_node_id@ + " 经 "@ + link.endpoint_host@
                + " ICMP 被挡，探不出路径 MTU"@,
        }),
{
    let mut out = "probe: ".to_owned();
    match link.status {
        LinkProbeStatus::Unsupported => {
            return "probe: 这台机器上开不了 ICMP socket，量不了路径 MTU（上面一行有原因）".to_owned();
        },
        _ => {},
    }
    out.append(link.peer_node_id.as_str());
    out.append(" 经 ");
    out.append(link.endpoint_host.as_str());
    match (link.status, link.path_mtu, link.suggested_wg_mtu) {
        (LinkProbeStatus::Measured, Some(path), Some(wg)) => {
            out.append(" 路径 MTU ");
            out.append(numbers::decimal_string(path as u64).as_str());
            out.append("，建议 wg MTU ");
            out.append(numbers::decimal_string(wg as u64).as_str());
        },
        (LinkProbeStatus::Unreachable, _, _) => {
            out.append(" ping 不通");
        },
        _ => {
            out.append(" ICMP 被挡，探不出路径 MTU");
        },
    }
    out
}

/// Whether a status says that a request succeeded.
pub open spec fn is_success(status: u16) -> bool {
    200 <= status < 300
}

/// Whether a status says that a request succeeded.
pub fn succeeded(status: u16) -> (r: bool)
    ensures
        r == is_success(status),
{
    200 <= status && status < 300
}

/// What is said of a request that did not succeed.
pub open spec fn http_complaint(what: Seq<char>, status: u16, body: Seq<char>) -> Seq<char> {
    what + " failed: HTTP "@ + numbers::decimal(status as int) + " "@ + body
}

/// What is said of a request that did not succeed.
pub fn http_failure(what: &str, status: u16, body: &str) -> (r: String)
    ensures
        r@ == http_complaint(what@, status, body@),
{
    let mut out = what.to_owned();
    out.append(" failed: HTTP ");
    out.append(numbers::decimal_string(status as u64).as_str());
    out.append(" ");
    out.append(body);
    out
}

/// The body of a report's answer, or what is said where it was refused.
pub fn accept_report(what: &str, status: u16, body: &str) -> (r: Result<(), String>)
    ensures
        match r {
            Ok(()) => is_success(status),
            Err(e) => !is_success(status) && e@ == http_complaint(what@, status, body@),
        },
{
    if succeeded(status) {
        Ok(())
    } else {
        Err(http_failure(what, status, body))
    }
}

/// Whether the list of peers was handed out: for this request only one status is taken.
pub fn accept_probe_targets(status: u16, body: &str) -> (r: Result<(), String>)
    ensures
        match r {
            Ok(()) => status == 200,
            Err(e) => status != 200 && e@ == http_complaint(
                "probe targets request"@,
                status,
                body@,
            ),
        },
{
    if status == 200 {
        Ok(())
    } else {
        Err(http_failure("probe targets request", status, body))
    }
}

/// A counter of the proxy.
#[derive(Debug, PartialEq, Eq)]
pub struct XrayStat {
    pub name: String,
    pub value: i64,
}

/// The hop and the bytes that a counter tells: only those of outbounds that forward to
/// another machine, and only what came back.
pub open spec fn hop_counter(stat: XrayStat) -> Option<(Seq<char>, u64)> {
    if stat.value < 0 {
        None
    } else {
        match text::strip_prefix(stat.name@, "outbound>>>"@) {
            None => None,
            Some(rest) => match text::split_once_sub(rest, ">>>"@) {
                None => None,
                Some((tag, kind)) => if kind == "traffic>>>downlink"@ && xray::hop_of(tag) is Some {
                    Some((tag, stat.value as u64))
                } else {
                    None
                },
            },
        }
    }
}

/// The bytes by hop that counters tell; of two counters of one hop the later counts.
pub open spec fn hop_counters(stats: Seq<XrayStat>) -> Map<Seq<char>, u64>
    decreases stats.len(),
{
    if stats.len() == 0 {
        Map::empty()
    } else {
        let front = hop_counters(stats.drop_last());
        match hop_counter(stats.last()) {
            Some((tag, value)) => front.insert(tag, value),
            None => front,
        }
    }
}

fn read_hop_counter(stat: &XrayStat) -> (r: Option<(String, u64)>)
    ensures
        match r {
            Some((tag, value)) => hop_counter(*stat) == Some((tag@, value)),
            None => hop_counter(*stat) is None,
        },
{
    if stat.value < 0 {
        return None;
    }
    let chars = text::chars_of(stat.name.as_str());
    match text::after_prefix(chars.as_slice(), "outbound>>>") {
        None => None,
        Some(rest) => match text::cut_once_sub(rest, ">>>") {
            None => None,
            Some((tag, kind)) => {
                if !text::same(kind, "traffic>>>downlink") {
                    return None;
                }
                let name = text::string_of(tag);
                match hop_of_tag(name.as_str()) {
                    Some(_) => Some((name, stat.value as u64)),
                    None => None,
                }
            },
        },
    }
}

/// The bytes that came back over each hop, from the proxy's counters.
pub fn hop_downlinks_from_stats(stats: &Vec<XrayStat>) -> (r: TextMap<u64>)
    ensures
        r.wf(),
        r@ == hop_counters(stats@),
{
    let mut out: TextMap<u64> = TextMap::new();
    let mut i: usize = 0;
    while i < stats.len()
        invariant
            i <= stats.len(),
            out.wf(),
            out@ == hop_counters(stats@.take(i as int)),
        decreases stats.len() - i,
    {
        proof {
            assert(stats@.take(i + 1).drop_last() == stats@.take(i as int));
            assert(stats@.take(i + 1).last() == stats@[i as int]);
        }
        match read_hop_counter(&stats[i]) {
            Some((tag, value)) => {
                out.insert(tag, value);
            },
            None => {},
        }
        i = i + 1;
    }
    assert(stats@.take(i as int) == stats@);
    out
}

/// Whether traffic came back over a hop since the round before.
#[derive(Debug, PartialEq, Eq)]
pub struct LinkHealth {
    pub chain_id: String,
    pub peer_node_id: String,
    pub alive: bool,
    pub downlink_bytes: u64,
}

/// The same, by its characters.
pub struct HealthView {
    pub chain_id: Seq<char>,
    pub peer_node_id: Seq<char>,
    pub alive: bool,
    pub downlink_bytes: u64,
}

impl View for LinkHealth {
    type V = HealthView;

    open spec fn view(&self) -> HealthView {
        HealthView {
            chain_id: self.chain_id@,
            peer_node_id: self.peer_node_id@,
            alive: self.alive,
            downlink_bytes: self.downlink_bytes,
        }
    }
}

/// Several, by their characters.
pub open spec fn health_views(list: Seq<LinkHealth>) -> Seq<HealthView> {
    Seq::new(list.len(), |i: int| list[i]@)
}

/// A report on the hops.
#[derive(Debug, PartialEq, Eq)]
pub struct LinkHealthRequest {
    pub checked_at_unix_secs: i64,
    pub window_secs: u64,
    pub hops: Vec<LinkHealth>,
}

/// What a hop's counter says beside the one before. A counter that fell begins anew,
/// and tells nothing for this round.
pub open spec fn hop_health(tag: Seq<char>, now: u64, before: Map<Seq<char>, u64>) -> Option<
    HealthView,
> {
    match xray::hop_of(tag) {
        None => None,
        Some((chain_id, peer_node_id)) => {
            let earlier = if before.dom().contains(tag) {
                before[tag]
            } else {
                0
            };
            let delta = procfs::less(now, earlier);
            Some(HealthView { chain_id, peer_node_id, alive: delta > 0, downlink_bytes: delta })
        },
    }
}

/// What the counters of all hops say, in their order.
pub open spec fn all_health(entries: Seq<(String, u64)>, before: Map<Seq<char>, u64>) -> Seq<
    HealthView,
>
    decreases entries.len(),
{
    if entries.len() == 0 {
        seq![]
    } else {
        let front = all_health(entries.drop_last(), before);
        match hop_health(entries.last().0@, entries.last().1, before) {
            Some(h) => front.push(h),
            None => front,
        }
    }
}

/// The counters of the round before.
pub struct HopBaseline {
    pub previous: Option<(u64, TextMap<u64>)>,
}

impl HopBaseline {
    pub open spec fn wf(self) -> bool {
        self.previous matches Some((_, counters)) ==> counters.wf()
    }

    pub fn new() -> (r: HopBaseline)
        ensures
            r.wf(),
            r.previous is None,
    {
        HopBaseline { previous: None }
    }

    /// Judges each hop by what its counter grew since the round before. The first
    /// round has nothing to compare with, and reports nothing rather than that every
    /// hop is dead; so does a round without hops.
    pub fn judge_hops(&mut self, now: TextMap<u64>, at: u64) -> (r: Option<LinkHealthRequest>)
        requires
            old(self).wf(),
            now.wf(),
        ensures
            final(self).wf(),
            final(self).previous == Some((at, now)),
            match old(self).previous {
                None => r is None,
                Some((previous_at, before)) => {
                    let hops = all_health(now.entries@, before@);
                    match r {
                        None => hops.len() == 0,
                        Some(report) => hops.len() > 0 && health_views(report.hops@) == hops
                            && report.window_secs == procfs::less(at, previous_at)
                            && report.checked_at_unix_secs == processes::clamped(at as int),
                    }
                },
            },
    {
        let report = match &self.previous {
            None => None,
            Some((previous_at, before)) => {
                let ghost all = now.entries@;
                let mut hops: Vec<LinkHealth> = Vec::new();
                let mut i: usize = 0;
                assert(health_views(hops@) =~= seq![]);
                while i < now.entries.len()
                    invariant
                        i <= now.entries.len(),
                        before.wf(),
                        all == now.entries@,
                        health_views(hops@) == all_health(all.take(i as int), before@),
                    decreases now.entries.len() - i,
                {
                    proof {
                        assert(all.take(i + 1).drop_last() == all.take(i as int));
                        assert(all.take(i + 1).last() == all[i as int]);
                    }
                    let tag = now.entries[i].0.as_str();
                    let value: u64 = now.entries[i].1;
                    let ghost held = hops@;
                    match hop_of_tag(tag) {
                        None => {},
                        Some((chain_id, peer_node_id)) => {
                            let earlier: u64 = match before.get(tag) {
                                Some(v) => *v,
                                None => 0,
                            };
                            let delta: u64 = value.saturating_sub(earlier);
                            let one = LinkHealth {
                                chain_id,
                                peer_node_id,
                                alive: delta > 0,
                                downlink_bytes: delta,
                            };
                            hops.push(one);
                            assert(health_views(hops@) == health_views(held).push(one@));
                        },
                    }
                    i = i + 1;
                }
                assert(all.take(i as int) == all);
                assert(health_views(hops@).len() == hops@.len());
                if hops.len() == 0 {
                    None
                } else {
                    Some(
                        LinkHealthRequest {
                            checked_at_unix_secs: if at > i64::MAX as u64 {
                                i64::MAX
                            } else {
                                at as i64
                            },
                            window_secs: at.saturating_sub(*previous_at),
                            hops,
                        },
                    )
                }
            },
        };
        self.previous = Some((at, now));
        report
    }
}

/// A hop whose counter fell is not reported alive, and no bytes are made up for it.
pub proof fn lemma_reset_counter_is_not_growth(tag: Seq<char>, now: u64, before: Map<Seq<char>, u64>)
    requires
        before.dom().contains(tag),
        now <= before[tag],
    ensures
        hop_health(tag, now, before) matches Some(h) ==> !h.alive && h.downlink_bytes == 0,
{
}

/// Whether traffic came out where a chain ends.
#[derive(Debug, Clone, Copy, PartialEq, Eq, Structural)]
pub enum E2eExitVerdict {
    Match,
    Mismatch,
    Unknown,
}

/// What was found of a chain from end to end.
#[derive(Debug, PartialEq, Eq)]
pub struct ChainProbe {
    pub chain_id: String,
    pub ok: bool,
    pub ttfb_ms: Option<u32>,
    pub exit_ip: Option<String>,
    pub exit_verdict: E2eExitVerdict,
    pub detail: Option<String>,
}

/// The line that tells what was found of a chain.
pub open spec fn chain_text(chain: ChainProbe) -> Seq<char> {
    if chain.ok {
        "e2e: "@ + chain.chain_id@ + " 通，"@ + numbers::decimal(
            match chain.ttfb_ms {
                Some(ms) => ms as int,
                None => 0,
            },
        ) + "ms，出口 "@ + (match chain.exit_ip {
            Some(ip) => ip@,
            None => "?"@,
        }) + (match chain.exit_verdict {
            E2eExitVerdict::Match => "（对得上）"@,
            E2eExitVerdict::Mismatch => "（对不上！流量没走完这条链）"@,
            E2eExitVerdict::Unknown => "（核对不了）"@,
        })
    } else {
        "e2e: "@ + chain.chain_id@ + " 不通："@ + (match chain.detail {
            Some(d) => d@,
            None => "没有细节"@,
        })
    }
}

/// The line that tells what was found of a chain.
pub fn chain_line(chain: &ChainProbe) -> (r: String)
    ensures
        r@ == chain_text(*chain),
{
    let mut out = "e2e: ".to_owned();
    out.append(chain.chain_id.as_str());
    if chain.ok {
        out.append(" 通，");
        let ms: u64 = match chain.ttfb_ms {
            Some(ms) => ms as u64,
            None => 0,
        };
        out.append(numbers::decimal_string(ms).as_str());
        out.append("ms，出口 ");
        match &chain.exit_ip {
            Some(ip) => {
                out.append(ip.as_str());
            },
            None => {
                out.append("?");
            },
        }
        match chain.exit_verdict {
            E2eExitVerdict::Match => {
                out.append("（对得上）");
            },
            E2eExitVerdict::Mismatch => {
                out.append("（对不上！流量没走完这条链）");
            },
            E2eExitVerdict::Unknown => {
                out.append("（核对不了）");
            },
        }
    } else {
        out.append(" 不通：");
        match &chain.detail {
            Some(d) => {
                out.append(d.as_str());
            },
            None => {
                out.append("没有细节");
            },
        }
    }
    out
}

/// Whether some character is a blank.
pub open spec fn any_space(s: Seq<char>) -> bool {
    exists|i: int| 0 <= i < s.len() && text::is_space(#[trigger] s[i])
}

/// Host and port of a target, before they are looked at.
pub open spec fn authority_parts(authority: Seq<char>) -> Option<(Seq<char>, Seq<char>)> {
    match text::strip_prefix(authority, "["@) {
        Some(bracketed) => text::split_once_sub(bracketed, "]:"@),
        None => match text::rsplit_once(authority, ':') {
            Some((host, port)) => if text::find_char(host, ':', 0) is Some {
                None
            } else {
                Some((host, port))
            },
            None => None,
        },
    }
}

/// Host and port of a target. An IPv6 address has to stand in brackets, since its last
/// colon would be mistaken otherwise.
pub open spec fn tcp_target(address: Seq<char>) -> Option<(Seq<char>, u16)> {
    match text::strip_prefix(address, "tcp://"@) {
        None => None,
        Some(authority) => match authority_parts(authority) {
            None => None,
            Some((host, port)) => if host.len() == 0 || any_space(host) {
                None
            } else {
                match numbers::as_u16(port) {
                    Some(p) => if p > 0 {
                        Some((host, p))
                    } else {
                        None
                    },
                    None => None,
                }
            },
        },
    }
}

fn has_space(s: &[char]) -> (r: bool)
    ensures
        r == any_space(s@),
{
    let mut i: usize = 0;
    while i < s.len()
        invariant
            i <= s.len(),
            forall|j: int| 0 <= j < i ==> !text::is_space(#[trigger] s@[j]),
        decreases s.len() - i,
    {
        if text::space(s[i]) {
            assert(text::is_space(s@[i as int]));
            return true;
        }
        i = i + 1;
    }
    false
}

fn cut_authority<'a>(authority: &'a [char]) -> (r: Option<(&'a [char], &'a [char])>)
    ensures
        match r {
            Some((h, p)) => authority_parts(authority@) == Some((h@, p@)),
            None => authority_parts(authority@) is None,
        },
{
    match text::after_prefix(authority, "[") {
        Some(bracketed) => text::cut_once_sub(bracketed, "]:"),
        None => match text::rcut_once(authority, ':') {
            Some((host, port)) => match text::find(host, ':') {
                Some(_) => None,
                None => Some((host, port)),
            },
            None => None,
        },
    }
}

/// Host and port of a target.
pub fn parse_tcp_target(address: &str) -> (r: Option<(String, u16)>)
    ensures
        match r {
            Some((host, port)) => tcp_target(address@) == Some((host@, port)),
            None => tcp_target(address@) is None,
        },
{
    let chars = text::chars_of(address);
    match text::after_prefix(chars.as_slice(), "tcp://") {
        None => None,
        Some(authority) => match cut_authority(authority) {
            None => None,
            Some((host, port)) => {
                if host.len() == 0 || has_space(host) {
                    return None;
                }
                match numbers::read_u16(port) {
                    Some(p) => if p > 0 {
                        Some((text::string_of(host), p))
                    } else {
                        None
                    },
                    None => None,
                }
            },
        },
    }
}

/// An address to connect to.
#[derive(Debug, Clone, Copy, PartialEq, Eq, Structural)]
pub struct Endpoint {
    pub ip: Ip,
    pub port: u16,
}

/// The addresses that can be tried: all of IPv4, and those of IPv6 that the machine
/// has a route to.
pub open spec fn usable(addresses: Seq<Endpoint>, routed: Seq<bool>, n: int) -> Seq<Endpoint>
    decreases n,
{
    if n <= 0 || n > addresses.len() {
        seq![]
    } else {
        let front = usable(addresses, routed, n - 1);
        if addresses[n - 1].ip is V4 || routed[n - 1] {
            front.push(addresses[n - 1])
        } else {
            front
        }
    }
}

/// The addresses that can be tried; `routed` says of each whether there is a route to
/// it.
pub fn usable_tcp_addresses(addresses: &Vec<Endpoint>, routed: &Vec<bool>) -> (r: Vec<Endpoint>)
    requires
        routed@.len() == addresses@.len(),
    ensures
        r@ == usable(addresses@, routed@, addresses@.len() as int),
        r@.len() <= addresses@.len(),
{
    let mut out: Vec<Endpoint> = Vec::new();
    let mut i: usize = 0;
    while i < addresses.len()
        invariant
            i <= addresses.len(),
            routed@.len() == addresses@.len(),
            out@ == usable(addresses@, routed@, i as int),
            out@.len() <= i,
        decreases addresses.len() - i,
    {
        if addresses[i].ip.is_ipv4() || routed[i] {
            out.push(addresses[i]);
        }
        i = i + 1;
    }
    out
}

/// An error of the operating system.
#[derive(Debug, PartialEq, Eq)]
pub struct IoFailure {
    pub kind: String,
    pub errno: Option<i32>,
    pub message: String,
}

/// How an attempt to connect ended.
#[derive(Debug, PartialEq, Eq)]
pub enum TcpConnectAttemptResult {
    Connected,
    ConnectedAfterDeadline,
    Failed(IoFailure),
}

/// One attempt to connect.
#[derive(Debug, PartialEq, Eq)]
pub struct TcpConnectAttempt {
    /// Counted from one.
    pub candidate: usize,
    pub ipv4: bool,
    pub elapsed_ms: u64,
    pub result: TcpConnectAttemptResult,
}

/// All attempts to connect to a target.
#[derive(Debug, PartialEq, Eq)]
pub struct TcpConnectTrace {
    pub connect_ms: Option<u32>,
    pub attempts: Vec<TcpConnectAttempt>,
    pub budget_exhausted: bool,
    pub deadline_overflow: bool,
}

/// What to do next about a target.
#[derive(Debug, Clone, Copy, PartialEq, Eq, Structural)]
pub enum ConnectStep {
    /// Try the address at this position, for so many nanoseconds.
    Attempt { index: usize, remaining_nanos: u64 },
    /// The time is up, and addresses are left.
    Exhausted,
    /// Every address was tried.
    Finished,
}

/// What to do next about a target of `total` addresses of which `tried` were tried:
/// all of them share one time.
pub fn connect_resolved(total: usize, tried: usize, elapsed_nanos: u64, timeout_nanos: u64) -> (r:
    ConnectStep)
    ensures
        r == (if tried >= total {
            ConnectStep::Finished
        } else if elapsed_nanos >= timeout_nanos {
            ConnectStep::Exhausted
        } else {
            ConnectStep::Attempt {
                index: tried,
                remaining_nanos: (timeout_nanos - elapsed_nanos) as u64,
            }
        }),
{
    if tried >= total {
        ConnectStep::Finished
    } else if elapsed_nanos >= timeout_nanos {
        ConnectStep::Exhausted
    } else {
        ConnectStep::Attempt { index: tried, remaining_nanos: timeout_nanos - elapsed_nanos }
    }
}

impl TcpConnectTrace {
    /// Nothing was tried yet.
    pub fn new() -> (r: TcpConnectTrace)
        ensures
            r.connect_ms is None,
            r.attempts@.len() == 0,
            !r.budget_exhausted,
            !r.deadline_overflow,
    {
        TcpConnectTrace {
            connect_ms: None,
            attempts: Vec::new(),
            budget_exhausted: false,
            deadline_overflow: false,
        }
    }

    /// Records an attempt that failed.
    pub fn failed(&mut self, ipv4: bool, attempt_ms: u64, failure: IoFailure)
        requires
            old(self).attempts@.len() < usize::MAX,
        ensures
            final(self).attempts@ == old(self).attempts@.push(
                TcpConnectAttempt {
                    candidate: (old(self).attempts@.len() + 1) as usize,
                    ipv4,
                    elapsed_ms: attempt_ms,
                    result: TcpConnectAttemptResult::Failed(failure),
                },
            ),
            final(self).connect_ms == old(self).connect_ms,
            final(self).budget_exhausted == old(self).budget_exhausted,
            final(self).deadline_overflow == old(self).deadline_overflow,
    {
        let candidate: usize = self.attempts.len() + 1;
        self.attempts.push(
            TcpConnectAttempt {
                candidate,
                ipv4,
                elapsed_ms: attempt_ms,
                result: TcpConnectAttemptResult::Failed(failure),
            },
        );
    }

    /// Records that the time ran out before every candidate was tried.
    pub fn exhausted(&mut self)
        ensures
            *final(self) == (TcpConnectTrace { budget_exhausted: true, ..*old(self) }),
    {
        self.budget_exhausted = true;
    }

    /// Records that the clock cannot tell when the time would run out.
    pub fn overflowed(&mut self)
        ensures
            *final(self) == (TcpConnectTrace { deadline_overflow: true, ..*old(self) }),
    {
        self.deadline_overflow = true;
    }

    /// Records a connection. One that came after the time is no sample: the limit is a
    /// matter of meaning, not a hint.
    pub fn connected(
        &mut self,
        ipv4: bool,
        attempt_ms: u64,
        elapsed_nanos: u64,
        timeout_nanos: u64,
    )
        requires
            old(self).attempts@.len() < usize::MAX,
        ensures
            ({
                let late = elapsed_nanos > timeout_nanos;
                let ms = elapsed_nanos / 1_000_000;
                &&& final(self).attempts@ == old(self).attempts@.push(
                    TcpConnectAttempt {
                        candidate: (old(self).attempts@.len() + 1) as usize,
                        ipv4,
                        elapsed_ms: attempt_ms,
                        result: if late {
                            TcpConnectAttemptResult::ConnectedAfterDeadline
                        } else {
                            TcpConnectAttemptResult::Connected
                        },
                    },
                )
                &&& final(self).connect_ms == if late {
                    None
                } else if ms > u32::MAX {
                    Some(u32::MAX)
                } else {
                    Some(ms as u32)
                }
                &&& final(self).budget_exhausted == old(self).budget_exhausted
                &&& final(self).deadline_overflow == old(self).deadline_overflow
            }),
    {
        let late = elapsed_nanos > timeout_nanos;
        let candidate: usize = self.attempts.len() + 1;
        self.attempts.push(
            TcpConnectAttempt {
                candidate,
                ipv4,
                elapsed_ms: attempt_ms,
                result: if late {
                    TcpConnectAttemptResult::ConnectedAfterDeadline
                } else {
                    TcpConnectAttemptResult::Connected
                },
            },
        );
        let ms: u64 = elapsed_nanos / 1_000_000;
        self.connect_ms = if late {
            None
        } else if ms > u32::MAX as u64 {
            Some(u32::MAX)
        } else {
            Some(ms as u32)
        };
    }
}

/// A sample on the wire.
#[derive(Debug, PartialEq, Eq)]
pub struct TcpProbeSample {
    pub target: String,
    pub connect_ms: Option<u32>,
}

/// Why a probe ended as it did.
#[derive(Debug, PartialEq, Eq)]
pub enum TcpProbeDiagnostic {
    InvalidTarget,
    ResolutionFailed { elapsed_ms: u64, failure: IoFailure },
    ResolutionEmpty { elapsed_ms: u64 },
    Ipv6RouteUnavailable { elapsed_ms: u64, resolved: usize },
    Connect { resolution_ms: u64, resolved: usize, filtered_ipv6: usize, trace: TcpConnectTrace },
    WorkerPanicked,
}

/// What a probe came to. Without a sample nothing is reported of the target, which is
/// something else than that it did not answer.
#[derive(Debug, PartialEq, Eq)]
pub struct TcpProbeOutcome {
    pub sample: Option<TcpProbeSample>,
    pub diagnostic: TcpProbeDiagnostic,
}

/// A sample that says: no answer.
pub fn failed_tcp_sample(address: &str) -> (r: TcpProbeSample)
    ensures
        r.target@ == address@,
        r.connect_ms is None,
{
    TcpProbeSample { target: address.to_owned(), connect_ms: None }
}

/// What is known of a target before any connection.
#[derive(Debug, PartialEq, Eq)]
pub enum Resolved {
    /// The probe is over.
    Ended(TcpProbeOutcome),
    /// These addresses are to be tried.
    Try { usable: Vec<Endpoint>, resolved: usize, filtered_ipv6: usize },
}

/// What a name resolved to: addresses with whether there is a route to each, or an
/// error.
pub enum Resolution {
    Found { addresses: Vec<Endpoint>, routed: Vec<bool> },
    Failed(IoFailure),
}

/// Whether every address is one of IPv6.
pub open spec fn all_v6(addresses: Seq<Endpoint>) -> bool {
    forall|i: int| 0 <= i < addresses.len() ==> (#[trigger] addresses[i]).ip is V6
}

/// Whether an outcome is a failure with this diagnostic.
pub open spec fn gives_up(r: TcpProbeOutcome, address: Seq<char>) -> bool {
    r.sample matches Some(s) && s.target@ == address && s.connect_ms is None
}

/// What a target that cannot be read comes to.
pub fn probe_tcp_target(address: &str) -> (r: Result<(String, u16), TcpProbeOutcome>)
    ensures
        match r {
            Ok((host, port)) => tcp_target(address@) == Some((host@, port)),
            Err(o) => tcp_target(address@) is None && gives_up(o, address@)
                && o.diagnostic is InvalidTarget,
        },
{
    match parse_tcp_target(address) {
        Some((host, port)) => Ok((host, port)),
        None => Err(
            TcpProbeOutcome {
                sample: Some(failed_tcp_sample(address)),
                diagnostic: TcpProbeDiagnostic::InvalidTarget,
            },
        ),
    }
}

/// What a target's resolution leads to. A target that has only addresses of IPv6 is
/// left out of the report where the machine has no route to them: it did not fail.
pub fn after_resolution(address: &str, elapsed_ms: u64, resolution: Resolution) -> (r: Resolved)
    requires
        resolution matches Resolution::Found { addresses, routed } ==> routed@.len()
            == addresses@.len(),
    ensures
        match resolution {
            Resolution::Failed(failure) => r matches Resolved::Ended(o) && gives_up(o, address@)
                && o.diagnostic == TcpProbeDiagnostic::ResolutionFailed { elapsed_ms, failure },
            Resolution::Found { addresses, routed } => {
                let kept = usable(addresses@, routed@, addresses@.len() as int);
                if addresses@.len() == 0 {
                    r matches Resolved::Ended(o) && gives_up(o, address@) && o.diagnostic
                        == TcpProbeDiagnostic::ResolutionEmpty { elapsed_ms }
                } else if kept.len() == 0 && all_v6(addresses@) {
                    r matches Resolved::Ended(o) && o.sample is None && o.diagnostic
                        == TcpProbeDiagnostic::Ipv6RouteUnavailable {
                        elapsed_ms,
                        resolved: addresses@.len() as usize,
                    }
                } else {
                    r matches Resolved::Try { usable, resolved, filtered_ipv6 } && usable@ == kept
                        && resolved == addresses@.len() && filtered_ipv6 == addresses@.len()
                        - kept.len()
                }
            },
        },
{
    match resolution {
        Resolution::Failed(failure) => Resolved::Ended(
            TcpProbeOutcome {
                sample: Some(failed_tcp_sample(address)),
                diagnostic: TcpProbeDiagnostic::ResolutionFailed { elapsed_ms, failure },
            },
        ),
        Resolution::Found { addresses, routed } => {
            let n: usize = addresses.len();
            if n == 0 {
                return Resolved::Ended(
                    TcpProbeOutcome {
                        sample: Some(failed_tcp_sample(address)),
                        diagnostic: TcpProbeDiagnostic::ResolutionEmpty { elapsed_ms },
                    },
                );
            }
            let kept = usable_tcp_addresses(&addresses, &routed);
            let mut only_v6 = true;
            let mut i: usize = 0;
            while i < n
                invariant
                    i <= n,
                    n == addresses@.len(),
                    only_v6 == (forall|j: int|
                        0 <= j < i ==> (#[trigger] addresses@[j]).ip is V6),
                decreases n - i,
            {
                if addresses[i].ip.is_ipv4() {
                    assert(!(addresses@[i as int].ip is V6));
                    only_v6 = false;
                }
                i = i + 1;
            }
            if kept.len() == 0 && only_v6 {
                return Resolved::Ended(
                    TcpProbeOutcome {
                        sample: None,
                        diagnostic: TcpProbeDiagnostic::Ipv6RouteUnavailable {
                            elapsed_ms,
                            resolved: n,
                        },
                    },
                );
            }
            let filtered_ipv6: usize = n - kept.len();
            Resolved::Try { usable: kept, resolved: n, filtered_ipv6 }
        },
    }
}

/// What a target's connections come to.
pub fn after_connect(
    address: &str,
    resolution_ms: u64,
    resolved: usize,
    filtered_ipv6: usize,
    trace: TcpConnectTrace,
) -> (r: TcpProbeOutcome)
    ensures
        r.sample matches Some(s) && s.target@ == address@ && s.connect_ms == trace.connect_ms,
        r.diagnostic == (TcpProbeDiagnostic::Connect {
            resolution_ms,
            resolved,
            filtered_ipv6,
            trace,
        }),
{
    TcpProbeOutcome {
        sample: Some(TcpProbeSample { target: address.to_owned(), connect_ms: trace.connect_ms }),
        diagnostic: TcpProbeDiagnostic::Connect { resolution_ms, resolved, filtered_ipv6, trace },
    }
}

/// What a probe comes to whose worker did not survive.
pub fn worker_panicked(address: &str) -> (r: TcpProbeOutcome)
    ensures
        gives_up(r, address@),
        r.diagnostic is WorkerPanicked,
{
    TcpProbeOutcome {
        sample: Some(failed_tcp_sample(address)),
        diagnostic: TcpProbeDiagnostic::WorkerPanicked,
    }
}

/// A time with its unit.
pub open spec fn millis(value: u64) -> Seq<char> {
    numbers::decimal(value as int) + "ms"@
}

/// A time with its unit.
pub fn format_millis(value: u64) -> (r: String)
    ensures
        r@ == millis(value),
{
    let mut out = numbers::decimal_string(value);
    out.append("ms");
    out
}

/// An error's number, where it has one.
pub open spec fn errno_text(errno: Option<i32>) -> Seq<char> {
    match errno {
        Some(v) => "(errno="@ + numbers::signed_decimal(v as int) + ")"@,
        None => seq![],
    }
}

/// An error's number, where it has one.
pub fn format_errno(errno: Option<i32>) -> (r: String)
    ensures
        r@ == errno_text(errno),
{
    match errno {
        Some(v) => {
            let mut out = "(errno=".to_owned();
            out.append(numbers::signed_string(v as i64).as_str());
            out.append(")");
            out
        },
        None => String::new(),
    }
}

/// What is said of one attempt.
pub open spec fn attempt_text(attempt: TcpConnectAttempt) -> Seq<char> {
    let prefix = (if attempt.ipv4 {
        "IPv4"@
    } else {
        "IPv6"@
    }) + "#"@ + numbers::decimal(attempt.candidate as int) + " "@ + millis(attempt.elapsed_ms);
    match attempt.result {
        TcpConnectAttemptResult::Connected => prefix + " 成功"@,
        TcpConnectAttemptResult::ConnectedAfterDeadline => prefix + " 超过总超时后成功"@,
        TcpConnectAttemptResult::Failed(failure) => prefix + " "@ + failure.kind@ + errno_text(
            failure.errno,
        ) + " · "@ + failure.message@,
    }
}

fn describe_attempt(attempt: &TcpConnectAttempt) -> (r: String)
    ensures
        r@ == attempt_text(*attempt),
{
    let mut out = if attempt.ipv4 {
        "IPv4".to_owned()
    } else {
        "IPv6".to_owned()
    };
    out.append("#");
    out.append(numbers::decimal_string(attempt.candidate as u64).as_str());
    out.append(" ");
    out.append(format_millis(attempt.elapsed_ms).as_str());
    match &attempt.result {
        TcpConnectAttemptResult::Connected => {
            out.append(" 成功");
        },
        TcpConnectAttemptResult::ConnectedAfterDeadline => {
            out.append(" 超过总超时后成功");
        },
        TcpConnectAttemptResult::Failed(failure) => {
            out.append(" ");
            out.append(failure.kind.as_str());
            out.append(format_errno(failure.errno).as_str());
            out.append(" · ");
            out.append(failure.message.as_str());
        },
    }
    out
}

/// What is said of each attempt.
pub open spec fn attempt_texts(attempts: Seq<TcpConnectAttempt>) -> Seq<Seq<char>> {
    Seq::new(attempts.len(), |i: int| attempt_text(attempts[i]))
}

/// A list with one more, where that is to be said.
pub open spec fn noted(list: Seq<Seq<char>>, said: bool, what: Seq<char>) -> Seq<Seq<char>> {
    if said {
        list.push(what)
    } else {
        list
    }
}

/// Everything that is said of the attempts to connect.
pub open spec fn details(trace: TcpConnectTrace, filtered_ipv6: usize) -> Seq<Seq<char>> {
    let a = attempt_texts(trace.attempts@);
    let b = noted(a, trace.budget_exhausted, "总超时预算已耗尽，剩余候选未尝试"@);
    let c = noted(b, trace.deadline_overflow, "无法计算超时截止时间"@);
    let d = noted(
        c,
        filtered_ipv6 > 0,
        "已过滤 "@ + numbers::decimal(filtered_ipv6 as int) + " 个无路由 IPv6 候选"@,
    );
    noted(d, d.len() == 0, "没有可尝试的候选地址"@)
}

/// The line that tells why a probe ended as it did. It names the target and never an
/// address.
pub open spec fn diagnostic_text(name: Seq<char>, diagnostic: TcpProbeDiagnostic) -> Seq<char> {
    match diagnostic {
        TcpProbeDiagnostic::InvalidTarget => "tcp-probe: "@ + name + " 无响应 · 目标格式无效"@,
        TcpProbeDiagnostic::ResolutionFailed { elapsed_ms, failure } => "tcp-probe: "@ + name
            + " 无响应 · 解析失败 "@ + millis(elapsed_ms) + " · "@ + failure.kind@ + errno_text(
            failure.errno,
        ) + " · "@ + failure.message@,
        TcpProbeDiagnostic::ResolutionEmpty { elapsed_ms } => "tcp-probe: "@ + name
            + " 无响应 · 解析未返回地址 · "@ + millis(elapsed_ms),
        TcpProbeDiagnostic::Ipv6RouteUnavailable { elapsed_ms, resolved } => "tcp-probe: "@ + name
            + " 已跳过 · 机器没有可用 IPv6 路由 · 候选 "@ + numbers::decimal(resolved as int) + " · 解析 "@
            + millis(elapsed_ms),
        TcpProbeDiagnostic::Connect { resolution_ms, resolved, filtered_ipv6, trace } =>
        "tcp-probe: "@ + name + " "@ + (match trace.connect_ms {
            Some(ms) => "Connect "@ + numbers::decimal(ms as int) + "ms"@,
            None => "无响应"@,
        }) + " · 解析 "@ + millis(resolution_ms) + " · 候选 "@ + numbers::decimal(resolved as int)
            + " · "@ + text::join(details(trace, filtered_ipv6), "；"@),
        TcpProbeDiagnostic::WorkerPanicked => "tcp-probe: "@ + name + " 无响应 · 探测线程 panic"@,
    }
}

fn note(list: &mut Vec<String>, said: bool, what: String)
    ensures
        text::string_views(final(list)@) == noted(text::string_views(old(list)@), said, what@),
{
    let ghost before = list@;
    if said {
        list.push(what);
        assert(text::string_views(list@) =~= text::string_views(before).push(what@));
    }
}

fn list_details(trace: &TcpConnectTrace, filtered_ipv6: usize) -> (r: Vec<String>)
    ensures
        text::string_views(r@) == details(*trace, filtered_ipv6),
{
    let ghost all = attempt_texts(trace.attempts@);
    let mut out: Vec<String> = Vec::new();
    let mut i: usize = 0;
    while i < trace.attempts.len()
        invariant
            i <= trace.attempts.len(),
            all == attempt_texts(trace.attempts@),
            text::string_views(out@) == all.take(i as int),
        decreases trace.attempts.len() - i,
    {
        let ghost before = out@;
        out.push(describe_attempt(&trace.attempts[i]));
        assert(text::string_views(out@) == text::string_views(before).push(all[i as int]));
        assert(all.take(i + 1) == all.take(i as int).push(all[i as int]));
        i = i + 1;
    }
    assert(all.take(i as int) == all);
    note(&mut out, trace.budget_exhausted, "总超时预算已耗尽，剩余候选未尝试".to_owned());
    note(&mut out, trace.deadline_overflow, "无法计算超时截止时间".to_owned());
    let mut filtered = "已过滤 ".to_owned();
    filtered.append(numbers::decimal_string(filtered_ipv6 as u64).as_str());
    filtered.append(" 个无路由 IPv6 候选");
    note(&mut out, filtered_ipv6 > 0, filtered);
    assert(text::string_views(out@).len() == out@.len());
    let nothing = out.len() == 0;
    note(&mut out, nothing, "没有可尝试的候选地址".to_owned());
    out
}

/// The line that tells why a probe ended as it did.
pub fn log_tcp_probe_diagnostic(name: &str, diagnostic: &TcpProbeDiagnostic) -> (r: String)
    ensures
        r@ == diagnostic_text(name@, *diagnostic),
{
    let mut out = "tcp-probe: ".to_owned();
    out.append(name);
    match diagnostic {
        TcpProbeDiagnostic::InvalidTarget => {
            out.append(" 无响应 · 目标格式无效");
        },
        TcpProbeDiagnostic::ResolutionFailed { elapsed_ms, failure } => {
            out.append(" 无响应 · 解析失败 ");
            out.append(format_millis(*elapsed_ms).as_str());
            out.append(" · ");
            out.append(failure.kind.as_str());
            out.append(format_errno(failure.errno).as_str());
            out.append(" · ");
            out.append(failure.message.as_str());
        },
        TcpProbeDiagnostic::ResolutionEmpty { elapsed_ms } => {
            out.append(" 无响应 · 解析未返回地址 · ");
            out.append(format_millis(*elapsed_ms).as_str());
        },
        TcpProbeDiagnostic::Ipv6RouteUnavailable { elapsed_ms, resolved } => {
            out.append(" 已跳过 · 机器没有可用 IPv6 路由 · 候选 ");
            out.append(numbers::decimal_string(*resolved as u64).as_str());
            out.append(" · 解析 ");
            out.append(format_millis(*elapsed_ms).as_str());
        },
        TcpProbeDiagnostic::Connect { resolution_ms, resolved, filtered_ipv6, trace } => {
            out.append(" ");
            let mut result = "无响应".to_owned();
            match trace.connect_ms {
                Some(ms) => {
                    result = "Connect ".to_owned();
                    result.append(numbers::decimal_string(ms as u64).as_str());
                    result.append("ms");
                },
                None => {},
            }
            out.append(result.as_str());
            out.append(" · 解析 ");
            out.append(format_millis(*resolution_ms).as_str());
            out.append(" · 候选 ");
            out.append(numbers::decimal_string(*resolved as u64).as_str());
            out.append(" · ");
            let said = list_details(trace, *filtered_ipv6);
            out.append(text::join_strings(&said, "；").as_str());
        },
        TcpProbeDiagnostic::WorkerPanicked => {
            out.append(" 无响应 · 探测线程 panic");
        },
    }
    out
}

/// A counter tells of a hop exactly where it is not below zero and is named `outbound>>>`, a
/// tag that names a hop, and `>>>traffic>>>downlink`.
pub proof fn lemma_hop_counter_spells_its_tag(stat: XrayStat, tag: Seq<char>, value: u64)
    requires
        text::ends_at_first(tag, ">>>"@),
        xray::hop_of(tag) is Some,
    ensures
        hop_counter(stat) == Some((tag, value)) <==> stat.value == value && stat.name@
            == "outbound>>>"@ + tag + ">>>traffic>>>downlink"@,
{
    let name = stat.name@;
    let (head, sep, kind) = ("outbound>>>"@, ">>>"@, "traffic>>>downlink"@);
    reveal_strlit("outbound>>>");
    reveal_strlit(">>>");
    reveal_strlit("traffic>>>downlink");
    reveal_strlit(">>>traffic>>>downlink");
    assert(">>>traffic>>>downlink"@ =~= sep + kind);
    let rest = tag + sep + kind;
    if hop_counter(stat) == Some((tag, value)) {
        let after = name.skip(head.len() as int);
        assert(text::starts_with(name, head));
        text::lemma_find_sub(after, sep, 0);
        let k = text::find_sub(after, sep, 0)->0;
        assert(after =~= after.take(k) + sep + after.skip(k + 3)) by {
            assert(after.subrange(k, k + 3) == sep);
            assert forall|i: int| 0 <= i < after.len() implies after[i] == (after.take(k) + sep
                + after.skip(k + 3))[i] by {
                if k <= i < k + 3 {
                    assert(after.subrange(k, k + 3)[i - k] == after[i]);
                }
            }
        }
        assert(name =~= head + after) by {
            assert(name.subrange(0, head.len() as int) == head);
            assert forall|i: int| 0 <= i < name.len() implies name[i] == (head + after)[i] by {
                if i < head.len() {
                    assert(name.subrange(0, head.len() as int)[i] == name[i]);
                }
            }
        }
        assert(name =~= head + tag + ">>>traffic>>>downlink"@);
    }
    if stat.value == value && name == head + tag + ">>>traffic>>>downlink"@ {
        assert(name.subrange(0, head.len() as int) =~= head);
        assert(name.skip(head.len() as int) =~= rest);
        let k = tag.len() as int;
        assert(rest.subrange(k, k + 3) =~= sep);
        assert forall|j: int| 0 <= j < k implies !#[trigger] text::stands_at(rest, sep, j) by {
            assert(rest.subrange(j, j + 3) =~= (tag + sep).subrange(j, j + 3));
            assert(!text::stands_at(tag + sep, sep, j));
        }
        text::lemma_find_first(rest, sep, 0, k);
        assert(rest.take(k) =~= tag);
        assert(rest.skip(k + 3) =~= kind);
    }
}

/// Whether a counter tells of a hop.
pub open spec fn counts_for(stat: XrayStat, tag: Seq<char>) -> bool {
    match hop_counter(stat) {
        Some((named, _)) => named == tag,
        None => false,
    }
}

/// Of the counters of a hop the last one counts, and a hop without any is not told.
pub proof fn lemma_last_hop_counter_counts(stats: Seq<XrayStat>, tag: Seq<char>)
    ensures
        hop_counters(stats).dom().contains(tag) <==> exists|k: int|
            0 <= k < stats.len() && counts_for(#[trigger] stats[k], tag),
        hop_counters(stats).dom().contains(tag) ==> exists|k: int|
            0 <= k < stats.len() && hop_counter(#[trigger] stats[k]) == Some(
                (tag, hop_counters(stats)[tag]),
            ) && forall|j: int|
                k < j < stats.len() ==> !counts_for(#[trigger] stats[j], tag),
    decreases stats.len(),
{
    if stats.len() > 0 {
        let front = stats.drop_last();
        let last = stats.len() - 1;
        lemma_last_hop_counter_counts(front, tag);
        assert(stats[last] == stats.last());
        assert forall|i: int| 0 <= i < last implies front[i] == stats[i] by {}
        let own = counts_for(stats[last], tag);
        if own {
            assert(hop_counter(stats[last]) == Some((tag, hop_counters(stats)[tag])));
        } else if hop_counters(front).dom().contains(tag) {
            let k = choose|k: int|
                0 <= k < front.len() && hop_counter(#[trigger] front[k]) == Some(
                    (tag, hop_counters(front)[tag]),
                ) && forall|j: int|
                    k < j < front.len() ==> !counts_for(#[trigger] front[j], tag);
            assert(hop_counter(stats[k]) == Some((tag, hop_counters(stats)[tag])));
            assert forall|j: int| k < j < stats.len() implies !counts_for(#[trigger] stats[j], tag) by {
                if j < last {
                    assert(front[j] == stats[j]);
                }
            }
        } else if exists|k: int|
            0 <= k < stats.len() && counts_for(#[trigger] stats[k], tag) {
            let k = choose|k: int|
                0 <= k < stats.len() && counts_for(#[trigger] stats[k], tag);
            assert(front[k] == stats[k]);
        }
    }
}

/// A hop lives exactly where more came back over it than the round before; what came back
/// since, added to what had come back then, is what has come back now. A counter that fell
/// tells of nothing.
pub proof fn lemma_hop_lives_by_what_came_back(tag: Seq<char>, now: u64, before: Map<Seq<char>, u64>)
    ensures
        hop_health(tag, now, before) is Some <==> xray::hop_of(tag) is Some,
        hop_health(tag, now, before) matches Some(h) ==> {
            let earlier = if before.dom().contains(tag) {
                before[tag]
            } else {
                0
            };
            &&& Some((h.chain_id, h.peer_node_id)) == xray::hop_of(tag)
            &&& h.alive <==> now > earlier
            &&& now >= earlier ==> earlier + h.downlink_bytes == now
            &&& now < earlier ==> h.downlink_bytes == 0
        },
{
}

/// Every hop that was counted is judged, and in its place among those that were.
pub proof fn lemma_every_hop_is_judged(entries: Seq<(String, u64)>, before: Map<Seq<char>, u64>)
    requires
        forall|i: int| 0 <= i < entries.len() ==> xray::hop_of((#[trigger] entries[i]).0@) is Some,
    ensures
        all_health(entries, before).len() == entries.len(),
        forall|i: int|
            0 <= i < entries.len() ==> Some(#[trigger] all_health(entries, before)[i])
                == hop_health(entries[i].0@, entries[i].1, before),
    decreases entries.len(),
{
    if entries.len() > 0 {
        let front = entries.drop_last();
        assert forall|i: int| 0 <= i < front.len() implies xray::hop_of(
            (#[trigger] front[i]).0@,
        ) is Some by {
            assert(front[i] == entries[i]);
        }
        lemma_every_hop_is_judged(front, before);
        assert(entries[entries.len() - 1] == entries.last());
        assert(hop_health(entries.last().0@, entries.last().1, before) is Some);
    }
}

/// The addresses that can be tried are those of IPv4 and those that there is a route to, and
/// no others.
pub proof fn lemma_usable_addresses(
    addresses: Seq<Endpoint>,
    routed: Seq<bool>,
    n: int,
    address: Endpoint,
)
    requires
        0 <= n <= addresses.len(),
        routed.len() == addresses.len(),
    ensures
        usable(addresses, routed, n).contains(address) <==> exists|i: int|
            0 <= i < n && #[trigger] addresses[i] == address && (address.ip is V4 || routed[i]),
    decreases n,
{
    if n > 0 {
        lemma_usable_addresses(addresses, routed, n - 1, address);
        let front = usable(addresses, routed, n - 1);
        let all = usable(addresses, routed, n);
        let last = addresses[n - 1];
        if last.ip is V4 || routed[n - 1] {
            assert(all == front.push(last));
            assert(all[all.len() - 1] == last);
            if front.contains(address) {
                let i = choose|i: int| 0 <= i < front.len() && front[i] == address;
                assert(all[i] == address);
            }
            if all.contains(address) && address != last {
                let i = choose|i: int| 0 <= i < all.len() && all[i] == address;
                assert(front[i] == address);
            }
        }
    }
}

/// A target is read as it is written: `tcp://`, a host without colons, a colon and a port; or
/// the host in brackets.
pub proof fn lemma_target_reads_back(host: Seq<char>, port: u16)
    requires
        host.len() > 0,
        !any_space(host),
        !host.contains('[') && !host.contains(']'),
        port > 0,
    ensures
        !host.contains(':') ==> tcp_target("tcp://"@ + host + ":"@ + numbers::decimal(port as int))
            == Some((host, port)),
        host.contains(':') ==> tcp_target("tcp://"@ + host + ":"@ + numbers::decimal(port as int))
            is None,
        tcp_target("tcp://["@ + host + "]:"@ + numbers::decimal(port as int)) == Some((host, port)),
{
    reveal_strlit("tcp://");
    reveal_strlit("tcp://[");
    reveal_strlit("[");
    reveal_strlit(":");
    reveal_strlit("]:");
    let digits = numbers::decimal(port as int);
    numbers::lemma_decimal_digits(port as int);
    numbers::lemma_parse_decimal(port as int, u16::MAX as int);
    let at = host.len() as int;
    let head = "tcp://"@;
    let plain = host + ":"@ + digits;
    let boxed = host + "]:"@ + digits;
    let whole = "tcp://"@ + host + ":"@ + digits;
    let wrapped = "tcp://["@ + host + "]:"@ + digits;
    assert(whole.subrange(0, 6) =~= head);
    assert(whole.skip(6) =~= plain);
    assert(wrapped.subrange(0, 6) =~= head);
    assert(wrapped.skip(6) =~= "["@ + boxed);
    assert(host.contains(host[0]));
    assert(plain[0] == host[0]);
    if text::stands_at(plain, "["@, 0) {
        assert(plain.subrange(0, 1)[0] == '[');
    }
    text::lemma_rfind_char(plain, ':', plain.len() as int);
    assert(plain[at] == ':');
    assert forall|j: int| at < j < plain.len() implies plain[j] != ':' by {
        assert(plain[j] == digits[j - at - 1]);
    }
    assert(text::rfind_char(plain, ':', plain.len() as int) == Some(at));
    assert(plain.take(at) =~= host);
    assert(plain.skip(at + 1) =~= digits);
    text::lemma_find_char(host, ':', 0);
    if host.contains(':') {
        let i = choose|i: int| 0 <= i < host.len() && host[i] == ':';
        assert(text::find_char(host, ':', 0) is Some);
    } else if text::find_char(host, ':', 0) is Some {
        assert(host.contains(host[text::find_char(host, ':', 0)->0]));
    }
    let inner = "["@ + boxed;
    assert(inner.subrange(0, 1) =~= "["@);
    assert(inner.skip(1) =~= boxed);
    assert(boxed.subrange(at, at + 2) =~= "]:"@);
    assert forall|j: int| 0 <= j < at implies #[trigger] boxed[j] != "]:"@[0] by {
        assert(host.contains(host[j]));
    }
    text::lemma_find_sub_at(boxed, "]:"@, 0, at);
    assert(boxed.take(at) =~= host);
    assert(boxed.skip(at + 2) =~= digits);
}

} // verus!
