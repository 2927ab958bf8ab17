//! What the agent reads out of `xray.json`.
use vstd::prelude::*;
use vstd::string::*;

use crate::address::{parse_ip, Ip};
use crate::json::{parse_json, Json};
use crate::{address, json, text};

verus! {

/// The kernel socket namespace an inbound occupies.
#[derive(Debug, Clone, Copy, PartialEq, Eq, Structural)]
pub enum XrayListenProtocol {
    Tcp,
    Udp,
}

/// Tag, listen address, port and protocol of an inbound.
pub open spec fn inbound_of(inbound: Json) -> Option<
    (Seq<char>, Seq<char>, u16, XrayListenProtocol),
> {
    match (inbound.text_at("tag"@), inbound.u16_at("port"@)) {
        (Some(tag), Some(port)) => Some(
            (
                tag,
                match inbound.text_at("listen"@) {
                    Some(listen) => listen,
                    None => "0.0.0.0"@,
                },
                port,
                if inbound.text_at("protocol"@) == Some("hysteria"@) {
                    XrayListenProtocol::Udp
                } else {
                    XrayListenProtocol::Tcp
                },
            ),
        ),
        _ => None,
    }
}

/// The inbounds that name a tag and a port, in order.
pub open spec fn inbounds_of(items: Seq<Json>) -> Seq<
    (Seq<char>, Seq<char>, u16, XrayListenProtocol),
>
    decreases items.len(),
{
    if items.len() == 0 {
        seq![]
    } else {
        let front = inbounds_of(items.drop_last());
        match inbound_of(items.last()) {
            Some(inbound) => front.push(inbound),
            None => front,
        }
    }
}

/// The contents of a list of inbounds.
pub open spec fn inbound_views(list: Seq<(String, String, u16, XrayListenProtocol)>) -> Seq<
    (Seq<char>, Seq<char>, u16, XrayListenProtocol),
> {
    list.map_values(|p: (String, String, u16, XrayListenProtocol)| (p.0@, p.1@, p.2, p.3))
}

/// Every inbound's (tag, listen, port, protocol) in a parsed configuration.
pub fn listen_ports(value: &Json) -> (r: Vec<(String, String, u16, XrayListenProtocol)>)
    ensures
        inbound_views(r@) == inbounds_of(value.items_at("inbounds"@)),
{
    let items = value.items_of("inbounds");
    let mut out: Vec<(String, String, u16, XrayListenProtocol)> = Vec::new();
    let mut i: usize = 0;
    while i < items.len()
        invariant
            i <= items.len(),
            inbound_views(out@) == inbounds_of(items@.take(i as int)),
        decreases items.len() - i,
    {
        let inbound = &items[i];
        assert(items@.take(i + 1).drop_last() == items@.take(i as int));
        let protocol = match inbound.text_of("protocol") {
            Some(p) => if text::same_str(p, "hysteria") {
                XrayListenProtocol::Udp
            } else {
                XrayListenProtocol::Tcp
            },
            None => XrayListenProtocol::Tcp,
        };
        let listen = match inbound.text_of("listen") {
            Some(listen) => listen.to_owned(),
            None => "0.0.0.0".to_owned(),
        };
        match (inbound.text_of("tag"), inbound.u16_of("port")) {
            (Some(tag), Some(port)) => {
                let ghost before = out@;
                out.push((tag.to_owned(), listen, port, protocol));
                assert(inbound_views(out@) == inbound_views(before).push(
                    inbound_of(items@[i as int])->0,
                ));
            },
            _ => {},
        }
        i = i + 1;
    }
    assert(items@.take(i as int) == items@);
    out
}

/// Every inbound's (tag, listen, port, protocol) from `xray.json`, for probing
/// ports one by one. A text that is no JSON has none.
pub fn xray_listen_ports(content: &str) -> (r: Vec<(String, String, u16, XrayListenProtocol)>)
    ensures
        match json::json_of(content@) {
            Ok(value) => inbound_views(r@) == inbounds_of(value.items_at("inbounds"@)),
            Err(_) => r@.len() == 0,
        },
{
    match parse_json(content) {
        Ok(value) => listen_ports(&value),
        Err(_) => Vec::new(),
    }
}

/// The position of the first item at or after `from` whose tag is `tag`.
pub open spec fn tagged_at(items: Seq<Json>, tag: Seq<char>, from: int) -> Option<int>
    decreases items.len() - from,
{
    if from < 0 || from >= items.len() {
        None
    } else if items[from].text_at("tag"@) == Some(tag) {
        Some(from)
    } else {
        tagged_at(items, tag, from + 1)
    }
}

/// The first inbound called `tag`.
pub open spec fn inbound_by_tag(value: Json, tag: Seq<char>) -> Option<Json> {
    let items = value.items_at("inbounds"@);
    match tagged_at(items, tag, 0) {
        Some(k) => Some(items[k]),
        None => None,
    }
}

fn find_inbound<'a>(value: &'a Json, tag: &str) -> (r: Option<&'a Json>)
    ensures
        match r {
            Some(v) => inbound_by_tag(*value, tag@) == Some(*v),
            None => inbound_by_tag(*value, tag@) is None,
        },
{
    let items = value.items_of("inbounds");
    let mut i: usize = 0;
    while i < items.len()
        invariant
            i <= items.len(),
            items@ == value.items_at("inbounds"@),
            tagged_at(items@, tag@, 0) == tagged_at(items@, tag@, i as int),
        decreases items.len() - i,
    {
        match items[i].text_of("tag") {
            Some(t) => {
                if text::same_str(t, tag) {
                    return Some(&items[i]);
                }
            },
            None => {},
        }
        i = i + 1;
    }
    None
}

/// The inbound called `tag`. A missing one is named in the error.
pub fn xray_inbound_by_tag<'a>(value: &'a Json, tag: &str) -> (r: Result<&'a Json, String>)
    ensures
        match r {
            Ok(v) => inbound_by_tag(*value, tag@) == Some(*v),
            Err(e) => inbound_by_tag(*value, tag@) is None && e@
                == "xray config does not contain inbound tag "@ + tag@,
        },
{
    match find_inbound(value, tag) {
        Some(v) => Ok(v),
        None => {
            let mut e = "xray config does not contain inbound tag ".to_owned();
            e.append(tag);
            Err(e)
        },
    }
}

/// The port of the first inbound tagged `api`.
pub open spec fn api_port_of(value: Json) -> Option<u16> {
    match inbound_by_tag(value, "api"@) {
        Some(inbound) => inbound.u16_at("port"@),
        None => None,
    }
}

/// The port of the api inbound in a parsed configuration.
pub fn api_port(value: &Json) -> (r: Option<u16>)
    ensures
        r == api_port_of(*value),
{
    match find_inbound(value, "api") {
        Some(inbound) => inbound.u16_of("port"),
        None => None,
    }
}

/// The port of the api inbound, or nothing: a guess would connect the agent to
/// an unrelated service.
pub fn xray_api_port(content: &str) -> (r: Option<u16>)
    ensures
        match json::json_of(content@) {
            Ok(value) => r == api_port_of(value),
            Err(_) => r is None,
        },
{
    match parse_json(content) {
        Ok(value) => api_port(&value),
        Err(_) => None,
    }
}

/// A TCP front that hands a secured stream on to a port of this machine.
pub open spec fn is_security_front(inbound: Json) -> bool {
    &&& inbound.text_at("protocol"@) == Some("dokodemo-door"@)
    &&& inbound.get_spec("settings"@) matches Some(settings) && settings.get_spec("port"@) matches Some(
        port,
    ) && port is Number
    &&& inbound.get_spec("streamSettings"@) matches Some(stream) && (stream.text_at("security"@)
        == Some("reality"@) || stream.text_at("security"@) == Some("tls"@))
}

/// Whether any inbound is a security front.
pub open spec fn needs_splice_disabled(value: Json) -> bool {
    let items = value.items_at("inbounds"@);
    exists|i: int| 0 <= i < items.len() && is_security_front(#[trigger] items[i])
}

fn security_front(inbound: &Json) -> (r: bool)
    ensures
        r == is_security_front(*inbound),
{
    let forwards = match inbound.text_of("protocol") {
        Some(p) => text::same_str(p, "dokodemo-door"),
        None => false,
    };
    let to_port = match inbound.get("settings") {
        Some(settings) => match settings.get("port") {
            Some(Json::Number { .. }) => true,
            _ => false,
        },
        None => false,
    };
    let secured = match inbound.get("streamSettings") {
        Some(stream) => match stream.text_of("security") {
            Some(s) => text::same_str(s, "reality") || text::same_str(s, "tls"),
            None => false,
        },
        None => false,
    };
    forwards && to_port && secured
}

/// Whether a parsed configuration needs splice switched off.
pub fn splice_disabled(value: &Json) -> (r: bool)
    ensures
        r == needs_splice_disabled(*value),
{
    let items = value.items_of("inbounds");
    let mut i: usize = 0;
    while i < items.len()
        invariant
            i <= items.len(),
            items@ == value.items_at("inbounds"@),
            forall|j: int| 0 <= j < i ==> !is_security_front(#[trigger] items@[j]),
        decreases items.len() - i,
    {
        if security_front(&items[i]) {
            return true;
        }
        i = i + 1;
    }
    false
}

/// Whether this configuration needs splice switched off.
pub fn xray_needs_splice_disabled(content: &str) -> (r: Result<bool, String>)
    ensures
        match json::json_of(content@) {
            Ok(value) => r == Ok::<bool, String>(needs_splice_disabled(value)),
            Err(error) => r matches Err(e) && e@ == "解析待启动的 xray 配置失败："@ + error,
        },
{
    match parse_json(content) {
        Ok(value) => Ok(splice_disabled(&value)),
        Err(error) => {
            let mut e = "解析待启动的 xray 配置失败：".to_owned();
            e.append(error.as_str());
            Err(e)
        },
    }
}

/// `out:{app}/{chain}>{to}` as (app/chain, to).
pub open spec fn hop_of(tag: Seq<char>) -> Option<(Seq<char>, Seq<char>)> {
    match text::strip_prefix(tag, "out:"@) {
        Some(rest) => text::split_once(rest, '>'),
        None => None,
    }
}

/// `out:{app}/{chain}>{to}` → (app/chain, to). `None` for anything else
/// (egress, block).
pub fn hop_of_tag(tag: &str) -> (r: Option<(String, String)>)
    ensures
        match r {
            Some(hop) => hop_of(tag@) == Some((hop.0@, hop.1@)),
            None => hop_of(tag@) is None,
        },
{
    let t = text::chars_of(tag);
    match text::after_prefix(t.as_slice(), "out:") {
        Some(rest) => match text::cut_once(rest, '>') {
            Some((chain, peer)) => Some((text::string_of(chain), text::string_of(peer))),
            None => None,
        },
        None => None,
    }
}

/// Which hop (chain, peer) each next-hop address belongs to.
pub struct HopTargets {
    pub entries: Vec<(Ip, String, String)>,
}

/// The last entry at or before position `at` for `ip`.
pub open spec fn target_at(entries: Seq<(Ip, String, String)>, ip: Ip, at: int) -> Option<
    (Seq<char>, Seq<char>),
>
    decreases at + 1,
{
    if at < 0 || at >= entries.len() {
        None
    } else if entries[at].0 == ip {
        Some((entries[at].1@, entries[at].2@))
    } else {
        target_at(entries, ip, at - 1)
    }
}

impl HopTargets {
    /// The hop that `ip` belongs to; a later entry wins over an earlier one.
    pub open spec fn hop(self, ip: Ip) -> Option<(Seq<char>, Seq<char>)> {
        target_at(self.entries@, ip, self.entries@.len() - 1)
    }

    /// The address of each entry, with its hop.
    pub open spec fn listing(self) -> Seq<(Ip, Seq<char>, Seq<char>)> {
        self.entries@.map_values(|e: (Ip, String, String)| (e.0, e.1@, e.2@))
    }

    pub fn is_empty(&self) -> (r: bool)
        ensures
            r == (self.entries@.len() == 0),
    {
        self.entries.len() == 0
    }

    pub fn get(&self, ip: Ip) -> (r: Option<(&str, &str)>)
        ensures
            match r {
                Some(hop) => self.hop(ip) == Some((hop.0@, hop.1@)),
                None => self.hop(ip) is None,
            },
    {
        let mut i: usize = self.entries.len();
        while i > 0
            invariant
                i <= self.entries.len(),
                self.hop(ip) == target_at(self.entries@, ip, i - 1),
            decreases i,
        {
            if self.entries[i - 1].0 == ip {
                return Some((self.entries[i - 1].1.as_str(), self.entries[i - 1].2.as_str()));
            }
            i = i - 1;
        }
        None
    }
}

/// The literal addresses among `entries`, each with the hop.
pub open spec fn targets_of_entries(entries: Seq<Json>, hop: (Seq<char>, Seq<char>)) -> Seq<
    (Ip, Seq<char>, Seq<char>),
>
    decreases entries.len(),
{
    if entries.len() == 0 {
        seq![]
    } else {
        let front = targets_of_entries(entries.drop_last(), hop);
        match entries.last().text_at("address"@) {
            Some(a) => match address::ip_literal(a) {
                Some(ip) => front.push((ip, hop.0, hop.1)),
                None => front,
            },
            None => front,
        }
    }
}

/// The servers of an outbound: `vnext` where it is given, else `servers`.
pub open spec fn servers_of(outbound: Json) -> Seq<Json> {
    match outbound.get_spec("settings"@) {
        Some(settings) => if settings.get_spec("vnext"@) is Some {
            settings.items_at("vnext"@)
        } else {
            settings.items_at("servers"@)
        },
        None => seq![],
    }
}

/// The addresses that one outbound forwards to.
pub open spec fn targets_of_outbound(outbound: Json) -> Seq<(Ip, Seq<char>, Seq<char>)> {
    match outbound.text_at("tag"@) {
        Some(tag) => match hop_of(tag) {
            Some(hop) => targets_of_entries(servers_of(outbound), hop),
            None => seq![],
        },
        None => seq![],
    }
}

/// The addresses that all outbounds forward to, in order.
pub open spec fn targets_of(outbounds: Seq<Json>) -> Seq<(Ip, Seq<char>, Seq<char>)>
    decreases outbounds.len(),
{
    if outbounds.len() == 0 {
        seq![]
    } else {
        targets_of(outbounds.drop_last()) + targets_of_outbound(outbounds.last())
    }
}

fn push_targets(
    out: &mut Vec<(Ip, String, String)>,
    entries: &[Json],
    chain: &String,
    peer: &String,
)
    ensures
        final(out)@.map_values(|e: (Ip, String, String)| (e.0, e.1@, e.2@)) == old(
            out,
        )@.map_values(|e: (Ip, String, String)| (e.0, e.1@, e.2@)) + targets_of_entries(
            entries@,
            (chain@, peer@),
        ),
{
    let ghost view = |e: (Ip, String, String)| (e.0, e.1@, e.2@);
    let mut i: usize = 0;
    proof {
        assert(out@.map_values(view) + targets_of_entries(entries@.take(0), (chain@, peer@))
            == out@.map_values(view));
    }
    while i < entries.len()
        invariant
            i <= entries.len(),
            view == (|e: (Ip, String, String)| (e.0, e.1@, e.2@)),
            out@.map_values(view) == old(out)@.map_values(view) + targets_of_entries(
                entries@.take(i as int),
                (chain@, peer@),
            ),
        decreases entries.len() - i,
    {
        assert(entries@.take(i + 1).drop_last() == entries@.take(i as int));
        match entries[i].text_of("address") {
            Some(a) => {
                let chars = text::chars_of(a);
                match parse_ip(chars.as_slice()) {
                    Some(ip) => {
                        let ghost before = out@;
                        out.push((ip, chain.clone(), peer.clone()));
                        assert(out@.map_values(view) == before.map_values(view).push(
                            (ip, chain@, peer@),
                        ));
                        assert(out@.map_values(view) == old(out)@.map_values(view)
                            + targets_of_entries(entries@.take(i as int), (chain@, peer@)).push(
                            (ip, chain@, peer@),
                        ));
                    },
                    None => {},
                }
            },
            None => {},
        }
        i = i + 1;
    }
    assert(entries@.take(i as int) == entries@);
}

/// Which hop each literal next-hop address belongs to, in a parsed configuration.
pub fn targets(value: &Json) -> (r: HopTargets)
    ensures
        r.listing() == targets_of(value.items_at("outbounds"@)),
{
    let outbounds = value.items_of("outbounds");
    let mut out: Vec<(Ip, String, String)> = Vec::new();
    let mut i: usize = 0;
    let ghost view = |e: (Ip, String, String)| (e.0, e.1@, e.2@);
    while i < outbounds.len()
        invariant
            i <= outbounds.len(),
            view == (|e: (Ip, String, String)| (e.0, e.1@, e.2@)),
            out@.map_values(view) == targets_of(outbounds@.take(i as int)),
        decreases outbounds.len() - i,
    {
        let outbound = &outbounds[i];
        proof {
            assert(outbounds@.take(i + 1).drop_last() == outbounds@.take(i as int));
            assert(targets_of(outbounds@.take(i as int)) + Seq::<
                (Ip, Seq<char>, Seq<char>),
            >::empty() == targets_of(outbounds@.take(i as int)));
        }
        match outbound.text_of("tag") {
            Some(tag) => match hop_of_tag(tag) {
                Some((chain, peer)) => match outbound.get("settings") {
                    Some(settings) => {
                        let entries = if settings.get("vnext").is_some() {
                            settings.items_of("vnext")
                        } else {
                            settings.items_of("servers")
                        };
                        push_targets(&mut out, entries, &chain, &peer);
                    },
                    None => {},
                },
                None => {},
            },
            None => {},
        }
        i = i + 1;
    }
    assert(outbounds@.take(i as int) == outbounds@);
    HopTargets { entries: out }
}

/// Which hop each literal next-hop address belongs to, read out of `xray.json`.
/// A text that is no JSON names none.
pub fn hop_targets(xray_json: &str) -> (r: HopTargets)
    ensures
        match json::json_of(xray_json@) {
            Ok(value) => r.listing() == targets_of(value.items_at("outbounds"@)),
            Err(_) => r.entries@.len() == 0,
        },
{
    match parse_json(xray_json) {
        Ok(value) => targets(&value),
        Err(_) => HopTargets { entries: Vec::new() },
    }
}

/// A tag names a hop as it is written: `out:`, the chain, `>` and the machine.
pub proof fn lemma_hop_reads_back(chain: Seq<char>, peer: Seq<char>)
    requires
        !chain.contains('>'),
    ensures
        hop_of("out:"@ + chain + ">"@ + peer) == Some((chain, peer)),
{
    reveal_strlit("out:");
    reveal_strlit(">");
    let tag = "out:"@ + chain + ">"@ + peer;
    let rest = chain + ">"@ + peer;
    assert(tag.subrange(0, 4) =~= "out:"@);
    assert(tag.skip(4) =~= rest);
    assert forall|j: int| 0 <= j < chain.len() implies rest[j] != '>' by {
        assert(chain.contains(chain[j]));
    }
    text::lemma_find_char_at(rest, '>', 0, chain.len() as int);
    assert(rest.take(chain.len() as int) =~= chain);
    assert(rest.skip(chain.len() as int + 1) =~= peer);
}

/// A tag that names a hop is `out:`, the chain, `>` and the machine.
pub proof fn lemma_hop_is_spelled_by_its_tag(tag: Seq<char>)
    requires
        hop_of(tag) is Some,
    ensures
        ({
            let (chain, peer) = hop_of(tag)->0;
            tag == "out:"@ + chain + ">"@ + peer && !chain.contains('>')
        }),
{
    reveal_strlit("out:");
    reveal_strlit(">");
    let (chain, peer) = hop_of(tag)->0;
    let rest = tag.skip(4);
    text::lemma_find_char(rest, '>', 0);
    assert(tag.subrange(0, 4) == "out:"@);
    assert forall|i: int| 0 <= i < 4 implies tag[i] == "out:"@[i] by {
        assert(tag.subrange(0, 4)[i] == tag[i]);
    }
    assert(tag =~= "out:"@ + chain + ">"@ + peer);
    if chain.contains('>') {
        let j = choose|j: int| 0 <= j < chain.len() && chain[j] == '>';
        assert(rest[j] == '>');
    }
}

/// An inbound is one that has both a tag and a port; it listens everywhere where it does not
/// say, and takes UDP exactly where it is one of hysteria.
pub proof fn lemma_inbound_needs_tag_and_port(inbound: Json)
    ensures
        inbound_of(inbound) is Some <==> inbound.text_at("tag"@) is Some && inbound.u16_at(
            "port"@,
        ) is Some,
        inbound_of(inbound) matches Some((tag, listen, port, protocol)) ==> {
            &&& inbound.text_at("tag"@) == Some(tag)
            &&& inbound.u16_at("port"@) == Some(port)
            &&& inbound.text_at("listen"@) is Some ==> inbound.text_at("listen"@) == Some(listen)
            &&& inbound.text_at("listen"@) is None ==> listen == "0.0.0.0"@
            &&& protocol == XrayListenProtocol::Udp <==> inbound.text_at("protocol"@) == Some(
                "hysteria"@,
            )
        },
{
}

/// Of several inbounds with one tag the first counts, and none is found exactly where no
/// inbound has the tag.
pub proof fn lemma_first_tagged_counts(items: Seq<Json>, tag: Seq<char>, from: int)
    requires
        0 <= from,
    ensures
        match tagged_at(items, tag, from) {
            Some(k) => from <= k < items.len() && items[k].text_at("tag"@) == Some(tag) && forall|
                j: int,
            | from <= j < k ==> (#[trigger] items[j]).text_at("tag"@) != Some(tag),
            None => forall|j: int|
                from <= j < items.len() ==> (#[trigger] items[j]).text_at("tag"@) != Some(tag),
        },
    decreases items.len() - from,
{
    if from < items.len() && items[from].text_at("tag"@) != Some(tag) {
        lemma_first_tagged_counts(items, tag, from + 1);
    }
}

/// Of several hops to one address the last counts, and none is found exactly where no entry has
/// the address.
pub proof fn lemma_last_target_counts(entries: Seq<(Ip, String, String)>, ip: Ip, at: int)
    requires
        at < entries.len(),
    ensures
        match target_at(entries, ip, at) {
            Some((chain, peer)) => exists|k: int|
                0 <= k <= at && (#[trigger] entries[k]).0 == ip && entries[k].1@ == chain
                    && entries[k].2@ == peer && forall|j: int|
                    k < j <= at ==> (#[trigger] entries[j]).0 != ip,
            None => forall|j: int| 0 <= j <= at ==> (#[trigger] entries[j]).0 != ip,
        },
    decreases at + 1,
{
    if at >= 0 && entries[at].0 != ip {
        lemma_last_target_counts(entries, ip, at - 1);
    }
}

proof fn lemma_entries_are_targets(
    entries: Seq<Json>,
    hop: (Seq<char>, Seq<char>),
    target: (Ip, Seq<char>, Seq<char>),
)
    ensures
        targets_of_entries(entries, hop).contains(target) <==> (target.1, target.2) == hop
            && exists|i: int| 0 <= i < entries.len() && stands_for(#[trigger] entries[i], target.0),
    decreases entries.len(),
{
    if entries.len() > 0 {
        let front = entries.drop_last();
        let before = targets_of_entries(front, hop);
        let all = targets_of_entries(entries, hop);
        lemma_entries_are_targets(front, hop, target);
        assert forall|i: int| 0 <= i < front.len() implies front[i] == #[trigger] entries[i] by {}
        assert(entries.last() == entries[entries.len() - 1]);
        if before.contains(target) {
            let i = choose|i: int| 0 <= i < front.len() && stands_for(#[trigger] front[i], target.0);
            assert(stands_for(entries[i], target.0));
            let k = choose|k: int| 0 <= k < before.len() && before[k] == target;
            assert(all[k] == target);
        }
        if all.len() > before.len() {
            assert(all == before.push(all.last()));
            assert(all[before.len() as int] == all.last());
            if all.contains(target) && !before.contains(target) {
                let k = choose|k: int| 0 <= k < all.len() && all[k] == target;
                assert(k < before.len() ==> before[k] == target);
                assert(stands_for(entries[entries.len() - 1], target.0));
            }
        }
    }
}

/// Whether an entry names an address.
pub open spec fn stands_for(entry: Json, ip: Ip) -> bool {
    match entry.text_at("address"@) {
        Some(a) => address::ip_literal(a) == Some(ip),
        None => false,
    }
}

/// Whether an outbound leads to an address as a hop.
pub open spec fn leads_to(outbound: Json, target: (Ip, Seq<char>, Seq<char>)) -> bool {
    let servers = servers_of(outbound);
    match outbound.text_at("tag"@) {
        Some(tag) => hop_of(tag) == Some((target.1, target.2)) && exists|i: int|
            0 <= i < servers.len() && stands_for(#[trigger] servers[i], target.0),
        None => false,
    }
}

/// The targets of a proxy are exactly the addresses to which an outbound leads, each under the
/// hop that the outbound's tag names.
pub proof fn lemma_targets_are_where_outbounds_lead(
    outbounds: Seq<Json>,
    target: (Ip, Seq<char>, Seq<char>),
)
    ensures
        targets_of(outbounds).contains(target) <==> exists|i: int|
            0 <= i < outbounds.len() && leads_to(#[trigger] outbounds[i], target),
    decreases outbounds.len(),
{
    if outbounds.len() > 0 {
        let front = outbounds.drop_last();
        let last = outbounds.last();
        let (before, here) = (targets_of(front), targets_of_outbound(last));
        let all = targets_of(outbounds);
        lemma_targets_are_where_outbounds_lead(front, target);
        assert forall|i: int| 0 <= i < front.len() implies front[i] == #[trigger] outbounds[i] by {}
        assert(last == outbounds[outbounds.len() - 1]);
        match last.text_at("tag"@) {
            Some(tag) => match hop_of(tag) {
                Some(hop) => {
                    lemma_entries_are_targets(servers_of(last), hop, target);
                },
                None => {},
            },
            None => {},
        }
        assert(here.contains(target) <==> leads_to(last, target));
        assert(all == before + here);
        if before.contains(target) {
            let i = choose|i: int| 0 <= i < front.len() && leads_to(#[trigger] front[i], target);
            assert(leads_to(outbounds[i], target));
            let k = choose|k: int| 0 <= k < before.len() && before[k] == target;
            assert(all[k] == target);
        }
        if here.contains(target) {
            let k = choose|k: int| 0 <= k < here.len() && here[k] == target;
            assert(all[before.len() + k] == target);
            assert(leads_to(outbounds[outbounds.len() - 1], target));
        }
        if all.contains(target) {
            let k = choose|k: int| 0 <= k < all.len() && all[k] == target;
            if k < before.len() {
                assert(before[k] == target);
            } else {
                assert(here[k - before.len()] == target);
            }
        }
    }
}

} // verus!
