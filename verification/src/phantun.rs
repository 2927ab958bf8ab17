//! The disguise layer: which of its processes should run, how they are started, and
//! whether they still do.
use vstd::prelude::*;
use vstd::string::*;

use crate::bytes::from_utf8_lossy;
use crate::command::{run_shell_with_timeout, CommandPlan};
use crate::converge::FileStep;
use crate::json::{parse_json, Json};
use crate::logcap::BoundedLog;
use crate::plan::{artifact_dirty, present_file_state, AppliedArtifactState, DesiredArtifact};
use crate::selfupdate::BinarySource;
use crate::{bytes, converge, json, logcap, numbers, paths, plan, shell, text};

verus! {

/// Which end of a disguised link a process is.
#[derive(Debug, PartialEq, Eq)]
pub enum PhantunInstanceKind {
    Server { tcp_port: u16, forward_to_udp_port: u16 },
    Client { peer: String, listen_udp_port: u16, remote_tcp_endpoint: String },
}

/// The network device of a process.
#[derive(Debug, PartialEq, Eq)]
pub struct PhantunTun {
    pub name: String,
    pub local: String,
    pub peer: String,
}

/// One process that should run.
#[derive(Debug, PartialEq, Eq)]
pub struct PhantunInstance {
    pub kind: PhantunInstanceKind,
    pub tun: PhantunTun,
}

/// Which end of a disguised link a process is, by its characters.
pub enum KindView {
    Server { tcp_port: u16, forward_to_udp_port: u16 },
    Client { peer: Seq<char>, listen_udp_port: u16, remote_tcp_endpoint: Seq<char> },
}

/// One process that should run, by its characters.
pub struct InstanceView {
    pub kind: KindView,
    pub name: Seq<char>,
    pub local: Seq<char>,
    pub peer: Seq<char>,
}

impl View for PhantunInstance {
    type V = InstanceView;

    open spec fn view(&self) -> InstanceView {
        InstanceView {
            kind: match self.kind {
                PhantunInstanceKind::Server {
                    tcp_port,
                    forward_to_udp_port,
                } => KindView::Server { tcp_port, forward_to_udp_port },
                PhantunInstanceKind::Client {
                    peer,
                    listen_udp_port,
                    remote_tcp_endpoint,
                } => KindView::Client {
                    peer: peer@,
                    listen_udp_port,
                    remote_tcp_endpoint: remote_tcp_endpoint@,
                },
            },
            name: self.tun.name@,
            local: self.tun.local@,
            peer: self.tun.peer@,
        }
    }
}

impl InstanceView {
    pub open spec fn program(self) -> Seq<char> {
        match self.kind {
            KindView::Server { .. } => "phantun-server"@,
            KindView::Client { .. } => "phantun-client"@,
        }
    }

    pub open spec fn args(self) -> Seq<Seq<char>> {
        let (near, far) = match self.kind {
            KindView::Server { tcp_port, forward_to_udp_port } => (
                numbers::decimal(tcp_port as int),
                "127.0.0.1:"@ + numbers::decimal(forward_to_udp_port as int),
            ),
            KindView::Client { listen_udp_port, remote_tcp_endpoint, .. } => (
                "127.0.0.1:"@ + numbers::decimal(listen_udp_port as int),
                remote_tcp_endpoint,
            ),
        };
        seq![
            "--local"@,
            near,
            "--remote"@,
            far,
            "--tun"@,
            self.name,
            "--tun-local"@,
            self.local,
            "--tun-peer"@,
            self.peer,
        ]
    }

    pub open spec fn label(self) -> Seq<char> {
        match self.kind {
            KindView::Server { tcp_port, .. } => "服务端 tcp :"@ + numbers::decimal(tcp_port as int),
            KindView::Client { peer, listen_udp_port, .. } => "客户端 udp :"@ + numbers::decimal(
                listen_udp_port as int,
            ) + " → "@ + peer,
        }
    }

    /// The firewall rule that a process needs: what comes in for a server is steered
    /// to its device, unless it came from one; what a client sends out gets the
    /// machine's own address.
    pub open spec fn rule(self) -> Seq<char> {
        match self.kind {
            KindView::Server { tcp_port, .. } =>
            "add rule inet brocade prerouting iifname != \"bt*\" tcp dport "@ + numbers::decimal(
                tcp_port as int,
            ) + " dnat ip to "@ + self.peer,
            KindView::Client { .. } => "add rule inet brocade postrouting ip saddr "@ + self.peer
                + " masquerade"@,
        }
    }
}

fn local_address(port: u16) -> (r: String)
    ensures
        r@ == "127.0.0.1:"@ + numbers::decimal(port as int),
{
    let mut out = "127.0.0.1:".to_owned();
    out.append(numbers::decimal_string(port as u64).as_str());
    out
}

impl PhantunInstance {
    /// The program that a process runs.
    pub fn program(&self) -> (r: &'static str)
        ensures
            r@ == self@.program(),
    {
        match &self.kind {
            PhantunInstanceKind::Server { .. } => "phantun-server",
            PhantunInstanceKind::Client { .. } => "phantun-client",
        }
    }

    /// The arguments of a process.
    pub fn args(&self) -> (r: Vec<String>)
        ensures
            text::string_views(r@) == self@.args(),
    {
        let (near, far) = match &self.kind {
            PhantunInstanceKind::Server { tcp_port, forward_to_udp_port } => (
                numbers::decimal_string(*tcp_port as u64),
                local_address(*forward_to_udp_port),
            ),
            PhantunInstanceKind::Client { listen_udp_port, remote_tcp_endpoint, .. } => (
                local_address(*listen_udp_port),
                remote_tcp_endpoint.as_str().to_owned(),
            ),
        };
        let mut out: Vec<String> = Vec::new();
        out.push("--local".to_owned());
        out.push(near);
        out.push("--remote".to_owned());
        out.push(far);
        out.push("--tun".to_owned());
        out.push(self.tun.name.as_str().to_owned());
        out.push("--tun-local".to_owned());
        out.push(self.tun.local.as_str().to_owned());
        out.push("--tun-peer".to_owned());
        out.push(self.tun.peer.as_str().to_owned());
        assert(text::string_views(out@) =~= self@.args());
        out
    }

    /// What a process is called.
    pub fn label(&self) -> (r: String)
        ensures
            r@ == self@.label(),
    {
        match &self.kind {
            PhantunInstanceKind::Server { tcp_port, .. } => {
                let mut out = "服务端 tcp :".to_owned();
                out.append(numbers::decimal_string(*tcp_port as u64).as_str());
                out
            },
            PhantunInstanceKind::Client { peer, listen_udp_port, .. } => {
                let mut out = "客户端 udp :".to_owned();
                out.append(numbers::decimal_string(*listen_udp_port as u64).as_str());
                out.append(" → ");
                out.append(peer.as_str());
                out
            },
        }
    }

    fn rule(&self) -> (r: String)
        ensures
            r@ == self@.rule(),
    {
        match &self.kind {
            PhantunInstanceKind::Server { tcp_port, .. } => {
                let mut out =
                    "add rule inet brocade prerouting iifname != \"bt*\" tcp dport ".to_owned();
                out.append(numbers::decimal_string(*tcp_port as u64).as_str());
                out.append(" dnat ip to ");
                out.append(self.tun.peer.as_str());
                out
            },
            PhantunInstanceKind::Client { .. } => {
                let mut out = "add rule inet brocade postrouting ip saddr ".to_owned();
                out.append(self.tun.peer.as_str());
                out.append(" masquerade");
                out
            },
        }
    }
}

/// The servers of a plan. A plan from before there could be several has one under a
/// name of its own, which counts only where the list is missing.
pub open spec fn servers_of(plan: Json) -> Seq<Json> {
    let single = match plan.get_spec("server"@) {
        Some(s) => seq![s],
        None => seq![],
    };
    match plan.get_spec("servers"@) {
        Some(v) => match v.array_spec() {
            Some(items) => items,
            None => single,
        },
        None => single,
    }
}

/// The values behind references.
pub open spec fn values(list: Seq<&Json>) -> Seq<Json> {
    Seq::new(list.len(), |i: int| *list[i])
}

/// The servers of a plan.
pub fn phantun_servers(plan: &Json) -> (r: Vec<&Json>)
    ensures
        values(r@) == servers_of(*plan),
{
    let mut out: Vec<&Json> = Vec::new();
    match plan.get("servers") {
        Some(v) => match v.as_array() {
            Some(items) => {
                let mut i: usize = 0;
                while i < items.len()
                    invariant
                        i <= items.len(),
                        values(out@) == items@.take(i as int),
                    decreases items.len() - i,
                {
                    let ghost before = out@;
                    out.push(&items[i]);
                    assert(values(out@) == values(before).push(items@[i as int]));
                    assert(items@.take(i + 1) == items@.take(i as int).push(items@[i as int]));
                    i = i + 1;
                }
                assert(items@.take(i as int) == items@);
                return out;
            },
            None => {},
        },
        None => {},
    }
    match plan.get("server") {
        Some(s) => {
            out.push(s);
            assert(values(out@) =~= seq![*s]);
        },
        None => {
            assert(values(out@) =~= seq![]);
        },
    }
    out
}

/// A port that must be there.
pub open spec fn port_at(instance: Json, key: Seq<char>, location: Seq<char>) -> Result<
    u16,
    Seq<char>,
> {
    match instance.u64_at(key) {
        None => Err("phantun.json: "@ + location + "."@ + key + " 缺失"@),
        Some(v) => if v <= u16::MAX {
            Ok(v as u16)
        } else {
            Err("phantun.json: "@ + location + "."@ + key + " 超出端口范围"@)
        },
    }
}

fn complaint(location: &str, key: &str, what: &str) -> (r: String)
    ensures
        r@ == "phantun.json: "@ + location@ + "."@ + key@ + what@,
{
    let mut out = "phantun.json: ".to_owned();
    out.append(location);
    out.append(".");
    out.append(key);
    out.append(what);
    out
}

/// A port that must be there.
pub fn required_u16(instance: &Json, key: &str, location: &str) -> (r: Result<u16, String>)
    ensures
        match r {
            Ok(v) => port_at(*instance, key@, location@) == Ok::<u16, Seq<char>>(v),
            Err(e) => port_at(*instance, key@, location@) == Err::<u16, Seq<char>>(e@),
        },
{
    match instance.u64_of(key) {
        None => Err(complaint(location, key, " 缺失")),
        Some(v) => if v <= u16::MAX as u64 {
            Ok(v as u16)
        } else {
            Err(complaint(location, key, " 超出端口范围"))
        },
    }
}

/// A text that must be there.
pub open spec fn text_at(instance: Json, key: Seq<char>, location: Seq<char>) -> Result<
    Seq<char>,
    Seq<char>,
> {
    match instance.text_at(key) {
        None => Err("phantun.json: "@ + location + "."@ + key + " 缺失"@),
        Some(t) => Ok(t),
    }
}

/// A text that must be there.
pub fn required_string(instance: &Json, key: &str, location: &str) -> (r: Result<String, String>)
    ensures
        match r {
            Ok(v) => text_at(*instance, key@, location@) == Ok::<Seq<char>, Seq<char>>(v@),
            Err(e) => text_at(*instance, key@, location@) == Err::<Seq<char>, Seq<char>>(e@),
        },
{
    match instance.text_of(key) {
        None => Err(complaint(location, key, " 缺失")),
        Some(t) => Ok(t.to_owned()),
    }
}

/// The device of a process: its name, its own address and that of the process. The
/// first that is missing is named.
pub open spec fn tun_of(instance: Json) -> Result<(Seq<char>, Seq<char>, Seq<char>), Seq<char>> {
    match instance.get_spec("tun"@) {
        None => Err("phantun.json: 实例缺 tun"@),
        Some(tun) => match text_at(tun, "name"@, "tun"@) {
            Err(e) => Err(e),
            Ok(name) => match text_at(tun, "local"@, "tun"@) {
                Err(e) => Err(e),
                Ok(local) => match text_at(tun, "peer"@, "tun"@) {
                    Err(e) => Err(e),
                    Ok(peer) => Ok((name, local, peer)),
                },
            },
        },
    }
}

/// The device of a process.
pub fn tun_fields(instance: &Json) -> (r: Result<(String, String, String), String>)
    ensures
        match r {
            Ok((name, local, peer)) => tun_of(*instance) == Ok::<
                (Seq<char>, Seq<char>, Seq<char>),
                Seq<char>,
            >((name@, local@, peer@)),
            Err(e) => tun_of(*instance) == Err::<
                (Seq<char>, Seq<char>, Seq<char>),
                Seq<char>,
            >(e@),
        },
{
    match instance.get("tun") {
        None => Err("phantun.json: 实例缺 tun".to_owned()),
        Some(tun) => match required_string(tun, "name", "tun") {
            Err(e) => Err(e),
            Ok(name) => match required_string(tun, "local", "tun") {
                Err(e) => Err(e),
                Ok(local) => match required_string(tun, "peer", "tun") {
                    Err(e) => Err(e),
                    Ok(peer) => Ok((name, local, peer)),
                },
            },
        },
    }
}

/// One server of a plan.
pub open spec fn server_of(item: Json) -> Result<InstanceView, Seq<char>> {
    match port_at(item, "tcp_port"@, "servers[]"@) {
        Err(e) => Err(e),
        Ok(tcp_port) => match port_at(item, "forward_to_udp_port"@, "servers[]"@) {
            Err(e) => Err(e),
            Ok(forward_to_udp_port) => match tun_of(item) {
                Err(e) => Err(e),
                Ok((name, local, peer)) => Ok(
                    InstanceView {
                        kind: KindView::Server { tcp_port, forward_to_udp_port },
                        name,
                        local,
                        peer,
                    },
                ),
            },
        },
    }
}

/// One client of a plan.
pub open spec fn client_of(item: Json) -> Result<InstanceView, Seq<char>> {
    match port_at(item, "listen_udp_port"@, "clients[]"@) {
        Err(e) => Err(e),
        Ok(listen_udp_port) => match text_at(item, "remote_tcp_endpoint"@, "clients[]"@) {
            Err(e) => Err(e),
            Ok(remote_tcp_endpoint) => match tun_of(item) {
                Err(e) => Err(e),
                Ok((name, local, tun_peer)) => Ok(
                    InstanceView {
                        kind: KindView::Client {
                            peer: match item.text_at("peer"@) {
                                Some(p) => p,
                                None => "?"@,
                            },
                            listen_udp_port,
                            remote_tcp_endpoint,
                        },
                        name,
                        local,
                        peer: tun_peer,
                    },
                ),
            },
        },
    }
}

/// All processes that items ask for; an item that is not complete is not passed over.
pub open spec fn gathered(items: Seq<Json>, server: bool) -> Result<Seq<InstanceView>, Seq<char>>
    decreases items.len(),
{
    if items.len() == 0 {
        Ok(seq![])
    } else {
        match gathered(items.drop_last(), server) {
            Err(e) => Err(e),
            Ok(front) => match (if server {
                server_of(items.last())
            } else {
                client_of(items.last())
            }) {
                Err(e) => Err(e),
                Ok(one) => Ok(front.push(one)),
            },
        }
    }
}

/// All processes of a plan: its servers, then its clients.
pub open spec fn instances_of(plan: Json) -> Result<Seq<InstanceView>, Seq<char>> {
    match gathered(servers_of(plan), true) {
        Err(e) => Err(e),
        Ok(servers) => match gathered(plan.items_at("clients"@), false) {
            Err(e) => Err(e),
            Ok(clients) => Ok(servers + clients),
        },
    }
}

/// Processes, by their characters.
pub open spec fn instance_views(list: Seq<PhantunInstance>) -> Seq<InstanceView> {
    Seq::new(list.len(), |i: int| list[i]@)
}

fn read_server(item: &Json) -> (r: Result<PhantunInstance, String>)
    ensures
        match r {
            Ok(v) => server_of(*item) == Ok::<InstanceView, Seq<char>>(v@),
            Err(e) => server_of(*item) == Err::<InstanceView, Seq<char>>(e@),
        },
{
    match required_u16(item, "tcp_port", "servers[]") {
        Err(e) => Err(e),
        Ok(tcp_port) => match required_u16(item, "forward_to_udp_port", "servers[]") {
            Err(e) => Err(e),
            Ok(forward_to_udp_port) => match tun_fields(item) {
                Err(e) => Err(e),
                Ok((name, local, peer)) => Ok(
                    PhantunInstance {
                        kind: PhantunInstanceKind::Server { tcp_port, forward_to_udp_port },
                        tun: PhantunTun { name, local, peer },
                    },
                ),
            },
        },
    }
}

fn read_client(item: &Json) -> (r: Result<PhantunInstance, String>)
    ensures
        match r {
            Ok(v) => client_of(*item) == Ok::<InstanceView, Seq<char>>(v@),
            Err(e) => client_of(*item) == Err::<InstanceView, Seq<char>>(e@),
        },
{
    match required_u16(item, "listen_udp_port", "clients[]") {
        Err(e) => Err(e),
        Ok(listen_udp_port) => match required_string(item, "remote_tcp_endpoint", "clients[]") {
            Err(e) => Err(e),
            Ok(remote_tcp_endpoint) => match tun_fields(item) {
                Err(e) => Err(e),
                Ok((name, local, tun_peer)) => {
                    let peer = match item.text_of("peer") {
                        Some(p) => p.to_owned(),
                        None => "?".to_owned(),
                    };
                    Ok(
                        PhantunInstance {
                            kind: PhantunInstanceKind::Client {
                                peer,
                                listen_udp_port,
                                remote_tcp_endpoint,
                            },
                            tun: PhantunTun { name, local, peer: tun_peer },
                        },
                    )
                },
            },
        },
    }
}

/// All processes of a plan.
pub fn phantun_instances_from_plan(plan: &Json) -> (r: Result<Vec<PhantunInstance>, String>)
    ensures
        match r {
            Ok(list) => instances_of(*plan) == Ok::<Seq<InstanceView>, Seq<char>>(
                instance_views(list@),
            ),
            Err(e) => instances_of(*plan) == Err::<Seq<InstanceView>, Seq<char>>(e@),
        },
{
    let servers = phantun_servers(plan);
    let ghost all = servers_of(*plan);
    assert(values(servers@).len() == servers@.len());
    let mut out: Vec<PhantunInstance> = Vec::new();
    let mut i: usize = 0;
    assert(instance_views(out@) =~= seq![]);
    while i < servers.len()
        invariant
            i <= servers.len(),
            servers@.len() == all.len(),
            values(servers@) == all,
            all == servers_of(*plan),
            gathered(all.take(i as int), true) == Ok::<Seq<InstanceView>, Seq<char>>(
                instance_views(out@),
            ),
        decreases servers.len() - i,
    {
        proof {
            assert(all.take(i + 1).drop_last() == all.take(i as int));
            assert(all.take(i + 1).last() == *servers@[i as int]);
        }
        let ghost before = out@;
        match read_server(servers[i]) {
            Ok(one) => {
                out.push(one);
                assert(instance_views(out@) == instance_views(before).push(one@));
            },
            Err(e) => {
                proof {
                    lemma_gather_fails_early(all, true, i + 1, e@);
                }
                return Err(e);
            },
        }
        i = i + 1;
    }
    assert(all.take(i as int) == all);
    let ghost first = instance_views(out@);
    let clients = plan.items_of("clients");
    let ghost rest = plan.items_at("clients"@);
    let mut k: usize = 0;
    assert(rest.take(0) =~= Seq::<Json>::empty());
    assert(first + Seq::<InstanceView>::empty() =~= first);
    let ghost mut later: Seq<InstanceView> = seq![];
    while k < clients.len()
        invariant
            k <= clients.len(),
            clients@ == rest,
            rest == plan.items_at("clients"@),
            gathered(servers_of(*plan), true) == Ok::<Seq<InstanceView>, Seq<char>>(first),
            gathered(rest.take(k as int), false) == Ok::<Seq<InstanceView>, Seq<char>>(later),
            instance_views(out@) == first + later,
        decreases clients.len() - k,
    {
        proof {
            assert(rest.take(k + 1).drop_last() == rest.take(k as int));
            assert(rest.take(k + 1).last() == rest[k as int]);
        }
        let ghost before = out@;
        match read_client(&clients[k]) {
            Ok(one) => {
                out.push(one);
                proof {
                    assert(instance_views(out@) == instance_views(before).push(one@));
                    assert(instance_views(out@) == first + later.push(one@));
                    later = later.push(one@);
                }
            },
            Err(e) => {
                proof {
                    lemma_gather_fails_early(rest, false, k + 1, e@);
                }
                return Err(e);
            },
        }
        k = k + 1;
    }
    assert(rest.take(k as int) == rest);
    Ok(out)
}

proof fn lemma_gather_fails_early(items: Seq<Json>, server: bool, n: int, e: Seq<char>)
    requires
        0 <= n <= items.len(),
        gathered(items.take(n), server) == Err::<Seq<InstanceView>, Seq<char>>(e),
    ensures
        gathered(items, server) == Err::<Seq<InstanceView>, Seq<char>>(e),
    decreases items.len() - n,
{
    if n == items.len() {
        assert(items.take(n) == items);
    } else {
        assert(items.take(n + 1).drop_last() == items.take(n));
        lemma_gather_fails_early(items, server, n + 1, e);
    }
}

/// The processes that a plan's text asks for.
pub open spec fn instances_in(content: Seq<char>) -> Result<Seq<InstanceView>, Seq<char>> {
    match json::json_of(content) {
        Ok(plan) => instances_of(plan),
        Err(e) => Err(e),
    }
}

/// All processes that a plan's text asks for, or why it cannot be told.
pub fn phantun_instances(content: Result<&str, &str>) -> (r: Result<Vec<PhantunInstance>, String>)
    ensures
        ({
            let told = match content {
                Err(e) => Err(e@),
                Ok(t) => instances_in(t@),
            };
            match r {
                Ok(list) => told == Ok::<Seq<InstanceView>, Seq<char>>(instance_views(list@)),
                Err(e) => told == Err::<Seq<InstanceView>, Seq<char>>(e@),
            }
        }),
{
    match content {
        Err(e) => Err(e.to_owned()),
        Ok(t) => match parse_json(t) {
            Err(e) => Err(e),
            Ok(plan) => phantun_instances_from_plan(&plan),
        },
    }
}

/// Which programs a plan needs: that of servers, that of clients.
pub open spec fn programs_of(plan: Json) -> (bool, bool) {
    (servers_of(plan).len() > 0, plan.items_at("clients"@).len() > 0)
}

/// Which programs a plan needs.
pub fn needed_programs(plan: &Json) -> (r: (bool, bool))
    ensures
        r == programs_of(*plan),
{
    let servers = phantun_servers(plan);
    assert(values(servers@).len() == servers@.len());
    (servers.len() > 0, plan.items_of("clients").len() > 0)
}

/// Which programs a plan's text asks for.
pub fn prepare_phantun_binaries(content: &str) -> (r: Result<(bool, bool), String>)
    ensures
        match r {
            Ok(v) => json::json_of(content@) matches Ok(plan) && v == programs_of(plan),
            Err(e) => json::json_of(content@) == Err::<Json, Seq<char>>(e@),
        },
{
    match parse_json(content) {
        Ok(plan) => Ok(needed_programs(&plan)),
        Err(e) => Err(e),
    }
}

/// Whether a plan's text asks for any process; one that is missing or cannot be read
/// does not.
pub fn phantun_wanted(content: Option<&str>) -> (r: bool)
    ensures
        r == (match content {
            Some(t) => match json::json_of(t@) {
                Ok(plan) => programs_of(plan).0 || programs_of(plan).1,
                Err(_) => false,
            },
            None => false,
        }),
{
    match content {
        Some(t) => match parse_json(t) {
            Ok(plan) => {
                let (server, client) = needed_programs(&plan);
                server || client
            },
            Err(_) => false,
        },
        None => false,
    }
}

/// The script that fetches a program, verifies it and only then installs it.
pub open spec fn install_script(program: Seq<char>, url: Seq<char>, sha256: Seq<char>) -> Seq<char> {
    "set -eu\ntmp=$(mktemp)\ntrap 'rm -f \"$tmp\"' EXIT\ncurl -fsSL --connect-timeout 15 --max-time 120 "@
        + shell::quoted(url)
        + " -o \"$tmp\"\ngot=$(sha256sum \"$tmp\" | cut -d' ' -f1)\nif [ \"$got\" != "@
        + shell::quoted(sha256) + " ]; then\necho \""@ + program
        + " sha256 不匹配\" >&2\nexit 1\nfi\ninstall -m 0755 \"$tmp\" /usr/local/bin/"@ + program
}

/// What is to be run to have a program: nothing where it is there, and an error where
/// nobody says where it could come from.
pub fn ensure_phantun_binary(program: &str, present: bool, source: Option<&BinarySource>) -> (r:
    Result<Option<CommandPlan>, String>)
    ensures
        match r {
            Ok(None) => present,
            Ok(Some(plan)) => !present && (source matches Some(s) && plan.program@ == "sh"@
                && text::string_views(plan.args@) == seq![
                "-c"@,
                install_script(program@, s.url@, s.sha256@),
            ] && plan.timeout_millis == 130_000),
            Err(e) => !present && source is None && e@ == program@
                + " 不在这台机器上，控制面也没配 phantun 分发源（BROCADE_PHANTUN_SERVER_URL / _CLIENT_URL 加对应的 SHA256）"@,
        },
{
    if present {
        return Ok(None);
    }
    match source {
        None => {
            let mut out = program.to_owned();
            out.append(
                " 不在这台机器上，控制面也没配 phantun 分发源（BROCADE_PHANTUN_SERVER_URL / _CLIENT_URL 加对应的 SHA256）",
            );
            Err(out)
        },
        Some(s) => {
            let mut script =
                "set -eu\ntmp=$(mktemp)\ntrap 'rm -f \"$tmp\"' EXIT\ncurl -fsSL --connect-timeout 15 --max-time 120 ".to_owned();
            script.append(shell::shell_quote(s.url.as_str()).as_str());
            script.append(
                " -o \"$tmp\"\ngot=$(sha256sum \"$tmp\" | cut -d' ' -f1)\nif [ \"$got\" != ",
            );
            script.append(shell::shell_quote(s.sha256.as_str()).as_str());
            script.append(" ]; then\necho \"");
            script.append(program);
            script.append(
                " sha256 不匹配\" >&2\nexit 1\nfi\ninstall -m 0755 \"$tmp\" /usr/local/bin/",
            );
            script.append(program);
            Ok(Some(run_shell_with_timeout(script.as_str(), 130_000)))
        },
    }
}

/// Whether a character may stand in a file's name here.
pub open spec fn is_plain(c: char) -> bool {
    ('0' <= c <= '9') || ('a' <= c <= 'z') || ('A' <= c <= 'Z') || c == '-' || c == '_'
}

/// A name in which every other character is replaced.
pub open spec fn plain_name(s: Seq<char>) -> Seq<char> {
    Seq::new(
        s.len(),
        |i: int|
            if is_plain(s[i]) {
                s[i]
            } else {
                '_'
            },
    )
}

fn make_plain(s: &str) -> (r: String)
    ensures
        r@ == plain_name(s@),
{
    let chars = text::chars_of(s);
    let mut out: Vec<char> = Vec::new();
    let mut i: usize = 0;
    while i < chars.len()
        invariant
            i <= chars.len(),
            chars@ == s@,
            out@ == plain_name(s@).take(i as int),
        decreases chars.len() - i,
    {
        let c = chars[i];
        let kept = if ('0' <= c && c <= '9') || ('a' <= c && c <= 'z') || ('A' <= c && c <= 'Z')
            || c == '-' || c == '_' {
            c
        } else {
            '_'
        };
        out.push(kept);
        assert(plain_name(s@).take(i + 1) == plain_name(s@).take(i as int).push(kept));
        i = i + 1;
    }
    assert(plain_name(s@).take(i as int) == plain_name(s@));
    text::string_of(out.as_slice())
}

/// The name of a process's log.
pub open spec fn log_name(instance: InstanceView) -> Seq<char> {
    instance.program() + "-"@ + plain_name(instance.name) + ".log"@
}

fn make_log_name(instance: &PhantunInstance) -> (r: String)
    ensures
        r@ == log_name(instance@),
{
    let mut out = instance.program().to_owned();
    out.append("-");
    out.append(make_plain(instance.tun.name.as_str()).as_str());
    out.append(".log");
    out
}

/// Where a process's log is kept.
pub fn phantun_log_path(state_dir: &str, instance: &PhantunInstance) -> (r: String)
    ensures
        r@ == paths::joined(paths::joined(state_dir@, "logs"@), log_name(instance@)),
{
    let logs = paths::join(state_dir, "logs");
    paths::join(logs.as_str(), make_log_name(instance).as_str())
}

/// Quoted words with blanks between them.
pub open spec fn quoted_words(words: Seq<Seq<char>>) -> Seq<Seq<char>> {
    Seq::new(words.len(), |i: int| shell::quoted(words[i]))
}

fn quote_all(words: &Vec<String>) -> (r: Vec<String>)
    ensures
        text::string_views(r@) == quoted_words(text::string_views(words@)),
{
    let ghost all = quoted_words(text::string_views(words@));
    let mut out: Vec<String> = Vec::new();
    let mut i: usize = 0;
    while i < words.len()
        invariant
            i <= words.len(),
            all == quoted_words(text::string_views(words@)),
            text::string_views(out@) == all.take(i as int),
        decreases words.len() - i,
    {
        let ghost before = out@;
        out.push(shell::shell_quote(words[i].as_str()));
        assert(text::string_views(words@)[i as int] == words@[i as int]@);
        assert(text::string_views(out@) == text::string_views(before).push(all[i as int]));
        assert(all.take(i + 1) == all.take(i as int).push(all[i as int]));
        i = i + 1;
    }
    assert(all.take(i as int) == all);
    out
}

/// The command that drains a process's output into its log.
pub open spec fn sink_of(executable: Seq<char>, state_dir: Seq<char>, instance: InstanceView) -> Seq<
    char,
> {
    shell::quoted(executable) + " log-sink "@ + shell::quoted(
        paths::joined(paths::joined(state_dir, "logs"@), log_name(instance)),
    ) + " "@ + shell::quoted(paths::joined(state_dir, BoundedLog::Phantun.file()))
}

/// The script that starts a process, its output drained into its log.
pub open spec fn spawn_script(
    executable: Seq<char>,
    state_dir: Seq<char>,
    instance: InstanceView,
) -> Seq<char> {
    "set -eu\nnohup sh -c "@ + shell::quoted(
        instance.program() + " "@ + text::join(quoted_words(instance.args()), " "@) + " 2>&1 | "@
            + sink_of(executable, state_dir, instance),
    ) + " >/dev/null 2>&1 &\nsleep 0.4"@
}

/// The script that starts a process; `executable` is the agent's own program, which
/// drains the output.
pub fn spawn_phantun(executable: &str, state_dir: &str, instance: &PhantunInstance) -> (r: String)
    ensures
        r@ == spawn_script(executable@, state_dir@, instance@),
{
    let quoted = quote_all(&instance.args());
    let log_path = phantun_log_path(state_dir, instance);
    let mut pipeline = instance.program().to_owned();
    pipeline.append(" ");
    pipeline.append(text::join_strings(&quoted, " ").as_str());
    pipeline.append(" 2>&1 | ");
    pipeline.append(
        logcap::command(executable, log_path.as_str(), state_dir, BoundedLog::Phantun).as_str(),
    );
    let mut out = "set -eu\nnohup sh -c ".to_owned();
    out.append(shell::shell_quote(pipeline.as_str()).as_str());
    out.append(" >/dev/null 2>&1 &\nsleep 0.4");
    out
}

/// Whether `name` is among the names.
pub open spec fn has_name(names: Seq<Seq<char>>, name: Seq<char>) -> bool {
    exists|i: int| 0 <= i < names.len() && #[trigger] names[i] == name
}

/// The names of the logs of processes.
pub open spec fn log_names(instances: Seq<InstanceView>) -> Seq<Seq<char>> {
    Seq::new(instances.len(), |i: int| log_name(instances[i]))
}

/// The first process at or after `from` whose log is that of an earlier one.
pub open spec fn repeated(instances: Seq<InstanceView>, from: int) -> Option<int>
    decreases instances.len() - from,
{
    if from < 0 || from >= instances.len() {
        None
    } else if has_name(log_names(instances).take(from), log_name(instances[from])) {
        Some(from)
    } else {
        repeated(instances, from + 1)
    }
}

/// Whether a file is one of these logs or its predecessor.
pub open spec fn is_wanted(instances: Seq<InstanceView>, name: Seq<char>) -> bool {
    exists|i: int|
        0 <= i < instances.len() && (name == log_name(#[trigger] instances[i]) || name == log_name(
            instances[i],
        ) + ".1"@)
}

/// Whether a file is a log of this layer at all.
pub open spec fn is_ours(name: Seq<char>) -> bool {
    (text::starts_with(name, "phantun-server-"@) || text::starts_with(name, "phantun-client-"@))
        && (text::ends_with(name, ".log"@) || text::ends_with(name, ".log.1"@))
}

/// The files that are logs of this layer and of no process that should run.
pub open spec fn retired(instances: Seq<InstanceView>, names: Seq<Seq<char>>) -> Seq<Seq<char>>
    decreases names.len(),
{
    if names.len() == 0 {
        seq![]
    } else {
        let front = retired(instances, names.drop_last());
        if is_ours(names.last()) && !is_wanted(instances, names.last()) {
            front.push(names.last())
        } else {
            front
        }
    }
}

fn ends(s: &[char], pat: &str) -> (r: bool)
    ensures
        r == text::ends_with(s@, pat@),
{
    match text::before_suffix(s, pat) {
        Some(_) => true,
        None => false,
    }
}

fn ours(name: &str) -> (r: bool)
    ensures
        r == is_ours(name@),
{
    let chars = text::chars_of(name);
    let c = chars.as_slice();
    (text::begins(c, "phantun-server-") || text::begins(c, "phantun-client-")) && (ends(c, ".log")
        || ends(c, ".log.1"))
}

/// The files to remove from the directory of logs: those of processes that no longer
/// should run, and no others. Two processes with one log are an error.
pub fn prune_phantun_logs(instances: &Vec<PhantunInstance>, names: &Vec<String>) -> (r: Result<
    Vec<String>,
    String,
>)
    ensures
        ({
            let wanted = instance_views(instances@);
            match r {
                Ok(list) => repeated(wanted, 0) is None && text::string_views(list@) == retired(
                    wanted,
                    text::string_views(names@),
                ),
                Err(e) => repeated(wanted, 0) matches Some(k) && e@
                    == "phantun plan repeats TUN/log identity "@ + wanted[k].name,
            }
        }),
{
    let ghost wanted = instance_views(instances@);
    assert(wanted.len() == instances@.len());
    let mut logs: Vec<String> = Vec::new();
    let mut i: usize = 0;
    while i < instances.len()
        invariant
            i <= instances.len(),
            wanted.len() == instances@.len(),
            wanted == instance_views(instances@),
            text::string_views(logs@) == log_names(wanted).take(i as int),
            repeated(wanted, 0) == repeated(wanted, i as int),
        decreases instances.len() - i,
    {
        assert(wanted[i as int] == instances@[i as int]@);
        let name = make_log_name(&instances[i]);
        if contains_name(&logs, name.as_str()) {
            let mut out = "phantun plan repeats TUN/log identity ".to_owned();
            out.append(instances[i].tun.name.as_str());
            return Err(out);
        }
        let ghost before = logs@;
        logs.push(name);
        proof {
            let all = log_names(wanted);
            assert(text::string_views(logs@) == text::string_views(before).push(all[i as int]));
            assert(all.take(i + 1) == all.take(i as int).push(all[i as int]));
        }
        i = i + 1;
    }
    let ghost all = text::string_views(names@);
    let mut out: Vec<String> = Vec::new();
    let mut k: usize = 0;
    assert(log_names(wanted).take(i as int) == log_names(wanted));
    while k < names.len()
        invariant
            k <= names.len(),
            all == text::string_views(names@),
            text::string_views(logs@) == log_names(wanted),
            text::string_views(out@) == retired(wanted, all.take(k as int)),
        decreases names.len() - k,
    {
        proof {
            assert(all.take(k + 1).drop_last() == all.take(k as int));
            assert(all.take(k + 1).last() == names@[k as int]@);
        }
        let name = names[k].as_str();
        let mut kept = contains_name(&logs, name);
        let chars = text::chars_of(name);
        match text::before_suffix(chars.as_slice(), ".1") {
            Some(head) => {
                let base = text::string_of(head);
                if contains_name(&logs, base.as_str()) {
                    kept = true;
                }
                proof {
                    reveal_strlit(".1");
                    assert(name@ =~= base@ + ".1"@);
                }
            },
            None => {},
        }
        proof {
            lemma_wanted_names(wanted, name@);
        }
        let ghost before = out@;
        if ours(name) && !kept {
            out.push(name.to_owned());
            assert(text::string_views(out@) == text::string_views(before).push(name@));
        }
        k = k + 1;
    }
    assert(all.take(k as int) == all);
    Ok(out)
}

proof fn lemma_wanted_names(wanted: Seq<InstanceView>, name: Seq<char>)
    ensures
        is_wanted(wanted, name) == (has_name(log_names(wanted), name) || (text::ends_with(
            name,
            ".1"@,
        ) && has_name(log_names(wanted), name.take(name.len() - ".1"@.len())))),
{
    let all = log_names(wanted);
    let n = ".1"@.len() as int;
    if is_wanted(wanted, name) {
        let i = choose|i: int|
            0 <= i < wanted.len() && (name == log_name(#[trigger] wanted[i]) || name == log_name(
                wanted[i],
            ) + ".1"@);
        if name == log_name(wanted[i]) {
            assert(all[i] == name);
        } else {
            assert(name.take(name.len() - n) =~= log_name(wanted[i]));
            assert(all[i] == name.take(name.len() - n));
            assert(name.skip(name.len() - n) =~= ".1"@);
            assert(name.subrange(name.len() - n, name.len() as int) =~= ".1"@);
        }
    }
    if has_name(all, name) {
        let i = choose|i: int| 0 <= i < all.len() && #[trigger] all[i] == name;
        assert(log_name(wanted[i]) == name);
    }
    if text::ends_with(name, ".1"@) && has_name(all, name.take(name.len() - n)) {
        let i = choose|i: int| 0 <= i < all.len() && #[trigger] all[i] == name.take(name.len() - n);
        assert(log_name(wanted[i]) + ".1"@ =~= name);
    }
}

fn contains_name(names: &Vec<String>, name: &str) -> (r: bool)
    ensures
        r == has_name(text::string_views(names@), name@),
{
    let ghost all = text::string_views(names@);
    assert(all.len() == names@.len());
    let mut i: usize = 0;
    while i < names.len()
        invariant
            i <= names.len(),
            all.len() == names@.len(),
            all == text::string_views(names@),
            forall|j: int| 0 <= j < i ==> #[trigger] all[j] != name@,
        decreases names.len() - i,
    {
        assert(all[i as int] == names@[i as int]@);
        if text::same_str(names[i].as_str(), name) {
            return true;
        }
        i = i + 1;
    }
    false
}

/// A file that is no log of this layer is never removed, and neither is the log of a
/// process that should run.
pub proof fn lemma_only_retired_logs_are_removed(
    instances: Seq<InstanceView>,
    names: Seq<Seq<char>>,
    i: int,
)
    requires
        0 <= i < retired(instances, names).len(),
    ensures
        is_ours(retired(instances, names)[i]),
        !is_wanted(instances, retired(instances, names)[i]),
        has_name(names, retired(instances, names)[i]),
    decreases names.len(),
{
    let front = retired(instances, names.drop_last());
    let gone = retired(instances, names)[i];
    if i < front.len() {
        lemma_only_retired_logs_are_removed(instances, names.drop_last(), i);
        let k = choose|k: int|
            0 <= k < names.drop_last().len() && #[trigger] names.drop_last()[k] == gone;
        assert(names[k] == gone);
    } else {
        assert(names[names.len() - 1] == gone);
    }
}

/// The firewall rules of processes.
pub open spec fn rules_of(instances: Seq<InstanceView>) -> Seq<Seq<char>> {
    Seq::new(instances.len(), |i: int| instances[i].rule())
}

/// The script that replaces this layer's own table in the firewall.
pub open spec fn nat_script(rules: Seq<Seq<char>>) -> Seq<char> {
    "set -eu\ncommand -v nft >/dev/null 2>&1 || { echo '需要 nft（nftables）来给 phantun 配 NAT' >&2; exit 1; }\nsysctl -qw net.ipv4.ip_forward=1\nnft delete table inet brocade 2>/dev/null || true\nnft -f - <<'NFT'\ntable inet brocade {\nchain prerouting { type nat hook prerouting priority -100; }\nchain postrouting { type nat hook postrouting priority 100; }\nchain forward { type filter hook forward priority 0; }\n}\nadd rule inet brocade forward iifname \"bt*\" accept\nadd rule inet brocade forward oifname \"bt*\" accept\n"@
        + text::join(rules, "\n"@) + "\nNFT\n"@
}

/// The script that replaces this layer's own table in the firewall.
pub fn install_phantun_nat(rules: &Vec<String>) -> (r: String)
    ensures
        r@ == nat_script(text::string_views(rules@)),
{
    let mut out =
        "set -eu\ncommand -v nft >/dev/null 2>&1 || { echo '需要 nft（nftables）来给 phantun 配 NAT' >&2; exit 1; }\nsysctl -qw net.ipv4.ip_forward=1\nnft delete table inet brocade 2>/dev/null || true\nnft -f - <<'NFT'\ntable inet brocade {\nchain prerouting { type nat hook prerouting priority -100; }\nchain postrouting { type nat hook postrouting priority 100; }\nchain forward { type filter hook forward priority 0; }\n}\nadd rule inet brocade forward iifname \"bt*\" accept\nadd rule inet brocade forward oifname \"bt*\" accept\n".to_owned();
    out.append(text::join_strings(rules, "\n").as_str());
    out.append("\nNFT\n");
    out
}

/// The script that lets this layer's packets through a chain that belongs to Docker.
pub open spec fn allow_script() -> Seq<char> {
    "nft list chain ip filter DOCKER-USER >/dev/null 2>&1 || exit 0\nnft -a list chain ip filter DOCKER-USER 2>/dev/null | grep 'comment \"brocade\"' | grep -o 'handle [0-9]*' | awk '{print $2}' | while read -r h; do nft delete rule ip filter DOCKER-USER handle $h || true; done\nnft insert rule ip filter DOCKER-USER iifname \"bt*\" accept comment \"brocade\"\nnft insert rule ip filter DOCKER-USER oifname \"bt*\" accept comment \"brocade\"\necho 'phantun: 已在 DOCKER-USER 里放行 bt* 的转发' >&2"@
}

/// The script that takes this layer's own table down.
pub open spec fn table_down_script() -> Seq<char> {
    "nft delete table inet brocade 2>/dev/null || true"@
}

/// The script that takes this layer's rules out of that chain.
pub open spec fn withdraw_script() -> Seq<char> {
    "nft list chain ip filter DOCKER-USER >/dev/null 2>&1 || exit 0\nnft -a list chain ip filter DOCKER-USER 2>/dev/null | grep 'comment \"brocade\"' | grep -o 'handle [0-9]*' | awk '{print $2}' | while read -r h; do nft delete rule ip filter DOCKER-USER handle \"$h\" || true; done"@
}

/// The script that succeeds where that chain is missing or still holds the rules.
pub open spec fn still_allowed_script() -> Seq<char> {
    "nft list chain ip filter DOCKER-USER >/dev/null 2>&1 || exit 0\nnft list chain ip filter DOCKER-USER 2>/dev/null | grep -q 'comment \"brocade\"'"@
}

/// The script that ends the processes of this layer and waits until they are gone.
pub open spec fn kill_script() -> Seq<char> {
    "pkill -x phantun-server 2>/dev/null || true\npkill -x phantun-client 2>/dev/null || true\nfor _ in $(seq 1 20); do\npgrep -x phantun-server >/dev/null 2>&1 || pgrep -x phantun-client >/dev/null 2>&1 || break\nsleep 0.25\ndone"@
}

/// The script that lets this layer's packets through a chain that belongs to Docker.
/// Only rules that carry a mark are removed from it.
pub fn allow_forward_through_foreign_chains() -> (r: String)
    ensures
        r@
            == "nft list chain ip filter DOCKER-USER >/dev/null 2>&1 || exit 0\nnft -a list chain ip filter DOCKER-USER 2>/dev/null | grep 'comment \"brocade\"' | grep -o 'handle [0-9]*' | awk '{print $2}' | while read -r h; do nft delete rule ip filter DOCKER-USER handle $h || true; done\nnft insert rule ip filter DOCKER-USER iifname \"bt*\" accept comment \"brocade\"\nnft insert rule ip filter DOCKER-USER oifname \"bt*\" accept comment \"brocade\"\necho 'phantun: 已在 DOCKER-USER 里放行 bt* 的转发' >&2"@,
        r@ == allow_script(),
{
    "nft list chain ip filter DOCKER-USER >/dev/null 2>&1 || exit 0\nnft -a list chain ip filter DOCKER-USER 2>/dev/null | grep 'comment \"brocade\"' | grep -o 'handle [0-9]*' | awk '{print $2}' | while read -r h; do nft delete rule ip filter DOCKER-USER handle $h || true; done\nnft insert rule ip filter DOCKER-USER iifname \"bt*\" accept comment \"brocade\"\nnft insert rule ip filter DOCKER-USER oifname \"bt*\" accept comment \"brocade\"\necho 'phantun: 已在 DOCKER-USER 里放行 bt* 的转发' >&2".to_owned()
}

/// What starts the processes of a plan.
#[derive(Debug, PartialEq, Eq)]
pub struct PhantunPlan {
    pub instances: Vec<PhantunInstance>,
    /// A script for each process, in order.
    pub spawn: Vec<String>,
    /// The script for the firewall, where there is any process.
    pub firewall: Option<String>,
}

/// The scripts that start processes.
pub open spec fn spawn_scripts(
    executable: Seq<char>,
    state_dir: Seq<char>,
    instances: Seq<InstanceView>,
) -> Seq<Seq<char>> {
    Seq::new(instances.len(), |i: int| spawn_script(executable, state_dir, instances[i]))
}

/// What starts the processes that a plan's text asks for.
pub fn apply_phantun(executable: &str, state_dir: &str, content: &str) -> (r: Result<
    PhantunPlan,
    String,
>)
    ensures
        match r {
            Ok(p) => {
                let list = instance_views(p.instances@);
                &&& instances_in(content@) == Ok::<Seq<InstanceView>, Seq<char>>(list)
                &&& text::string_views(p.spawn@) == spawn_scripts(executable@, state_dir@, list)
                &&& text::optional(p.firewall) == if list.len() > 0 {
                    Some(nat_script(rules_of(list)))
                } else {
                    None
                }
            },
            Err(e) => instances_in(content@) == Err::<Seq<InstanceView>, Seq<char>>(e@),
        },
{
    let plan = match parse_json(content) {
        Ok(plan) => plan,
        Err(e) => {
            return Err(e);
        },
    };
    let instances = match phantun_instances_from_plan(&plan) {
        Ok(list) => list,
        Err(e) => {
            return Err(e);
        },
    };
    let ghost list = instance_views(instances@);
    let mut spawn: Vec<String> = Vec::new();
    let mut rules: Vec<String> = Vec::new();
    let mut i: usize = 0;
    while i < instances.len()
        invariant
            i <= instances.len(),
            list == instance_views(instances@),
            text::string_views(spawn@) == spawn_scripts(executable@, state_dir@, list).take(
                i as int,
            ),
            text::string_views(rules@) == rules_of(list).take(i as int),
        decreases instances.len() - i,
    {
        let ghost before = spawn@;
        let ghost ruled = rules@;
        assert(list[i as int] == instances@[i as int]@);
        spawn.push(spawn_phantun(executable, state_dir, &instances[i]));
        rules.push(instances[i].rule());
        proof {
            let all = spawn_scripts(executable@, state_dir@, list);
            assert(text::string_views(spawn@) == text::string_views(before).push(all[i as int]));
            assert(all.take(i + 1) == all.take(i as int).push(all[i as int]));
            let every = rules_of(list);
            assert(text::string_views(rules@) == text::string_views(ruled).push(every[i as int]));
            assert(every.take(i + 1) == every.take(i as int).push(every[i as int]));
        }
        i = i + 1;
    }
    proof {
        let all = spawn_scripts(executable@, state_dir@, list);
        assert(all.take(i as int) == all);
        assert(rules_of(list).take(i as int) == rules_of(list));
        assert(list.len() == instances@.len());
    }
    let firewall = if instances.len() > 0 {
        Some(install_phantun_nat(&rules))
    } else {
        None
    };
    Ok(PhantunPlan { instances, spawn, firewall })
}

/// The scripts that take this layer down: its own table, its marked rules in Docker's
/// chain, and its processes.
pub fn stop_phantun() -> (r: Vec<String>)
    ensures
        text::string_views(r@) == seq![
            "nft delete table inet brocade 2>/dev/null || true"@,
            "nft list chain ip filter DOCKER-USER >/dev/null 2>&1 || exit 0\nnft -a list chain ip filter DOCKER-USER 2>/dev/null | grep 'comment \"brocade\"' | grep -o 'handle [0-9]*' | awk '{print $2}' | while read -r h; do nft delete rule ip filter DOCKER-USER handle \"$h\" || true; done"@,
            "pkill -x phantun-server 2>/dev/null || true\npkill -x phantun-client 2>/dev/null || true\nfor _ in $(seq 1 20); do\npgrep -x phantun-server >/dev/null 2>&1 || pgrep -x phantun-client >/dev/null 2>&1 || break\nsleep 0.25\ndone"@,
        ],
        text::string_views(r@)[0] == table_down_script(),
        text::string_views(r@)[1] == withdraw_script(),
        text::string_views(r@)[2] == kill_script(),
{
    let mut out: Vec<String> = Vec::new();
    out.push("nft delete table inet brocade 2>/dev/null || true".to_owned());
    out.push(
        "nft list chain ip filter DOCKER-USER >/dev/null 2>&1 || exit 0\nnft -a list chain ip filter DOCKER-USER 2>/dev/null | grep 'comment \"brocade\"' | grep -o 'handle [0-9]*' | awk '{print $2}' | while read -r h; do nft delete rule ip filter DOCKER-USER handle \"$h\" || true; done".to_owned(),
    );
    out.push(
        "pkill -x phantun-server 2>/dev/null || true\npkill -x phantun-client 2>/dev/null || true\nfor _ in $(seq 1 20); do\npgrep -x phantun-server >/dev/null 2>&1 || pgrep -x phantun-client >/dev/null 2>&1 || break\nsleep 0.25\ndone".to_owned(),
    );
    assert(text::string_views(out@) =~= seq![
        "nft delete table inet brocade 2>/dev/null || true"@,
        "nft list chain ip filter DOCKER-USER >/dev/null 2>&1 || exit 0\nnft -a list chain ip filter DOCKER-USER 2>/dev/null | grep 'comment \"brocade\"' | grep -o 'handle [0-9]*' | awk '{print $2}' | while read -r h; do nft delete rule ip filter DOCKER-USER handle \"$h\" || true; done"@,
        "pkill -x phantun-server 2>/dev/null || true\npkill -x phantun-client 2>/dev/null || true\nfor _ in $(seq 1 20); do\npgrep -x phantun-server >/dev/null 2>&1 || pgrep -x phantun-client >/dev/null 2>&1 || break\nsleep 0.25\ndone"@,
    ]);
    out
}

/// The mark of a layer whose logs are bounded.
pub const PHANTUN_BOUNDED_LOG_MARKER: &'static str = "phantun.bounded-log-v2";

/// The mark that an earlier way of bounding left behind.
pub const PHANTUN_OLD_BOUNDED_LOG_MARKER: &'static str = "phantun.bounded-log-v1";

/// What convergence does about this layer.
#[derive(Debug, PartialEq, Eq)]
pub enum PhantunAction {
    /// Keep this plan, and start what it asks for.
    Apply { files: Vec<FileStep>, content: String },
    /// Take everything down, and keep the reason.
    Disable { files: Vec<FileStep> },
    /// Leave everything alone.
    Nothing,
}

/// What convergence does about this layer. The mark of a layer taken down comes last,
/// once nothing of it is left.
pub fn converge_linux_phantun(desired: &DesiredArtifact) -> (r: PhantunAction)
    ensures
        match *desired {
            DesiredArtifact::Present { content, .. } => r matches PhantunAction::Apply {
                files,
                content: kept,
            } && kept@ == content@ && converge::file_views(files@) == seq![
                (converge::FileView::Write { name: "phantun.json"@, content: content@ }),
                (converge::FileView::Remove { name: "phantun.disabled"@ }),
            ],
            DesiredArtifact::Disabled { reason } => r matches PhantunAction::Disable { files }
                && converge::file_views(files@) == seq![
                (converge::FileView::Remove { name: "phantun.json"@ }),
                (converge::FileView::Remove { name: PHANTUN_BOUNDED_LOG_MARKER@ }),
                (converge::FileView::Remove { name: PHANTUN_OLD_BOUNDED_LOG_MARKER@ }),
                (converge::FileView::Mark { name: "phantun.disabled"@, reason: reason@ }),
            ],
            DesiredArtifact::Unmanaged { .. } => r is Nothing,
        },
{
    let mut files: Vec<FileStep> = Vec::new();
    match desired {
        DesiredArtifact::Present { content, .. } => {
            let kept = content.as_str().to_owned();
            files.push(
                FileStep::Write {
                    name: "phantun.json".to_owned(),
                    content: content.as_str().to_owned(),
                },
            );
            files.push(FileStep::Remove { name: "phantun.disabled".to_owned() });
            assert(converge::file_views(files@) =~= seq![
                converge::FileView::Write { name: "phantun.json"@, content: content@ },
                converge::FileView::Remove { name: "phantun.disabled"@ },
            ]);
            PhantunAction::Apply { files, content: kept }
        },
        DesiredArtifact::Disabled { reason } => {
            files.push(FileStep::Remove { name: "phantun.json".to_owned() });
            files.push(FileStep::Remove { name: PHANTUN_BOUNDED_LOG_MARKER.to_owned() });
            files.push(FileStep::Remove { name: PHANTUN_OLD_BOUNDED_LOG_MARKER.to_owned() });
            files.push(
                FileStep::Mark {
                    name: "phantun.disabled".to_owned(),
                    reason: reason.as_str().to_owned(),
                },
            );
            assert(converge::file_views(files@) =~= seq![
                converge::FileView::Remove { name: "phantun.json"@ },
                converge::FileView::Remove { name: PHANTUN_BOUNDED_LOG_MARKER@ },
                converge::FileView::Remove { name: PHANTUN_OLD_BOUNDED_LOG_MARKER@ },
                converge::FileView::Mark { name: "phantun.disabled"@, reason: reason@ },
            ]);
            PhantunAction::Disable { files }
        },
        DesiredArtifact::Unmanaged { .. } => PhantunAction::Nothing,
    }
}

/// The names under which servers say whom they serve; one that does not say is left out.
pub open spec fn peers_named(servers: Seq<Json>) -> Seq<Seq<char>>
    decreases servers.len(),
{
    if servers.len() == 0 {
        seq![]
    } else {
        let before = peers_named(servers.drop_last());
        match servers.last().text_at("peer"@) {
            Some(name) => before.push(name),
            None => before,
        }
    }
}

/// The peers that come in through this machine's layer, by a plan's text. A plan that is
/// missing or cannot be read names none.
pub fn served_peers(content: Option<&str>) -> (r: Vec<String>)
    ensures
        text::string_views(r@) == (match content {
            Some(t) => match json::json_of(t@) {
                Ok(plan) => peers_named(servers_of(plan)),
                Err(_) => seq![],
            },
            None => seq![],
        }),
{
    let mut out: Vec<String> = Vec::new();
    assert(text::string_views(out@) =~= Seq::<Seq<char>>::empty());
    let content = match content {
        Some(t) => t,
        None => return out,
    };
    let plan = match parse_json(content) {
        Ok(plan) => plan,
        Err(_) => return out,
    };
    let servers = phantun_servers(&plan);
    let ghost all = values(servers@);
    let mut i: usize = 0;
    while i < servers.len()
        invariant
            i <= servers.len(),
            all == values(servers@),
            text::string_views(out@) == peers_named(all.take(i as int)),
        decreases servers.len() - i,
    {
        assert(all.take(i + 1).drop_last() == all.take(i as int));
        assert(all.take(i + 1).last() == *servers@[i as int]);
        match servers[i].text_of("peer") {
            Some(name) => {
                let ghost before = out@;
                out.push(name.to_owned());
                assert(text::string_views(out@) =~= text::string_views(before).push(name@));
            },
            None => {},
        }
        i = i + 1;
    }
    assert(all.take(i as int) == all);
    out
}

/// What was found of this layer on the machine.
pub struct PhantunFindings<'a> {
    /// The plan's text, where there is one.
    pub plan: Option<&'a str>,
    /// Whether the mark of a layer taken down is there.
    pub disabled: bool,
    /// Whether any of its processes runs.
    pub running: bool,
    /// Whether the mark of bounded logs is there.
    pub bounded_log: bool,
    /// The digest of the plan's file.
    pub digest: Result<&'a str, &'a str>,
}

/// Whether a plan's text asks for any process.
pub open spec fn wants(content: Seq<char>) -> bool {
    match json::json_of(content) {
        Ok(plan) => programs_of(plan).0 || programs_of(plan).1,
        Err(_) => false,
    }
}

/// The state of this layer. Marks that contradict each other tell nothing, and no mark
/// is not the mark of a layer taken down; a plan without its processes, or the
/// reverse, is not the state it claims to be.
pub open spec fn state_of(unmanaged: bool, f: PhantunFindings) -> plan::ArtifactView {
    if unmanaged {
        plan::ArtifactView::Unmanaged
    } else {
        match f.plan {
            Some(content) => if f.disabled {
                plan::ArtifactView::Dirty("phantun.json 和 phantun.disabled 同时存在"@)
            } else if wants(content@) && !f.running {
                plan::ArtifactView::Dirty("phantun.json 里有实例，但一个 phantun 进程都没跑"@)
            } else if !f.bounded_log {
                plan::ArtifactView::Dirty("phantun 仍在使用旧的无限日志"@)
            } else {
                plan::file_state(plan::seen(f.digest), "phantun.json"@)
            },
            None => if f.disabled {
                if f.running {
                    plan::ArtifactView::Dirty("phantun 已停用，但进程还在跑"@)
                } else {
                    plan::ArtifactView::Disabled
                }
            } else {
                plan::ArtifactView::Unknown
            },
        }
    }
}

/// The state of this layer, from what was found.
pub fn observe_linux_phantun(desired: &DesiredArtifact, found: &PhantunFindings) -> (r:
    AppliedArtifactState)
    ensures
        r@ == state_of(*desired is Unmanaged, *found),
{
    match desired {
        DesiredArtifact::Unmanaged { .. } => {
            return AppliedArtifactState::Unmanaged;
        },
        _ => {},
    }
    match found.plan {
        Some(content) => {
            if found.disabled {
                artifact_dirty("phantun.json 和 phantun.disabled 同时存在")
            } else if phantun_wanted(Some(content)) && !found.running {
                artifact_dirty("phantun.json 里有实例，但一个 phantun 进程都没跑")
            } else if !found.bounded_log {
                artifact_dirty("phantun 仍在使用旧的无限日志")
            } else {
                present_file_state(found.digest, "phantun.json")
            }
        },
        None => {
            if found.disabled {
                if found.running {
                    artifact_dirty("phantun 已停用，但进程还在跑")
                } else {
                    AppliedArtifactState::Disabled
                }
            } else {
                AppliedArtifactState::Unknown
            }
        },
    }
}

/// Whether a command line is that of a process: the program's name without its
/// directory, and every argument.
pub open spec fn line_matches(instance: InstanceView, argv: Seq<Seq<char>>) -> bool {
    argv.len() > 0 && paths::name_in(argv[0]) == Some(instance.program()) && argv.skip(1)
        == instance.args()
}

/// Whether a command line is that of a process.
pub fn command_line_matches(instance: &PhantunInstance, argv: &Vec<String>) -> (r: bool)
    ensures
        r == line_matches(instance@, text::string_views(argv@)),
{
    let ghost line = text::string_views(argv@);
    assert(line.len() == argv@.len());
    if argv.len() == 0 {
        return false;
    }
    assert(line[0] == argv@[0]@);
    match paths::file_name(argv[0].as_str()) {
        None => {
            return false;
        },
        Some(name) => {
            if !text::same_str(name.as_str(), instance.program()) {
                return false;
            }
        },
    }
    let args = instance.args();
    let ghost wanted = text::string_views(args@);
    assert(wanted.len() == args@.len());
    if argv.len() - 1 != args.len() {
        assert(line.skip(1).len() != wanted.len());
        return false;
    }
    let mut i: usize = 0;
    while i < args.len()
        invariant
            i <= args.len(),
            argv@.len() == args@.len() + 1,
            line == text::string_views(argv@),
            wanted == text::string_views(args@),
            forall|j: int| 0 <= j < i ==> #[trigger] line.skip(1)[j] == wanted[j],
            wanted == instance@.args(),
        decreases args.len() - i,
    {
        assert(line.skip(1)[i as int] == argv@[i + 1]@);
        assert(wanted[i as int] == args@[i as int]@);
        if !text::same_str(argv[i + 1].as_str(), args[i].as_str()) {
            return false;
        }
        i = i + 1;
    }
    assert(line.skip(1) =~= wanted);
    true
}

/// The end of the stretch without a zero that begins at `from`.
pub open spec fn stretch_end(data: Seq<u8>, from: int) -> int
    decreases data.len() - from,
{
    if from < 0 || from >= data.len() || data[from] == 0 {
        from
    } else {
        stretch_end(data, from + 1)
    }
}

/// The arguments in a command line as the kernel keeps it: a zero after each, and
/// empty ones left out.
pub open spec fn arguments(data: Seq<u8>, from: int) -> Seq<Seq<char>>
    decreases data.len() - from,
{
    if from < 0 || from >= data.len() {
        seq![]
    } else if data[from] == 0 {
        arguments(data, from + 1)
    } else {
        let end = stretch_end(data, from);
        if end <= from || end > data.len() {
            seq![]
        } else {
            seq![bytes::lossy(data.subrange(from, end))] + arguments(data, end)
        }
    }
}

/// The arguments in a command line as the kernel keeps it.
pub fn split_cmdline(data: &Vec<u8>) -> (r: Vec<String>)
    ensures
        text::string_views(r@) == arguments(data@, 0),
{
    let n: usize = data.len();
    let mut out: Vec<String> = Vec::new();
    let mut i: usize = 0;
    assert(text::string_views(out@) + arguments(data@, 0) =~= arguments(data@, 0));
    while i < n
        invariant
            i <= n,
            n == data@.len(),
            text::string_views(out@) + arguments(data@, i as int) == arguments(data@, 0),
        decreases n - i,
    {
        if data[i] == 0 {
            i = i + 1;
        } else {
            let start: usize = i;
            let mut end: usize = i;
            while end < n && data[end] != 0
                invariant
                    start <= end <= n,
                    n == data@.len(),
                    stretch_end(data@, start as int) == stretch_end(data@, end as int),
                decreases n - end,
            {
                end = end + 1;
            }
            let piece = vstd::slice::slice_subrange(data.as_slice(), start, end);
            let one = from_utf8_lossy(piece);
            let ghost before = text::string_views(out@);
            out.push(one);
            proof {
                assert(text::string_views(out@) == before.push(one@));
                assert(before + arguments(data@, start as int) =~= text::string_views(out@)
                    + arguments(data@, end as int));
            }
            i = end;
        }
    }
    assert(text::string_views(out@) + arguments(data@, i as int) =~= text::string_views(out@));
    out
}

/// Whether one of the first `n` command lines is that of a process.
pub open spec fn any_matches(instance: InstanceView, lines: Seq<Vec<u8>>, n: int) -> bool {
    exists|i: int|
        0 <= i < n && i < lines.len() && line_matches(instance, arguments((#[trigger] lines[i])@, 0))
}

/// Whether a process runs, from the command lines of all that do; unknown where they
/// could not be listed. One survivor does not stand for another.
pub fn phantun_instance_running(instance: &PhantunInstance, lines: Option<&Vec<Vec<u8>>>) -> (r:
    Option<bool>)
    ensures
        r == (match lines {
            Some(list) => Some(any_matches(instance@, list@, list@.len() as int)),
            None => None::<bool>,
        }),
{
    match lines {
        None => None,
        Some(list) => {
            let mut i: usize = 0;
            while i < list.len()
                invariant
                    i <= list.len(),
                    lines == Some(list),
                    !any_matches(instance@, list@, i as int),
                decreases list.len() - i,
            {
                let argv = split_cmdline(&list[i]);
                if command_line_matches(instance, &argv) {
                    assert(line_matches(instance@, arguments(list@[i as int]@, 0)));
                    return Some(true);
                }
                proof {
                    if any_matches(instance@, list@, i + 1) {
                        let k = choose|k: int|
                            0 <= k < i + 1 && k < list@.len() && line_matches(
                                instance@,
                                arguments((#[trigger] list@[k])@, 0),
                            );
                        assert(k < i);
                    }
                }
                i = i + 1;
            }
            Some(false)
        },
    }
}

/// A check of a running process: what to say where it failed, what to say where it
/// could not be made, and its result.
#[derive(Debug, PartialEq, Eq)]
pub struct RuntimeProbe {
    pub failed: String,
    pub unknown: String,
    pub result: Option<bool>,
}

/// A check, by its characters.
pub struct ProbeView {
    pub failed: Seq<char>,
    pub unknown: Seq<char>,
    pub result: Option<bool>,
}

impl View for RuntimeProbe {
    type V = ProbeView;

    open spec fn view(&self) -> ProbeView {
        ProbeView { failed: self.failed@, unknown: self.unknown@, result: self.result }
    }
}

/// Checks, by their characters.
pub open spec fn probe_views(list: Seq<RuntimeProbe>) -> Seq<ProbeView> {
    Seq::new(list.len(), |i: int| list[i]@)
}

/// The checks of a process: that it runs, that its device is there, and for a client
/// that it listens. A server has no ordinary socket to look for.
pub open spec fn probes_of(
    instance: InstanceView,
    running: Option<bool>,
    tun: Option<bool>,
    listening: Option<bool>,
) -> Seq<ProbeView> {
    let label = instance.label();
    let common = seq![
        ProbeView {
            failed: label + " 的进程没按计划运行"@,
            unknown: label + " 的进程状态无法检查"@,
            result: running,
        },
        ProbeView {
            failed: label + " 的 TUN "@ + instance.name + " 不存在"@,
            unknown: label + " 的 TUN "@ + instance.name + " 无法检查"@,
            result: tun,
        },
    ];
    match instance.kind {
        KindView::Server { .. } => common,
        KindView::Client { .. } => common.push(
            ProbeView {
                failed: label + " 没在监听"@,
                unknown: label + " 的监听状态无法检查"@,
                result: listening,
            },
        ),
    }
}

fn with(label: &str, what: &str) -> (r: String)
    ensures
        r@ == label@ + what@,
{
    let mut out = label.to_owned();
    out.append(what);
    out
}

fn about_tun(label: &str, name: &str, what: &str) -> (r: String)
    ensures
        r@ == label@ + " 的 TUN "@ + name@ + what@,
{
    let mut out = label.to_owned();
    out.append(" 的 TUN ");
    out.append(name);
    out.append(what);
    out
}

/// The checks of a process, with what each of them found.
pub fn phantun_runtime_probes(
    instance: &PhantunInstance,
    running: Option<bool>,
    tun: Option<bool>,
    listening: Option<bool>,
) -> (r: Vec<RuntimeProbe>)
    ensures
        probe_views(r@) == probes_of(instance@, running, tun, listening),
{
    let label = instance.label();
    let name = instance.tun.name.as_str();
    let mut out: Vec<RuntimeProbe> = Vec::new();
    out.push(
        RuntimeProbe {
            failed: with(label.as_str(), " 的进程没按计划运行"),
            unknown: with(label.as_str(), " 的进程状态无法检查"),
            result: running,
        },
    );
    out.push(
        RuntimeProbe {
            failed: about_tun(label.as_str(), name, " 不存在"),
            unknown: about_tun(label.as_str(), name, " 无法检查"),
            result: tun,
        },
    );
    match &instance.kind {
        PhantunInstanceKind::Server { .. } => {},
        PhantunInstanceKind::Client { .. } => {
            out.push(
                RuntimeProbe {
                    failed: with(label.as_str(), " 没在监听"),
                    unknown: with(label.as_str(), " 的监听状态无法检查"),
                    result: listening,
                },
            );
        },
    }
    assert(probe_views(out@) =~= probes_of(instance@, running, tun, listening));
    out
}

/// Whether any process of this layer runs.
pub fn phantun_running(server: bool, client: bool) -> (r: bool)
    ensures
        r == (server || client),
{
    server || client
}

/// Whether packets are forwarded.
pub open spec fn forwards(ip_forward: Option<Seq<char>>) -> bool {
    ip_forward matches Some(t) && text::trim(t) == "1"@
}

/// Whether what was set up beside the processes still stands: the table, forwarding,
/// and the rules in Docker's chain.
pub fn phantun_nat_intact(table: bool, ip_forward: Option<&str>, docker: bool) -> (r: bool)
    ensures
        r == (table && forwards(
            match ip_forward {
                Some(t) => Some(t@),
                None => None,
            },
        ) && docker),
{
    let forwarding = match ip_forward {
        Some(t) => {
            let chars = text::chars_of(t);
            text::same(text::trimmed(chars.as_slice()), "1")
        },
        None => false,
    };
    table && forwarding && docker
}

/// The script that succeeds where Docker's chain is missing or still holds the marked
/// rules.
pub fn docker_forward_still_allowed() -> (r: String)
    ensures
        r@
            == "nft list chain ip filter DOCKER-USER >/dev/null 2>&1 || exit 0\nnft list chain ip filter DOCKER-USER 2>/dev/null | grep -q 'comment \"brocade\"'"@,
        r@ == still_allowed_script(),
{
    "nft list chain ip filter DOCKER-USER >/dev/null 2>&1 || exit 0\nnft list chain ip filter DOCKER-USER 2>/dev/null | grep -q 'comment \"brocade\"'".to_owned()
}

/// A command line tells which of several processes it is: two that it matches have the same
/// program and the same arguments.
pub proof fn lemma_command_line_tells_processes_apart(
    a: InstanceView,
    b: InstanceView,
    argv: Seq<Seq<char>>,
)
    requires
        line_matches(a, argv),
        line_matches(b, argv),
    ensures
        a.program() == b.program(),
        a.args() == b.args(),
{
}

/// Whether a value is given for an option, and the option is given once.
pub open spec fn option_is(args: Seq<Seq<char>>, name: Seq<char>, value: Seq<char>) -> bool {
    exists|k: int|
        0 <= k && 2 * k + 1 < args.len() && #[trigger] args[2 * k] == name && args[2 * k + 1]
            == value && (forall|m: int|
            0 <= m && 2 * m + 1 < args.len() && m != k ==> #[trigger] args[2 * m] != name)
}

/// A server takes TCP at its port and hands it to a UDP port of this machine; a client takes
/// UDP at a port of this machine and sends it to the far end. Each is given its device by name,
/// with the machine's side and the other side of it.
pub proof fn lemma_process_is_told_its_ends(instance: InstanceView)
    ensures
        match instance.kind {
            KindView::Server { tcp_port, forward_to_udp_port } => {
                &&& instance.program() == "phantun-server"@
                &&& option_is(instance.args(), "--local"@, numbers::decimal(tcp_port as int))
                &&& option_is(
                    instance.args(),
                    "--remote"@,
                    "127.0.0.1:"@ + numbers::decimal(forward_to_udp_port as int),
                )
            },
            KindView::Client { listen_udp_port, remote_tcp_endpoint, .. } => {
                &&& instance.program() == "phantun-client"@
                &&& option_is(
                    instance.args(),
                    "--local"@,
                    "127.0.0.1:"@ + numbers::decimal(listen_udp_port as int),
                )
                &&& option_is(instance.args(), "--remote"@, remote_tcp_endpoint)
            },
        },
        option_is(instance.args(), "--tun"@, instance.name),
        option_is(instance.args(), "--tun-local"@, instance.local),
        option_is(instance.args(), "--tun-peer"@, instance.peer),
        instance.args().len() == 10,
{
    let args = instance.args();
    reveal_strlit("--local");
    reveal_strlit("--remote");
    reveal_strlit("--tun");
    reveal_strlit("--tun-local");
    reveal_strlit("--tun-peer");
    assert("--local"@.len() == 7 && "--remote"@.len() == 8 && "--tun"@.len() == 5
        && "--tun-local"@.len() == 11 && "--tun-peer"@.len() == 10);
    assert(args[2 * 0int] == "--local"@);
    assert(args[2 * 1int] == "--remote"@);
    assert(args[2 * 2int] == "--tun"@);
    assert(args[2 * 3int] == "--tun-local"@);
    assert(args[2 * 4int] == "--tun-peer"@);
}

/// The layer is told as present exactly where its plan stands without its mark, something of it
/// runs where the plan asks for anything, its logs are bounded and the plan's digest could be
/// taken; as taken down exactly where the mark stands alone and nothing runs; as unknown
/// exactly where neither stands.
pub proof fn lemma_layer_state_is_what_was_found(unmanaged: bool, f: PhantunFindings)
    ensures
        ({
            let state = state_of(unmanaged, f);
            &&& state is Unmanaged <==> unmanaged
            &&& !unmanaged ==> {
                &&& state is Present <==> f.plan is Some && !f.disabled && f.bounded_log
                    && f.digest is Ok && (wants(f.plan->0@) ==> f.running)
                &&& state is Present ==> f.digest->Ok_0@ == state->Present_0
                &&& state is Disabled <==> f.plan is None && f.disabled && !f.running
                &&& state is Unknown <==> f.plan is None && !f.disabled
            }
        }),
{
}

/// A process is looked at in each of its parts, and what was found of one is never said of
/// another: whether it runs, whether its device is there, and of a client whether it listens.
pub proof fn lemma_every_part_of_a_process_is_looked_at(
    instance: InstanceView,
    running: Option<bool>,
    tun: Option<bool>,
    listening: Option<bool>,
)
    ensures
        ({
            let probes = probes_of(instance, running, tun, listening);
            &&& probes.len() == (if instance.kind is Client {
                3int
            } else {
                2
            })
            &&& probes[0].result == running
            &&& probes[1].result == tun
            &&& instance.kind is Client ==> probes[2].result == listening
            &&& forall|i: int|
                0 <= i < probes.len() ==> text::starts_with(
                    (#[trigger] probes[i]).failed,
                    instance.label(),
                ) && text::starts_with(probes[i].unknown, instance.label())
        }),
{
    let probes = probes_of(instance, running, tun, listening);
    let label = instance.label();
    assert forall|i: int| 0 <= i < probes.len() implies text::starts_with(
        (#[trigger] probes[i]).failed,
        label,
    ) && text::starts_with(probes[i].unknown, label) by {
        assert(probes[i].failed.subrange(0, label.len() as int) =~= label);
        assert(probes[i].unknown.subrange(0, label.len() as int) =~= label);
    }
}

/// A server is what its entry says, and it is one exactly where everything is said.
pub proof fn lemma_server_is_what_its_entry_says(item: Json)
    ensures
        match server_of(item) {
            Ok(server) => match (server.kind, item.get_spec("tun"@)) {
                (KindView::Server { tcp_port, forward_to_udp_port }, Some(tun)) => {
                    &&& item.u64_at("tcp_port"@) == Some(tcp_port as u64)
                    &&& item.u64_at("forward_to_udp_port"@) == Some(forward_to_udp_port as u64)
                    &&& tun.text_at("name"@) == Some(server.name)
                    &&& tun.text_at("local"@) == Some(server.local)
                    &&& tun.text_at("peer"@) == Some(server.peer)
                },
                _ => false,
            },
            Err(_) => !{
                &&& item.u64_at("tcp_port"@) matches Some(a) && a <= u16::MAX
                &&& item.u64_at("forward_to_udp_port"@) matches Some(b) && b <= u16::MAX
                &&& item.get_spec("tun"@) matches Some(tun) && tun.text_at("name"@) is Some
                    && tun.text_at("local"@) is Some && tun.text_at("peer"@) is Some
            },
        },
{
}

/// A client is what its entry says, and it is one exactly where everything but its peer's name
/// is said.
pub proof fn lemma_client_is_what_its_entry_says(item: Json)
    ensures
        match client_of(item) {
            Ok(client) => match (client.kind, item.get_spec("tun"@)) {
                (KindView::Client { peer, listen_udp_port, remote_tcp_endpoint }, Some(tun)) => {
                    &&& item.u64_at("listen_udp_port"@) == Some(listen_udp_port as u64)
                    &&& item.text_at("remote_tcp_endpoint"@) == Some(remote_tcp_endpoint)
                    &&& item.text_at("peer"@) is Some ==> item.text_at("peer"@) == Some(peer)
                    &&& tun.text_at("name"@) == Some(client.name)
                    &&& tun.text_at("local"@) == Some(client.local)
                    &&& tun.text_at("peer"@) == Some(client.peer)
                },
                _ => false,
            },
            Err(_) => !{
                &&& item.u64_at("listen_udp_port"@) matches Some(a) && a <= u16::MAX
                &&& item.text_at("remote_tcp_endpoint"@) is Some
                &&& item.get_spec("tun"@) matches Some(tun) && tun.text_at("name"@) is Some
                    && tun.text_at("local"@) is Some && tun.text_at("peer"@) is Some
            },
        },
{
}

/// Every entry of a list is one process, in the order of the list, or the list is refused.
pub proof fn lemma_no_entry_is_passed_over(items: Seq<Json>, server: bool)
    ensures
        match gathered(items, server) {
            Ok(list) => list.len() == items.len() && forall|i: int|
                0 <= i < items.len() ==> (if server {
                    server_of(#[trigger] items[i])
                } else {
                    client_of(items[i])
                }) == Ok::<InstanceView, Seq<char>>(list[i]),
            Err(_) => exists|i: int|
                0 <= i < items.len() && (if server {
                    server_of(#[trigger] items[i])
                } else {
                    client_of(items[i])
                }) is Err,
        },
    decreases items.len(),
{
    if items.len() > 0 {
        let front = items.drop_last();
        lemma_no_entry_is_passed_over(front, server);
        assert forall|i: int| 0 <= i < front.len() implies front[i] == #[trigger] items[i] by {}
        assert(items.last() == items[items.len() - 1]);
        match gathered(front, server) {
            Err(_) => {
                let k = choose|i: int|
                    0 <= i < front.len() && (if server {
                        server_of(#[trigger] front[i])
                    } else {
                        client_of(front[i])
                    }) is Err;
                assert(front[k] == items[k]);
            },
            Ok(_) => {},
        }
    }
}

proof fn lemma_stretch_end(data: Seq<u8>, from: int, end: int)
    requires
        0 <= from <= end < data.len(),
        data[end] == 0,
        forall|j: int| from <= j < end ==> data[j] != 0,
    ensures
        stretch_end(data, from) == end,
    decreases end - from,
{
    if from < end {
        lemma_stretch_end(data, from + 1, end);
    }
}

proof fn lemma_stretch_end_moves(data: Seq<u8>, by: int, from: int)
    requires
        0 <= by,
        0 <= from,
        by + from <= data.len(),
    ensures
        stretch_end(data, by + from) == by + stretch_end(data.skip(by), from),
    decreases data.len() - by - from,
{
    if by + from < data.len() {
        assert(data.skip(by)[from] == data[by + from]);
        if data[by + from] != 0 {
            lemma_stretch_end_moves(data, by, from + 1);
        }
    }
}

proof fn lemma_arguments_move(data: Seq<u8>, by: int, from: int)
    requires
        0 <= by,
        0 <= from,
        by + from <= data.len(),
    ensures
        arguments(data, by + from) == arguments(data.skip(by), from),
    decreases data.len() - by - from,
{
    let rest = data.skip(by);
    if by + from < data.len() {
        assert(rest[from] == data[by + from]);
        if data[by + from] == 0 {
            lemma_arguments_move(data, by, from + 1);
        } else {
            lemma_stretch_end_moves(data, by, from);
            let end = stretch_end(rest, from);
            if end > from && end <= rest.len() {
                assert(data.subrange(by + from, by + end) =~= rest.subrange(from, end));
                lemma_arguments_move(data, by, end);
            }
        }
    }
}

/// The arguments of a process are what stands between the zeros of its command line, in their
/// order.
pub proof fn lemma_arguments_stand_between_zeros(first: Seq<u8>, rest: Seq<u8>)
    requires
        first.len() > 0,
        !first.contains(0u8),
    ensures
        arguments(first + seq![0u8] + rest, 0) == seq![bytes::lossy(first)] + arguments(rest, 0),
{
    let data = first + seq![0u8] + rest;
    let end = first.len() as int;
    assert forall|j: int| 0 <= j < end implies #[trigger] data[j] != 0 by {
        assert(data[j] == first[j]);
        assert(first.contains(first[j]));
    }
    assert(data[end] == 0);
    lemma_stretch_end(data, 0, end);
    assert(data.subrange(0, end) =~= first);
    assert(data.skip(end + 1) =~= rest);
    lemma_arguments_move(data, end + 1, 0);
    assert(arguments(data, end) == arguments(data, end + 1));
}

} // verus!
