//! The accounts that the proxy lets in: what they should be, what they are, and what is
//! done to get from one to the other.
use vstd::prelude::*;
use vstd::string::*;

use crate::json::Json;
use crate::order::TextMap;
use crate::plan::{GrantClient, GrantInbound, ObservedClient, ObservedInbound};
use crate::xray::xray_inbound_by_tag;
use crate::{json, numbers, order, plan, text, xray};

verus! {

/// How accounts are written to the proxy.
#[derive(Debug, Clone, Copy, PartialEq, Eq, Structural)]
pub enum GrantWriteBackendChoice {
    Grpc,
    Cli,
}

/// How accounts are written, from the setting: natively unless the command line tool
/// is asked for by name.
pub fn grant_write_backend_choice(value: Option<&str>) -> (r: Result<
    GrantWriteBackendChoice,
    String,
>)
    ensures
        ({
            let name = match value {
                Some(v) => text::trim(v@),
                None => ""@,
            };
            match r {
                Ok(GrantWriteBackendChoice::Grpc) => name.len() == 0 || name == "grpc"@,
                Ok(GrantWriteBackendChoice::Cli) => name == "cli"@,
                Err(e) => name.len() > 0 && name != "grpc"@ && name != "cli"@ && e@
                    == "unknown BROCADE_XRAY_GRANT_BACKEND "@ + name + "; expected grpc or cli"@,
            }
        }),
{
    proof {
        reveal_strlit("");
    }
    let value = match value {
        Some(value) => value,
        None => {
            return Ok(GrantWriteBackendChoice::Grpc);
        },
    };
    let chars = text::chars_of(value);
    let name = text::trimmed(chars.as_slice());
    if name.len() == 0 || text::same(name, "grpc") {
        Ok(GrantWriteBackendChoice::Grpc)
    } else if text::same(name, "cli") {
        Ok(GrantWriteBackendChoice::Cli)
    } else {
        let mut out = "unknown BROCADE_XRAY_GRANT_BACKEND ".to_owned();
        out.append(text::string_of(name).as_str());
        out.append("; expected grpc or cli");
        Err(out)
    }
}

/// What an inbound speaks.
#[derive(Debug, Clone, Copy, PartialEq, Eq, Structural)]
pub enum GrantProtocol {
    Vless,
    Hysteria2,
    AnyTls,
}

/// What an inbound speaks, where accounts can be added to it.
pub open spec fn protocol_of(inbound: Json, tag: Seq<char>) -> Result<GrantProtocol, Seq<char>> {
    match inbound.text_at("protocol"@) {
        Some(name) => if name == "vless"@ {
            Ok(GrantProtocol::Vless)
        } else if name == "hysteria"@ {
            Ok(GrantProtocol::Hysteria2)
        } else if name == "anytls"@ {
            Ok(GrantProtocol::AnyTls)
        } else {
            Err(
                "xray inbound "@ + tag + " protocol "@ + name
                    + " does not support dynamic grants"@,
            )
        },
        None => Err("xray inbound "@ + tag + " is missing protocol"@),
    }
}

/// What an inbound speaks.
pub fn grant_protocol(inbound: &Json, tag: &str) -> (r: Result<GrantProtocol, String>)
    ensures
        match r {
            Ok(p) => protocol_of(*inbound, tag@) == Ok::<GrantProtocol, Seq<char>>(p),
            Err(e) => protocol_of(*inbound, tag@) == Err::<GrantProtocol, Seq<char>>(e@),
        },
{
    match inbound.text_of("protocol") {
        Some(name) => if text::same_str(name, "vless") {
            Ok(GrantProtocol::Vless)
        } else if text::same_str(name, "hysteria") {
            Ok(GrantProtocol::Hysteria2)
        } else if text::same_str(name, "anytls") {
            Ok(GrantProtocol::AnyTls)
        } else {
            let mut out = "xray inbound ".to_owned();
            out.append(tag);
            out.append(" protocol ");
            out.append(name);
            out.append(" does not support dynamic grants");
            Err(out)
        },
        None => {
            let mut out = "xray inbound ".to_owned();
            out.append(tag);
            out.append(" is missing protocol");
            Err(out)
        },
    }
}

/// What a way of writing accounts says of a protocol: the command line tool can only
/// write one.
pub open spec fn backend_refuses(
    backend: GrantWriteBackendChoice,
    protocol: GrantProtocol,
) -> Option<Seq<char>> {
    match (backend, protocol) {
        (GrantWriteBackendChoice::Cli, GrantProtocol::Hysteria2) => Some(
            "deprecated xray CLI grant backend cannot add Hysteria 2 users; use native gRPC"@,
        ),
        (GrantWriteBackendChoice::Cli, GrantProtocol::AnyTls) => Some(
            "deprecated xray CLI grant backend cannot add AnyTLS users; use native gRPC"@,
        ),
        _ => None,
    }
}

impl GrantWriteBackendChoice {
    /// Whether accounts of a protocol can be written this way.
    pub fn validate_protocol(&self, protocol: GrantProtocol) -> (r: Result<(), String>)
        ensures
            match r {
                Ok(()) => backend_refuses(*self, protocol) is None,
                Err(e) => backend_refuses(*self, protocol) == Some(e@),
            },
    {
        match (*self, protocol) {
            (GrantWriteBackendChoice::Cli, GrantProtocol::Hysteria2) => Err(
                "deprecated xray CLI grant backend cannot add Hysteria 2 users; use native gRPC".to_owned(),
            ),
            (GrantWriteBackendChoice::Cli, GrantProtocol::AnyTls) => Err(
                "deprecated xray CLI grant backend cannot add AnyTLS users; use native gRPC".to_owned(),
            ),
            _ => Ok(()),
        }
    }
}

/// What is settled of an inbound before any of its accounts is looked at, so that a
/// setting that cannot be met removes nobody.
pub open spec fn accepted_inbound(
    config: Json,
    tag: Seq<char>,
    backend: GrantWriteBackendChoice,
) -> Result<GrantProtocol, Seq<char>> {
    match xray::inbound_by_tag(config, tag) {
        None => Err("xray config does not contain inbound tag "@ + tag),
        Some(inbound) => match protocol_of(inbound, tag) {
            Err(e) => Err(e),
            Ok(protocol) => match backend_refuses(backend, protocol) {
                Some(e) => Err(e),
                None => Ok(protocol),
            },
        },
    }
}

/// What is settled of an inbound before any of its accounts is looked at.
pub fn accept_inbound(config: &Json, tag: &str, backend: GrantWriteBackendChoice) -> (r: Result<
    GrantProtocol,
    String,
>)
    ensures
        match r {
            Ok(p) => accepted_inbound(*config, tag@, backend) == Ok::<GrantProtocol, Seq<char>>(p),
            Err(e) => accepted_inbound(*config, tag@, backend) == Err::<GrantProtocol, Seq<char>>(
                e@,
            ),
        },
{
    let inbound = match xray_inbound_by_tag(config, tag) {
        Ok(inbound) => inbound,
        Err(e) => {
            return Err(e);
        },
    };
    let protocol = match grant_protocol(inbound, tag) {
        Ok(protocol) => protocol,
        Err(e) => {
            return Err(e);
        },
    };
    match backend.validate_protocol(protocol) {
        Ok(()) => Ok(protocol),
        Err(e) => Err(e),
    }
}

/// The secret of an account as its protocol has it.
#[derive(Debug, PartialEq, Eq)]
pub enum GrantAccount {
    Vless { id: String, flow: Option<String> },
    Hysteria2 { auth: String },
    AnyTls { password: String },
}

/// The secret of an account, by its characters.
pub enum AccountView {
    Vless { id: Seq<char>, flow: Option<Seq<char>> },
    Hysteria2 { auth: Seq<char> },
    AnyTls { password: Seq<char> },
}

impl View for GrantAccount {
    type V = AccountView;

    open spec fn view(&self) -> AccountView {
        match *self {
            GrantAccount::Vless { id, flow } => AccountView::Vless {
                id: id@,
                flow: text::optional(flow),
            },
            GrantAccount::Hysteria2 { auth } => AccountView::Hysteria2 { auth: auth@ },
            GrantAccount::AnyTls { password } => AccountView::AnyTls { password: password@ },
        }
    }
}

/// An account that is added to an inbound.
#[derive(Debug, PartialEq, Eq)]
pub struct GrantAddition {
    pub tag: String,
    pub email: String,
    pub level: u8,
    pub account: GrantAccount,
}

/// An account that is added to an inbound, by its characters.
pub struct AdditionView {
    pub tag: Seq<char>,
    pub email: Seq<char>,
    pub level: u8,
    pub account: AccountView,
}

impl View for GrantAddition {
    type V = AdditionView;

    open spec fn view(&self) -> AdditionView {
        AdditionView {
            tag: self.tag@,
            email: self.email@,
            level: self.level,
            account: self.account@,
        }
    }
}

pub open spec fn addition_views(additions: Seq<GrantAddition>) -> Seq<AdditionView> {
    Seq::new(additions.len(), |i: int| additions[i]@)
}

/// The account that a client is added as.
pub open spec fn addition_of(
    protocol: GrantProtocol,
    tag: Seq<char>,
    client: plan::ClientView,
) -> AdditionView {
    AdditionView {
        tag,
        email: client.email,
        level: client.level,
        account: match protocol {
            GrantProtocol::Vless => AccountView::Vless { id: client.uuid, flow: client.flow },
            GrantProtocol::Hysteria2 => AccountView::Hysteria2 { auth: client.uuid },
            GrantProtocol::AnyTls => AccountView::AnyTls { password: client.uuid },
        },
    }
}

/// The name under which a protocol's configuration holds the secret.
pub open spec fn secret_name(protocol: GrantProtocol) -> Seq<char> {
    match protocol {
        GrantProtocol::Vless => "id"@,
        GrantProtocol::Hysteria2 => "auth"@,
        GrantProtocol::AnyTls => "password"@,
    }
}

/// Whether a value is the object that a configuration holds of a client: its email,
/// its level, its secret, and its flow where the protocol has one and it does.
pub open spec fn describes_client(
    value: Json,
    protocol: GrantProtocol,
    client: plan::ClientView,
) -> bool {
    let flow = if protocol == GrantProtocol::Vless {
        client.flow
    } else {
        None
    };
    &&& value matches Json::Object(fields)
    &&& fields@.len() == 3 + (if flow is Some {
        1int
    } else {
        0
    })
    &&& fields@[0].0@ == "email"@ && fields@[0].1.text_spec() == Some(client.email)
    &&& fields@[1].0@ == "level"@ && fields@[1].1.tree() == (json::Tree::Number {
        value: Some(client.level as u64),
        text: numbers::decimal(client.level as int),
    })
    &&& fields@[2].0@ == secret_name(protocol) && fields@[2].1.text_spec() == Some(client.uuid)
    &&& flow is Some ==> fields@[3].0@ == "flow"@ && fields@[3].1.text_spec() == flow
}

/// The account that a client is added as: as a configuration holds it, and as the
/// proxy's own interface takes it.
pub fn grant_addition(protocol: GrantProtocol, tag: &str, client: &GrantClient) -> (r: (
    Json,
    GrantAddition,
))
    ensures
        describes_client(r.0, protocol, client@),
        r.1@ == addition_of(protocol, tag@, client@),
{
    let mut fields: Vec<(String, Json)> = Vec::new();
    fields.push(("email".to_owned(), Json::Text(client.email.as_str().to_owned())));
    fields.push(("level".to_owned(), json::unsigned(client.level as u64)));
    let account = match protocol {
        GrantProtocol::Vless => {
            fields.push(("id".to_owned(), Json::Text(client.uuid.as_str().to_owned())));
            let flow = match &client.flow {
                Some(flow) => {
                    fields.push(("flow".to_owned(), Json::Text(flow.as_str().to_owned())));
                    Some(flow.as_str().to_owned())
                },
                None => None,
            };
            GrantAccount::Vless { id: client.uuid.as_str().to_owned(), flow }
        },
        GrantProtocol::Hysteria2 => {
            fields.push(("auth".to_owned(), Json::Text(client.uuid.as_str().to_owned())));
            GrantAccount::Hysteria2 { auth: client.uuid.as_str().to_owned() }
        },
        GrantProtocol::AnyTls => {
            fields.push(("password".to_owned(), Json::Text(client.uuid.as_str().to_owned())));
            GrantAccount::AnyTls { password: client.uuid.as_str().to_owned() }
        },
    };
    (
        Json::Object(fields),
        GrantAddition {
            tag: tag.to_owned(),
            email: client.email.as_str().to_owned(),
            level: client.level,
            account,
        },
    )
}

/// What an account is known by: its secret and its flow.
pub struct Credential {
    pub uuid: Seq<char>,
    pub flow: Option<Seq<char>>,
}

/// What a client is known by under a protocol: only one has a flow.
pub open spec fn wanted_credential(protocol: GrantProtocol, client: plan::ClientView) -> Credential {
    Credential {
        uuid: client.uuid,
        flow: if protocol == GrantProtocol::Vless {
            client.flow
        } else {
            None
        },
    }
}

/// The accounts that clients ask for, by email; of two with one email, the later.
pub open spec fn wanted_accounts(protocol: GrantProtocol, clients: Seq<plan::ClientView>) -> Map<
    Seq<char>,
    Credential,
>
    decreases clients.len(),
{
    if clients.len() == 0 {
        Map::empty()
    } else {
        wanted_accounts(protocol, clients.drop_last()).insert(
            clients.last().email,
            wanted_credential(protocol, clients.last()),
        )
    }
}

/// The accounts that were found, by email; of two with one email, the later.
pub open spec fn live_accounts(live: Seq<plan::ObservedView>) -> Map<Seq<char>, Credential>
    decreases live.len(),
{
    if live.len() == 0 {
        Map::empty()
    } else {
        live_accounts(live.drop_last()).insert(
            live.last().email,
            Credential { uuid: live.last().uuid, flow: live.last().flow },
        )
    }
}

/// Whether an account of one email is the same in both.
pub open spec fn agrees(
    email: Seq<char>,
    a: Map<Seq<char>, Credential>,
    b: Map<Seq<char>, Credential>,
) -> bool {
    a.dom().contains(email) && b.dom().contains(email) && a[email] == b[email]
}

/// The clients that have to be added: those that are not let in as they should be, in
/// their order.
pub open spec fn missing(
    protocol: GrantProtocol,
    tag: Seq<char>,
    clients: Seq<plan::ClientView>,
    live: Map<Seq<char>, Credential>,
) -> Seq<AdditionView>
    decreases clients.len(),
{
    if clients.len() == 0 {
        seq![]
    } else {
        let front = missing(protocol, tag, clients.drop_last(), live);
        let client = clients.last();
        if live.dom().contains(client.email) && live[client.email] == wanted_credential(
            protocol,
            client,
        ) {
            front
        } else {
            front.push(addition_of(protocol, tag, client))
        }
    }
}

/// What is done to the accounts of an inbound.
#[derive(Debug, PartialEq, Eq)]
pub struct InboundPlan {
    /// The emails whose accounts are removed, in their order.
    pub removals: Vec<String>,
    /// The accounts that are then added, in the order they were asked for.
    pub additions: Vec<GrantAddition>,
    /// The same accounts as a configuration holds them.
    pub clients: Vec<Json>,
}

type Held = (String, Option<String>);

/// Held accounts by their characters.
spec fn held(m: Map<Seq<char>, Held>) -> Map<Seq<char>, Credential> {
    Map::new(
        |k: Seq<char>| m.dom().contains(k),
        |k: Seq<char>| Credential { uuid: m[k].0@, flow: text::optional(m[k].1) },
    )
}

proof fn lemma_held_insert(m: Map<Seq<char>, Held>, key: Seq<char>, value: Held)
    ensures
        held(m.insert(key, value)) == held(m).insert(
            key,
            Credential { uuid: value.0@, flow: text::optional(value.1) },
        ),
{
    assert(held(m.insert(key, value)) =~= held(m).insert(
        key,
        Credential { uuid: value.0@, flow: text::optional(value.1) },
    ));
}

fn copied(s: &Option<String>) -> (r: Option<String>)
    ensures
        text::optional(r) == text::optional(*s),
{
    match s {
        Some(t) => Some(t.as_str().to_owned()),
        None => None,
    }
}

fn same_flow(a: &Option<String>, b: &Option<String>) -> (r: bool)
    ensures
        r == (text::optional(*a) == text::optional(*b)),
{
    match (a, b) {
        (Some(x), Some(y)) => text::same_str(x.as_str(), y.as_str()),
        (None, None) => true,
        _ => false,
    }
}

fn flow_under(protocol: GrantProtocol, client: &GrantClient) -> (r: Option<String>)
    ensures
        text::optional(r) == wanted_credential(protocol, client@).flow,
{
    match protocol {
        GrantProtocol::Vless => copied(&client.flow),
        _ => None,
    }
}

fn gather_wanted(protocol: GrantProtocol, clients: &Vec<GrantClient>) -> (r: TextMap<Held>)
    ensures
        r.wf(),
        held(r@) == wanted_accounts(protocol, plan::client_views(clients@)),
{
    let ghost all = plan::client_views(clients@);
    assert(all.len() == clients@.len());
    let mut out: TextMap<Held> = TextMap::new();
    let mut i: usize = 0;
    assert(held(out@) =~= wanted_accounts(protocol, all.take(0)));
    while i < clients.len()
        invariant
            i <= clients@.len(),
            all == plan::client_views(clients@),
            all.len() == clients@.len(),
            out.wf(),
            held(out@) == wanted_accounts(protocol, all.take(i as int)),
        decreases clients.len() - i,
    {
        assert(all[i as int] == clients@[i as int]@);
        assert(all.take(i + 1).drop_last() == all.take(i as int));
        assert(all.take(i + 1).last() == all[i as int]);
        let client = &clients[i];
        let key = client.email.as_str().to_owned();
        let value: Held = (client.uuid.as_str().to_owned(), flow_under(protocol, client));
        proof {
            lemma_held_insert(out@, key@, value);
        }
        out.insert(key, value);
        i = i + 1;
    }
    assert(all.take(i as int) == all);
    out
}

fn gather_live(live: &Vec<ObservedClient>) -> (r: TextMap<Held>)
    ensures
        r.wf(),
        held(r@) == live_accounts(plan::observed_views(live@)),
{
    let ghost all = plan::observed_views(live@);
    assert(all.len() == live@.len());
    let mut out: TextMap<Held> = TextMap::new();
    let mut i: usize = 0;
    assert(held(out@) =~= live_accounts(all.take(0)));
    while i < live.len()
        invariant
            i <= live@.len(),
            all == plan::observed_views(live@),
            all.len() == live@.len(),
            out.wf(),
            held(out@) == live_accounts(all.take(i as int)),
        decreases live.len() - i,
    {
        assert(all[i as int] == live@[i as int]@);
        assert(all.take(i + 1).drop_last() == all.take(i as int));
        assert(all.take(i + 1).last() == all[i as int]);
        let client = &live[i];
        let key = client.email.as_str().to_owned();
        let value: Held = (client.uuid.as_str().to_owned(), copied(&client.flow));
        proof {
            lemma_held_insert(out@, key@, value);
        }
        out.insert(key, value);
        i = i + 1;
    }
    assert(all.take(i as int) == all);
    out
}

/// Whether emails stand in ascending order, each once.
pub open spec fn ascending_emails(emails: Seq<Seq<char>>) -> bool {
    forall|i: int, j: int|
        0 <= i < j < emails.len() ==> order::before(#[trigger] emails[i], #[trigger] emails[j])
}

/// Whether emails are those of the accounts that are found and not asked for as they
/// are, in ascending order.
pub open spec fn are_removals(
    emails: Seq<Seq<char>>,
    live: Map<Seq<char>, Credential>,
    wanted: Map<Seq<char>, Credential>,
) -> bool {
    &&& ascending_emails(emails)
    &&& forall|email: Seq<char>| #[trigger]
        emails.contains(email) <==> live.dom().contains(email) && !agrees(email, live, wanted)
}

fn list_removals(live: &TextMap<Held>, wanted: &TextMap<Held>) -> (r: Vec<String>)
    requires
        live.wf(),
        wanted.wf(),
    ensures
        are_removals(text::string_views(r@), held(live@), held(wanted@)),
{
    let ghost a = held(live@);
    let ghost b = held(wanted@);
    let mut out: Vec<String> = Vec::new();
    let mut i: usize = 0;
    while i < live.entries.len()
        invariant
            i <= live.entries@.len(),
            live.wf(),
            wanted.wf(),
            a == held(live@),
            b == held(wanted@),
            ascending_emails(text::string_views(out@)),
            forall|k: int|
                0 <= k < out@.len() ==> exists|j: int|
                    0 <= j < i && (#[trigger] live.entries@[j]).0@ == (#[trigger] out@[k])@
                        && !agrees(out@[k]@, a, b),
            forall|j: int|
                0 <= j < i && !agrees((#[trigger] live.entries@[j]).0@, a, b)
                    ==> text::string_views(out@).contains(live.entries@[j].0@),
        decreases live.entries.len() - i,
    {
        let ghost email = live.entries@[i as int].0@;
        proof {
            live.lemma_entry(i as int);
            assert(a.dom().contains(email));
            assert(a[email] == Credential {
                uuid: live.entries@[i as int].1.0@,
                flow: text::optional(live.entries@[i as int].1.1),
            });
        }
        let kept = match wanted.get(live.entries[i].0.as_str()) {
            Some(value) => text::same_str(value.0.as_str(), live.entries[i].1.0.as_str())
                && same_flow(&value.1, &live.entries[i].1.1),
            None => false,
        };
        assert(kept == agrees(email, a, b));
        if !kept {
            let ghost before = out@;
            out.push(live.entries[i].0.as_str().to_owned());
            proof {
                let views = text::string_views(out@);
                assert(views.len() == out@.len());
                assert(text::string_views(before).len() == before.len());
                assert(views == text::string_views(before).push(email));
                assert forall|p: int, q: int| 0 <= p < q < views.len() implies order::before(
                    #[trigger] views[p],
                    #[trigger] views[q],
                ) by {
                    assert(views[p] == text::string_views(before)[p]);
                    if q < before.len() {
                        assert(views[q] == text::string_views(before)[q]);
                    } else {
                        assert(views[p] == before[p]@);
                        let j = choose|j: int|
                            0 <= j < i && (#[trigger] live.entries@[j]).0@ == before[p]@;
                        assert(order::before(live.entries@[j].0@, live.entries@[i as int].0@));
                    }
                }
                assert forall|k: int| 0 <= k < out@.len() implies exists|j: int|
                    0 <= j < i + 1 && (#[trigger] live.entries@[j]).0@ == (#[trigger] out@[k])@
                        && !agrees(out@[k]@, a, b) by {
                    if k < before.len() {
                        assert(out@[k] == before[k]);
                        let j = choose|j: int|
                            0 <= j < i && (#[trigger] live.entries@[j]).0@ == before[k]@ && !agrees(
                                before[k]@,
                                a,
                                b,
                            );
                        assert(live.entries@[j].0@ == out@[k]@);
                    } else {
                        assert(live.entries@[i as int].0@ == out@[k]@);
                    }
                }
                assert forall|j: int|
                    0 <= j < i + 1 && !agrees(
                        (#[trigger] live.entries@[j]).0@,
                        a,
                        b,
                    ) implies views.contains(live.entries@[j].0@) by {
                    if j < i {
                        let p = text::string_views(before).index_of(live.entries@[j].0@);
                        assert(views[p] == live.entries@[j].0@);
                    } else {
                        assert(views[views.len() - 1] == email);
                    }
                }
            }
        }
        i = i + 1;
    }
    proof {
        let views = text::string_views(out@);
        assert(views.len() == out@.len());
        assert forall|email: Seq<char>| #[trigger]
            views.contains(email) <==> a.dom().contains(email) && !agrees(email, a, b) by {
            if views.contains(email) {
                let p = views.index_of(email);
                assert(out@[p]@ == email);
                let j = choose|j: int|
                    0 <= j < i && (#[trigger] live.entries@[j]).0@ == out@[p]@ && !agrees(
                        out@[p]@,
                        a,
                        b,
                    );
                live.lemma_entry(j);
            }
            if a.dom().contains(email) && !agrees(email, a, b) {
                assert(live@.dom().contains(email));
                assert(order::has_key(live.entries@, email));
                let j = order::key_position(live.entries@, email);
                assert(live.entries@[j].0@ == email);
            }
        }
    }
    out
}

/// Whether values are the objects that a configuration holds of the missing clients.
pub open spec fn describe_missing(
    values: Seq<Json>,
    protocol: GrantProtocol,
    clients: Seq<plan::ClientView>,
    live: Map<Seq<char>, Credential>,
) -> bool
    decreases clients.len(),
{
    if clients.len() == 0 {
        values.len() == 0
    } else {
        let client = clients.last();
        if live.dom().contains(client.email) && live[client.email] == wanted_credential(
            protocol,
            client,
        ) {
            describe_missing(values, protocol, clients.drop_last(), live)
        } else {
            values.len() > 0 && describes_client(values.last(), protocol, client)
                && describe_missing(values.drop_last(), protocol, clients.drop_last(), live)
        }
    }
}

/// What is done to the accounts of an inbound, from those it should let in and those
/// it does. An account that changed is removed and added again.
pub fn plan_inbound(
    protocol: GrantProtocol,
    inbound: &GrantInbound,
    actual: &Vec<ObservedClient>,
) -> (r: InboundPlan)
    ensures
        ({
            let clients = plan::client_views(inbound.clients@);
            let live = live_accounts(plan::observed_views(actual@));
            &&& are_removals(
                text::string_views(r.removals@),
                live,
                wanted_accounts(protocol, clients),
            )
            &&& addition_views(r.additions@) == missing(protocol, inbound.tag@, clients, live)
            &&& describe_missing(r.clients@, protocol, clients, live)
        }),
{
    let wanted = gather_wanted(protocol, &inbound.clients);
    let found = gather_live(actual);
    let removals = list_removals(&found, &wanted);
    let ghost live = live_accounts(plan::observed_views(actual@));
    let ghost all = plan::client_views(inbound.clients@);
    assert(all.len() == inbound.clients@.len());
    let mut additions: Vec<GrantAddition> = Vec::new();
    let mut values: Vec<Json> = Vec::new();
    let mut i: usize = 0;
    assert(addition_views(additions@) == missing(protocol, inbound.tag@, all.take(0), live));
    while i < inbound.clients.len()
        invariant
            i <= inbound.clients@.len(),
            all == plan::client_views(inbound.clients@),
            all.len() == inbound.clients@.len(),
            found.wf(),
            live == held(found@),
            addition_views(additions@) == missing(
                protocol,
                inbound.tag@,
                all.take(i as int),
                live,
            ),
            describe_missing(values@, protocol, all.take(i as int), live),
        decreases inbound.clients.len() - i,
    {
        assert(all[i as int] == inbound.clients@[i as int]@);
        assert(all.take(i + 1).drop_last() == all.take(i as int));
        assert(all.take(i + 1).last() == all[i as int]);
        let client = &inbound.clients[i];
        let flow = flow_under(protocol, client);
        let present = match found.get(client.email.as_str()) {
            Some(value) => text::same_str(value.0.as_str(), client.uuid.as_str()) && same_flow(
                &value.1,
                &flow,
            ),
            None => false,
        };
        if !present {
            let (value, addition) = grant_addition(protocol, inbound.tag.as_str(), client);
            let ghost before = additions@;
            let ghost values_before = values@;
            additions.push(addition);
            values.push(value);
            assert(addition_views(additions@) == addition_views(before).push(addition@));
            assert(values@.drop_last() == values_before);
        }
        i = i + 1;
    }
    assert(all.take(i as int) == all);
    InboundPlan { removals, additions, clients: values }
}

/// The accounts that are left once some are removed.
pub open spec fn without_emails(
    accounts: Map<Seq<char>, Credential>,
    emails: Seq<Seq<char>>,
) -> Map<Seq<char>, Credential>
    decreases emails.len(),
{
    if emails.len() == 0 {
        accounts
    } else {
        without_emails(accounts, emails.drop_last()).remove(emails.last())
    }
}

/// What an added account is known by.
pub open spec fn added_credential(addition: AdditionView) -> Credential {
    match addition.account {
        AccountView::Vless { id, flow } => Credential { uuid: id, flow },
        AccountView::Hysteria2 { auth } => Credential { uuid: auth, flow: None },
        AccountView::AnyTls { password } => Credential { uuid: password, flow: None },
    }
}

/// The accounts that are there once some are added.
pub open spec fn with_additions(
    accounts: Map<Seq<char>, Credential>,
    additions: Seq<AdditionView>,
) -> Map<Seq<char>, Credential>
    decreases additions.len(),
{
    if additions.len() == 0 {
        accounts
    } else {
        with_additions(accounts, additions.drop_last()).insert(
            additions.last().email,
            added_credential(additions.last()),
        )
    }
}

/// Whether no two clients have one email.
pub open spec fn distinct_emails(clients: Seq<plan::ClientView>) -> bool {
    forall|i: int, j: int|
        0 <= i < j < clients.len() ==> (#[trigger] clients[i]).email != (
        #[trigger] clients[j]).email
}

proof fn lemma_without(accounts: Map<Seq<char>, Credential>, emails: Seq<Seq<char>>)
    ensures
        forall|k: Seq<char>| #[trigger]
            without_emails(accounts, emails).dom().contains(k) <==> accounts.dom().contains(k)
                && !emails.contains(k),
        forall|k: Seq<char>|
            without_emails(accounts, emails).dom().contains(k) ==> (#[trigger] without_emails(
                accounts,
                emails,
            )[k]) == accounts[k],
    decreases emails.len(),
{
    if emails.len() > 0 {
        lemma_without(accounts, emails.drop_last());
        let front = without_emails(accounts, emails.drop_last());
        assert forall|k: Seq<char>| #[trigger]
            without_emails(accounts, emails).dom().contains(k) <==> accounts.dom().contains(k)
                && !emails.contains(k) by {
            assert(front.dom().contains(k) <==> accounts.dom().contains(k)
                && !emails.drop_last().contains(k));
            if emails.contains(k) {
                let p = emails.index_of(k);
                if p < emails.len() - 1 {
                    assert(emails.drop_last()[p] == k);
                }
            }
            if emails.drop_last().contains(k) {
                let p = emails.drop_last().index_of(k);
                assert(emails[p] == k);
            }
            if k == emails.last() {
                assert(emails[emails.len() - 1] == k);
            }
        }
        assert forall|k: Seq<char>|
            without_emails(accounts, emails).dom().contains(k) implies (#[trigger] without_emails(
            accounts,
            emails,
        )[k]) == accounts[k] by {
            assert(front.dom().contains(k));
            assert(front[k] == accounts[k]);
        }
    }
}

proof fn lemma_wanted_entry(protocol: GrantProtocol, clients: Seq<plan::ClientView>, k: Seq<char>)
    ensures
        wanted_accounts(protocol, clients).dom().contains(k) <==> (exists|i: int|
            0 <= i < clients.len() && (#[trigger] clients[i]).email == k),
    decreases clients.len(),
{
    if clients.len() > 0 {
        lemma_wanted_entry(protocol, clients.drop_last(), k);
        let front = clients.drop_last();
        if exists|i: int| 0 <= i < front.len() && (#[trigger] front[i]).email == k {
            let i = choose|i: int| 0 <= i < front.len() && (#[trigger] front[i]).email == k;
            assert(clients[i].email == k);
        }
        if clients.last().email == k {
            assert(clients[clients.len() - 1].email == k);
        }
        if exists|i: int| 0 <= i < clients.len() && (#[trigger] clients[i]).email == k {
            let i = choose|i: int| 0 <= i < clients.len() && (#[trigger] clients[i]).email == k;
            if i < front.len() {
                assert(front[i].email == k);
            }
        }
    }
}

/// With the accounts that disagree removed, adding the missing ones of some clients
/// gives what those clients ask for, and leaves the other kept accounts alone.
proof fn lemma_additions_complete(
    protocol: GrantProtocol,
    tag: Seq<char>,
    clients: Seq<plan::ClientView>,
    live: Map<Seq<char>, Credential>,
    kept: Map<Seq<char>, Credential>,
    wanted: Map<Seq<char>, Credential>,
)
    requires
        distinct_emails(clients),
        forall|k: Seq<char>| #[trigger] kept.dom().contains(k) <==> agrees(k, live, wanted),
        forall|k: Seq<char>| #[trigger] kept.dom().contains(k) ==> kept[k] == live[k],
        forall|i: int|
            0 <= i < clients.len() ==> wanted.dom().contains((#[trigger] clients[i]).email)
                && wanted[clients[i].email] == wanted_credential(protocol, clients[i]),
    ensures
        ({
            let after = with_additions(kept, missing(protocol, tag, clients, live));
            let asked = wanted_accounts(protocol, clients);
            &&& forall|k: Seq<char>| #[trigger]
                after.dom().contains(k) <==> kept.dom().contains(k) || asked.dom().contains(k)
            &&& forall|k: Seq<char>| #[trigger]
                after.dom().contains(k) ==> after[k] == wanted[k]
        }),
    decreases clients.len(),
{
    if clients.len() > 0 {
        let front = clients.drop_last();
        let client = clients.last();
        assert forall|i: int, j: int| 0 <= i < j < front.len() implies (#[trigger] front[i]).email
            != (#[trigger] front[j]).email by {
            assert(front[i] == clients[i] && front[j] == clients[j]);
        }
        assert forall|i: int| 0 <= i < front.len() implies wanted.dom().contains(
            (#[trigger] front[i]).email,
        ) && wanted[front[i].email] == wanted_credential(protocol, front[i]) by {
            assert(front[i] == clients[i]);
        }
        lemma_additions_complete(protocol, tag, front, live, kept, wanted);
        assert(clients[clients.len() - 1] == client);
        let list = missing(protocol, tag, clients, live);
        let front_list = missing(protocol, tag, front, live);
        let before = with_additions(kept, front_list);
        let after = with_additions(kept, list);
        let asked = wanted_accounts(protocol, clients);
        let front_asked = wanted_accounts(protocol, front);
        if live.dom().contains(client.email) && live[client.email] == wanted_credential(
            protocol,
            client,
        ) {
            assert(agrees(client.email, live, wanted));
            assert(kept.dom().contains(client.email));
            assert(after == before);
        } else {
            assert(list.drop_last() == front_list);
            assert(added_credential(list.last()) == wanted_credential(protocol, client));
            assert(after == before.insert(client.email, wanted_credential(protocol, client)));
        }
        assert forall|k: Seq<char>| #[trigger]
            after.dom().contains(k) <==> kept.dom().contains(k) || asked.dom().contains(k) by {
            assert(before.dom().contains(k) <==> kept.dom().contains(k)
                || front_asked.dom().contains(k));
        }
        assert forall|k: Seq<char>| #[trigger] after.dom().contains(k) implies after[k]
            == wanted[k] by {
            if k != client.email {
                assert(before.dom().contains(k));
            } else if before.dom().contains(k) {
                assert(before[k] == wanted[k]);
            }
        }
    } else {
        assert(missing(protocol, tag, clients, live) == Seq::<AdditionView>::empty());
        assert(with_additions(kept, Seq::<AdditionView>::empty()) == kept);
        assert(wanted_accounts(protocol, clients) == Map::<Seq<char>, Credential>::empty());
        assert forall|k: Seq<char>| #[trigger] kept.dom().contains(k) implies kept[k]
            == wanted[k] by {
            assert(agrees(k, live, wanted));
        }
    }
}

proof fn lemma_wanted_values(protocol: GrantProtocol, clients: Seq<plan::ClientView>, i: int)
    requires
        distinct_emails(clients),
        0 <= i < clients.len(),
    ensures
        wanted_accounts(protocol, clients).dom().contains(clients[i].email),
        wanted_accounts(protocol, clients)[clients[i].email] == wanted_credential(
            protocol,
            clients[i],
        ),
    decreases clients.len(),
{
    let front = clients.drop_last();
    if i < front.len() {
        assert forall|p: int, q: int| 0 <= p < q < front.len() implies (#[trigger] front[p]).email
            != (#[trigger] front[q]).email by {
            assert(front[p] == clients[p] && front[q] == clients[q]);
        }
        assert(front[i] == clients[i]);
        lemma_wanted_values(protocol, front, i);
        assert(clients[i].email != clients[clients.len() - 1].email);
    }
}

/// Removing what is to be removed and then adding what is missing leaves exactly the
/// accounts that were asked for, whatever was found before.
pub proof fn lemma_plan_reaches_what_is_asked(
    protocol: GrantProtocol,
    tag: Seq<char>,
    clients: Seq<plan::ClientView>,
    live: Map<Seq<char>, Credential>,
    removals: Seq<Seq<char>>,
)
    requires
        distinct_emails(clients),
        are_removals(removals, live, wanted_accounts(protocol, clients)),
    ensures
        with_additions(
            without_emails(live, removals),
            missing(protocol, tag, clients, live),
        ) == wanted_accounts(protocol, clients),
{
    let wanted = wanted_accounts(protocol, clients);
    let kept = without_emails(live, removals);
    lemma_without(live, removals);
    assert forall|k: Seq<char>| #[trigger] kept.dom().contains(k) <==> agrees(k, live, wanted) by {
        assert(removals.contains(k) <==> live.dom().contains(k) && !agrees(k, live, wanted));
    }
    assert forall|k: Seq<char>| #[trigger] kept.dom().contains(k) implies kept[k] == live[k] by {
        assert(without_emails(live, removals)[k] == live[k]);
    }
    assert forall|i: int| 0 <= i < clients.len() implies wanted.dom().contains(
        (#[trigger] clients[i]).email,
    ) && wanted[clients[i].email] == wanted_credential(protocol, clients[i]) by {
        lemma_wanted_values(protocol, clients, i);
    }
    lemma_additions_complete(protocol, tag, clients, live, kept, wanted);
    let after = with_additions(kept, missing(protocol, tag, clients, live));
    assert forall|k: Seq<char>| #[trigger] after.dom().contains(k) <==> wanted.dom().contains(
        k,
    ) by {
        assert(kept.dom().contains(k) ==> agrees(k, live, wanted));
    }
    assert(after =~= wanted);
}

/// Whether a client is found as it is asked for.
pub open spec fn found_as_asked(client: plan::ClientView, live: Seq<plan::ObservedView>) -> bool {
    exists|j: int|
        0 <= j < live.len() && (#[trigger] live[j]).email == client.email && live[j].uuid
            == client.uuid && live[j].flow == client.flow
}

/// Whether an account that was found is asked for.
pub open spec fn asked_for(seen: plan::ObservedView, want: Seq<plan::ClientView>) -> bool {
    exists|i: int| 0 <= i < want.len() && (#[trigger] want[i]).email == seen.email
}

/// Whether accounts are not as they should be: somebody is missing, or somebody is
/// there who should not be. Both count: an account that was not removed stays connected.
pub open spec fn drifted(want: Seq<plan::ClientView>, live: Seq<plan::ObservedView>) -> bool {
    ||| exists|i: int| 0 <= i < want.len() && !#[trigger] found_as_asked(want[i], live)
    ||| exists|j: int| 0 <= j < live.len() && !#[trigger] asked_for(live[j], want)
}

fn is_found(client: &GrantClient, live: &Vec<ObservedClient>) -> (r: bool)
    ensures
        r == found_as_asked(client@, plan::observed_views(live@)),
{
    let ghost all = plan::observed_views(live@);
    assert(all.len() == live@.len());
    let mut j: usize = 0;
    while j < live.len()
        invariant
            j <= live@.len(),
            all == plan::observed_views(live@),
            all.len() == live@.len(),
            forall|k: int|
                0 <= k < j ==> !((#[trigger] all[k]).email == client@.email && all[k].uuid
                    == client@.uuid && all[k].flow == client@.flow),
        decreases live.len() - j,
    {
        assert(all[j as int] == live@[j as int]@);
        let seen = &live[j];
        if text::same_str(seen.email.as_str(), client.email.as_str()) && text::same_str(
            seen.uuid.as_str(),
            client.uuid.as_str(),
        ) && same_flow(&seen.flow, &client.flow) {
            return true;
        }
        j = j + 1;
    }
    false
}

fn is_asked_for(seen: &ObservedClient, want: &Vec<GrantClient>) -> (r: bool)
    ensures
        r == asked_for(seen@, plan::client_views(want@)),
{
    let ghost all = plan::client_views(want@);
    assert(all.len() == want@.len());
    let mut i: usize = 0;
    while i < want.len()
        invariant
            i <= want@.len(),
            all == plan::client_views(want@),
            all.len() == want@.len(),
            forall|k: int| 0 <= k < i ==> (#[trigger] all[k]).email != seen@.email,
        decreases want.len() - i,
    {
        assert(all[i as int] == want@[i as int]@);
        if text::same_str(want[i].email.as_str(), seen.email.as_str()) {
            return true;
        }
        i = i + 1;
    }
    false
}

/// Whether accounts are not as they should be.
pub fn grants_drifted_in(want: &Vec<GrantClient>, live: &Vec<ObservedClient>) -> (r: bool)
    ensures
        r == drifted(plan::client_views(want@), plan::observed_views(live@)),
{
    let ghost asked = plan::client_views(want@);
    let ghost found = plan::observed_views(live@);
    assert(asked.len() == want@.len());
    assert(found.len() == live@.len());
    let mut i: usize = 0;
    while i < want.len()
        invariant
            i <= want@.len(),
            asked == plan::client_views(want@),
            found == plan::observed_views(live@),
            asked.len() == want@.len(),
            forall|k: int| 0 <= k < i ==> #[trigger] found_as_asked(asked[k], found),
        decreases want.len() - i,
    {
        assert(asked[i as int] == want@[i as int]@);
        if !is_found(&want[i], live) {
            assert(!found_as_asked(asked[i as int], found));
            return true;
        }
        i = i + 1;
    }
    let mut j: usize = 0;
    while j < live.len()
        invariant
            j <= live@.len(),
            asked == plan::client_views(want@),
            found == plan::observed_views(live@),
            asked.len() == want@.len(),
            found.len() == live@.len(),
            forall|k: int| 0 <= k < want@.len() ==> #[trigger] found_as_asked(asked[k], found),
            forall|k: int| 0 <= k < j ==> #[trigger] asked_for(found[k], asked),
        decreases live.len() - j,
    {
        assert(found[j as int] == live@[j as int]@);
        if !is_asked_for(&live[j], want) {
            assert(!asked_for(found[j as int], asked));
            return true;
        }
        j = j + 1;
    }
    false
}

/// Whether the accounts of any inbound are not as they should be. Where an inbound's
/// accounts could not be read, it is taken to be as it should.
pub open spec fn any_drifted(
    want: Seq<GrantInbound>,
    live: Seq<Option<Vec<ObservedClient>>>,
) -> bool {
    exists|i: int|
        0 <= i < want.len() && i < live.len() && (#[trigger] live[i]) is Some && drifted(
            plan::client_views(want[i].clients@),
            plan::observed_views(live[i]->0@),
        )
}

/// Whether the accounts of any inbound are not as they should be; `live` holds what was
/// read of each.
pub fn grants_drifted(want: &Vec<GrantInbound>, live: &Vec<Option<Vec<ObservedClient>>>) -> (r:
    bool)
    ensures
        r == any_drifted(want@, live@),
{
    let mut i: usize = 0;
    while i < want.len() && i < live.len()
        invariant
            i <= want@.len(),
            i <= live@.len(),
            forall|k: int|
                0 <= k < i ==> !((#[trigger] live@[k]) is Some && drifted(
                    plan::client_views(want@[k].clients@),
                    plan::observed_views(live@[k]->0@),
                )),
        decreases want.len() - i,
    {
        if let Some(seen) = &live[i] {
            if grants_drifted_in(&want[i].clients, seen) {
                assert(live@[i as int] is Some);
                return true;
            }
        }
        i = i + 1;
    }
    false
}

/// What accounts look like from outside once they are all let in.
pub open spec fn as_observed(clients: Seq<plan::ClientView>) -> Seq<plan::ObservedView> {
    Seq::new(
        clients.len(),
        |i: int|
            plan::ObservedView {
                email: clients[i].email,
                uuid: clients[i].uuid,
                flow: clients[i].flow,
            },
    )
}

/// What inbounds look like once they let in whom they should.
pub open spec fn inbounds_as_observed(inbounds: Seq<GrantInbound>) -> Seq<plan::InboundView> {
    Seq::new(
        inbounds.len(),
        |i: int|
            plan::InboundView {
                tag: inbounds[i].tag@,
                clients: as_observed(plan::client_views(inbounds[i].clients@)),
            },
    )
}

fn observe_clients(clients: &Vec<GrantClient>) -> (r: Vec<ObservedClient>)
    ensures
        plan::observed_views(r@) == as_observed(plan::client_views(clients@)),
{
    let ghost all = as_observed(plan::client_views(clients@));
    assert(plan::client_views(clients@).len() == clients@.len());
    let mut out: Vec<ObservedClient> = Vec::new();
    let mut i: usize = 0;
    while i < clients.len()
        invariant
            i <= clients@.len(),
            all == as_observed(plan::client_views(clients@)),
            all.len() == clients@.len(),
            plan::observed_views(out@) == all.take(i as int),
        decreases clients.len() - i,
    {
        assert(plan::client_views(clients@)[i as int] == clients@[i as int]@);
        let client = &clients[i];
        let seen = ObservedClient {
            email: client.email.as_str().to_owned(),
            uuid: client.uuid.as_str().to_owned(),
            flow: copied(&client.flow),
        };
        let ghost before = out@;
        out.push(seen);
        assert(plan::observed_views(out@) == plan::observed_views(before).push(seen@));
        assert(all.take(i + 1) == all.take(i as int).push(all[i as int]));
        i = i + 1;
    }
    assert(all.take(i as int) == all);
    out
}

/// What inbounds look like once they let in whom they should.
pub fn observed_inbounds(inbounds: &Vec<GrantInbound>) -> (r: Vec<ObservedInbound>)
    ensures
        plan::inbound_views(r@) == inbounds_as_observed(inbounds@),
{
    let ghost all = inbounds_as_observed(inbounds@);
    let mut out: Vec<ObservedInbound> = Vec::new();
    let mut i: usize = 0;
    while i < inbounds.len()
        invariant
            i <= inbounds@.len(),
            all == inbounds_as_observed(inbounds@),
            all.len() == inbounds@.len(),
            plan::inbound_views(out@) == all.take(i as int),
        decreases inbounds.len() - i,
    {
        let seen = ObservedInbound {
            tag: inbounds[i].tag.as_str().to_owned(),
            clients: observe_clients(&inbounds[i].clients),
        };
        let ghost before = out@;
        out.push(seen);
        assert(plan::inbound_views(out@) == plan::inbound_views(before).push(seen@));
        assert(all.take(i + 1) == all.take(i as int).push(all[i as int]));
        i = i + 1;
    }
    assert(all.take(i as int) == all);
    out
}

/// Accounts that are exactly those asked for have not drifted.
pub proof fn lemma_observed_as_asked_is_no_drift(clients: Seq<plan::ClientView>)
    ensures
        !drifted(clients, as_observed(clients)),
{
    let live = as_observed(clients);
    assert forall|i: int| 0 <= i < clients.len() implies #[trigger] found_as_asked(
        clients[i],
        live,
    ) by {
        assert(live[i].email == clients[i].email);
    }
    assert forall|j: int| 0 <= j < live.len() implies #[trigger] asked_for(live[j], clients) by {
        assert(clients[j].email == live[j].email);
    }
}

/// An inbound that lists these clients, and is otherwise as it was.
pub open spec fn with_clients(inbound: json::Tree, clients: Seq<json::Tree>) -> json::Tree {
    let settings = match inbound.member("settings"@) {
        Some(settings) => settings,
        None => json::Tree::Null,
    };
    inbound.with_member("settings"@, settings.with_member("clients"@, json::Tree::Array(clients)))
}

/// Whether an inbound's settings can list clients: they are an object, or not there.
pub open spec fn lists_clients(inbound: Json) -> bool {
    match inbound.get_spec("settings"@) {
        Some(settings) => settings is Object || settings is Null,
        None => true,
    }
}

/// The inbound called `tag` with these clients in place of its own.
pub fn inbound_with_clients(config: &Json, tag: &str, clients: Vec<Json>) -> (r: Result<
    Json,
    String,
>)
    requires
        xray::inbound_by_tag(*config, tag@) matches Some(inbound) ==> lists_clients(inbound),
    ensures
        match r {
            Ok(v) => xray::inbound_by_tag(*config, tag@) matches Some(inbound) && v.tree()
                == with_clients(inbound.tree(), json::trees(clients@)),
            Err(e) => xray::inbound_by_tag(*config, tag@) is None && e@
                == "xray config does not contain inbound tag "@ + tag@,
        },
{
    let inbound = match xray_inbound_by_tag(config, tag) {
        Ok(inbound) => inbound,
        Err(e) => {
            return Err(e);
        },
    };
    let settings = match inbound.get("settings") {
        Some(settings) => json::copy(settings),
        None => Json::Null,
    };
    proof {
        json::lemma_get_is_member(*inbound, "settings"@);
        json::lemma_array_tree(clients);
    }
    let settings = json::set_member(settings, "clients", Json::Array(clients));
    Ok(json::set_member(json::copy(inbound), "settings", settings))
}

/// Only the list of clients of an inbound changes: every other member of it, and of its
/// settings, is as it was.
pub proof fn lemma_only_the_clients_change(
    inbound: Json,
    clients: Seq<json::Tree>,
    other: Seq<char>,
)
    requires
        inbound is Object,
        lists_clients(inbound),
    ensures
        ({
            let before = inbound.tree();
            let after = with_clients(before, clients);
            &&& other != "settings"@ ==> after.member(other) == before.member(other)
            &&& after.member("settings"@) matches Some(settings)
            &&& settings.member("clients"@) == Some(json::Tree::Array(clients))
            &&& other != "clients"@ ==> settings.member(other) == (match before.member(
                "settings"@,
            ) {
                Some(was) => was.member(other),
                None => None,
            })
        }),
{
    let before = inbound.tree();
    json::lemma_get_is_member(inbound, "settings"@);
    let settings = match before.member("settings"@) {
        Some(settings) => settings,
        None => json::Tree::Null,
    };
    let list = json::Tree::Array(clients);
    json::lemma_members_after(settings, "clients"@, list, other);
    json::lemma_members_after(before, "settings"@, settings.with_member("clients"@, list), other);
}

/// What comes next while accounts are brought in line, one inbound after the other.
#[derive(Debug, PartialEq, Eq)]
pub enum SyncStep {
    /// The accounts of the next inbound are read, and what is planned for them is done.
    Read { protocol: GrantProtocol },
    /// Every inbound was read; what is missing on any of them is added.
    Add,
    Fail { error: String },
}

/// Accounts that are being brought in line with those asked for.
#[derive(Debug)]
pub struct GrantSync<'a> {
    /// The configuration that the proxy runs with.
    pub config: Json,
    /// Whom each inbound should let in.
    pub desired: &'a Vec<GrantInbound>,
    /// What writes the accounts.
    pub backend: GrantWriteBackendChoice,
    /// How many inbounds were read.
    pub done: usize,
    /// The accounts that are missing on the inbounds that were read.
    pub additions: Vec<GrantAddition>,
    /// Those inbounds as a configuration holds them, with the missing accounts alone.
    pub inbounds: Vec<Json>,
}

impl<'a> GrantSync<'a> {
    /// No more inbounds were read than there are, and there are accounts to add exactly
    /// where there are inbounds to add them to.
    pub open spec fn wf(self) -> bool {
        &&& self.done <= self.desired@.len()
        &&& self.inbounds@.len() == 0 <==> self.additions@.len() == 0
    }

    /// What is settled of the next inbound before any of its accounts is looked at.
    pub open spec fn settled(self) -> Result<GrantProtocol, Seq<char>> {
        accepted_inbound(self.config, self.desired@[self.done as int].tag@, self.backend)
    }

    /// Whether the accounts of the next inbound may be looked at.
    pub open spec fn ready(self) -> bool {
        self.wf() && self.done < self.desired@.len() && self.settled() is Ok
    }

    /// Whether `lives` is what was found on the inbounds that were read: each of them
    /// takes accounts, and what is missing on all of them was collected.
    pub open spec fn has_read(self, lives: Seq<Seq<plan::ObservedView>>) -> bool {
        &&& self.done == lives.len()
        &&& lives.len() <= self.desired@.len()
        &&& forall|k: int|
            0 <= k < lives.len() ==> accepted_inbound(
                self.config,
                (#[trigger] self.desired@[k]).tag@,
                self.backend,
            ) is Ok
        &&& addition_views(self.additions@) == all_missing(
            self.config,
            self.backend,
            self.desired@,
            lives,
        )
    }

    /// What comes next. Nothing of an inbound is read or removed before it is known that
    /// accounts can be added to it.
    pub fn step(&self) -> (r: SyncStep)
        requires
            self.wf(),
        ensures
            match r {
                SyncStep::Read { protocol } => self.ready() && self.settled() == Ok::<
                    GrantProtocol,
                    Seq<char>,
                >(protocol),
                SyncStep::Add => self.done == self.desired@.len(),
                SyncStep::Fail { error } => self.done < self.desired@.len() && self.settled()
                    == Err::<GrantProtocol, Seq<char>>(error@),
            },
    {
        if self.done >= self.desired.len() {
            return SyncStep::Add;
        }
        match accept_inbound(&self.config, self.desired[self.done].tag.as_str(), self.backend) {
            Ok(protocol) => SyncStep::Read { protocol },
            Err(error) => SyncStep::Fail { error },
        }
    }

    /// What is done to the accounts of the next inbound, from those it lets in.
    pub fn plan(&self, actual: &Vec<ObservedClient>) -> (r: InboundPlan)
        requires
            self.ready(),
        ensures
            ({
                let protocol = self.settled()->Ok_0;
                let inbound = self.desired@[self.done as int];
                let clients = plan::client_views(inbound.clients@);
                let live = live_accounts(plan::observed_views(actual@));
                &&& are_removals(
                    text::string_views(r.removals@),
                    live,
                    wanted_accounts(protocol, clients),
                )
                &&& addition_views(r.additions@) == missing(protocol, inbound.tag@, clients, live)
                &&& describe_missing(r.clients@, protocol, clients, live)
            }),
    {
        let inbound = &self.desired[self.done];
        match accept_inbound(&self.config, inbound.tag.as_str(), self.backend) {
            Ok(protocol) => plan_inbound(protocol, inbound, actual),
            Err(_) => {
                assert(false);
                InboundPlan { removals: Vec::new(), additions: Vec::new(), clients: Vec::new() }
            },
        }
    }

    /// Goes on to the next inbound, once what is planned for this one was removed: what
    /// is planned to be added is collected. An inbound on which nothing is missing is
    /// not added to.
    pub fn take(&mut self, plan: InboundPlan)
        requires
            old(self).ready(),
            plan.additions@.len() > 0 ==> (xray::inbound_by_tag(
                old(self).config,
                old(self).desired@[old(self).done as int].tag@,
            ) matches Some(inbound) ==> lists_clients(inbound)),
        ensures
            final(self).wf(),
            final(self).config == old(self).config,
            final(self).desired == old(self).desired,
            final(self).backend == old(self).backend,
            final(self).done == old(self).done + 1,
            final(self).additions@ == old(self).additions@ + plan.additions@,
            if plan.additions@.len() > 0 {
                xray::inbound_by_tag(
                    old(self).config,
                    old(self).desired@[old(self).done as int].tag@,
                ) matches Some(inbound) && json::trees(final(self).inbounds@) == json::trees(
                    old(self).inbounds@,
                ).push(with_clients(inbound.tree(), json::trees(plan.clients@)))
            } else {
                final(self).inbounds@ == old(self).inbounds@
            },
    {
        let ghost before = self.additions@;
        let ghost listed = self.inbounds@;
        let all: usize = self.desired.len();
        assert(self.done < all);
        let mut additions = plan.additions;
        if additions.len() > 0 {
            let found = inbound_with_clients(
                &self.config,
                self.desired[self.done].tag.as_str(),
                plan.clients,
            );
            if let Ok(inbound) = found {
                self.inbounds.push(inbound);
                assert(json::trees(self.inbounds@) =~= json::trees(listed).push(inbound.tree()));
            }
            self.additions.append(&mut additions);
        } else {
            assert(before + plan.additions@ =~= before);
        }
        self.done = self.done + 1;
    }

    /// What is added once every inbound was read, in one call: everything that was
    /// collected, and no call where nothing is missing.
    pub fn finish(self) -> (r: Option<(Vec<GrantAddition>, Vec<Json>)>)
        requires
            self.wf(),
        ensures
            match r {
                Some((additions, inbounds)) => additions == self.additions && inbounds
                    == self.inbounds && additions@.len() > 0,
                None => self.additions@.len() == 0,
            },
    {
        if self.inbounds.len() == 0 {
            None
        } else {
            Some((self.additions, self.inbounds))
        }
    }
}

/// Begins to bring accounts in line, with the configuration that the proxy runs with.
pub fn sync_grants_with_backend<'a>(
    xray_content: &str,
    desired: &'a Vec<GrantInbound>,
    backend: GrantWriteBackendChoice,
) -> (r: Result<GrantSync<'a>, String>)
    ensures
        match r {
            Ok(sync) => {
                &&& json::json_of(xray_content@) == Ok::<Json, Seq<char>>(sync.config)
                &&& sync.desired == desired
                &&& sync.backend == backend
                &&& sync.done == 0
                &&& sync.additions@.len() == 0
                &&& sync.inbounds@.len() == 0
                &&& sync.wf()
                &&& sync.has_read(seq![])
            },
            Err(e) => json::json_of(xray_content@) == Err::<Json, Seq<char>>(e@),
        },
{
    match json::parse_json(xray_content) {
        Ok(config) => {
            let sync = GrantSync {
                config,
                desired,
                backend,
                done: 0,
                additions: Vec::new(),
                inbounds: Vec::new(),
            };
            assert(addition_views(sync.additions@) =~= seq![]);
            Ok(sync)
        },
        Err(error) => Err(error),
    }
}

/// What is missing on an inbound that lets in `live`; nothing where it takes no accounts.
pub open spec fn missing_on(
    config: Json,
    backend: GrantWriteBackendChoice,
    inbound: GrantInbound,
    live: Seq<plan::ObservedView>,
) -> Seq<AdditionView> {
    match accepted_inbound(config, inbound.tag@, backend) {
        Ok(protocol) => missing(
            protocol,
            inbound.tag@,
            plan::client_views(inbound.clients@),
            live_accounts(live),
        ),
        Err(_) => seq![],
    }
}

/// What is missing on the first inbounds, which let in `lives`, one after the other.
pub open spec fn all_missing(
    config: Json,
    backend: GrantWriteBackendChoice,
    desired: Seq<GrantInbound>,
    lives: Seq<Seq<plan::ObservedView>>,
) -> Seq<AdditionView>
    decreases lives.len(),
{
    if lives.len() == 0 {
        seq![]
    } else {
        all_missing(config, backend, desired, lives.drop_last()) + missing_on(
            config,
            backend,
            desired[lives.len() - 1],
            lives.last(),
        )
    }
}

/// Taking what is planned from what was found on an inbound keeps count of what is
/// missing on all that were read.
pub proof fn lemma_what_is_missing_is_collected(
    before: GrantSync,
    after: GrantSync,
    additions: Seq<GrantAddition>,
    lives: Seq<Seq<plan::ObservedView>>,
    live: Seq<plan::ObservedView>,
)
    requires
        before.ready(),
        before.has_read(lives),
        addition_views(additions) == missing_on(
            before.config,
            before.backend,
            before.desired@[before.done as int],
            live,
        ),
        after.config == before.config,
        after.desired == before.desired,
        after.backend == before.backend,
        after.done == before.done + 1,
        after.additions@ == before.additions@ + additions,
    ensures
        after.has_read(lives.push(live)),
{
    let all = lives.push(live);
    assert(all.drop_last() =~= lives);
    assert(addition_views(after.additions@) =~= addition_views(before.additions@)
        + addition_views(additions));
    assert forall|k: int| 0 <= k < all.len() implies accepted_inbound(
        after.config,
        (#[trigger] after.desired@[k]).tag@,
        after.backend,
    ) is Ok by {
        assert(after.desired@[k] == before.desired@[k]);
    }
}

/// Whether a client is let in as it should be.
pub open spec fn is_live(
    protocol: GrantProtocol,
    client: plan::ClientView,
    live: Map<Seq<char>, Credential>,
) -> bool {
    live.dom().contains(client.email) && live[client.email] == wanted_credential(protocol, client)
}

proof fn lemma_missing_entry(
    protocol: GrantProtocol,
    tag: Seq<char>,
    clients: Seq<plan::ClientView>,
    live: Map<Seq<char>, Credential>,
    addition: AdditionView,
)
    ensures
        missing(protocol, tag, clients, live).contains(addition) <==> exists|i: int|
            0 <= i < clients.len() && !is_live(protocol, #[trigger] clients[i], live) && addition
                == addition_of(protocol, tag, clients[i]),
    decreases clients.len(),
{
    let list = missing(protocol, tag, clients, live);
    if clients.len() > 0 {
        let front = clients.drop_last();
        let last = clients.len() - 1;
        let before = missing(protocol, tag, front, live);
        lemma_missing_entry(protocol, tag, front, live, addition);
        if list.contains(addition) {
            let p = list.index_of(addition);
            if p < before.len() {
                assert(before[p] == addition);
                let i = choose|i: int|
                    0 <= i < front.len() && !is_live(protocol, #[trigger] front[i], live)
                        && addition == addition_of(protocol, tag, front[i]);
                assert(clients[i] == front[i]);
            } else {
                assert(!is_live(protocol, clients[last], live));
            }
        }
        if exists|i: int|
            0 <= i < clients.len() && !is_live(protocol, #[trigger] clients[i], live) && addition
                == addition_of(protocol, tag, clients[i]) {
            let i = choose|i: int|
                0 <= i < clients.len() && !is_live(protocol, #[trigger] clients[i], live)
                    && addition == addition_of(protocol, tag, clients[i]);
            if i < last {
                assert(front[i] == clients[i]);
                let p = before.index_of(addition);
                assert(list[p] == addition);
            } else {
                assert(list[list.len() - 1] == addition);
            }
        }
    }
}

/// Whether an addition is that of a client that an inbound should let in and does not
/// let in as it should.
pub open spec fn is_missing_on(
    config: Json,
    backend: GrantWriteBackendChoice,
    inbound: GrantInbound,
    live: Seq<plan::ObservedView>,
    addition: AdditionView,
) -> bool {
    accepted_inbound(config, inbound.tag@, backend) matches Ok(protocol) && exists|i: int|
        0 <= i < inbound.clients@.len() && !is_live(
            protocol,
            (#[trigger] inbound.clients@[i])@,
            live_accounts(live),
        ) && addition == addition_of(protocol, inbound.tag@, inbound.clients@[i]@)
}

proof fn lemma_missing_on_entry(
    config: Json,
    backend: GrantWriteBackendChoice,
    inbound: GrantInbound,
    live: Seq<plan::ObservedView>,
    addition: AdditionView,
)
    ensures
        missing_on(config, backend, inbound, live).contains(addition) <==> is_missing_on(
            config,
            backend,
            inbound,
            live,
            addition,
        ),
{
    match accepted_inbound(config, inbound.tag@, backend) {
        Ok(protocol) => {
            let clients = plan::client_views(inbound.clients@);
            let found = live_accounts(live);
            lemma_missing_entry(protocol, inbound.tag@, clients, found, addition);
            assert forall|i: int| 0 <= i < clients.len() implies #[trigger] clients[i]
                == inbound.clients@[i]@ by {}
            assert(clients.len() == inbound.clients@.len());
            if missing(protocol, inbound.tag@, clients, found).contains(addition) {
                let i = choose|i: int|
                    0 <= i < clients.len() && !is_live(protocol, #[trigger] clients[i], found)
                        && addition == addition_of(protocol, inbound.tag@, clients[i]);
                assert(!is_live(protocol, inbound.clients@[i]@, found));
            }
            if is_missing_on(config, backend, inbound, live, addition) {
                let i = choose|i: int|
                    0 <= i < inbound.clients@.len() && !is_live(
                        protocol,
                        (#[trigger] inbound.clients@[i])@,
                        found,
                    ) && addition == addition_of(protocol, inbound.tag@, inbound.clients@[i]@);
                assert(!is_live(protocol, clients[i], found));
            }
        },
        Err(_) => {},
    }
}

proof fn lemma_all_missing_entry(
    config: Json,
    backend: GrantWriteBackendChoice,
    desired: Seq<GrantInbound>,
    lives: Seq<Seq<plan::ObservedView>>,
    addition: AdditionView,
)
    ensures
        all_missing(config, backend, desired, lives).contains(addition) <==> exists|k: int|
            0 <= k < lives.len() && is_missing_on(
                config,
                backend,
                desired[k],
                #[trigger] lives[k],
                addition,
            ),
    decreases lives.len(),
{
    if lives.len() > 0 {
        let front = lives.drop_last();
        let last = lives.len() - 1;
        let before = all_missing(config, backend, desired, front);
        let more = missing_on(config, backend, desired[last], lives[last]);
        let all = before + more;
        assert(all == all_missing(config, backend, desired, lives));
        lemma_all_missing_entry(config, backend, desired, front, addition);
        lemma_missing_on_entry(config, backend, desired[last], lives[last], addition);
        if all.contains(addition) {
            let p = all.index_of(addition);
            if p < before.len() {
                assert(before[p] == addition);
                let k = choose|k: int|
                    0 <= k < front.len() && is_missing_on(
                        config,
                        backend,
                        desired[k],
                        #[trigger] front[k],
                        addition,
                    );
                assert(lives[k] == front[k]);
            } else {
                assert(more[p - before.len()] == addition);
            }
        }
        if exists|k: int|
            0 <= k < lives.len() && is_missing_on(
                config,
                backend,
                desired[k],
                #[trigger] lives[k],
                addition,
            ) {
            let k = choose|k: int|
                0 <= k < lives.len() && is_missing_on(
                    config,
                    backend,
                    desired[k],
                    #[trigger] lives[k],
                    addition,
                );
            if k < last {
                assert(front[k] == lives[k]);
                let p = before.index_of(addition);
                assert(all[p] == addition);
            } else {
                let p = more.index_of(addition);
                assert(all[before.len() + p] == addition);
            }
        }
    }
}

/// The one call that adds accounts carries exactly those that any inbound should let in
/// and does not let in as it should; where there are none, no call is made.
pub proof fn lemma_one_call_carries_all_that_is_missing(
    sync: GrantSync,
    lives: Seq<Seq<plan::ObservedView>>,
    addition: AdditionView,
)
    requires
        sync.has_read(lives),
        lives.len() == sync.desired@.len(),
    ensures
        addition_views(sync.additions@).contains(addition) <==> exists|k: int|
            0 <= k < lives.len() && is_missing_on(
                sync.config,
                sync.backend,
                sync.desired@[k],
                #[trigger] lives[k],
                addition,
            ),
{
    lemma_all_missing_entry(sync.config, sync.backend, sync.desired@, lives, addition);
}

/// An account that is let in as it should be is left alone: it is neither removed nor
/// added.
pub proof fn lemma_unchanged_account_is_left_alone(
    protocol: GrantProtocol,
    tag: Seq<char>,
    clients: Seq<plan::ClientView>,
    live: Map<Seq<char>, Credential>,
    removals: Seq<Seq<char>>,
    i: int,
    addition: AdditionView,
)
    requires
        distinct_emails(clients),
        are_removals(removals, live, wanted_accounts(protocol, clients)),
        0 <= i < clients.len(),
        is_live(protocol, clients[i], live),
    ensures
        !removals.contains(clients[i].email),
        missing(protocol, tag, clients, live).contains(addition) ==> addition.email
            != clients[i].email,
{
    lemma_wanted_values(protocol, clients, i);
    assert(agrees(clients[i].email, live, wanted_accounts(protocol, clients)));
    lemma_missing_entry(protocol, tag, clients, live, addition);
    if missing(protocol, tag, clients, live).contains(addition) && addition.email
        == clients[i].email {
        let j = choose|j: int|
            0 <= j < clients.len() && !is_live(protocol, #[trigger] clients[j], live) && addition
                == addition_of(protocol, tag, clients[j]);
        assert(clients[j].email == clients[i].email);
        assert(j == i);
    }
}

/// The arguments with which the command line tool removes an account.
pub fn remove_user_args(api_port: u16, tag: &str, email: &str) -> (r: Vec<String>)
    ensures
        text::string_views(r@) == seq![
            "api"@,
            "rmu"@,
            "--server=127.0.0.1:"@ + numbers::decimal(api_port as int),
            "-tag="@ + tag@,
            email@,
        ],
{
    let mut server = "--server=127.0.0.1:".to_owned();
    server.append(numbers::decimal_string(api_port as u64).as_str());
    let mut named = "-tag=".to_owned();
    named.append(tag);
    let mut out: Vec<String> = Vec::new();
    out.push("api".to_owned());
    out.push("rmu".to_owned());
    out.push(server);
    out.push(named);
    out.push(email.to_owned());
    assert(text::string_views(out@) =~= seq![
        "api"@,
        "rmu"@,
        "--server=127.0.0.1:"@ + numbers::decimal(api_port as int),
        "-tag="@ + tag@,
        email@,
    ]);
    out
}

/// The arguments with which the command line tool adds the accounts that stand in a
/// file.
pub fn add_users_args(api_port: u16, path: &str) -> (r: Vec<String>)
    ensures
        text::string_views(r@) == seq![
            "api"@,
            "adu"@,
            "--server=127.0.0.1:"@ + numbers::decimal(api_port as int),
            path@,
        ],
{
    let mut server = "--server=127.0.0.1:".to_owned();
    server.append(numbers::decimal_string(api_port as u64).as_str());
    let mut out: Vec<String> = Vec::new();
    out.push("api".to_owned());
    out.push("adu".to_owned());
    out.push(server);
    out.push(path.to_owned());
    assert(text::string_views(out@) =~= seq![
        "api"@,
        "adu"@,
        "--server=127.0.0.1:"@ + numbers::decimal(api_port as int),
        path@,
    ]);
    out
}

/// Whether a flow comes before another: none comes first.
pub open spec fn flow_before(a: Option<Seq<char>>, b: Option<Seq<char>>) -> bool {
    match (a, b) {
        (Some(x), Some(y)) => order::before(x, y),
        (None, Some(_)) => true,
        _ => false,
    }
}

/// Whether an account comes before another: by email, then by secret, then by flow.
pub open spec fn client_before(a: plan::ObservedView, b: plan::ObservedView) -> bool {
    ||| order::before(a.email, b.email)
    ||| a.email == b.email && order::before(a.uuid, b.uuid)
    ||| a.email == b.email && a.uuid == b.uuid && flow_before(a.flow, b.flow)
}

/// Accounts in order.
pub open spec fn ordered_clients(clients: Seq<plan::ObservedView>) -> Seq<plan::ObservedView> {
    order::arranged(clients, |a: plan::ObservedView, b: plan::ObservedView| client_before(a, b))
}

/// Inbounds in the order of their tags, each with its accounts in order.
pub open spec fn ordered_inbounds(inbounds: Seq<plan::InboundView>) -> Seq<plan::InboundView> {
    order::arranged(
        Seq::new(
            inbounds.len(),
            |i: int|
                plan::InboundView {
                    tag: inbounds[i].tag,
                    clients: ordered_clients(inbounds[i].clients),
                },
        ),
        |a: plan::InboundView, b: plan::InboundView| order::before(a.tag, b.tag),
    )
}

fn is_client_before(a: &ObservedClient, b: &ObservedClient) -> (r: bool)
    ensures
        r == client_before(a@, b@),
{
    if order::comes_before(a.email.as_str(), b.email.as_str()) {
        return true;
    }
    if !text::same_str(a.email.as_str(), b.email.as_str()) {
        return false;
    }
    if order::comes_before(a.uuid.as_str(), b.uuid.as_str()) {
        return true;
    }
    if !text::same_str(a.uuid.as_str(), b.uuid.as_str()) {
        return false;
    }
    match (&a.flow, &b.flow) {
        (Some(x), Some(y)) => order::comes_before(x.as_str(), y.as_str()),
        (None, Some(_)) => true,
        _ => false,
    }
}

fn order_clients(clients: Vec<ObservedClient>) -> (r: Vec<ObservedClient>)
    ensures
        plan::observed_views(r@) == ordered_clients(plan::observed_views(clients@)),
{
    let ghost all = plan::observed_views(clients@);
    let ghost less = |a: plan::ObservedView, b: plan::ObservedView| client_before(a, b);
    let mut rest = clients;
    let mut out: Vec<ObservedClient> = Vec::new();
    let ghost mut done: int = 0;
    assert(all.skip(0) == all);
    assert(all.len() == rest@.len());
    assert(plan::observed_views(out@) == order::arranged(all.take(0), less));
    while rest.len() > 0
        invariant
            0 <= done <= all.len(),
            less == (|a: plan::ObservedView, b: plan::ObservedView| client_before(a, b)),
            plan::observed_views(rest@) == all.skip(done),
            plan::observed_views(out@) == order::arranged(all.take(done), less),
            rest@.len() == all.len() - done,
        decreases rest.len(),
    {
        let ghost rest_before = rest@;
        assert(plan::observed_views(rest_before).len() == rest_before.len());
        let item = rest.remove(0);
        assert(plan::observed_views(rest_before)[0] == item@);
        assert(all[done] == item@);
        assert(plan::observed_views(rest@) == all.skip(done + 1)) by {
            assert forall|k: int| 0 <= k < rest@.len() implies #[trigger] plan::observed_views(
                rest@,
            )[k] == all.skip(done + 1)[k] by {
                assert(plan::observed_views(rest_before)[k + 1] == all.skip(done)[k + 1]);
            }
        }
        let ghost front = plan::observed_views(out@);
        assert(front.len() == out@.len());
        let mut at: usize = 0;
        while at < out.len() && !is_client_before(&item, &out[at])
            invariant
                at <= out@.len(),
                front == plan::observed_views(out@),
                front.len() == out@.len(),
                less == (|a: plan::ObservedView, b: plan::ObservedView| client_before(a, b)),
                order::slot(front, item@, less, 0) == order::slot(front, item@, less, at as int),
            decreases out.len() - at,
        {
            assert(front[at as int] == out@[at as int]@);
            at = at + 1;
        }
        proof {
            if at < out@.len() {
                assert(front[at as int] == out@[at as int]@);
            }
            assert(order::slot(front, item@, less, at as int) == at);
            assert(all.take(done + 1).drop_last() == all.take(done));
            assert(all.take(done + 1).last() == all[done]);
        }
        let ghost out_before = out@;
        out.insert(at, item);
        assert(plan::observed_views(out@) == front.insert(at as int, item@)) by {
            assert forall|k: int| 0 <= k < out@.len() implies #[trigger] plan::observed_views(
                out@,
            )[k] == front.insert(at as int, item@)[k] by {
                if k < at {
                    assert(out@[k] == out_before[k]);
                } else if k > at {
                    assert(out@[k] == out_before[k - 1]);
                }
            }
        }
        proof {
            done = done + 1;
        }
    }
    assert(all.take(done) == all);
    out
}

/// Accounts that were read, as they are reported: inbounds in the order of their tags,
/// each with its accounts in order.
pub fn read_observed_grants(observed: Vec<ObservedInbound>) -> (r: Vec<ObservedInbound>)
    ensures
        plan::inbound_views(r@) == ordered_inbounds(plan::inbound_views(observed@)),
{
    let ghost given = plan::inbound_views(observed@);
    let ghost all = Seq::new(
        given.len(),
        |i: int|
            plan::InboundView { tag: given[i].tag, clients: ordered_clients(given[i].clients) },
    );
    let ghost less = |a: plan::InboundView, b: plan::InboundView| order::before(a.tag, b.tag);
    let mut rest = observed;
    let mut out: Vec<ObservedInbound> = Vec::new();
    let ghost mut done: int = 0;
    assert(given.skip(0) == given);
    assert(given.len() == rest@.len());
    assert(plan::inbound_views(out@) == order::arranged(all.take(0), less));
    while rest.len() > 0
        invariant
            0 <= done <= given.len(),
            all == Seq::new(
                given.len(),
                |i: int|
                    plan::InboundView {
                        tag: given[i].tag,
                        clients: ordered_clients(given[i].clients),
                    },
            ),
            less == (|a: plan::InboundView, b: plan::InboundView| order::before(a.tag, b.tag)),
            plan::inbound_views(rest@) == given.skip(done),
            plan::inbound_views(out@) == order::arranged(all.take(done), less),
            rest@.len() == given.len() - done,
        decreases rest.len(),
    {
        let ghost rest_before = rest@;
        assert(plan::inbound_views(rest_before).len() == rest_before.len());
        let read = rest.remove(0);
        assert(plan::inbound_views(rest_before)[0] == read@);
        assert(given[done] == read@);
        assert(plan::inbound_views(rest@) == given.skip(done + 1)) by {
            assert forall|k: int| 0 <= k < rest@.len() implies #[trigger] plan::inbound_views(
                rest@,
            )[k] == given.skip(done + 1)[k] by {
                assert(plan::inbound_views(rest_before)[k + 1] == given.skip(done)[k + 1]);
            }
        }
        let item = ObservedInbound { tag: read.tag, clients: order_clients(read.clients) };
        assert(item@ == all[done]);
        let ghost front = plan::inbound_views(out@);
        assert(front.len() == out@.len());
        let mut at: usize = 0;
        while at < out.len() && !order::comes_before(item.tag.as_str(), out[at].tag.as_str())
            invariant
                at <= out@.len(),
                front == plan::inbound_views(out@),
                front.len() == out@.len(),
                less == (|a: plan::InboundView, b: plan::InboundView| order::before(a.tag, b.tag)),
                order::slot(front, item@, less, 0) == order::slot(front, item@, less, at as int),
            decreases out.len() - at,
        {
            assert(front[at as int] == out@[at as int]@);
            at = at + 1;
        }
        proof {
            if at < out@.len() {
                assert(front[at as int] == out@[at as int]@);
            }
            assert(order::slot(front, item@, less, at as int) == at);
            assert(all.take(done + 1).drop_last() == all.take(done));
            assert(all.take(done + 1).last() == all[done]);
        }
        let ghost out_before = out@;
        out.insert(at, item);
        assert(plan::inbound_views(out@) == front.insert(at as int, item@)) by {
            assert forall|k: int| 0 <= k < out@.len() implies #[trigger] plan::inbound_views(
                out@,
            )[k] == front.insert(at as int, item@)[k] by {
                if k < at {
                    assert(out@[k] == out_before[k]);
                } else if k > at {
                    assert(out@[k] == out_before[k - 1]);
                }
            }
        }
        proof {
            done = done + 1;
        }
    }
    assert(all.take(done) == all);
    out
}

/// Accounts are reported in one order whatever order they were read in: no account
/// stands after one it comes before, and none is lost.
pub proof fn lemma_accounts_are_reported_in_order(clients: Seq<plan::ObservedView>)
    ensures
        ordered_clients(clients).to_multiset() == clients.to_multiset(),
        ordered_clients(clients).len() == clients.len(),
        forall|i: int, j: int|
            0 <= i < j < clients.len() ==> !client_before(
                #[trigger] ordered_clients(clients)[j],
                #[trigger] ordered_clients(clients)[i],
            ),
{
    let less = |a: plan::ObservedView, b: plan::ObservedView| client_before(a, b);
    assert forall|a: plan::ObservedView, b: plan::ObservedView| #[trigger]
        less(a, b) implies !less(b, a) by {
        lemma_client_before(a, b);
    }
    assert forall|a: plan::ObservedView, b: plan::ObservedView, c: plan::ObservedView|
        !#[trigger] less(b, a) && !#[trigger] less(c, b) implies !less(c, a) by {
        lemma_client_order(a, b, c);
    }
    order::lemma_arranged(clients, less);
    assert forall|i: int, j: int| 0 <= i < j < clients.len() implies !client_before(
        #[trigger] ordered_clients(clients)[j],
        #[trigger] ordered_clients(clients)[i],
    ) by {
        assert(!less(order::arranged(clients, less)[j], order::arranged(clients, less)[i]));
    }
}

proof fn lemma_one_comes_first(a: Seq<char>, b: Seq<char>)
    ensures
        order::before(a, b) ==> !order::before(b, a) && a != b,
        order::before(a, b) || order::before(b, a) || a == b,
{
    order::lemma_before_total(a, b);
    if order::before(a, b) {
        order::lemma_before_asymmetric(a, b);
    }
}

proof fn lemma_client_before(a: plan::ObservedView, b: plan::ObservedView)
    ensures
        client_before(a, b) ==> !client_before(b, a),
        client_before(a, b) || client_before(b, a) || a == b,
{
    lemma_one_comes_first(a.email, b.email);
    lemma_one_comes_first(b.email, a.email);
    lemma_one_comes_first(a.uuid, b.uuid);
    lemma_one_comes_first(b.uuid, a.uuid);
    if a.flow is Some && b.flow is Some {
        lemma_one_comes_first(a.flow->0, b.flow->0);
        lemma_one_comes_first(b.flow->0, a.flow->0);
    }
}

proof fn lemma_client_transitive(
    a: plan::ObservedView,
    b: plan::ObservedView,
    c: plan::ObservedView,
)
    requires
        client_before(a, b),
        client_before(b, c),
    ensures
        client_before(a, c),
{
    if order::before(a.email, b.email) && order::before(b.email, c.email) {
        order::lemma_before_transitive(a.email, b.email, c.email);
    }
    if order::before(a.uuid, b.uuid) && order::before(b.uuid, c.uuid) {
        order::lemma_before_transitive(a.uuid, b.uuid, c.uuid);
    }
    if flow_before(a.flow, b.flow) && flow_before(b.flow, c.flow) && a.flow is Some {
        order::lemma_before_transitive(a.flow->0, b.flow->0, c.flow->0);
    }
}

proof fn lemma_client_order(a: plan::ObservedView, b: plan::ObservedView, c: plan::ObservedView)
    ensures
        !client_before(b, a) && !client_before(c, b) ==> !client_before(c, a),
{
    lemma_client_before(a, b);
    lemma_client_before(b, c);
    lemma_client_before(a, c);
    if !client_before(b, a) && !client_before(c, b) && client_before(a, b) && client_before(
        b,
        c,
    ) {
        lemma_client_transitive(a, b, c);
    }
}

/// Accounts drift exactly where somebody who is asked for is not let in with the same secret
/// and the same flow, or somebody is let in whom nobody asks for.
pub proof fn lemma_every_difference_is_drift(
    want: Seq<plan::ClientView>,
    live: Seq<plan::ObservedView>,
)
    ensures
        !drifted(want, live) <==> {
            &&& forall|i: int|
                0 <= i < want.len() ==> exists|j: int|
                    0 <= j < live.len() && (#[trigger] live[j]).email == (#[trigger] want[i]).email
                        && live[j].uuid == want[i].uuid && live[j].flow == want[i].flow
            &&& forall|j: int|
                0 <= j < live.len() ==> exists|i: int|
                    0 <= i < want.len() && (#[trigger] want[i]).email == (#[trigger] live[j]).email
        },
{
    if !drifted(want, live) {
        assert forall|i: int| 0 <= i < want.len() implies exists|j: int|
            0 <= j < live.len() && (#[trigger] live[j]).email == (#[trigger] want[i]).email
                && live[j].uuid == want[i].uuid && live[j].flow == want[i].flow by {
            assert(found_as_asked(want[i], live));
        }
        assert forall|j: int| 0 <= j < live.len() implies exists|i: int|
            0 <= i < want.len() && (#[trigger] want[i]).email == (#[trigger] live[j]).email by {
            assert(asked_for(live[j], want));
        }
    }
}

/// Accounts can be added to what speaks VLESS, Hysteria 2 or AnyTLS, and to nothing else; with
/// the command line tool only to the first. Each keeps the secret under its own name, and
/// only the first has a flow.
pub proof fn lemma_protocols_that_take_accounts(
    inbound: Json,
    tag: Seq<char>,
    backend: GrantWriteBackendChoice,
    client: plan::ClientView,
)
    ensures
        protocol_of(inbound, tag) == Ok::<GrantProtocol, Seq<char>>(GrantProtocol::Vless)
            <==> inbound.text_at("protocol"@) == Some("vless"@),
        protocol_of(inbound, tag) == Ok::<GrantProtocol, Seq<char>>(GrantProtocol::Hysteria2)
            <==> inbound.text_at("protocol"@) == Some("hysteria"@),
        protocol_of(inbound, tag) == Ok::<GrantProtocol, Seq<char>>(GrantProtocol::AnyTls)
            <==> inbound.text_at("protocol"@) == Some("anytls"@),
        backend_refuses(backend, GrantProtocol::Vless) is None,
        backend_refuses(backend, GrantProtocol::Hysteria2) is Some <==> backend
            == GrantWriteBackendChoice::Cli,
        backend_refuses(backend, GrantProtocol::AnyTls) is Some <==> backend
            == GrantWriteBackendChoice::Cli,
        secret_name(GrantProtocol::Vless) == "id"@,
        secret_name(GrantProtocol::Hysteria2) == "auth"@,
        secret_name(GrantProtocol::AnyTls) == "password"@,
        wanted_credential(GrantProtocol::Vless, client).flow == client.flow,
        wanted_credential(GrantProtocol::Hysteria2, client).flow is None,
        wanted_credential(GrantProtocol::AnyTls, client).flow is None,
{
    reveal_strlit("vless");
    reveal_strlit("hysteria");
    reveal_strlit("anytls");
    assert("vless"@.len() == 5 && "hysteria"@.len() == 8 && "anytls"@.len() == 6);
}

/// An account that is described goes by its mail address, with its secret under the name that
/// its protocol has for one, and with its flow exactly where the protocol has flows.
pub proof fn lemma_description_holds_the_account(
    value: Json,
    protocol: GrantProtocol,
    client: plan::ClientView,
)
    requires
        describes_client(value, protocol, client),
    ensures
        value.text_at("email"@) == Some(client.email),
        value.text_at(
            match protocol {
                GrantProtocol::Vless => "id"@,
                GrantProtocol::Hysteria2 => "auth"@,
                GrantProtocol::AnyTls => "password"@,
            },
        ) == Some(client.uuid),
        value.text_at("flow"@) == if protocol is Vless {
            client.flow
        } else {
            None
        },
        value.get_spec("level"@) matches Some(level) && level.tree() == (json::Tree::Number {
            value: Some(client.level as u64),
            text: numbers::decimal(client.level as int),
        }),
{
    reveal_strlit("email");
    reveal_strlit("level");
    reveal_strlit("id");
    reveal_strlit("auth");
    reveal_strlit("password");
    reveal_strlit("flow");
    assert("email"@[0] == 'e' && "level"@[0] == 'l' && "flow"@[0] == 'f');
    assert("email"@ != "level"@ && "email"@.len() == 5 && "level"@.len() == 5);
    assert("auth"@[0] == 'a' && "auth"@ != "flow"@);
    reveal_with_fuel(json::field_at, 6);
}

} // verus!
