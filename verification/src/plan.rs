//! Desired and reported state, as the control plane and the agent exchange it.
use vstd::prelude::*;
use vstd::string::*;

use crate::text;

verus! {

/// What one workload's configuration should be.
#[derive(Debug, PartialEq, Eq)]
pub enum DesiredArtifact {
    Present { content: String, sha256: String },
    Disabled { reason: String },
    Unmanaged { reason: String },
}

/// What one workload's configuration was found to be.
#[derive(Debug, PartialEq, Eq)]
pub enum AppliedArtifactState {
    Present { sha256: String },
    Disabled,
    Unmanaged,
    Unknown,
    Dirty { reason: String },
}

/// One account that should be let in.
#[derive(Debug, PartialEq, Eq)]
pub struct GrantClient {
    pub email: String,
    pub uuid: String,
    pub flow: Option<String>,
    pub level: u8,
}

/// The accounts that one inbound should let in.
#[derive(Debug, PartialEq, Eq)]
pub struct GrantInbound {
    pub tag: String,
    pub clients: Vec<GrantClient>,
}

/// The accounts that all inbounds should let in.
#[derive(Debug, PartialEq, Eq)]
pub enum DesiredGrants {
    Present { inbounds: Vec<GrantInbound> },
    Disabled { reason: String },
    Unmanaged { reason: String },
}

/// One account found in a running process.
#[derive(Debug, PartialEq, Eq)]
pub struct ObservedClient {
    pub email: String,
    pub uuid: String,
    pub flow: Option<String>,
}

/// The accounts found on one inbound.
#[derive(Debug, PartialEq, Eq)]
pub struct ObservedInbound {
    pub tag: String,
    pub clients: Vec<ObservedClient>,
}

/// The accounts found on all inbounds.
#[derive(Debug, PartialEq, Eq)]
pub enum AppliedGrantsState {
    Present { inbounds: Vec<ObservedInbound> },
    Disabled,
    Unmanaged,
    Unknown,
    Dirty { reason: String },
}

/// Everything the agent reports about one machine.
#[derive(Debug, PartialEq, Eq)]
pub struct ReportedNodeState {
    pub phantun: AppliedArtifactState,
    pub wireguard: AppliedArtifactState,
    pub xray: AppliedArtifactState,
    pub hy2_port_hop: AppliedArtifactState,
    pub grants: AppliedGrantsState,
}

/// How an apply ended.
#[derive(Debug, Clone, Copy, PartialEq, Eq, Structural)]
pub enum TargetApplyResult {
    Applied,
    FailedDirty,
}

/// A reported state, by its characters.
pub enum ArtifactView {
    Present(Seq<char>),
    Disabled,
    Unmanaged,
    Unknown,
    Dirty(Seq<char>),
}

impl View for AppliedArtifactState {
    type V = ArtifactView;

    open spec fn view(&self) -> ArtifactView {
        match *self {
            AppliedArtifactState::Present { sha256 } => ArtifactView::Present(sha256@),
            AppliedArtifactState::Disabled => ArtifactView::Disabled,
            AppliedArtifactState::Unmanaged => ArtifactView::Unmanaged,
            AppliedArtifactState::Unknown => ArtifactView::Unknown,
            AppliedArtifactState::Dirty { reason } => ArtifactView::Dirty(reason@),
        }
    }
}

/// An account that should be let in, by its characters.
pub struct ClientView {
    pub email: Seq<char>,
    pub uuid: Seq<char>,
    pub flow: Option<Seq<char>>,
    pub level: u8,
}

impl View for GrantClient {
    type V = ClientView;

    open spec fn view(&self) -> ClientView {
        ClientView {
            email: self.email@,
            uuid: self.uuid@,
            flow: text::optional(self.flow),
            level: self.level,
        }
    }
}

pub open spec fn client_views(clients: Seq<GrantClient>) -> Seq<ClientView> {
    Seq::new(clients.len(), |i: int| clients[i]@)
}

/// An account found in a running process, by its characters.
pub struct ObservedView {
    pub email: Seq<char>,
    pub uuid: Seq<char>,
    pub flow: Option<Seq<char>>,
}

impl View for ObservedClient {
    type V = ObservedView;

    open spec fn view(&self) -> ObservedView {
        ObservedView { email: self.email@, uuid: self.uuid@, flow: text::optional(self.flow) }
    }
}

pub open spec fn observed_views(clients: Seq<ObservedClient>) -> Seq<ObservedView> {
    Seq::new(clients.len(), |i: int| clients[i]@)
}

/// The accounts found on one inbound, by their characters.
pub struct InboundView {
    pub tag: Seq<char>,
    pub clients: Seq<ObservedView>,
}

impl View for ObservedInbound {
    type V = InboundView;

    open spec fn view(&self) -> InboundView {
        InboundView { tag: self.tag@, clients: observed_views(self.clients@) }
    }
}

pub open spec fn inbound_views(inbounds: Seq<ObservedInbound>) -> Seq<InboundView> {
    Seq::new(inbounds.len(), |i: int| inbounds[i]@)
}

/// The accounts found on all inbounds, by their characters.
pub enum GrantsView {
    Present(Seq<InboundView>),
    Disabled,
    Unmanaged,
    Unknown,
    Dirty(Seq<char>),
}

impl View for AppliedGrantsState {
    type V = GrantsView;

    open spec fn view(&self) -> GrantsView {
        match *self {
            AppliedGrantsState::Present { inbounds } => GrantsView::Present(
                inbound_views(inbounds@),
            ),
            AppliedGrantsState::Disabled => GrantsView::Disabled,
            AppliedGrantsState::Unmanaged => GrantsView::Unmanaged,
            AppliedGrantsState::Unknown => GrantsView::Unknown,
            AppliedGrantsState::Dirty { reason } => GrantsView::Dirty(reason@),
        }
    }
}

/// A configuration of which no more is known than why it cannot be trusted.
pub fn artifact_dirty(reason: &str) -> (r: AppliedArtifactState)
    ensures
        r@ == ArtifactView::Dirty(reason@),
{
    AppliedArtifactState::Dirty { reason: reason.to_owned() }
}

/// The state of a configuration file: its digest, or why it could not be taken.
pub open spec fn file_state(digest: Result<Seq<char>, Seq<char>>, label: Seq<char>) -> ArtifactView {
    match digest {
        Ok(sha256) => ArtifactView::Present(sha256),
        Err(error) => ArtifactView::Dirty("failed to hash "@ + label + ": "@ + error),
    }
}

/// A result's characters.
pub open spec fn seen(result: Result<&str, &str>) -> Result<Seq<char>, Seq<char>> {
    match result {
        Ok(t) => Ok(t@),
        Err(e) => Err(e@),
    }
}

/// The state of a configuration file: its digest, or why it could not be taken.
pub fn present_file_state(digest: Result<&str, &str>, label: &str) -> (r: AppliedArtifactState)
    ensures
        r@ == file_state(seen(digest), label@),
{
    match digest {
        Ok(sha256) => AppliedArtifactState::Present { sha256: sha256.to_owned() },
        Err(error) => {
            let mut out = "failed to hash ".to_owned();
            out.append(label);
            out.append(": ");
            out.append(error);
            AppliedArtifactState::Dirty { reason: out }
        },
    }
}

/// The state of a machine that nothing was applied to yet.
pub fn unknown_state() -> (r: ReportedNodeState)
    ensures
        r.phantun is Unknown,
        r.wireguard is Unknown,
        r.xray is Unknown,
        r.hy2_port_hop is Unknown,
        r.grants is Unknown,
{
    ReportedNodeState {
        phantun: AppliedArtifactState::Unknown,
        wireguard: AppliedArtifactState::Unknown,
        xray: AppliedArtifactState::Unknown,
        hy2_port_hop: AppliedArtifactState::Unknown,
        grants: AppliedGrantsState::Unknown,
    }
}

} // verus!
