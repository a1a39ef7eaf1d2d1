//! The rows that access policy is made of, and the state that they form.

use vstd::prelude::*;

use crate::json;
use crate::keyed;
use crate::keyed::Row;
use crate::lattice;
use crate::lattice::Capability;
use crate::lattice::ScopeTuple;
use crate::outside;
use crate::policy_journal::AccessAuditPayload;
use crate::policy_journal::PolicyEpochPayload;
use crate::policy_journal::PolicyEventRow;
use crate::rules;
use crate::tables;
use crate::text;
use crate::text::Error;

verus! {

// --------------------------------------------------------------------------- kinds

/// Where a grant is in its life.
#[derive(Debug, Clone, Copy, PartialEq, Eq, Structural)]
pub enum GrantState {
    Active,
    Revoked,
    Retired,
}

pub open spec fn state_name(s: GrantState) -> Seq<char> {
    match s {
        GrantState::Active => "active"@,
        GrantState::Revoked => "revoked"@,
        GrantState::Retired => "retired"@,
    }
}

impl GrantState {
    pub fn as_str(self) -> (r: &'static str)
        ensures
            r@ == state_name(self),
    {
        match self {
            GrantState::Active => "active",
            GrantState::Revoked => "revoked",
            GrantState::Retired => "retired",
        }
    }

    pub fn from_str(value: &str) -> (r: Option<Self>)
        ensures
            match r {
                Some(s) => value@ == state_name(s),
                None => forall|s: GrantState| value@ != #[trigger] state_name(s),
            },
    {
        if text::same(value, "active") {
            return Some(GrantState::Active);
        }
        if text::same(value, "revoked") {
            return Some(GrantState::Revoked);
        }
        if text::same(value, "retired") {
            return Some(GrantState::Retired);
        }
        None
    }
}

/// Where a grant came from.
#[derive(Debug, Clone, Copy, PartialEq, Eq, Structural)]
pub enum GrantOrigin {
    Bootstrap,
    BoardSeed,
    Grant,
    RebindTransfer,
    BreakglassRegistryAdmin,
}

pub open spec fn origin_name(o: GrantOrigin) -> Seq<char> {
    match o {
        GrantOrigin::Bootstrap => "bootstrap"@,
        GrantOrigin::BoardSeed => "board_seed"@,
        GrantOrigin::Grant => "grant"@,
        GrantOrigin::RebindTransfer => "rebind_transfer"@,
        GrantOrigin::BreakglassRegistryAdmin => "breakglass_registry_admin"@,
    }
}

impl GrantOrigin {
    pub fn as_str(self) -> (r: &'static str)
        ensures
            r@ == origin_name(self),
    {
        match self {
            GrantOrigin::Bootstrap => "bootstrap",
            GrantOrigin::BoardSeed => "board_seed",
            GrantOrigin::Grant => "grant",
            GrantOrigin::RebindTransfer => "rebind_transfer",
            GrantOrigin::BreakglassRegistryAdmin => "breakglass_registry_admin",
        }
    }

    pub fn from_str(value: &str) -> (r: Option<Self>)
        ensures
            match r {
                Some(o) => value@ == origin_name(o),
                None => forall|o: GrantOrigin| value@ != #[trigger] origin_name(o),
            },
    {
        if text::same(value, "bootstrap") {
            return Some(GrantOrigin::Bootstrap);
        }
        if text::same(value, "board_seed") {
            return Some(GrantOrigin::BoardSeed);
        }
        if text::same(value, "grant") {
            return Some(GrantOrigin::Grant);
        }
        if text::same(value, "rebind_transfer") {
            return Some(GrantOrigin::RebindTransfer);
        }
        if text::same(value, "breakglass_registry_admin") {
            return Some(GrantOrigin::BreakglassRegistryAdmin);
        }
        None
    }
}

// ---------------------------------------------------------------------------- rows

/// A user name and a user id that belong together for good.
#[derive(Debug, Clone, PartialEq)]
pub struct PrincipalRow {
    pub id: String,
    pub username: String,
    pub uid: u32,
    pub enabled: bool,
    pub bound_at_epoch: i64,
    pub bound_by_event_id: String,
    pub disabled_at_epoch: Option<i64>,
    pub disabled_by_event_id: Option<String>,
    pub successor_id: Option<String>,
    pub predecessor_id: Option<String>,
    pub replaces: Vec<String>,
}

/// What a principal says.
pub struct PrincipalView {
    pub id: Seq<char>,
    pub username: Seq<char>,
    pub uid: u32,
    pub enabled: bool,
    pub bound_at_epoch: i64,
    pub bound_by_event_id: Seq<char>,
    pub disabled_at_epoch: Option<i64>,
    pub disabled_by_event_id: Option<Seq<char>>,
    pub successor_id: Option<Seq<char>>,
    pub predecessor_id: Option<Seq<char>>,
    pub replaces: Seq<Seq<char>>,
}

impl View for PrincipalRow {
    type V = PrincipalView;

    open spec fn view(&self) -> PrincipalView {
        PrincipalView {
            id: self.id@,
            username: self.username@,
            uid: self.uid,
            enabled: self.enabled,
            bound_at_epoch: self.bound_at_epoch,
            bound_by_event_id: self.bound_by_event_id@,
            disabled_at_epoch: self.disabled_at_epoch,
            disabled_by_event_id: text::text_of(self.disabled_by_event_id),
            successor_id: text::text_of(self.successor_id),
            predecessor_id: text::text_of(self.predecessor_id),
            replaces: text::texts(self.replaces@),
        }
    }
}

impl PrincipalRow {
    /// A copy of the row.
    pub fn copy(&self) -> (r: PrincipalRow)
        ensures
            r@ == self@,
    {
        PrincipalRow {
            id: self.id.clone(),
            username: self.username.clone(),
            uid: self.uid,
            enabled: self.enabled,
            bound_at_epoch: self.bound_at_epoch,
            bound_by_event_id: self.bound_by_event_id.clone(),
            disabled_at_epoch: self.disabled_at_epoch,
            disabled_by_event_id: self.disabled_by_event_id.clone(),
            successor_id: self.successor_id.clone(),
            predecessor_id: self.predecessor_id.clone(),
            replaces: text::copy_list(self.replaces.as_slice()),
        }
    }

    /// Whether two rows say the same.
    pub fn same(&self, other: &PrincipalRow) -> (r: bool)
        ensures
            r == (self@ == other@),
    {
        text::same(self.id.as_str(), other.id.as_str())
            && text::same(self.username.as_str(), other.username.as_str())
            && self.uid == other.uid
            && self.enabled == other.enabled
            && self.bound_at_epoch == other.bound_at_epoch
            && text::same(self.bound_by_event_id.as_str(), other.bound_by_event_id.as_str())
            && self.disabled_at_epoch == other.disabled_at_epoch
            && text::same_option(&self.disabled_by_event_id, &other.disabled_by_event_id)
            && text::same_option(&self.successor_id, &other.successor_id)
            && text::same_option(&self.predecessor_id, &other.predecessor_id)
            && text::same_list(self.replaces.as_slice(), other.replaces.as_slice())
    }
}

impl Row for PrincipalRow {
    type Shown = PrincipalView;

    open spec fn shown(self) -> PrincipalView {
        self@
    }

    open spec fn key(v: PrincipalView) -> Seq<char> {
        v.id
    }

    fn id(&self) -> (r: &str) {
        self.id.as_str()
    }

    fn is_same(&self, other: &Self) -> (r: bool) {
        self.same(other)
    }
}

/// A capability that a principal holds or held on a scope.
#[derive(Debug, Clone, PartialEq)]
pub struct Grant {
    pub id: String,
    pub principal_id: String,
    pub capability: Capability,
    pub scope: Vec<String>,
    pub state: GrantState,
    pub origin: GrantOrigin,
    pub granted_at_epoch: i64,
    pub granted_by_principal_id: Option<String>,
    pub granted_by_event_id: String,
    pub retired_at_epoch: Option<i64>,
    pub retired_by_event_id: Option<String>,
    pub transferred_from_grant_id: Option<String>,
}

/// What a grant says.
pub struct GrantView {
    pub id: Seq<char>,
    pub principal_id: Seq<char>,
    pub capability: Capability,
    pub scope: Seq<Seq<char>>,
    pub state: GrantState,
    pub origin: GrantOrigin,
    pub granted_at_epoch: i64,
    pub granted_by_principal_id: Option<Seq<char>>,
    pub granted_by_event_id: Seq<char>,
    pub retired_at_epoch: Option<i64>,
    pub retired_by_event_id: Option<Seq<char>>,
    pub transferred_from_grant_id: Option<Seq<char>>,
}

impl View for Grant {
    type V = GrantView;

    open spec fn view(&self) -> GrantView {
        GrantView {
            id: self.id@,
            principal_id: self.principal_id@,
            capability: self.capability,
            scope: text::texts(self.scope@),
            state: self.state,
            origin: self.origin,
            granted_at_epoch: self.granted_at_epoch,
            granted_by_principal_id: text::text_of(self.granted_by_principal_id),
            granted_by_event_id: self.granted_by_event_id@,
            retired_at_epoch: self.retired_at_epoch,
            retired_by_event_id: text::text_of(self.retired_by_event_id),
            transferred_from_grant_id: text::text_of(self.transferred_from_grant_id),
        }
    }
}

impl Grant {
    /// A copy of the row.
    pub fn copy(&self) -> (r: Grant)
        ensures
            r@ == self@,
    {
        Grant {
            id: self.id.clone(),
            principal_id: self.principal_id.clone(),
            capability: self.capability,
            scope: text::copy_list(self.scope.as_slice()),
            state: self.state,
            origin: self.origin,
            granted_at_epoch: self.granted_at_epoch,
            granted_by_principal_id: self.granted_by_principal_id.clone(),
            granted_by_event_id: self.granted_by_event_id.clone(),
            retired_at_epoch: self.retired_at_epoch,
            retired_by_event_id: self.retired_by_event_id.clone(),
            transferred_from_grant_id: self.transferred_from_grant_id.clone(),
        }
    }

    /// Whether two rows say the same.
    pub fn same(&self, other: &Grant) -> (r: bool)
        ensures
            r == (self@ == other@),
    {
        text::same(self.id.as_str(), other.id.as_str())
            && text::same(self.principal_id.as_str(), other.principal_id.as_str())
            && self.capability == other.capability
            && text::same_list(self.scope.as_slice(), other.scope.as_slice())
            && self.state == other.state
            && self.origin == other.origin
            && self.granted_at_epoch == other.granted_at_epoch
            && text::same_option(&self.granted_by_principal_id, &other.granted_by_principal_id)
            && text::same(self.granted_by_event_id.as_str(), other.granted_by_event_id.as_str())
            && self.retired_at_epoch == other.retired_at_epoch
            && text::same_option(&self.retired_by_event_id, &other.retired_by_event_id)
            && text::same_option(&self.transferred_from_grant_id, &other.transferred_from_grant_id)
    }
}

impl Row for Grant {
    type Shown = GrantView;

    open spec fn shown(self) -> GrantView {
        self@
    }

    open spec fn key(v: GrantView) -> Seq<char> {
        v.id
    }

    fn id(&self) -> (r: &str) {
        self.id.as_str()
    }

    fn is_same(&self, other: &Self) -> (r: bool) {
        self.same(other)
    }
}

/// A subject of an identity provider that stands for a principal.
#[derive(Debug, Clone, PartialEq)]
pub struct SsoMapping {
    pub id: String,
    pub principal_id: String,
    pub provider: String,
    pub subject: String,
    pub mapped_at_epoch: i64,
    pub mapped_by_event_id: String,
    pub unmapped_at_epoch: Option<i64>,
    pub unmapped_by_event_id: Option<String>,
}

/// What a mapping says.
pub struct SsoView {
    pub id: Seq<char>,
    pub principal_id: Seq<char>,
    pub provider: Seq<char>,
    pub subject: Seq<char>,
    pub mapped_at_epoch: i64,
    pub mapped_by_event_id: Seq<char>,
    pub unmapped_at_epoch: Option<i64>,
    pub unmapped_by_event_id: Option<Seq<char>>,
}

impl View for SsoMapping {
    type V = SsoView;

    open spec fn view(&self) -> SsoView {
        SsoView {
            id: self.id@,
            principal_id: self.principal_id@,
            provider: self.provider@,
            subject: self.subject@,
            mapped_at_epoch: self.mapped_at_epoch,
            mapped_by_event_id: self.mapped_by_event_id@,
            unmapped_at_epoch: self.unmapped_at_epoch,
            unmapped_by_event_id: text::text_of(self.unmapped_by_event_id),
        }
    }
}

impl SsoMapping {
    /// A copy of the row.
    pub fn copy(&self) -> (r: SsoMapping)
        ensures
            r@ == self@,
    {
        SsoMapping {
            id: self.id.clone(),
            principal_id: self.principal_id.clone(),
            provider: self.provider.clone(),
            subject: self.subject.clone(),
            mapped_at_epoch: self.mapped_at_epoch,
            mapped_by_event_id: self.mapped_by_event_id.clone(),
            unmapped_at_epoch: self.unmapped_at_epoch,
            unmapped_by_event_id: self.unmapped_by_event_id.clone(),
        }
    }

    /// Whether two rows say the same.
    pub fn same(&self, other: &SsoMapping) -> (r: bool)
        ensures
            r == (self@ == other@),
    {
        text::same(self.id.as_str(), other.id.as_str())
            && text::same(self.principal_id.as_str(), other.principal_id.as_str())
            && text::same(self.provider.as_str(), other.provider.as_str())
            && text::same(self.subject.as_str(), other.subject.as_str())
            && self.mapped_at_epoch == other.mapped_at_epoch
            && text::same(self.mapped_by_event_id.as_str(), other.mapped_by_event_id.as_str())
            && self.unmapped_at_epoch == other.unmapped_at_epoch
            && text::same_option(&self.unmapped_by_event_id, &other.unmapped_by_event_id)
    }
}

impl Row for SsoMapping {
    type Shown = SsoView;

    open spec fn shown(self) -> SsoView {
        self@
    }

    open spec fn key(v: SsoView) -> Seq<char> {
        v.id
    }

    fn id(&self) -> (r: &str) {
        self.id.as_str()
    }

    fn is_same(&self, other: &Self) -> (r: bool) {
        self.same(other)
    }
}

/// The end of a grant.
#[derive(Debug, Clone, PartialEq)]
pub struct GrantRetirement {
    pub id: String,
    pub retired_at_epoch: i64,
    pub retired_by_event_id: String,
}

/// What the end of a grant says.
pub struct GrantRetirementView {
    pub id: Seq<char>,
    pub retired_at_epoch: i64,
    pub retired_by_event_id: Seq<char>,
}

impl View for GrantRetirement {
    type V = GrantRetirementView;

    open spec fn view(&self) -> GrantRetirementView {
        GrantRetirementView {
            id: self.id@,
            retired_at_epoch: self.retired_at_epoch,
            retired_by_event_id: self.retired_by_event_id@,
        }
    }
}

impl GrantRetirement {
    /// A copy of the row.
    pub fn copy(&self) -> (r: GrantRetirement)
        ensures
            r@ == self@,
    {
        GrantRetirement {
            id: self.id.clone(),
            retired_at_epoch: self.retired_at_epoch,
            retired_by_event_id: self.retired_by_event_id.clone(),
        }
    }

    /// Whether two rows say the same.
    pub fn same(&self, other: &GrantRetirement) -> (r: bool)
        ensures
            r == (self@ == other@),
    {
        text::same(self.id.as_str(), other.id.as_str())
            && self.retired_at_epoch == other.retired_at_epoch
            && text::same(self.retired_by_event_id.as_str(), other.retired_by_event_id.as_str())
    }
}

/// The end of a mapping.
#[derive(Debug, Clone, PartialEq)]
pub struct MappingRetirement {
    pub id: String,
    pub unmapped_at_epoch: i64,
    pub unmapped_by_event_id: String,
}

/// What the end of a mapping says.
pub struct MappingRetirementView {
    pub id: Seq<char>,
    pub unmapped_at_epoch: i64,
    pub unmapped_by_event_id: Seq<char>,
}

impl View for MappingRetirement {
    type V = MappingRetirementView;

    open spec fn view(&self) -> MappingRetirementView {
        MappingRetirementView {
            id: self.id@,
            unmapped_at_epoch: self.unmapped_at_epoch,
            unmapped_by_event_id: self.unmapped_by_event_id@,
        }
    }
}

impl MappingRetirement {
    /// A copy of the row.
    pub fn copy(&self) -> (r: MappingRetirement)
        ensures
            r@ == self@,
    {
        MappingRetirement {
            id: self.id.clone(),
            unmapped_at_epoch: self.unmapped_at_epoch,
            unmapped_by_event_id: self.unmapped_by_event_id.clone(),
        }
    }

    /// Whether two rows say the same.
    pub fn same(&self, other: &MappingRetirement) -> (r: bool)
        ensures
            r == (self@ == other@),
    {
        text::same(self.id.as_str(), other.id.as_str())
            && self.unmapped_at_epoch == other.unmapped_at_epoch
            && text::same(self.unmapped_by_event_id.as_str(), other.unmapped_by_event_id.as_str())
    }
}

pub open spec fn grant_ends(s: Seq<GrantRetirement>) -> Seq<GrantRetirementView> {
    s.map_values(|x: GrantRetirement| x@)
}

pub open spec fn mapping_ends(s: Seq<MappingRetirement>) -> Seq<MappingRetirementView> {
    s.map_values(|x: MappingRetirement| x@)
}

impl Grant {
    /// The scope of the grant.
    pub fn scope_tuple(&self) -> (r: ScopeTuple)
        requires
            lattice::scope_of(text::texts(self.scope@)) is Ok,
        ensures
            r@ == lattice::scope_of(text::texts(self.scope@))->Ok_0,
    {
        match ScopeTuple::from_atoms(self.scope.as_slice()) {
            Ok(scope) => scope,
            Err(_) => ScopeTuple::Registry,
        }
    }
}

// ------------------------------------------------------------------------- as text

pub open spec fn optional_number(n: Option<i64>) -> Seq<char> {
    match n {
        Some(n) => text::decimal(n as int),
        None => "null"@,
    }
}

fn show_optional(n: Option<i64>) -> (r: String)
    ensures
        r@ == optional_number(n),
{
    match n {
        Some(n) => text::show_i64(n),
        None => "null".to_owned(),
    }
}

pub open spec fn principal_members(v: PrincipalView) -> Seq<Seq<char>> {
    seq![
        json::member("id"@, outside::json_text(v.id)),
        json::member("username"@, outside::json_text(v.username)),
        json::member("uid"@, text::decimal(v.uid as int)),
        json::member("enabled"@, json::boolean(v.enabled)),
        json::member("boundAtEpoch"@, text::decimal(v.bound_at_epoch as int)),
        json::member("boundByEventID"@, outside::json_text(v.bound_by_event_id)),
        json::member("disabledAtEpoch"@, optional_number(v.disabled_at_epoch)),
        json::member("disabledByEventID"@, json::optional(v.disabled_by_event_id)),
        json::member("successorID"@, json::optional(v.successor_id)),
        json::member("predecessorID"@, json::optional(v.predecessor_id)),
        json::member("replaces"@, json::array(v.replaces)),
    ]
}

/// The JSON text of a principal.
pub open spec fn principal_json(v: PrincipalView) -> Seq<char> {
    json::object(principal_members(v))
}

fn write_principal(row: &PrincipalRow) -> (r: String)
    ensures
        r@ == principal_json(row@),
{
    let members: Vec<String> = vec![
        json::text_member("id", row.id.as_str()),
        json::text_member("username", row.username.as_str()),
        json::write_member("uid", text::show_u64(row.uid as u64).as_str()),
        json::write_member("enabled", json::write_boolean(row.enabled).as_str()),
        json::write_member("boundAtEpoch", text::show_i64(row.bound_at_epoch).as_str()),
        json::text_member("boundByEventID", row.bound_by_event_id.as_str()),
        json::write_member("disabledAtEpoch", show_optional(row.disabled_at_epoch).as_str()),
        json::write_member("disabledByEventID", json::write_optional(&row.disabled_by_event_id).as_str()),
        json::write_member("successorID", json::write_optional(&row.successor_id).as_str()),
        json::write_member("predecessorID", json::write_optional(&row.predecessor_id).as_str()),
        json::write_member("replaces", json::write_array(row.replaces.as_slice()).as_str()),
    ];
    proof {
        assert(text::texts(members@) =~= principal_members(row@));
    }
    json::write_object(members.as_slice())
}

pub open spec fn grant_members(v: GrantView) -> Seq<Seq<char>> {
    seq![
        json::member("id"@, outside::json_text(v.id)),
        json::member("principalID"@, outside::json_text(v.principal_id)),
        json::member("capability"@, outside::json_text(lattice::capability_text(v.capability))),
        json::member("scope"@, json::array(v.scope)),
        json::member("state"@, outside::json_text(state_name(v.state))),
        json::member("origin"@, outside::json_text(origin_name(v.origin))),
        json::member("grantedAtEpoch"@, text::decimal(v.granted_at_epoch as int)),
        json::member("grantedByPrincipalID"@, json::optional(v.granted_by_principal_id)),
        json::member("grantedByEventID"@, outside::json_text(v.granted_by_event_id)),
        json::member("retiredAtEpoch"@, optional_number(v.retired_at_epoch)),
        json::member("retiredByEventID"@, json::optional(v.retired_by_event_id)),
        json::member("transferredFromGrantID"@, json::optional(v.transferred_from_grant_id)),
    ]
}

/// The JSON text of a grant.
pub open spec fn grant_json(v: GrantView) -> Seq<char> {
    json::object(grant_members(v))
}

fn write_grant(row: &Grant) -> (r: String)
    ensures
        r@ == grant_json(row@),
{
    let members: Vec<String> = vec![
        json::text_member("id", row.id.as_str()),
        json::text_member("principalID", row.principal_id.as_str()),
        json::text_member("capability", row.capability.as_str()),
        json::write_member("scope", json::write_array(row.scope.as_slice()).as_str()),
        json::text_member("state", row.state.as_str()),
        json::text_member("origin", row.origin.as_str()),
        json::write_member("grantedAtEpoch", text::show_i64(row.granted_at_epoch).as_str()),
        json::write_member("grantedByPrincipalID", json::write_optional(&row.granted_by_principal_id).as_str()),
        json::text_member("grantedByEventID", row.granted_by_event_id.as_str()),
        json::write_member("retiredAtEpoch", show_optional(row.retired_at_epoch).as_str()),
        json::write_member("retiredByEventID", json::write_optional(&row.retired_by_event_id).as_str()),
        json::write_member("transferredFromGrantID", json::write_optional(&row.transferred_from_grant_id).as_str()),
    ];
    proof {
        assert(text::texts(members@) =~= grant_members(row@));
    }
    json::write_object(members.as_slice())
}

pub open spec fn mapping_members(v: SsoView) -> Seq<Seq<char>> {
    seq![
        json::member("id"@, outside::json_text(v.id)),
        json::member("principalID"@, outside::json_text(v.principal_id)),
        json::member("provider"@, outside::json_text(v.provider)),
        json::member("subject"@, outside::json_text(v.subject)),
        json::member("mappedAtEpoch"@, text::decimal(v.mapped_at_epoch as int)),
        json::member("mappedByEventID"@, outside::json_text(v.mapped_by_event_id)),
    ]
}

/// The JSON text of a mapping; its end is left out where it has none.
pub open spec fn mapping_json(v: SsoView) -> Seq<char> {
    let at = match v.unmapped_at_epoch {
        Some(epoch) => seq![json::member("unmappedAtEpoch"@, text::decimal(epoch as int))],
        None => seq![],
    };
    let by = match v.unmapped_by_event_id {
        Some(id) => seq![json::member("unmappedByEventID"@, outside::json_text(id))],
        None => seq![],
    };
    json::object(mapping_members(v) + at + by)
}

fn write_mapping(row: &SsoMapping) -> (r: String)
    ensures
        r@ == mapping_json(row@),
{
    let mut members: Vec<String> = vec![
        json::text_member("id", row.id.as_str()),
        json::text_member("principalID", row.principal_id.as_str()),
        json::text_member("provider", row.provider.as_str()),
        json::text_member("subject", row.subject.as_str()),
        json::write_member("mappedAtEpoch", text::show_i64(row.mapped_at_epoch).as_str()),
        json::text_member("mappedByEventID", row.mapped_by_event_id.as_str()),
    ];
    proof {
        assert(text::texts(members@) =~= mapping_members(row@));
    }
    let ghost base = text::texts(members@);
    if let Some(epoch) = row.unmapped_at_epoch {
        members.push(json::write_member("unmappedAtEpoch", text::show_i64(epoch).as_str()));
    }
    let ghost at = match row.unmapped_at_epoch {
        Some(epoch) => seq![json::member("unmappedAtEpoch"@, text::decimal(epoch as int))],
        None => seq![],
    };
    proof {
        assert(text::texts(members@) =~= base + at);
    }
    if let Some(id) = &row.unmapped_by_event_id {
        members.push(json::text_member("unmappedByEventID", id.as_str()));
    }
    proof {
        let by = match text::text_of(row.unmapped_by_event_id) {
            Some(id) => seq![json::member("unmappedByEventID"@, outside::json_text(id))],
            None => seq![],
        };
        assert(text::texts(members@) =~= base + at + by);
    }
    json::write_object(members.as_slice())
}

// --------------------------------------------------------------------------- state

/// Everything that policy is decided by.
pub struct PolicyState {
    pub principals: Seq<PrincipalView>,
    pub grants: Seq<GrantView>,
    pub mappings: Seq<SsoView>,
    pub enforcement: Seq<char>,
}

/// The state before the first event.
pub open spec fn empty_state() -> PolicyState {
    PolicyState { principals: seq![], grants: seq![], mappings: seq![], enforcement: "direct"@ }
}

/// The lines that the state is hashed as.
pub open spec fn state_lines(st: PolicyState) -> Seq<Seq<char>> {
    seq!["enforcement="@ + st.enforcement] + st.principals.map_values(
        |p: PrincipalView| "principal="@ + principal_json(p),
    ) + st.grants.map_values(|g: GrantView| "grant="@ + grant_json(g)) + st.mappings.map_values(
        |m: SsoView| "mapping="@ + mapping_json(m),
    )
}

/// The digest of the state.
pub open spec fn state_hash(st: PolicyState) -> Seq<char> {
    rules::sha256_hex(vstd::utf8::encode_utf8(text::joined(state_lines(st), "\n"@)))
}

/// What one event changes.
#[derive(Debug, Clone, PartialEq)]
pub struct PolicyEffect {
    pub principals: Vec<PrincipalRow>,
    pub grants: Vec<Grant>,
    pub retired_grants: Vec<GrantRetirement>,
    pub mappings: Vec<SsoMapping>,
    pub unmapped_mappings: Vec<MappingRetirement>,
    pub enforcement: Option<String>,
}

/// What an effect says.
pub struct EffectView {
    pub principals: Seq<PrincipalView>,
    pub grants: Seq<GrantView>,
    pub retired_grants: Seq<GrantRetirementView>,
    pub mappings: Seq<SsoView>,
    pub unmapped_mappings: Seq<MappingRetirementView>,
    pub enforcement: Option<Seq<char>>,
}

impl View for PolicyEffect {
    type V = EffectView;

    open spec fn view(&self) -> EffectView {
        EffectView {
            principals: keyed::rows(self.principals@),
            grants: keyed::rows(self.grants@),
            retired_grants: grant_ends(self.retired_grants@),
            mappings: keyed::rows(self.mappings@),
            unmapped_mappings: mapping_ends(self.unmapped_mappings@),
            enforcement: text::text_of(self.enforcement),
        }
    }
}

pub open spec fn no_effect() -> EffectView {
    EffectView {
        principals: seq![],
        grants: seq![],
        retired_grants: seq![],
        mappings: seq![],
        unmapped_mappings: seq![],
        enforcement: None,
    }
}

impl PolicyEffect {
    /// An effect that changes nothing.
    pub fn none() -> (r: PolicyEffect)
        ensures
            r@ == no_effect(),
    {
        let r = PolicyEffect {
            principals: Vec::new(),
            grants: Vec::new(),
            retired_grants: Vec::new(),
            mappings: Vec::new(),
            unmapped_mappings: Vec::new(),
            enforcement: None,
        };
        proof {
            assert(r@.principals =~= seq![]);
            assert(r@.grants =~= seq![]);
            assert(r@.retired_grants =~= seq![]);
            assert(r@.mappings =~= seq![]);
            assert(r@.unmapped_mappings =~= seq![]);
        }
        r
    }
}

/// The grants with one ended.
pub open spec fn end_grant(s: Seq<GrantView>, end: GrantRetirementView) -> Seq<GrantView> {
    let i = keyed::index_of::<Grant>(s, end.id);
    if i < s.len() {
        s.update(
            i,
            GrantView {
                state: GrantState::Retired,
                retired_at_epoch: Some(end.retired_at_epoch),
                retired_by_event_id: Some(end.retired_by_event_id),
                ..s[i]
            },
        )
    } else {
        s
    }
}

pub open spec fn end_grants(s: Seq<GrantView>, ends: Seq<GrantRetirementView>) -> Seq<GrantView>
    decreases ends.len(),
{
    if ends.len() == 0 {
        s
    } else {
        end_grant(end_grants(s, ends.drop_last()), ends.last())
    }
}

/// The mappings with one ended.
pub open spec fn end_mapping(s: Seq<SsoView>, end: MappingRetirementView) -> Seq<SsoView> {
    let i = keyed::index_of::<SsoMapping>(s, end.id);
    if i < s.len() {
        s.update(
            i,
            SsoView {
                unmapped_at_epoch: Some(end.unmapped_at_epoch),
                unmapped_by_event_id: Some(end.unmapped_by_event_id),
                ..s[i]
            },
        )
    } else {
        s
    }
}

pub open spec fn end_mappings(s: Seq<SsoView>, ends: Seq<MappingRetirementView>) -> Seq<SsoView>
    decreases ends.len(),
{
    if ends.len() == 0 {
        s
    } else {
        end_mapping(end_mappings(s, ends.drop_last()), ends.last())
    }
}

/// The state after an effect. Grants and mappings end before others begin.
pub open spec fn applied(st: PolicyState, e: EffectView) -> PolicyState {
    PolicyState {
        principals: keyed::put_all::<PrincipalRow>(st.principals, e.principals),
        grants: keyed::put_all::<Grant>(end_grants(st.grants, e.retired_grants), e.grants),
        mappings: keyed::put_all::<SsoMapping>(
            end_mappings(st.mappings, e.unmapped_mappings),
            e.mappings,
        ),
        enforcement: match e.enforcement {
            Some(state) => state,
            None => st.enforcement,
        },
    }
}

/// None of the rows' ids is in the table, and no two rows share one.
pub open spec fn all_new<T: Row>(s: Seq<T::Shown>, vs: Seq<T::Shown>) -> bool {
    &&& forall|i: int| 0 <= i < vs.len() ==> !keyed::has_id::<T>(s, T::key(#[trigger] vs[i]))
    &&& forall|i: int, j: int|
        0 <= i < j < vs.len() ==> T::key(#[trigger] vs[i]) != T::key(#[trigger] vs[j])
}

/// The grants and mappings that an effect begins are new.
pub open spec fn fits(st: PolicyState, e: EffectView) -> bool {
    &&& all_new::<Grant>(st.grants, e.grants)
    &&& all_new::<SsoMapping>(st.mappings, e.mappings)
}

/// What an effect fails with whose grants or mappings have ids that are in use.
pub open spec fn clash(st: PolicyState, e: EffectView) -> Option<Seq<char>> {
    if !all_new::<Grant>(st.grants, e.grants) {
        Some("UNIQUE constraint failed: grants.id"@)
    } else if !all_new::<SsoMapping>(st.mappings, e.mappings) {
        Some("UNIQUE constraint failed: sso_mappings.id"@)
    } else {
        None
    }
}

// --------------------------------------------------------------------------- tables

/// The tables of access policy.
#[derive(Debug)]
pub struct PolicyTables {
    pub principals: Vec<PrincipalRow>,
    pub grants: Vec<Grant>,
    pub mappings: Vec<SsoMapping>,
    pub enforcement: String,
    pub events: Vec<PolicyEventRow>,
    pub epochs: Vec<PolicyEpochPayload>,
    pub audits: Vec<AccessAuditPayload>,
}

impl PolicyTables {
    pub open spec fn state(self) -> PolicyState {
        PolicyState {
            principals: keyed::rows(self.principals@),
            grants: keyed::rows(self.grants@),
            mappings: keyed::rows(self.mappings@),
            enforcement: self.enforcement@,
        }
    }

    /// Nothing has happened yet.
    pub open spec fn is_empty(self) -> bool {
        &&& self.state() == empty_state()
        &&& self.events@.len() == 0
        &&& self.epochs@.len() == 0
        &&& self.audits@.len() == 0
    }

    pub fn new() -> (r: PolicyTables)
        ensures
            r.is_empty(),
            r.wf(),
    {
        let r = PolicyTables {
            principals: Vec::new(),
            grants: Vec::new(),
            mappings: Vec::new(),
            enforcement: "direct".to_owned(),
            events: Vec::new(),
            epochs: Vec::new(),
            audits: Vec::new(),
        };
        proof {
            assert(r.state().principals =~= seq![]);
            assert(r.state().grants =~= seq![]);
            assert(r.state().mappings =~= seq![]);
        }
        r
    }

    /// The tables are in the order of their ids, and every grant has a scope.
    pub open spec fn wf(self) -> bool {
        sound(self.state())
    }
}

/// The rows are in the order of their ids, and every grant has a scope.
pub open spec fn sound(st: PolicyState) -> bool {
    &&& keyed::by_id::<PrincipalRow>(st.principals)
    &&& keyed::by_id::<Grant>(st.grants)
    &&& keyed::by_id::<SsoMapping>(st.mappings)
    &&& scoped(st.grants)
}

pub open spec fn scoped(grants: Seq<GrantView>) -> bool {
    forall|i: int|
        0 <= i < grants.len() ==> lattice::scope_of((#[trigger] grants[i]).scope) is Ok
}

/// Whether no row's id is in a table, and no two rows share one.
fn are_new<T: Row>(table: &[T], list: &[T]) -> (r: bool)
    ensures
        r == all_new::<T>(keyed::rows(table@), keyed::rows(list@)),
{
    let ghost all = keyed::rows(table@);
    let ghost vs = keyed::rows(list@);
    let mut i: usize = 0;
    while i < list.len()
        invariant
            i <= list@.len(),
            all == keyed::rows(table@),
            vs == keyed::rows(list@),
            forall|k: int| 0 <= k < i ==> !keyed::has_id::<T>(all, T::key(#[trigger] vs[k])),
            forall|j: int, k: int|
                0 <= j < k < i ==> T::key(#[trigger] vs[j]) != T::key(#[trigger] vs[k]),
        decreases list.len() - i,
    {
        proof {
            assert(vs[i as int] == list@[i as int].shown());
        }
        let id = list[i].id();
        if keyed::find(table, id) < table.len() {
            return false;
        }
        let mut j: usize = 0;
        while j < i
            invariant
                j <= i,
                i < list@.len(),
                vs == keyed::rows(list@),
                id@ == T::key(vs[i as int]),
                forall|k: int| 0 <= k < j ==> T::key(#[trigger] vs[k]) != id@,
            decreases i - j,
        {
            proof {
                assert(vs[j as int] == list@[j as int].shown());
            }
            if text::same(list[j].id(), id) {
                return false;
            }
            j = j + 1;
        }
        i = i + 1;
    }
    true
}

/// The grants and mappings that an effect begins have ids that are not in use.
pub fn check_new(tables: &PolicyTables, effect: &PolicyEffect) -> (r: Result<(), Error>)
    ensures
        match clash(tables.state(), effect@) {
            Some(m) => text::refused(r, m),
            None => r is Ok,
        },
{
    if !are_new(tables.grants.as_slice(), effect.grants.as_slice()) {
        return text::refuse("UNIQUE constraint failed: grants.id".to_owned());
    }
    if !are_new(tables.mappings.as_slice(), effect.mappings.as_slice()) {
        return text::refuse("UNIQUE constraint failed: sso_mappings.id".to_owned());
    }
    Ok(())
}

// ------------------------------------------------------------------------ the digest

fn principal_lines(out: &mut Vec<String>, list: &[PrincipalRow])
    ensures
        text::texts(final(out)@) == text::texts(old(out)@) + keyed::rows(list@).map_values(
            |p: PrincipalView| "principal="@ + principal_json(p),
        ),
{
    let ghost first = text::texts(out@);
    let ghost lines = keyed::rows(list@).map_values(
        |p: PrincipalView| "principal="@ + principal_json(p),
    );
    let mut i: usize = 0;
    proof {
        assert(first + lines.take(0) =~= first);
    }
    while i < list.len()
        invariant
            i <= list@.len(),
            lines == keyed::rows(list@).map_values(
                |p: PrincipalView| "principal="@ + principal_json(p),
            ),
            text::texts(out@) == first + lines.take(i as int),
        decreases list.len() - i,
    {
        let ghost before = text::texts(out@);
        let line = "principal=".to_owned().concat(write_principal(&list[i]).as_str());
        out.push(line);
        proof {
            assert(line@ == lines[i as int]);
            assert(text::texts(out@) =~= before.push(line@));
            assert(first + lines.take(i as int + 1) =~= (first + lines.take(i as int)).push(
                lines[i as int],
            ));
        }
        i = i + 1;
    }
    proof {
        assert(lines.take(lines.len() as int) =~= lines);
    }
}

fn grant_lines(out: &mut Vec<String>, list: &[Grant])
    ensures
        text::texts(final(out)@) == text::texts(old(out)@) + keyed::rows(list@).map_values(
            |g: GrantView| "grant="@ + grant_json(g),
        ),
{
    let ghost first = text::texts(out@);
    let ghost lines = keyed::rows(list@).map_values(|g: GrantView| "grant="@ + grant_json(g));
    let mut i: usize = 0;
    proof {
        assert(first + lines.take(0) =~= first);
    }
    while i < list.len()
        invariant
            i <= list@.len(),
            lines == keyed::rows(list@).map_values(|g: GrantView| "grant="@ + grant_json(g)),
            text::texts(out@) == first + lines.take(i as int),
        decreases list.len() - i,
    {
        let ghost before = text::texts(out@);
        let line = "grant=".to_owned().concat(write_grant(&list[i]).as_str());
        out.push(line);
        proof {
            assert(line@ == lines[i as int]);
            assert(text::texts(out@) =~= before.push(line@));
            assert(first + lines.take(i as int + 1) =~= (first + lines.take(i as int)).push(
                lines[i as int],
            ));
        }
        i = i + 1;
    }
    proof {
        assert(lines.take(lines.len() as int) =~= lines);
    }
}

fn mapping_lines(out: &mut Vec<String>, list: &[SsoMapping])
    ensures
        text::texts(final(out)@) == text::texts(old(out)@) + keyed::rows(list@).map_values(
            |m: SsoView| "mapping="@ + mapping_json(m),
        ),
{
    let ghost first = text::texts(out@);
    let ghost lines = keyed::rows(list@).map_values(|m: SsoView| "mapping="@ + mapping_json(m));
    let mut i: usize = 0;
    proof {
        assert(first + lines.take(0) =~= first);
    }
    while i < list.len()
        invariant
            i <= list@.len(),
            lines == keyed::rows(list@).map_values(|m: SsoView| "mapping="@ + mapping_json(m)),
            text::texts(out@) == first + lines.take(i as int),
        decreases list.len() - i,
    {
        let ghost before = text::texts(out@);
        let line = "mapping=".to_owned().concat(write_mapping(&list[i]).as_str());
        out.push(line);
        proof {
            assert(line@ == lines[i as int]);
            assert(text::texts(out@) =~= before.push(line@));
            assert(first + lines.take(i as int + 1) =~= (first + lines.take(i as int)).push(
                lines[i as int],
            ));
        }
        i = i + 1;
    }
    proof {
        assert(lines.take(lines.len() as int) =~= lines);
    }
}

/// The digest of the state that the tables form.
pub fn compute_state_hash(tables: &PolicyTables) -> (r: String)
    ensures
        r@ == state_hash(tables.state()),
{
    let mut lines: Vec<String> = Vec::new();
    lines.push("enforcement=".to_owned().concat(tables.enforcement.as_str()));
    proof {
        assert(text::texts(lines@) =~= seq!["enforcement="@ + tables.enforcement@]);
    }
    principal_lines(&mut lines, tables.principals.as_slice());
    grant_lines(&mut lines, tables.grants.as_slice());
    mapping_lines(&mut lines, tables.mappings.as_slice());
    let joined = text::join(lines.as_slice(), "\n");
    rules::bytes_sha256(joined.as_str().as_bytes())
}

/// The digest of the state before the first event.
pub fn compute_empty_state_hash() -> (r: String)
    ensures
        r@ == state_hash(empty_state()),
{
    let joined = "enforcement=direct";
    proof {
        let lines = state_lines(empty_state());
        reveal_strlit("enforcement=");
        reveal_strlit("direct");
        reveal_strlit("enforcement=direct");
        assert(joined@ =~= "enforcement="@ + "direct"@);
        assert(lines =~= seq![joined@]);
        assert(lines.drop_last() =~= seq![]);
        reveal_with_fuel(text::joined, 2);
        assert(text::joined(lines, "\n"@) =~= joined@);
    }
    rules::bytes_sha256(joined.as_bytes())
}

// ---------------------------------------------------------------------- applying

pub(crate) fn apply_grant_ends(table: &mut Vec<Grant>, ends: &[GrantRetirement])
    ensures
        keyed::rows(final(table)@) == end_grants(keyed::rows(old(table)@), grant_ends(ends@)),
{
    let ghost first = keyed::rows(table@);
    let ghost all = grant_ends(ends@);
    let mut i: usize = 0;
    proof {
        assert(all.take(0) =~= seq![]);
    }
    while i < ends.len()
        invariant
            i <= ends@.len(),
            all == grant_ends(ends@),
            keyed::rows(table@) == end_grants(first, all.take(i as int)),
        decreases ends.len() - i,
    {
        let ghost before = keyed::rows(table@);
        proof {
            assert(all.take(i as int + 1).drop_last() =~= all.take(i as int));
            assert(all.take(i as int + 1).last() == ends@[i as int]@);
        }
        let k: usize = keyed::find(table.as_slice(), ends[i].id.as_str());
        if k < table.len() {
            let mut row = table[k].copy();
            row.state = GrantState::Retired;
            row.retired_at_epoch = Some(ends[i].retired_at_epoch);
            row.retired_by_event_id = Some(ends[i].retired_by_event_id.clone());
            table.set(k, row);
            proof {
                assert(keyed::rows(table@) =~= before.update(k as int, row@));
            }
        }
        i = i + 1;
    }
    proof {
        assert(all.take(all.len() as int) =~= all);
    }
}

pub(crate) fn apply_mapping_ends(table: &mut Vec<SsoMapping>, ends: &[MappingRetirement])
    ensures
        keyed::rows(final(table)@) == end_mappings(keyed::rows(old(table)@), mapping_ends(ends@)),
{
    let ghost first = keyed::rows(table@);
    let ghost all = mapping_ends(ends@);
    let mut i: usize = 0;
    proof {
        assert(all.take(0) =~= seq![]);
    }
    while i < ends.len()
        invariant
            i <= ends@.len(),
            all == mapping_ends(ends@),
            keyed::rows(table@) == end_mappings(first, all.take(i as int)),
        decreases ends.len() - i,
    {
        let ghost before = keyed::rows(table@);
        proof {
            assert(all.take(i as int + 1).drop_last() =~= all.take(i as int));
            assert(all.take(i as int + 1).last() == ends@[i as int]@);
        }
        let k: usize = keyed::find(table.as_slice(), ends[i].id.as_str());
        if k < table.len() {
            let mut row = table[k].copy();
            row.unmapped_at_epoch = Some(ends[i].unmapped_at_epoch);
            row.unmapped_by_event_id = Some(ends[i].unmapped_by_event_id.clone());
            table.set(k, row);
            proof {
                assert(keyed::rows(table@) =~= before.update(k as int, row@));
            }
        }
        i = i + 1;
    }
    proof {
        assert(all.take(all.len() as int) =~= all);
    }
}

pub(crate) fn place_principals(table: &mut Vec<PrincipalRow>, list: &[PrincipalRow])
    ensures
        keyed::rows(final(table)@) == keyed::put_all::<PrincipalRow>(
            keyed::rows(old(table)@),
            keyed::rows(list@),
        ),
{
    let ghost first = keyed::rows(table@);
    let ghost all = keyed::rows(list@);
    let mut i: usize = 0;
    proof {
        assert(all.take(0) =~= seq![]);
    }
    while i < list.len()
        invariant
            i <= list@.len(),
            all == keyed::rows(list@),
            keyed::rows(table@) == keyed::put_all::<PrincipalRow>(first, all.take(i as int)),
        decreases list.len() - i,
    {
        proof {
            assert(all.take(i as int + 1).drop_last() =~= all.take(i as int));
            assert(all.take(i as int + 1).last() == list@[i as int]@);
        }
        keyed::place(table, list[i].copy());
        i = i + 1;
    }
    proof {
        assert(all.take(all.len() as int) =~= all);
    }
}

pub(crate) fn place_grants(table: &mut Vec<Grant>, list: &[Grant])
    ensures
        keyed::rows(final(table)@) == keyed::put_all::<Grant>(
            keyed::rows(old(table)@),
            keyed::rows(list@),
        ),
{
    let ghost first = keyed::rows(table@);
    let ghost all = keyed::rows(list@);
    let mut i: usize = 0;
    proof {
        assert(all.take(0) =~= seq![]);
    }
    while i < list.len()
        invariant
            i <= list@.len(),
            all == keyed::rows(list@),
            keyed::rows(table@) == keyed::put_all::<Grant>(first, all.take(i as int)),
        decreases list.len() - i,
    {
        proof {
            assert(all.take(i as int + 1).drop_last() =~= all.take(i as int));
            assert(all.take(i as int + 1).last() == list@[i as int]@);
        }
        keyed::place(table, list[i].copy());
        i = i + 1;
    }
    proof {
        assert(all.take(all.len() as int) =~= all);
    }
}

pub(crate) fn place_mappings(table: &mut Vec<SsoMapping>, list: &[SsoMapping])
    ensures
        keyed::rows(final(table)@) == keyed::put_all::<SsoMapping>(
            keyed::rows(old(table)@),
            keyed::rows(list@),
        ),
{
    let ghost first = keyed::rows(table@);
    let ghost all = keyed::rows(list@);
    let mut i: usize = 0;
    proof {
        assert(all.take(0) =~= seq![]);
    }
    while i < list.len()
        invariant
            i <= list@.len(),
            all == keyed::rows(list@),
            keyed::rows(table@) == keyed::put_all::<SsoMapping>(first, all.take(i as int)),
        decreases list.len() - i,
    {
        proof {
            assert(all.take(i as int + 1).drop_last() =~= all.take(i as int));
            assert(all.take(i as int + 1).last() == list@[i as int]@);
        }
        keyed::place(table, list[i].copy());
        i = i + 1;
    }
    proof {
        assert(all.take(all.len() as int) =~= all);
    }
}

/// Apply the effect of one event to the tables.
pub fn apply_effect(tables: &mut PolicyTables, effect: &PolicyEffect)
    requires
        fits(old(tables).state(), effect@),
    ensures
        final(tables).state() == applied(old(tables).state(), effect@),
        final(tables).events == old(tables).events,
        final(tables).epochs == old(tables).epochs,
        final(tables).audits == old(tables).audits,
{
    place_principals(&mut tables.principals, effect.principals.as_slice());
    apply_grant_ends(&mut tables.grants, effect.retired_grants.as_slice());
    apply_mapping_ends(&mut tables.mappings, effect.unmapped_mappings.as_slice());
    place_grants(&mut tables.grants, effect.grants.as_slice());
    place_mappings(&mut tables.mappings, effect.mappings.as_slice());
    if let Some(state) = &effect.enforcement {
        tables.enforcement = state.clone();
    }
}

// -------------------------------------------------------------------------- queries

pub open spec fn held_by(principal: Seq<char>) -> spec_fn(GrantView) -> bool {
    |g: GrantView| g.principal_id == principal
}

pub open spec fn active_for(principal: Seq<char>) -> spec_fn(GrantView) -> bool {
    |g: GrantView| g.principal_id == principal && g.state == GrantState::Active
}

pub open spec fn mapped_to(principal: Seq<char>) -> spec_fn(SsoView) -> bool {
    |m: SsoView| m.principal_id == principal
}

pub open spec fn active_mapped_to(principal: Seq<char>) -> spec_fn(SsoView) -> bool {
    |m: SsoView| m.principal_id == principal && m.unmapped_at_epoch is None
}

pub open spec fn active_subject(provider: Seq<char>, subject: Seq<char>) -> spec_fn(
    SsoView,
) -> bool {
    |m: SsoView| m.provider == provider && m.subject == subject && m.unmapped_at_epoch is None
}

/// What the active grants of a principal come to.
pub open spec fn held_pairs(grants: Seq<GrantView>, principal: Seq<char>) -> Seq<
    (lattice::ScopeView, Capability),
> {
    tables::kept(grants, active_for(principal)).map_values(
        |g: GrantView| (lattice::scope_of(g.scope)->Ok_0, g.capability),
    )
}

/// The principal with an id is there and enabled.
pub open spec fn is_enabled(principals: Seq<PrincipalView>, id: Seq<char>) -> bool {
    let i = keyed::index_of::<PrincipalRow>(principals, id);
    i < principals.len() && principals[i].enabled
}

/// The grants that are in effect for a principal: its active ones while it is enabled,
/// and none otherwise.
pub open spec fn effective_grants(st: PolicyState, principal: Seq<char>) -> Seq<GrantView> {
    if is_enabled(st.principals, principal) {
        tables::kept(st.grants, active_for(principal))
    } else {
        seq![]
    }
}

/// What the grants that are in effect for a principal come to.
pub open spec fn effective_pairs(st: PolicyState, principal: Seq<char>) -> Seq<
    (lattice::ScopeView, Capability),
> {
    if is_enabled(st.principals, principal) {
        held_pairs(st.grants, principal)
    } else {
        seq![]
    }
}

/// The grants of a principal; the active ones only where asked for.
pub fn grants_of(table: &[Grant], principal: &str, active: bool) -> (r: Vec<Grant>)
    ensures
        keyed::rows(r@) == tables::kept(
            keyed::rows(table@),
            if active {
                active_for(principal@)
            } else {
                held_by(principal@)
            },
        ),
{
    let ghost all = keyed::rows(table@);
    let ghost p = if active {
        active_for(principal@)
    } else {
        held_by(principal@)
    };
    let mut out: Vec<Grant> = Vec::new();
    let mut i: usize = 0;
    proof {
        assert(all.take(0) =~= seq![]);
        assert(keyed::rows(out@) =~= seq![]);
    }
    while i < table.len()
        invariant
            i <= table@.len(),
            all == keyed::rows(table@),
            p == if active {
                active_for(principal@)
            } else {
                held_by(principal@)
            },
            keyed::rows(out@) == tables::kept(all.take(i as int), p),
        decreases table.len() - i,
    {
        let ghost before = keyed::rows(out@);
        proof {
            tables::lemma_kept_step(all, p, i as int);
            assert(all[i as int] == table@[i as int]@);
        }
        if text::same(table[i].principal_id.as_str(), principal) && (!active || table[i].state
            == GrantState::Active) {
            let row = table[i].copy();
            out.push(row);
            proof {
                assert(keyed::rows(out@) =~= before.push(row@));
            }
        }
        i = i + 1;
    }
    proof {
        assert(all.take(all.len() as int) =~= all);
    }
    out
}

/// The mappings of a principal; the active ones only where asked for.
pub fn mappings_of(table: &[SsoMapping], principal: &str, active: bool) -> (r: Vec<SsoMapping>)
    ensures
        keyed::rows(r@) == tables::kept(
            keyed::rows(table@),
            if active {
                active_mapped_to(principal@)
            } else {
                mapped_to(principal@)
            },
        ),
{
    let ghost all = keyed::rows(table@);
    let ghost p = if active {
        active_mapped_to(principal@)
    } else {
        mapped_to(principal@)
    };
    let mut out: Vec<SsoMapping> = Vec::new();
    let mut i: usize = 0;
    proof {
        assert(all.take(0) =~= seq![]);
        assert(keyed::rows(out@) =~= seq![]);
    }
    while i < table.len()
        invariant
            i <= table@.len(),
            all == keyed::rows(table@),
            p == if active {
                active_mapped_to(principal@)
            } else {
                mapped_to(principal@)
            },
            keyed::rows(out@) == tables::kept(all.take(i as int), p),
        decreases table.len() - i,
    {
        let ghost before = keyed::rows(out@);
        proof {
            tables::lemma_kept_step(all, p, i as int);
            assert(all[i as int] == table@[i as int]@);
        }
        if text::same(table[i].principal_id.as_str(), principal) && (!active
            || table[i].unmapped_at_epoch.is_none()) {
            let row = table[i].copy();
            out.push(row);
            proof {
                assert(keyed::rows(out@) =~= before.push(row@));
            }
        }
        i = i + 1;
    }
    proof {
        assert(all.take(all.len() as int) =~= all);
    }
    out
}

/// The index of the active mapping of a subject, or the number of mappings.
pub fn find_subject(table: &[SsoMapping], provider: &str, subject: &str) -> (r: usize)
    ensures
        r == tables::first_index(keyed::rows(table@), active_subject(provider@, subject@)),
        r <= table@.len(),
{
    let ghost all = keyed::rows(table@);
    let ghost p = active_subject(provider@, subject@);
    let mut i: usize = 0;
    while i < table.len()
        invariant
            i <= table@.len(),
            all == keyed::rows(table@),
            p == active_subject(provider@, subject@),
            forall|k: int| 0 <= k < i ==> !p(#[trigger] all[k]),
        decreases table.len() - i,
    {
        if text::same(table[i].provider.as_str(), provider) && text::same(
            table[i].subject.as_str(),
            subject,
        ) && table[i].unmapped_at_epoch.is_none() {
            proof {
                assert(p(all[i as int]));
                tables::lemma_first_index_is(all, p, i as int);
            }
            return i;
        }
        i = i + 1;
    }
    proof {
        tables::lemma_first_index_is(all, p, i as int);
    }
    i
}

/// What the active grants of a principal come to.
pub fn authority_of(table: &[Grant], principal: &str) -> (r: lattice::Authority)
    requires
        scoped(keyed::rows(table@)),
    ensures
        r.wf(),
        forall|scope: lattice::ScopeView| #[trigger]
            r.held(scope) == lattice::level(held_pairs(keyed::rows(table@), principal@), scope),
{
    let active = grants_of(table, principal, true);
    let ghost kept = tables::kept(keyed::rows(table@), active_for(principal@));
    let ghost wanted = held_pairs(keyed::rows(table@), principal@);
    proof {
        tables::lemma_kept(keyed::rows(table@), active_for(principal@));
    }
    let mut entries: Vec<lattice::AuthorityEntry> = Vec::new();
    let mut i: usize = 0;
    proof {
        assert(lattice::pairs_of(entries@) =~= wanted.take(0));
    }
    while i < active.len()
        invariant
            i <= active@.len(),
            kept == keyed::rows(active@),
            wanted == kept.map_values(
                |g: GrantView| (lattice::scope_of(g.scope)->Ok_0, g.capability),
            ),
            forall|k: int|
                0 <= k < kept.len() ==> lattice::scope_of((#[trigger] kept[k]).scope) is Ok,
            lattice::pairs_of(entries@) == wanted.take(i as int),
        decreases active.len() - i,
    {
        let ghost before = lattice::pairs_of(entries@);
        proof {
            assert(kept[i as int] == active@[i as int]@);
        }
        let entry = lattice::AuthorityEntry {
            scope: active[i].scope_tuple(),
            capability: active[i].capability,
        };
        entries.push(entry);
        proof {
            assert(lattice::pairs_of(entries@) =~= before.push((entry.scope@, entry.capability)));
            assert(wanted.take(i as int + 1) =~= wanted.take(i as int).push(wanted[i as int]));
        }
        i = i + 1;
    }
    proof {
        assert(wanted.take(wanted.len() as int) =~= wanted);
    }
    lattice::authority(entries)
}

/// Whether the principal with an id is there and enabled.
pub fn enabled_at(principals: &[PrincipalRow], id: &str) -> (r: bool)
    ensures
        r == is_enabled(keyed::rows(principals@), id@),
{
    let i: usize = keyed::find(principals, id);
    i < principals.len() && principals[i].enabled
}

/// The grants that are in effect for a principal.
pub fn effective_grants_of(tables: &PolicyTables, principal: &str) -> (r: Vec<Grant>)
    ensures
        keyed::rows(r@) == effective_grants(tables.state(), principal@),
{
    if enabled_at(tables.principals.as_slice(), principal) {
        grants_of(tables.grants.as_slice(), principal, true)
    } else {
        let none: Vec<Grant> = Vec::new();
        proof {
            assert(keyed::rows(none@) =~= seq![]);
        }
        none
    }
}

/// What the grants that are in effect for a principal come to.
pub fn effective_authority(tables: &PolicyTables, principal: &str) -> (r: lattice::Authority)
    requires
        scoped(tables.state().grants),
    ensures
        r.wf(),
        forall|scope: lattice::ScopeView| #[trigger]
            r.held(scope) == lattice::level(effective_pairs(tables.state(), principal@), scope),
{
    if enabled_at(tables.principals.as_slice(), principal) {
        authority_of(tables.grants.as_slice(), principal)
    } else {
        let entries: Vec<lattice::AuthorityEntry> = Vec::new();
        proof {
            assert(lattice::pairs_of(entries@) =~= seq![]);
        }
        lattice::authority(entries)
    }
}

// ------------------------------------------------------------------------- decoding

/// A grant as a table row holds it.
#[derive(Debug)]
pub struct GrantColumns {
    pub id: String,
    pub principal_id: String,
    pub capability: String,
    pub scope: String,
    pub state: String,
    pub origin: String,
    pub granted_at_epoch: i64,
    pub granted_by_principal_id: Option<String>,
    pub granted_by_event_id: String,
    pub retired_at_epoch: Option<i64>,
    pub retired_by_event_id: Option<String>,
    pub transferred_from_grant_id: Option<String>,
}

/// The strings that a JSON text lists, or none where it lists no strings.
pub open spec fn listed(encoded: Seq<char>) -> Seq<Seq<char>> {
    match outside::json_strings(encoded) {
        Ok(items) => items,
        Err(_) => seq![],
    }
}

fn read_list(encoded: &str) -> (r: Vec<String>)
    ensures
        text::texts(r@) == listed(encoded@),
{
    match outside::read_json_strings(encoded) {
        Ok(items) => items,
        Err(_) => {
            let none: Vec<String> = Vec::new();
            proof {
                assert(text::texts(none@) =~= seq![]);
            }
            none
        },
    }
}

/// The grant that a table row holds. What cannot be read is taken for the least: a
/// capability to read, no scope, a retired grant, an ordinary origin.
pub fn grant_row(row: GrantColumns) -> (r: Grant)
    ensures
        r.id == row.id,
        r.principal_id == row.principal_id,
        row.capability@ == lattice::capability_text(r.capability) || (r.capability
            == Capability::Read && forall|c: Capability|
            row.capability@ != #[trigger] lattice::capability_text(c)),
        text::texts(r.scope@) == listed(row.scope@),
        row.state@ == state_name(r.state) || (r.state == GrantState::Retired && forall|
            s: GrantState,
        |
            row.state@ != #[trigger] state_name(s)),
        row.origin@ == origin_name(r.origin) || (r.origin == GrantOrigin::Grant && forall|
            o: GrantOrigin,
        |
            row.origin@ != #[trigger] origin_name(o)),
        r.granted_at_epoch == row.granted_at_epoch,
        r.granted_by_principal_id == row.granted_by_principal_id,
        r.granted_by_event_id == row.granted_by_event_id,
        r.retired_at_epoch == row.retired_at_epoch,
        r.retired_by_event_id == row.retired_by_event_id,
        r.transferred_from_grant_id == row.transferred_from_grant_id,
{
    let capability = match Capability::from_str(row.capability.as_str()) {
        Some(c) => c,
        None => Capability::Read,
    };
    let state = match GrantState::from_str(row.state.as_str()) {
        Some(s) => s,
        None => GrantState::Retired,
    };
    let origin = match GrantOrigin::from_str(row.origin.as_str()) {
        Some(o) => o,
        None => GrantOrigin::Grant,
    };
    Grant {
        scope: read_list(row.scope.as_str()),
        id: row.id,
        principal_id: row.principal_id,
        capability,
        state,
        origin,
        granted_at_epoch: row.granted_at_epoch,
        granted_by_principal_id: row.granted_by_principal_id,
        granted_by_event_id: row.granted_by_event_id,
        retired_at_epoch: row.retired_at_epoch,
        retired_by_event_id: row.retired_by_event_id,
        transferred_from_grant_id: row.transferred_from_grant_id,
    }
}

/// A principal as a table row holds it.
#[derive(Debug)]
pub struct PrincipalColumns {
    pub id: String,
    pub username: String,
    pub uid: i64,
    pub enabled: i64,
    pub bound_at_epoch: i64,
    pub bound_by_event_id: String,
    pub disabled_at_epoch: Option<i64>,
    pub disabled_by_event_id: Option<String>,
    pub successor_id: Option<String>,
    pub predecessor_id: Option<String>,
    pub replaces: String,
}

/// The principal that a table row holds. The user id is its last 32 bits.
pub fn principal_row_from_row(row: PrincipalColumns) -> (r: PrincipalRow)
    ensures
        r.id == row.id,
        r.username == row.username,
        r.uid == row.uid as u32,
        r.enabled == (row.enabled != 0),
        r.bound_at_epoch == row.bound_at_epoch,
        r.bound_by_event_id == row.bound_by_event_id,
        r.disabled_at_epoch == row.disabled_at_epoch,
        r.disabled_by_event_id == row.disabled_by_event_id,
        r.successor_id == row.successor_id,
        r.predecessor_id == row.predecessor_id,
        text::texts(r.replaces@) == listed(row.replaces@),
{
    PrincipalRow {
        replaces: read_list(row.replaces.as_str()),
        id: row.id,
        username: row.username,
        uid: row.uid as u32,
        enabled: row.enabled != 0,
        bound_at_epoch: row.bound_at_epoch,
        bound_by_event_id: row.bound_by_event_id,
        disabled_at_epoch: row.disabled_at_epoch,
        disabled_by_event_id: row.disabled_by_event_id,
        successor_id: row.successor_id,
        predecessor_id: row.predecessor_id,
    }
}

} // verus!
