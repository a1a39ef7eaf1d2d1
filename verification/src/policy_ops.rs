//! The changes that access policy can undergo.

use vstd::prelude::*;

use crate::clock;
use crate::keyed;
use crate::keyed::Row;
use crate::lattice;
use crate::lattice::Capability;
use crate::lattice::ScopeTuple;
use crate::lattice::ScopeView;
use crate::paths;
use crate::policy;
use crate::policy::Change;
use crate::policy::ChangeView;
use crate::policy::Denial;
use crate::policy::Denied;
use crate::policy::Principal;
use crate::policy::ValueView;
use crate::policy_journal;
use crate::policy_journal::DeltaView;
use crate::policy_journal::PolicyActor;
use crate::policy_journal::PolicyDelta;
use crate::policy_journal::PrincipalValue;
use crate::policy_state;
use crate::policy_state::EffectView;
use crate::policy_state::Grant;
use crate::policy_state::GrantOrigin;
use crate::policy_state::GrantRetirement;
use crate::policy_state::GrantRetirementView;
use crate::policy_state::GrantState;
use crate::policy_state::GrantView;
use crate::policy_state::MappingRetirement;
use crate::policy_state::MappingRetirementView;
use crate::policy_state::PolicyEffect;
use crate::policy_state::PolicyState;
use crate::policy_state::PrincipalRow;
use crate::policy_state::PrincipalView;
use crate::policy_state::SsoMapping;
use crate::policy_state::SsoView;
use crate::ranking;
use crate::tables;
use crate::tables::BoardRow;
use crate::tables::Registry;
use crate::text;
use crate::text::Error;

verus! {

// ------------------------------------------------------------------------------ draws

/// What a change of policy takes from chance and from the clock.
#[derive(Debug)]
pub struct PolicyDraw {
    pub audit_id: String,
    pub principal_id: String,
    pub grant_ids: Vec<String>,
    pub mapping_ids: Vec<String>,
    pub now: i64,
}

/// What a draw says.
pub struct DrawView {
    pub audit_id: Seq<char>,
    pub principal_id: Seq<char>,
    pub grant_ids: Seq<Seq<char>>,
    pub mapping_ids: Seq<Seq<char>>,
    pub now: i64,
}

impl View for PolicyDraw {
    type V = DrawView;

    open spec fn view(&self) -> DrawView {
        DrawView {
            audit_id: self.audit_id@,
            principal_id: self.principal_id@,
            grant_ids: text::texts(self.grant_ids@),
            mapping_ids: text::texts(self.mapping_ids@),
            now: self.now,
        }
    }
}

/// The drawn ids are of their kinds, and as many as that.
pub open spec fn is_drawn(d: DrawView, grants: nat, mappings: nat) -> bool {
    &&& d.grant_ids.len() == grants
    &&& d.mapping_ids.len() == mappings
    &&& policy::is_short_id("pa"@, d.audit_id)
    &&& policy::is_short_id("p"@, d.principal_id)
    &&& forall|i: int|
        0 <= i < d.grant_ids.len() ==> policy::is_short_id("pg"@, #[trigger] d.grant_ids[i])
    &&& forall|i: int|
        0 <= i < d.mapping_ids.len() ==> policy::is_short_id("ps"@, #[trigger] d.mapping_ids[i])
}

fn draw_ids(prefix: &str, n: usize) -> (r: Vec<String>)
    ensures
        r@.len() == n,
        forall|i: int|
            0 <= i < n ==> policy::is_short_id(prefix@, #[trigger] text::texts(r@)[i]),
{
    let mut out: Vec<String> = Vec::new();
    while out.len() < n
        invariant
            out@.len() <= n,
            forall|i: int|
                0 <= i < out@.len() ==> policy::is_short_id(
                    prefix@,
                    #[trigger] text::texts(out@)[i],
                ),
        decreases n - out.len(),
    {
        let ghost before = text::texts(out@);
        let id = policy::short_id(prefix);
        out.push(id);
        proof {
            assert(text::texts(out@) =~= before.push(id@));
        }
    }
    out
}

/// Random ids, and the time.
pub(crate) fn draw_policy(grants: usize, mappings: usize) -> (r: PolicyDraw)
    ensures
        is_drawn(r@, grants as nat, mappings as nat),
        r.grant_ids@.len() == grants,
        r.mapping_ids@.len() == mappings,
{
    let grant_ids = draw_ids("pg", grants);
    let mapping_ids = draw_ids("ps", mappings);
    proof {
        assert(text::texts(grant_ids@).len() == grants);
        assert(text::texts(mapping_ids@).len() == mappings);
    }
    PolicyDraw {
        audit_id: policy::short_id("pa"),
        principal_id: policy::short_id("p"),
        grant_ids,
        mapping_ids,
        now: clock::now_ms(),
    }
}

// --------------------------------------------------------------------------- relations

/// `post` is `pre` but for access policy.
pub open spec fn only_policy(pre: Registry, post: Registry) -> bool {
    post == Registry { policy: post.policy, ..pre }
}

/// A request was denied: nothing changed but for one audit row.
pub open spec fn denied<T>(
    pre: Registry,
    post: Registry,
    r: Result<T, Error>,
    message: Seq<char>,
    actor: PolicyActor,
    operation: Seq<char>,
    denial: Denial,
    d: DrawView,
) -> bool {
    &&& only_policy(pre, post)
    &&& policy::audit_denied(
        pre.policy,
        post.policy,
        actor,
        operation,
        denial,
        d.audit_id,
        d.now,
    )
    &&& text::refused(r, message)
}

/// A request was denied for a reason that is not given away.
pub open spec fn denied_plainly<T>(
    pre: Registry,
    post: Registry,
    r: Result<T, Error>,
    actor: PolicyActor,
    operation: Seq<char>,
    denial: Denial,
    d: DrawView,
) -> bool {
    denied(pre, post, r, "denied or not found"@, actor, operation, denial, d)
}

pub open spec fn at_stage(reg: Registry, stage: Seq<char>, code: Seq<char>) -> Denial {
    Denial { stage, code, epoch: policy::epoch_of(reg.policy) }
}

/// The epoch after the next change.
pub open spec fn next_epoch(reg: Registry) -> i64 {
    (policy::epoch_of(reg.policy) + 1) as i64
}

/// The id of the next event.
pub open spec fn next_id(reg: Registry) -> Seq<char> {
    policy::event_id(policy::next_event(reg.policy))
}

/// A change that was made.
pub open spec fn changed(
    pre: Registry,
    post: Registry,
    actor: PolicyActor,
    c: ChangeView,
) -> bool {
    &&& only_policy(pre, post)
    &&& policy::committed(pre.policy, post.policy, actor, c)
}

impl Registry {
    pub(crate) fn deny_request<T>(
        &mut self,
        actor: &PolicyActor,
        operation: &str,
        reason: Denied,
        draw: &PolicyDraw,
    ) -> (r: Result<T, Error>)
        ensures
            denied_plainly(
                *old(self),
                *final(self),
                r,
                *actor,
                operation@,
                Denial { stage: reason.stage@, code: reason.code@, epoch: reason.epoch },
                draw@,
            ),
    {
        policy::deny(
            &mut self.policy,
            actor,
            operation,
            reason,
            draw.audit_id.as_str(),
            draw.now,
        );
        text::refuse("denied or not found".to_owned())
    }
}

// -------------------------------------------------------------------- what stays sound

proof fn lemma_put_all_by_id<T: Row>(s: Seq<T::Shown>, vs: Seq<T::Shown>)
    requires
        keyed::by_id::<T>(s),
    ensures
        keyed::by_id::<T>(keyed::put_all::<T>(s, vs)),
    decreases vs.len(),
{
    if vs.len() > 0 {
        lemma_put_all_by_id::<T>(s, vs.drop_last());
        keyed::law_put::<T>(keyed::put_all::<T>(s, vs.drop_last()), vs.last());
    }
}

proof fn lemma_put_all_scoped(s: Seq<GrantView>, vs: Seq<GrantView>)
    requires
        keyed::by_id::<Grant>(s),
        policy_state::scoped(s),
        policy_state::scoped(vs),
    ensures
        policy_state::scoped(keyed::put_all::<Grant>(s, vs)),
    decreases vs.len(),
{
    if vs.len() > 0 {
        let rest = vs.drop_last();
        assert forall|i: int| 0 <= i < rest.len() implies lattice::scope_of(
            (#[trigger] rest[i]).scope,
        ) is Ok by {
            assert(rest[i] == vs[i]);
        }
        lemma_put_all_scoped(s, rest);
        lemma_put_all_by_id::<Grant>(s, rest);
        let before = keyed::put_all::<Grant>(s, rest);
        let after = keyed::put_all::<Grant>(s, vs);
        keyed::law_put::<Grant>(before, vs.last());
        assert(vs.last() == vs[vs.len() - 1]);
        assert forall|i: int| 0 <= i < after.len() implies lattice::scope_of(
            (#[trigger] after[i]).scope,
        ) is Ok by {
            assert(after.contains(after[i]));
            if after[i] != vs.last() {
                let k = choose|k: int| 0 <= k < before.len() && before[k] == after[i];
                assert(lattice::scope_of(before[k].scope) is Ok);
            }
        }
    }
}

pub(crate) proof fn lemma_end_grants(s: Seq<GrantView>, ends: Seq<GrantRetirementView>)
    ensures
        policy_state::end_grants(s, ends).len() == s.len(),
        forall|i: int|
            0 <= i < s.len() ==> (#[trigger] policy_state::end_grants(s, ends)[i]) == (GrantView {
                state: policy_state::end_grants(s, ends)[i].state,
                retired_at_epoch: policy_state::end_grants(s, ends)[i].retired_at_epoch,
                retired_by_event_id: policy_state::end_grants(s, ends)[i].retired_by_event_id,
                ..s[i]
            }),
    decreases ends.len(),
{
    if ends.len() > 0 {
        lemma_end_grants(s, ends.drop_last());
        let before = policy_state::end_grants(s, ends.drop_last());
        tables::lemma_first_index(before, keyed::with_id::<Grant>(ends.last().id));
    }
}

pub(crate) proof fn lemma_end_mappings(s: Seq<SsoView>, ends: Seq<MappingRetirementView>)
    ensures
        policy_state::end_mappings(s, ends).len() == s.len(),
        forall|i: int|
            0 <= i < s.len() ==> (#[trigger] policy_state::end_mappings(s, ends)[i]) == (SsoView {
                unmapped_at_epoch: policy_state::end_mappings(s, ends)[i].unmapped_at_epoch,
                unmapped_by_event_id: policy_state::end_mappings(s, ends)[i].unmapped_by_event_id,
                ..s[i]
            }),
    decreases ends.len(),
{
    if ends.len() > 0 {
        lemma_end_mappings(s, ends.drop_last());
        let before = policy_state::end_mappings(s, ends.drop_last());
        tables::lemma_first_index(before, keyed::with_id::<SsoMapping>(ends.last().id));
    }
}

/// Every effect whose grants have scopes keeps the state sound.
pub proof fn law_effects_keep_the_state_sound(st: PolicyState, e: EffectView)
    requires
        policy_state::sound(st),
        policy_state::scoped(e.grants),
    ensures
        policy_state::sound(policy_state::applied(st, e)),
{
    let ended = policy_state::end_grants(st.grants, e.retired_grants);
    let unmapped = policy_state::end_mappings(st.mappings, e.unmapped_mappings);
    lemma_end_grants(st.grants, e.retired_grants);
    lemma_end_mappings(st.mappings, e.unmapped_mappings);
    assert forall|i: int, j: int| 0 <= i < j < ended.len() implies text::text_less(
        Grant::key(#[trigger] ended[i]),
        Grant::key(#[trigger] ended[j]),
    ) by {
        assert(text::text_less(Grant::key(st.grants[i]), Grant::key(st.grants[j])));
    }
    assert forall|i: int, j: int| 0 <= i < j < unmapped.len() implies text::text_less(
        SsoMapping::key(#[trigger] unmapped[i]),
        SsoMapping::key(#[trigger] unmapped[j]),
    ) by {
        assert(text::text_less(
            SsoMapping::key(st.mappings[i]),
            SsoMapping::key(st.mappings[j]),
        ));
    }
    assert forall|i: int| 0 <= i < ended.len() implies lattice::scope_of(
        (#[trigger] ended[i]).scope,
    ) is Ok by {
        assert(lattice::scope_of(st.grants[i].scope) is Ok);
    }
    lemma_put_all_by_id::<PrincipalRow>(st.principals, e.principals);
    lemma_put_all_by_id::<Grant>(ended, e.grants);
    lemma_put_all_by_id::<SsoMapping>(unmapped, e.mappings);
    lemma_put_all_scoped(ended, e.grants);
}

// ----------------------------------------------------------------------- building rows

/// A principal that is just bound.
pub open spec fn new_principal(
    id: Seq<char>,
    username: Seq<char>,
    uid: u32,
    epoch: i64,
    event: Seq<char>,
    predecessor: Option<Seq<char>>,
    replaces: Seq<Seq<char>>,
) -> PrincipalView {
    PrincipalView {
        id,
        username,
        uid,
        enabled: true,
        bound_at_epoch: epoch,
        bound_by_event_id: event,
        disabled_at_epoch: None,
        disabled_by_event_id: None,
        successor_id: None,
        predecessor_id: predecessor,
        replaces,
    }
}

fn make_principal(
    id: &str,
    username: &str,
    uid: u32,
    epoch: i64,
    event: &str,
    predecessor: Option<&str>,
    replaces: &[String],
) -> (r: PrincipalRow)
    ensures
        r@ == new_principal(
            id@,
            username@,
            uid,
            epoch,
            event@,
            text::str_of(predecessor),
            text::texts(replaces@),
        ),
{
    PrincipalRow {
        id: id.to_owned(),
        username: username.to_owned(),
        uid,
        enabled: true,
        bound_at_epoch: epoch,
        bound_by_event_id: event.to_owned(),
        disabled_at_epoch: None,
        disabled_by_event_id: None,
        successor_id: None,
        predecessor_id: match predecessor {
            Some(id) => Some(id.to_owned()),
            None => None,
        },
        replaces: text::copy_list(replaces),
    }
}

/// A grant that is just given.
pub open spec fn new_grant(
    id: Seq<char>,
    principal: Seq<char>,
    capability: Capability,
    scope: Seq<Seq<char>>,
    origin: GrantOrigin,
    epoch: i64,
    by: Option<Seq<char>>,
    event: Seq<char>,
    from: Option<Seq<char>>,
) -> GrantView {
    GrantView {
        id,
        principal_id: principal,
        capability,
        scope,
        state: GrantState::Active,
        origin,
        granted_at_epoch: epoch,
        granted_by_principal_id: by,
        granted_by_event_id: event,
        retired_at_epoch: None,
        retired_by_event_id: None,
        transferred_from_grant_id: from,
    }
}

pub(crate) fn make_grant(
    id: &str,
    principal: &str,
    capability: Capability,
    scope: Vec<String>,
    origin: GrantOrigin,
    epoch: i64,
    by: &Option<String>,
    event: &str,
    from: Option<&str>,
) -> (r: Grant)
    ensures
        r@ == new_grant(
            id@,
            principal@,
            capability,
            text::texts(scope@),
            origin,
            epoch,
            text::text_of(*by),
            event@,
            text::str_of(from),
        ),
{
    Grant {
        id: id.to_owned(),
        principal_id: principal.to_owned(),
        capability,
        scope,
        state: GrantState::Active,
        origin,
        granted_at_epoch: epoch,
        granted_by_principal_id: by.clone(),
        granted_by_event_id: event.to_owned(),
        retired_at_epoch: None,
        retired_by_event_id: None,
        transferred_from_grant_id: match from {
            Some(id) => Some(id.to_owned()),
            None => None,
        },
    }
}

/// A mapping that is just made.
pub open spec fn new_mapping(
    id: Seq<char>,
    principal: Seq<char>,
    provider: Seq<char>,
    subject: Seq<char>,
    epoch: i64,
    event: Seq<char>,
) -> SsoView {
    SsoView {
        id,
        principal_id: principal,
        provider,
        subject,
        mapped_at_epoch: epoch,
        mapped_by_event_id: event,
        unmapped_at_epoch: None,
        unmapped_by_event_id: None,
    }
}

pub(crate) fn make_mapping(
    id: &str,
    principal: &str,
    provider: &str,
    subject: &str,
    epoch: i64,
    event: &str,
) -> (r: SsoMapping)
    ensures
        r@ == new_mapping(id@, principal@, provider@, subject@, epoch, event@),
{
    SsoMapping {
        id: id.to_owned(),
        principal_id: principal.to_owned(),
        provider: provider.to_owned(),
        subject: subject.to_owned(),
        mapped_at_epoch: epoch,
        mapped_by_event_id: event.to_owned(),
        unmapped_at_epoch: None,
        unmapped_by_event_id: None,
    }
}

// --------------------------------------------------------------------------- bootstrap

/// The ids of the boards at the paths that have one.
pub open spec fn stems(list: Seq<Seq<char>>) -> Seq<Seq<char>>
    decreases list.len(),
{
    if list.len() == 0 {
        seq![]
    } else {
        let rest = stems(list.drop_last());
        match paths::board_id(list.last()) {
            Some(id) => if id.len() > 0 {
                rest.push(id)
            } else {
                rest
            },
            None => rest,
        }
    }
}

pub open spec fn active_paths(boards: Seq<BoardRow>) -> Seq<Seq<char>> {
    tables::kept(boards, tables::board_listed(false)).map_values(|b: BoardRow| b.board_path@)
}

/// The ids of the active boards, by their paths.
pub open spec fn board_ids(boards: Seq<BoardRow>) -> Seq<Seq<char>> {
    stems(ranking::sorted_texts(active_paths(boards)))
}

/// The scopes that the first principal administers: the registry, and every board
/// with all of its tags.
pub open spec fn seed_scopes(ids: Seq<Seq<char>>) -> Seq<ScopeView>
    decreases ids.len(),
{
    if ids.len() == 0 {
        seq![ScopeView::Registry]
    } else {
        seed_scopes(ids.drop_last()).push(ScopeView::Board(ids.last())).push(
            ScopeView::BoardWildcard(ids.last()),
        )
    }
}

proof fn lemma_stems_named(list: Seq<Seq<char>>)
    ensures
        forall|i: int| 0 <= i < stems(list).len() ==> (#[trigger] stems(list)[i]).len() > 0,
    decreases list.len(),
{
    if list.len() > 0 {
        lemma_stems_named(list.drop_last());
        let rest = stems(list.drop_last());
        let all = stems(list);
        assert forall|i: int| 0 <= i < all.len() implies (#[trigger] all[i]).len() > 0 by {
            if i < rest.len() {
                assert(all[i] == rest[i]);
            }
        }
    }
}

proof fn lemma_seed_scopes(ids: Seq<Seq<char>>)
    requires
        forall|i: int| 0 <= i < ids.len() ==> (#[trigger] ids[i]).len() > 0,
    ensures
        seed_scopes(ids).len() == 2 * ids.len() + 1,
        forall|i: int|
            0 <= i < seed_scopes(ids).len() ==> lattice::is_named(#[trigger] seed_scopes(ids)[i]),
    decreases ids.len(),
{
    if ids.len() > 0 {
        let rest = ids.drop_last();
        assert forall|i: int| 0 <= i < rest.len() implies (#[trigger] rest[i]).len() > 0 by {
            assert(rest[i] == ids[i]);
        }
        assert(ids.last() == ids[ids.len() - 1]);
        lemma_seed_scopes(rest);
    }
}

/// The ids of the active boards, by their paths.
pub fn active_board_ids(boards: &[BoardRow]) -> (r: Vec<String>)
    ensures
        text::texts(r@) == board_ids(boards@),
{
    let ghost p = tables::board_listed(false);
    let mut list: Vec<String> = Vec::new();
    let mut i: usize = 0;
    proof {
        assert(boards@.take(0) =~= seq![]);
        assert(text::texts(list@) =~= active_paths(boards@.take(0)));
    }
    while i < boards.len()
        invariant
            i <= boards@.len(),
            p == tables::board_listed(false),
            text::texts(list@) == active_paths(boards@.take(i as int)),
        decreases boards.len() - i,
    {
        let ghost before = text::texts(list@);
        let ghost kept = tables::kept(boards@.take(i as int), p);
        proof {
            tables::lemma_kept_step(boards@, p, i as int);
        }
        if !boards[i].archived {
            list.push(boards[i].board_path.clone());
            proof {
                assert(text::texts(list@) =~= before.push(boards@[i as int].board_path@));
                assert(kept.push(boards@[i as int]).map_values(|b: BoardRow| b.board_path@)
                    =~= kept.map_values(|b: BoardRow| b.board_path@).push(
                    boards@[i as int].board_path@,
                ));
            }
        }
        i = i + 1;
    }
    proof {
        assert(boards@.take(boards@.len() as int) =~= boards@);
    }
    let sorted = ranking::sort_texts(list);
    let ghost all = text::texts(sorted@);
    let mut out: Vec<String> = Vec::new();
    let mut k: usize = 0;
    proof {
        assert(all.take(0) =~= seq![]);
        assert(text::texts(out@) =~= seq![]);
    }
    while k < sorted.len()
        invariant
            k <= sorted@.len(),
            all == text::texts(sorted@),
            text::texts(out@) == stems(all.take(k as int)),
        decreases sorted.len() - k,
    {
        let ghost before = text::texts(out@);
        proof {
            assert(all.take(k as int + 1).drop_last() =~= all.take(k as int));
            assert(all.take(k as int + 1).last() == sorted@[k as int]@);
        }
        if let Some(id) = paths::board_id_from_path(sorted[k].as_str()) {
            if !id.as_str().is_empty() {
                out.push(id);
                proof {
                    assert(text::texts(out@) =~= before.push(id@));
                }
            }
        }
        k = k + 1;
    }
    proof {
        assert(all.take(all.len() as int) =~= all);
    }
    out
}

fn seeds(ids: &[String]) -> (r: Vec<ScopeTuple>)
    ensures
        policy::scope_views(r@) == seed_scopes(text::texts(ids@)),
{
    let ghost all = text::texts(ids@);
    let mut out: Vec<ScopeTuple> = Vec::new();
    out.push(ScopeTuple::Registry);
    let mut i: usize = 0;
    proof {
        assert(all.take(0) =~= seq![]);
        assert(policy::scope_views(out@) =~= seq![ScopeView::Registry]);
    }
    while i < ids.len()
        invariant
            i <= ids@.len(),
            all == text::texts(ids@),
            policy::scope_views(out@) == seed_scopes(all.take(i as int)),
        decreases ids.len() - i,
    {
        let ghost before = policy::scope_views(out@);
        proof {
            assert(all.take(i as int + 1).drop_last() =~= all.take(i as int));
            assert(all.take(i as int + 1).last() == ids@[i as int]@);
        }
        out.push(ScopeTuple::Board { board_id: ids[i].clone() });
        out.push(ScopeTuple::BoardWildcard { board_id: ids[i].clone() });
        proof {
            assert(policy::scope_views(out@) =~= before.push(
                ScopeView::Board(ids@[i as int]@),
            ).push(ScopeView::BoardWildcard(ids@[i as int]@)));
        }
        i = i + 1;
    }
    proof {
        assert(all.take(all.len() as int) =~= all);
    }
    out
}

/// The grants that the first principal is given.
pub open spec fn seed_grants(
    scopes: Seq<ScopeView>,
    ids: Seq<Seq<char>>,
    principal: Seq<char>,
) -> Seq<GrantView> {
    Seq::new(
        scopes.len(),
        |i: int|
            new_grant(
                ids[i],
                principal,
                Capability::Admin,
                lattice::atoms_of(scopes[i]),
                GrantOrigin::Bootstrap,
                1,
                None,
                policy::event_id(1),
                None,
            ),
    )
}

fn make_seed_grants(scopes: &[ScopeTuple], ids: &[String], principal: &str) -> (r: Vec<Grant>)
    requires
        ids@.len() >= scopes@.len(),
    ensures
        keyed::rows(r@) == seed_grants(
            policy::scope_views(scopes@),
            text::texts(ids@),
            principal@,
        ),
{
    let ghost wanted = seed_grants(policy::scope_views(scopes@), text::texts(ids@), principal@);
    let event = policy::policy_event_id(1);
    let mut out: Vec<Grant> = Vec::new();
    let mut i: usize = 0;
    proof {
        assert(keyed::rows(out@) =~= wanted.take(0));
    }
    while i < scopes.len()
        invariant
            i <= scopes@.len(),
            ids@.len() >= scopes@.len(),
            event@ == policy::event_id(1),
            wanted == seed_grants(policy::scope_views(scopes@), text::texts(ids@), principal@),
            keyed::rows(out@) == wanted.take(i as int),
        decreases scopes.len() - i,
    {
        let ghost before = keyed::rows(out@);
        let row = make_grant(
            ids[i].as_str(),
            principal,
            Capability::Admin,
            scopes[i].to_atoms(),
            GrantOrigin::Bootstrap,
            1,
            &None,
            event.as_str(),
            None,
        );
        out.push(row);
        proof {
            assert(row@ == wanted[i as int]);
            assert(keyed::rows(out@) =~= before.push(row@));
            assert(wanted.take(i as int + 1) =~= wanted.take(i as int).push(wanted[i as int]));
        }
        i = i + 1;
    }
    proof {
        assert(wanted.take(wanted.len() as int) =~= wanted);
    }
    out
}

/// What bootstrapping policy returns and changes.
pub open spec fn bootstrapped(
    pre: Registry,
    post: Registry,
    r: Result<Principal, Error>,
    username: Seq<char>,
    uid: u32,
    actor: PolicyActor,
    d: DrawView,
) -> bool {
    let operation = "access bootstrap"@;
    let name = text::trimmed(username);
    if uid == 0 {
        post == pre && text::refused(r, "bootstrap refuses a root pair"@)
    } else if name.len() == 0 {
        post == pre && text::refused(r, "bootstrap requires a username"@)
    } else if policy::epoch_of(pre.policy) != 0 {
        denied_plainly(
            pre,
            post,
            r,
            actor,
            operation,
            at_stage(pre, "enforcement"@, "not_empty_policy"@),
            d,
        )
    } else if pre.policy.enforcement@ != "direct"@ {
        denied_plainly(
            pre,
            post,
            r,
            actor,
            operation,
            at_stage(pre, "enforcement"@, "not_direct"@),
            d,
        )
    } else {
        let scopes = seed_scopes(board_ids(pre.boards@));
        let row = new_principal(
            d.principal_id,
            name,
            uid,
            1,
            policy::event_id(1),
            None,
            seq![],
        );
        let effect = EffectView {
            principals: seq![row],
            grants: seed_grants(scopes, d.grant_ids, d.principal_id),
            ..policy_state::no_effect()
        };
        let c = ChangeView {
            as_root: true,
            target_principal: Some(d.principal_id),
            delta: DeltaView {
                seeded_grant_ids: d.grant_ids.take(scopes.len() as int),
                ..policy_journal::no_delta()
            },
            ..policy::bare_change(
                "bootstrap"@,
                operation,
                policy::event_id(1),
                effect,
                policy_state::state_hash(policy_state::empty_state()),
                d.audit_id,
                d.now,
            )
        };
        match policy_state::clash(pre.policy.state(), effect) {
            Some(m) => post == pre && text::refused(r, m),
            None => {
                &&& changed(pre, post, actor, c)
                &&& r is Ok
                &&& policy::is_principal(r->Ok_0, row, post.policy.state())
            },
        }
    }
}

/// How many grants a bootstrap gives.
pub open spec fn seeds_needed(reg: Registry) -> nat {
    2 * board_ids(reg.boards@).len() + 1
}

fn first_ids(ids: &[String], n: usize) -> (r: Vec<String>)
    requires
        n <= ids@.len(),
    ensures
        text::texts(r@) == text::texts(ids@).take(n as int),
{
    let ghost all = text::texts(ids@);
    let mut out: Vec<String> = Vec::new();
    let mut i: usize = 0;
    while i < n
        invariant
            i <= n <= ids@.len(),
            all == text::texts(ids@),
            text::texts(out@) == all.take(i as int),
        decreases n - i,
    {
        let ghost before = text::texts(out@);
        out.push(ids[i].clone());
        proof {
            assert(text::texts(out@) =~= before.push(ids@[i as int]@));
            assert(all.take(i as int + 1) =~= all.take(i as int).push(all[i as int]));
        }
        i = i + 1;
    }
    out
}

impl Registry {
    /// Bind the first principal and let it administer everything, with given ids at a
    /// given time.
    pub fn policy_bootstrap_as(
        &mut self,
        username: &str,
        uid: u32,
        actor: &PolicyActor,
        draw: &PolicyDraw,
    ) -> (r: Result<Principal, Error>)
        requires
            old(self).policy.wf(),
            policy::has_room(old(self).policy),
            draw.grant_ids@.len() >= seeds_needed(*old(self)),
        ensures
            bootstrapped(*old(self), *final(self), r, username@, uid, *actor, draw@),
            final(self).policy.wf(),
    {
        if uid == 0 {
            return text::refuse("bootstrap refuses a root pair".to_owned());
        }
        let name = text::trim(username);
        if name.is_empty() {
            return text::refuse("bootstrap requires a username".to_owned());
        }
        let epoch: i64 = policy::policy_epoch_on(&self.policy);
        if epoch != 0 {
            return self.deny_request(
                actor,
                "access bootstrap",
                Denied { stage: "enforcement", code: "not_empty_policy", epoch },
                draw,
            );
        }
        if !text::same(self.policy.enforcement.as_str(), "direct") {
            return self.deny_request(
                actor,
                "access bootstrap",
                Denied { stage: "enforcement", code: "not_direct", epoch },
                draw,
            );
        }
        let ghost pre = *self;
        let ids = active_board_ids(self.boards.as_slice());
        let scopes = seeds(ids.as_slice());
        proof {
            lemma_stems_named(ranking::sorted_texts(active_paths(self.boards@)));
            lemma_seed_scopes(text::texts(ids@));
            assert(policy::scope_views(scopes@).len() == scopes@.len());
        }
        let id = draw.principal_id.as_str();
        let none: Vec<String> = Vec::new();
        let event = policy::policy_event_id(1);
        let row = make_principal(id, name, uid, 1, event.as_str(), None, none.as_slice());
        let mut effect = PolicyEffect::none();
        effect.principals.push(row.copy());
        effect.grants = make_seed_grants(scopes.as_slice(), draw.grant_ids.as_slice(), id);
        proof {
            assert(text::texts(none@) =~= seq![]);
            assert(effect@.principals =~= seq![row@]);
            lemma_seeds_scoped(policy::scope_views(scopes@), draw@.grant_ids, id@);
        }
        if let Err(e) = policy_state::check_new(&self.policy, &effect) {
            return Err(e);
        }
        let previous = policy_state::compute_empty_state_hash();
        let mut change = Change::bare(
            "bootstrap",
            "access bootstrap",
            event,
            effect,
            previous,
            draw.audit_id.as_str(),
            draw.now,
        );
        change.as_root = true;
        change.target_principal = Some(id.to_owned());
        change.delta.seeded_grant_ids = first_ids(draw.grant_ids.as_slice(), scopes.len());
        proof {
            law_effects_keep_the_state_sound(pre.policy.state(), change.effect@);
        }
        policy::commit(&mut self.policy, actor, change);
        Ok(policy::principal_with_on(&self.policy, &row))
    }

    /// Bind the first principal and let it administer everything.
    pub fn policy_bootstrap(&mut self, username: &str, uid: u32, actor: &PolicyActor) -> (r: Result<
        Principal,
        Error,
    >)
        requires
            old(self).policy.wf(),
            policy::has_room(old(self).policy),
            seeds_needed(*old(self)) <= usize::MAX,
        ensures
            exists|d: DrawView|
                is_drawn(d, seeds_needed(*old(self)), 0) && #[trigger] bootstrapped(
                    *old(self),
                    *final(self),
                    r,
                    username@,
                    uid,
                    *actor,
                    d,
                ),
            final(self).policy.wf(),
    {
        let ids = active_board_ids(self.boards.as_slice());
        proof {
            assert(text::texts(ids@).len() == ids@.len());
        }
        let draw = draw_policy(2 * ids.len() + 1, 0);
        self.policy_bootstrap_as(username, uid, actor, &draw)
    }
}

proof fn lemma_seeds_scoped(scopes: Seq<ScopeView>, ids: Seq<Seq<char>>, principal: Seq<char>)
    requires
        forall|i: int| 0 <= i < scopes.len() ==> lattice::is_named(#[trigger] scopes[i]),
    ensures
        policy_state::scoped(seed_grants(scopes, ids, principal)),
{
    let grants = seed_grants(scopes, ids, principal);
    assert forall|i: int| 0 <= i < grants.len() implies lattice::scope_of(
        (#[trigger] grants[i]).scope,
    ) is Ok by {
        lattice::law_atoms_form_the_scope(scopes[i]);
    }
}

// ------------------------------------------------------------------ binding a principal

/// What binding a principal returns and changes.
pub open spec fn principal_bound(
    pre: Registry,
    post: Registry,
    r: Result<Principal, Error>,
    username: Seq<char>,
    uid: u32,
    replaces: Seq<Seq<char>>,
    actor: PolicyActor,
    d: DrawView,
) -> bool {
    let operation = "access principal bind"@;
    let name = text::trimmed(username);
    if name.len() == 0 {
        post == pre && text::refused(r, "bind requires a username"@)
    } else {
        match policy::admin_denial(pre.policy, actor) {
            Some(denial) => denied_plainly(pre, post, r, actor, operation, denial, d),
            None => match policy::pair_refusal(
                pre.policy.state().principals,
                name,
                uid,
                replaces,
                None,
            ) {
                Some(m) => denied(
                    pre,
                    post,
                    r,
                    m,
                    actor,
                    operation,
                    at_stage(pre, "principal"@, "collision"@),
                    d,
                ),
                None => {
                    let row = new_principal(
                        d.principal_id,
                        name,
                        uid,
                        next_epoch(pre),
                        next_id(pre),
                        None,
                        replaces,
                    );
                    let c = ChangeView {
                        target_principal: Some(d.principal_id),
                        ..policy::bare_change(
                            "principal_bound"@,
                            operation,
                            next_id(pre),
                            EffectView { principals: seq![row], ..policy_state::no_effect() },
                            actor.state_hash@,
                            d.audit_id,
                            d.now,
                        )
                    };
                    &&& changed(pre, post, actor, c)
                    &&& r is Ok
                    &&& policy::is_principal(r->Ok_0, row, post.policy.state())
                },
            },
        }
    }
}

pub(crate) proof fn lemma_no_grants(st: PolicyState, e: EffectView)
    requires
        e.grants.len() == 0,
        e.mappings.len() == 0,
    ensures
        policy_state::fits(st, e),
        policy_state::scoped(e.grants),
{
}

impl Registry {
    /// Bind a user name and a user id, with given ids at a given time.
    pub fn bind_principal_as(
        &mut self,
        username: &str,
        uid: u32,
        replaces: &[String],
        actor: &PolicyActor,
        draw: &PolicyDraw,
    ) -> (r: Result<Principal, Error>)
        requires
            old(self).policy.wf(),
            policy::has_room(old(self).policy),
        ensures
            principal_bound(
                *old(self),
                *final(self),
                r,
                username@,
                uid,
                text::texts(replaces@),
                *actor,
                draw@,
            ),
            final(self).policy.wf(),
    {
        let ghost pre = *self;
        let name = text::trim(username);
        if name.is_empty() {
            return text::refuse("bind requires a username".to_owned());
        }
        if let Some(reason) = policy::check_admin(&self.policy, actor) {
            return self.deny_request(actor, "access principal bind", reason, draw);
        }
        let epoch: i64 = policy::policy_epoch_on(&self.policy);
        match policy::check_pair_collision(
            self.policy.principals.as_slice(),
            name,
            uid,
            replaces,
            None,
        ) {
            Ok(_) => {},
            Err(e) => {
                policy::deny(
                    &mut self.policy,
                    actor,
                    "access principal bind",
                    Denied { stage: "principal", code: "collision", epoch },
                    draw.audit_id.as_str(),
                    draw.now,
                );
                return Err(e);
            },
        }
        let seq: i64 = policy::journal_next_seq(&self.policy);
        let event = policy::policy_event_id(seq);
        let id = draw.principal_id.as_str();
        let row = make_principal(id, name, uid, epoch + 1, event.as_str(), None, replaces);
        let mut effect = PolicyEffect::none();
        effect.principals.push(row.copy());
        proof {
            assert(effect@.principals =~= seq![row@]);
            lemma_no_grants(pre.policy.state(), effect@);
            law_effects_keep_the_state_sound(pre.policy.state(), effect@);
        }
        let mut change = Change::bare(
            "principal_bound",
            "access principal bind",
            event,
            effect,
            actor.state_hash.clone(),
            draw.audit_id.as_str(),
            draw.now,
        );
        change.target_principal = Some(id.to_owned());
        policy::commit(&mut self.policy, actor, change);
        Ok(policy::principal_with_on(&self.policy, &row))
    }

    /// Bind a user name and a user id that belong together for good.
    pub fn bind_principal(
        &mut self,
        username: &str,
        uid: u32,
        replaces: &[String],
        actor: &PolicyActor,
    ) -> (r: Result<Principal, Error>)
        requires
            old(self).policy.wf(),
            policy::has_room(old(self).policy),
        ensures
            exists|d: DrawView|
                is_drawn(d, 0, 0) && #[trigger] principal_bound(
                    *old(self),
                    *final(self),
                    r,
                    username@,
                    uid,
                    text::texts(replaces@),
                    *actor,
                    d,
                ),
            final(self).policy.wf(),
    {
        let draw = draw_policy(0, 0);
        self.bind_principal_as(username, uid, replaces, actor, &draw)
    }
}

// ---------------------------------------------------------------- disabling a principal

/// A principal that is just disabled.
pub open spec fn disabled_row(
    p: PrincipalView,
    epoch: i64,
    event: Seq<char>,
    successor: Option<Seq<char>>,
) -> PrincipalView {
    PrincipalView {
        enabled: false,
        disabled_at_epoch: Some(epoch),
        disabled_by_event_id: Some(event),
        successor_id: match successor {
            Some(id) => Some(id),
            None => p.successor_id,
        },
        ..p
    }
}

fn disable_row(row: &PrincipalRow, epoch: i64, event: &str, successor: Option<&str>) -> (r:
    PrincipalRow)
    ensures
        r@ == disabled_row(row@, epoch, event@, text::str_of(successor)),
{
    let mut out = row.copy();
    out.enabled = false;
    out.disabled_at_epoch = Some(epoch);
    out.disabled_by_event_id = Some(event.to_owned());
    if let Some(id) = successor {
        out.successor_id = Some(id.to_owned());
    }
    out
}

/// The principal with an id.
pub open spec fn principal_at(reg: Registry, id: Seq<char>) -> Option<PrincipalView> {
    let all = reg.policy.state().principals;
    let i = keyed::index_of::<PrincipalRow>(all, id);
    if i < all.len() {
        Some(all[i])
    } else {
        None
    }
}

/// What disabling a principal returns and changes.
pub open spec fn principal_disabled(
    pre: Registry,
    post: Registry,
    r: Result<Principal, Error>,
    id: Seq<char>,
    actor: PolicyActor,
    d: DrawView,
) -> bool {
    let operation = "access principal disable"@;
    match policy::admin_denial(pre.policy, actor) {
        Some(denial) => denied_plainly(pre, post, r, actor, operation, denial, d),
        None => match principal_at(pre, id) {
            None => denied_plainly(
                pre,
                post,
                r,
                actor,
                operation,
                at_stage(pre, "principal"@, "not_found"@),
                d,
            ),
            Some(p) => if !p.enabled {
                denied_plainly(
                    pre,
                    post,
                    r,
                    actor,
                    operation,
                    at_stage(pre, "principal"@, "already_disabled"@),
                    d,
                )
            } else {
                let row = disabled_row(p, next_epoch(pre), next_id(pre), None);
                let c = ChangeView {
                    target_principal: Some(id),
                    ..policy::bare_change(
                        "principal_disabled"@,
                        operation,
                        next_id(pre),
                        EffectView { principals: seq![row], ..policy_state::no_effect() },
                        actor.state_hash@,
                        d.audit_id,
                        d.now,
                    )
                };
                &&& changed(pre, post, actor, c)
                &&& r is Ok
                &&& policy::is_principal(r->Ok_0, row, post.policy.state())
            },
        },
    }
}

impl Registry {
    /// Disable a principal, with given ids at a given time.
    pub fn disable_principal_as(
        &mut self,
        principal_id: &str,
        actor: &PolicyActor,
        draw: &PolicyDraw,
    ) -> (r: Result<Principal, Error>)
        requires
            old(self).policy.wf(),
            policy::has_room(old(self).policy),
        ensures
            principal_disabled(*old(self), *final(self), r, principal_id@, *actor, draw@),
            final(self).policy.wf(),
    {
        let ghost pre = *self;
        if let Some(reason) = policy::check_admin(&self.policy, actor) {
            return self.deny_request(actor, "access principal disable", reason, draw);
        }
        let epoch: i64 = policy::policy_epoch_on(&self.policy);
        let i: usize = keyed::find(self.policy.principals.as_slice(), principal_id);
        if i >= self.policy.principals.len() {
            return self.deny_request(
                actor,
                "access principal disable",
                Denied { stage: "principal", code: "not_found", epoch },
                draw,
            );
        }
        if !self.policy.principals[i].enabled {
            return self.deny_request(
                actor,
                "access principal disable",
                Denied { stage: "principal", code: "already_disabled", epoch },
                draw,
            );
        }
        let seq: i64 = policy::journal_next_seq(&self.policy);
        let event = policy::policy_event_id(seq);
        let row = disable_row(&self.policy.principals[i], epoch + 1, event.as_str(), None);
        let mut effect = PolicyEffect::none();
        effect.principals.push(row.copy());
        proof {
            assert(effect@.principals =~= seq![row@]);
            lemma_no_grants(pre.policy.state(), effect@);
            law_effects_keep_the_state_sound(pre.policy.state(), effect@);
        }
        let mut change = Change::bare(
            "principal_disabled",
            "access principal disable",
            event,
            effect,
            actor.state_hash.clone(),
            draw.audit_id.as_str(),
            draw.now,
        );
        change.target_principal = Some(principal_id.to_owned());
        policy::commit(&mut self.policy, actor, change);
        Ok(policy::principal_with_on(&self.policy, &row))
    }

    /// Disable a principal: its grants and mappings stay, without an effect.
    pub fn disable_principal(&mut self, principal_id: &str, actor: &PolicyActor) -> (r: Result<
        Principal,
        Error,
    >)
        requires
            old(self).policy.wf(),
            policy::has_room(old(self).policy),
        ensures
            exists|d: DrawView|
                is_drawn(d, 0, 0) && #[trigger] principal_disabled(
                    *old(self),
                    *final(self),
                    r,
                    principal_id@,
                    *actor,
                    d,
                ),
            final(self).policy.wf(),
    {
        let draw = draw_policy(0, 0);
        self.disable_principal_as(principal_id, actor, &draw)
    }
}

// --------------------------------------------------------------- rebinding a principal

/// The grants that a successor takes over.
pub open spec fn taken_grants(
    active: Seq<GrantView>,
    ids: Seq<Seq<char>>,
    successor: Seq<char>,
    epoch: i64,
    by: Option<Seq<char>>,
    event: Seq<char>,
) -> Seq<GrantView> {
    Seq::new(
        active.len(),
        |i: int|
            new_grant(
                ids[i],
                successor,
                active[i].capability,
                active[i].scope,
                GrantOrigin::RebindTransfer,
                epoch,
                by,
                event,
                Some(active[i].id),
            ),
    )
}

pub open spec fn ended_grants(active: Seq<GrantView>, epoch: i64, event: Seq<char>) -> Seq<
    GrantRetirementView,
> {
    active.map_values(
        |g: GrantView|
            GrantRetirementView {
                id: g.id,
                retired_at_epoch: epoch,
                retired_by_event_id: event,
            },
    )
}

pub open spec fn taken_mappings(
    active: Seq<SsoView>,
    ids: Seq<Seq<char>>,
    successor: Seq<char>,
    epoch: i64,
    event: Seq<char>,
) -> Seq<SsoView> {
    Seq::new(
        active.len(),
        |i: int|
            new_mapping(
                ids[i],
                successor,
                active[i].provider,
                active[i].subject,
                epoch,
                event,
            ),
    )
}

pub open spec fn ended_mappings(active: Seq<SsoView>, epoch: i64, event: Seq<char>) -> Seq<
    MappingRetirementView,
> {
    active.map_values(
        |m: SsoView|
            MappingRetirementView {
                id: m.id,
                unmapped_at_epoch: epoch,
                unmapped_by_event_id: event,
            },
    )
}

pub open spec fn active_grants(reg: Registry, principal: Seq<char>) -> Seq<GrantView> {
    tables::kept(reg.policy.state().grants, policy_state::active_for(principal))
}

pub open spec fn active_mappings(reg: Registry, principal: Seq<char>) -> Seq<SsoView> {
    tables::kept(reg.policy.state().mappings, policy_state::active_mapped_to(principal))
}

pub open spec fn value_view(p: PrincipalView) -> ValueView {
    ValueView { id: p.id, username: p.username, uid: p.uid, replaces: p.replaces }
}

/// What rebinding a principal changes.
pub open spec fn rebind_change(
    pre: Registry,
    source: PrincipalView,
    name: Seq<char>,
    uid: u32,
    replaces: Seq<Seq<char>>,
    actor: PolicyActor,
    d: DrawView,
) -> ChangeView {
    let epoch = next_epoch(pre);
    let event = next_id(pre);
    let grants = active_grants(pre, source.id);
    let mappings = active_mappings(pre, source.id);
    let old_row = disabled_row(source, epoch, event, Some(d.principal_id));
    let new_row = new_principal(
        d.principal_id,
        name,
        uid,
        epoch,
        event,
        Some(source.id),
        replaces,
    );
    ChangeView {
        target_principal: Some(d.principal_id),
        source: Some(value_view(old_row)),
        successor: Some(value_view(new_row)),
        delta: DeltaView {
            granted_grant_ids: d.grant_ids.take(grants.len() as int),
            retired_grant_ids: grants.map_values(|g: GrantView| g.id),
            mapped_mapping_ids: d.mapping_ids.take(mappings.len() as int),
            unmapped_mapping_ids: mappings.map_values(|m: SsoView| m.id),
            ..policy_journal::no_delta()
        },
        ..policy::bare_change(
            "principal_rebound"@,
            "access principal rebind"@,
            event,
            EffectView {
                principals: seq![old_row, new_row],
                grants: taken_grants(
                    grants,
                    d.grant_ids,
                    d.principal_id,
                    epoch,
                    text::text_of(actor.principal_id),
                    event,
                ),
                retired_grants: ended_grants(grants, epoch, event),
                mappings: taken_mappings(mappings, d.mapping_ids, d.principal_id, epoch, event),
                unmapped_mappings: ended_mappings(mappings, epoch, event),
                enforcement: None,
            },
            actor.state_hash@,
            d.audit_id,
            d.now,
        )
    }
}

/// What rebinding a principal returns and changes.
pub open spec fn principal_rebound(
    pre: Registry,
    post: Registry,
    r: Result<Principal, Error>,
    source_id: Seq<char>,
    username: Seq<char>,
    uid: u32,
    replaces: Seq<Seq<char>>,
    actor: PolicyActor,
    d: DrawView,
) -> bool {
    let operation = "access principal rebind"@;
    let name = text::trimmed(username);
    if name.len() == 0 {
        post == pre && text::refused(r, "rebind requires a username"@)
    } else {
        match policy::admin_denial(pre.policy, actor) {
            Some(denial) => denied_plainly(pre, post, r, actor, operation, denial, d),
            None => match principal_at(pre, source_id) {
                None => denied_plainly(
                    pre,
                    post,
                    r,
                    actor,
                    operation,
                    at_stage(pre, "principal"@, "not_found"@),
                    d,
                ),
                Some(source) => if !source.enabled {
                    denied_plainly(
                        pre,
                        post,
                        r,
                        actor,
                        operation,
                        at_stage(pre, "principal"@, "not_enabled"@),
                        d,
                    )
                } else if source.username == name && source.uid == uid {
                    denied_plainly(
                        pre,
                        post,
                        r,
                        actor,
                        operation,
                        at_stage(pre, "principal"@, "same_pair"@),
                        d,
                    )
                } else {
                    match policy::pair_refusal(
                        pre.policy.state().principals,
                        name,
                        uid,
                        replaces,
                        Some(source_id),
                    ) {
                        Some(m) => denied(
                            pre,
                            post,
                            r,
                            m,
                            actor,
                            operation,
                            at_stage(pre, "principal"@, "collision"@),
                            d,
                        ),
                        None => {
                            let c = rebind_change(pre, source, name, uid, replaces, actor, d);
                            match policy_state::clash(pre.policy.state(), c.effect) {
                                Some(m) => post == pre && text::refused(r, m),
                                None => {
                                    &&& changed(pre, post, actor, c)
                                    &&& r is Ok
                                    &&& policy::is_principal(
                                        r->Ok_0,
                                        c.effect.principals[1],
                                        post.policy.state(),
                                    )
                                },
                            }
                        },
                    }
                },
            },
        }
    }
}

fn take_grants(
    active: &[Grant],
    ids: &[String],
    successor: &str,
    epoch: i64,
    by: &Option<String>,
    event: &str,
) -> (r: Vec<Grant>)
    requires
        ids@.len() >= active@.len(),
    ensures
        keyed::rows(r@) == taken_grants(
            keyed::rows(active@),
            text::texts(ids@),
            successor@,
            epoch,
            text::text_of(*by),
            event@,
        ),
{
    let ghost wanted = taken_grants(
        keyed::rows(active@),
        text::texts(ids@),
        successor@,
        epoch,
        text::text_of(*by),
        event@,
    );
    let mut out: Vec<Grant> = Vec::new();
    let mut i: usize = 0;
    proof {
        assert(keyed::rows(out@) =~= wanted.take(0));
    }
    while i < active.len()
        invariant
            i <= active@.len(),
            ids@.len() >= active@.len(),
            wanted == taken_grants(
                keyed::rows(active@),
                text::texts(ids@),
                successor@,
                epoch,
                text::text_of(*by),
                event@,
            ),
            keyed::rows(out@) == wanted.take(i as int),
        decreases active.len() - i,
    {
        let ghost before = keyed::rows(out@);
        let row = make_grant(
            ids[i].as_str(),
            successor,
            active[i].capability,
            text::copy_list(active[i].scope.as_slice()),
            GrantOrigin::RebindTransfer,
            epoch,
            by,
            event,
            Some(active[i].id.as_str()),
        );
        out.push(row);
        proof {
            assert(row@ == wanted[i as int]);
            assert(keyed::rows(out@) =~= before.push(row@));
            assert(wanted.take(i as int + 1) =~= wanted.take(i as int).push(wanted[i as int]));
        }
        i = i + 1;
    }
    proof {
        assert(wanted.take(wanted.len() as int) =~= wanted);
    }
    out
}

fn make_grant_ends(active: &[Grant], epoch: i64, event: &str) -> (r: Vec<GrantRetirement>)
    ensures
        policy_state::grant_ends(r@) == ended_grants(keyed::rows(active@), epoch, event@),
{
    let ghost wanted = ended_grants(keyed::rows(active@), epoch, event@);
    let mut out: Vec<GrantRetirement> = Vec::new();
    let mut i: usize = 0;
    proof {
        assert(policy_state::grant_ends(out@) =~= wanted.take(0));
    }
    while i < active.len()
        invariant
            i <= active@.len(),
            wanted == ended_grants(keyed::rows(active@), epoch, event@),
            policy_state::grant_ends(out@) == wanted.take(i as int),
        decreases active.len() - i,
    {
        let ghost before = policy_state::grant_ends(out@);
        let end = GrantRetirement {
            id: active[i].id.clone(),
            retired_at_epoch: epoch,
            retired_by_event_id: event.to_owned(),
        };
        out.push(end);
        proof {
            assert(end@ == wanted[i as int]);
            assert(policy_state::grant_ends(out@) =~= before.push(end@));
            assert(wanted.take(i as int + 1) =~= wanted.take(i as int).push(wanted[i as int]));
        }
        i = i + 1;
    }
    proof {
        assert(wanted.take(wanted.len() as int) =~= wanted);
    }
    out
}

fn take_mappings(
    active: &[SsoMapping],
    ids: &[String],
    successor: &str,
    epoch: i64,
    event: &str,
) -> (r: Vec<SsoMapping>)
    requires
        ids@.len() >= active@.len(),
    ensures
        keyed::rows(r@) == taken_mappings(
            keyed::rows(active@),
            text::texts(ids@),
            successor@,
            epoch,
            event@,
        ),
{
    let ghost wanted = taken_mappings(
        keyed::rows(active@),
        text::texts(ids@),
        successor@,
        epoch,
        event@,
    );
    let mut out: Vec<SsoMapping> = Vec::new();
    let mut i: usize = 0;
    proof {
        assert(keyed::rows(out@) =~= wanted.take(0));
    }
    while i < active.len()
        invariant
            i <= active@.len(),
            ids@.len() >= active@.len(),
            wanted == taken_mappings(
                keyed::rows(active@),
                text::texts(ids@),
                successor@,
                epoch,
                event@,
            ),
            keyed::rows(out@) == wanted.take(i as int),
        decreases active.len() - i,
    {
        let ghost before = keyed::rows(out@);
        let row = make_mapping(
            ids[i].as_str(),
            successor,
            active[i].provider.as_str(),
            active[i].subject.as_str(),
            epoch,
            event,
        );
        out.push(row);
        proof {
            assert(row@ == wanted[i as int]);
            assert(keyed::rows(out@) =~= before.push(row@));
            assert(wanted.take(i as int + 1) =~= wanted.take(i as int).push(wanted[i as int]));
        }
        i = i + 1;
    }
    proof {
        assert(wanted.take(wanted.len() as int) =~= wanted);
    }
    out
}

fn make_mapping_ends(active: &[SsoMapping], epoch: i64, event: &str) -> (r: Vec<MappingRetirement>)
    ensures
        policy_state::mapping_ends(r@) == ended_mappings(keyed::rows(active@), epoch, event@),
{
    let ghost wanted = ended_mappings(keyed::rows(active@), epoch, event@);
    let mut out: Vec<MappingRetirement> = Vec::new();
    let mut i: usize = 0;
    proof {
        assert(policy_state::mapping_ends(out@) =~= wanted.take(0));
    }
    while i < active.len()
        invariant
            i <= active@.len(),
            wanted == ended_mappings(keyed::rows(active@), epoch, event@),
            policy_state::mapping_ends(out@) == wanted.take(i as int),
        decreases active.len() - i,
    {
        let ghost before = policy_state::mapping_ends(out@);
        let end = MappingRetirement {
            id: active[i].id.clone(),
            unmapped_at_epoch: epoch,
            unmapped_by_event_id: event.to_owned(),
        };
        out.push(end);
        proof {
            assert(end@ == wanted[i as int]);
            assert(policy_state::mapping_ends(out@) =~= before.push(end@));
            assert(wanted.take(i as int + 1) =~= wanted.take(i as int).push(wanted[i as int]));
        }
        i = i + 1;
    }
    proof {
        assert(wanted.take(wanted.len() as int) =~= wanted);
    }
    out
}

fn row_ids<T: Row>(list: &[T]) -> (r: Vec<String>)
    ensures
        text::texts(r@) == keyed::rows(list@).map_values(|v: T::Shown| T::key(v)),
{
    let ghost wanted = keyed::rows(list@).map_values(|v: T::Shown| T::key(v));
    let mut out: Vec<String> = Vec::new();
    let mut i: usize = 0;
    proof {
        assert(text::texts(out@) =~= wanted.take(0));
    }
    while i < list.len()
        invariant
            i <= list@.len(),
            wanted == keyed::rows(list@).map_values(|v: T::Shown| T::key(v)),
            text::texts(out@) == wanted.take(i as int),
        decreases list.len() - i,
    {
        let ghost before = text::texts(out@);
        let id = list[i].id().to_owned();
        out.push(id);
        proof {
            assert(id@ == wanted[i as int]);
            assert(text::texts(out@) =~= before.push(id@));
            assert(wanted.take(i as int + 1) =~= wanted.take(i as int).push(wanted[i as int]));
        }
        i = i + 1;
    }
    proof {
        assert(wanted.take(wanted.len() as int) =~= wanted);
    }
    out
}

fn make_value(row: &PrincipalRow) -> (r: PrincipalValue)
    ensures
        r@ == value_view(row@),
{
    PrincipalValue {
        id: row.id.clone(),
        username: row.username.clone(),
        uid: row.uid,
        replaces: text::copy_list(row.replaces.as_slice()),
    }
}

proof fn lemma_taken_scoped(
    st: PolicyState,
    source: Seq<char>,
    d: DrawView,
    epoch: i64,
    by: Option<Seq<char>>,
    event: Seq<char>,
)
    requires
        policy_state::sound(st),
    ensures
        policy_state::scoped(
            taken_grants(
                tables::kept(st.grants, policy_state::active_for(source)),
                d.grant_ids,
                d.principal_id,
                epoch,
                by,
                event,
            ),
        ),
{
    let active = tables::kept(st.grants, policy_state::active_for(source));
    let grants = taken_grants(active, d.grant_ids, d.principal_id, epoch, by, event);
    tables::lemma_kept(st.grants, policy_state::active_for(source));
    assert forall|i: int| 0 <= i < grants.len() implies lattice::scope_of(
        (#[trigger] grants[i]).scope,
    ) is Ok by {
        assert(st.grants.contains(active[i]));
        let k = choose|k: int| 0 <= k < st.grants.len() && st.grants[k] == active[i];
        assert(lattice::scope_of(st.grants[k].scope) is Ok);
    }
}

fn rebind_effect(
    grants: &[Grant],
    mappings: &[SsoMapping],
    source: &PrincipalRow,
    successor: &PrincipalRow,
    by: &Option<String>,
    event: &str,
    epoch: i64,
    draw: &PolicyDraw,
) -> (r: PolicyEffect)
    requires
        draw.grant_ids@.len() >= grants@.len(),
        draw.mapping_ids@.len() >= mappings@.len(),
    ensures
        r@.principals == seq![source@, successor@],
        r@.grants == taken_grants(
            keyed::rows(grants@),
            draw@.grant_ids,
            draw@.principal_id,
            epoch,
            text::text_of(*by),
            event@,
        ),
        r@.retired_grants == ended_grants(keyed::rows(grants@), epoch, event@),
        r@.mappings == taken_mappings(
            keyed::rows(mappings@),
            draw@.mapping_ids,
            draw@.principal_id,
            epoch,
            event@,
        ),
        r@.unmapped_mappings == ended_mappings(keyed::rows(mappings@), epoch, event@),
        r@.enforcement is None,
{
    let id = draw.principal_id.as_str();
    let principals: Vec<PrincipalRow> = vec![source.copy(), successor.copy()];
    proof {
        assert(keyed::rows(principals@) =~= seq![source@, successor@]);
    }
    PolicyEffect {
        principals,
        grants: take_grants(grants, draw.grant_ids.as_slice(), id, epoch, by, event),
        retired_grants: make_grant_ends(grants, epoch, event),
        mappings: take_mappings(mappings, draw.mapping_ids.as_slice(), id, epoch, event),
        unmapped_mappings: make_mapping_ends(mappings, epoch, event),
        enforcement: None,
    }
}

fn rebind_delta(grants: &[Grant], mappings: &[SsoMapping], draw: &PolicyDraw) -> (r: PolicyDelta)
    requires
        draw.grant_ids@.len() >= grants@.len(),
        draw.mapping_ids@.len() >= mappings@.len(),
    ensures
        r@ == (DeltaView {
            granted_grant_ids: draw@.grant_ids.take(grants@.len() as int),
            retired_grant_ids: keyed::rows(grants@).map_values(|g: GrantView| g.id),
            mapped_mapping_ids: draw@.mapping_ids.take(mappings@.len() as int),
            unmapped_mapping_ids: keyed::rows(mappings@).map_values(|m: SsoView| m.id),
            ..policy_journal::no_delta()
        }),
{
    let mut delta = PolicyDelta::none();
    delta.granted_grant_ids = first_ids(draw.grant_ids.as_slice(), grants.len());
    delta.retired_grant_ids = row_ids(grants);
    delta.mapped_mapping_ids = first_ids(draw.mapping_ids.as_slice(), mappings.len());
    delta.unmapped_mapping_ids = row_ids(mappings);
    proof {
        assert(delta@.retired_grant_ids =~= keyed::rows(grants@).map_values(|g: GrantView| g.id));
        assert(delta@.unmapped_mapping_ids =~= keyed::rows(mappings@).map_values(
            |m: SsoView| m.id,
        ));
    }
    delta
}

impl Registry {
    fn prepare_rebind(
        &self,
        i: usize,
        name: &str,
        uid: u32,
        replaces: &[String],
        actor: &PolicyActor,
        draw: &PolicyDraw,
    ) -> (r: (Change, PrincipalRow))
        requires
            self.policy.wf(),
            policy::has_room(self.policy),
            i < self.policy.principals@.len(),
            draw.grant_ids@.len() >= active_grants(
                *self,
                self.policy.principals@[i as int]@.id,
            ).len(),
            draw.mapping_ids@.len() >= active_mappings(
                *self,
                self.policy.principals@[i as int]@.id,
            ).len(),
        ensures
            r.0@ == rebind_change(
                *self,
                self.policy.principals@[i as int]@,
                name@,
                uid,
                text::texts(replaces@),
                *actor,
                draw@,
            ),
            r.1@ == r.0@.effect.principals[1],
            policy_state::scoped(r.0@.effect.grants),
    {
        let epoch: i64 = policy::policy_epoch_on(&self.policy);
        let seq: i64 = policy::journal_next_seq(&self.policy);
        let event = policy::policy_event_id(seq);
        let id = draw.principal_id.as_str();
        let source_id = self.policy.principals[i].id.as_str();
        let successor = make_principal(
            id,
            name,
            uid,
            epoch + 1,
            event.as_str(),
            Some(source_id),
            replaces,
        );
        let source = disable_row(
            &self.policy.principals[i],
            epoch + 1,
            event.as_str(),
            Some(id),
        );
        let grants = policy_state::grants_of(self.policy.grants.as_slice(), source_id, true);
        let mappings = policy_state::mappings_of(
            self.policy.mappings.as_slice(),
            source_id,
            true,
        );
        proof {
            assert(keyed::rows(grants@).len() == grants@.len());
            assert(keyed::rows(mappings@).len() == mappings@.len());
            lemma_taken_scoped(
                self.policy.state(),
                source_id@,
                draw@,
                (epoch + 1) as i64,
                text::text_of(actor.principal_id),
                event@,
            );
        }
        let effect = rebind_effect(
            grants.as_slice(),
            mappings.as_slice(),
            &source,
            &successor,
            &actor.principal_id,
            event.as_str(),
            epoch + 1,
            draw,
        );
        let mut change = Change::bare(
            "principal_rebound",
            "access principal rebind",
            event,
            effect,
            actor.state_hash.clone(),
            draw.audit_id.as_str(),
            draw.now,
        );
        change.target_principal = Some(id.to_owned());
        change.source = Some(make_value(&source));
        change.successor = Some(make_value(&successor));
        change.delta = rebind_delta(grants.as_slice(), mappings.as_slice(), draw);
        (change, successor)
    }

    /// Rebind a principal, with given ids at a given time.
    pub fn rebind_principal_as(
        &mut self,
        source_id: &str,
        username: &str,
        uid: u32,
        replaces: &[String],
        actor: &PolicyActor,
        draw: &PolicyDraw,
    ) -> (r: Result<Principal, Error>)
        requires
            old(self).policy.wf(),
            policy::has_room(old(self).policy),
            draw.grant_ids@.len() >= active_grants(*old(self), source_id@).len(),
            draw.mapping_ids@.len() >= active_mappings(*old(self), source_id@).len(),
        ensures
            principal_rebound(
                *old(self),
                *final(self),
                r,
                source_id@,
                username@,
                uid,
                text::texts(replaces@),
                *actor,
                draw@,
            ),
            final(self).policy.wf(),
    {
        let ghost pre = *self;
        let name = text::trim(username);
        if name.is_empty() {
            return text::refuse("rebind requires a username".to_owned());
        }
        if let Some(reason) = policy::check_admin(&self.policy, actor) {
            return self.deny_request(actor, "access principal rebind", reason, draw);
        }
        let epoch: i64 = policy::policy_epoch_on(&self.policy);
        let i: usize = keyed::find(self.policy.principals.as_slice(), source_id);
        if i >= self.policy.principals.len() {
            return self.deny_request(
                actor,
                "access principal rebind",
                Denied { stage: "principal", code: "not_found", epoch },
                draw,
            );
        }
        if !self.policy.principals[i].enabled {
            return self.deny_request(
                actor,
                "access principal rebind",
                Denied { stage: "principal", code: "not_enabled", epoch },
                draw,
            );
        }
        if text::same(self.policy.principals[i].username.as_str(), name)
            && self.policy.principals[i].uid == uid {
            return self.deny_request(
                actor,
                "access principal rebind",
                Denied { stage: "principal", code: "same_pair", epoch },
                draw,
            );
        }
        match policy::check_pair_collision(
            self.policy.principals.as_slice(),
            name,
            uid,
            replaces,
            Some(source_id),
        ) {
            Ok(_) => {},
            Err(e) => {
                policy::deny(
                    &mut self.policy,
                    actor,
                    "access principal rebind",
                    Denied { stage: "principal", code: "collision", epoch },
                    draw.audit_id.as_str(),
                    draw.now,
                );
                return Err(e);
            },
        }
        let (change, successor) = self.prepare_rebind(i, name, uid, replaces, actor, draw);
        if let Err(e) = policy_state::check_new(&self.policy, &change.effect) {
            return Err(e);
        }
        proof {
            law_effects_keep_the_state_sound(pre.policy.state(), change.effect@);
        }
        policy::commit(&mut self.policy, actor, change);
        Ok(policy::principal_with_on(&self.policy, &successor))
    }

    /// Disable a principal and let another take over all of its grants and mappings.
    pub fn rebind_principal(
        &mut self,
        source_id: &str,
        username: &str,
        uid: u32,
        replaces: &[String],
        actor: &PolicyActor,
    ) -> (r: Result<Principal, Error>)
        requires
            old(self).policy.wf(),
            policy::has_room(old(self).policy),
        ensures
            exists|d: DrawView|
                is_drawn(
                    d,
                    active_grants(*old(self), source_id@).len(),
                    active_mappings(*old(self), source_id@).len(),
                ) && #[trigger] principal_rebound(
                    *old(self),
                    *final(self),
                    r,
                    source_id@,
                    username@,
                    uid,
                    text::texts(replaces@),
                    *actor,
                    d,
                ),
            final(self).policy.wf(),
    {
        let grants = policy_state::grants_of(self.policy.grants.as_slice(), source_id, true);
        let mappings = policy_state::mappings_of(
            self.policy.mappings.as_slice(),
            source_id,
            true,
        );
        proof {
            assert(keyed::rows(grants@).len() == grants@.len());
            assert(keyed::rows(mappings@).len() == mappings@.len());
        }
        let draw = draw_policy(grants.len(), mappings.len());
        self.rebind_principal_as(source_id, username, uid, replaces, actor, &draw)
    }
}

} // verus!
