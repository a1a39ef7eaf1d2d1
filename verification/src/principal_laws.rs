//! What binding, disabling, rebinding and the first bootstrap do to principals.

use vstd::prelude::*;

use crate::authority_laws;
use crate::keyed;
use crate::lattice;
use crate::lattice::Capability;
use crate::lattice::ScopeView;
use crate::listing;
use crate::paths;
use crate::policy;
use crate::policy::Principal;
use crate::policy_journal::PolicyActor;
use crate::policy_laws;
use crate::policy_ops;
use crate::policy_ops::DrawView;
use crate::policy_state;
use crate::policy_state::Grant;
use crate::policy_state::GrantOrigin;
use crate::policy_state::GrantState;
use crate::policy_state::GrantView;
use crate::policy_state::PolicyState;
use crate::policy_state::PrincipalRow;
use crate::policy_state::PrincipalView;
use crate::policy_state::SsoView;
use crate::ranking;
use crate::tables;
use crate::tables::BoardRow;
use crate::tables::Registry;
use crate::text;
use crate::text::Error;

verus! {

/// The principal shares the name or the number.
pub open spec fn shares(p: PrincipalView, username: Seq<char>, uid: u32) -> bool {
    p.username == username || p.uid == uid
}

/// Nobody enabled shares the name or the number, and everybody disabled who does is
/// acknowledged, and no other; but for one, who is left out.
pub open spec fn is_free_pair(
    st: PolicyState,
    username: Seq<char>,
    uid: u32,
    acknowledged: Seq<Seq<char>>,
    but: Option<Seq<char>>,
) -> bool {
    &&& forall|k: int|
        0 <= k < st.principals.len() && shares(#[trigger] st.principals[k], username, uid) && but
            != Some(st.principals[k].id) ==> !st.principals[k].enabled && acknowledged.contains(
            st.principals[k].id,
        )
    &&& forall|id: Seq<char>| #[trigger]
        acknowledged.contains(id) ==> is_sharer(st, id, username, uid, but)
}

pub open spec fn is_sharer(
    st: PolicyState,
    id: Seq<char>,
    username: Seq<char>,
    uid: u32,
    but: Option<Seq<char>>,
) -> bool {
    exists|k: int|
        0 <= k < st.principals.len() && (#[trigger] st.principals[k]).id == id && shares(
            st.principals[k],
            username,
            uid,
        ) && but != Some(id)
}

pub(crate) proof fn lemma_deduplicated(s: Seq<Seq<char>>, x: Seq<char>)
    ensures
        tables::deduplicated(s).contains(x) <==> s.contains(x),
    decreases s.len(),
{
    if s.len() > 0 {
        let rest = s.drop_last();
        lemma_deduplicated(rest, x);
        lemma_deduplicated(rest, s.last());
        let d = tables::deduplicated(rest);
        let all = tables::deduplicated(s);
        if s.contains(x) {
            let i = choose|i: int| 0 <= i < s.len() && s[i] == x;
            if i < rest.len() {
                assert(rest[i] == x);
                let m = choose|m: int| 0 <= m < d.len() && d[m] == x;
                assert(all[m] == x);
            } else if !d.contains(x) {
                assert(all[d.len() as int] == x);
            }
        }
        if all.contains(x) {
            let i = choose|i: int| 0 <= i < all.len() && all[i] == x;
            if i < d.len() {
                assert(d[i] == x);
                assert(d.contains(x));
                let m = choose|m: int| 0 <= m < rest.len() && rest[m] == x;
                assert(s[m] == x);
            } else {
                assert(s[s.len() - 1] == x);
            }
        }
    }
}

proof fn lemma_sorted_contains(s: Seq<Seq<char>>, x: Seq<char>)
    ensures
        ranking::sorted_texts(s).contains(x) <==> s.contains(x),
{
    broadcast use vstd::seq_lib::group_to_multiset_ensures;

    ranking::law_sorted_texts(s);
    assert(ranking::sorted_texts(s).to_multiset().count(x) == s.to_multiset().count(x));
}

/// A name and a number are taken only where nobody enabled has either, and everybody who had
/// one of them is acknowledged.
pub proof fn law_taken_pairs_are_refused(
    st: PolicyState,
    username: Seq<char>,
    uid: u32,
    replaces: Seq<Seq<char>>,
    but: Option<Seq<char>>,
)
    requires
        policy::pair_refusal(st.principals, username, uid, replaces, but) is None,
    ensures
        is_free_pair(st, username, uid, replaces, but),
{
    let all = st.principals;
    let q = policy::collides_enabled(username, uid, but);
    let p = policy::collides(username, uid, but);
    tables::lemma_first_index(all, q);
    let some = tables::kept(all, p);
    let ids = policy::colliders(all, username, uid, but);
    assert forall|id: Seq<char>| #[trigger] replaces.contains(id) <==> ids.contains(id) by {
        lemma_sorted_contains(ids, id);
        lemma_sorted_contains(replaces, id);
        lemma_deduplicated(ranking::sorted_texts(replaces), id);
    }
    assert forall|k: int|
        0 <= k < all.len() && shares(#[trigger] all[k], username, uid) && but != Some(
            all[k].id,
        ) implies !all[k].enabled && replaces.contains(all[k].id) by {
        assert(!q(all[k]));
        assert(p(all[k]));
        assert(all.contains(all[k]));
        listing::lemma_kept_contains(all, p, all[k]);
        let i = choose|i: int| 0 <= i < some.len() && some[i] == all[k];
        assert(ids[i] == all[k].id);
        assert(ids.contains(all[k].id));
    }
    assert forall|id: Seq<char>| #[trigger] replaces.contains(id) implies is_sharer(
        st,
        id,
        username,
        uid,
        but,
    ) by {
        assert(ids.contains(id));
        let i = choose|i: int| 0 <= i < ids.len() && ids[i] == id;
        assert(some.contains(some[i]));
        listing::lemma_kept_contains(all, p, some[i]);
        let k = choose|k: int| 0 <= k < all.len() && all[k] == some[i];
        assert(all[k].id == id);
    }
}

/// A principal that is bound is one enabled principal more, with that name and number and
/// without a predecessor, where nobody enabled has either. Grants and mappings stay.
pub proof fn law_bound_principal_is_one_more(
    pre: Registry,
    post: Registry,
    r: Result<Principal, Error>,
    username: Seq<char>,
    uid: u32,
    replaces: Seq<Seq<char>>,
    actor: PolicyActor,
    d: DrawView,
)
    requires
        pre.policy.wf(),
        policy_ops::principal_bound(pre, post, r, username, uid, replaces, actor, d),
        r is Ok,
    ensures
        ({
            let a = pre.policy.state();
            let b = post.policy.state();
            let x = r->Ok_0.row;
            &&& x.username@ == text::trimmed(username) && x.username@.len() > 0
            &&& x.uid == uid
            &&& x.enabled
            &&& x.disabled_at_epoch is None && x.disabled_by_event_id is None
            &&& x.successor_id is None && x.predecessor_id is None
            &&& text::texts(x.replaces@) == replaces
            &&& x.bound_at_epoch == post.policy.epochs@.last().epoch
            &&& forall|y: PrincipalView| #[trigger]
                b.principals.contains(y) <==> y == x@ || (a.principals.contains(y) && y.id
                    != x.id@)
            &&& b.grants == a.grants
            &&& b.mappings == a.mappings
            &&& b.enforcement == a.enforcement
            &&& is_free_pair(a, text::trimmed(username), uid, replaces, None)
        }),
        actor.principal_id is Some,
        authority_laws::may(
            pre.policy.state(),
            actor.principal_id->0@,
            ScopeView::Registry,
            Capability::Admin,
        ),
{
    let a = pre.policy.state();
    let row = r->Ok_0.row@;
    authority_laws::law_authority_comes_from_one_active_grant(
        pre.policy,
        actor,
        ScopeView::Registry,
        Capability::Admin,
    );
    law_taken_pairs_are_refused(a, text::trimmed(username), uid, replaces, None);
    policy_laws::lemma_put_one::<PrincipalRow>(a.principals, row);
    keyed::law_put::<PrincipalRow>(a.principals, row);
    assert(row.predecessor_id == text::text_of(r->Ok_0.row.predecessor_id));
    assert(row.successor_id == text::text_of(r->Ok_0.row.successor_id));
    assert(row.disabled_by_event_id == text::text_of(r->Ok_0.row.disabled_by_event_id));
}

/// A principal that is disabled is the one asked for, was enabled and keeps all else that it
/// says. Every other principal, and every grant and mapping, stays.
pub proof fn law_disabled_principal_keeps_its_row(
    pre: Registry,
    post: Registry,
    r: Result<Principal, Error>,
    id: Seq<char>,
    actor: PolicyActor,
    d: DrawView,
) -> (old_row: PrincipalView)
    requires
        pre.policy.wf(),
        policy_ops::principal_disabled(pre, post, r, id, actor, d),
        r is Ok,
    ensures
        ({
            let a = pre.policy.state();
            let b = post.policy.state();
            let x = r->Ok_0.row@;
            &&& a.principals.contains(old_row)
            &&& old_row.id == id && old_row.enabled
            &&& x.id == id && !x.enabled
            &&& x.username == old_row.username && x.uid == old_row.uid
            &&& x.bound_at_epoch == old_row.bound_at_epoch
            &&& x.disabled_at_epoch == Some(post.policy.epochs@.last().epoch)
            &&& x.successor_id == old_row.successor_id
            &&& x.predecessor_id == old_row.predecessor_id
            &&& forall|y: PrincipalView| #[trigger]
                b.principals.contains(y) <==> y == x || (a.principals.contains(y) && y.id != id)
            &&& b.grants == a.grants
            &&& b.mappings == a.mappings
            &&& b.enforcement == a.enforcement
        }),
        actor.principal_id is Some,
        authority_laws::may(
            pre.policy.state(),
            actor.principal_id->0@,
            ScopeView::Registry,
            Capability::Admin,
        ),
{
    let a = pre.policy.state();
    let row = r->Ok_0.row@;
    authority_laws::law_authority_comes_from_one_active_grant(
        pre.policy,
        actor,
        ScopeView::Registry,
        Capability::Admin,
    );
    policy_laws::lemma_principal_at(pre, id);
    let old_row = policy_ops::principal_at(pre, id)->0;
    policy_laws::lemma_put_one::<PrincipalRow>(a.principals, row);
    keyed::law_put::<PrincipalRow>(a.principals, row);
    old_row
}

/// A grant was taken over by the successor.
pub open spec fn is_taken_over(after: PolicyState, g: GrantView, successor: Seq<char>) -> bool {
    exists|k: int|
        {
            &&& 0 <= k < after.grants.len()
            &&& (#[trigger] after.grants[k]).principal_id == successor
            &&& after.grants[k].state == GrantState::Active
            &&& after.grants[k].capability == g.capability
            &&& after.grants[k].scope == g.scope
            &&& after.grants[k].origin == GrantOrigin::RebindTransfer
            &&& after.grants[k].transferred_from_grant_id == Some(g.id)
        }
}

/// A mapping was taken over by the successor.
pub open spec fn is_mapped_over(after: PolicyState, m: SsoView, successor: Seq<char>) -> bool {
    exists|k: int|
        {
            &&& 0 <= k < after.mappings.len()
            &&& (#[trigger] after.mappings[k]).principal_id == successor
            &&& after.mappings[k].unmapped_at_epoch is None
            &&& after.mappings[k].provider == m.provider
            &&& after.mappings[k].subject == m.subject
        }
}

/// A rebinding hands over all that its source had: each active grant and mapping of the
/// source has its like with the successor, and the source has no active one left. The source
/// is disabled and names its successor; the successor is enabled, has the new name and
/// number, and names its source.
pub proof fn law_successor_has_what_the_source_had(
    pre: Registry,
    post: Registry,
    r: Result<Principal, Error>,
    source_id: Seq<char>,
    username: Seq<char>,
    uid: u32,
    replaces: Seq<Seq<char>>,
    actor: PolicyActor,
    d: DrawView,
)
    requires
        pre.policy.wf(),
        policy::has_room(pre.policy),
        !keyed::has_id::<PrincipalRow>(pre.policy.state().principals, d.principal_id),
        policy_ops::principal_rebound(
            pre,
            post,
            r,
            source_id,
            username,
            uid,
            replaces,
            actor,
            d,
        ),
        r is Ok,
    ensures
        ({
            let a = pre.policy.state();
            let b = post.policy.state();
            let x = r->Ok_0.row@;
            &&& x.username == text::trimmed(username) && x.uid == uid && x.enabled
            &&& x.predecessor_id == Some(source_id)
            &&& b.principals.contains(x)
            &&& forall|k: int|
                0 <= k < a.grants.len() && (#[trigger] a.grants[k]).principal_id == source_id
                    && a.grants[k].state == GrantState::Active ==> is_taken_over(
                    b,
                    a.grants[k],
                    x.id,
                )
            &&& forall|k: int|
                0 <= k < b.grants.len() && (#[trigger] b.grants[k]).principal_id == source_id
                    ==> b.grants[k].state != GrantState::Active
            &&& forall|k: int|
                0 <= k < a.mappings.len() && (#[trigger] a.mappings[k]).principal_id == source_id
                    && a.mappings[k].unmapped_at_epoch is None ==> is_mapped_over(
                    b,
                    a.mappings[k],
                    x.id,
                )
            &&& forall|k: int|
                0 <= k < b.mappings.len() && (#[trigger] b.mappings[k]).principal_id == source_id
                    ==> b.mappings[k].unmapped_at_epoch is Some
            &&& forall|k: int|
                0 <= k < b.principals.len() && (#[trigger] b.principals[k]).id == source_id
                    ==> !b.principals[k].enabled && b.principals[k].successor_id == Some(x.id)
            &&& is_free_pair(a, text::trimmed(username), uid, replaces, Some(source_id))
        }),
{
    policy_laws::law_rebind_hands_everything_over(
        pre,
        post,
        r,
        source_id,
        username,
        uid,
        replaces,
        actor,
        d,
    );
    let a = pre.policy.state();
    let b = post.policy.state();
    let x = r->Ok_0.row@;
    law_taken_pairs_are_refused(a, text::trimmed(username), uid, replaces, Some(source_id));
    let pg = policy_state::active_for(source_id);
    let pm = policy_state::active_mapped_to(source_id);
    let had = policy_ops::active_grants(pre, source_id);
    let mapped = policy_ops::active_mappings(pre, source_id);
    assert forall|k: int|
        0 <= k < a.grants.len() && (#[trigger] a.grants[k]).principal_id == source_id
            && a.grants[k].state == GrantState::Active implies is_taken_over(
        b,
        a.grants[k],
        x.id,
    ) by {
        let g = a.grants[k];
        assert(a.grants.contains(g));
        listing::lemma_kept_contains(a.grants, pg, g);
        let i = choose|i: int| 0 <= i < had.len() && had[i] == g;
        assert(had[i].capability == g.capability);
        let y = policy_ops::new_grant(
            d.grant_ids[i],
            x.id,
            g.capability,
            g.scope,
            GrantOrigin::RebindTransfer,
            policy_ops::next_epoch(pre),
            text::text_of(actor.principal_id),
            policy_ops::next_id(pre),
            Some(g.id),
        );
        assert(b.grants.contains(y));
        let m = choose|m: int| 0 <= m < b.grants.len() && b.grants[m] == y;
        assert(b.grants[m].principal_id == x.id);
    }
    assert forall|k: int|
        0 <= k < b.grants.len() && (#[trigger] b.grants[k]).principal_id
            == source_id implies b.grants[k].state != GrantState::Active by {
        if b.grants[k].state == GrantState::Active {
            assert(b.grants.contains(b.grants[k]));
            listing::lemma_kept_contains(b.grants, pg, b.grants[k]);
            let none = policy_ops::active_grants(post, source_id);
            assert(none.contains(b.grants[k]));
            assert(none.len() > 0);
        }
    }
    assert forall|k: int|
        0 <= k < a.mappings.len() && (#[trigger] a.mappings[k]).principal_id == source_id
            && a.mappings[k].unmapped_at_epoch is None implies is_mapped_over(
        b,
        a.mappings[k],
        x.id,
    ) by {
        let g = a.mappings[k];
        assert(a.mappings.contains(g));
        listing::lemma_kept_contains(a.mappings, pm, g);
        let i = choose|i: int| 0 <= i < mapped.len() && mapped[i] == g;
        assert(mapped[i].provider == g.provider);
        let y = policy_ops::new_mapping(
            d.mapping_ids[i],
            x.id,
            g.provider,
            g.subject,
            policy_ops::next_epoch(pre),
            policy_ops::next_id(pre),
        );
        assert(b.mappings.contains(y));
        let m = choose|m: int| 0 <= m < b.mappings.len() && b.mappings[m] == y;
        assert(b.mappings[m].principal_id == x.id);
    }
    assert forall|k: int|
        0 <= k < b.mappings.len() && (#[trigger] b.mappings[k]).principal_id
            == source_id implies b.mappings[k].unmapped_at_epoch is Some by {
        if b.mappings[k].unmapped_at_epoch is None {
            assert(b.mappings.contains(b.mappings[k]));
            listing::lemma_kept_contains(b.mappings, pm, b.mappings[k]);
            let none = policy_ops::active_mappings(post, source_id);
            assert(none.contains(b.mappings[k]));
            assert(none.len() > 0);
        }
    }
    policy_laws::lemma_principal_at(post, x.id);
    policy_laws::lemma_principal_at(post, source_id);
    lemma_sound_after(pre, post, source_id, username, uid, replaces, actor, d, r);
    assert forall|k: int|
        0 <= k < b.principals.len() && (#[trigger] b.principals[k]).id
            == source_id implies !b.principals[k].enabled && b.principals[k].successor_id == Some(
        x.id,
    ) by {
        assert(b.principals.contains(b.principals[k]));
        policy_laws::lemma_found::<PrincipalRow>(b.principals, b.principals[k]);
    }
}

/// The principals still stand by their ids.
proof fn lemma_sound_after(
    pre: Registry,
    post: Registry,
    source_id: Seq<char>,
    username: Seq<char>,
    uid: u32,
    replaces: Seq<Seq<char>>,
    actor: PolicyActor,
    d: DrawView,
    r: Result<Principal, Error>,
)
    requires
        pre.policy.wf(),
        policy_ops::principal_rebound(
            pre,
            post,
            r,
            source_id,
            username,
            uid,
            replaces,
            actor,
            d,
        ),
        r is Ok,
    ensures
        keyed::by_id::<PrincipalRow>(post.policy.state().principals),
{
    let a = pre.policy.state().principals;
    let source = policy_ops::principal_at(pre, source_id)->0;
    let c = policy_ops::rebind_change(
        pre,
        source,
        text::trimmed(username),
        uid,
        replaces,
        actor,
        d,
    );
    let both = c.effect.principals;
    assert(both.len() == 2);
    assert(both.drop_last() =~= seq![both[0]]);
    policy_laws::lemma_put_one::<PrincipalRow>(a, both[0]);
    keyed::law_put::<PrincipalRow>(a, both[0]);
    keyed::law_put::<PrincipalRow>(keyed::put::<PrincipalRow>(a, both[0]), both[1]);
}

// ---------------------------------------------------------------------------- bootstrap

/// The id names an active board.
pub open spec fn names_active_board(boards: Seq<BoardRow>, id: Seq<char>) -> bool {
    id.len() > 0 && exists|k: int|
        0 <= k < boards.len() && !(#[trigger] boards[k]).archived && paths::board_id(
            boards[k].board_path@,
        ) == Some(id)
}

proof fn lemma_stems(list: Seq<Seq<char>>, id: Seq<char>)
    ensures
        policy_ops::stems(list).contains(id) <==> id.len() > 0 && exists|k: int|
            0 <= k < list.len() && paths::board_id(#[trigger] list[k]) == Some(id),
    decreases list.len(),
{
    if list.len() > 0 {
        let rest = list.drop_last();
        lemma_stems(rest, id);
        let before = policy_ops::stems(rest);
        let all = policy_ops::stems(list);
        if all.contains(id) {
            let i = choose|i: int| 0 <= i < all.len() && all[i] == id;
            if i < before.len() {
                assert(before[i] == id);
                assert(before.contains(id));
                let k = choose|k: int|
                    0 <= k < rest.len() && paths::board_id(#[trigger] rest[k]) == Some(id);
                assert(paths::board_id(list[k]) == Some(id));
            } else {
                assert(paths::board_id(list[list.len() - 1]) == Some(id));
            }
        }
        if id.len() > 0 && exists|k: int|
            0 <= k < list.len() && paths::board_id(#[trigger] list[k]) == Some(id) {
            let k = choose|k: int|
                0 <= k < list.len() && paths::board_id(#[trigger] list[k]) == Some(id);
            if k < rest.len() {
                assert(rest[k] == list[k]);
                assert(before.contains(id));
                let i = choose|i: int| 0 <= i < before.len() && before[i] == id;
                assert(all[i] == id);
            } else {
                assert(all[before.len() as int] == id);
            }
        }
    }
}

proof fn lemma_board_ids(boards: Seq<BoardRow>, id: Seq<char>)
    ensures
        policy_ops::board_ids(boards).contains(id) <==> names_active_board(boards, id),
{
    let p = tables::board_listed(false);
    let active = tables::kept(boards, p);
    let list = policy_ops::active_paths(boards);
    let sorted = ranking::sorted_texts(list);
    lemma_stems(sorted, id);
    if policy_ops::board_ids(boards).contains(id) {
        let k = choose|k: int|
            0 <= k < sorted.len() && paths::board_id(#[trigger] sorted[k]) == Some(id);
        assert(sorted.contains(sorted[k]));
        lemma_sorted_contains(list, sorted[k]);
        let m = choose|m: int| 0 <= m < list.len() && list[m] == sorted[k];
        assert(active.contains(active[m]));
        listing::lemma_kept_contains(boards, p, active[m]);
        let b = choose|b: int| 0 <= b < boards.len() && boards[b] == active[m];
        assert(!boards[b].archived && paths::board_id(boards[b].board_path@) == Some(id));
    }
    if names_active_board(boards, id) {
        let b = choose|b: int|
            0 <= b < boards.len() && !(#[trigger] boards[b]).archived && paths::board_id(
                boards[b].board_path@,
            ) == Some(id);
        assert(p(boards[b]));
        assert(boards.contains(boards[b]));
        listing::lemma_kept_contains(boards, p, boards[b]);
        let m = choose|m: int| 0 <= m < active.len() && active[m] == boards[b];
        assert(list[m] == boards[b].board_path@);
        assert(list.contains(list[m]));
        lemma_sorted_contains(list, list[m]);
        let k = choose|k: int| 0 <= k < sorted.len() && sorted[k] == list[m];
        assert(paths::board_id(sorted[k]) == Some(id));
    }
}

/// The registry, an active board, or all tags of one.
pub open spec fn is_seeded(boards: Seq<BoardRow>, scope: ScopeView) -> bool {
    match scope {
        ScopeView::Registry => true,
        ScopeView::Board(id) => names_active_board(boards, id),
        ScopeView::BoardWildcard(id) => names_active_board(boards, id),
        ScopeView::BoardTag(_, _) => false,
    }
}

proof fn lemma_seed_scopes(ids: Seq<Seq<char>>, scope: ScopeView)
    ensures
        policy_ops::seed_scopes(ids).contains(scope) <==> match scope {
            ScopeView::Registry => true,
            ScopeView::Board(id) => ids.contains(id),
            ScopeView::BoardWildcard(id) => ids.contains(id),
            ScopeView::BoardTag(_, _) => false,
        },
    decreases ids.len(),
{
    let all = policy_ops::seed_scopes(ids);
    if ids.len() == 0 {
        assert(all[0] == ScopeView::Registry);
    } else {
        let rest = ids.drop_last();
        lemma_seed_scopes(rest, scope);
        let before = policy_ops::seed_scopes(rest);
        let n = before.len() as int;
        assert(all[n] == ScopeView::Board(ids.last()));
        assert(all[n + 1] == ScopeView::BoardWildcard(ids.last()));
        assert(forall|i: int| 0 <= i < n ==> all[i] == before[i]);
        assert forall|id: Seq<char>| #[trigger] ids.contains(id) <==> id == ids.last()
            || rest.contains(id) by {
            if ids.contains(id) {
                let i = choose|i: int| 0 <= i < ids.len() && ids[i] == id;
                if i < rest.len() {
                    assert(rest[i] == id);
                }
            }
            if rest.contains(id) {
                let i = choose|i: int| 0 <= i < rest.len() && rest[i] == id;
                assert(ids[i] == id);
            }
            assert(ids[ids.len() - 1] == ids.last());
        }
        if before.contains(scope) {
            let i = choose|i: int| 0 <= i < before.len() && before[i] == scope;
            assert(all[i] == scope);
        }
        if all.contains(scope) {
            let i = choose|i: int| 0 <= i < all.len() && all[i] == scope;
            if i < n {
                assert(before[i] == scope);
            }
        }
    }
}

/// The first bootstrap makes one principal, who is no root, administrator of the registry and
/// of every active board, its tags among them, and of nothing else. It is done only where
/// there is no policy yet.
pub proof fn law_bootstrap_makes_one_administrator(
    pre: Registry,
    post: Registry,
    r: Result<Principal, Error>,
    username: Seq<char>,
    uid: u32,
    actor: PolicyActor,
    d: DrawView,
)
    requires
        pre.policy.wf(),
        d.grant_ids.len() >= policy_ops::seed_scopes(policy_ops::board_ids(pre.boards@)).len(),
        policy_ops::bootstrapped(pre, post, r, username, uid, actor, d),
        r is Ok,
    ensures
        uid != 0,
        policy::epoch_of(pre.policy) == 0,
        pre.policy.enforcement@ == "direct"@,
        ({
            let a = pre.policy.state();
            let b = post.policy.state();
            let x = r->Ok_0.row@;
            &&& x.username == text::trimmed(username) && x.username.len() > 0
            &&& x.uid == uid && x.enabled
            &&& x.predecessor_id is None && x.replaces.len() == 0
            &&& b.principals.contains(x)
            &&& b.mappings == a.mappings
            &&& b.enforcement == a.enforcement
            &&& forall|scope: ScopeView| #[trigger]
                is_seeded(pre.boards@, scope) ==> authority_laws::may(
                    b,
                    x.id,
                    scope,
                    Capability::Admin,
                )
            &&& forall|g: GrantView| #[trigger]
                b.grants.contains(g) ==> a.grants.contains(g) || is_seed(g, pre.boards@, x.id)
            &&& forall|g: GrantView| #[trigger] a.grants.contains(g) ==> b.grants.contains(g)
        }),
{
    let a = pre.policy.state();
    let b = post.policy.state();
    let x = r->Ok_0.row@;
    let ids = policy_ops::board_ids(pre.boards@);
    let scopes = policy_ops::seed_scopes(ids);
    let seeds = policy_ops::seed_grants(scopes, d.grant_ids, d.principal_id);
    policy_laws::lemma_put_one::<PrincipalRow>(a.principals, x);
    keyed::law_put::<PrincipalRow>(a.principals, x);
    assert(b.principals.contains(x));
    policy_laws::lemma_put_all_contains::<Grant>(a.grants, seeds);
    let m = choose|m: int| 0 <= m < b.principals.len() && b.principals[m] == x;
    assert(b.principals[m].id == x.id);
    assert(authority_laws::stands(b, x.id));
    assert forall|scope: ScopeView| #[trigger] is_seeded(
        pre.boards@,
        scope,
    ) implies authority_laws::may(b, x.id, scope, Capability::Admin) by {
        match scope {
            ScopeView::Board(id) => {
                lemma_board_ids(pre.boards@, id);
            },
            ScopeView::BoardWildcard(id) => {
                lemma_board_ids(pre.boards@, id);
            },
            _ => {},
        }
        lemma_seed_scopes(ids, scope);
        let i = choose|i: int| 0 <= i < scopes.len() && scopes[i] == scope;
        lattice::law_atoms_form_the_scope(scope);
        assert(seeds.contains(seeds[i]));
        assert(b.grants.contains(seeds[i]));
        let k = choose|k: int| 0 <= k < b.grants.len() && b.grants[k] == seeds[i];
        assert(authority_laws::suffices(b.grants[k], x.id, scope, Capability::Admin));
    }
    assert forall|g: GrantView| #[trigger] b.grants.contains(g) implies a.grants.contains(g)
        || is_seed(g, pre.boards@, x.id) by {
        if !a.grants.contains(g) {
            assert(seeds.contains(g));
            let i = choose|i: int| 0 <= i < seeds.len() && seeds[i] == g;
            let scope = scopes[i];
            assert(scopes.contains(scope));
            lemma_seed_scopes(ids, scope);
            match scope {
                ScopeView::Board(id) => {
                    lemma_board_ids(pre.boards@, id);
                },
                ScopeView::BoardWildcard(id) => {
                    lemma_board_ids(pre.boards@, id);
                },
                _ => {},
            }
            lattice::law_atoms_form_the_scope(scope);
            assert(is_seeded(pre.boards@, lattice::scope_of(g.scope)->Ok_0));
        }
    }
}

/// The grant is one that a bootstrap gives.
pub open spec fn is_seed(g: GrantView, boards: Seq<BoardRow>, principal: Seq<char>) -> bool {
    &&& g.principal_id == principal
    &&& g.state == GrantState::Active
    &&& g.capability == Capability::Admin
    &&& g.origin == GrantOrigin::Bootstrap
    &&& g.granted_by_principal_id is None
    &&& lattice::scope_of(g.scope) matches Ok(scope) && is_seeded(boards, scope)
}

} // verus!
