//! When success is owed: what is enough for an operation to be carried out.

use vstd::prelude::*;

use crate::attachment;
use crate::authority_laws;
use crate::keyed;
use crate::lattice;
use crate::lattice::Capability;
use crate::lattice::ScopeView;
use crate::listing;
use crate::paths;
use crate::place_laws;
use crate::policy;
use crate::policy::Principal;
use crate::policy_grants;
use crate::policy_journal::PolicyActor;
use crate::policy_laws;
use crate::policy_ops;
use crate::policy_ops::DrawView;
use crate::policy_state;
use crate::policy_state::Grant;
use crate::policy_state::GrantView;
use crate::policy_state::PolicyState;
use crate::policy_state::SsoMapping;
use crate::policy_state::SsoView;
use crate::ranking;
use crate::retirement;
use crate::rule_history;
use crate::rule_history::Change;
use crate::rulebook;
use crate::rulebook_laws;
use crate::rules::Rule;
use crate::selector_laws;
use crate::selectors;
use crate::selectors::Scope;
use crate::tables;
use crate::tables::AliasRow;
use crate::tables::Registry;
use crate::text;
use crate::text::Error;
use crate::workspace::ProjectRecord;
use crate::workspace::UnreachableRoot;
use crate::workspace::WorkspaceRecord;
use crate::workspace_ops;

verus! {

// ---------------------------------------------------------------------------- rules

/// A body with a headline.
pub open spec fn has_headline(body: Seq<char>) -> bool {
    &&& text::trimmed(body).len() > 0
    &&& text::lines_of(body).len() > 0
    &&& text::trimmed(text::lines_of(body)[0]).len() > 0
}

/// A rule with a headline, by someone, whose selectors each name one active board, is added
/// under an id that no rule has.
pub proof fn law_good_rules_are_added(
    pre: Registry,
    post: Registry,
    r: Result<Rule, Error>,
    body: Seq<char>,
    actor: Seq<char>,
    tags: Seq<Seq<char>>,
    id: Seq<char>,
    now: i64,
)
    requires
        rulebook::rule_added(pre, post, r, body, actor, tags, id, now),
        pre.boards@.len() <= i64::MAX,
        has_headline(body),
        text::trimmed(actor).len() > 0,
        selector_laws::each_names_one(tags, pre.boards@),
        forall|k: int| 0 <= k < pre.rules@.len() ==> (#[trigger] pre.rules@[k]).id@ != id,
    ensures
        r is Ok,
{
    selector_laws::law_selectors_name_one_board(id, tags, pre.boards@);
    let q = rulebook::rule_at(id);
    tables::lemma_first_index(pre.rules@, q);
    let n = tables::first_index(pre.rules@, q);
    if n < pre.rules@.len() {
        assert(q(pre.rules@[n]));
    }
}

/// A rule that is there and active is retired, whoever asks.
pub proof fn law_active_rules_are_retired(
    pre: Registry,
    post: Registry,
    r: Result<Rule, Error>,
    id: Seq<char>,
    actor: Seq<char>,
    now: i64,
    k: int,
)
    requires
        pre.wf(),
        rulebook::rule_retired(pre, post, r, id, actor, now),
        text::trimmed(actor).len() > 0,
        0 <= k < pre.rules@.len(),
        pre.rules@[k].id@ == id,
        !pre.rules@[k].archived,
    ensures
        r is Ok,
{
    lemma_the_rule(pre, id, k);
}

proof fn lemma_the_rule(reg: Registry, id: Seq<char>, k: int)
    requires
        reg.wf(),
        0 <= k < reg.rules@.len(),
        reg.rules@[k].id@ == id,
    ensures
        tables::first_index(reg.rules@, rulebook::rule_at(id)) == k,
{
    let q = rulebook::rule_at(id);
    tables::lemma_first_index(reg.rules@, q);
    let n = tables::first_index(reg.rules@, q);
    assert(q(reg.rules@[k]));
    assert(q(reg.rules@[n]));
    if n < k {
        assert(reg.rules@[n].id@ != reg.rules@[k].id@);
    }
}

/// The body of a rule that is there is changed to any that has a headline, whoever asks, where
/// the rule is retired or its selectors each name one active board.
pub proof fn law_bodies_are_changed(
    pre: Registry,
    post: Registry,
    r: Result<Rule, Error>,
    id: Seq<char>,
    change: Change,
    actor: Seq<char>,
    now: i64,
    k: int,
)
    requires
        pre.wf(),
        pre.boards@.len() <= i64::MAX,
        rule_history::rule_updated(pre, post, r, id, change, actor, now),
        text::trimmed(actor).len() > 0,
        0 <= k < pre.rules@.len(),
        pre.rules@[k].id@ == id,
        change.body is Some && has_headline(change.body->0),
        change.selectors is None && change.subsystems is None,
        pre.rules@[k].archived || selector_laws::each_names_one(
            text::texts(pre.rules@[k].tags@),
            pre.boards@,
        ),
    ensures
        r is Ok,
{
    lemma_the_rule(pre, id, k);
    if !pre.rules@[k].archived {
        let old_tags = text::texts(pre.rules@[k].tags@);
        let a = tables::kept(old_tags, rule_history::selector_tag());
        let b = tables::kept(old_tags, rule_history::subsystem_tag());
        let tags = rule_history::changed_tags(old_tags, change.selectors, change.task_tags());
        assert(tags == a + b);
        assert forall|j: int, name: Seq<char>|
            0 <= j < tags.len() && #[trigger] selector_laws::selects_by_name(
                tags[j],
                name,
            ) implies selector_laws::count_active(pre.boards@, name, None) == 1 by {
            assert(tags.contains(tags[j]));
            rulebook_laws::lemma_in_sum(a, b, tags[j]);
            rulebook_laws::lemma_split_tags(old_tags, tags[j]);
            let m = choose|m: int| 0 <= m < old_tags.len() && old_tags[m] == tags[j];
            assert(selector_laws::selects_by_name(old_tags[m], name));
        }
        selector_laws::law_selectors_name_one_board(id, tags, pre.boards@);
    }
}

// ---------------------------------------------------------------------------- places

/// No active board has the name, but for one.
pub open spec fn is_free_name(reg: Registry, name: Seq<char>, but: int) -> bool {
    forall|k: int|
        0 <= k < reg.boards@.len() && k != but ==> (#[trigger] reg.boards@[k]).name@ != name
            || reg.boards@[k].archived
}

/// A board is registered, whoever asks, under a name that no active board has, and at a place
/// that is no root, where it is forced or lies in no other.
pub proof fn law_free_boards_are_registered(
    pre: Registry,
    post: Registry,
    r: Result<ProjectRecord, Error>,
    place: Option<Seq<char>>,
    name: Seq<char>,
    force: bool,
    actor: Seq<char>,
    file: Seq<char>,
    now: i64,
)
    requires
        pre.wf(),
        workspace_ops::registered(pre, post, r, place, name, force, actor, file, now),
        text::trimmed(actor).len() > 0,
        is_free_name(pre, name, -1),
        forall|k: int|
            0 <= k < pre.boards@.len() ==> (#[trigger] pre.boards@[k]).board_path@
                != workspace_ops::new_board_path(pre.data_root@, file),
        place matches Some(root) ==> root.len() > 0 && root[0] == '/' && (forall|k: int|
            0 <= k < pre.roots@.len() ==> (#[trigger] pre.roots@[k]).root_path@ != root) && (force
            || place_laws::is_outside(pre, root) && !place_laws::is_retired_place(pre, root)),
    ensures
        r is Ok,
{
    let path = workspace_ops::new_board_path(pre.data_root@, file);
    let q = tables::board_at(path);
    tables::lemma_first_index(pre.boards@, q);
    let n = tables::first_index(pre.boards@, q);
    if n < pre.boards@.len() {
        assert(q(pre.boards@[n]));
    }
    assert(!tables::has_active_name(pre.boards@, name, None));
    if place is Some {
        let root = place->0;
        place_laws::lemma_exact(pre, root);
        let p = tables::root_at(root);
        tables::lemma_first_index(pre.roots@, p);
        let m = tables::first_index(pre.roots@, p);
        if m < pre.roots@.len() {
            assert(p(pre.roots@[m]));
        }
        if pre.exact_rows(root) is Some {
            let (i, j) = pre.exact_rows(root)->0;
            assert(pre.roots@[i].root_path@ == root);
        }
        if !force {
            place_laws::lemma_up(root, root);
            if paths::parent_of(root) is Some {
                let up = paths::parent_of(root)->0;
                place_laws::law_path_leads_to_the_nearest_root(pre, up);
                match pre.resolution(up) {
                    Ok(Some((i, j))) => {
                        place_laws::lemma_up(root, pre.roots@[i].root_path@);
                        assert(place_laws::encloses(pre.roots@[i].root_path@, root));
                    },
                    Ok(None) => {},
                    Err(_) => {
                        let h = choose|h: int| place_laws::is_former_root(pre, up, h);
                        place_laws::lemma_up(root, pre.history@[h].root_path@);
                        assert forall|k: int|
                            0 <= k < pre.roots@.len() && place_laws::encloses(
                                (#[trigger] pre.roots@[k]).root_path@,
                                root,
                            ) implies pre.roots@[k].root_path@.len()
                            < pre.history@[h].root_path@.len() by {}
                        assert(place_laws::is_former_root(pre, root, h));
                    },
                }
            }
        }
    }
}

/// A root is repointed, whoever asks, to where it leads now, if that is another path and no
/// root.
pub proof fn law_lost_roots_are_repointed(
    pre: Registry,
    post: Registry,
    r: Result<UnreachableRoot, Error>,
    root: Seq<char>,
    lead: Option<Seq<char>>,
    actor: Seq<char>,
    now: i64,
    i: int,
)
    requires
        pre.wf(),
        attachment::repointed(pre, post, r, root, lead, actor, now),
        text::trimmed(actor).len() > 0,
        0 <= i < pre.roots@.len(),
        pre.roots@[i].root_path@ == root,
        lead is Some && lead->0 != root,
        forall|k: int|
            0 <= k < pre.roots@.len() ==> (#[trigger] pre.roots@[k]).root_path@ != lead->0,
    ensures
        r is Ok,
{
    place_laws::lemma_exact(pre, root);
    place_laws::lemma_exact(pre, lead->0);
    assert(pre.exact_rows(root) is Some);
    let p = tables::root_at(lead->0);
    tables::lemma_first_index(pre.roots@, p);
    let m = tables::first_index(pre.roots@, p);
    if m < pre.roots@.len() {
        assert(p(pre.roots@[m]));
    }
    if pre.exact_rows(lead->0) is Some {
        let (x, y) = pre.exact_rows(lead->0)->0;
        assert(pre.roots@[x].root_path@ == lead->0);
    }
}

/// A root is detached, whoever asks, where no other active board has the name of its board.
pub proof fn law_roots_are_detached(
    pre: Registry,
    post: Registry,
    r: Result<WorkspaceRecord, Error>,
    root: Seq<char>,
    actor: Seq<char>,
    now: i64,
    i: int,
    j: int,
)
    requires
        pre.wf(),
        retirement::detached(pre, post, r, root, actor, now),
        text::trimmed(actor).len() > 0,
        0 <= i < pre.roots@.len(),
        0 <= j < pre.boards@.len(),
        pre.roots@[i].root_path@ == root,
        pre.roots@[i].board_path@ == pre.boards@[j].board_path@,
        is_free_name(pre, pre.boards@[j].name@, j),
    ensures
        r is Ok,
{
    lemma_rows(pre, root, i, j);
    let name = pre.boards@[j].name@;
    let path = pre.boards@[j].board_path@;
    if tables::has_active_name(pre.boards@, name, Some(path)) {
        let k = choose|k: int|
            0 <= k < pre.boards@.len() && !(#[trigger] pre.boards@[k]).archived
                && pre.boards@[k].name@ == name && Some(path) != Some(pre.boards@[k].board_path@);
        assert(k != j);
    }
}

/// The rows of a root that is there.
proof fn lemma_rows(reg: Registry, root: Seq<char>, i: int, j: int)
    requires
        reg.wf(),
        0 <= i < reg.roots@.len(),
        0 <= j < reg.boards@.len(),
        reg.roots@[i].root_path@ == root,
        reg.roots@[i].board_path@ == reg.boards@[j].board_path@,
    ensures
        reg.exact_rows(root) == Some((i, j)),
{
    place_laws::lemma_exact(reg, root);
    assert(reg.exact_rows(root) is Some);
    let (x, y) = reg.exact_rows(root)->0;
    if x < i {
        assert(reg.roots@[x].root_path@ != reg.roots@[i].root_path@);
    } else if i < x {
        assert(reg.roots@[i].root_path@ != reg.roots@[x].root_path@);
    }
    if y < j {
        assert(reg.boards@[y].board_path@ != reg.boards@[j].board_path@);
    } else if j < y {
        assert(reg.boards@[j].board_path@ != reg.boards@[y].board_path@);
    }
}

/// A root of a board that has another root is detached, whoever asks.
pub proof fn law_one_of_two_roots_is_detached(
    pre: Registry,
    post: Registry,
    r: Result<WorkspaceRecord, Error>,
    root: Seq<char>,
    actor: Seq<char>,
    now: i64,
    i: int,
    j: int,
    k: int,
)
    requires
        pre.wf(),
        retirement::detached(pre, post, r, root, actor, now),
        text::trimmed(actor).len() > 0,
        0 <= i < pre.roots@.len(),
        0 <= k < pre.roots@.len() && k != i,
        0 <= j < pre.boards@.len(),
        pre.roots@[i].root_path@ == root,
        pre.roots@[i].board_path@ == pre.boards@[j].board_path@,
        pre.roots@[k].board_path@ == pre.boards@[j].board_path@,
    ensures
        r is Ok,
{
    lemma_rows(pre, root, i, j);
    let p = tables::root_on(pre.boards@[j].board_path@);
    let some = tables::kept(pre.roots@, p);
    listing::lemma_kept_contains(pre.roots@, p, pre.roots@[i]);
    listing::lemma_kept_contains(pre.roots@, p, pre.roots@[k]);
    assert(pre.roots@.contains(pre.roots@[i]) && pre.roots@.contains(pre.roots@[k]));
    if some.len() == 1 {
        assert(some[0] == pre.roots@[i] && some[0] == pre.roots@[k]);
        if i < k {
            assert(pre.roots@[i].root_path@ != pre.roots@[k].root_path@);
        } else {
            assert(pre.roots@[k].root_path@ != pre.roots@[i].root_path@);
        }
    }
}

/// The last root of a board stays where another active board has the board's name.
pub proof fn law_last_roots_of_shared_names_stay(
    pre: Registry,
    post: Registry,
    r: Result<WorkspaceRecord, Error>,
    root: Seq<char>,
    actor: Seq<char>,
    now: i64,
    i: int,
    j: int,
    k: int,
)
    requires
        pre.wf(),
        retirement::detached(pre, post, r, root, actor, now),
        0 <= i < pre.roots@.len(),
        0 <= j < pre.boards@.len(),
        0 <= k < pre.boards@.len() && k != j,
        pre.roots@[i].root_path@ == root,
        pre.roots@[i].board_path@ == pre.boards@[j].board_path@,
        forall|m: int|
            0 <= m < pre.roots@.len() && m != i ==> (#[trigger] pre.roots@[m]).board_path@
                != pre.boards@[j].board_path@,
        pre.boards@[k].name@ == pre.boards@[j].name@ && !pre.boards@[k].archived,
    ensures
        r is Err,
        post == pre,
{
    lemma_rows(pre, root, i, j);
    let path = pre.boards@[j].board_path@;
    policy_laws::lemma_kept_one(pre.roots@, tables::root_on(path), i);
    if j < k {
        assert(pre.boards@[j].board_path@ != pre.boards@[k].board_path@);
    } else {
        assert(pre.boards@[k].board_path@ != pre.boards@[j].board_path@);
    }
    assert(!pre.boards@[k].archived && pre.boards@[k].name@ == pre.boards@[j].name@ && Some(path)
        != Some(pre.boards@[k].board_path@));
    assert(tables::has_active_name(pre.boards@, pre.boards@[j].name@, Some(path)));
}

/// A board that is registered once more at a root of its own stays one board: its times move,
/// and nothing else does. Under another name it is refused.
pub proof fn law_registering_again_makes_no_board(
    pre: Registry,
    post: Registry,
    r: Result<ProjectRecord, Error>,
    root: Seq<char>,
    name: Seq<char>,
    force: bool,
    actor: Seq<char>,
    file: Seq<char>,
    now: i64,
    i: int,
    j: int,
)
    requires
        pre.wf(),
        workspace_ops::registered(pre, post, r, Some(root), name, force, actor, file, now),
        text::trimmed(actor).len() > 0,
        0 <= i < pre.roots@.len(),
        0 <= j < pre.boards@.len(),
        pre.roots@[i].root_path@ == root,
        pre.roots@[i].board_path@ == pre.boards@[j].board_path@,
    ensures
        r is Ok <==> pre.boards@[j].name@ == name,
        r is Err ==> post == pre,
        r is Ok ==> {
            &&& post.boards@.len() == pre.boards@.len()
            &&& post.roots@.len() == pre.roots@.len()
            &&& forall|k: int|
                0 <= k < pre.roots@.len() && k != i ==> #[trigger] post.roots@[k] == pre.roots@[k]
            &&& post.roots@[i].root_path@ == root
            &&& post.roots@[i].board_path@ == pre.boards@[j].board_path@
            &&& post.roots@[i].created_at == pre.roots@[i].created_at
            &&& post.roots@[i].last_used_at == now
            &&& place_laws::other_boards_stay(pre, post, j)
            &&& place_laws::same_board_used(pre.boards@[j], post.boards@[j], now)
            &&& post.history == pre.history
            &&& r->Ok_0.board_path@ == pre.boards@[j].board_path@
            &&& r->Ok_0.name@ == name
        },
{
    lemma_rows(pre, root, i, j);
}

/// The boards of a name, where just one has it.
proof fn lemma_one_named(reg: Registry, name: Seq<char>, include_archived: bool, j: int)
    requires
        0 <= j < reg.boards@.len(),
        reg.boards@[j].name@ == name,
        include_archived || !reg.boards@[j].archived,
        forall|k: int|
            0 <= k < reg.boards@.len() && k != j ==> (#[trigger] reg.boards@[k]).name@ != name || (
            !include_archived && reg.boards@[k].archived),
    ensures
        reg.named_boards(name, include_archived).len() == 1,
        reg.named_boards(name, include_archived)[0] == reg.boards@[j],
{
    let p = tables::board_named(name, include_archived);
    policy_laws::lemma_kept_one(reg.boards@, p, j);
    let some = tables::kept(reg.boards@, p);
    ranking::law_ranked(some);
    let all = reg.named_boards(name, include_archived);
    assert(some[0] == reg.boards@[j]);
    assert(some.contains(reg.boards@[j]));
    listing::lemma_ranked_contains(some, reg.boards@[j]);
    let i = choose|i: int| 0 <= i < all.len() && all[i] == reg.boards@[j];
    assert(i == 0);
}

/// A root that is none yet is attached, whoever asks, to the one active board of a name.
pub proof fn law_new_roots_are_attached(
    pre: Registry,
    post: Registry,
    r: Result<WorkspaceRecord, Error>,
    root: Seq<char>,
    target: Seq<char>,
    target_path: Seq<char>,
    actor: Seq<char>,
    now: i64,
    j: int,
)
    requires
        pre.wf(),
        attachment::attach_outcome(pre, post, r, root, target, target_path, actor, now),
        !paths::looks_like_path(target),
        text::trimmed(actor).len() > 0,
        0 <= j < pre.boards@.len(),
        pre.boards@[j].name@ == target && !pre.boards@[j].archived,
        is_free_name(pre, target, j),
        forall|k: int| 0 <= k < pre.roots@.len() ==> (#[trigger] pre.roots@[k]).root_path@ != root,
    ensures
        r is Ok,
{
    lemma_one_named(pre, target, false, j);
    assert(pre.boards@.contains(pre.boards@[j]));
    place_laws::lemma_the_board(pre, pre.boards@[j]);
    place_laws::lemma_exact(pre, root);
    if pre.exact_rows(root) is Some {
        let (x, y) = pre.exact_rows(root)->0;
        assert(pre.roots@[x].root_path@ == root);
    }
    let p = tables::root_at(root);
    tables::lemma_first_index(pre.roots@, p);
    let m = tables::first_index(pre.roots@, p);
    if m < pre.roots@.len() {
        assert(p(pre.roots@[m]));
    }
}

/// The one active board of a name is retired, whoever asks and says why, where no active rule
/// names it.
pub proof fn law_unnamed_boards_are_retired(
    pre: Registry,
    post: Registry,
    r: Result<ProjectRecord, Error>,
    name: Seq<char>,
    actor: Seq<char>,
    note: Seq<char>,
    retirement_id: Seq<char>,
    now: i64,
    j: int,
)
    requires
        pre.wf(),
        retirement::retired(pre, post, r, name, actor, note, retirement_id, now),
        text::trimmed(actor).len() > 0,
        text::trimmed(note).len() > 0,
        0 <= j < pre.boards@.len(),
        pre.boards@[j].name@ == name && !pre.boards@[j].archived,
        is_free_name(pre, name, j),
        forall|i: int, k: int|
            #![trigger pre.rules@[i].tags@[k]]
            0 <= i < pre.rules@.len() && !pre.rules@[i].archived && 0 <= k
                < pre.rules@[i].tags@.len() ==> !selector_laws::selects_by_name(
                pre.rules@[i].tags@[k]@,
                name,
            ),
    ensures
        r is Ok,
{
    lemma_one_named(pre, name, false, j);
    let active = pre.named_boards(name, false);
    let scope = Scope { only: Some(active[0].name@), excluded: Some(active[0].board_path@) };
    let faults = selectors::rule_faults(pre.rules@, pre.boards@, scope);
    selectors::law_rule_faults(pre.rules@, pre.boards@, scope);
    if faults.len() > 0 {
        let y = faults[0];
        assert(faults.contains(y));
        let (i, k) = choose|i: int, k: int|
            selectors::at_fault(pre.rules@, pre.boards@, scope, y, i, k);
        let tag = pre.rules@[i].tags@[k]@;
        selector_laws::lemma_selector(tag, name);
        assert(selector_laws::selects_by_name(tag, name));
    }
}

proof fn lemma_kept_distinct<T, K>(s: Seq<T>, p: spec_fn(T) -> bool, key: spec_fn(T) -> K)
    requires
        forall|i: int, j: int|
            0 <= i < j < s.len() && p(#[trigger] s[i]) && p(#[trigger] s[j]) ==> key(s[i]) != key(
                s[j],
            ),
    ensures
        tables::distinct_by(tables::kept(s, p), key),
    decreases s.len(),
{
    if s.len() > 0 {
        let rest = s.drop_last();
        assert(forall|i: int| 0 <= i < rest.len() ==> rest[i] == s[i]);
        assert forall|i: int, j: int|
            0 <= i < j < rest.len() && p(#[trigger] rest[i]) && p(#[trigger] rest[j]) implies key(
            rest[i],
        ) != key(rest[j]) by {
            assert(p(s[i]) && p(s[j]));
        }
        lemma_kept_distinct(rest, p, key);
        let before = tables::kept(rest, p);
        let all = tables::kept(s, p);
        if p(s.last()) {
            assert forall|i: int, j: int| 0 <= i < j < all.len() implies key(#[trigger] all[i])
                != key(#[trigger] all[j]) by {
                if j == before.len() {
                    assert(before.contains(before[i]));
                    listing::lemma_kept_contains(rest, p, before[i]);
                    let m = choose|m: int| 0 <= m < rest.len() && rest[m] == before[i];
                    assert(p(s[m]) && p(s[s.len() - 1]));
                } else {
                    assert(all[i] == before[i] && all[j] == before[j]);
                }
            }
        }
    }
}

/// The one board of a name, if it is retired, is unretired, whoever asks, where the roots that
/// it had are roots of none now.
pub proof fn law_retired_boards_are_unretired(
    pre: Registry,
    post: Registry,
    r: Result<ProjectRecord, Error>,
    name: Seq<char>,
    actor: Seq<char>,
    now: i64,
    j: int,
)
    requires
        pre.wf(),
        retirement::unretired(pre, post, r, name, actor, now),
        text::trimmed(actor).len() > 0,
        0 <= j < pre.boards@.len(),
        pre.boards@[j].name@ == name && pre.boards@[j].archived,
        pre.boards@[j].retirement_id is Some,
        forall|k: int|
            0 <= k < pre.boards@.len() && k != j ==> (#[trigger] pre.boards@[k]).name@ != name,
        forall|h: int, k: int|
            0 <= h < pre.history@.len() && place_laws::is_former(
                #[trigger] pre.history@[h],
                pre.boards@[j],
            ) && 0 <= k < pre.roots@.len() ==> (#[trigger] pre.roots@[k]).root_path@
                != pre.history@[h].root_path@,
        forall|g: int, h: int|
            0 <= g < h < pre.history@.len() && place_laws::is_former(
                #[trigger] pre.history@[g],
                pre.boards@[j],
            ) && place_laws::is_former(#[trigger] pre.history@[h], pre.boards@[j])
                ==> pre.history@[g].root_path@ != pre.history@[h].root_path@,
    ensures
        r is Ok,
{
    lemma_one_named(pre, name, true, j);
    let board = pre.boards@[j];
    assert(pre.boards@.contains(board));
    place_laws::lemma_the_board(pre, board);
    let k = pre.unretiring_row(name);
    assert(k == j);
    let active = pre.named_boards(name, false);
    let p = tables::board_named(name, false);
    let some = tables::kept(pre.boards@, p);
    ranking::law_ranked(some);
    if active.len() > 0 {
        assert(some.contains(some[0]));
        listing::lemma_kept_contains(pre.boards@, p, some[0]);
        let m = choose|m: int| 0 <= m < pre.boards@.len() && pre.boards@[m] == some[0];
        assert(m == j);
    }
    let id = text::text_of(board.retirement_id)->0;
    let q = tables::alias_of(board.board_path@, id);
    let kept = tables::kept(pre.history@, q);
    let former = pre.retired_roots(j);
    let key = |a: AliasRow| a.root_path@;
    assert forall|g: int, h: int|
        0 <= g < h < pre.history@.len() && q(#[trigger] pre.history@[g]) && q(
            #[trigger] pre.history@[h],
        ) implies key(pre.history@[g]) != key(pre.history@[h]) by {
        assert(place_laws::is_former(pre.history@[g], board));
        assert(place_laws::is_former(pre.history@[h], board));
    }
    lemma_kept_distinct(pre.history@, q, key);
    ranking::law_ranked(kept);
    tables::lemma_reordered_distinct(kept, former, key);
    let free = retirement::is_free(pre.roots@);
    lemma_kept_distinct(former, free, key);
    let taken = retirement::is_taken(pre.roots@, board.board_path@);
    tables::lemma_first_index(former, taken);
    let c = tables::first_index(former, taken);
    if c < former.len() {
        let a = former[c];
        assert(taken(a));
        assert(former.contains(a));
        listing::lemma_ranked_contains(kept, a);
        listing::lemma_kept_contains(pre.history@, q, a);
        let h = choose|h: int| 0 <= h < pre.history@.len() && pre.history@[h] == a;
        assert(place_laws::is_former(pre.history@[h], board));
        let m = tables::root_at(a.root_path@);
        tables::lemma_first_index(pre.roots@, m);
        let x = tables::first_index(pre.roots@, m);
        assert(m(pre.roots@[x]));
        assert(pre.roots@[x].root_path@ == pre.history@[h].root_path@);
    }
    let list = tables::kept(former, free);
    assert(retirement::distinct_paths(list)) by {
        assert forall|x: int, y: int| 0 <= x < y < list.len() implies (
        #[trigger] list[x]).root_path@ != (#[trigger] list[y]).root_path@ by {
            assert(key(list[x]) != key(list[y]));
        }
    }
}

// ---------------------------------------------------------------------------- policy

/// The actor knows the live state and administers the registry.
pub open spec fn may_administer(reg: Registry, actor: PolicyActor) -> bool {
    &&& actor.epoch == policy::live_state(reg.policy).0
    &&& actor.state_hash@ == policy::live_state(reg.policy).1
    &&& actor.principal_id is Some
    &&& authority_laws::may(
        reg.policy.state(),
        actor.principal_id->0@,
        ScopeView::Registry,
        Capability::Admin,
    )
}

proof fn lemma_administers(reg: Registry, actor: PolicyActor)
    requires
        reg.policy.wf(),
        may_administer(reg, actor),
    ensures
        policy::admin_denial(reg.policy, actor) is None,
{
    authority_laws::law_authority_comes_from_one_active_grant(
        reg.policy,
        actor,
        ScopeView::Registry,
        Capability::Admin,
    );
}

proof fn lemma_new_grant(st: PolicyState, g: GrantView)
    requires
        forall|k: int| 0 <= k < st.grants.len() ==> (#[trigger] st.grants[k]).id != g.id,
    ensures
        policy_state::all_new::<Grant>(st.grants, seq![g]),
        policy_state::all_new::<SsoMapping>(st.mappings, Seq::<SsoView>::empty()),
{
    let q = keyed::with_id::<Grant>(g.id);
    tables::lemma_first_index(st.grants, q);
    let n = tables::first_index(st.grants, q);
    if n < st.grants.len() {
        assert(q(st.grants[n]));
    }
}

/// A grant is given by who administers the registry and may do what is granted, on a scope
/// that has its names, to who stands and does not hold it.
pub proof fn law_allowed_grants_are_given(
    pre: Registry,
    post: Registry,
    r: Result<Grant, Error>,
    principal: Seq<char>,
    scope: ScopeView,
    capability: Capability,
    actor: PolicyActor,
    d: DrawView,
)
    requires
        pre.policy.wf(),
        policy_grants::granted(pre, post, r, principal, scope, capability, actor, d),
        may_administer(pre, actor),
        authority_laws::may(pre.policy.state(), actor.principal_id->0@, scope, capability),
        lattice::is_named(scope),
        authority_laws::stands(pre.policy.state(), principal),
        authority_laws::holds_no_such(pre.policy.state(), principal, scope, capability),
        forall|k: int|
            0 <= k < pre.policy.state().grants.len() ==> (
            #[trigger] pre.policy.state().grants[k]).id != d.grant_ids[0],
    ensures
        r is Ok,
{
    let st = pre.policy.state();
    lemma_administers(pre, actor);
    authority_laws::law_authority_comes_from_one_active_grant(
        pre.policy,
        actor,
        scope,
        capability,
    );
    authority_laws::lemma_receiver(pre, principal);
    lattice::law_only_named_scopes_are_read(scope);
    let q = policy_grants::is_triple(principal, scope, capability);
    tables::lemma_first_index(st.grants, q);
    let n = tables::first_index(st.grants, q);
    if n < st.grants.len() {
        assert(q(st.grants[n]));
        assert(authority_laws::is_such(st.grants[n], principal, scope, capability));
    }
    let g = policy_ops::new_grant(
        d.grant_ids[0],
        principal,
        capability,
        lattice::atoms_of(scope),
        policy_state::GrantOrigin::Grant,
        policy_ops::next_epoch(pre),
        text::text_of(actor.principal_id),
        policy_ops::next_id(pre),
        None,
    );
    lemma_new_grant(st, g);
}

/// A grant that is there and active is taken away by who administers the registry and may do
/// what is taken away.
pub proof fn law_active_grants_are_revoked(
    pre: Registry,
    post: Registry,
    r: Result<Grant, Error>,
    principal: Seq<char>,
    scope: ScopeView,
    capability: Capability,
    actor: PolicyActor,
    d: DrawView,
)
    requires
        pre.policy.wf(),
        policy_grants::revoked(pre, post, r, principal, scope, capability, actor, d),
        may_administer(pre, actor),
        authority_laws::may(pre.policy.state(), actor.principal_id->0@, scope, capability),
        !authority_laws::holds_no_such(pre.policy.state(), principal, scope, capability),
    ensures
        r is Ok,
{
    let st = pre.policy.state();
    lemma_administers(pre, actor);
    authority_laws::law_authority_comes_from_one_active_grant(
        pre.policy,
        actor,
        scope,
        capability,
    );
    let q = policy_grants::is_triple(principal, scope, capability);
    tables::lemma_first_index(st.grants, q);
    let k = choose|k: int|
        0 <= k < st.grants.len() && authority_laws::is_such(
            #[trigger] st.grants[k],
            principal,
            scope,
            capability,
        );
    assert(q(st.grants[k]));
}

/// A mapping that is there and active is ended by who administers the registry.
pub proof fn law_active_mappings_are_ended(
    pre: Registry,
    post: Registry,
    r: Result<SsoMapping, Error>,
    provider: Seq<char>,
    subject: Seq<char>,
    actor: PolicyActor,
    d: DrawView,
    k: int,
)
    requires
        pre.policy.wf(),
        policy_grants::unmapped(pre, post, r, provider, subject, actor, d),
        may_administer(pre, actor),
        0 <= k < pre.policy.state().mappings.len(),
        pre.policy.state().mappings[k].provider == provider,
        pre.policy.state().mappings[k].subject == subject,
        pre.policy.state().mappings[k].unmapped_at_epoch is None,
    ensures
        r is Ok,
{
    let st = pre.policy.state();
    lemma_administers(pre, actor);
    let q = policy_state::active_subject(provider, subject);
    tables::lemma_first_index(st.mappings, q);
    assert(q(st.mappings[k]));
}

/// A principal who stands is disabled by who administers the registry.
pub proof fn law_enabled_principals_are_disabled(
    pre: Registry,
    post: Registry,
    r: Result<Principal, Error>,
    id: Seq<char>,
    actor: PolicyActor,
    d: DrawView,
)
    requires
        pre.policy.wf(),
        policy_ops::principal_disabled(pre, post, r, id, actor, d),
        may_administer(pre, actor),
        authority_laws::stands(pre.policy.state(), id),
    ensures
        r is Ok,
{
    lemma_administers(pre, actor);
    authority_laws::lemma_receiver(pre, id);
}

/// A name and a number that nobody has are bound by who administers the registry.
pub proof fn law_free_pairs_are_bound(
    pre: Registry,
    post: Registry,
    r: Result<Principal, Error>,
    username: Seq<char>,
    uid: u32,
    actor: PolicyActor,
    d: DrawView,
)
    requires
        pre.policy.wf(),
        policy_ops::principal_bound(pre, post, r, username, uid, seq![], actor, d),
        may_administer(pre, actor),
        text::trimmed(username).len() > 0,
        forall|k: int|
            0 <= k < pre.policy.state().principals.len() ==> (
            #[trigger] pre.policy.state().principals[k]).username != text::trimmed(username)
                && pre.policy.state().principals[k].uid != uid,
    ensures
        r is Ok,
{
    let all = pre.policy.state().principals;
    let name = text::trimmed(username);
    lemma_administers(pre, actor);
    let q = policy::collides_enabled(name, uid, None);
    tables::lemma_first_index(all, q);
    let n = tables::first_index(all, q);
    if n < all.len() {
        assert(q(all[n]));
    }
    let p = policy::collides(name, uid, None);
    let some = tables::kept(all, p);
    if some.len() > 0 {
        assert(some.contains(some[0]));
        listing::lemma_kept_contains(all, p, some[0]);
        let m = choose|m: int| 0 <= m < all.len() && all[m] == some[0];
        assert(p(all[m]));
    }
    let none = Seq::<Seq<char>>::empty();
    assert(policy::colliders(all, name, uid, None) =~= none);
    ranking::law_sorted_texts(none);
    assert(ranking::sorted_texts(none) =~= none);
    assert(tables::deduplicated(none) =~= none);
}

} // verus!
