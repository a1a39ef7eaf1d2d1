//! Where a path leads, and what each operation does to boards and roots, row by row.

use vstd::prelude::*;

use crate::attachment;
use crate::listing;
use crate::paths;
use crate::ranking;
use crate::ranking::Ranked;
use crate::retirement;
use crate::tables;
use crate::tables::AliasRow;
use crate::tables::BoardRow;
use crate::tables::Registry;
use crate::tables::RootRow;
use crate::text;
use crate::text::Error;
use crate::workspace;
use crate::workspace::ProjectRecord;
use crate::workspace::UnreachableRoot;
use crate::workspace::WorkspaceRecord;
use crate::workspace_ops;

verus! {

// ---------------------------------------------------------------------------- paths

/// The path is the root, or lies somewhere below it.
pub open spec fn encloses(root: Seq<char>, path: Seq<char>) -> bool {
    ||| path == root
    ||| root == seq!['/'] && path.len() > 1 && path[0] == '/'
    ||| root.len() > 0 && root != seq!['/'] && root.len() < path.len() && path.take(
        root.len() as int,
    ) == root && path[root.len() as int] == '/'
}

proof fn lemma_last_slash(s: Seq<char>, c: char)
    ensures
        -1 <= paths::last_index(s, c) < s.len(),
        paths::last_index(s, c) >= 0 ==> s[paths::last_index(s, c)] == c,
        forall|i: int| paths::last_index(s, c) < i < s.len() ==> #[trigger] s[i] != c,
    decreases s.len(),
{
    if s.len() > 0 && s.last() != c {
        lemma_last_slash(s.drop_last(), c);
        assert forall|i: int| paths::last_index(s, c) < i < s.len() implies #[trigger] s[i] != c by {
            if i < s.len() - 1 {
                assert(s.drop_last()[i] == s[i]);
            }
        }
    }
}

pub(crate) proof fn lemma_up(path: Seq<char>, root: Seq<char>)
    requires
        path.len() > 0,
        path[0] == '/',
    ensures
        path == seq!['/'] <==> paths::parent_of(path) is None,
        paths::parent_of(path) matches Some(p) ==> {
            &&& 0 < p.len() < path.len()
            &&& p[0] == '/'
            &&& encloses(root, path) <==> path == root || encloses(root, p)
        },
        paths::parent_of(path) is None ==> (encloses(root, path) <==> path == root),
{
    reveal_strlit("/");
    assert("/"@ =~= seq!['/']);
    lemma_last_slash(path, '/');
    let slash = paths::last_index(path, '/');
    assert(slash >= 0);
    if path != seq!['/'] {
        assert(path.len() > 1) by {
            if path.len() == 1 {
                assert(path =~= seq!['/']);
            }
        }
        let p = paths::parent_of(path)->0;
        let n = root.len() as int;
        if slash == 0 {
            if encloses(root, path) && path != root {
                if root != seq!['/'] {
                    assert(path[n] == '/');
                    assert(n == 0);
                }
            }
        } else {
            assert(p == path.take(slash));
            if encloses(root, path) && path != root && root != seq!['/'] {
                assert(n <= slash);
                if n == slash {
                    assert(p =~= root);
                } else {
                    assert(p.take(n) =~= path.take(n));
                    assert(p[n] == path[n]);
                }
            }
            if encloses(root, p) && root != seq!['/'] {
                if p == root {
                    assert(path.take(n) =~= root);
                } else {
                    assert(p.take(n) =~= path.take(n));
                    assert(p[n] == path[n]);
                }
            }
            if encloses(root, path) && path != root && root == seq!['/'] {
                if p.len() == 1 {
                    assert(p =~= root);
                }
            }
        }
    }
}

/// What is found for a path is the root that lies nearest to it, on its board, which is
/// active.
pub open spec fn is_nearest_root(reg: Registry, path: Seq<char>, i: int, j: int) -> bool {
    &&& 0 <= i < reg.roots@.len()
    &&& 0 <= j < reg.boards@.len()
    &&& reg.roots@[i].board_path@ == reg.boards@[j].board_path@
    &&& !reg.boards@[j].archived
    &&& encloses(reg.roots@[i].root_path@, path)
    &&& forall|k: int|
        0 <= k < reg.roots@.len() && encloses((#[trigger] reg.roots@[k]).root_path@, path)
            ==> reg.roots@[k].root_path@.len() <= reg.roots@[i].root_path@.len()
}

/// No root encloses the path.
pub open spec fn is_outside(reg: Registry, path: Seq<char>) -> bool {
    forall|k: int|
        0 <= k < reg.roots@.len() ==> !encloses((#[trigger] reg.roots@[k]).root_path@, path)
}

/// A root of a retired board encloses the path, and no root lies nearer.
pub open spec fn is_retired_place(reg: Registry, path: Seq<char>) -> bool {
    exists|h: int| #[trigger] is_former_root(reg, path, h)
}

pub open spec fn is_former_root(reg: Registry, path: Seq<char>, h: int) -> bool {
    &&& 0 <= h < reg.history@.len()
    &&& encloses(reg.history@[h].root_path@, path)
    &&& is_retired_path(reg, reg.history@[h].board_path@)
    &&& forall|k: int|
        0 <= k < reg.roots@.len() && encloses((#[trigger] reg.roots@[k]).root_path@, path)
            ==> reg.roots@[k].root_path@.len() < reg.history@[h].root_path@.len()
}

/// A board at the path is retired.
pub open spec fn is_retired_path(reg: Registry, board_path: Seq<char>) -> bool {
    exists|j: int|
        0 <= j < reg.boards@.len() && (#[trigger] reg.boards@[j]).board_path@ == board_path
            && reg.boards@[j].archived
}

pub(crate) proof fn lemma_exact(reg: Registry, path: Seq<char>)
    requires
        reg.wf(),
    ensures
        reg.exact_rows(path) matches Some((i, j)) ==> {
            &&& 0 <= i < reg.roots@.len()
            &&& 0 <= j < reg.boards@.len()
            &&& reg.roots@[i].root_path@ == path
            &&& reg.roots@[i].board_path@ == reg.boards@[j].board_path@
            &&& !reg.boards@[j].archived
        },
        reg.exact_rows(path) is None ==> forall|k: int|
            0 <= k < reg.roots@.len() ==> (#[trigger] reg.roots@[k]).root_path@ != path,
{
    let p = tables::root_at(path);
    tables::lemma_first_index(reg.roots@, p);
    let i = tables::first_index(reg.roots@, p);
    if i < reg.roots@.len() {
        assert(p(reg.roots@[i]));
        let q = tables::board_at(reg.roots@[i].board_path@);
        tables::lemma_first_index(reg.boards@, q);
        assert(tables::archived_at_path(reg.boards@, reg.roots@[i].board_path@) == Some(false));
        assert(q(reg.boards@[tables::first_index(reg.boards@, q)]));
    } else {
        assert forall|k: int| 0 <= k < reg.roots@.len() implies (
        #[trigger] reg.roots@[k]).root_path@ != path by {
            assert(!p(reg.roots@[k]));
        }
    }
}

proof fn lemma_latest_alias(history: Seq<AliasRow>, path: Seq<char>)
    ensures
        workspace::latest_alias(history, path) matches Some(h) ==> 0 <= h < history.len()
            && history[h].root_path@ == path && forall|k: int|
            0 <= k < history.len() && (#[trigger] history[k]).root_path@ == path
                ==> history[k].archived_at <= history[h].archived_at,
        workspace::latest_alias(history, path) is None ==> forall|k: int|
            0 <= k < history.len() ==> (#[trigger] history[k]).root_path@ != path,
    decreases history.len(),
{
    if history.len() > 0 {
        let rest = history.drop_last();
        lemma_latest_alias(rest, path);
        assert forall|k: int| 0 <= k < rest.len() implies #[trigger] history[k] == rest[k] by {}
    }
}

/// A path leads to the nearest root that encloses it, past none that lies nearer. Where a
/// root of a retired board lies nearer still, it is refused; where nothing encloses it, it
/// leads nowhere.
pub proof fn law_path_leads_to_the_nearest_root(reg: Registry, path: Seq<char>)
    requires
        reg.wf(),
        path.len() > 0,
        path[0] == '/',
    ensures
        match reg.resolution(path) {
            Ok(Some((i, j))) => is_nearest_root(reg, path, i, j),
            Ok(None) => is_outside(reg, path),
            Err(_) => is_retired_place(reg, path),
        },
    decreases path.len(),
{
    lemma_exact(reg, path);
    if reg.exact_rows(path) is Some {
        let (i, j) = reg.exact_rows(path)->0;
        assert forall|k: int|
            0 <= k < reg.roots@.len() && encloses(
                (#[trigger] reg.roots@[k]).root_path@,
                path,
            ) implies reg.roots@[k].root_path@.len() <= reg.roots@[i].root_path@.len() by {}
        assert(is_nearest_root(reg, path, i, j));
    } else if reg.retired_at(path) is Some {
        lemma_latest_alias(reg.history@, path);
        let h = workspace::latest_alias(reg.history@, path)->0;
        let q = tables::board_at(reg.history@[h].board_path@);
        tables::lemma_first_index(reg.boards@, q);
        let j = tables::first_index(reg.boards@, q);
        assert(q(reg.boards@[j]) && reg.boards@[j].archived);
        assert forall|k: int|
            0 <= k < reg.roots@.len() && encloses(
                (#[trigger] reg.roots@[k]).root_path@,
                path,
            ) implies reg.roots@[k].root_path@.len() < path.len() by {
            lemma_up(path, reg.roots@[k].root_path@);
        }
        assert(is_former_root(reg, path, h));
    } else {
        lemma_up(path, path);
        match paths::parent_of(path) {
            Some(p) => {
                law_path_leads_to_the_nearest_root(reg, p);
                assert forall|k: int| 0 <= k < reg.roots@.len() implies (encloses(
                    (#[trigger] reg.roots@[k]).root_path@,
                    path,
                ) <==> encloses(reg.roots@[k].root_path@, p)) by {
                    lemma_up(path, reg.roots@[k].root_path@);
                }
                match reg.resolution(p) {
                    Ok(Some((i, j))) => {
                        assert(is_nearest_root(reg, path, i, j));
                    },
                    Ok(None) => {
                        assert(is_outside(reg, path));
                    },
                    Err(_) => {
                        let h = choose|h: int| is_former_root(reg, p, h);
                        lemma_up(path, reg.history@[h].root_path@);
                        assert(is_former_root(reg, path, h));
                    },
                }
            },
            None => {
                assert forall|k: int| 0 <= k < reg.roots@.len() implies !encloses(
                    (#[trigger] reg.roots@[k]).root_path@,
                    path,
                ) by {
                    lemma_up(path, reg.roots@[k].root_path@);
                }
            },
        }
    }
}

/// A path that belongs to a retired board, and is no root now, is refused for as long as the
/// latest board that it belonged to is retired.
pub proof fn law_retired_places_are_refused(reg: Registry, path: Seq<char>, h: int)
    requires
        reg.wf(),
        0 <= h < reg.history@.len(),
        reg.history@[h].root_path@ == path,
        is_retired_path(reg, reg.history@[h].board_path@),
        forall|k: int|
            0 <= k < reg.history@.len() && k != h && (#[trigger] reg.history@[k]).root_path@ == path
                ==> reg.history@[k].archived_at < reg.history@[h].archived_at,
        forall|k: int|
            0 <= k < reg.roots@.len() ==> (#[trigger] reg.roots@[k]).root_path@ != path,
    ensures
        reg.resolution(path) is Err,
{
    lemma_exact(reg, path);
    lemma_latest_alias(reg.history@, path);
    let l = workspace::latest_alias(reg.history@, path)->0;
    assert(l == h);
    let b = reg.history@[h].board_path@;
    let q = tables::board_at(b);
    tables::lemma_first_index(reg.boards@, q);
    let j = choose|j: int|
        0 <= j < reg.boards@.len() && (#[trigger] reg.boards@[j]).board_path@ == b
            && reg.boards@[j].archived;
    assert(q(reg.boards@[j]));
    let m = tables::first_index(reg.boards@, q);
    if m < j {
        assert(q(reg.boards@[m]));
        assert(reg.boards@[m].board_path@ != reg.boards@[j].board_path@);
    }
}

// ---------------------------------------------------------------------------- operations

/// Nothing but boards, roots, former roots and events changed.
pub open spec fn only_places_changed(pre: Registry, post: Registry) -> bool {
    &&& post.data_root == pre.data_root
    &&& post.registry_uuid == pre.registry_uuid
    &&& post.rules == pre.rules
    &&& post.ledger == pre.ledger
    &&& post.migrations == pre.migrations
    &&& post.legacy_rules == pre.legacy_rules
    &&& post.legacy_events == pre.legacy_events
    &&& post.policy == pre.policy
}

/// The board is the one before, used now.
pub open spec fn same_board_used(a: BoardRow, b: BoardRow, now: i64) -> bool {
    &&& b.board_path == a.board_path
    &&& b.name == a.name
    &&& b.created_at == a.created_at
    &&& b.last_used_at == now
    &&& b.archived == a.archived
    &&& b.archived_at == a.archived_at
    &&& b.archived_by == a.archived_by
    &&& b.archived_note == a.archived_note
    &&& b.retirement_id == a.retirement_id
}

/// All but one of the boards stay as they are.
pub open spec fn other_boards_stay(pre: Registry, post: Registry, j: int) -> bool {
    &&& post.boards@.len() == pre.boards@.len()
    &&& forall|k: int| 0 <= k < pre.boards@.len() && k != j ==> #[trigger] post.boards@[k]
        == pre.boards@[k]
}

/// One more event of a kind is on record, by someone and now; the others stay.
pub open spec fn on_record(
    pre: Registry,
    post: Registry,
    kind: Seq<char>,
    by: Seq<char>,
    now: i64,
) -> bool {
    &&& post.events@.len() == pre.events@.len() + 1
    &&& forall|k: int| 0 <= k < pre.events@.len() ==> #[trigger] post.events@[k] == pre.events@[k]
    &&& post.events@.last().kind@ == kind
    &&& post.events@.last().actor@ == by
    &&& post.events@.last().created_at == now
}

/// Resolving a path that leads to a root uses that root and its board, and no other, and
/// shows them.
pub proof fn law_resolving_uses_what_it_finds(
    pre: Registry,
    post: Registry,
    r: Result<Option<WorkspaceRecord>, Error>,
    path: Seq<char>,
    now: i64,
)
    requires
        pre.wf(),
        path.len() > 0,
        path[0] == '/',
        workspace_ops::resolved(pre, post, r, path, now),
    ensures
        !(r is Ok && r->Ok_0 is Some) ==> post == pre,
        r is Ok && r->Ok_0 is None ==> is_outside(pre, path),
        r is Err ==> is_retired_place(pre, path),
        r is Ok && r->Ok_0 is Some ==> {
            let w = r->Ok_0->0;
            exists|i: int, j: int|
                {
                    &&& #[trigger] is_nearest_root(pre, path, i, j)
                    &&& w.root_path@ == pre.roots@[i].root_path@
                    &&& w.board_path@ == pre.boards@[j].board_path@
                    &&& w.name@ == pre.boards@[j].name@
                    &&& w.created_at == pre.roots@[i].created_at
                    &&& w.last_used_at == now
                    &&& !w.archived && !w.rootless
                    &&& other_boards_stay(pre, post, j)
                    &&& same_board_used(pre.boards@[j], post.boards@[j], now)
                    &&& post.roots@.len() == pre.roots@.len()
                    &&& forall|k: int|
                        0 <= k < pre.roots@.len() && k != i ==> #[trigger] post.roots@[k]
                            == pre.roots@[k]
                    &&& post.roots@[i].root_path == pre.roots@[i].root_path
                    &&& post.roots@[i].board_path == pre.roots@[i].board_path
                    &&& post.roots@[i].last_used_at == now
                    &&& only_places_changed(pre, post)
                    &&& post.events == pre.events && post.history == pre.history
                }
        },
{
    law_path_leads_to_the_nearest_root(pre, path);
    if r is Ok && r->Ok_0 is Some {
        let (i, j) = pre.resolution(path)->Ok_0->0;
        assert(is_nearest_root(pre, path, i, j));
    }
}

/// A path that is no root, and leads nowhere from above it, is enclosed by no root.
pub(crate) proof fn lemma_outside(reg: Registry, path: Seq<char>)
    requires
        reg.wf(),
        path.len() > 0,
        path[0] == '/',
        reg.exact_rows(path) is None,
        reg.enclosure(path) == Ok::<Option<(int, int)>, Seq<char>>(None),
    ensures
        is_outside(reg, path),
{
    lemma_exact(reg, path);
    lemma_up(path, path);
    if paths::parent_of(path) is Some {
        law_path_leads_to_the_nearest_root(reg, paths::parent_of(path)->0);
    }
    assert forall|k: int| 0 <= k < reg.roots@.len() implies !encloses(
        (#[trigger] reg.roots@[k]).root_path@,
        path,
    ) by {
        lemma_up(path, reg.roots@[k].root_path@);
    }
}

/// A board that is registered is there behind the others, active, new and under its name,
/// with its root where one was given. No active board had that name, no root was that path,
/// and, unless it was forced, no root enclosed it.
pub proof fn law_registered_board_is_there(
    pre: Registry,
    post: Registry,
    r: Result<ProjectRecord, Error>,
    place: Option<Seq<char>>,
    name: Seq<char>,
    force: bool,
    actor: Seq<char>,
    file: Seq<char>,
    now: i64,
)
    requires
        pre.wf(),
        workspace_ops::registered(pre, post, r, place, name, force, actor, file, now),
        r is Ok,
        place matches Some(root) ==> root.len() > 0 && root[0] == '/' && forall|k: int|
            0 <= k < pre.roots@.len() ==> (#[trigger] pre.roots@[k]).root_path@ != root,
    ensures
        text::trimmed(actor).len() > 0,
        only_places_changed(pre, post) && post.history == pre.history,
        on_record(pre, post, "workspace_registered"@, text::trimmed(actor), now),
        post.boards@.len() == pre.boards@.len() + 1,
        forall|k: int| 0 <= k < pre.boards@.len() ==> #[trigger] post.boards@[k] == pre.boards@[k],
        forall|k: int|
            0 <= k < pre.boards@.len() ==> (#[trigger] pre.boards@[k]).name@ != name
                || pre.boards@[k].archived,
        forall|k: int|
            0 <= k < pre.boards@.len() ==> (#[trigger] pre.boards@[k]).board_path@
                != post.boards@.last().board_path@,
        ({
            let b = post.boards@.last();
            &&& b.name@ == name
            &&& b.created_at == now && b.last_used_at == now
            &&& !b.archived && b.archived_at is None && b.archived_by is None
            &&& b.archived_note is None && b.retirement_id is None
            &&& r->Ok_0.name@ == name
            &&& r->Ok_0.board_path@ == b.board_path@
            &&& r->Ok_0.last_used_at == now
            &&& !r->Ok_0.archived
            &&& shows_roots(r->Ok_0, post)
        }),
        place is None ==> post.roots@ == pre.roots@,
        place matches Some(root) ==> {
            &&& post.roots@.len() == pre.roots@.len() + 1
            &&& forall|k: int|
                0 <= k < pre.roots@.len() ==> #[trigger] post.roots@[k] == pre.roots@[k]
            &&& post.roots@.last().root_path@ == root
            &&& post.roots@.last().board_path@ == post.boards@.last().board_path@
            &&& post.roots@.last().created_at == now && post.roots@.last().last_used_at == now
            &&& !force ==> is_outside(pre, root)
        },
{
    if place is Some {
        lemma_exact(pre, place->0);
        let root = place->0;
        if pre.exact_rows(root) is Some {
            let (i, j) = pre.exact_rows(root)->0;
            assert(pre.roots@[i].root_path@ == root);
        }
        if !force {
            lemma_outside(pre, root);
        }
    }
    assert forall|k: int| 0 <= k < pre.boards@.len() implies (#[trigger] pre.boards@[k]).name@
        != name || pre.boards@[k].archived by {
        assert(!tables::has_active_name(pre.boards@, name, None));
    }
    let path = workspace_ops::new_board_path(pre.data_root@, file);
    lemma_roots_of_active(post, path);
    let q = tables::board_at(path);
    tables::lemma_first_index(pre.boards@, q);
    assert forall|k: int| 0 <= k < pre.boards@.len() implies (
    #[trigger] pre.boards@[k]).board_path@ != post.boards@.last().board_path@ by {
        assert(!q(pre.boards@[k]));
    }
}

/// A root that is repointed stays on its board, under the path that it leads to now; its old
/// path is no root any more. Everything else stays.
pub proof fn law_repointed_root_stays_on_its_board(
    pre: Registry,
    post: Registry,
    r: Result<UnreachableRoot, Error>,
    root: Seq<char>,
    lead: Option<Seq<char>>,
    actor: Seq<char>,
    now: i64,
) -> (at: (int, int))
    requires
        pre.wf(),
        attachment::repointed(pre, post, r, root, lead, actor, now),
        r is Ok,
    ensures
        lead is Some && lead->0 != root,
        text::trimmed(actor).len() > 0,
        ({
            let i = at.0;
            let j = at.1;
            &&& 0 <= i < pre.roots@.len() && 0 <= j < pre.boards@.len()
            &&& pre.roots@[i].root_path@ == root
            &&& pre.roots@[i].board_path@ == pre.boards@[j].board_path@
            &&& post.roots@.len() == pre.roots@.len()
            &&& post.roots@[i].root_path@ == lead->0
            &&& post.roots@[i].board_path == pre.roots@[i].board_path
            &&& post.roots@[i].created_at == pre.roots@[i].created_at
            &&& post.roots@[i].last_used_at == now
            &&& other_boards_stay(pre, post, j)
            &&& same_board_used(pre.boards@[j], post.boards@[j], now)
            &&& r->Ok_0.name@ == pre.boards@[j].name@
            &&& r->Ok_0.board_path@ == pre.boards@[j].board_path@
            &&& r->Ok_0.root_path@ == lead->0
            &&& forall|k: int|
                0 <= k < pre.roots@.len() && k != i ==> #[trigger] post.roots@[k] == pre.roots@[k]
        }),
        forall|k: int|
            0 <= k < pre.roots@.len() ==> (#[trigger] pre.roots@[k]).root_path@ != lead->0,
        forall|k: int|
            0 <= k < post.roots@.len() ==> (#[trigger] post.roots@[k]).root_path@ != root,
        only_places_changed(pre, post) && post.history == pre.history,
        on_record(pre, post, "workspace_repointed"@, text::trimmed(actor), now),
{
    lemma_exact(pre, root);
    lemma_exact(pre, lead->0);
    let (i, j) = pre.exact_rows(root)->0;
    assert forall|k: int| 0 <= k < post.roots@.len() implies (
    #[trigger] post.roots@[k]).root_path@ != root by {
        if k < i {
            assert(pre.roots@[k].root_path@ != pre.roots@[i].root_path@);
        } else if i < k {
            assert(pre.roots@[i].root_path@ != pre.roots@[k].root_path@);
        }
    }
    (i, j)
}

/// A root that is detached is a root no more, and is remembered with its board, of no
/// retirement. Its board and all other roots stay.
pub proof fn law_detached_root_is_remembered(
    pre: Registry,
    post: Registry,
    r: Result<WorkspaceRecord, Error>,
    root: Seq<char>,
    actor: Seq<char>,
    now: i64,
) -> (at: (int, int))
    requires
        pre.wf(),
        retirement::detached(pre, post, r, root, actor, now),
        r is Ok,
    ensures
        text::trimmed(actor).len() > 0,
        ({
            let i = at.0;
            let j = at.1;
            let a = post.history@.last();
            &&& 0 <= i < pre.roots@.len() && 0 <= j < pre.boards@.len()
            &&& pre.roots@[i].root_path@ == root
            &&& pre.roots@[i].board_path@ == pre.boards@[j].board_path@
            &&& post.roots@.len() == pre.roots@.len() - 1
            &&& forall|k: int| 0 <= k < i ==> #[trigger] post.roots@[k] == pre.roots@[k]
            &&& forall|k: int|
                i <= k < post.roots@.len() ==> #[trigger] post.roots@[k] == pre.roots@[k + 1]
            &&& post.boards == pre.boards
            &&& post.history@.len() == pre.history@.len() + 1
            &&& forall|k: int|
                0 <= k < pre.history@.len() ==> #[trigger] post.history@[k] == pre.history@[k]
            &&& a.root_path@ == root
            &&& a.name@ == pre.boards@[j].name@
            &&& a.board_path@ == pre.boards@[j].board_path@
            &&& a.created_at == pre.roots@[i].created_at
            &&& a.last_used_at == pre.roots@[i].last_used_at
            &&& a.archived_at == now
            &&& a.archived_by@ == text::trimmed(actor)
            &&& a.archived_note is None && a.retirement_id is None
            &&& r->Ok_0.root_path@ == root && r->Ok_0.archived && r->Ok_0.archived_at == Some(now)
            &&& r->Ok_0.board_path@ == a.board_path@ && r->Ok_0.name@ == a.name@
        }),
        forall|k: int|
            0 <= k < post.roots@.len() ==> (#[trigger] post.roots@[k]).root_path@ != root,
        only_places_changed(pre, post),
        on_record(pre, post, "workspace_detached"@, text::trimmed(actor), now),
{
    lemma_exact(pre, root);
    let (i, j) = pre.exact_rows(root)->0;
    assert forall|k: int| 0 <= k < post.roots@.len() implies (
    #[trigger] post.roots@[k]).root_path@ != root by {
        if k < i {
            assert(post.roots@[k] == pre.roots@[k]);
            assert(pre.roots@[k].root_path@ != pre.roots@[i].root_path@);
        } else {
            assert(post.roots@[k] == pre.roots@[k + 1]);
            assert(pre.roots@[i].root_path@ != pre.roots@[k + 1].root_path@);
        }
    }
    (i, j)
}

/// A root is on the board.
pub open spec fn is_on(roots: Seq<RootRow>, root: Seq<char>, board_path: Seq<char>) -> bool {
    exists|k: int|
        0 <= k < roots.len() && (#[trigger] roots[k]).root_path@ == root && roots[k].board_path@
            == board_path
}

/// Attaching by a board's name puts the root on an active board of that name, or finds it
/// there. Where several carry the name, it is one without a root. Everything else stays.
pub proof fn law_attached_root_is_on_the_named_board(
    pre: Registry,
    post: Registry,
    r: Result<WorkspaceRecord, Error>,
    root: Seq<char>,
    target: Seq<char>,
    target_path: Seq<char>,
    actor: Seq<char>,
    now: i64,
) -> (j: int)
    requires
        pre.wf(),
        attachment::attach_outcome(pre, post, r, root, target, target_path, actor, now),
        !paths::looks_like_path(target),
        r is Ok,
    ensures
        text::trimmed(actor).len() > 0,
        0 <= j < pre.boards@.len(),
        pre.boards@[j].name@ == target && !pre.boards@[j].archived,
        is_on(post.roots@, root, pre.boards@[j].board_path@),
        r->Ok_0.root_path@ == root,
        r->Ok_0.board_path@ == pre.boards@[j].board_path@,
        r->Ok_0.name@ == target,
        !r->Ok_0.archived && !r->Ok_0.rootless,
        forall|k: int|
            0 <= k < pre.boards@.len() && k != j && (#[trigger] pre.boards@[k]).name@ == target
                && !pre.boards@[k].archived ==> forall|m: int|
                0 <= m < pre.roots@.len() ==> (#[trigger] pre.roots@[m]).board_path@
                    != pre.boards@[j].board_path@ || pre.boards@[j].retirement_id is Some,
        is_on(pre.roots@, root, pre.boards@[j].board_path@) ==> post == pre,
        !is_on(pre.roots@, root, pre.boards@[j].board_path@) ==> {
            &&& forall|k: int|
                0 <= k < pre.roots@.len() ==> (#[trigger] pre.roots@[k]).root_path@ != root
            &&& post.roots@.len() == pre.roots@.len() + 1
            &&& forall|k: int|
                0 <= k < pre.roots@.len() ==> #[trigger] post.roots@[k] == pre.roots@[k]
            &&& post.roots@.last().created_at == now && post.roots@.last().last_used_at == now
            &&& other_boards_stay(pre, post, j)
            &&& same_board_used(pre.boards@[j], post.boards@[j], now)
            &&& post.history == pre.history
            &&& only_places_changed(pre, post)
            &&& on_record(pre, post, "workspace_attached"@, text::trimmed(actor), now)
        },
{
    let board = pre.attach_choice(target)->Ok_0;
    let active = pre.named_boards(target, false);
    let rootless = tables::kept(active, pre.lacks_roots());
    if active.len() != 1 {
        listing::lemma_kept_contains(active, pre.lacks_roots(), rootless[0]);
        assert(rootless.contains(rootless[0]));
    }
    assert(active.contains(board));
    listing::lemma_ranked_contains(
        tables::kept(pre.boards@, tables::board_named(target, false)),
        board,
    );
    listing::lemma_kept_contains(pre.boards@, tables::board_named(target, false), board);
    let q = tables::board_at(board.board_path@);
    tables::lemma_first_index(pre.boards@, q);
    let j = tables::first_index(pre.boards@, q);
    let k0 = choose|k: int| 0 <= k < pre.boards@.len() && pre.boards@[k] == board;
    assert(q(pre.boards@[k0]));
    assert(j <= k0);
    if j < k0 {
        assert(q(pre.boards@[j]));
        assert(pre.boards@[j].board_path@ != pre.boards@[k0].board_path@);
    }
    assert(pre.boards@[j] == board);
    let path = board.board_path@;
    lemma_exact(pre, root);
    match pre.exact_rows(root) {
        Some((i, k)) => {
            assert(is_on(pre.roots@, root, path));
            if k < j {
                assert(pre.boards@[k].board_path@ != pre.boards@[j].board_path@);
            } else if j < k {
                assert(pre.boards@[j].board_path@ != pre.boards@[k].board_path@);
            }
        },
        None => {
            assert(post.roots@[pre.roots@.len() as int] == post.roots@.last());
            assert(is_on(post.roots@, root, path));
        },
    }
    assert forall|k: int|
        0 <= k < pre.boards@.len() && k != j && (#[trigger] pre.boards@[k]).name@ == target
            && !pre.boards@[k].archived implies forall|m: int|
        0 <= m < pre.roots@.len() ==> (#[trigger] pre.roots@[m]).board_path@
            != pre.boards@[j].board_path@ || pre.boards@[j].retirement_id is Some by {
        let named = tables::kept(pre.boards@, tables::board_named(target, false));
        listing::lemma_ranked_contains(named, pre.boards@[k]);
        listing::lemma_kept_contains(
            pre.boards@,
            tables::board_named(target, false),
            pre.boards@[k],
        );
        assert(active.contains(pre.boards@[k]));
        if active.len() == 1 {
            assert(active[0] == pre.boards@[k]);
            if k < j {
                assert(pre.boards@[k].board_path@ != pre.boards@[j].board_path@);
            } else {
                assert(pre.boards@[j].board_path@ != pre.boards@[k].board_path@);
            }
        } else {
            assert(pre.lacks_roots()(board));
            assert forall|m: int| 0 <= m < pre.roots@.len() implies (
            #[trigger] pre.roots@[m]).board_path@ != pre.boards@[j].board_path@
                || pre.boards@[j].retirement_id is Some by {
                if board.retirement_id is None {
                    lemma_roots_of_active(pre, path);
                    if pre.roots@[m].board_path@ == path {
                        assert(is_on(pre.roots@, pre.roots@[m].root_path@, path));
                        assert(tables::roots_of(pre.roots@, pre.history@, path, None).contains(
                            pre.roots@[m].root_path@,
                        ));
                    }
                }
            }
        }
    }
    j
}

proof fn lemma_deduplicated(s: Seq<Seq<char>>)
    ensures
        forall|x: Seq<char>| #[trigger]
            tables::deduplicated(s).contains(x) <==> s.contains(x),
        tables::deduplicated(s).no_duplicates(),
    decreases s.len(),
{
    if s.len() > 0 {
        let rest = s.drop_last();
        lemma_deduplicated(rest);
        let d = tables::deduplicated(rest);
        let all = tables::deduplicated(s);
        assert forall|x: Seq<char>| #[trigger] all.contains(x) <==> s.contains(x) by {
            if s.contains(x) {
                let i = choose|i: int| 0 <= i < s.len() && s[i] == x;
                if i < rest.len() {
                    assert(rest[i] == x);
                    assert(d.contains(x));
                    let m = choose|m: int| 0 <= m < d.len() && d[m] == x;
                    assert(all[m] == x);
                } else if !d.contains(x) {
                    assert(all[d.len() as int] == x);
                }
            }
            if all.contains(x) {
                let i = choose|i: int| 0 <= i < all.len() && all[i] == x;
                if i < d.len() {
                    assert(d[i] == x);
                    assert(d.contains(x));
                    assert(rest.contains(x));
                    let m = choose|m: int| 0 <= m < rest.len() && rest[m] == x;
                    assert(s[m] == x);
                } else {
                    assert(s[s.len() - 1] == x);
                }
            }
        }
        assert(all.no_duplicates()) by {
            if !d.contains(s.last()) {
                assert forall|i: int, j: int|
                    0 <= i < all.len() && 0 <= j < all.len() && i != j implies all[i] != all[j] by {
                    if i == d.len() {
                        assert(d.contains(d[j]));
                    } else if j == d.len() {
                        assert(d.contains(d[i]));
                    }
                }
            }
        }
    }
}

proof fn lemma_roots_of_active(reg: Registry, board_path: Seq<char>)
    ensures
        forall|x: Seq<char>| #[trigger]
            tables::roots_of(reg.roots@, reg.history@, board_path, None).contains(x) <==> is_on(
                reg.roots@,
                x,
                board_path,
            ),
        tables::roots_of(reg.roots@, reg.history@, board_path, None).no_duplicates(),
{
    let p = tables::root_on(board_path);
    let some = tables::kept(reg.roots@, p);
    let list = ranking::ranked(some);
    let texts = list.map_values(|r: RootRow| r.root_path@);
    lemma_deduplicated(texts);
    assert forall|x: Seq<char>| #[trigger]
        tables::deduplicated(texts).contains(x) <==> is_on(reg.roots@, x, board_path) by {
        if texts.contains(x) {
            let i = choose|i: int| 0 <= i < texts.len() && texts[i] == x;
            assert(list.contains(list[i]));
            listing::lemma_ranked_contains(some, list[i]);
            listing::lemma_kept_contains(reg.roots@, p, list[i]);
            let k = choose|k: int| 0 <= k < reg.roots@.len() && reg.roots@[k] == list[i];
            assert(reg.roots@[k].root_path@ == x);
        }
        if is_on(reg.roots@, x, board_path) {
            let k = choose|k: int|
                0 <= k < reg.roots@.len() && (#[trigger] reg.roots@[k]).root_path@ == x
                    && reg.roots@[k].board_path@ == board_path;
            listing::lemma_kept_contains(reg.roots@, p, reg.roots@[k]);
            listing::lemma_ranked_contains(some, reg.roots@[k]);
            let i = choose|i: int| 0 <= i < list.len() && list[i] == reg.roots@[k];
            assert(texts[i] == x);
        }
    }
}

// ---------------------------------------------------------------------------- retirement

/// What was a root of the board is remembered under its retirement.
pub open spec fn is_remembered(
    history: Seq<AliasRow>,
    x: RootRow,
    name: Seq<char>,
    by: Seq<char>,
    note: Seq<char>,
    retirement_id: Seq<char>,
    now: i64,
) -> bool {
    exists|h: int|
        {
            &&& 0 <= h < history.len()
            &&& (#[trigger] history[h]).root_path@ == x.root_path@
            &&& history[h].name@ == name
            &&& history[h].board_path@ == x.board_path@
            &&& history[h].created_at == x.created_at
            &&& history[h].last_used_at == x.last_used_at
            &&& history[h].archived_at == now
            &&& history[h].archived_by@ == by
            &&& history[h].archived_note matches Some(n) && n@ == note
            &&& history[h].retirement_id matches Some(id) && id@ == retirement_id
        }
}

/// Retiring a board retires the one active board of that name: it is not active any more,
/// says who retired it, when and why, and keeps what else it says. All its roots are
/// remembered and are roots no more; the roots of other boards stay. Nothing else changes.
pub proof fn law_retired_board_gives_up_its_roots(
    pre: Registry,
    post: Registry,
    r: Result<ProjectRecord, Error>,
    name: Seq<char>,
    actor: Seq<char>,
    note: Seq<char>,
    retirement_id: Seq<char>,
    now: i64,
) -> (j: int)
    requires
        pre.wf(),
        retirement::retired(pre, post, r, name, actor, note, retirement_id, now),
        r is Ok,
    ensures
        text::trimmed(actor).len() > 0 && text::trimmed(note).len() > 0,
        0 <= j < pre.boards@.len(),
        pre.boards@[j].name@ == name && !pre.boards@[j].archived,
        forall|k: int|
            0 <= k < pre.boards@.len() && k != j ==> (#[trigger] pre.boards@[k]).name@ != name
                || pre.boards@[k].archived,
        other_boards_stay(pre, post, j),
        ({
            let a = pre.boards@[j];
            let b = post.boards@[j];
            &&& b.archived && b.archived_at == Some(now)
            &&& b.archived_by matches Some(by) && by@ == text::trimmed(actor)
            &&& b.archived_note matches Some(n) && n@ == text::trimmed(note)
            &&& b.retirement_id matches Some(id) && id@ == retirement_id
            &&& b.board_path == a.board_path && b.name == a.name
            &&& b.created_at == a.created_at && b.last_used_at == a.last_used_at
            &&& r->Ok_0.name@ == name && r->Ok_0.board_path@ == a.board_path@
            &&& r->Ok_0.archived && r->Ok_0.archived_at == Some(now)
        }),
        forall|k: int|
            0 <= k < post.roots@.len() ==> (#[trigger] post.roots@[k]).board_path@
                != pre.boards@[j].board_path@ && pre.roots@.contains(post.roots@[k]),
        forall|k: int|
            0 <= k < pre.roots@.len() ==> if (#[trigger] pre.roots@[k]).board_path@
                == pre.boards@[j].board_path@ {
                is_remembered(
                    post.history@,
                    pre.roots@[k],
                    name,
                    text::trimmed(actor),
                    text::trimmed(note),
                    retirement_id,
                    now,
                )
            } else {
                post.roots@.contains(pre.roots@[k])
            },
        post.history@.len() + post.roots@.len() == pre.history@.len() + pre.roots@.len(),
        forall|k: int|
            0 <= k < pre.history@.len() ==> #[trigger] post.history@[k] == pre.history@[k],
        only_places_changed(pre, post),
        on_record(pre, post, "workspace_retired"@, text::trimmed(actor), now),
{
    let named = tables::kept(pre.boards@, tables::board_named(name, false));
    let active = pre.named_boards(name, false);
    let board = active[0];
    let j = pre.retiring_row(name);
    let path = board.board_path@;
    assert(active.contains(board));
    listing::lemma_ranked_contains(named, board);
    listing::lemma_kept_contains(pre.boards@, tables::board_named(name, false), board);
    lemma_the_board(pre, board);
    assert(pre.boards@[j] == board);
    assert forall|k: int| 0 <= k < pre.boards@.len() && k != j implies (
    #[trigger] pre.boards@[k]).name@ != name || pre.boards@[k].archived by {
        if pre.boards@[k].name@ == name && !pre.boards@[k].archived {
            listing::lemma_kept_contains(
                pre.boards@,
                tables::board_named(name, false),
                pre.boards@[k],
            );
            listing::lemma_ranked_contains(named, pre.boards@[k]);
            assert(active.contains(pre.boards@[k]));
            lemma_the_board(pre, pre.boards@[k]);
        }
    }
    let on = tables::kept(pre.roots@, tables::root_on(path));
    let taken = ranking::ranked(on);
    ranking::law_ranked(on);
    let n = pre.history@.len() as int;
    assert forall|k: int| 0 <= k < post.roots@.len() implies (
    #[trigger] post.roots@[k]).board_path@ != path && pre.roots@.contains(post.roots@[k]) by {
        assert(post.roots@.contains(post.roots@[k]));
        listing::lemma_kept_contains(pre.roots@, tables::root_off(path), post.roots@[k]);
    }
    assert forall|k: int| 0 <= k < pre.roots@.len() implies if (
    #[trigger] pre.roots@[k]).board_path@ == path {
        is_remembered(
            post.history@,
            pre.roots@[k],
            name,
            text::trimmed(actor),
            text::trimmed(note),
            retirement_id,
            now,
        )
    } else {
        post.roots@.contains(pre.roots@[k])
    } by {
        let x = pre.roots@[k];
        assert(pre.roots@.contains(x));
        if x.board_path@ == path {
            listing::lemma_kept_contains(pre.roots@, tables::root_on(path), x);
            listing::lemma_ranked_contains(on, x);
            let i = choose|i: int| 0 <= i < taken.len() && taken[i] == x;
            let a = post.history@[n + i];
            assert(retirement::is_alias_of(
                a,
                taken[i],
                name,
                path,
                text::trimmed(actor),
                Some(text::trimmed(note)),
                Some(retirement_id),
                now,
            ));
        } else {
            listing::lemma_kept_contains(pre.roots@, tables::root_off(path), x);
        }
    }
    lemma_on_and_off(pre.roots@, path);
    assert forall|k: int| 0 <= k < n implies #[trigger] post.history@[k] == pre.history@[k] by {
        assert(post.history@.take(n)[k] == pre.history@[k]);
    }
    j
}

proof fn lemma_on_and_off(roots: Seq<RootRow>, path: Seq<char>)
    ensures
        tables::kept(roots, tables::root_on(path)).len() + tables::kept(
            roots,
            tables::root_off(path),
        ).len() == roots.len(),
    decreases roots.len(),
{
    if roots.len() > 0 {
        lemma_on_and_off(roots.drop_last(), path);
    }
}

pub(crate) proof fn lemma_the_board(reg: Registry, board: BoardRow)
    requires
        reg.wf(),
        reg.boards@.contains(board),
    ensures
        ({
            let j = tables::first_index(reg.boards@, tables::board_at(board.board_path@));
            0 <= j < reg.boards@.len() && reg.boards@[j] == board && forall|k: int|
                0 <= k < reg.boards@.len() && (#[trigger] reg.boards@[k]).board_path@
                    == board.board_path@ ==> k == j
        }),
{
    let q = tables::board_at(board.board_path@);
    tables::lemma_first_index(reg.boards@, q);
    let j = tables::first_index(reg.boards@, q);
    let m = choose|m: int| 0 <= m < reg.boards@.len() && reg.boards@[m] == board;
    assert(q(reg.boards@[m]));
    assert(q(reg.boards@[j]));
    assert forall|k: int|
        0 <= k < reg.boards@.len() && (#[trigger] reg.boards@[k]).board_path@
            == board.board_path@ implies k == j by {
        if k < j {
            assert(reg.boards@[k].board_path@ != reg.boards@[j].board_path@);
        } else if j < k {
            assert(reg.boards@[j].board_path@ != reg.boards@[k].board_path@);
        }
    }
}

/// A former root of the board under the retirement.
pub open spec fn is_former(a: AliasRow, board: BoardRow) -> bool {
    &&& a.board_path@ == board.board_path@
    &&& a.retirement_id matches Some(id) && board.retirement_id matches Some(other) && id@
        == other@
}

/// Unretiring brings the one board of that name back: it is active, says nothing of a
/// retirement and keeps what else it says. Every root that it had when it was retired is on
/// it again, with its age; no other root is new and every root that is there stays. What is
/// remembered stays too.
pub proof fn law_unretired_board_has_its_roots_again(
    pre: Registry,
    post: Registry,
    r: Result<ProjectRecord, Error>,
    name: Seq<char>,
    actor: Seq<char>,
    now: i64,
) -> (j: int)
    requires
        pre.wf(),
        retirement::unretired(pre, post, r, name, actor, now),
        r is Ok,
    ensures
        text::trimmed(actor).len() > 0,
        0 <= j < pre.boards@.len(),
        pre.boards@[j].name@ == name && pre.boards@[j].archived,
        forall|k: int|
            0 <= k < pre.boards@.len() && k != j ==> (#[trigger] pre.boards@[k]).name@ != name,
        other_boards_stay(pre, post, j),
        ({
            let a = pre.boards@[j];
            let b = post.boards@[j];
            &&& !b.archived && b.archived_at is None && b.archived_by is None
            &&& b.archived_note is None && b.retirement_id is None
            &&& b.board_path == a.board_path && b.name == a.name
            &&& b.created_at == a.created_at && b.last_used_at == now
            &&& r->Ok_0.name@ == name && r->Ok_0.board_path@ == a.board_path@
            &&& !r->Ok_0.archived
            &&& shows_roots(r->Ok_0, post)
        }),
        forall|h: int|
            0 <= h < pre.history@.len() && is_former(#[trigger] pre.history@[h], pre.boards@[j])
                ==> is_on(post.roots@, pre.history@[h].root_path@, pre.boards@[j].board_path@),
        forall|k: int| 0 <= k < pre.roots@.len() ==> #[trigger] post.roots@[k] == pre.roots@[k],
        forall|k: int|
            pre.roots@.len() <= k < post.roots@.len() ==> comes_back(
                #[trigger] post.roots@[k],
                pre.history@,
                pre.boards@[j],
            ),
        post.history == pre.history,
        only_places_changed(pre, post),
        on_record(pre, post, "workspace_unretired"@, text::trimmed(actor), now),
{
    let named = tables::kept(pre.boards@, tables::board_named(name, true));
    let all = pre.named_boards(name, true);
    let j = pre.unretiring_row(name);
    let board = all[0];
    assert(all.contains(board));
    listing::lemma_ranked_contains(named, board);
    listing::lemma_kept_contains(pre.boards@, tables::board_named(name, true), board);
    lemma_the_board(pre, board);
    assert forall|k: int| 0 <= k < pre.boards@.len() && k != j implies (
    #[trigger] pre.boards@[k]).name@ != name by {
        if pre.boards@[k].name@ == name {
            listing::lemma_kept_contains(
                pre.boards@,
                tables::board_named(name, true),
                pre.boards@[k],
            );
            listing::lemma_ranked_contains(named, pre.boards@[k]);
            assert(all.contains(pre.boards@[k]));
            lemma_the_board(pre, pre.boards@[k]);
        }
    }
    if !board.archived {
        let some = tables::kept(pre.boards@, tables::board_named(name, false));
        listing::lemma_kept_contains(pre.boards@, tables::board_named(name, false), board);
        listing::lemma_ranked_contains(some, board);
        assert(pre.named_boards(name, false).contains(board));
        assert(pre.named_boards(name, false).len() > 0);
    }
    lemma_roots_of_active(post, board.board_path@);
    let id = text::text_of(board.retirement_id)->0;
    let p = tables::alias_of(board.board_path@, id);
    let kept = tables::kept(pre.history@, p);
    let former = pre.retired_roots(j);
    let free = retirement::is_free(pre.roots@);
    let taken = retirement::is_taken(pre.roots@, board.board_path@);
    let restored = tables::kept(former, free);
    let n = pre.roots@.len() as int;
    tables::lemma_first_index(former, taken);
    assert forall|k: int| 0 <= k < n implies #[trigger] post.roots@[k] == pre.roots@[k] by {
        assert(post.roots@.take(n)[k] == pre.roots@[k]);
    }
    assert forall|h: int|
        0 <= h < pre.history@.len() && is_former(
            #[trigger] pre.history@[h],
            pre.boards@[j],
        ) implies is_on(post.roots@, pre.history@[h].root_path@, pre.boards@[j].board_path@) by {
        let a = pre.history@[h];
        assert(p(a));
        listing::lemma_kept_contains(pre.history@, p, a);
        listing::lemma_ranked_contains(kept, a);
        let m = choose|m: int| 0 <= m < former.len() && former[m] == a;
        let q = tables::root_at(a.root_path@);
        tables::lemma_first_index(pre.roots@, q);
        let i = tables::first_index(pre.roots@, q);
        if i < n {
            assert(q(pre.roots@[i]));
            assert(!taken(former[m]));
            assert(post.roots@[i] == pre.roots@[i]);
        } else {
            assert(free(a));
            listing::lemma_kept_contains(former, free, a);
            let x = choose|x: int| 0 <= x < restored.len() && restored[x] == a;
            assert(retirement::is_restored_root(post.roots@[n + x], restored[x], board.board_path@));
            assert(post.roots@[n + x].root_path@ == a.root_path@);
        }
    }
    assert forall|k: int| n <= k < post.roots@.len() implies comes_back(
        #[trigger] post.roots@[k],
        pre.history@,
        pre.boards@[j],
    ) by {
        let x = k - n;
        let a = restored[x];
        assert(retirement::is_restored_root(post.roots@[n + x], restored[x], board.board_path@));
        assert(restored.contains(a));
        listing::lemma_kept_contains(former, free, a);
        listing::lemma_ranked_contains(kept, a);
        listing::lemma_kept_contains(pre.history@, p, a);
        let h = choose|h: int| 0 <= h < pre.history@.len() && pre.history@[h] == a;
        assert(is_former(pre.history@[h], board));
    }
    j
}

/// The root was one of the board when that was retired.
pub open spec fn comes_back(x: RootRow, history: Seq<AliasRow>, board: BoardRow) -> bool {
    &&& x.board_path@ == board.board_path@
    &&& exists|h: int|
        0 <= h < history.len() && is_former(#[trigger] history[h], board) && history[h].root_path@
            == x.root_path@ && history[h].created_at == x.created_at && history[h].last_used_at
            == x.last_used_at
}

// ---------------------------------------------------------------------------- listings

/// The project shows a board: its name, its path, when it was used, and its retirement.
pub open spec fn shows_board(p: ProjectRecord, b: BoardRow) -> bool {
    &&& p.name@ == b.name@
    &&& p.board_path@ == b.board_path@
    &&& p.last_used_at == b.last_used_at
    &&& p.archived_at == b.archived_at
    &&& p.archived == b.archived_at is Some
    &&& text::text_of(p.archived_by) == text::text_of(b.archived_by)
    &&& text::text_of(p.archived_note) == text::text_of(b.archived_note)
}

/// The projects of a list show just these boards, most recently used first.
pub open spec fn show_boards(
    list: Seq<ProjectRecord>,
    reg: Registry,
    wanted: spec_fn(BoardRow) -> bool,
) -> bool {
    &&& forall|i: int| 0 <= i < list.len() ==> shows_one_of(#[trigger] list[i], reg, wanted)
    &&& forall|k: int|
        0 <= k < reg.boards@.len() && wanted(#[trigger] reg.boards@[k]) ==> is_shown_in(
            list,
            reg.boards@[k],
        )
    &&& forall|i: int, j: int|
        0 <= i < j < list.len() ==> (#[trigger] list[i]).last_used_at >= (
        #[trigger] list[j]).last_used_at
    &&& list.len() == reg.boards@.filter(wanted).len()
}

/// The project shows a board that is wanted.
pub open spec fn shows_one_of(
    p: ProjectRecord,
    reg: Registry,
    wanted: spec_fn(BoardRow) -> bool,
) -> bool {
    exists|k: int|
        0 <= k < reg.boards@.len() && wanted(reg.boards@[k]) && #[trigger] shows_board(
            p,
            reg.boards@[k],
        ) && (reg.boards@[k].retirement_id is None ==> shows_roots(p, reg))
}

/// One of the projects shows the board.
pub open spec fn is_shown_in(list: Seq<ProjectRecord>, b: BoardRow) -> bool {
    exists|i: int| 0 <= i < list.len() && shows_board(#[trigger] list[i], b)
}

/// The roots that the project shows are just those on its board.
pub open spec fn shows_roots(p: ProjectRecord, reg: Registry) -> bool {
    forall|x: Seq<char>| #[trigger]
        text::texts(p.workspace_roots@).contains(x) <==> is_on(reg.roots@, x, p.board_path@)
}

proof fn lemma_projects(
    reg: Registry,
    list: Seq<ProjectRecord>,
    p: spec_fn(BoardRow) -> bool,
    wanted: spec_fn(BoardRow) -> bool,
)
    requires
        reg.are_projects(list, ranking::ranked(tables::kept(reg.boards@, p))),
        forall|b: BoardRow| #[trigger] p(b) <==> wanted(b),
    ensures
        show_boards(list, reg, wanted),
{
    let some = tables::kept(reg.boards@, p);
    let rows = ranking::ranked(some);
    ranking::law_ranked(some);
    listing::lemma_kept_is_filter(reg.boards@, p);
    assert(p =~= wanted);
    assert forall|i: int| 0 <= i < list.len() implies shows_one_of(
        #[trigger] list[i],
        reg,
        wanted,
    ) by {
        assert(workspace::is_project(list[i], rows[i], reg.roots@, reg.history@, true));
        assert(rows.contains(rows[i]));
        listing::lemma_ranked_contains(some, rows[i]);
        listing::lemma_kept_contains(reg.boards@, p, rows[i]);
        let k = choose|k: int| 0 <= k < reg.boards@.len() && reg.boards@[k] == rows[i];
        lemma_roots_of_active(reg, rows[i].board_path@);
        assert(shows_board(list[i], reg.boards@[k]));
        assert(wanted(reg.boards@[k]));
    }
    assert forall|k: int| 0 <= k < reg.boards@.len() && wanted(
        #[trigger] reg.boards@[k],
    ) implies is_shown_in(list, reg.boards@[k]) by {
        listing::lemma_kept_contains(reg.boards@, p, reg.boards@[k]);
        listing::lemma_ranked_contains(some, reg.boards@[k]);
        let i = choose|i: int| 0 <= i < rows.len() && rows[i] == reg.boards@[k];
        assert(workspace::is_project(list[i], rows[i], reg.roots@, reg.history@, true));
        assert(shows_board(list[i], reg.boards@[k]));
    }
    assert forall|i: int, j: int| 0 <= i < j < list.len() implies (
    #[trigger] list[i]).last_used_at >= (#[trigger] list[j]).last_used_at by {
        assert(workspace::is_project(list[i], rows[i], reg.roots@, reg.history@, true));
        assert(workspace::is_project(list[j], rows[j], reg.roots@, reg.history@, true));
        assert(!rows[j].before(rows[i]));
    }
}

/// The list of all projects shows every board, the list of active ones just the active
/// boards, most recently used first.
pub proof fn law_projects_show_the_boards(
    reg: Registry,
    list: Seq<ProjectRecord>,
    include_archived: bool,
)
    requires
        reg.are_projects(
            list,
            ranking::ranked(tables::kept(reg.boards@, tables::board_listed(include_archived))),
        ),
    ensures
        show_boards(list, reg, |b: BoardRow| include_archived || !b.archived),
{
    lemma_projects(
        reg,
        list,
        tables::board_listed(include_archived),
        |b: BoardRow| include_archived || !b.archived,
    );
}

/// The projects of a name show just the boards of that name.
pub proof fn law_named_projects_show_the_boards(
    reg: Registry,
    list: Seq<ProjectRecord>,
    name: Seq<char>,
    include_archived: bool,
)
    requires
        reg.are_projects(list, reg.named_boards(name, include_archived)),
    ensures
        show_boards(
            list,
            reg,
            |b: BoardRow| b.name@ == name && (include_archived || !b.archived),
        ),
{
    lemma_projects(
        reg,
        list,
        tables::board_named(name, include_archived),
        |b: BoardRow| b.name@ == name && (include_archived || !b.archived),
    );
}

/// The record shows a root on a board.
pub open spec fn shows_root(w: WorkspaceRecord, x: RootRow, b: BoardRow) -> bool {
    &&& w.root_path@ == x.root_path@ && w.board_path@ == x.board_path@
    &&& x.board_path@ == b.board_path@ && w.name@ == b.name@
    &&& w.created_at == x.created_at && w.last_used_at == x.last_used_at
    &&& !w.archived && w.archived_at is None && !w.rootless
}

/// The record shows a board without a root.
pub open spec fn shows_rootless(w: WorkspaceRecord, b: BoardRow) -> bool {
    &&& w.root_path@.len() == 0 && w.board_path@ == b.board_path@ && w.name@ == b.name@
    &&& w.created_at == b.created_at && w.last_used_at == b.last_used_at
    &&& w.archived == b.archived && w.rootless
}

/// The record shows a root that was.
pub open spec fn shows_former(w: WorkspaceRecord, a: AliasRow) -> bool {
    &&& w.root_path@ == a.root_path@ && w.board_path@ == a.board_path@ && w.name@ == a.name@
    &&& w.created_at == a.created_at && w.last_used_at == a.last_used_at
    &&& w.archived && w.archived_at == Some(a.archived_at) && !w.rootless
}

/// A board has no root.
pub open spec fn has_no_root(reg: Registry, b: BoardRow) -> bool {
    forall|k: int|
        0 <= k < reg.roots@.len() ==> (#[trigger] reg.roots@[k]).board_path@ != b.board_path@
}

/// What a record of the list of workspaces shows.
pub open spec fn is_shown(reg: Registry, w: WorkspaceRecord, include_archived: bool) -> bool {
    ||| exists|k: int, j: int|
        0 <= k < reg.roots@.len() && 0 <= j < reg.boards@.len() && !reg.boards@[j].archived
            && #[trigger] shows_root(w, reg.roots@[k], reg.boards@[j])
    ||| exists|j: int|
        0 <= j < reg.boards@.len() && #[trigger] shows_rootless(w, reg.boards@[j]) && has_no_root(
            reg,
            reg.boards@[j],
        ) && (include_archived || !reg.boards@[j].archived)
    ||| include_archived && exists|h: int|
        0 <= h < reg.history@.len() && #[trigger] shows_former(w, reg.history@[h])
}

pub open spec fn has_root_in(reg: Registry, list: Seq<WorkspaceRecord>, x: RootRow) -> bool {
    exists|i: int, j: int|
        0 <= i < list.len() && 0 <= j < reg.boards@.len() && #[trigger] shows_root(
            list[i],
            x,
            reg.boards@[j],
        )
}

pub open spec fn has_rootless_in(list: Seq<WorkspaceRecord>, b: BoardRow) -> bool {
    exists|i: int| 0 <= i < list.len() && shows_rootless(#[trigger] list[i], b)
}

pub open spec fn has_former_in(list: Seq<WorkspaceRecord>, a: AliasRow) -> bool {
    exists|i: int| 0 <= i < list.len() && shows_former(#[trigger] list[i], a)
}

/// A former root is listed with the others.
proof fn lemma_gone(history: Seq<AliasRow>, x: attachment::GoneRoot)
    ensures
        attachment::gone_roots(history).contains(x) <==> history.contains(x.row),
{
    let back = history.reverse().map_values(|a: AliasRow| attachment::GoneRoot { row: a });
    assert(attachment::gone_roots(history) == ranking::ranked(back));
    listing::lemma_ranked_contains(back, x);
    if back.contains(x) {
        let u = choose|u: int| 0 <= u < back.len() && back[u] == x;
        assert(history[history.len() - 1 - u] == x.row);
    }
    if history.contains(x.row) {
        let h = choose|h: int| 0 <= h < history.len() && history[h] == x.row;
        assert(back[history.len() - 1 - h] == x);
    }
}

proof fn lemma_row_is_shown(
    reg: Registry,
    all: Seq<WorkspaceRecord>,
    include_archived: bool,
    m: int,
)
    requires
        reg.wf(),
        reg.lists(all, include_archived),
        0 <= m < all.len(),
    ensures
        is_shown(reg, all[m], include_archived),
{
    let w = all[m];
    let a = reg.active_roots();
    let b = reg.rootless_boards();
    let c = reg.retired_rootless_if(include_archived);
    let d = attachment::gone_roots_if(reg.history@, include_archived);
    let pa = attachment::is_active_root(reg.boards@);
    let pb = attachment::is_rootless(reg.roots@);
    let pc = attachment::is_retired_rootless(reg.roots@, reg.history@);
    if m < a.len() {
        assert(a.contains(a[m]));
        listing::lemma_ranked_contains(tables::kept(reg.roots@, pa), a[m]);
        listing::lemma_kept_contains(reg.roots@, pa, a[m]);
        let k = choose|k: int| 0 <= k < reg.roots@.len() && reg.roots@[k] == a[m];
        let q = tables::board_at(a[m].board_path@);
        tables::lemma_first_index(reg.boards@, q);
        let j = tables::first_index(reg.boards@, q);
        assert(q(reg.boards@[j]));
        assert(shows_root(w, reg.roots@[k], reg.boards@[j]));
    } else if m < a.len() + b.len() {
        let t = m - a.len();
        let x = b[t];
        assert(all[a.len() + t] == w);
        assert(workspace::is_rootless_record(all[a.len() + t], b[t]));
        assert(b.contains(x));
        listing::lemma_ranked_contains(tables::kept(reg.boards@, pb), x);
        listing::lemma_kept_contains(reg.boards@, pb, x);
        let j = choose|j: int| 0 <= j < reg.boards@.len() && reg.boards@[j] == x;
        assert(shows_rootless(w, reg.boards@[j]));
    } else if m < a.len() + b.len() + c.len() {
        let t = m - a.len() - b.len();
        let x = c[t];
        assert(all[a.len() + b.len() + t] == w);
        assert(workspace::is_rootless_record(all[a.len() + b.len() + t], c[t]));
        assert(c.contains(x));
        listing::lemma_ranked_contains(tables::kept(reg.boards@, pc), x);
        listing::lemma_kept_contains(reg.boards@, pc, x);
        let j = choose|j: int| 0 <= j < reg.boards@.len() && reg.boards@[j] == x;
        assert(shows_rootless(w, reg.boards@[j]));
    } else {
        let t = m - a.len() - b.len() - c.len();
        assert(all[a.len() + b.len() + c.len() + t] == w);
        assert(workspace::is_alias_record(all[a.len() + b.len() + c.len() + t], d[t].row));
        assert(d.contains(d[t]));
        lemma_gone(reg.history@, d[t]);
        let h = choose|h: int| 0 <= h < reg.history@.len() && reg.history@[h] == d[t].row;
        assert(shows_former(w, reg.history@[h]));
    }
}

proof fn lemma_rows_are_shown(
    reg: Registry,
    all: Seq<WorkspaceRecord>,
    include_archived: bool,
)
    requires
        reg.wf(),
        reg.lists(all, include_archived),
    ensures
        forall|k: int|
            0 <= k < reg.roots@.len() ==> has_root_in(reg, all, #[trigger] reg.roots@[k]),
        forall|j: int|
            0 <= j < reg.boards@.len() && !(#[trigger] reg.boards@[j]).archived && has_no_root(
                reg,
                reg.boards@[j],
            ) ==> has_rootless_in(all, reg.boards@[j]),
        include_archived ==> forall|h: int|
            0 <= h < reg.history@.len() ==> has_former_in(all, #[trigger] reg.history@[h]),
{
    let a = reg.active_roots();
    let b = reg.rootless_boards();
    let pa = attachment::is_active_root(reg.boards@);
    let pb = attachment::is_rootless(reg.roots@);
    assert forall|k: int| 0 <= k < reg.roots@.len() implies has_root_in(
        reg,
        all,
        #[trigger] reg.roots@[k],
    ) by {
        let x = reg.roots@[k];
        assert(pa(x));
        listing::lemma_kept_contains(reg.roots@, pa, x);
        listing::lemma_ranked_contains(tables::kept(reg.roots@, pa), x);
        let m = choose|m: int| 0 <= m < a.len() && a[m] == x;
        let q = tables::board_at(x.board_path@);
        tables::lemma_first_index(reg.boards@, q);
        let j = tables::first_index(reg.boards@, q);
        assert(q(reg.boards@[j]));
        assert(shows_root(all[m], reg.roots@[k], reg.boards@[j]));
    }
    assert forall|j: int|
        0 <= j < reg.boards@.len() && !(#[trigger] reg.boards@[j]).archived && has_no_root(
            reg,
            reg.boards@[j],
        ) implies has_rootless_in(all, reg.boards@[j]) by {
        let x = reg.boards@[j];
        assert(pb(x));
        listing::lemma_kept_contains(reg.boards@, pb, x);
        listing::lemma_ranked_contains(tables::kept(reg.boards@, pb), x);
        let m = choose|m: int| 0 <= m < b.len() && b[m] == x;
        assert(workspace::is_rootless_record(all[a.len() + m], b[m]));
        assert(shows_rootless(all[a.len() + m], reg.boards@[j]));
    }
    if include_archived {
        let c = reg.retired_rootless_if(include_archived);
        let d = attachment::gone_roots_if(reg.history@, include_archived);
        assert forall|h: int| 0 <= h < reg.history@.len() implies has_former_in(
            all,
            #[trigger] reg.history@[h],
        ) by {
            let x = attachment::GoneRoot { row: reg.history@[h] };
            lemma_gone(reg.history@, x);
            let t = choose|t: int| 0 <= t < d.len() && d[t] == x;
            assert(workspace::is_alias_record(
                all[a.len() + b.len() + c.len() + t],
                d[t].row,
            ));
            assert(shows_former(all[a.len() + b.len() + c.len() + t], reg.history@[h]));
        }
    }
}

/// The list of workspaces shows every root, and every active board that has none; where the
/// retired ones are asked for, also every root that was. It shows nothing else, and stands
/// with the most recently used first.
pub proof fn law_list_shows_the_workspaces(
    reg: Registry,
    all: Seq<WorkspaceRecord>,
    include_archived: bool,
)
    requires
        reg.wf(),
        reg.lists(all, include_archived),
    ensures
        ({
            let list = ranking::ranked(all);
            &&& forall|i: int|
                0 <= i < list.len() ==> is_shown(reg, #[trigger] list[i], include_archived)
            &&& forall|i: int, j: int|
                0 <= i < j < list.len() ==> (#[trigger] list[i]).last_used_at >= (
                #[trigger] list[j]).last_used_at
            &&& forall|k: int|
                0 <= k < reg.roots@.len() ==> has_root_in(reg, list, #[trigger] reg.roots@[k])
            &&& forall|j: int|
                0 <= j < reg.boards@.len() && !(#[trigger] reg.boards@[j]).archived && has_no_root(
                    reg,
                    reg.boards@[j],
                ) ==> has_rootless_in(list, reg.boards@[j])
            &&& include_archived ==> forall|h: int|
                0 <= h < reg.history@.len() ==> has_former_in(list, #[trigger] reg.history@[h])
        }),
{
    let list = ranking::ranked(all);
    ranking::law_ranked(all);
    lemma_rows_are_shown(reg, all, include_archived);
    assert forall|i: int| 0 <= i < list.len() implies is_shown(
        reg,
        #[trigger] list[i],
        include_archived,
    ) by {
        assert(list.contains(list[i]));
        listing::lemma_ranked_contains(all, list[i]);
        let m = choose|m: int| 0 <= m < all.len() && all[m] == list[i];
        lemma_row_is_shown(reg, all, include_archived, m);
    }
    assert forall|i: int, j: int| 0 <= i < j < list.len() implies (
    #[trigger] list[i]).last_used_at >= (#[trigger] list[j]).last_used_at by {
        assert(!list[j].before(list[i]));
    }
    assert forall|m: int| 0 <= m < all.len() implies list.contains(#[trigger] all[m]) by {
        assert(all.contains(all[m]));
        listing::lemma_ranked_contains(all, all[m]);
    }
    assert forall|k: int| 0 <= k < reg.roots@.len() implies has_root_in(
        reg,
        list,
        #[trigger] reg.roots@[k],
    ) by {
        assert(has_root_in(reg, all, reg.roots@[k]));
        let (m, j) = choose|m: int, j: int|
            0 <= m < all.len() && 0 <= j < reg.boards@.len() && #[trigger] shows_root(
                all[m],
                reg.roots@[k],
                reg.boards@[j],
            );
        let i = choose|i: int| 0 <= i < list.len() && list[i] == all[m];
        assert(shows_root(list[i], reg.roots@[k], reg.boards@[j]));
    }
    assert forall|j: int|
        0 <= j < reg.boards@.len() && !(#[trigger] reg.boards@[j]).archived && has_no_root(
            reg,
            reg.boards@[j],
        ) implies has_rootless_in(list, reg.boards@[j]) by {
        assert(has_rootless_in(all, reg.boards@[j]));
        let m = choose|m: int|
            0 <= m < all.len() && shows_rootless(#[trigger] all[m], reg.boards@[j]);
        let i = choose|i: int| 0 <= i < list.len() && list[i] == all[m];
        assert(shows_rootless(list[i], reg.boards@[j]));
    }
    if include_archived {
        assert forall|h: int| 0 <= h < reg.history@.len() implies has_former_in(
            list,
            #[trigger] reg.history@[h],
        ) by {
            assert(has_former_in(all, reg.history@[h]));
            let m = choose|m: int|
                0 <= m < all.len() && shows_former(#[trigger] all[m], reg.history@[h]);
            let i = choose|i: int| 0 <= i < list.len() && list[i] == all[m];
            assert(shows_former(list[i], reg.history@[h]));
        }
    }
}

/// Attaching by a path puts the root on the board that the path leads to, or finds it there.
pub proof fn law_attached_root_is_where_the_path_leads(
    pre: Registry,
    post: Registry,
    r: Result<WorkspaceRecord, Error>,
    root: Seq<char>,
    target: Seq<char>,
    target_path: Seq<char>,
    actor: Seq<char>,
    now: i64,
) -> (at: (int, int))
    requires
        pre.wf(),
        target_path.len() > 0,
        target_path[0] == '/',
        attachment::attach_outcome(pre, post, r, root, target, target_path, actor, now),
        paths::looks_like_path(target),
        r is Ok,
    ensures
        text::trimmed(actor).len() > 0,
        is_nearest_root(pre, target_path, at.0, at.1),
        is_on(post.roots@, root, pre.boards@[at.1].board_path@),
        r->Ok_0.root_path@ == root,
        r->Ok_0.board_path@ == pre.boards@[at.1].board_path@,
        !r->Ok_0.archived && !r->Ok_0.rootless,
        other_boards_stay(pre, post, at.1),
        same_board_used(pre.boards@[at.1], post.boards@[at.1], now),
        post.history == pre.history,
        only_places_changed(pre, post),
        post.roots@.len() <= pre.roots@.len() + 1,
        forall|k: int|
            0 <= k < pre.roots@.len() ==> (#[trigger] post.roots@[k]).root_path
                == pre.roots@[k].root_path && post.roots@[k].board_path == pre.roots@[k].board_path,
{
    law_path_leads_to_the_nearest_root(pre, target_path);
    let (mid, w) = choose|mid: Registry, w: Result<Option<WorkspaceRecord>, Error>|
        {
            &&& #[trigger] attachment::resolved_for_attach(pre, mid, w, target_path, now)
            &&& match pre.resolution(target_path) {
                Err(m) => post == mid && text::refused(r, m),
                Ok(None) => post == mid && text::refused(
                    r,
                    "no Kanban project contains "@ + target,
                ),
                Ok(Some((i, j))) => attachment::attached(
                    mid,
                    post,
                    r,
                    root,
                    j,
                    text::trimmed(actor),
                    now,
                ),
            }
        };
    let (i, j) = pre.resolution(target_path)->Ok_0->0;
    let path = pre.boards@[j].board_path@;
    assert(mid.boards@[j].board_path@ == path);
    let q = tables::root_at(root);
    tables::lemma_first_index(mid.roots@, q);
    match mid.exact_rows(root) {
        Some((x, k)) => {
            assert(q(mid.roots@[x]));
            assert(post.roots@[x].root_path@ == root);
            assert(is_on(post.roots@, root, path));
        },
        None => {
            assert(post.roots@[mid.roots@.len() as int] == post.roots@.last());
            assert(is_on(post.roots@, root, path));
        },
    }
    (i, j)
}

} // verus!
