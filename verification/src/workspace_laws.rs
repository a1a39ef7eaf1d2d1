//! What holds across several operations on boards and roots.

use vstd::prelude::*;

use crate::attachment;
use crate::paths;
use crate::ranking;
use crate::retirement;
use crate::tables;
use crate::tables::AliasRow;
use crate::tables::BoardRow;
use crate::tables::Registry;
use crate::tables::RootRow;
use crate::text;
use crate::text::Error;
use crate::workspace;
use crate::workspace::ProjectRecord;
use crate::workspace::UnreachableRoot;
use crate::workspace::WorkspaceRecord;
use crate::workspace_ops;

verus! {

/// No two active boards carry one name.
pub open spec fn active_names_unique(boards: Seq<BoardRow>) -> bool {
    forall|i: int, j: int|
        0 <= i < j < boards.len() && !(#[trigger] boards[i]).archived && !(
        #[trigger] boards[j]).archived ==> boards[i].name@ != boards[j].name@
}

/// A root is there, with all that its row says.
pub open spec fn has_root_row(
    roots: Seq<RootRow>,
    root: Seq<char>,
    board: Seq<char>,
    created_at: i64,
    last_used_at: i64,
) -> bool {
    exists|i: int| #[trigger] is_root_row(roots, i, root, board, created_at, last_used_at)
}

pub open spec fn is_root_row(
    roots: Seq<RootRow>,
    i: int,
    root: Seq<char>,
    board: Seq<char>,
    created_at: i64,
    last_used_at: i64,
) -> bool {
    &&& 0 <= i < roots.len()
    &&& roots[i].root_path@ == root
    &&& roots[i].board_path@ == board
    &&& roots[i].created_at == created_at
    &&& roots[i].last_used_at == last_used_at
}

/// Both tables hold the same roots.
pub open spec fn same_roots(a: Seq<RootRow>, b: Seq<RootRow>) -> bool {
    forall|root: Seq<char>, board: Seq<char>, created_at: i64, last_used_at: i64|
        has_root_row(a, root, board, created_at, last_used_at) <==> has_root_row(
            b,
            root,
            board,
            created_at,
            last_used_at,
        )
}

/// A registration keeps the names of active boards unique.
pub proof fn law_register_keeps_names_unique(
    pre: Registry,
    post: Registry,
    r: Result<ProjectRecord, Error>,
    workspace: Option<Seq<char>>,
    name: Seq<char>,
    force: bool,
    actor: Seq<char>,
    file: Seq<char>,
    now: i64,
)
    requires
        pre.wf(),
        active_names_unique(pre.boards@),
        workspace_ops::registered(pre, post, r, workspace, name, force, actor, file, now),
    ensures
        active_names_unique(post.boards@),
{
    if pre.register_refusal(workspace, name, force, actor, file) is None {
        if !(workspace is Some && pre.exact_rows(workspace->0) is Some) {
            assert forall|i: int, j: int|
                0 <= i < j < post.boards@.len() && !(#[trigger] post.boards@[i]).archived && !(
                #[trigger] post.boards@[j]).archived implies post.boards@[i].name@
                != post.boards@[j].name@ by {
                if j == pre.boards@.len() {
                    assert(post.boards@[i] == pre.boards@[i]);
                    assert(!tables::has_active_name(pre.boards@, name, None));
                }
            }
        } else {
            let (i0, j0) = pre.exact_rows(workspace->0)->0;
            assert forall|i: int, j: int|
                0 <= i < j < post.boards@.len() && !(#[trigger] post.boards@[i]).archived && !(
                #[trigger] post.boards@[j]).archived implies post.boards@[i].name@
                != post.boards@[j].name@ by {
                assert(!pre.boards@[i].archived && !pre.boards@[j].archived);
            }
        }
    }
}

/// Names and standing of the boards are what they were, but for boards that were retired.
pub open spec fn names_stay(pre: Seq<BoardRow>, post: Seq<BoardRow>) -> bool {
    &&& post.len() == pre.len()
    &&& forall|i: int|
        0 <= i < pre.len() ==> (#[trigger] post[i]).name@ == pre[i].name@ && (!post[i].archived
            ==> !pre[i].archived)
}

proof fn lemma_names_stay_unique(pre: Seq<BoardRow>, post: Seq<BoardRow>)
    requires
        names_stay(pre, post),
        active_names_unique(pre),
    ensures
        active_names_unique(post),
{
    assert forall|i: int, j: int|
        0 <= i < j < post.len() && !(#[trigger] post[i]).archived && !(
        #[trigger] post[j]).archived implies post[i].name@ != post[j].name@ by {
        assert(!pre[i].archived && !pre[j].archived);
    }
}

/// Retiring a project keeps the names of active boards unique.
pub proof fn law_retire_keeps_names_unique(
    pre: Registry,
    post: Registry,
    r: Result<ProjectRecord, Error>,
    name: Seq<char>,
    actor: Seq<char>,
    note: Seq<char>,
    retirement_id: Seq<char>,
    now: i64,
)
    requires
        active_names_unique(pre.boards@),
        retirement::retired(pre, post, r, name, actor, note, retirement_id, now),
    ensures
        active_names_unique(post.boards@),
{
    assert(names_stay(pre.boards@, post.boards@));
    lemma_names_stay_unique(pre.boards@, post.boards@);
}

/// Attaching a root keeps the names of active boards unique.
pub proof fn law_attach_keeps_names_unique(
    pre: Registry,
    post: Registry,
    r: Result<WorkspaceRecord, Error>,
    root: Seq<char>,
    target: Seq<char>,
    target_path: Seq<char>,
    actor: Seq<char>,
    now: i64,
)
    requires
        active_names_unique(pre.boards@),
        attachment::attach_outcome(pre, post, r, root, target, target_path, actor, now),
    ensures
        active_names_unique(post.boards@),
{
    if text::trimmed(actor).len() > 0 && paths::looks_like_path(target) {
        let (mid, w): (Registry, Result<Option<WorkspaceRecord>, Error>) = choose|
            mid: Registry,
            w: Result<Option<WorkspaceRecord>, Error>,
        |
            {
                &&& #[trigger] attachment::resolved_for_attach(pre, mid, w, target_path, now)
                &&& match pre.resolution(target_path) {
                    Err(m) => post == mid && text::refused(r, m),
                    Ok(None) => post == mid && text::refused(
                        r,
                        "no Kanban project contains "@ + target,
                    ),
                    Ok(Some((i, j))) => attachment::attached(
                        mid,
                        post,
                        r,
                        root,
                        j,
                        text::trimmed(actor),
                        now,
                    ),
                }
            };
        assert(names_stay(pre.boards@, mid.boards@));
        assert(names_stay(mid.boards@, post.boards@));
    }
    assert(names_stay(pre.boards@, post.boards@));
    lemma_names_stay_unique(pre.boards@, post.boards@);
}

/// Repointing a root keeps the names of active boards unique.
pub proof fn law_repoint_keeps_names_unique(
    pre: Registry,
    post: Registry,
    r: Result<UnreachableRoot, Error>,
    root: Seq<char>,
    lead: Option<Seq<char>>,
    actor: Seq<char>,
    now: i64,
)
    requires
        active_names_unique(pre.boards@),
        attachment::repointed(pre, post, r, root, lead, actor, now),
    ensures
        active_names_unique(post.boards@),
{
    assert(names_stay(pre.boards@, post.boards@));
    lemma_names_stay_unique(pre.boards@, post.boards@);
}

/// Detaching a root keeps the names of active boards unique.
pub proof fn law_detach_keeps_names_unique(
    pre: Registry,
    post: Registry,
    r: Result<WorkspaceRecord, Error>,
    root: Seq<char>,
    actor: Seq<char>,
    now: i64,
)
    requires
        active_names_unique(pre.boards@),
        retirement::detached(pre, post, r, root, actor, now),
    ensures
        active_names_unique(post.boards@),
{
}

/// Resolving a path keeps the names of active boards unique.
pub proof fn law_resolve_keeps_names_unique(
    pre: Registry,
    post: Registry,
    r: Result<Option<WorkspaceRecord>, Error>,
    path: Seq<char>,
    now: i64,
)
    requires
        active_names_unique(pre.boards@),
        workspace_ops::resolved(pre, post, r, path, now),
    ensures
        active_names_unique(post.boards@),
{
    assert(names_stay(pre.boards@, post.boards@));
    lemma_names_stay_unique(pre.boards@, post.boards@);
}

/// Bringing a project back keeps the names of active boards unique.
pub proof fn law_unretire_keeps_names_unique(
    pre: Registry,
    post: Registry,
    r: Result<ProjectRecord, Error>,
    name: Seq<char>,
    actor: Seq<char>,
    now: i64,
)
    requires
        pre.wf(),
        active_names_unique(pre.boards@),
        retirement::unretired(pre, post, r, name, actor, now),
    ensures
        active_names_unique(post.boards@),
{
    if pre.unretire_refusal(name, actor) is None {
        let k = pre.unretiring_row(name);
        workspace_ops::lemma_named_is_registered(pre, name, true, 0);
        tables::lemma_first_index(
            pre.boards@,
            tables::board_at(pre.named_boards(name, true)[0].board_path@),
        );
        let b = pre.named_boards(name, true)[0];
        let m = choose|m: int| 0 <= m < pre.boards@.len() && pre.boards@[m] == b;
        if m != k {
            assert(pre.boards@[m].board_path@ != pre.boards@[k].board_path@);
        }
        assert(pre.boards@[k].name@ == name);
        assert forall|i: int| 0 <= i < pre.boards@.len() && !(
        #[trigger] pre.boards@[i]).archived implies pre.boards@[i].name@ != name by {
            if pre.boards@[i].name@ == name {
                lemma_active_is_named(pre, name, i);
            }
        }
        assert forall|i: int, j: int|
            0 <= i < j < post.boards@.len() && !(#[trigger] post.boards@[i]).archived && !(
            #[trigger] post.boards@[j]).archived implies post.boards@[i].name@
            != post.boards@[j].name@ by {
            if i == k {
                assert(!pre.boards@[j].archived);
            } else if j == k {
                assert(!pre.boards@[i].archived);
            } else {
                assert(!pre.boards@[i].archived && !pre.boards@[j].archived);
            }
        }
    }
}

/// An active board of a name is among the boards found by that name.
proof fn lemma_active_is_named(reg: Registry, name: Seq<char>, i: int)
    requires
        0 <= i < reg.boards@.len(),
        !reg.boards@[i].archived,
        reg.boards@[i].name@ == name,
    ensures
        reg.named_boards(name, false).len() > 0,
{
    let p = tables::board_named(name, false);
    tables::lemma_kept(reg.boards@, p);
    assert(p(reg.boards@[i]));
    assert(tables::kept(reg.boards@, p).contains(reg.boards@[i]));
    ranking::law_ranked(tables::kept(reg.boards@, p));
}

/// A sorted selection of former roots holds what the selection holds.
proof fn lemma_ranked_contains<T: ranking::Ranked>(s: Seq<T>, x: T)
    ensures
        ranking::ranked(s).contains(x) <==> s.contains(x),
{
    broadcast use vstd::seq_lib::group_to_multiset_ensures;

    ranking::law_ranked(s);
    assert(ranking::ranked(s).to_multiset().count(x) == s.to_multiset().count(x));
}

/// Registering a root again under the name it has adds no board: it gives the
/// same one back.
pub proof fn law_register_again_reuses_the_board(
    pre: Registry,
    mid: Registry,
    post: Registry,
    first: Result<ProjectRecord, Error>,
    second: Result<ProjectRecord, Error>,
    root: Seq<char>,
    name: Seq<char>,
    force: bool,
    force_again: bool,
    actor: Seq<char>,
    actor_again: Seq<char>,
    file: Seq<char>,
    file_again: Seq<char>,
    now: i64,
    later: i64,
)
    requires
        pre.wf(),
        workspace_ops::registered(pre, mid, first, Some(root), name, force, actor, file, now),
        first is Ok,
        text::trimmed(actor_again).len() > 0,
        workspace_ops::registered(
            mid,
            post,
            second,
            Some(root),
            name,
            force_again,
            actor_again,
            file_again,
            later,
        ),
    ensures
        second is Ok,
        second->Ok_0.board_path@ == first->Ok_0.board_path@,
        second->Ok_0.name@ == first->Ok_0.name@,
        post.boards@.len() == mid.boards@.len(),
        post.roots@.len() == mid.roots@.len(),
        post.events@.len() == mid.events@.len() + 1,
{
    let t = tables::root_at(root);
    tables::lemma_first_index(pre.roots@, t);
    match pre.exact_rows(root) {
        Some((i, j)) => {
            let b = tables::board_at(pre.roots@[i].board_path@);
            workspace_ops::lemma_first_index_same(pre.roots@, mid.roots@, t);
            workspace_ops::lemma_first_index_same(pre.boards@, mid.boards@, b);
            tables::lemma_first_index(pre.boards@, b);
            assert(mid.exact_rows(root) == Some((i, j)));
        },
        None => {
            let path = workspace_ops::new_board_path(pre.data_root@, file);
            workspace_ops::lemma_first_index_push(pre.roots@, mid.roots@.last(), t);
            workspace_ops::lemma_first_index_push(
                pre.boards@,
                mid.boards@.last(),
                tables::board_at(path),
            );
            tables::lemma_first_index(pre.boards@, tables::board_at(path));
            assert(mid.exact_rows(root) == Some(
                (pre.roots@.len() as int, pre.boards@.len() as int),
            ));
        },
    }
}

proof fn lemma_kept_distinct<T>(
    s: Seq<T>,
    p: spec_fn(T) -> bool,
    key: spec_fn(T) -> Seq<char>,
)
    requires
        forall|i: int, j: int|
            0 <= i < j < s.len() && p(s[i]) && p(s[j]) ==> key(#[trigger] s[i]) != key(
                #[trigger] s[j],
            ),
    ensures
        tables::distinct_by(tables::kept(s, p), key),
    decreases s.len(),
{
    if s.len() > 0 {
        let rest = s.drop_last();
        let k = tables::kept(rest, p);
        assert forall|i: int, j: int|
            0 <= i < j < rest.len() && p(rest[i]) && p(rest[j]) implies key(#[trigger] rest[i])
            != key(#[trigger] rest[j]) by {
            assert(rest[i] == s[i] && rest[j] == s[j]);
        }
        lemma_kept_distinct(rest, p, key);
        tables::lemma_kept(rest, p);
        let all = tables::kept(s, p);
        assert forall|i: int, j: int| 0 <= i < j < all.len() implies key(#[trigger] all[i]) != key(
            #[trigger] all[j],
        ) by {
            if j < k.len() {
                assert(all[i] == k[i] && all[j] == k[j]);
            } else {
                assert(all[i] == k[i]);
                assert(rest.contains(k[i]));
                let a = choose|a: int| 0 <= a < rest.len() && rest[a] == k[i];
                assert(s[a] == k[i]);
                assert(s[s.len() - 1] == all[j]);
            }
        }
    }
}

/// As many elements are kept where the same places fit.
proof fn lemma_kept_as_many<T>(
    s: Seq<T>,
    t: Seq<T>,
    p: spec_fn(T) -> bool,
    q: spec_fn(T) -> bool,
)
    requires
        s.len() == t.len(),
        forall|i: int| 0 <= i < s.len() ==> p(#[trigger] s[i]) == q(t[i]),
    ensures
        tables::kept(s, p).len() == tables::kept(t, q).len(),
    decreases s.len(),
{
    if s.len() > 0 {
        assert forall|i: int| 0 <= i < s.len() - 1 implies p(#[trigger] s.drop_last()[i]) == q(
            t.drop_last()[i],
        ) by {
            assert(s.drop_last()[i] == s[i]);
        }
        lemma_kept_as_many(s.drop_last(), t.drop_last(), p, q);
        assert(p(s[s.len() - 1]) == q(t[s.len() - 1]));
    }
}

/// The row that retiring takes is the one of the name.
proof fn lemma_retiring_row(pre: Registry, name: Seq<char>)
    requires
        pre.wf(),
        pre.named_boards(name, false).len() == 1,
    ensures
        0 <= pre.retiring_row(name) < pre.boards@.len(),
        pre.boards@[pre.retiring_row(name)] == pre.named_boards(name, false)[0],
        pre.boards@[pre.retiring_row(name)].name@ == name,
        !pre.boards@[pre.retiring_row(name)].archived,
{
    let k = pre.retiring_row(name);
    let named = pre.named_boards(name, false)[0];
    workspace_ops::lemma_named_is_registered(pre, name, false, 0);
    let bp = tables::board_at(named.board_path@);
    tables::lemma_first_index(pre.boards@, bp);
    let m = choose|m: int| 0 <= m < pre.boards@.len() && pre.boards@[m] == named;
    assert(bp(pre.boards@[m]));
    if m != k {
        assert(pre.boards@[m].board_path@ != pre.boards@[k].board_path@);
    }
    let p = tables::board_named(name, false);
    tables::lemma_kept(pre.boards@, p);
    lemma_ranked_contains(tables::kept(pre.boards@, p), named);
    assert(pre.named_boards(name, false).contains(named));
    let j = choose|j: int|
        0 <= j < tables::kept(pre.boards@, p).len() && tables::kept(pre.boards@, p)[j] == named;
    assert(p(tables::kept(pre.boards@, p)[j]));
}

/// Where one board has a name, the name is found on it, active or not.
proof fn lemma_one_named(
    boards: Seq<BoardRow>,
    k: int,
    name: Seq<char>,
)
    requires
        tables::unique_boards(boards),
        0 <= k < boards.len(),
        boards[k].name@ == name,
        tables::kept(boards, tables::board_named(name, true)).len() == 1,
    ensures
        ranking::ranked(tables::kept(boards, tables::board_named(name, true))) == seq![boards[k]],
        ranking::ranked(tables::kept(boards, tables::board_named(name, false)))
            == if boards[k].archived {
            seq![]
        } else {
            seq![boards[k]]
        },
{
    let all = tables::board_named(name, true);
    let live = tables::board_named(name, false);
    tables::lemma_kept(boards, all);
    tables::lemma_kept(boards, live);
    ranking::law_ranked(tables::kept(boards, all));
    ranking::law_ranked(tables::kept(boards, live));
    lemma_ranked_contains(tables::kept(boards, all), boards[k]);
    assert(all(boards[k]));
    let one = ranking::ranked(tables::kept(boards, all));
    assert(one.contains(boards[k]));
    assert(one =~= seq![boards[k]]);
    assert forall|i: int| 0 <= i < boards.len() && i != k implies boards[i].name@ != name by {
        if boards[i].name@ == name {
            assert(all(boards[i]));
            lemma_ranked_contains(tables::kept(boards, all), boards[i]);
            assert(one.contains(boards[i]));
            assert(boards[i] == boards[k]);
            if i < k {
                assert(boards[i].board_path@ != boards[k].board_path@);
            } else {
                assert(boards[k].board_path@ != boards[i].board_path@);
            }
        }
    }
    lemma_kept_single(boards, live, k);
    assert(ranking::ranked(Seq::<BoardRow>::empty()) =~= seq![]);
    lemma_ranked_contains(tables::kept(boards, live), boards[k]);
    if live(boards[k]) {
        assert(ranking::ranked(tables::kept(boards, live)).contains(boards[k]));
        assert(ranking::ranked(tables::kept(boards, live)) =~= seq![boards[k]]);
    }
}

proof fn lemma_kept_single(boards: Seq<BoardRow>, p: spec_fn(BoardRow) -> bool, k: int)
    requires
        0 <= k < boards.len(),
        forall|i: int| 0 <= i < boards.len() && i != k ==> !p(#[trigger] boards[i]),
    ensures
        tables::kept(boards, p) == if p(boards[k]) {
            seq![boards[k]]
        } else {
            seq![]
        },
    decreases boards.len(),
{
    let rest = boards.drop_last();
    if k < rest.len() {
        assert forall|i: int| 0 <= i < rest.len() && i != k implies !p(#[trigger] rest[i]) by {
            assert(rest[i] == boards[i]);
        }
        lemma_kept_single(rest, p, k);
        assert(!p(boards[boards.len() - 1]));
    } else {
        lemma_kept_no_board(rest, p);
    }
}

proof fn lemma_kept_no_board(boards: Seq<BoardRow>, p: spec_fn(BoardRow) -> bool)
    requires
        forall|i: int| 0 <= i < boards.len() ==> !p(#[trigger] boards[i]),
    ensures
        tables::kept(boards, p) == Seq::<BoardRow>::empty(),
    decreases boards.len(),
{
    if boards.len() > 0 {
        let rest = boards.drop_last();
        assert forall|i: int| 0 <= i < rest.len() implies !p(#[trigger] rest[i]) by {
            assert(rest[i] == boards[i]);
        }
        lemma_kept_no_board(rest, p);
        assert(!p(boards[boards.len() - 1]));
    }
}

/// The former roots of a retirement under an id new to the board are the roots that it took: no
/// other root stands at their paths, and no two are at one path.
proof fn lemma_former_roots(
    pre: Registry,
    mid: Registry,
    gone: Result<ProjectRecord, Error>,
    name: Seq<char>,
    actor: Seq<char>,
    note: Seq<char>,
    retirement_id: Seq<char>,
    now: i64,
    path: Seq<char>,
)
    requires
        pre.wf(),
        path == pre.named_boards(name, false)[0].board_path@,
        forall|i: int|
            0 <= i < pre.history@.len() ==> !tables::alias_of(path, retirement_id)(
                #[trigger] pre.history@[i],
            ),
        retirement::retired(pre, mid, gone, name, actor, note, retirement_id, now),
        gone is Ok,
    ensures
        ({
            let former = ranking::ranked(
                tables::kept(mid.history@, tables::alias_of(path, retirement_id)),
            );
            &&& retirement::distinct_paths(former)
            &&& forall|i: int|
                0 <= i < former.len() ==> retirement::is_free(mid.roots@)(#[trigger] former[i])
        }),
{
    let ap = tables::alias_of(path, retirement_id);
    let on = tables::root_on(path);
    let rows = tables::kept(pre.roots@, on);
    let taken = ranking::ranked(rows);
    let n = pre.history@.len() as int;
    let root_key = |r: RootRow| r.root_path@;
    let alias_key = |a: AliasRow| a.root_path@;
    lemma_kept_distinct(pre.roots@, on, root_key);
    ranking::law_ranked(rows);
    tables::lemma_reordered_distinct(rows, taken, root_key);
    assert forall|h: int| 0 <= h < mid.history@.len() && ap(#[trigger] mid.history@[h]) implies h
        >= n && mid.history@[h].root_path == taken[h - n].root_path by {
        if h < n {
            assert(mid.history@.take(n)[h] == mid.history@[h]);
            assert(!ap(pre.history@[h]));
        } else {
            assert(retirement::is_alias_of(
                mid.history@[n + (h - n)],
                taken[h - n],
                name,
                path,
                text::trimmed(actor),
                Some(text::trimmed(note)),
                Some(retirement_id),
                now,
            ));
        }
    }
    assert forall|i: int, j: int|
        0 <= i < j < mid.history@.len() && ap(mid.history@[i]) && ap(mid.history@[j]) implies
        alias_key(#[trigger] mid.history@[i]) != alias_key(#[trigger] mid.history@[j]) by {
        assert(root_key(taken[i - n]) != root_key(taken[j - n]));
    }
    let kept = tables::kept(mid.history@, ap);
    let former = ranking::ranked(kept);
    lemma_kept_distinct(mid.history@, ap, alias_key);
    ranking::law_ranked(kept);
    tables::lemma_reordered_distinct(kept, former, alias_key);
    assert forall|i: int, j: int| 0 <= i < j < former.len() implies (
    #[trigger] former[i]).root_path@ != (#[trigger] former[j]).root_path@ by {
        assert(alias_key(former[i]) != alias_key(former[j]));
    }
    tables::lemma_kept(mid.history@, ap);
    tables::lemma_kept(pre.roots@, on);
    tables::lemma_kept(pre.roots@, tables::root_off(path));
    assert forall|i: int| 0 <= i < former.len() implies retirement::is_free(mid.roots@)(
        #[trigger] former[i],
    ) by {
        let a = former[i];
        assert(former.contains(a));
        lemma_ranked_contains(kept, a);
        let c = choose|c: int| 0 <= c < kept.len() && kept[c] == a;
        assert(ap(kept[c]));
        assert(mid.history@.contains(a));
        let h = choose|h: int| 0 <= h < mid.history@.len() && mid.history@[h] == a;
        let x = taken[h - n];
        assert(taken.contains(x));
        lemma_ranked_contains(rows, x);
        let q = choose|q: int| 0 <= q < rows.len() && rows[q] == x;
        assert(on(rows[q]));
        assert(pre.roots@.contains(x));
        let j = choose|j: int| 0 <= j < pre.roots@.len() && pre.roots@[j] == x;
        let t = tables::root_at(a.root_path@);
        tables::lemma_first_index(mid.roots@, t);
        if tables::first_index(mid.roots@, t) < mid.roots@.len() {
            let y = mid.roots@[tables::first_index(mid.roots@, t)];
            assert(pre.roots@.contains(y));
            let z = choose|z: int| 0 <= z < pre.roots@.len() && pre.roots@[z] == y;
            assert(tables::root_off(path)(y));
            if z < j {
                assert(pre.roots@[z].root_path@ != pre.roots@[j].root_path@);
            } else if z > j {
                assert(pre.roots@[j].root_path@ != pre.roots@[z].root_path@);
            }
        }
    }
}

/// A project that was retired, and alone has its name, can be brought back.
proof fn lemma_unretire_succeeds(
    pre: Registry,
    mid: Registry,
    gone: Result<ProjectRecord, Error>,
    name: Seq<char>,
    actor: Seq<char>,
    note: Seq<char>,
    retirement_id: Seq<char>,
    actor_again: Seq<char>,
    now: i64,
)
    requires
        pre.wf(),
        pre.named_boards(name, true).len() == 1,
        forall|i: int|
            0 <= i < pre.history@.len() ==> !tables::alias_of(
                pre.named_boards(name, false)[0].board_path@,
                retirement_id,
            )(#[trigger] pre.history@[i]),
        retirement::retired(pre, mid, gone, name, actor, note, retirement_id, now),
        gone is Ok,
        text::trimmed(actor_again).len() > 0,
    ensures
        mid.unretire_refusal(name, actor_again) is None,
        mid.unretiring_row(name) == pre.retiring_row(name),
{
    let k = pre.retiring_row(name);
    let path = pre.named_boards(name, false)[0].board_path@;
    let p = tables::board_named(name, true);
    lemma_retiring_row(pre, name);
    ranking::law_ranked(tables::kept(pre.boards@, p));
    assert forall|i: int| 0 <= i < pre.boards@.len() implies p(#[trigger] pre.boards@[i]) == p(
        mid.boards@[i],
    ) by {
        if i != k {
            assert(mid.boards@[i] == pre.boards@[i]);
        }
    }
    lemma_kept_as_many(pre.boards@, mid.boards@, p, p);
    assert(tables::unique_boards(mid.boards@)) by {
        assert forall|i: int, j: int| 0 <= i < j < mid.boards@.len() implies (
        #[trigger] mid.boards@[i]).board_path@ != (#[trigger] mid.boards@[j]).board_path@ by {
            assert(pre.boards@[i].board_path@ != pre.boards@[j].board_path@);
        }
    }
    lemma_one_named(mid.boards@, k, name);
    let bp = tables::board_at(path);
    workspace_ops::lemma_first_index_same(pre.boards@, mid.boards@, bp);
    let former = mid.retired_roots(k);
    lemma_former_roots(pre, mid, gone, name, actor, note, retirement_id, now, path);
    assert(former == ranking::ranked(
        tables::kept(mid.history@, tables::alias_of(path, retirement_id)),
    ));
    let tp = retirement::is_taken(mid.roots@, path);
    tables::lemma_first_index(former, tp);
    let c = tables::first_index(former, tp);
    if c < former.len() {
        assert(tp(former[c]));
        assert(retirement::is_free(mid.roots@)(former[c]));
    }
    lemma_kept_distinct(former, retirement::is_free(mid.roots@), |a: AliasRow| a.root_path@);
    let free = tables::kept(former, retirement::is_free(mid.roots@));
    assert forall|i: int, j: int| 0 <= i < j < free.len() implies (
    #[trigger] free[i]).root_path@ != (#[trigger] free[j]).root_path@ by {
        let key = |a: AliasRow| a.root_path@;
        assert(key(free[i]) != key(free[j]));
    }
}

/// A project that alone has its name, was retired under an id that no former root of it
/// is recorded with, and is brought back right away: that succeeds, leaves its board as it
/// was, active, but for when it was last used, and leaves the roots as they were; the name
/// finds it again.
pub proof fn law_unretire_undoes_retire(
    pre: Registry,
    mid: Registry,
    post: Registry,
    gone: Result<ProjectRecord, Error>,
    back: Result<ProjectRecord, Error>,
    name: Seq<char>,
    actor: Seq<char>,
    note: Seq<char>,
    retirement_id: Seq<char>,
    actor_again: Seq<char>,
    now: i64,
    later: i64,
)
    requires
        pre.wf(),
        pre.named_boards(name, true).len() == 1,
        forall|i: int|
            0 <= i < pre.history@.len() ==> !tables::alias_of(
                pre.named_boards(name, false)[0].board_path@,
                retirement_id,
            )(#[trigger] pre.history@[i]),
        retirement::retired(pre, mid, gone, name, actor, note, retirement_id, now),
        gone is Ok,
        text::trimmed(actor_again).len() > 0,
        retirement::unretired(mid, post, back, name, actor_again, later),
    ensures
        back is Ok,
        post.boards@ == pre.boards@.update(
            pre.retiring_row(name),
            BoardRow {
                archived: false,
                archived_at: None,
                archived_by: None,
                archived_note: None,
                retirement_id: None,
                last_used_at: later,
                ..pre.boards@[pre.retiring_row(name)]
            },
        ),
        same_roots(pre.roots@, post.roots@),
        post.named_boards(name, false) == seq![post.boards@[pre.retiring_row(name)]],
        post.named_boards(name, true) == seq![post.boards@[pre.retiring_row(name)]],
        workspace::is_project(
            back->Ok_0,
            post.boards@[pre.retiring_row(name)],
            post.roots@,
            post.history@,
            false,
        ),
{
    lemma_retiring_row(pre, name);
    lemma_unretire_succeeds(
        pre,
        mid,
        gone,
        name,
        actor,
        note,
        retirement_id,
        actor_again,
        now,
    );
    let k = pre.retiring_row(name);
    let named = pre.named_boards(name, false)[0];
    let path = named.board_path@;
    workspace_ops::lemma_named_is_registered(pre, name, false, 0);
    let bp = tables::board_at(path);
    tables::lemma_first_index(pre.boards@, bp);
    assert(bp(pre.boards@[k]));
    let m = choose|m: int| 0 <= m < pre.boards@.len() && pre.boards@[m] == named;
    if m != k {
        assert(pre.boards@[m].board_path@ != pre.boards@[k].board_path@);
    }
    assert(pre.boards@[k] == named);
    // The board that comes back is the one that went.
    let k2 = mid.unretiring_row(name);
    let all = mid.named_boards(name, true);
    workspace_ops::lemma_named_is_registered(mid, name, true, 0);
    let mp = tables::board_named(name, true);
    assert(mp(mid.boards@[k]));
    tables::lemma_kept(mid.boards@, mp);
    assert(tables::kept(mid.boards@, mp).contains(mid.boards@[k]));
    lemma_ranked_contains(tables::kept(mid.boards@, mp), mid.boards@[k]);
    assert(all.contains(mid.boards@[k]));
    assert(all[0] == mid.boards@[k]);
    assert(all[0].board_path@ == path);
    workspace_ops::lemma_first_index_same(pre.boards@, mid.boards@, bp);
    assert(k2 == k);
    assert(post.boards@ =~= pre.boards@.update(k, post.boards@[k]));
    lemma_kept_as_many(
        pre.boards@,
        post.boards@,
        tables::board_named(name, true),
        tables::board_named(name, true),
    );
    ranking::law_ranked(tables::kept(pre.boards@, tables::board_named(name, true)));
    assert(tables::unique_boards(post.boards@)) by {
        assert forall|i: int, j: int| 0 <= i < j < post.boards@.len() implies (
        #[trigger] post.boards@[i]).board_path@ != (#[trigger] post.boards@[j]).board_path@ by {
            assert(pre.boards@[i].board_path@ != pre.boards@[j].board_path@);
        }
    }
    lemma_one_named(post.boards@, k, name);
    // The roots that come back are the ones that went.
    let taken = ranking::ranked(tables::kept(pre.roots@, tables::root_on(path)));
    let n = pre.history@.len() as int;
    let ap = tables::alias_of(path, retirement_id);
    let former = mid.retired_roots(k);
    let fp = retirement::is_free(mid.roots@);
    let restored = tables::kept(former, fp);
    let r0 = mid.roots@.len() as int;
    tables::lemma_kept(mid.history@, ap);
    tables::lemma_kept(former, fp);
    tables::lemma_kept(pre.roots@, tables::root_on(path));
    tables::lemma_kept(pre.roots@, tables::root_off(path));
    assert(former == ranking::ranked(tables::kept(mid.history@, ap)));
    assert forall|root: Seq<char>, board: Seq<char>, created_at: i64, last_used_at: i64|
        has_root_row(pre.roots@, root, board, created_at, last_used_at) implies has_root_row(
        post.roots@,
        root,
        board,
        created_at,
        last_used_at,
    ) by {
        let i = choose|i: int| is_root_row(pre.roots@, i, root, board, created_at, last_used_at);
        let x = pre.roots@[i];
        if board != path {
            assert(tables::root_off(path)(x));
            assert(mid.roots@.contains(x));
            let j = choose|j: int| 0 <= j < mid.roots@.len() && mid.roots@[j] == x;
            assert(post.roots@.take(r0)[j] == post.roots@[j]);
            assert(is_root_row(post.roots@, j, root, board, created_at, last_used_at));
        } else {
            assert(tables::root_on(path)(x));
            lemma_ranked_contains(tables::kept(pre.roots@, tables::root_on(path)), x);
            let j = choose|j: int| 0 <= j < taken.len() && taken[j] == x;
            let a = mid.history@[n + j];
            assert(retirement::is_alias_of(
                mid.history@[n + j],
                taken[j],
                name,
                path,
                text::trimmed(actor),
                Some(text::trimmed(note)),
                Some(retirement_id),
                now,
            ));
            assert(ap(a));
            assert(tables::kept(mid.history@, ap).contains(a));
            lemma_ranked_contains(tables::kept(mid.history@, ap), a);
            assert(former.contains(a));
            // Nothing stands at the path of the root in the meantime.
            let t = tables::root_at(a.root_path@);
            tables::lemma_first_index(mid.roots@, t);
            if tables::first_index(mid.roots@, t) < mid.roots@.len() {
                let y = mid.roots@[tables::first_index(mid.roots@, t)];
                assert(pre.roots@.contains(y));
                let z = choose|z: int| 0 <= z < pre.roots@.len() && pre.roots@[z] == y;
                assert(tables::root_off(path)(y));
                if z < i {
                    assert(pre.roots@[z].root_path@ != pre.roots@[i].root_path@);
                } else if z > i {
                    assert(pre.roots@[i].root_path@ != pre.roots@[z].root_path@);
                }
                assert(false);
            }
            assert(fp(a));
            let w = choose|w: int| 0 <= w < former.len() && former[w] == a;
            assert(fp(former[w]));
            assert(restored.contains(a));
            let v = choose|v: int| 0 <= v < restored.len() && restored[v] == a;
            assert(retirement::is_restored_root(post.roots@[r0 + v], restored[v], path));
            assert(is_root_row(post.roots@, r0 + v, root, board, created_at, last_used_at));
        }
    }
    assert forall|root: Seq<char>, board: Seq<char>, created_at: i64, last_used_at: i64|
        has_root_row(post.roots@, root, board, created_at, last_used_at) implies has_root_row(
        pre.roots@,
        root,
        board,
        created_at,
        last_used_at,
    ) by {
        let i = choose|i: int| is_root_row(post.roots@, i, root, board, created_at, last_used_at);
        if i < r0 {
            assert(post.roots@.take(r0)[i] == post.roots@[i]);
            assert(pre.roots@.contains(mid.roots@[i]));
            let j = choose|j: int| 0 <= j < pre.roots@.len() && pre.roots@[j] == mid.roots@[i];
            assert(is_root_row(pre.roots@, j, root, board, created_at, last_used_at));
        } else {
            let v = i - r0;
            let a = restored[v];
            assert(retirement::is_restored_root(post.roots@[r0 + v], restored[v], path));
            assert(former.contains(a));
            lemma_ranked_contains(tables::kept(mid.history@, ap), a);
            assert(tables::kept(mid.history@, ap).contains(a));
            let c = choose|c: int|
                0 <= c < tables::kept(mid.history@, ap).len() && tables::kept(
                    mid.history@,
                    ap,
                )[c] == a;
            assert(ap(tables::kept(mid.history@, ap)[c]));
            assert(mid.history@.contains(a));
            let h = choose|h: int| 0 <= h < mid.history@.len() && mid.history@[h] == a;
            if h < n {
                assert(mid.history@.take(n)[h] == mid.history@[h]);
                assert(!ap(pre.history@[h]));
                assert(false);
            }
            assert(retirement::is_alias_of(
                mid.history@[n + (h - n)],
                taken[h - n],
                name,
                path,
                text::trimmed(actor),
                Some(text::trimmed(note)),
                Some(retirement_id),
                now,
            ));
            let x = taken[h - n];
            assert(taken.contains(x));
            lemma_ranked_contains(tables::kept(pre.roots@, tables::root_on(path)), x);
            let q = choose|q: int|
                0 <= q < tables::kept(pre.roots@, tables::root_on(path)).len() && tables::kept(
                    pre.roots@,
                    tables::root_on(path),
                )[q] == x;
            assert(tables::root_on(path)(tables::kept(pre.roots@, tables::root_on(path))[q]));
            assert(pre.roots@.contains(x));
            let j = choose|j: int| 0 <= j < pre.roots@.len() && pre.roots@[j] == x;
            assert(is_root_row(pre.roots@, j, root, board, created_at, last_used_at));
        }
    }
}

} // verus!
