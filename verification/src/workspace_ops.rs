//! Operations that change boards and their workspace roots.

use vstd::prelude::*;

use crate::clock;
use crate::json;
use crate::outside;
use crate::paths;
use crate::ranking;
use crate::rules;
use crate::tables;
use crate::tables::BoardRow;
use crate::tables::Registry;
use crate::tables::RootRow;
use crate::text;
use crate::text::Error;
use crate::workspace;
use crate::workspace::ProjectRecord;
use crate::workspace::WorkspaceRecord;

verus! {

// --------------------------------------------------------------- shared lemmas

pub(crate) proof fn lemma_first_index_same<T>(s: Seq<T>, t: Seq<T>, p: spec_fn(T) -> bool)
    requires
        s.len() == t.len(),
        forall|k: int| 0 <= k < s.len() ==> p(#[trigger] s[k]) == p(t[k]),
    ensures
        tables::first_index(s, p) == tables::first_index(t, p),
{
    tables::lemma_first_index(s, p);
    let n = tables::first_index(s, p);
    assert forall|k: int| 0 <= k < n implies !p(#[trigger] t[k]) by {
        assert(!p(s[k]));
    }
    if n < s.len() {
        assert(p(s[n]));
    }
    tables::lemma_first_index_is(t, p, n);
}

pub(crate) proof fn lemma_first_index_push<T>(s: Seq<T>, x: T, p: spec_fn(T) -> bool)
    ensures
        tables::first_index(s.push(x), p) == if tables::first_index(s, p) < s.len() || p(x) {
            tables::first_index(s, p)
        } else {
            s.len() as int + 1
        },
{
    tables::lemma_first_index(s, p);
    let n = tables::first_index(s, p);
    let m = if n < s.len() || p(x) {
        n
    } else {
        s.len() as int + 1
    };
    assert forall|k: int| 0 <= k < m implies !p(#[trigger] s.push(x)[k]) by {
        if k < s.len() {
            assert(!p(s[k]));
        }
    }
    tables::lemma_first_index_is(s.push(x), p, m);
}

/// What a sorted selection of boards holds, the table holds.
pub(crate) proof fn lemma_named_is_registered(reg: Registry, name: Seq<char>, include_archived: bool, i: int)
    requires
        0 <= i < reg.named_boards(name, include_archived).len(),
    ensures
        reg.boards@.contains(reg.named_boards(name, include_archived)[i]),
        reg.named_boards(name, include_archived)[i].name@ == name,
        include_archived || !reg.named_boards(name, include_archived)[i].archived,
        0 <= tables::first_index(
            reg.boards@,
            tables::board_at(reg.named_boards(name, include_archived)[i].board_path@),
        ) < reg.boards@.len(),
{
    broadcast use vstd::seq_lib::group_to_multiset_ensures;

    let p = tables::board_named(name, include_archived);
    let selected = tables::kept(reg.boards@, p);
    let sorted = reg.named_boards(name, include_archived);
    let b = sorted[i];
    ranking::law_ranked(selected);
    assert(sorted.contains(b));
    assert(sorted.to_multiset().count(b) > 0);
    assert(selected.contains(b));
    tables::lemma_kept(reg.boards@, p);
    let k = choose|k: int| 0 <= k < selected.len() && selected[k] == b;
    assert(p(selected[k]));
    let q = tables::board_at(b.board_path@);
    tables::lemma_first_index(reg.boards@, q);
    let m = choose|m: int| 0 <= m < reg.boards@.len() && reg.boards@[m] == b;
    assert(q(reg.boards@[m]));
}

// ----------------------------------------------------------------- marking used

/// `post` is `pre` with one root and one board marked used.
pub open spec fn used(pre: Registry, post: Registry, i: int, j: int, now: i64) -> bool {
    &&& post == Registry { roots: post.roots, boards: post.boards, ..pre }
    &&& post.roots@ == pre.roots@.update(i, RootRow { last_used_at: now, ..pre.roots@[i] })
    &&& post.boards@ == pre.boards@.update(j, BoardRow { last_used_at: now, ..pre.boards@[j] })
}

/// `post` is `pre` with one board marked used.
pub open spec fn board_used(pre: Registry, post: Registry, j: int, now: i64) -> bool {
    &&& post == Registry { boards: post.boards, ..pre }
    &&& post.boards@ == pre.boards@.update(j, BoardRow { last_used_at: now, ..pre.boards@[j] })
}

pub(crate) proof fn lemma_boards_same_keys(
    a: Seq<BoardRow>,
    b: Seq<BoardRow>,
)
    requires
        a.len() == b.len(),
        forall|k: int|
            0 <= k < a.len() ==> (#[trigger] a[k]).board_path@ == b[k].board_path@ && a[k].archived
                == b[k].archived,
    ensures
        forall|path: Seq<char>|
            #[trigger] tables::archived_at_path(a, path) == tables::archived_at_path(b, path),
        tables::unique_boards(a) ==> tables::unique_boards(b),
{
    assert forall|path: Seq<char>|
        #[trigger] tables::archived_at_path(a, path) == tables::archived_at_path(b, path) by {
        let p = tables::board_at(path);
        lemma_first_index_same(a, b, p);
        tables::lemma_first_index(a, p);
    }
    if tables::unique_boards(a) {
        assert forall|i: int, j: int| 0 <= i < j < b.len() implies (
        #[trigger] b[i]).board_path@ != (#[trigger] b[j]).board_path@ by {
            assert(a[i].board_path@ != a[j].board_path@);
        }
    }
}

pub(crate) proof fn lemma_used_wf(pre: Registry, post: Registry, i: int, j: int, now: i64)
    requires
        pre.wf(),
        used(pre, post, i, j, now),
        0 <= i < pre.roots@.len(),
        0 <= j < pre.boards@.len(),
    ensures
        post.wf(),
{
    lemma_boards_same_keys(pre.boards@, post.boards@);
    assert forall|a: int, b: int| 0 <= a < b < post.roots@.len() implies (
    #[trigger] post.roots@[a]).root_path@ != (#[trigger] post.roots@[b]).root_path@ by {
        assert(pre.roots@[a].root_path@ != pre.roots@[b].root_path@);
    }
    assert forall|k: int| 0 <= k < post.roots@.len() implies tables::archived_at_path(
        post.boards@,
        (#[trigger] post.roots@[k]).board_path@,
    ) == Some(false) by {
        assert(tables::archived_at_path(pre.boards@, pre.roots@[k].board_path@) == Some(false));
    }
}

impl Registry {
    fn mark_used(&mut self, i: usize, j: usize, now: i64)
        requires
            i < old(self).roots@.len(),
            j < old(self).boards@.len(),
        ensures
            used(*old(self), *final(self), i as int, j as int, now),
    {
        let mut root = self.roots[i].clone();
        root.last_used_at = now;
        self.roots.set(i, root);
        let mut board = self.boards[j].clone();
        board.last_used_at = now;
        self.boards.set(j, board);
    }

    pub(crate) fn mark_board_used(&mut self, j: usize, now: i64)
        requires
            j < old(self).boards@.len(),
        ensures
            board_used(*old(self), *final(self), j as int, now),
    {
        let mut board = self.boards[j].clone();
        board.last_used_at = now;
        self.boards.set(j, board);
    }

    /// What a canonical path resolves to at a given time; what is found is
    /// marked used.
    pub fn resolve_at(
        &mut self,
        workspace: &str,
        now: i64,
    ) -> (r: Result<Option<WorkspaceRecord>, Error>)
        ensures
            resolved(*old(self), *final(self), r, workspace@, now),
            old(self).wf() ==> final(self).wf(),
    {
        match self.find_resolution(workspace) {
            Err(e) => Err(e),
            Ok(None) => Ok(None),
            Ok(Some((i, j))) => {
                self.mark_used(i, j, now);
                proof {
                    if old(self).wf() {
                        lemma_used_wf(*old(self), *self, i as int, j as int, now);
                    }
                }
                Ok(Some(workspace::row(&self.roots[i], &self.boards[j])))
            },
        }
    }

    /// What a canonical path resolves to; what is found is marked used.
    pub fn resolve(&mut self, workspace: &str) -> (r: Result<Option<WorkspaceRecord>, Error>)
        ensures
            exists|now: i64| resolved(*old(self), *final(self), r, workspace@, now),
            old(self).wf() ==> final(self).wf(),
    {
        let now: i64 = clock::now_ms();
        self.resolve_at(workspace, now)
    }

    /// Mark a board used at a given time.
    pub fn touch_board_at(&mut self, board_path: &str, now: i64)
        ensures
            match old(self).board_row(board_path@, true) {
                Some(j) => board_used(*old(self), *final(self), j, now),
                None => *final(self) == *old(self),
            },
            old(self).wf() ==> final(self).wf(),
    {
        let j: usize = tables::find_board(self.boards.as_slice(), board_path);
        if j < self.boards.len() {
            self.mark_board_used(j, now);
            proof {
                lemma_boards_same_keys(old(self).boards@, self.boards@);
            }
        }
    }

    /// Mark a board used.
    pub fn touch_board(&mut self, board_path: &str)
        ensures
            match old(self).board_row(board_path@, true) {
                Some(j) => exists|now: i64| board_used(*old(self), *final(self), j, now),
                None => *final(self) == *old(self),
            },
            old(self).wf() ==> final(self).wf(),
    {
        let now: i64 = clock::now_ms();
        self.touch_board_at(board_path, now)
    }
}

/// What resolving a path at a given time returns and changes.
pub open spec fn resolved(
    pre: Registry,
    post: Registry,
    r: Result<Option<WorkspaceRecord>, Error>,
    path: Seq<char>,
    now: i64,
) -> bool {
    match pre.resolution(path) {
        Err(m) => post == pre && text::refused(r, m),
        Ok(None) => post == pre && r is Ok && r->Ok_0 is None,
        Ok(Some((i, j))) => {
            &&& 0 <= i < pre.roots@.len()
            &&& 0 <= j < pre.boards@.len()
            &&& used(pre, post, i, j, now)
            &&& r is Ok
            &&& r->Ok_0 is Some
            &&& workspace::is_root_record(r->Ok_0->0, post.roots@[i], post.boards@[j])
        },
    }
}

// --------------------------------------------------------------------- register

/// The path of a new board file below the data root.
pub open spec fn new_board_path(data_root: Seq<char>, file: Seq<char>) -> Seq<char> {
    paths::below(paths::below(data_root, "boards"@), file + ".db"@)
}

impl Registry {
    /// Why no board `name` can be added at `path`, with or without a root.
    pub open spec fn insert_refusal(
        self,
        name: Seq<char>,
        path: Seq<char>,
        root: Option<Seq<char>>,
    ) -> Option<Seq<char>> {
        if tables::has_active_name(self.boards@, name, None) {
            Some("a Kanban board is already named "@ + name)
        } else if tables::first_index(self.boards@, tables::board_at(path)) < self.boards@.len() {
            Some("UNIQUE constraint failed: boards.board_path"@)
        } else if root is Some && tables::first_index(self.roots@, tables::root_at(root->0))
            < self.roots@.len() {
            Some("UNIQUE constraint failed: workspace_roots.root_path"@)
        } else {
            None
        }
    }

    /// Why a registration is refused.
    pub open spec fn register_refusal(
        self,
        workspace: Option<Seq<char>>,
        name: Seq<char>,
        force: bool,
        actor: Seq<char>,
        file: Seq<char>,
    ) -> Option<Seq<char>> {
        let path = new_board_path(self.data_root@, file);
        if text::trimmed(actor).len() == 0 {
            Some("author is required"@)
        } else {
            match workspace {
                None => self.insert_refusal(name, path, None),
                Some(root) => match self.exact_rows(root) {
                    Some((i, j)) => if self.boards@[j].name@ != name {
                        Some(
                            root + " is already registered to board "@ + self.boards@[j].name@
                                + "; `init` does not rename boards"@,
                        )
                    } else {
                        None
                    },
                    None => if force {
                        self.insert_refusal(name, path, Some(root))
                    } else {
                        match self.enclosure(root) {
                            Err(m) => Some(m),
                            Ok(Some((i, j))) => Some(
                                root + " is already inside Kanban project "@ + self.boards@[j].name@
                                    + ".\nTo share that board:        kanban workspace attach --to "@
                                    + self.boards@[j].name@
                                    + "\nTo create a separate board: kanban init --name "@ + name
                                    + " --force"@,
                            ),
                            Ok(None) => self.insert_refusal(name, path, Some(root)),
                        }
                    },
                },
            }
        }
    }
}

/// `b` is a board that was just added.
pub open spec fn is_new_board(b: BoardRow, path: Seq<char>, name: Seq<char>, now: i64) -> bool {
    &&& b.board_path@ == path
    &&& b.name@ == name
    &&& b.created_at == now
    &&& b.last_used_at == now
    &&& !b.archived
    &&& b.archived_at is None
    &&& b.archived_by is None
    &&& b.archived_note is None
    &&& b.retirement_id is None
}

/// `x` is a root that was just added.
pub open spec fn is_new_root(x: RootRow, root: Seq<char>, path: Seq<char>, now: i64) -> bool {
    &&& x.root_path@ == root
    &&& x.board_path@ == path
    &&& x.created_at == now
    &&& x.last_used_at == now
}

/// `post` is `pre` with a board and, where one is given, its root.
pub open spec fn board_added(
    pre: Registry,
    post: Registry,
    path: Seq<char>,
    name: Seq<char>,
    root: Option<Seq<char>>,
    now: i64,
) -> bool {
    &&& post == Registry { boards: post.boards, roots: post.roots, events: post.events, ..pre }
    &&& post.boards@.len() == pre.boards@.len() + 1
    &&& post.boards@ == pre.boards@.push(post.boards@.last())
    &&& is_new_board(post.boards@.last(), path, name, now)
    &&& match root {
        Some(root) => {
            &&& post.roots@.len() == pre.roots@.len() + 1
            &&& post.roots@ == pre.roots@.push(post.roots@.last())
            &&& is_new_root(post.roots@.last(), root, path, now)
        },
        None => post.roots@ == pre.roots@,
    }
}

/// What a registration returns and changes.
pub open spec fn registered(
    pre: Registry,
    post: Registry,
    r: Result<ProjectRecord, Error>,
    workspace: Option<Seq<char>>,
    name: Seq<char>,
    force: bool,
    actor: Seq<char>,
    file: Seq<char>,
    now: i64,
) -> bool {
    let path = new_board_path(pre.data_root@, file);
    match pre.register_refusal(workspace, name, force, actor, file) {
        Some(m) => post == pre && text::refused(r, m),
        None => {
            &&& r is Ok
            &&& if workspace is Some && pre.exact_rows(workspace->0) is Some {
                let (i, j) = pre.exact_rows(workspace->0)->0;
                &&& used(pre, Registry { events: pre.events, ..post }, i, j, now)
                &&& tables::audited(
                    pre.events@,
                    post.events@,
                    "workspace:"@ + pre.roots@[i].root_path@,
                    "workspace_registered"@,
                    text::trimmed(actor),
                    json::object(
                        seq![
                            json::member(
                                "boardPath"@,
                                outside::json_text(pre.roots@[i].board_path@),
                            ),
                            json::member("existing"@, "true"@),
                            json::member("name"@, outside::json_text(pre.boards@[j].name@)),
                            json::member("rootPath"@, outside::json_text(pre.roots@[i].root_path@)),
                        ],
                    ),
                    now,
                )
                &&& workspace::is_project(
                    r->Ok_0,
                    post.boards@[j],
                    post.roots@,
                    post.history@,
                    false,
                )
            } else {
                &&& board_added(pre, post, path, name, workspace, now)
                &&& tables::audited(
                    pre.events@,
                    post.events@,
                    "workspace:"@ + path,
                    "workspace_registered"@,
                    text::trimmed(actor),
                    json::object(
                        seq![
                            json::member("boardPath"@, outside::json_text(path)),
                            json::member("name"@, outside::json_text(name)),
                            json::member("rootPath"@, json::optional(workspace)),
                        ],
                    ),
                    now,
                )
                &&& workspace::is_project(
                    r->Ok_0,
                    post.boards@.last(),
                    post.roots@,
                    post.history@,
                    false,
                )
            }
        },
    }
}

pub(crate) proof fn lemma_board_added_wf(
    pre: Registry,
    post: Registry,
    path: Seq<char>,
    name: Seq<char>,
    root: Option<Seq<char>>,
    now: i64,
)
    requires
        pre.wf(),
        board_added(pre, post, path, name, root, now),
        pre.insert_refusal(name, path, root) is None,
    ensures
        post.wf(),
{
    let p = tables::board_at(path);
    tables::lemma_first_index(pre.boards@, p);
    assert forall|i: int, j: int| 0 <= i < j < post.boards@.len() implies (
    #[trigger] post.boards@[i]).board_path@ != (#[trigger] post.boards@[j]).board_path@ by {
        if j == pre.boards@.len() {
            assert(!p(pre.boards@[i]));
        }
    }
    assert forall|q: Seq<char>|
        tables::archived_at_path(pre.boards@, q) == Some(false) implies tables::archived_at_path(
        post.boards@,
        q,
    ) == Some(false) by {
        lemma_first_index_push(pre.boards@, post.boards@.last(), tables::board_at(q));
    }
    lemma_first_index_push(pre.boards@, post.boards@.last(), p);
    assert(tables::archived_at_path(post.boards@, path) == Some(false));
    if root is Some {
        let t = tables::root_at(root->0);
        tables::lemma_first_index(pre.roots@, t);
        assert forall|i: int, j: int| 0 <= i < j < post.roots@.len() implies (
        #[trigger] post.roots@[i]).root_path@ != (#[trigger] post.roots@[j]).root_path@ by {
            if j == pre.roots@.len() {
                assert(!t(pre.roots@[i]));
            }
        }
    }
}

impl Registry {
    /// Why a new board cannot be added, if so.
    pub(crate) fn check_insert(&self, name: &str, path: &str, root: Option<&str>) -> (r: Result<(), Error>)
        ensures
            match self.insert_refusal(name@, path@, text::str_of(root)) {
                Some(m) => text::refused(r, m),
                None => r is Ok,
            },
    {
        if tables::active_named(self.boards.as_slice(), name, None) {
            return text::refuse("a Kanban board is already named ".to_owned().concat(name));
        }
        if tables::find_board(self.boards.as_slice(), path) < self.boards.len() {
            return text::refuse("UNIQUE constraint failed: boards.board_path".to_owned());
        }
        if let Some(root) = root {
            if tables::find_root(self.roots.as_slice(), root) < self.roots.len() {
                return text::refuse(
                    "UNIQUE constraint failed: workspace_roots.root_path".to_owned(),
                );
            }
        }
        Ok(())
    }

    /// Add a board and, where one is given, its root.
    pub(crate) fn add_board(&mut self, name: &str, path: &str, root: Option<&str>, now: i64)
        ensures
            board_added(*old(self), *final(self), path@, name@, text::str_of(root), now),
            final(self).events == old(self).events,
    {
        self.boards.push(
            BoardRow {
                board_path: path.to_owned(),
                name: name.to_owned(),
                created_at: now,
                last_used_at: now,
                archived: false,
                archived_at: None,
                archived_by: None,
                archived_note: None,
                retirement_id: None,
            },
        );
        if let Some(root) = root {
            self.roots.push(
                RootRow {
                    root_path: root.to_owned(),
                    board_path: path.to_owned(),
                    created_at: now,
                    last_used_at: now,
                },
            );
        }
    }

    /// Register a board, or mark the registered one used, with a given file name
    /// and time. The workspace is a canonical path.
    pub fn register_as(
        &mut self,
        workspace: Option<&str>,
        name: &str,
        force: bool,
        actor: &str,
        file: &str,
        now: i64,
    ) -> (r: Result<ProjectRecord, Error>)
        ensures
            registered(
                *old(self),
                *final(self),
                r,
                text::str_of(workspace),
                name@,
                force,
                actor@,
                file@,
                now,
            ),
            old(self).wf() ==> final(self).wf(),
    {
        let by = match rules::validate_rule_actor(actor) {
            Ok(by) => by,
            Err(e) => {
                return Err(e);
            },
        };
        if let Some(root) = workspace {
            match self.find_exact(root) {
                Some((i, j)) => {
                    if !text::same(self.boards[j].name.as_str(), name) {
                        return text::refuse(
                            root.to_owned().concat(" is already registered to board ").concat(
                                self.boards[j].name.as_str(),
                            ).concat("; `init` does not rename boards"),
                        );
                    }
                    return Ok(self.register_again(i, j, by, now));
                },
                None => {
                    if !force {
                        match self.find_enclosure(root) {
                            Err(e) => {
                                return Err(e);
                            },
                            Ok(Some((i, j))) => {
                                let inside = self.boards[j].name.as_str();
                                return text::refuse(
                                    root.to_owned().concat(
                                        " is already inside Kanban project ",
                                    ).concat(inside).concat(
                                        ".\nTo share that board:        kanban workspace attach --to ",
                                    ).concat(inside).concat(
                                        "\nTo create a separate board: kanban init --name ",
                                    ).concat(name).concat(" --force"),
                                );
                            },
                            Ok(None) => {},
                        }
                    }
                },
            }
        }
        let boards_dir = paths::path_below(self.data_root.as_str(), "boards");
        let path = paths::path_below(
            boards_dir.as_str(),
            file.to_owned().concat(".db").as_str(),
        );
        match self.check_insert(name, path.as_str(), workspace) {
            Ok(_) => {},
            Err(e) => {
                return Err(e);
            },
        }
        self.add_board(name, path.as_str(), workspace, now);
        let root_json = match workspace {
            Some(root) => outside::quote_json(root),
            None => "null".to_owned(),
        };
        let members: Vec<String> = vec![
            json::text_member("boardPath", path.as_str()),
            json::text_member("name", name),
            json::write_member("rootPath", root_json.as_str()),
        ];
        proof {
            assert(text::texts(members@) =~= seq![
                json::member("boardPath"@, outside::json_text(path@)),
                json::member("name"@, outside::json_text(name@)),
                json::member("rootPath"@, json::optional(text::str_of(workspace))),
            ]);
        }
        let payload = json::write_object(members.as_slice());
        let subject = "workspace:".to_owned().concat(path.as_str());
        tables::append_registry_event(
            &mut self.events,
            subject.as_str(),
            "workspace_registered",
            by,
            payload.as_str(),
            now,
        );
        proof {
            if old(self).wf() {
                lemma_board_added_wf(
                    *old(self),
                    *self,
                    path@,
                    name@,
                    text::str_of(workspace),
                    now,
                );
            }
        }
        let last: usize = self.boards.len() - 1;
        Ok(self.project_from(&self.boards[last], false))
    }

    /// Mark a registered root and its board used, and audit it.
    fn register_again(&mut self, i: usize, j: usize, by: &str, now: i64) -> (r: ProjectRecord)
        requires
            i < old(self).roots@.len(),
            j < old(self).boards@.len(),
        ensures
            used(
                *old(self),
                Registry { events: old(self).events, ..*final(self) },
                i as int,
                j as int,
                now,
            ),
            tables::audited(
                old(self).events@,
                final(self).events@,
                "workspace:"@ + old(self).roots@[i as int].root_path@,
                "workspace_registered"@,
                by@,
                json::object(
                    seq![
                        json::member(
                            "boardPath"@,
                            outside::json_text(old(self).roots@[i as int].board_path@),
                        ),
                        json::member("existing"@, "true"@),
                        json::member(
                            "name"@,
                            outside::json_text(old(self).boards@[j as int].name@),
                        ),
                        json::member(
                            "rootPath"@,
                            outside::json_text(old(self).roots@[i as int].root_path@),
                        ),
                    ],
                ),
                now,
            ),
            workspace::is_project(
                r,
                final(self).boards@[j as int],
                final(self).roots@,
                final(self).history@,
                false,
            ),
            old(self).wf() ==> final(self).wf(),
    {
        let board_path = self.roots[i].board_path.clone();
        let root_path = self.roots[i].root_path.clone();
        let name = self.boards[j].name.clone();
        self.mark_used(i, j, now);
        proof {
            if old(self).wf() {
                lemma_used_wf(*old(self), *self, i as int, j as int, now);
            }
        }
        let members: Vec<String> = vec![
            json::text_member("boardPath", board_path.as_str()),
            json::write_member("existing", "true"),
            json::text_member("name", name.as_str()),
            json::text_member("rootPath", root_path.as_str()),
        ];
        proof {
            assert(text::texts(members@) =~= seq![
                json::member("boardPath"@, outside::json_text(board_path@)),
                json::member("existing"@, "true"@),
                json::member("name"@, outside::json_text(name@)),
                json::member("rootPath"@, outside::json_text(root_path@)),
            ]);
        }
        let payload = json::write_object(members.as_slice());
        let subject = "workspace:".to_owned().concat(root_path.as_str());
        tables::append_registry_event(
            &mut self.events,
            subject.as_str(),
            "workspace_registered",
            by,
            payload.as_str(),
            now,
        );
        self.project_from(&self.boards[j], false)
    }

    /// Register a board in a canonical workspace path, or without one. The name
    /// of its file is a random UUID.
    pub fn register(
        &mut self,
        workspace: Option<&str>,
        name: &str,
        force: bool,
        actor: &str,
    ) -> (r: Result<ProjectRecord, Error>)
        ensures
            exists|file: Seq<char>, now: i64|
                is_uuid_text(file) && #[trigger] registered(
                    *old(self),
                    *final(self),
                    r,
                    text::str_of(workspace),
                    name@,
                    force,
                    actor@,
                    file,
                    now,
                ),
            old(self).wf() ==> final(self).wf(),
    {
        let file = new_uuid();
        let now: i64 = clock::now_ms();
        self.register_as(workspace, name, force, actor, file.as_str(), now)
    }
}

/// The hyphenated form of 32 hexadecimal digits.
pub open spec fn hyphenated(hex: Seq<char>) -> Seq<char> {
    hex.subrange(0, 8) + "-"@ + hex.subrange(8, 12) + "-"@ + hex.subrange(12, 16) + "-"@
        + hex.subrange(16, 20) + "-"@ + hex.subrange(20, 32)
}

/// The hyphenated form of 32 hexadecimal digits.
pub fn hyphenate(hex: &str) -> (r: String)
    requires
        hex@.len() == 32,
    ensures
        r@ == hyphenated(hex@),
{
    hex.substring_char(0, 8).to_owned().concat("-").concat(hex.substring_char(8, 12)).concat(
        "-",
    ).concat(hex.substring_char(12, 16)).concat("-").concat(hex.substring_char(16, 20)).concat(
        "-",
    ).concat(hex.substring_char(20, 32))
}

/// A UUID in hyphenated form and in lower case.
pub open spec fn is_uuid_text(s: Seq<char>) -> bool {
    exists|hex: Seq<char>| text::is_hex_text(hex, 32) && s == #[trigger] hyphenated(hex)
}

/// A random UUID in hyphenated form.
pub fn new_uuid() -> (r: String)
    ensures
        is_uuid_text(r@),
{
    let hex = outside::random_hex();
    let r = hyphenate(hex.as_str());
    assert(text::is_hex_text(hex@, 32));
    r
}

} // verus!
