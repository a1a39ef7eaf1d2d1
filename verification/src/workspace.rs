//! Boards and their workspace roots: records, lookups and listings.

use vstd::prelude::*;

use crate::paths;
use crate::ranking;
use crate::ranking::Ranked;
use crate::tables;
use crate::tables::AliasRow;
use crate::tables::BoardRow;
use crate::tables::Registry;
use crate::tables::RootRow;
use crate::text;
use crate::text::Error;

verus! {

/// One root of a board, or a board without roots.
#[derive(Debug, Clone)]
pub struct WorkspaceRecord {
    pub root_path: String,
    pub name: String,
    /// The stem of the board file's name.
    pub board_id: String,
    pub board_path: String,
    pub created_at: i64,
    pub last_used_at: i64,
    pub archived: bool,
    pub archived_at: Option<i64>,
    pub archived_by: Option<String>,
    pub archived_note: Option<String>,
    pub rootless: bool,
}

/// A board with all of its roots.
#[derive(Debug, Clone)]
pub struct ProjectRecord {
    pub name: String,
    pub board_path: String,
    pub workspace_roots: Vec<String>,
    pub last_used_at: i64,
    pub archived: bool,
    pub archived_at: Option<i64>,
    pub archived_by: Option<String>,
    pub archived_note: Option<String>,
}

/// A registered root that no longer names the directory it was registered for.
#[derive(Debug, Clone)]
pub struct UnreachableRoot {
    pub name: String,
    pub root_path: String,
    pub board_path: String,
    /// Where the stored path leads today, or nothing when nothing is there.
    pub resolves_to: Option<String>,
}

/// Receipt of adopting an existing board file.
#[derive(Debug, Clone)]
pub struct WorkspaceAdoptReceipt {
    pub project: ProjectRecord,
    pub root_path: Option<String>,
    pub source_board_path: String,
    pub source_sha256: String,
    pub source_bytes: u64,
}

/// What the registry knows of a board path.
#[derive(Debug, Clone, PartialEq, Eq)]
pub enum BoardPathState {
    Active(String),
    Retired { name: String, note: Option<String> },
    External,
}

// -------------------------------------------------------------------- refusals

/// What stands in the way of `action` on a retired project.
pub open spec fn retired_text(
    name: Seq<char>,
    note: Option<Seq<char>>,
    action: Seq<char>,
) -> Seq<char> {
    let head = "Kanban project "@ + name + " is retired"@;
    let tail = "; use `kanban workspace unretire "@ + name + " --as ACTOR` before "@ + action;
    if note is Some && text::trimmed(note->0).len() > 0 {
        head + " (retirement note: "@ + text::trimmed(note->0) + ")"@ + tail
    } else {
        head + tail
    }
}

/// What stands in the way of `action` on a retired project.
pub fn retired_board_message(name: &str, note: Option<&str>, action: &str) -> (r: String)
    ensures
        r@ == retired_text(name@, text::str_of(note), action@),
{
    let mut out = "Kanban project ".to_owned().concat(name).concat(" is retired");
    let tail = "; use `kanban workspace unretire ".to_owned().concat(name).concat(
        " --as ACTOR` before ",
    ).concat(action);
    if let Some(note) = note {
        let note = text::trim(note);
        if !note.is_empty() {
            out = out.concat(" (retirement note: ").concat(note).concat(")");
        }
    }
    out.concat(tail.as_str())
}

// --------------------------------------------------------------------- records

/// `w` shows an active root.
pub open spec fn is_root_record(w: WorkspaceRecord, root: RootRow, board: BoardRow) -> bool {
    &&& w.root_path@ == root.root_path@
    &&& w.name@ == board.name@
    &&& w.board_id@ == paths::board_id_or_empty(root.board_path@)
    &&& w.board_path@ == root.board_path@
    &&& w.created_at == root.created_at
    &&& w.last_used_at == root.last_used_at
    &&& !w.archived
    &&& w.archived_at is None
    &&& w.archived_by is None
    &&& w.archived_note is None
    &&& !w.rootless
}

/// `w` shows a board without roots.
pub open spec fn is_rootless_record(w: WorkspaceRecord, board: BoardRow) -> bool {
    &&& w.root_path@.len() == 0
    &&& w.name@ == board.name@
    &&& w.board_id@ == paths::board_id_or_empty(board.board_path@)
    &&& w.board_path@ == board.board_path@
    &&& w.created_at == board.created_at
    &&& w.last_used_at == board.last_used_at
    &&& w.archived == board.archived
    &&& w.archived_at == if board.archived {
        board.archived_at
    } else {
        None
    }
    &&& text::text_of(w.archived_by) == if board.archived {
        text::text_of(board.archived_by)
    } else {
        None
    }
    &&& text::text_of(w.archived_note) == if board.archived {
        text::text_of(board.archived_note)
    } else {
        None
    }
    &&& w.rootless
}

/// `w` shows a former root.
pub open spec fn is_alias_record(w: WorkspaceRecord, alias: AliasRow) -> bool {
    &&& w.root_path@ == alias.root_path@
    &&& w.name@ == alias.name@
    &&& w.board_id@ == paths::board_id_or_empty(alias.board_path@)
    &&& w.board_path@ == alias.board_path@
    &&& w.created_at == alias.created_at
    &&& w.last_used_at == alias.last_used_at
    &&& w.archived
    &&& w.archived_at == Some(alias.archived_at)
    &&& text::text_of(w.archived_by) == Some(alias.archived_by@)
    &&& text::text_of(w.archived_note) == text::text_of(alias.archived_note)
    &&& !w.rootless
}

/// `p` shows the board with its roots; its retirement only where asked for.
pub open spec fn is_project(
    p: ProjectRecord,
    board: BoardRow,
    roots: Seq<RootRow>,
    history: Seq<AliasRow>,
    with_archive: bool,
) -> bool {
    &&& p.name@ == board.name@
    &&& p.board_path@ == board.board_path@
    &&& text::texts(p.workspace_roots@) == tables::roots_of(
        roots,
        history,
        board.board_path@,
        if with_archive {
            text::text_of(board.retirement_id)
        } else {
            None
        },
    )
    &&& p.last_used_at == board.last_used_at
    &&& p.archived_at == if with_archive {
        board.archived_at
    } else {
        None
    }
    &&& p.archived == p.archived_at is Some
    &&& text::text_of(p.archived_by) == if with_archive {
        text::text_of(board.archived_by)
    } else {
        None
    }
    &&& text::text_of(p.archived_note) == if with_archive {
        text::text_of(board.archived_note)
    } else {
        None
    }
}

/// An active root as a record.
pub fn row(root: &RootRow, board: &BoardRow) -> (r: WorkspaceRecord)
    ensures
        is_root_record(r, *root, *board),
{
    WorkspaceRecord {
        root_path: root.root_path.clone(),
        name: board.name.clone(),
        board_id: paths::board_id_text(root.board_path.as_str()),
        board_path: root.board_path.clone(),
        created_at: root.created_at,
        last_used_at: root.last_used_at,
        archived: false,
        archived_at: None,
        archived_by: None,
        archived_note: None,
        rootless: false,
    }
}

/// A board without roots as a record.
pub fn rootless_row(board: &BoardRow) -> (r: WorkspaceRecord)
    ensures
        is_rootless_record(r, *board),
{
    WorkspaceRecord {
        root_path: String::new(),
        name: board.name.clone(),
        board_id: paths::board_id_text(board.board_path.as_str()),
        board_path: board.board_path.clone(),
        created_at: board.created_at,
        last_used_at: board.last_used_at,
        archived: board.archived,
        archived_at: if board.archived {
            board.archived_at
        } else {
            None
        },
        archived_by: if board.archived {
            board.archived_by.clone()
        } else {
            None
        },
        archived_note: if board.archived {
            board.archived_note.clone()
        } else {
            None
        },
        rootless: true,
    }
}

/// A former root as a record.
pub fn history_row(alias: &AliasRow) -> (r: WorkspaceRecord)
    ensures
        is_alias_record(r, *alias),
{
    WorkspaceRecord {
        root_path: alias.root_path.clone(),
        name: alias.name.clone(),
        board_id: paths::board_id_text(alias.board_path.as_str()),
        board_path: alias.board_path.clone(),
        created_at: alias.created_at,
        last_used_at: alias.last_used_at,
        archived: true,
        archived_at: Some(alias.archived_at),
        archived_by: Some(alias.archived_by.clone()),
        archived_note: alias.archived_note.clone(),
        rootless: false,
    }
}

/// Records stand from the most recently used on.
impl Ranked for WorkspaceRecord {
    open spec fn before(self, other: Self) -> bool {
        self.last_used_at > other.last_used_at
    }

    proof fn lemma_order(a: Self, b: Self, c: Self) {
    }

    fn is_before(&self, other: &Self) -> (r: bool) {
        self.last_used_at > other.last_used_at
    }
}

// --------------------------------------------------------------------- lookups

/// The index of the newest retired alias of `path`: the latest, and of equals
/// the last written.
pub open spec fn latest_alias(history: Seq<AliasRow>, path: Seq<char>) -> Option<int>
    decreases history.len(),
{
    if history.len() == 0 {
        None
    } else {
        let earlier = latest_alias(history.drop_last(), path);
        let last = history.len() - 1;
        if history[last].root_path@ == path && (earlier is None || history[earlier->0].archived_at
            <= history[last].archived_at) {
            Some(last)
        } else {
            earlier
        }
    }
}

/// The newest former root at a path.
pub fn latest_history_root(history: &[AliasRow], path: &str) -> (r: Option<usize>)
    ensures
        match r {
            Some(i) => latest_alias(history@, path@) == Some(i as int) && i < history@.len(),
            None => latest_alias(history@, path@) is None,
        },
{
    let mut best: Option<usize> = None;
    let mut i: usize = 0;
    while i < history.len()
        invariant
            i <= history@.len(),
            match best {
                Some(k) => latest_alias(history@.take(i as int), path@) == Some(k as int) && k < i,
                None => latest_alias(history@.take(i as int), path@) is None,
            },
        decreases history.len() - i,
    {
        proof {
            assert(history@.take(i as int + 1).drop_last() =~= history@.take(i as int));
        }
        let newer = match best {
            None => true,
            Some(k) => history[k].archived_at <= history[i].archived_at,
        };
        if newer && text::same(history[i].root_path.as_str(), path) {
            best = Some(i);
        }
        i = i + 1;
    }
    proof {
        assert(history@.take(history@.len() as int) =~= history@);
    }
    best
}

pub open spec fn is_pair(p: (usize, usize), i: int, j: int) -> bool {
    p.0 == i && p.1 == j
}

impl Registry {
    /// The rows of the active root at `path` and of its board.
    pub open spec fn exact_rows(self, path: Seq<char>) -> Option<(int, int)> {
        let i = tables::first_index(self.roots@, tables::root_at(path));
        if 0 <= i < self.roots@.len() {
            let j = tables::first_index(self.boards@, tables::board_at(self.roots@[i].board_path@));
            if 0 <= j < self.boards@.len() && !self.boards@[j].archived {
                Some((i, j))
            } else {
                None
            }
        } else {
            None
        }
    }

    /// Why `path` cannot be addressed: its board is retired.
    pub open spec fn retired_at(self, path: Seq<char>) -> Option<Seq<char>> {
        match latest_alias(self.history@, path) {
            Some(i) => {
                let alias = self.history@[i];
                if tables::archived_at_path(self.boards@, alias.board_path@) == Some(true) {
                    Some(
                        path + " belongs to "@ + retired_text(
                            alias.name@,
                            text::text_of(alias.archived_note),
                            "addressing it"@,
                        ),
                    )
                } else {
                    None
                }
            },
            None => None,
        }
    }

    /// What `path` resolves to: the nearest active root at or above it, unless a
    /// retired one is nearer.
    pub open spec fn resolution(self, path: Seq<char>) -> Result<Option<(int, int)>, Seq<char>>
        decreases path.len(),
    {
        if self.exact_rows(path) is Some {
            Ok(self.exact_rows(path))
        } else if self.retired_at(path) is Some {
            Err(self.retired_at(path)->0)
        } else {
            match paths::parent_of(path) {
                Some(parent) => if parent.len() < path.len() {
                    self.resolution(parent)
                } else {
                    Ok(None)
                },
                None => Ok(None),
            }
        }
    }

    /// What strictly encloses `path`.
    pub open spec fn enclosure(self, path: Seq<char>) -> Result<Option<(int, int)>, Seq<char>> {
        match paths::parent_of(path) {
            Some(parent) => self.resolution(parent),
            None => Ok(None),
        }
    }

    /// The rows of the active root at a path and of its board.
    pub fn find_exact(&self, path: &str) -> (r: Option<(usize, usize)>)
        ensures
            match r {
                Some((i, j)) => self.exact_rows(path@) == Some((i as int, j as int)) && i
                    < self.roots@.len() && j < self.boards@.len(),
                None => self.exact_rows(path@) is None,
            },
    {
        let i: usize = tables::find_root(self.roots.as_slice(), path);
        if i < self.roots.len() {
            let j: usize = tables::find_board(
                self.boards.as_slice(),
                self.roots[i].board_path.as_str(),
            );
            if j < self.boards.len() && !self.boards[j].archived {
                return Some((i, j));
            }
        }
        None
    }

    fn find_retired(&self, path: &str) -> (r: Option<String>)
        ensures
            text::text_of(r) == self.retired_at(path@),
    {
        match latest_history_root(self.history.as_slice(), path) {
            Some(i) => {
                let alias = &self.history[i];
                match tables::board_archived(self.boards.as_slice(), alias.board_path.as_str()) {
                    Some(true) => {
                        let note = match &alias.archived_note {
                            Some(note) => Some(note.as_str()),
                            None => None,
                        };
                        let message = retired_board_message(
                            alias.name.as_str(),
                            note,
                            "addressing it",
                        );
                        Some(path.to_owned().concat(" belongs to ").concat(message.as_str()))
                    },
                    _ => None,
                }
            },
            None => None,
        }
    }

    /// The rows that a canonical path resolves to.
    pub fn find_resolution(&self, path: &str) -> (r: Result<Option<(usize, usize)>, Error>)
        ensures
            match self.resolution(path@) {
                Err(m) => text::refused(r, m),
                Ok(None) => r is Ok && r->Ok_0 is None,
                Ok(Some((i, j))) => r is Ok && r->Ok_0 is Some && is_pair(r->Ok_0->0, i, j) && i
                    < self.roots@.len() && j < self.boards@.len(),
            },
    {
        let mut cursor: String = path.to_owned();
        loop
            invariant
                self.resolution(path@) == self.resolution(cursor@),
            decreases cursor@.len(),
        {
            if let Some(found) = self.find_exact(cursor.as_str()) {
                return Ok(Some(found));
            }
            if let Some(message) = self.find_retired(cursor.as_str()) {
                return text::refuse(message);
            }
            proof {
                paths::lemma_parent_shorter(cursor@);
            }
            match paths::parent(cursor.as_str()) {
                Some(parent) => {
                    cursor = parent;
                },
                None => {
                    return Ok(None);
                },
            }
        }
    }

    /// The rows of what strictly encloses a canonical path.
    pub fn find_enclosure(&self, path: &str) -> (r: Result<Option<(usize, usize)>, Error>)
        ensures
            match self.enclosure(path@) {
                Err(m) => text::refused(r, m),
                Ok(None) => r is Ok && r->Ok_0 is None,
                Ok(Some((i, j))) => r is Ok && r->Ok_0 is Some && is_pair(r->Ok_0->0, i, j) && i
                    < self.roots@.len() && j < self.boards@.len(),
            },
    {
        match paths::parent(path) {
            Some(parent) => self.find_resolution(parent.as_str()),
            None => Ok(None),
        }
    }

    /// The active root at a canonical path.
    pub fn exact(&self, workspace: &str) -> (r: Option<WorkspaceRecord>)
        ensures
            match self.exact_rows(workspace@) {
                Some((i, j)) => r is Some && is_root_record(
                    r->0,
                    self.roots@[i],
                    self.boards@[j],
                ),
                None => r is None,
            },
    {
        match self.find_exact(workspace) {
            Some((i, j)) => Some(row(&self.roots[i], &self.boards[j])),
            None => None,
        }
    }

    /// The nearest active root strictly above a canonical path.
    pub fn enclosing(&self, workspace: &str) -> (r: Result<Option<WorkspaceRecord>, Error>)
        ensures
            match self.enclosure(workspace@) {
                Err(m) => text::refused(r, m),
                Ok(None) => r is Ok && r->Ok_0 is None,
                Ok(Some((i, j))) => r is Ok && r->Ok_0 is Some && is_root_record(
                    r->Ok_0->0,
                    self.roots@[i],
                    self.boards@[j],
                ),
            },
    {
        match self.find_enclosure(workspace) {
            Ok(Some((i, j))) => Ok(Some(row(&self.roots[i], &self.boards[j]))),
            Ok(None) => Ok(None),
            Err(e) => Err(e),
        }
    }

    /// What a canonical path resolves to, without marking it used.
    pub fn resolve_readonly(&self, workspace: &str) -> (r: Result<Option<WorkspaceRecord>, Error>)
        ensures
            match self.resolution(workspace@) {
                Err(m) => text::refused(r, m),
                Ok(None) => r is Ok && r->Ok_0 is None,
                Ok(Some((i, j))) => r is Ok && r->Ok_0 is Some && is_root_record(
                    r->Ok_0->0,
                    self.roots@[i],
                    self.boards@[j],
                ),
            },
    {
        match self.find_resolution(workspace) {
            Ok(Some((i, j))) => Ok(Some(row(&self.roots[i], &self.boards[j]))),
            Ok(None) => Ok(None),
            Err(e) => Err(e),
        }
    }

    // ---------------------------------------------------------------- projects

    pub(crate) fn project_from(&self, board: &BoardRow, with_archive: bool) -> (r: ProjectRecord)
        ensures
            is_project(r, *board, self.roots@, self.history@, with_archive),
    {
        let retirement = if with_archive {
            match &board.retirement_id {
                Some(id) => Some(id.as_str()),
                None => None,
            }
        } else {
            None
        };
        let workspace_roots = tables::board_roots(
            self.roots.as_slice(),
            self.history.as_slice(),
            board.board_path.as_str(),
            retirement,
        );
        let archived_at = if with_archive {
            board.archived_at
        } else {
            None
        };
        ProjectRecord {
            name: board.name.clone(),
            board_path: board.board_path.clone(),
            workspace_roots,
            last_used_at: board.last_used_at,
            archived: archived_at.is_some(),
            archived_at,
            archived_by: if with_archive {
                board.archived_by.clone()
            } else {
                None
            },
            archived_note: if with_archive {
                board.archived_note.clone()
            } else {
                None
            },
        }
    }

    /// The index of the board at `path` that a lookup finds, or none.
    pub open spec fn board_row(self, path: Seq<char>, include_archived: bool) -> Option<int> {
        let i = tables::first_index(self.boards@, tables::board_at(path));
        if 0 <= i < self.boards@.len() && (include_archived || !self.boards@[i].archived) {
            Some(i)
        } else {
            None
        }
    }

    /// The project of the board at a path; retired boards only where asked for.
    pub fn project_for_board_path_internal(
        &self,
        board_path: &str,
        include_archived: bool,
    ) -> (r: Result<ProjectRecord, Error>)
        ensures
            match self.board_row(board_path@, include_archived) {
                Some(i) => r is Ok && is_project(
                    r->Ok_0,
                    self.boards@[i],
                    self.roots@,
                    self.history@,
                    include_archived,
                ),
                None => text::refused(r, "Query returned no rows"@),
            },
    {
        let i: usize = tables::find_board(self.boards.as_slice(), board_path);
        if i < self.boards.len() && (include_archived || !self.boards[i].archived) {
            Ok(self.project_from(&self.boards[i], include_archived))
        } else {
            text::refuse("Query returned no rows".to_owned())
        }
    }

    pub fn project_for_board_path(&self, board_path: &str) -> (r: Result<ProjectRecord, Error>)
        ensures
            match self.board_row(board_path@, false) {
                Some(i) => r is Ok && is_project(
                    r->Ok_0,
                    self.boards@[i],
                    self.roots@,
                    self.history@,
                    false,
                ),
                None => text::refused(r, "Query returned no rows"@),
            },
    {
        self.project_for_board_path_internal(board_path, false)
    }

    pub fn project_for_board_path_all(&self, board_path: &str) -> (r: Result<ProjectRecord, Error>)
        ensures
            match self.board_row(board_path@, true) {
                Some(i) => r is Ok && is_project(
                    r->Ok_0,
                    self.boards@[i],
                    self.roots@,
                    self.history@,
                    true,
                ),
                None => text::refused(r, "Query returned no rows"@),
            },
    {
        self.project_for_board_path_internal(board_path, true)
    }

    /// Each record shows the board of the same place.
    pub open spec fn are_projects(self, list: Seq<ProjectRecord>, boards: Seq<BoardRow>) -> bool {
        &&& list.len() == boards.len()
        &&& forall|i: int|
            0 <= i < list.len() ==> is_project(
                #[trigger] list[i],
                boards[i],
                self.roots@,
                self.history@,
                true,
            )
    }

    pub(crate) fn projects_from(&self, boards: &[BoardRow]) -> (r: Vec<ProjectRecord>)
        ensures
            self.are_projects(r@, boards@),
    {
        let mut out: Vec<ProjectRecord> = Vec::new();
        let mut i: usize = 0;
        while i < boards.len()
            invariant
                i <= boards@.len(),
                out@.len() == i,
                forall|k: int|
                    0 <= k < i ==> is_project(
                        #[trigger] out@[k],
                        boards@[k],
                        self.roots@,
                        self.history@,
                        true,
                    ),
            decreases boards.len() - i,
        {
            out.push(self.project_from(&boards[i], true));
            i = i + 1;
        }
        out
    }

    /// All projects, from the most recently used on; retired ones only where
    /// asked for.
    pub fn projects_internal(&self, include_archived: bool) -> (r: Vec<ProjectRecord>)
        ensures
            self.are_projects(
                r@,
                ranking::ranked(tables::kept(self.boards@, tables::board_listed(include_archived))),
            ),
    {
        let mut out: Vec<BoardRow> = Vec::new();
        let mut i: usize = 0;
        while i < self.boards.len()
            invariant
                i <= self.boards@.len(),
                out@ == tables::kept(
                    self.boards@.take(i as int),
                    tables::board_listed(include_archived),
                ),
            decreases self.boards.len() - i,
        {
            proof {
                tables::lemma_kept_step(
                    self.boards@,
                    tables::board_listed(include_archived),
                    i as int,
                );
            }
            if include_archived || !self.boards[i].archived {
                out.push(self.boards[i].clone());
            }
            i = i + 1;
        }
        proof {
            assert(self.boards@.take(self.boards@.len() as int) =~= self.boards@);
        }
        let sorted = ranking::sort_ranked(out);
        self.projects_from(sorted.as_slice())
    }

    pub fn projects(&self) -> (r: Vec<ProjectRecord>)
        ensures
            self.are_projects(
                r@,
                ranking::ranked(tables::kept(self.boards@, tables::board_listed(true))),
            ),
    {
        self.projects_internal(true)
    }

    pub fn projects_active(&self) -> (r: Vec<ProjectRecord>)
        ensures
            self.are_projects(
                r@,
                ranking::ranked(tables::kept(self.boards@, tables::board_listed(false))),
            ),
    {
        self.projects_internal(false)
    }

    /// The boards of a name, from the most recently used on.
    pub open spec fn named_boards(self, name: Seq<char>, include_archived: bool) -> Seq<BoardRow> {
        ranking::ranked(tables::kept(self.boards@, tables::board_named(name, include_archived)))
    }

    /// The boards of a name, from the most recently used on.
    pub fn boards_named(&self, name: &str, include_archived: bool) -> (r: Vec<BoardRow>)
        ensures
            r@ == self.named_boards(name@, include_archived),
    {
        let mut out: Vec<BoardRow> = Vec::new();
        let mut i: usize = 0;
        while i < self.boards.len()
            invariant
                i <= self.boards@.len(),
                out@ == tables::kept(
                    self.boards@.take(i as int),
                    tables::board_named(name@, include_archived),
                ),
            decreases self.boards.len() - i,
        {
            proof {
                tables::lemma_kept_step(
                    self.boards@,
                    tables::board_named(name@, include_archived),
                    i as int,
                );
            }
            if text::same(self.boards[i].name.as_str(), name) && (include_archived
                || !self.boards[i].archived) {
                out.push(self.boards[i].clone());
            }
            i = i + 1;
        }
        proof {
            assert(self.boards@.take(self.boards@.len() as int) =~= self.boards@);
        }
        ranking::sort_ranked(out)
    }

    /// The projects of a name, from the most recently used on.
    pub fn projects_by_name(&self, name: &str, include_archived: bool) -> (r: Vec<ProjectRecord>)
        ensures
            self.are_projects(r@, self.named_boards(name@, include_archived)),
    {
        let boards = self.boards_named(name, include_archived);
        self.projects_from(boards.as_slice())
    }

    /// The active projects of a name; there may be none, one or several.
    pub fn by_name(&self, name: &str) -> (r: Vec<ProjectRecord>)
        ensures
            self.are_projects(r@, self.named_boards(name@, false)),
    {
        self.projects_by_name(name, false)
    }

    pub fn by_name_active(&self, name: &str) -> (r: Vec<ProjectRecord>)
        ensures
            self.are_projects(r@, self.named_boards(name@, false)),
    {
        self.by_name(name)
    }

    /// The projects of a name, retired ones among them.
    pub fn by_name_all(&self, name: &str) -> (r: Vec<ProjectRecord>)
        ensures
            self.are_projects(r@, self.named_boards(name@, true)),
    {
        self.projects_by_name(name, true)
    }

    /// What the registry knows of the file that a path leads to, given the files
    /// that the boards' paths lead to, board by board.
    pub fn board_path_state(&self, resolved: &str, targets: &[String]) -> (r: BoardPathState)
        requires
            targets@.len() == self.boards@.len(),
        ensures
            match board_leading_to(
                self.boards@,
                text::texts(targets@),
                resolved@,
                self.boards@.len() as int,
            ) {
                Some(i) => if self.boards@[i].archived {
                    &&& r is Retired
                    &&& r->Retired_name == self.boards@[i].name
                    &&& r->Retired_note == self.boards@[i].archived_note
                } else {
                    r == BoardPathState::Active(self.boards@[i].name)
                },
                None => r is External,
            },
    {
        let ghost leads = text::texts(targets@);
        let mut best: Option<usize> = None;
        let mut i: usize = 0;
        while i < self.boards.len()
            invariant
                i <= self.boards@.len() == targets@.len(),
                leads == text::texts(targets@),
                match best {
                    Some(k) => board_leading_to(self.boards@, leads, resolved@, i as int) == Some(
                        k as int,
                    ) && k < i,
                    None => board_leading_to(self.boards@, leads, resolved@, i as int) is None,
                },
            decreases self.boards.len() - i,
        {
            let nearer = match best {
                None => true,
                Some(k) => text::less(
                    self.boards[i].board_path.as_str(),
                    self.boards[k].board_path.as_str(),
                ),
            };
            if nearer && text::same(targets[i].as_str(), resolved) {
                best = Some(i);
            }
            i = i + 1;
        }
        match best {
            Some(k) => {
                let board = &self.boards[k];
                if board.archived {
                    BoardPathState::Retired {
                        name: board.name.clone(),
                        note: board.archived_note.clone(),
                    }
                } else {
                    BoardPathState::Active(board.name.clone())
                }
            },
            None => BoardPathState::External,
        }
    }
}

/// Of the first `n` boards that lead to `path`, the one whose own path stands
/// first.
pub open spec fn board_leading_to(
    boards: Seq<BoardRow>,
    targets: Seq<Seq<char>>,
    path: Seq<char>,
    n: int,
) -> Option<int>
    decreases n,
{
    if n <= 0 {
        None
    } else {
        let earlier = board_leading_to(boards, targets, path, n - 1);
        if targets[n - 1] == path && (earlier is None || text::text_less(
            boards[n - 1].board_path@,
            boards[earlier->0].board_path@,
        )) {
            Some(n - 1)
        } else {
            earlier
        }
    }
}

} // verus!
