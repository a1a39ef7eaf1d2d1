//! Taking boards and roots out of service, and back.

use vstd::prelude::*;

use crate::clock;
use crate::json;
use crate::outside;
use crate::ranking;
use crate::rules;
use crate::rules::ActiveRuleSelectorError;
use crate::selectors;
use crate::selectors::Fault;
use crate::tables;
use crate::tables::AliasRow;
use crate::tables::BoardRow;
use crate::tables::Registry;
use crate::tables::RootRow;
use crate::text;
use crate::text::Error;
use crate::workspace;
use crate::workspace::ProjectRecord;
use crate::workspace::WorkspaceRecord;
use crate::workspace_ops;

verus! {

// ------------------------------------------------------------------- candidates

/// One project in a list of candidates.
pub open spec fn candidate(name: Seq<char>, roots: Seq<Seq<char>>) -> Seq<char> {
    if roots.len() == 0 {
        name + " (rootless)"@
    } else {
        name + " ["@ + text::joined(roots, ", "@) + "]"@
    }
}

pub open spec fn project_candidate(p: ProjectRecord) -> Seq<char> {
    candidate(p.name@, text::texts(p.workspace_roots@))
}

pub open spec fn project_candidates_text(list: Seq<ProjectRecord>) -> Seq<char> {
    text::joined(list.map_values(|p: ProjectRecord| project_candidate(p)), ", "@)
}

/// The projects between which a name leaves open.
pub fn project_candidates(projects: &[ProjectRecord]) -> (r: String)
    ensures
        r@ == project_candidates_text(projects@),
{
    let ghost wanted = projects@.map_values(|p: ProjectRecord| project_candidate(p));
    let mut out: Vec<String> = Vec::new();
    let mut i: usize = 0;
    while i < projects.len()
        invariant
            i <= projects@.len(),
            wanted == projects@.map_values(|p: ProjectRecord| project_candidate(p)),
            text::texts(out@) == wanted.take(i as int),
        decreases projects.len() - i,
    {
        let project = &projects[i];
        let entry = if project.workspace_roots.len() == 0 {
            project.name.clone().concat(" (rootless)")
        } else {
            let roots = text::join(project.workspace_roots.as_slice(), ", ");
            project.name.clone().concat(" [").concat(roots.as_str()).concat("]")
        };
        let ghost before = out@;
        out.push(entry);
        proof {
            assert(text::texts(out@) =~= text::texts(before).push(entry@));
            assert(wanted.take(i as int + 1) =~= wanted.take(i as int).push(wanted[i as int]));
        }
        i = i + 1;
    }
    proof {
        assert(wanted.take(wanted.len() as int) =~= wanted);
    }
    text::join(out.as_slice(), ", ")
}

impl Registry {
    pub open spec fn board_candidate(self, b: BoardRow) -> Seq<char> {
        candidate(
            b.name@,
            tables::roots_of(
                self.roots@,
                self.history@,
                b.board_path@,
                text::text_of(b.retirement_id),
            ),
        )
    }

    /// The boards between which a name leaves open.
    pub open spec fn candidates(self, boards: Seq<BoardRow>) -> Seq<char> {
        text::joined(boards.map_values(|b: BoardRow| self.board_candidate(b)), ", "@)
    }

    pub(crate) fn board_candidates(&self, boards: &[BoardRow]) -> (r: String)
        ensures
            r@ == self.candidates(boards@),
    {
        let projects = self.projects_from(boards);
        proof {
            assert(projects@.map_values(|p: ProjectRecord| project_candidate(p))
                =~= boards@.map_values(|b: BoardRow| self.board_candidate(b)));
        }
        project_candidates(projects.as_slice())
    }

    /// What is said of several retired boards of one name.
    pub open spec fn many_retired(self, name: Seq<char>) -> Seq<char> {
        let all = self.named_boards(name, true);
        text::decimal(all.len() as int) + " retired Kanban projects are named "@ + name
            + "; use `kanban workspace list --all --json` to inspect their board paths: "@
            + self.candidates(all)
    }

    /// What is said of several active boards of one name.
    pub open spec fn many_active(self, name: Seq<char>) -> Seq<char> {
        let active = self.named_boards(name, false);
        text::decimal(active.len() as int) + " active Kanban projects are named "@ + name
            + "; use `kanban workspace list --all --json` to inspect their board paths: "@
            + self.candidates(active)
    }

    pub(crate) fn many_retired_text(&self, name: &str, all: &[BoardRow]) -> (r: String)
        requires
            all@ == self.named_boards(name@, true),
        ensures
            r@ == self.many_retired(name@),
    {
        text::show_u64(all.len() as u64).concat(" retired Kanban projects are named ").concat(
            name,
        ).concat("; use `kanban workspace list --all --json` to inspect their board paths: ").concat(
            self.board_candidates(all).as_str(),
        )
    }

    pub(crate) fn many_active_text(&self, name: &str, active: &[BoardRow]) -> (r: String)
        requires
            active@ == self.named_boards(name@, false),
        ensures
            r@ == self.many_active(name@),
    {
        text::show_u64(active.len() as u64).concat(" active Kanban projects are named ").concat(
            name,
        ).concat("; use `kanban workspace list --all --json` to inspect their board paths: ").concat(
            self.board_candidates(active).as_str(),
        )
    }
}

// ----------------------------------------------------------------------- retire

pub open spec fn fault_text(f: Fault) -> Seq<char> {
    f.selector + " on "@ + f.rule_id + " -> "@ + text::decimal(f.count) + " active boards"@
}

/// The rules of a sorted list of faults, each once.
pub open spec fn blocking_rules(faults: Seq<Fault>) -> Seq<Seq<char>>
    decreases faults.len(),
{
    if faults.len() == 0 {
        seq![]
    } else {
        let rest = blocking_rules(faults.drop_last());
        if rest.len() > 0 && rest.last() == faults.last().rule_id {
            rest
        } else {
            rest.push(faults.last().rule_id)
        }
    }
}

/// What is said where retiring a board would break selectors.
pub open spec fn retire_blocked(board_name: Seq<char>, faults: Seq<Fault>) -> Seq<char> {
    "cannot retire Kanban project "@ + board_name
        + ": active named rule selectors would become invalid ("@ + text::joined(
        faults.map_values(|f: Fault| fault_text(f)),
        ", "@,
    ) + "); blocking rule IDs: "@ + text::joined(blocking_rules(faults), ", "@)
        + "; update or retire those rules before retiring the workspace"@
}

fn retire_blocked_text(board_name: &str, errors: &[ActiveRuleSelectorError]) -> (r: String)
    ensures
        r@ == retire_blocked(board_name@, selectors::faults_of(errors@)),
{
    let ghost faults = selectors::faults_of(errors@);
    let ghost wanted = faults.map_values(|f: Fault| fault_text(f));
    let mut counts: Vec<String> = Vec::new();
    let mut blockers: Vec<String> = Vec::new();
    let mut i: usize = 0;
    proof {
        assert(text::texts(blockers@) =~= blocking_rules(faults.take(0)));
    }
    while i < errors.len()
        invariant
            i <= errors@.len(),
            faults == selectors::faults_of(errors@),
            wanted == faults.map_values(|f: Fault| fault_text(f)),
            text::texts(counts@) == wanted.take(i as int),
            text::texts(blockers@) == blocking_rules(faults.take(i as int)),
        decreases errors.len() - i,
    {
        let e = &errors[i];
        let entry = e.selector.clone().concat(" on ").concat(e.rule_id.as_str()).concat(
            " -> ",
        ).concat(text::show_i64(e.active_board_count).as_str()).concat(" active boards");
        let ghost before = counts@;
        let ghost ids = blockers@;
        proof {
            assert(faults[i as int] == e@);
            assert(faults.take(i as int + 1).drop_last() =~= faults.take(i as int));
            assert(faults.take(i as int + 1).last() == e@);
            assert(wanted.take(i as int + 1) =~= wanted.take(i as int).push(wanted[i as int]));
            assert(text::texts(ids).len() == ids.len());
            assert(ids.len() > 0 ==> text::texts(ids).last() == ids.last()@);
        }
        counts.push(entry);
        let n: usize = blockers.len();
        if n == 0 || !text::same(blockers[n - 1].as_str(), e.rule_id.as_str()) {
            blockers.push(e.rule_id.clone());
        }
        proof {
            assert(text::texts(counts@) =~= text::texts(before).push(entry@));
            assert(text::texts(ids.push(e.rule_id)) =~= text::texts(ids).push(e.rule_id@));
        }
        i = i + 1;
    }
    proof {
        assert(wanted.take(wanted.len() as int) =~= wanted);
        assert(faults.take(faults.len() as int) =~= faults);
    }
    "cannot retire Kanban project ".to_owned().concat(board_name).concat(
        ": active named rule selectors would become invalid (",
    ).concat(text::join(counts.as_slice(), ", ").as_str()).concat("); blocking rule IDs: ").concat(
        text::join(blockers.as_slice(), ", ").as_str(),
    ).concat("; update or retire those rules before retiring the workspace")
}

impl Registry {
    /// Why a project cannot be retired.
    pub open spec fn retire_refusal(
        self,
        name: Seq<char>,
        actor: Seq<char>,
        note: Seq<char>,
    ) -> Option<Seq<char>> {
        let active = self.named_boards(name, false);
        let all = self.named_boards(name, true);
        if text::trimmed(actor).len() == 0 {
            Some("author is required"@)
        } else if text::trimmed(note).len() == 0 {
            Some("note is required"@)
        } else if active.len() == 0 {
            if all.len() == 0 {
                Some("no Kanban project named "@ + name)
            } else if all.len() == 1 {
                Some(
                    workspace::retired_text(
                        all[0].name@,
                        text::text_of(all[0].archived_note),
                        "retiring it"@,
                    ),
                )
            } else {
                Some(self.many_retired(name))
            }
        } else if active.len() > 1 {
            Some(self.many_active(name))
        } else {
            let faults = selectors::rule_faults(
                self.rules@,
                self.boards@,
                selectors::Scope {
                    only: Some(active[0].name@),
                    excluded: Some(active[0].board_path@),
                },
            );
            if faults.len() > 0 {
                Some(retire_blocked(active[0].name@, faults))
            } else {
                None
            }
        }
    }

    /// The row of the one active board of a name.
    pub open spec fn retiring_row(self, name: Seq<char>) -> int {
        tables::first_index(
            self.boards@,
            tables::board_at(self.named_boards(name, false)[0].board_path@),
        )
    }
}

/// `a` keeps what `root` was.
pub open spec fn is_alias_of(
    a: AliasRow,
    root: RootRow,
    name: Seq<char>,
    board_path: Seq<char>,
    by: Seq<char>,
    note: Option<Seq<char>>,
    retirement_id: Option<Seq<char>>,
    now: i64,
) -> bool {
    &&& a.root_path == root.root_path
    &&& a.name@ == name
    &&& a.board_path@ == board_path
    &&& a.created_at == root.created_at
    &&& a.last_used_at == root.last_used_at
    &&& a.archived_at == now
    &&& a.archived_by@ == by
    &&& text::text_of(a.archived_note) == note
    &&& text::text_of(a.retirement_id) == retirement_id
}

/// `b` is the board `old_row` after its retirement.
pub open spec fn is_retired_board(
    b: BoardRow,
    old_row: BoardRow,
    by: Seq<char>,
    note: Seq<char>,
    retirement_id: Seq<char>,
    now: i64,
) -> bool {
    &&& b == BoardRow {
        archived: true,
        archived_at: Some(now),
        archived_by: b.archived_by,
        archived_note: b.archived_note,
        retirement_id: b.retirement_id,
        ..old_row
    }
    &&& text::text_of(b.archived_by) == Some(by)
    &&& text::text_of(b.archived_note) == Some(note)
    &&& text::text_of(b.retirement_id) == Some(retirement_id)
}

/// What retiring a project returns and changes.
pub open spec fn retired(
    pre: Registry,
    post: Registry,
    r: Result<ProjectRecord, Error>,
    name: Seq<char>,
    actor: Seq<char>,
    note: Seq<char>,
    retirement_id: Seq<char>,
    now: i64,
) -> bool {
    match pre.retire_refusal(name, actor, note) {
        Some(m) => post == pre && text::refused(r, m),
        None => {
            let k = pre.retiring_row(name);
            let path = pre.named_boards(name, false)[0].board_path@;
            let taken = ranking::ranked(tables::kept(pre.roots@, tables::root_on(path)));
            let n = pre.history@.len() as int;
            &&& post == Registry {
                boards: post.boards,
                roots: post.roots,
                history: post.history,
                events: post.events,
                ..pre
            }
            &&& 0 <= k < pre.boards@.len()
            &&& post.boards@ == pre.boards@.update(k, post.boards@[k])
            &&& is_retired_board(
                post.boards@[k],
                pre.boards@[k],
                text::trimmed(actor),
                text::trimmed(note),
                retirement_id,
                now,
            )
            &&& post.roots@ == tables::kept(pre.roots@, tables::root_off(path))
            &&& post.history@.len() == n + taken.len()
            &&& post.history@.take(n) == pre.history@
            &&& forall|i: int|
                0 <= i < taken.len() ==> is_alias_of(
                    #[trigger] post.history@[n + i],
                    taken[i],
                    name,
                    path,
                    text::trimmed(actor),
                    Some(text::trimmed(note)),
                    Some(retirement_id),
                    now,
                )
            &&& tables::audited(
                pre.events@,
                post.events@,
                path,
                "workspace_retired"@,
                text::trimmed(actor),
                json::object(
                    seq![
                        json::member("archivedNote"@, outside::json_text(text::trimmed(note))),
                        json::member("boardPath"@, outside::json_text(path)),
                        json::member("name"@, outside::json_text(name)),
                        json::member("retirementId"@, outside::json_text(retirement_id)),
                        json::member(
                            "workspaceRoots"@,
                            json::array(taken.map_values(|x: RootRow| x.root_path@)),
                        ),
                    ],
                ),
                now,
            )
            &&& r is Ok
            &&& workspace::is_project(
                r->Ok_0,
                post.boards@[k],
                post.roots@,
                post.history@,
                true,
            )
        },
    }
}

proof fn lemma_retired_wf(pre: Registry, post: Registry, k: int, path: Seq<char>)
    requires
        pre.wf(),
        0 <= k < pre.boards@.len(),
        pre.boards@[k].board_path@ == path,
        post.rules == pre.rules,
        post.ledger == pre.ledger,
        post.boards@ == pre.boards@.update(k, post.boards@[k]),
        post.boards@[k].board_path == pre.boards@[k].board_path,
        post.roots@ == tables::kept(pre.roots@, tables::root_off(path)),
    ensures
        post.wf(),
{
    assert forall|i: int, j: int| 0 <= i < j < post.boards@.len() implies (
    #[trigger] post.boards@[i]).board_path@ != (#[trigger] post.boards@[j]).board_path@ by {
        assert(pre.boards@[i].board_path@ != pre.boards@[j].board_path@);
    }
    lemma_kept_unique(pre.roots@, path);
    tables::lemma_kept(pre.roots@, tables::root_off(path));
    assert forall|i: int| 0 <= i < post.roots@.len() implies tables::archived_at_path(
        post.boards@,
        (#[trigger] post.roots@[i]).board_path@,
    ) == Some(false) by {
        let p = tables::board_at(post.roots@[i].board_path@);
        assert(tables::root_off(path)(post.roots@[i]));
        let m = choose|m: int| 0 <= m < pre.roots@.len() && pre.roots@[m] == post.roots@[i];
        assert(tables::archived_at_path(pre.boards@, pre.roots@[m].board_path@) == Some(false));
        workspace_ops::lemma_first_index_same(pre.boards@, post.boards@, p);
        tables::lemma_first_index(pre.boards@, p);
    }
}

proof fn lemma_kept_unique(roots: Seq<RootRow>, path: Seq<char>)
    requires
        tables::unique_roots(roots),
    ensures
        tables::unique_roots(tables::kept(roots, tables::root_off(path))),
    decreases roots.len(),
{
    if roots.len() > 0 {
        let rest = roots.drop_last();
        assert(tables::unique_roots(rest)) by {
            assert forall|i: int, j: int| 0 <= i < j < rest.len() implies (
            #[trigger] rest[i]).root_path@ != (#[trigger] rest[j]).root_path@ by {
                assert(roots[i].root_path@ != roots[j].root_path@);
            }
        }
        lemma_kept_unique(rest, path);
        let p = tables::root_off(path);
        tables::lemma_kept(rest, p);
        let t = tables::kept(roots, p);
        assert forall|i: int, j: int| 0 <= i < j < t.len() implies (#[trigger] t[i]).root_path@ != (
        #[trigger] t[j]).root_path@ by {
            if j == tables::kept(rest, p).len() {
                assert(rest.contains(t[i]));
                let m = choose|m: int| 0 <= m < rest.len() && rest[m] == t[i];
                assert(roots[m].root_path@ != roots[roots.len() - 1].root_path@);
            }
        }
    }
}

impl Registry {
    fn roots_without(&self, path: &str) -> (r: Vec<RootRow>)
        ensures
            r@ == tables::kept(self.roots@, tables::root_off(path@)),
    {
        let mut out: Vec<RootRow> = Vec::new();
        let mut i: usize = 0;
        while i < self.roots.len()
            invariant
                i <= self.roots@.len(),
                out@ == tables::kept(self.roots@.take(i as int), tables::root_off(path@)),
            decreases self.roots.len() - i,
        {
            proof {
                tables::lemma_kept_step(self.roots@, tables::root_off(path@), i as int);
            }
            if !text::same(self.roots[i].board_path.as_str(), path) {
                out.push(self.roots[i].clone());
            }
            i = i + 1;
        }
        proof {
            assert(self.roots@.take(self.roots@.len() as int) =~= self.roots@);
        }
        out
    }

    /// The one active board of a name that may be retired.
    fn check_retire(&self, name: &str, actor: &str, note: &str) -> (r: Result<BoardRow, Error>)
        ensures
            match self.retire_refusal(name@, actor@, note@) {
                Some(m) => text::refused(r, m),
                None => r is Ok && self.named_boards(name@, false).len() == 1 && r->Ok_0
                    == self.named_boards(name@, false)[0] && text::trimmed(actor@).len() > 0,
            },
    {
        match rules::validate_rule_actor(actor) {
            Ok(_) => {},
            Err(e) => {
                return Err(e);
            },
        }
        if text::trim(note).is_empty() {
            return text::refuse("note is required".to_owned());
        }
        let active = self.boards_named(name, false);
        if active.len() == 0 {
            let all = self.boards_named(name, true);
            if all.len() == 0 {
                return text::refuse("no Kanban project named ".to_owned().concat(name));
            }
            if all.len() == 1 {
                let note = match &all[0].archived_note {
                    Some(note) => Some(note.as_str()),
                    None => None,
                };
                return text::refuse(
                    workspace::retired_board_message(all[0].name.as_str(), note, "retiring it"),
                );
            }
            return text::refuse(self.many_retired_text(name, all.as_slice()));
        }
        if active.len() > 1 {
            return text::refuse(self.many_active_text(name, active.as_slice()));
        }
        let board = active[0].clone();
        let errors = selectors::active_named_selector_errors(
            self.rules.as_slice(),
            self.boards.as_slice(),
            Some(board.name.as_str()),
            Some(board.board_path.as_str()),
        );
        proof {
            assert(selectors::faults_of(errors@).len() == errors@.len());
        }
        if errors.len() > 0 {
            return text::refuse(retire_blocked_text(board.name.as_str(), errors.as_slice()));
        }
        Ok(board)
    }

    /// Retire the active project of a name, with a given retirement id and time.
    pub fn retire_as(
        &mut self,
        name: &str,
        actor: &str,
        note: &str,
        retirement_id: &str,
        now: i64,
    ) -> (r: Result<ProjectRecord, Error>)
        ensures
            retired(*old(self), *final(self), r, name@, actor@, note@, retirement_id@, now),
            old(self).wf() ==> final(self).wf(),
    {
        let board = match self.check_retire(name, actor, note) {
            Ok(board) => board,
            Err(e) => {
                return Err(e);
            },
        };
        let by = text::trim(actor);
        let note = text::trim(note);
        let path = board.board_path.clone();
        proof {
            workspace_ops::lemma_named_is_registered(*self, name@, false, 0);
        }
        let k: usize = tables::find_board(self.boards.as_slice(), path.as_str());
        let taken = tables::sorted_roots(self.roots.as_slice(), path.as_str());
        let ghost pre = *self;
        let ghost n = self.history@.len() as int;
        let mut paths: Vec<String> = Vec::new();
        let mut i: usize = 0;
        let ghost wanted = taken@.map_values(|x: RootRow| x.root_path@);
        while i < taken.len()
            invariant
                i <= taken@.len(),
                n == pre.history@.len(),
                *self == (Registry { history: self.history, ..pre }),
                self.history@.len() == n + i,
                self.history@.take(n) == pre.history@,
                forall|m: int|
                    0 <= m < i ==> is_alias_of(
                        #[trigger] self.history@[n + m],
                        taken@[m],
                        name@,
                        path@,
                        by@,
                        Some(note@),
                        Some(retirement_id@),
                        now,
                    ),
                wanted == taken@.map_values(|x: RootRow| x.root_path@),
                text::texts(paths@) == wanted.take(i as int),
            decreases taken.len() - i,
        {
            let root = &taken[i];
            let ghost before = self.history@;
            let ghost earlier = paths@;
            self.history.push(
                AliasRow {
                    root_path: root.root_path.clone(),
                    name: name.to_owned(),
                    board_path: path.clone(),
                    created_at: root.created_at,
                    last_used_at: root.last_used_at,
                    archived_at: now,
                    archived_by: by.to_owned(),
                    archived_note: Some(note.to_owned()),
                    retirement_id: Some(retirement_id.to_owned()),
                },
            );
            paths.push(root.root_path.clone());
            proof {
                assert(self.history@.take(n) =~= before.take(n));
                assert(text::texts(paths@) =~= text::texts(earlier).push(root.root_path@));
                assert(wanted.take(i as int + 1) =~= wanted.take(i as int).push(wanted[i as int]));
                assert forall|m: int| 0 <= m < i + 1 implies is_alias_of(
                    #[trigger] self.history@[n + m],
                    taken@[m],
                    name@,
                    path@,
                    by@,
                    Some(note@),
                    Some(retirement_id@),
                    now,
                ) by {
                    if m < i {
                        assert(self.history@[n + m] == before[n + m]);
                    }
                }
            }
            i = i + 1;
        }
        proof {
            assert(wanted.take(wanted.len() as int) =~= wanted);
        }
        let mut retired_board = self.boards[k].clone();
        retired_board.archived = true;
        retired_board.archived_at = Some(now);
        retired_board.archived_by = Some(by.to_owned());
        retired_board.archived_note = Some(note.to_owned());
        retired_board.retirement_id = Some(retirement_id.to_owned());
        self.boards.set(k, retired_board);
        let remaining = self.roots_without(path.as_str());
        self.roots = remaining;
        let root_list = json::write_array(paths.as_slice());
        let members: Vec<String> = vec![
            json::text_member("archivedNote", note),
            json::text_member("boardPath", path.as_str()),
            json::text_member("name", name),
            json::text_member("retirementId", retirement_id),
            json::write_member("workspaceRoots", root_list.as_str()),
        ];
        proof {
            assert(text::texts(members@) =~= seq![
                json::member("archivedNote"@, outside::json_text(note@)),
                json::member("boardPath"@, outside::json_text(path@)),
                json::member("name"@, outside::json_text(name@)),
                json::member("retirementId"@, outside::json_text(retirement_id@)),
                json::member("workspaceRoots"@, json::array(wanted)),
            ]);
        }
        let payload = json::write_object(members.as_slice());
        tables::append_registry_event(
            &mut self.events,
            path.as_str(),
            "workspace_retired",
            by,
            payload.as_str(),
            now,
        );
        proof {
            if pre.wf() {
                lemma_retired_wf(pre, *self, k as int, path@);
            }
        }
        Ok(self.project_from(&self.boards[k], true))
    }

    /// Retire the active project of a name, under a random id of 32 hexadecimal digits.
    pub fn retire(&mut self, name: &str, actor: &str, note: &str) -> (r: Result<
        ProjectRecord,
        Error,
    >)
        ensures
            exists|retirement_id: Seq<char>, now: i64|
                text::is_hex_text(retirement_id, 32) && #[trigger] retired(*old(self), *final(self), r, name@, actor@, note@, retirement_id, now),
            old(self).wf() ==> final(self).wf(),
    {
        let retirement_id = outside::random_hex();
        let now: i64 = clock::now_ms();
        self.retire_as(name, actor, note, retirement_id.as_str(), now)
    }
}

// --------------------------------------------------------------------- unretire

/// No active root stands at the path of the former one.
pub open spec fn is_free(roots: Seq<RootRow>) -> spec_fn(AliasRow) -> bool {
    |a: AliasRow| tables::first_index(roots, tables::root_at(a.root_path@)) >= roots.len()
}

/// Another board's active root stands at the path of the former one.
pub open spec fn is_taken(roots: Seq<RootRow>, board_path: Seq<char>) -> spec_fn(
    AliasRow,
) -> bool {
    |a: AliasRow|
        {
            let i = tables::first_index(roots, tables::root_at(a.root_path@));
            0 <= i < roots.len() && roots[i].board_path@ != board_path
        }
}

/// No two former roots are at one path.
pub open spec fn distinct_paths(list: Seq<AliasRow>) -> bool {
    forall|i: int, j: int|
        0 <= i < j < list.len() ==> (#[trigger] list[i]).root_path@ != (
        #[trigger] list[j]).root_path@
}

impl Registry {
    /// The row of the one retired board of a name.
    pub open spec fn unretiring_row(self, name: Seq<char>) -> int {
        tables::first_index(
            self.boards@,
            tables::board_at(self.named_boards(name, true)[0].board_path@),
        )
    }

    /// The former roots that the last retirement of a board took.
    pub open spec fn retired_roots(self, k: int) -> Seq<AliasRow> {
        ranking::ranked(
            tables::kept(
                self.history@,
                tables::alias_of(
                    self.boards@[k].board_path@,
                    text::text_of(self.boards@[k].retirement_id)->0,
                ),
            ),
        )
    }

    /// Why a project cannot be brought back.
    pub open spec fn unretire_refusal(
        self,
        name: Seq<char>,
        actor: Seq<char>,
    ) -> Option<Seq<char>> {
        let active = self.named_boards(name, false);
        let all = self.named_boards(name, true);
        if text::trimmed(actor).len() == 0 {
            Some("author is required"@)
        } else if active.len() == 1 {
            Some("Kanban project "@ + active[0].name@ + " is already active"@)
        } else if active.len() > 1 {
            Some(self.many_active(name))
        } else if all.len() == 0 {
            Some("no retired Kanban project named "@ + name)
        } else if all.len() > 1 {
            Some(self.many_retired(name))
        } else {
            let k = self.unretiring_row(name);
            let board = self.boards@[k];
            if board.retirement_id is None {
                Some("retired board is missing retirement id"@)
            } else {
                let former = self.retired_roots(k);
                let c = tables::first_index(former, is_taken(self.roots@, board.board_path@));
                if 0 <= c < former.len() {
                    let holder = self.roots@[tables::first_index(
                        self.roots@,
                        tables::root_at(former[c].root_path@),
                    )];
                    Some(
                        former[c].root_path@ + " is already the active root of "@
                            + holder.board_path@ + ", so "@ + all[0].name@
                            + " cannot be unretired"@,
                    )
                } else if !distinct_paths(tables::kept(former, is_free(self.roots@))) {
                    Some("UNIQUE constraint failed: workspace_roots.root_path"@)
                } else {
                    None
                }
            }
        }
    }
}

/// `x` is the former root `a`, in service again.
pub open spec fn is_restored_root(x: RootRow, a: AliasRow, board_path: Seq<char>) -> bool {
    &&& x.root_path == a.root_path
    &&& x.board_path@ == board_path
    &&& x.created_at == a.created_at
    &&& x.last_used_at == a.last_used_at
}

/// What bringing a project back returns and changes.
pub open spec fn unretired(
    pre: Registry,
    post: Registry,
    r: Result<ProjectRecord, Error>,
    name: Seq<char>,
    actor: Seq<char>,
    now: i64,
) -> bool {
    match pre.unretire_refusal(name, actor) {
        Some(m) => post == pre && text::refused(r, m),
        None => {
            let k = pre.unretiring_row(name);
            let board = pre.boards@[k];
            let restored = tables::kept(pre.retired_roots(k), is_free(pre.roots@));
            let n = pre.roots@.len() as int;
            &&& post == Registry {
                boards: post.boards,
                roots: post.roots,
                events: post.events,
                ..pre
            }
            &&& 0 <= k < pre.boards@.len()
            &&& post.boards@ == pre.boards@.update(
                k,
                BoardRow {
                    archived: false,
                    archived_at: None,
                    archived_by: None,
                    archived_note: None,
                    retirement_id: None,
                    last_used_at: now,
                    ..board
                },
            )
            &&& post.roots@.len() == n + restored.len()
            &&& post.roots@.take(n) == pre.roots@
            &&& forall|i: int|
                0 <= i < restored.len() ==> is_restored_root(
                    #[trigger] post.roots@[n + i],
                    restored[i],
                    board.board_path@,
                )
            &&& tables::audited(
                pre.events@,
                post.events@,
                board.board_path@,
                "workspace_unretired"@,
                text::trimmed(actor),
                json::object(
                    seq![
                        json::member("boardPath"@, outside::json_text(board.board_path@)),
                        json::member("name"@, outside::json_text(name)),
                        json::member(
                            "restoredRoots"@,
                            json::array(restored.map_values(|a: AliasRow| a.root_path@)),
                        ),
                        json::member(
                            "retirementId"@,
                            outside::json_text(board.retirement_id->0@),
                        ),
                    ],
                ),
                now,
            )
            &&& r is Ok
            &&& workspace::is_project(
                r->Ok_0,
                post.boards@[k],
                post.roots@,
                post.history@,
                false,
            )
        },
    }
}

proof fn lemma_unretired_wf(pre: Registry, post: Registry, k: int, restored: Seq<AliasRow>)
    requires
        pre.wf(),
        0 <= k < pre.boards@.len(),
        post.rules == pre.rules,
        post.ledger == pre.ledger,
        post.boards@ == pre.boards@.update(k, post.boards@[k]),
        post.boards@[k].board_path == pre.boards@[k].board_path,
        !post.boards@[k].archived,
        distinct_paths(restored),
        forall|i: int| 0 <= i < restored.len() ==> is_free(pre.roots@)(#[trigger] restored[i]),
        post.roots@.len() == pre.roots@.len() + restored.len(),
        post.roots@.take(pre.roots@.len() as int) == pre.roots@,
        forall|i: int|
            0 <= i < restored.len() ==> is_restored_root(
                #[trigger] post.roots@[pre.roots@.len() + i],
                restored[i],
                pre.boards@[k].board_path@,
            ),
    ensures
        post.wf(),
{
    let n = pre.roots@.len() as int;
    assert forall|i: int, j: int| 0 <= i < j < post.boards@.len() implies (
    #[trigger] post.boards@[i]).board_path@ != (#[trigger] post.boards@[j]).board_path@ by {
        assert(pre.boards@[i].board_path@ != pre.boards@[j].board_path@);
    }
    assert forall|i: int| 0 <= i < n implies pre.roots@[i] == #[trigger] post.roots@[i] by {
        assert(post.roots@.take(n)[i] == post.roots@[i]);
    }
    assert forall|i: int, j: int| 0 <= i < j < post.roots@.len() implies (
    #[trigger] post.roots@[i]).root_path@ != (#[trigger] post.roots@[j]).root_path@ by {
        if j < n {
            assert(pre.roots@[i].root_path@ != pre.roots@[j].root_path@);
        } else {
            let b = restored[j - n];
            assert(is_restored_root(post.roots@[n + (j - n)], b, pre.boards@[k].board_path@));
            if i < n {
                assert(is_free(pre.roots@)(b));
                tables::lemma_first_index(pre.roots@, tables::root_at(b.root_path@));
                assert(!tables::root_at(b.root_path@)(pre.roots@[i]));
            } else {
                let a = restored[i - n];
                assert(is_restored_root(post.roots@[n + (i - n)], a, pre.boards@[k].board_path@));
                assert(a.root_path@ != b.root_path@);
            }
        }
    }
    assert forall|i: int| 0 <= i < post.roots@.len() implies tables::archived_at_path(
        post.boards@,
        (#[trigger] post.roots@[i]).board_path@,
    ) == Some(false) by {
        let p = tables::board_at(post.roots@[i].board_path@);
        workspace_ops::lemma_first_index_same(pre.boards@, post.boards@, p);
        tables::lemma_first_index(pre.boards@, p);
        if i < n {
            assert(tables::archived_at_path(pre.boards@, pre.roots@[i].board_path@) == Some(false));
        } else {
            assert(is_restored_root(
                post.roots@[n + (i - n)],
                restored[i - n],
                pre.boards@[k].board_path@,
            ));
            assert(p(pre.boards@[k]));
            let m = tables::first_index(pre.boards@, p);
            if m != k {
                assert(pre.boards@[m].board_path@ != pre.boards@[k].board_path@);
            }
        }
    }
}

impl Registry {
    /// The former roots that are free again, or why they cannot all come back.
    fn check_restore(&self, former: &[AliasRow], board_path: &str, name: &str) -> (r: Result<
        Vec<AliasRow>,
        Error,
    >)
        ensures
            ({
                let c = tables::first_index(former@, is_taken(self.roots@, board_path@));
                let free = tables::kept(former@, is_free(self.roots@));
                if 0 <= c < former@.len() {
                    text::refused(
                        r,
                        former@[c].root_path@ + " is already the active root of "@
                            + self.roots@[tables::first_index(
                            self.roots@,
                            tables::root_at(former@[c].root_path@),
                        )].board_path@ + ", so "@ + name@ + " cannot be unretired"@,
                    )
                } else if !distinct_paths(free) {
                    text::refused(r, "UNIQUE constraint failed: workspace_roots.root_path"@)
                } else {
                    r is Ok && r->Ok_0@ == free
                }
            }),
    {
        let ghost taken = is_taken(self.roots@, board_path@);
        let mut free: Vec<AliasRow> = Vec::new();
        let mut i: usize = 0;
        while i < former.len()
            invariant
                i <= former@.len(),
                taken == is_taken(self.roots@, board_path@),
                forall|k: int| 0 <= k < i ==> !taken(#[trigger] former@[k]),
                free@ == tables::kept(former@.take(i as int), is_free(self.roots@)),
            decreases former.len() - i,
        {
            proof {
                tables::lemma_kept_step(former@, is_free(self.roots@), i as int);
            }
            let at: usize = tables::find_root(
                self.roots.as_slice(),
                former[i].root_path.as_str(),
            );
            if at < self.roots.len() {
                if !text::same(self.roots[at].board_path.as_str(), board_path) {
                    proof {
                        assert(taken(former@[i as int]));
                        tables::lemma_first_index_is(former@, taken, i as int);
                    }
                    return text::refuse(
                        former[i].root_path.clone().concat(" is already the active root of ").concat(
                            self.roots[at].board_path.as_str(),
                        ).concat(", so ").concat(name).concat(" cannot be unretired"),
                    );
                }
            } else {
                free.push(former[i].clone());
            }
            i = i + 1;
        }
        proof {
            assert(former@.take(former@.len() as int) =~= former@);
            tables::lemma_first_index_is(former@, taken, former@.len() as int);
        }
        if !has_distinct_paths(free.as_slice()) {
            return text::refuse("UNIQUE constraint failed: workspace_roots.root_path".to_owned());
        }
        Ok(free)
    }

    /// Bring the retired project of a name back at a given time.
    pub fn unretire_at(&mut self, name: &str, actor: &str, now: i64) -> (r: Result<
        ProjectRecord,
        Error,
    >)
        ensures
            unretired(*old(self), *final(self), r, name@, actor@, now),
            old(self).wf() ==> final(self).wf(),
    {
        let by = match rules::validate_rule_actor(actor) {
            Ok(by) => by,
            Err(e) => {
                return Err(e);
            },
        };
        let active = self.boards_named(name, false);
        if active.len() == 1 {
            return text::refuse(
                "Kanban project ".to_owned().concat(active[0].name.as_str()).concat(
                    " is already active",
                ),
            );
        }
        if active.len() > 1 {
            return text::refuse(self.many_active_text(name, active.as_slice()));
        }
        let all = self.boards_named(name, true);
        if all.len() == 0 {
            return text::refuse("no retired Kanban project named ".to_owned().concat(name));
        }
        if all.len() > 1 {
            return text::refuse(self.many_retired_text(name, all.as_slice()));
        }
        proof {
            workspace_ops::lemma_named_is_registered(*self, name@, true, 0);
        }
        let k: usize = tables::find_board(self.boards.as_slice(), all[0].board_path.as_str());
        let board = self.boards[k].clone();
        let retirement_id = match &board.retirement_id {
            Some(id) => id.clone(),
            None => {
                return text::refuse("retired board is missing retirement id".to_owned());
            },
        };
        let path = board.board_path.clone();
        let former = tables::sorted_aliases(
            self.history.as_slice(),
            path.as_str(),
            retirement_id.as_str(),
        );
        let restored = match self.check_restore(
            former.as_slice(),
            path.as_str(),
            all[0].name.as_str(),
        ) {
            Ok(restored) => restored,
            Err(e) => {
                return Err(e);
            },
        };
        let ghost pre = *self;
        let ghost n = self.roots@.len() as int;
        let ghost wanted = restored@.map_values(|a: AliasRow| a.root_path@);
        let mut paths: Vec<String> = Vec::new();
        let mut i: usize = 0;
        while i < restored.len()
            invariant
                i <= restored@.len(),
                n == pre.roots@.len(),
                *self == (Registry { roots: self.roots, ..pre }),
                self.roots@.len() == n + i,
                self.roots@.take(n) == pre.roots@,
                forall|m: int|
                    0 <= m < i ==> is_restored_root(
                        #[trigger] self.roots@[n + m],
                        restored@[m],
                        path@,
                    ),
                wanted == restored@.map_values(|a: AliasRow| a.root_path@),
                text::texts(paths@) == wanted.take(i as int),
            decreases restored.len() - i,
        {
            let ghost before = self.roots@;
            let ghost earlier = paths@;
            self.roots.push(
                RootRow {
                    root_path: restored[i].root_path.clone(),
                    board_path: path.clone(),
                    created_at: restored[i].created_at,
                    last_used_at: restored[i].last_used_at,
                },
            );
            paths.push(restored[i].root_path.clone());
            proof {
                assert(self.roots@.take(n) =~= before.take(n));
                assert(text::texts(paths@) =~= text::texts(earlier).push(
                    restored@[i as int].root_path@,
                ));
                assert(wanted.take(i as int + 1) =~= wanted.take(i as int).push(wanted[i as int]));
                assert forall|m: int| 0 <= m < i + 1 implies is_restored_root(
                    #[trigger] self.roots@[n + m],
                    restored@[m],
                    path@,
                ) by {
                    if m < i {
                        assert(self.roots@[n + m] == before[n + m]);
                    }
                }
            }
            i = i + 1;
        }
        proof {
            assert(wanted.take(wanted.len() as int) =~= wanted);
        }
        let mut active_board = self.boards[k].clone();
        active_board.archived = false;
        active_board.archived_at = None;
        active_board.archived_by = None;
        active_board.archived_note = None;
        active_board.retirement_id = None;
        active_board.last_used_at = now;
        self.boards.set(k, active_board);
        let root_list = json::write_array(paths.as_slice());
        let members: Vec<String> = vec![
            json::text_member("boardPath", path.as_str()),
            json::text_member("name", name),
            json::write_member("restoredRoots", root_list.as_str()),
            json::text_member("retirementId", retirement_id.as_str()),
        ];
        proof {
            assert(text::texts(members@) =~= seq![
                json::member("boardPath"@, outside::json_text(path@)),
                json::member("name"@, outside::json_text(name@)),
                json::member("restoredRoots"@, json::array(wanted)),
                json::member("retirementId"@, outside::json_text(retirement_id@)),
            ]);
        }
        let payload = json::write_object(members.as_slice());
        tables::append_registry_event(
            &mut self.events,
            path.as_str(),
            "workspace_unretired",
            by,
            payload.as_str(),
            now,
        );
        proof {
            if pre.wf() {
                tables::lemma_kept(former@, is_free(pre.roots@));
                lemma_unretired_wf(pre, *self, k as int, restored@);
            }
        }
        Ok(self.project_from(&self.boards[k], false))
    }

    /// Bring the retired project of a name back.
    pub fn unretire(&mut self, name: &str, actor: &str) -> (r: Result<ProjectRecord, Error>)
        ensures
            exists|now: i64| unretired(*old(self), *final(self), r, name@, actor@, now),
            old(self).wf() ==> final(self).wf(),
    {
        let now: i64 = clock::now_ms();
        self.unretire_at(name, actor, now)
    }
}

fn has_distinct_paths(list: &[AliasRow]) -> (r: bool)
    ensures
        r == distinct_paths(list@),
{
    let mut j: usize = 0;
    while j < list.len()
        invariant
            j <= list@.len(),
            forall|a: int, b: int|
                0 <= a < b < j ==> (#[trigger] list@[a]).root_path@ != (
                #[trigger] list@[b]).root_path@,
        decreases list.len() - j,
    {
        let mut i: usize = 0;
        while i < j
            invariant
                i <= j < list@.len(),
                forall|a: int| 0 <= a < i ==> (#[trigger] list@[a]).root_path@
                    != list@[j as int].root_path@,
            decreases j - i,
        {
            if text::same(list[i].root_path.as_str(), list[j].root_path.as_str()) {
                return false;
            }
            i = i + 1;
        }
        j = j + 1;
    }
    true
}

// ----------------------------------------------------------------------- detach

impl Registry {
    /// Why a root cannot be detached.
    pub open spec fn detach_refusal(self, root: Seq<char>, actor: Seq<char>) -> Option<Seq<char>> {
        if text::trimmed(actor).len() == 0 {
            Some("actor is required"@)
        } else {
            match self.exact_rows(root) {
                None => if tables::first_index(self.roots@, tables::root_at(root))
                    < self.roots@.len() {
                    Some(root + " is already detached"@)
                } else if exists|i: int|
                    0 <= i < self.history@.len() && (#[trigger] self.history@[i]).root_path@
                        == root {
                    Some("workspace alias "@ + root + " is already detached"@)
                } else {
                    Some("workspace alias "@ + root + " is not registered"@)
                },
                Some((i, j)) => {
                    let board_path = self.roots@[i].board_path@;
                    let name = self.boards@[j].name@;
                    if tables::kept(self.roots@, tables::root_on(board_path)).len() == 1
                        && tables::has_active_name(self.boards@, name, Some(board_path)) {
                        Some(
                            "detaching the last root from "@ + root
                                + " would create a second active board named "@ + name,
                        )
                    } else {
                        None
                    }
                },
            }
        }
    }
}

/// What detaching a root returns and changes.
pub open spec fn detached(
    pre: Registry,
    post: Registry,
    r: Result<WorkspaceRecord, Error>,
    root: Seq<char>,
    actor: Seq<char>,
    now: i64,
) -> bool {
    match pre.detach_refusal(root, actor) {
        Some(m) => post == pre && text::refused(r, m),
        None => {
            let (i, j) = pre.exact_rows(root)->0;
            let row = pre.roots@[i];
            &&& post == Registry {
                roots: post.roots,
                history: post.history,
                events: post.events,
                ..pre
            }
            &&& post.roots@ == pre.roots@.remove(i)
            &&& post.history@.len() == pre.history@.len() + 1
            &&& post.history@ == pre.history@.push(post.history@.last())
            &&& is_alias_of(
                post.history@.last(),
                row,
                pre.boards@[j].name@,
                row.board_path@,
                text::trimmed(actor),
                None,
                None,
                now,
            )
            &&& tables::audited(
                pre.events@,
                post.events@,
                "workspace:"@ + root,
                "workspace_detached"@,
                text::trimmed(actor),
                json::object(
                    seq![
                        json::member("boardPath"@, outside::json_text(row.board_path@)),
                        json::member("rootPath"@, outside::json_text(root)),
                    ],
                ),
                now,
            )
            &&& r is Ok
            &&& workspace::is_alias_record(r->Ok_0, post.history@.last())
        },
    }
}

impl Registry {
    fn count_roots(&self, board_path: &str) -> (r: usize)
        ensures
            r == tables::kept(self.roots@, tables::root_on(board_path@)).len(),
    {
        let sorted = tables::sorted_roots(self.roots.as_slice(), board_path);
        proof {
            ranking::law_ranked(tables::kept(self.roots@, tables::root_on(board_path@)));
        }
        sorted.len()
    }

    fn has_alias(&self, root: &str) -> (r: bool)
        ensures
            r == exists|i: int|
                0 <= i < self.history@.len() && (#[trigger] self.history@[i]).root_path@ == root@,
    {
        let mut i: usize = 0;
        while i < self.history.len()
            invariant
                i <= self.history@.len(),
                forall|k: int| 0 <= k < i ==> (#[trigger] self.history@[k]).root_path@ != root@,
            decreases self.history.len() - i,
        {
            if text::same(self.history[i].root_path.as_str(), root) {
                return true;
            }
            i = i + 1;
        }
        false
    }

    /// Take one root out of service at a given time; its row moves to history.
    pub fn detach_at(&mut self, root_path: &str, actor: &str, now: i64) -> (r: Result<
        WorkspaceRecord,
        Error,
    >)
        ensures
            detached(*old(self), *final(self), r, root_path@, actor@, now),
            old(self).wf() ==> final(self).wf(),
    {
        let by = text::trim(actor);
        if by.is_empty() {
            return text::refuse("actor is required".to_owned());
        }
        let (i, j) = match self.find_exact(root_path) {
            Some(found) => found,
            None => {
                if tables::find_root(self.roots.as_slice(), root_path) < self.roots.len() {
                    return text::refuse(root_path.to_owned().concat(" is already detached"));
                }
                if self.has_alias(root_path) {
                    return text::refuse(
                        "workspace alias ".to_owned().concat(root_path).concat(
                            " is already detached",
                        ),
                    );
                }
                return text::refuse(
                    "workspace alias ".to_owned().concat(root_path).concat(" is not registered"),
                );
            },
        };
        let board_path = self.roots[i].board_path.clone();
        let name = self.boards[j].name.clone();
        if self.count_roots(board_path.as_str()) == 1 && tables::active_named(
            self.boards.as_slice(),
            name.as_str(),
            Some(board_path.as_str()),
        ) {
            return text::refuse(
                "detaching the last root from ".to_owned().concat(root_path).concat(
                    " would create a second active board named ",
                ).concat(name.as_str()),
            );
        }
        let ghost pre = *self;
        let row = self.roots.remove(i);
        self.history.push(
            AliasRow {
                root_path: row.root_path,
                name,
                board_path: row.board_path,
                created_at: row.created_at,
                last_used_at: row.last_used_at,
                archived_at: now,
                archived_by: by.to_owned(),
                archived_note: None,
                retirement_id: None,
            },
        );
        let members: Vec<String> = vec![
            json::text_member("boardPath", board_path.as_str()),
            json::text_member("rootPath", root_path),
        ];
        proof {
            assert(text::texts(members@) =~= seq![
                json::member("boardPath"@, outside::json_text(board_path@)),
                json::member("rootPath"@, outside::json_text(root_path@)),
            ]);
        }
        let payload = json::write_object(members.as_slice());
        let subject = "workspace:".to_owned().concat(root_path);
        tables::append_registry_event(
            &mut self.events,
            subject.as_str(),
            "workspace_detached",
            by,
            payload.as_str(),
            now,
        );
        proof {
            if pre.wf() {
                assert forall|a: int, b: int| 0 <= a < b < self.roots@.len() implies (
                #[trigger] self.roots@[a]).root_path@ != (#[trigger] self.roots@[b]).root_path@ by {
                    let a2 = if a < i {
                        a
                    } else {
                        a + 1
                    };
                    let b2 = if b < i {
                        b
                    } else {
                        b + 1
                    };
                    assert(pre.roots@[a2].root_path@ != pre.roots@[b2].root_path@);
                }
                assert forall|a: int| 0 <= a < self.roots@.len() implies tables::archived_at_path(
                    self.boards@,
                    (#[trigger] self.roots@[a]).board_path@,
                ) == Some(false) by {
                    let a2 = if a < i {
                        a
                    } else {
                        a + 1
                    };
                    assert(pre.roots@[a2] == self.roots@[a]);
                }
            }
        }
        let last: usize = self.history.len() - 1;
        Ok(workspace::history_row(&self.history[last]))
    }

    /// Take one root out of service; its row moves to history.
    pub fn detach(&mut self, root_path: &str, actor: &str) -> (r: Result<WorkspaceRecord, Error>)
        ensures
            exists|now: i64| detached(*old(self), *final(self), r, root_path@, actor@, now),
            old(self).wf() ==> final(self).wf(),
    {
        let now: i64 = clock::now_ms();
        self.detach_at(root_path, actor, now)
    }
}

} // verus!
