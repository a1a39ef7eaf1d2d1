//! Attaching and repointing workspace roots, and listing them.

use vstd::prelude::*;

use crate::clock;
use crate::json;
use crate::outside;
use crate::paths;
use crate::ranking;
use crate::ranking::Ranked;
use crate::rules;
use crate::tables;
use crate::tables::AliasRow;
use crate::tables::BoardRow;
use crate::tables::Registry;
use crate::tables::RootRow;
use crate::text;
use crate::text::Error;
use crate::workspace;
use crate::workspace::UnreachableRoot;
use crate::workspace::WorkspaceRecord;
use crate::workspace_ops;

verus! {

// ----------------------------------------------------------------------- listing

/// A former root, by when it went.
#[derive(Debug)]
pub struct GoneRoot {
    pub row: AliasRow,
}

/// Former roots stand from the latest gone on.
impl Ranked for GoneRoot {
    open spec fn before(self, other: Self) -> bool {
        self.row.archived_at > other.row.archived_at
    }

    proof fn lemma_order(a: Self, b: Self, c: Self) {
    }

    fn is_before(&self, other: &Self) -> (r: bool) {
        self.row.archived_at > other.row.archived_at
    }
}

pub open spec fn is_active_root(boards: Seq<BoardRow>) -> spec_fn(RootRow) -> bool {
    |r: RootRow| tables::archived_at_path(boards, r.board_path@) == Some(false)
}

pub open spec fn has_root(roots: Seq<RootRow>, board_path: Seq<char>) -> bool {
    exists|i: int| 0 <= i < roots.len() && (#[trigger] roots[i]).board_path@ == board_path
}

pub open spec fn has_alias(
    history: Seq<AliasRow>,
    board_path: Seq<char>,
    retirement_id: Seq<char>,
) -> bool {
    exists|i: int|
        0 <= i < history.len() && tables::alias_of(board_path, retirement_id)(
            #[trigger] history[i],
        )
}

pub open spec fn is_rootless(roots: Seq<RootRow>) -> spec_fn(BoardRow) -> bool {
    |b: BoardRow| !b.archived && !has_root(roots, b.board_path@)
}

pub open spec fn is_retired_rootless(
    roots: Seq<RootRow>,
    history: Seq<AliasRow>,
) -> spec_fn(BoardRow) -> bool {
    |b: BoardRow|
        b.archived && !has_root(roots, b.board_path@) && (b.retirement_id is None || !has_alias(
            history,
            b.board_path@,
            b.retirement_id->0@,
        ))
}

/// Former roots from the latest gone on; of equals the last written is first.
pub open spec fn gone_roots(history: Seq<AliasRow>) -> Seq<GoneRoot> {
    ranking::ranked(history.reverse().map_values(|a: AliasRow| GoneRoot { row: a }))
}

pub open spec fn gone_roots_if(history: Seq<AliasRow>, wanted: bool) -> Seq<GoneRoot> {
    if wanted {
        gone_roots(history)
    } else {
        seq![]
    }
}

impl Registry {
    pub open spec fn active_roots(self) -> Seq<RootRow> {
        ranking::ranked(tables::kept(self.roots@, is_active_root(self.boards@)))
    }

    pub open spec fn rootless_boards(self) -> Seq<BoardRow> {
        ranking::ranked(tables::kept(self.boards@, is_rootless(self.roots@)))
    }

    pub open spec fn retired_rootless_boards(self) -> Seq<BoardRow> {
        ranking::ranked(
            tables::kept(self.boards@, is_retired_rootless(self.roots@, self.history@)),
        )
    }

    pub open spec fn retired_rootless_if(self, wanted: bool) -> Seq<BoardRow> {
        if wanted {
            self.retired_rootless_boards()
        } else {
            seq![]
        }
    }

    /// `list` shows, in this order, the active roots, the boards without roots,
    /// and where asked for the retired boards without roots and the former roots.
    pub open spec fn lists(self, list: Seq<WorkspaceRecord>, include_archived: bool) -> bool {
        let a = self.active_roots();
        let b = self.rootless_boards();
        let c = self.retired_rootless_if(include_archived);
        let d = gone_roots_if(self.history@, include_archived);
        &&& list.len() == a.len() + b.len() + c.len() + d.len()
        &&& forall|i: int|
            0 <= i < a.len() ==> workspace::is_root_record(
                #[trigger] list[i],
                a[i],
                self.boards@[tables::first_index(
                    self.boards@,
                    tables::board_at(a[i].board_path@),
                )],
            )
        &&& forall|i: int|
            0 <= i < b.len() ==> workspace::is_rootless_record(
                #[trigger] list[a.len() + i],
                b[i],
            )
        &&& forall|i: int|
            0 <= i < c.len() ==> workspace::is_rootless_record(
                #[trigger] list[a.len() + b.len() + i],
                c[i],
            )
        &&& forall|i: int|
            0 <= i < d.len() ==> workspace::is_alias_record(
                #[trigger] list[a.len() + b.len() + c.len() + i],
                d[i].row,
            )
    }

    fn sorted_active_roots(&self) -> (r: Vec<RootRow>)
        ensures
            r@ == self.active_roots(),
    {
        let mut out: Vec<RootRow> = Vec::new();
        let mut i: usize = 0;
        while i < self.roots.len()
            invariant
                i <= self.roots@.len(),
                out@ == tables::kept(self.roots@.take(i as int), is_active_root(self.boards@)),
            decreases self.roots.len() - i,
        {
            proof {
                tables::lemma_kept_step(self.roots@, is_active_root(self.boards@), i as int);
            }
            match tables::board_archived(
                self.boards.as_slice(),
                self.roots[i].board_path.as_str(),
            ) {
                Some(archived) => {
                    if !archived {
                        out.push(self.roots[i].clone());
                    }
                },
                None => {},
            }
            i = i + 1;
        }
        proof {
            assert(self.roots@.take(self.roots@.len() as int) =~= self.roots@);
        }
        ranking::sort_ranked(out)
    }

    fn board_has_root(&self, board_path: &str) -> (r: bool)
        ensures
            r == has_root(self.roots@, board_path@),
    {
        let mut i: usize = 0;
        while i < self.roots.len()
            invariant
                i <= self.roots@.len(),
                forall|k: int| 0 <= k < i ==> (#[trigger] self.roots@[k]).board_path@ != board_path@,
            decreases self.roots.len() - i,
        {
            if text::same(self.roots[i].board_path.as_str(), board_path) {
                return true;
            }
            i = i + 1;
        }
        false
    }

    fn board_has_alias(&self, board_path: &str, retirement_id: &str) -> (r: bool)
        ensures
            r == has_alias(self.history@, board_path@, retirement_id@),
    {
        let ghost p = tables::alias_of(board_path@, retirement_id@);
        let mut i: usize = 0;
        while i < self.history.len()
            invariant
                i <= self.history@.len(),
                p == tables::alias_of(board_path@, retirement_id@),
                forall|k: int| 0 <= k < i ==> !p(#[trigger] self.history@[k]),
            decreases self.history.len() - i,
        {
            let row = &self.history[i];
            let taken = match &row.retirement_id {
                Some(id) => text::same(id.as_str(), retirement_id),
                None => false,
            };
            if taken && text::same(row.board_path.as_str(), board_path) {
                proof {
                    assert(p(self.history@[i as int]));
                }
                return true;
            }
            i = i + 1;
        }
        false
    }

    fn sorted_rootless(&self) -> (r: Vec<BoardRow>)
        ensures
            r@ == self.rootless_boards(),
    {
        let mut out: Vec<BoardRow> = Vec::new();
        let mut i: usize = 0;
        while i < self.boards.len()
            invariant
                i <= self.boards@.len(),
                out@ == tables::kept(self.boards@.take(i as int), is_rootless(self.roots@)),
            decreases self.boards.len() - i,
        {
            proof {
                tables::lemma_kept_step(self.boards@, is_rootless(self.roots@), i as int);
            }
            if !self.boards[i].archived && !self.board_has_root(
                self.boards[i].board_path.as_str(),
            ) {
                out.push(self.boards[i].clone());
            }
            i = i + 1;
        }
        proof {
            assert(self.boards@.take(self.boards@.len() as int) =~= self.boards@);
        }
        ranking::sort_ranked(out)
    }

    fn sorted_retired_rootless(&self) -> (r: Vec<BoardRow>)
        ensures
            r@ == self.retired_rootless_boards(),
    {
        let ghost p = is_retired_rootless(self.roots@, self.history@);
        let mut out: Vec<BoardRow> = Vec::new();
        let mut i: usize = 0;
        while i < self.boards.len()
            invariant
                i <= self.boards@.len(),
                p == is_retired_rootless(self.roots@, self.history@),
                out@ == tables::kept(self.boards@.take(i as int), p),
            decreases self.boards.len() - i,
        {
            proof {
                tables::lemma_kept_step(self.boards@, p, i as int);
            }
            let board = &self.boards[i];
            let aliased = match &board.retirement_id {
                Some(id) => self.board_has_alias(board.board_path.as_str(), id.as_str()),
                None => false,
            };
            if board.archived && !aliased && !self.board_has_root(board.board_path.as_str()) {
                out.push(board.clone());
            }
            i = i + 1;
        }
        proof {
            assert(self.boards@.take(self.boards@.len() as int) =~= self.boards@);
        }
        ranking::sort_ranked(out)
    }

    fn sorted_gone(&self) -> (r: Vec<GoneRoot>)
        ensures
            r@ == gone_roots(self.history@),
    {
        let ghost wanted = self.history@.reverse().map_values(|a: AliasRow| GoneRoot { row: a });
        let n: usize = self.history.len();
        let mut out: Vec<GoneRoot> = Vec::new();
        let mut i: usize = 0;
        while i < n
            invariant
                i <= n == self.history@.len(),
                wanted == self.history@.reverse().map_values(|a: AliasRow| GoneRoot { row: a }),
                out@ == wanted.take(i as int),
            decreases n - i,
        {
            proof {
                assert(wanted.take(i as int + 1) =~= wanted.take(i as int).push(wanted[i as int]));
            }
            out.push(GoneRoot { row: self.history[n - 1 - i].clone() });
            i = i + 1;
        }
        proof {
            assert(wanted.take(wanted.len() as int) =~= wanted);
        }
        ranking::sort_ranked(out)
    }

    /// The roots and the boards without roots, from the most recently used on;
    /// what is retired only where asked for.
    pub fn list(&self, include_archived: bool) -> (r: Vec<WorkspaceRecord>)
        ensures
            exists|all: Seq<WorkspaceRecord>|
                self.lists(all, include_archived) && r@ == #[trigger] ranking::ranked(all),
    {
        let active = self.sorted_active_roots();
        let rootless = self.sorted_rootless();
        let retired = if include_archived {
            self.sorted_retired_rootless()
        } else {
            Vec::new()
        };
        let gone = if include_archived {
            self.sorted_gone()
        } else {
            Vec::new()
        };
        let ghost a = active@;
        let ghost b = rootless@;
        let ghost c = retired@;
        let ghost d = gone@;
        let ghost na = a.len() as int;
        let ghost nb = b.len() as int;
        let ghost nc = c.len() as int;
        proof {
            lemma_active_roots(*self);
        }
        let mut out: Vec<WorkspaceRecord> = Vec::new();
        let mut i: usize = 0;
        while i < active.len()
            invariant
                i <= active@.len(),
                active@ == self.active_roots(),
                forall|k: int|
                    0 <= k < active@.len() ==> is_active_root(self.boards@)(#[trigger] active@[k]),
                out@.len() == i,
                forall|k: int|
                    0 <= k < i ==> workspace::is_root_record(
                        #[trigger] out@[k],
                        active@[k],
                        self.boards@[tables::first_index(
                            self.boards@,
                            tables::board_at(active@[k].board_path@),
                        )],
                    ),
            decreases active.len() - i,
        {
            proof {
                assert(is_active_root(self.boards@)(active@[i as int]));
            }
            let j: usize = tables::find_board(
                self.boards.as_slice(),
                active[i].board_path.as_str(),
            );
            out.push(workspace::row(&active[i], &self.boards[j]));
            i = i + 1;
        }
        let ghost part1 = out@;
        let mut i: usize = 0;
        while i < rootless.len()
            invariant
                i <= rootless@.len(),
                na == part1.len(),
                out@.len() == na + i,
                out@.take(na) == part1,
                forall|k: int|
                    0 <= k < i ==> workspace::is_rootless_record(
                        #[trigger] out@[na + k],
                        rootless@[k],
                    ),
            decreases rootless.len() - i,
        {
            let ghost before = out@;
            out.push(workspace::rootless_row(&rootless[i]));
            proof {
                assert(out@.take(na) =~= before.take(na));
                assert forall|k: int| 0 <= k < i + 1 implies workspace::is_rootless_record(
                    #[trigger] out@[na + k],
                    rootless@[k],
                ) by {
                    if k < i {
                        assert(out@[na + k] == before[na + k]);
                    }
                }
            }
            i = i + 1;
        }
        let ghost part2 = out@;
        let mut i: usize = 0;
        while i < retired.len()
            invariant
                i <= retired@.len(),
                na + nb == part2.len(),
                out@.len() == na + nb + i,
                out@.take(na + nb) == part2,
                forall|k: int|
                    0 <= k < i ==> workspace::is_rootless_record(
                        #[trigger] out@[na + nb + k],
                        retired@[k],
                    ),
            decreases retired.len() - i,
        {
            let ghost before = out@;
            out.push(workspace::rootless_row(&retired[i]));
            proof {
                assert(out@.take(na + nb) =~= before.take(na + nb));
                assert forall|k: int| 0 <= k < i + 1 implies workspace::is_rootless_record(
                    #[trigger] out@[na + nb + k],
                    retired@[k],
                ) by {
                    if k < i {
                        assert(out@[na + nb + k] == before[na + nb + k]);
                    }
                }
            }
            i = i + 1;
        }
        let ghost part3 = out@;
        let mut i: usize = 0;
        while i < gone.len()
            invariant
                i <= gone@.len(),
                na + nb + nc == part3.len(),
                out@.len() == na + nb + nc + i,
                out@.take(na + nb + nc) == part3,
                forall|k: int|
                    0 <= k < i ==> workspace::is_alias_record(
                        #[trigger] out@[na + nb + nc + k],
                        gone@[k].row,
                    ),
            decreases gone.len() - i,
        {
            let ghost before = out@;
            out.push(workspace::history_row(&gone[i].row));
            proof {
                assert(out@.take(na + nb + nc) =~= before.take(na + nb + nc));
                assert forall|k: int| 0 <= k < i + 1 implies workspace::is_alias_record(
                    #[trigger] out@[na + nb + nc + k],
                    gone@[k].row,
                ) by {
                    if k < i {
                        assert(out@[na + nb + nc + k] == before[na + nb + nc + k]);
                    }
                }
            }
            i = i + 1;
        }
        proof {
            let all = out@;
            assert forall|k: int| 0 <= k < na implies all[k] == #[trigger] part1[k] by {
                assert(all.take(na + nb + nc)[k] == all[k]);
                assert(part3.take(na + nb)[k] == part3[k]);
                assert(part2.take(na)[k] == part2[k]);
            }
            assert forall|k: int| 0 <= k < nb implies all[na + k] == #[trigger] part2[na + k] by {
                assert(all.take(na + nb + nc)[na + k] == all[na + k]);
                assert(part3.take(na + nb)[na + k] == part3[na + k]);
            }
            assert forall|k: int| 0 <= k < nc implies all[na + nb + k] == #[trigger] part3[na + nb
                + k] by {
                assert(all.take(na + nb + nc)[na + nb + k] == all[na + nb + k]);
            }
            assert(c =~= if include_archived {
                self.retired_rootless_boards()
            } else {
                seq![]
            });
            assert(d =~= if include_archived {
                gone_roots(self.history@)
            } else {
                seq![]
            });
            assert forall|k: int| 0 <= k < na implies workspace::is_root_record(
                #[trigger] all[k],
                a[k],
                self.boards@[tables::first_index(
                    self.boards@,
                    tables::board_at(a[k].board_path@),
                )],
            ) by {
                assert(all[k] == part1[k]);
            }
            assert forall|k: int| 0 <= k < nb implies workspace::is_rootless_record(
                #[trigger] all[na + k],
                b[k],
            ) by {
                assert(all[na + k] == part2[na + k]);
            }
            assert forall|k: int| 0 <= k < nc implies workspace::is_rootless_record(
                #[trigger] all[na + nb + k],
                c[k],
            ) by {
                assert(all[na + nb + k] == part3[na + nb + k]);
            }
            assert(self.lists(all, include_archived));
        }
        ranking::sort_ranked(out)
    }
}

proof fn lemma_active_roots(reg: Registry)
    ensures
        forall|k: int|
            0 <= k < reg.active_roots().len() ==> is_active_root(reg.boards@)(
                #[trigger] reg.active_roots()[k],
            ),
{
    broadcast use vstd::seq_lib::group_to_multiset_ensures;

    let p = is_active_root(reg.boards@);
    let selected = tables::kept(reg.roots@, p);
    ranking::law_ranked(selected);
    tables::lemma_kept(reg.roots@, p);
    assert forall|k: int| 0 <= k < reg.active_roots().len() implies p(
        #[trigger] reg.active_roots()[k],
    ) by {
        let x = reg.active_roots()[k];
        assert(reg.active_roots().contains(x));
        assert(reg.active_roots().to_multiset().count(x) > 0);
        assert(selected.contains(x));
        let m = choose|m: int| 0 <= m < selected.len() && selected[m] == x;
        assert(p(selected[m]));
    }
}

// ------------------------------------------------------------------------ attach

impl Registry {
    pub open spec fn lacks_roots(self) -> spec_fn(BoardRow) -> bool {
        |b: BoardRow|
            tables::roots_of(
                self.roots@,
                self.history@,
                b.board_path@,
                text::text_of(b.retirement_id),
            ).len() == 0
    }

    /// The board that a name stands for when a root is attached.
    pub open spec fn attach_choice(self, target: Seq<char>) -> Result<BoardRow, Seq<char>> {
        let active = self.named_boards(target, false);
        let all = self.named_boards(target, true);
        let rootless = tables::kept(active, self.lacks_roots());
        if active.len() == 1 {
            Ok(active[0])
        } else if active.len() == 0 {
            if all.len() == 0 {
                Err("no Kanban project named "@ + target)
            } else if all.len() == 1 {
                Err(
                    "Kanban project "@ + target + " is retired; use `kanban workspace unretire "@
                        + target + " --as ACTOR` before attaching to it"@,
                )
            } else {
                Err(self.many_retired(target))
            }
        } else if rootless.len() == 1 {
            Ok(rootless[0])
        } else if rootless.len() == 0 {
            Err(
                text::decimal(active.len() as int) + " Kanban projects are named "@ + target
                    + "; disambiguate with --workspace PATH: "@ + self.candidates(active),
            )
        } else {
            Err(
                text::decimal(rootless.len() as int) + " rootless Kanban projects are named "@
                    + target
                    + "; fix the registry so only one rootless board can carry a name: "@
                    + self.candidates(active),
            )
        }
    }

    /// Why a root cannot be attached to the board at a path.
    pub open spec fn attach_refusal(self, root: Seq<char>, path: Seq<char>) -> Option<Seq<char>> {
        match self.exact_rows(root) {
            Some((i, _)) => if self.roots@[i].board_path@ != path {
                Some(root + " is already attached to another Kanban project"@)
            } else {
                None
            },
            None => if tables::first_index(self.roots@, tables::root_at(root)) < self.roots@.len() {
                Some("UNIQUE constraint failed: workspace_roots.root_path"@)
            } else {
                None
            },
        }
    }

    fn without_roots(&self, boards: &[BoardRow]) -> (r: Vec<BoardRow>)
        ensures
            r@ == tables::kept(boards@, self.lacks_roots()),
    {
        let mut out: Vec<BoardRow> = Vec::new();
        let mut i: usize = 0;
        while i < boards.len()
            invariant
                i <= boards@.len(),
                out@ == tables::kept(boards@.take(i as int), self.lacks_roots()),
            decreases boards.len() - i,
        {
            proof {
                tables::lemma_kept_step(boards@, self.lacks_roots(), i as int);
            }
            let retirement = match &boards[i].retirement_id {
                Some(id) => Some(id.as_str()),
                None => None,
            };
            let roots = tables::board_roots(
                self.roots.as_slice(),
                self.history.as_slice(),
                boards[i].board_path.as_str(),
                retirement,
            );
            proof {
                assert(text::texts(roots@).len() == roots@.len());
            }
            if roots.len() == 0 {
                out.push(boards[i].clone());
            }
            i = i + 1;
        }
        proof {
            assert(boards@.take(boards@.len() as int) =~= boards@);
        }
        out
    }

    fn choose_named(&self, target: &str) -> (r: Result<BoardRow, Error>)
        ensures
            match self.attach_choice(target@) {
                Err(m) => text::refused(r, m),
                Ok(b) => r is Ok && r->Ok_0 == b && self.boards@.contains(b) && !b.archived,
            },
    {
        let active = self.boards_named(target, false);
        if active.len() == 1 {
            proof {
                workspace_ops::lemma_named_is_registered(*self, target@, false, 0);
            }
            return Ok(active[0].clone());
        }
        if active.len() == 0 {
            let all = self.boards_named(target, true);
            if all.len() == 0 {
                return text::refuse("no Kanban project named ".to_owned().concat(target));
            }
            if all.len() == 1 {
                return text::refuse(
                    "Kanban project ".to_owned().concat(target).concat(
                        " is retired; use `kanban workspace unretire ",
                    ).concat(target).concat(" --as ACTOR` before attaching to it"),
                );
            }
            return text::refuse(self.many_retired_text(target, all.as_slice()));
        }
        let rootless = self.without_roots(active.as_slice());
        if rootless.len() == 1 {
            proof {
                tables::lemma_kept(active@, self.lacks_roots());
                assert(active@.contains(rootless@[0]));
                let k = choose|k: int| 0 <= k < active@.len() && active@[k] == rootless@[0];
                workspace_ops::lemma_named_is_registered(*self, target@, false, k);
            }
            return Ok(rootless[0].clone());
        }
        let candidates = self.board_candidates(active.as_slice());
        if rootless.len() == 0 {
            return text::refuse(
                text::show_u64(active.len() as u64).concat(" Kanban projects are named ").concat(
                    target,
                ).concat("; disambiguate with --workspace PATH: ").concat(candidates.as_str()),
            );
        }
        text::refuse(
            text::show_u64(rootless.len() as u64).concat(
                " rootless Kanban projects are named ",
            ).concat(target).concat(
                "; fix the registry so only one rootless board can carry a name: ",
            ).concat(candidates.as_str()),
        )
    }

    /// Attach a root to the board in row `j`.
    fn attach_row(&mut self, root: &str, j: usize, by: &str, now: i64) -> (r: Result<
        WorkspaceRecord,
        Error,
    >)
        requires
            j < old(self).boards@.len(),
            !old(self).boards@[j as int].archived,
            j == tables::first_index(
                old(self).boards@,
                tables::board_at(old(self).boards@[j as int].board_path@),
            ),
        ensures
            attached(*old(self), *final(self), r, root@, j as int, by@, now),
            old(self).wf() ==> final(self).wf(),
    {
        let path = self.boards[j].board_path.clone();
        match self.find_exact(root) {
            Some((i, k)) => {
                if !text::same(self.roots[i].board_path.as_str(), path.as_str()) {
                    return text::refuse(
                        root.to_owned().concat(" is already attached to another Kanban project"),
                    );
                }
                return Ok(workspace::row(&self.roots[i], &self.boards[k]));
            },
            None => {},
        }
        if tables::find_root(self.roots.as_slice(), root) < self.roots.len() {
            return text::refuse("UNIQUE constraint failed: workspace_roots.root_path".to_owned());
        }
        let ghost pre = *self;
        let name = self.boards[j].name.clone();
        self.roots.push(
            RootRow {
                root_path: root.to_owned(),
                board_path: path.clone(),
                created_at: now,
                last_used_at: now,
            },
        );
        self.mark_board_used(j, now);
        let members: Vec<String> = vec![
            json::text_member("boardPath", path.as_str()),
            json::text_member("name", name.as_str()),
            json::text_member("rootPath", root),
        ];
        proof {
            assert(text::texts(members@) =~= seq![
                json::member("boardPath"@, outside::json_text(path@)),
                json::member("name"@, outside::json_text(name@)),
                json::member("rootPath"@, outside::json_text(root@)),
            ]);
        }
        let payload = json::write_object(members.as_slice());
        let subject = "workspace:".to_owned().concat(root);
        tables::append_registry_event(
            &mut self.events,
            subject.as_str(),
            "workspace_attached",
            by,
            payload.as_str(),
            now,
        );
        proof {
            if pre.wf() {
                lemma_root_added_wf(pre, *self, j as int);
            }
        }
        let last: usize = self.roots.len() - 1;
        Ok(workspace::row(&self.roots[last], &self.boards[j]))
    }

    /// Attach a canonical workspace path to a project at a given time. The target
    /// is a name, or a path whose canonical form is `target_path`.
    pub fn attach_at(
        &mut self,
        workspace: &str,
        target: &str,
        target_path: &str,
        actor: &str,
        now: i64,
    ) -> (r: Result<WorkspaceRecord, Error>)
        ensures
            attach_outcome(
                *old(self),
                *final(self),
                r,
                workspace@,
                target@,
                target_path@,
                actor@,
                now,
            ),
            old(self).wf() ==> final(self).wf(),
    {
        let by = match rules::validate_rule_actor(actor) {
            Ok(by) => by,
            Err(e) => {
                return Err(e);
            },
        };
        if paths::target_looks_like_path(target) {
            let ghost pre = *self;
            let found = self.find_resolution(target_path);
            let w = self.resolve_at(target_path, now);
            let ghost mid = *self;
            proof {
                assert(resolved_for_attach(pre, mid, w, target_path@, now));
            }
            match w {
                Err(e) => {
                    return Err(e);
                },
                Ok(None) => {
                    return text::refuse("no Kanban project contains ".to_owned().concat(target));
                },
                Ok(Some(_)) => {
                    match found {
                        Ok(Some((i, j))) => {
                            proof {
                                lemma_resolution_rows(pre, target_path@);
                                let p = tables::board_at(pre.boards@[j as int].board_path@);
                                workspace_ops::lemma_first_index_same(pre.boards@, mid.boards@, p);
                                tables::lemma_first_index(pre.boards@, p);
                            }
                            self.attach_row(workspace, j, by, now)
                        },
                        _ => text::refuse("attached workspace not found".to_owned()),
                    }
                },
            }
        } else {
            match self.choose_named(target) {
                Err(e) => Err(e),
                Ok(board) => {
                    let j: usize = tables::find_board(
                        self.boards.as_slice(),
                        board.board_path.as_str(),
                    );
                    proof {
                        let p = tables::board_at(board.board_path@);
                        let m = choose|m: int|
                            0 <= m < self.boards@.len() && self.boards@[m] == board;
                        assert(p(self.boards@[m]));
                        tables::lemma_first_index(self.boards@, p);
                    }
                    if self.boards[j].archived {
                        return text::refuse("Query returned no rows".to_owned());
                    }
                    self.attach_row(workspace, j, by, now)
                },
            }
        }
    }

    /// Attach a canonical workspace path to a project.
    pub fn attach(&mut self, workspace: &str, target: &str, target_path: &str, actor: &str) -> (r:
        Result<WorkspaceRecord, Error>)
        ensures
            exists|now: i64|
                attach_outcome(
                    *old(self),
                    *final(self),
                    r,
                    workspace@,
                    target@,
                    target_path@,
                    actor@,
                    now,
                ),
            old(self).wf() ==> final(self).wf(),
    {
        let now: i64 = clock::now_ms();
        self.attach_at(workspace, target, target_path, actor, now)
    }
}

/// What a resolution finds is a root whose board is the first at its path, and
/// active.
proof fn lemma_resolution_rows(reg: Registry, path: Seq<char>)
    ensures
        reg.resolution(path) matches Ok(Some((i, j))) ==> {
            &&& 0 <= i < reg.roots@.len()
            &&& 0 <= j < reg.boards@.len()
            &&& !reg.boards@[j].archived
            &&& reg.boards@[j].board_path@ == reg.roots@[i].board_path@
            &&& j == tables::first_index(
                reg.boards@,
                tables::board_at(reg.boards@[j].board_path@),
            )
        },
    decreases path.len(),
{
    if reg.exact_rows(path) is Some {
        let (i, j) = reg.exact_rows(path)->0;
        tables::lemma_first_index(reg.roots@, tables::root_at(path));
        tables::lemma_first_index(reg.boards@, tables::board_at(reg.roots@[i].board_path@));
        assert(reg.boards@[j].board_path@ == reg.roots@[i].board_path@);
    } else if reg.retired_at(path) is None {
        paths::lemma_parent_shorter(path);
        match paths::parent_of(path) {
            Some(parent) => {
                lemma_resolution_rows(reg, parent);
            },
            None => {},
        }
    }
}

proof fn lemma_root_added_wf(pre: Registry, post: Registry, j: int)
    requires
        pre.wf(),
        0 <= j < pre.boards@.len(),
        !pre.boards@[j].archived,
        j == tables::first_index(pre.boards@, tables::board_at(pre.boards@[j].board_path@)),
        post.rules == pre.rules,
        post.ledger == pre.ledger,
        post.boards@.len() == pre.boards@.len(),
        forall|k: int|
            0 <= k < pre.boards@.len() ==> (#[trigger] pre.boards@[k]).board_path@
                == post.boards@[k].board_path@ && pre.boards@[k].archived
                == post.boards@[k].archived,
        post.roots@.len() == pre.roots@.len() + 1,
        post.roots@ == pre.roots@.push(post.roots@.last()),
        post.roots@.last().board_path@ == pre.boards@[j].board_path@,
        tables::first_index(pre.roots@, tables::root_at(post.roots@.last().root_path@))
            >= pre.roots@.len(),
    ensures
        post.wf(),
{
    workspace_ops::lemma_boards_same_keys(pre.boards@, post.boards@);
    let t = tables::root_at(post.roots@.last().root_path@);
    tables::lemma_first_index(pre.roots@, t);
    assert forall|a: int, b: int| 0 <= a < b < post.roots@.len() implies (
    #[trigger] post.roots@[a]).root_path@ != (#[trigger] post.roots@[b]).root_path@ by {
        if b == pre.roots@.len() {
            assert(!t(pre.roots@[a]));
        }
    }
    assert(tables::archived_at_path(pre.boards@, pre.boards@[j].board_path@) == Some(false));
}

/// What attaching a root to the board in row `j` returns and changes.
pub open spec fn attached(
    pre: Registry,
    post: Registry,
    r: Result<WorkspaceRecord, Error>,
    root: Seq<char>,
    j: int,
    by: Seq<char>,
    now: i64,
) -> bool {
    let board = pre.boards@[j];
    let path = board.board_path@;
    match pre.attach_refusal(root, path) {
        Some(m) => post == pre && text::refused(r, m),
        None => {
            &&& r is Ok
            &&& match pre.exact_rows(root) {
                Some((i, k)) => post == pre && workspace::is_root_record(
                    r->Ok_0,
                    pre.roots@[i],
                    pre.boards@[k],
                ),
                None => {
                    &&& post == Registry {
                        boards: post.boards,
                        roots: post.roots,
                        events: post.events,
                        ..pre
                    }
                    &&& 0 <= j < pre.boards@.len()
                    &&& post.boards@ == pre.boards@.update(
                        j,
                        BoardRow { last_used_at: now, ..board },
                    )
                    &&& post.roots@.len() == pre.roots@.len() + 1
                    &&& post.roots@ == pre.roots@.push(post.roots@.last())
                    &&& workspace_ops::is_new_root(post.roots@.last(), root, path, now)
                    &&& tables::audited(
                        pre.events@,
                        post.events@,
                        "workspace:"@ + root,
                        "workspace_attached"@,
                        by,
                        json::object(
                            seq![
                                json::member("boardPath"@, outside::json_text(path)),
                                json::member("name"@, outside::json_text(board.name@)),
                                json::member("rootPath"@, outside::json_text(root)),
                            ],
                        ),
                        now,
                    )
                    &&& workspace::is_root_record(r->Ok_0, post.roots@.last(), post.boards@[j])
                },
            }
        },
    }
}

/// The resolution of a target on the way to an attachment.
pub open spec fn resolved_for_attach(
    pre: Registry,
    mid: Registry,
    w: Result<Option<WorkspaceRecord>, Error>,
    target_path: Seq<char>,
    now: i64,
) -> bool {
    workspace_ops::resolved(pre, mid, w, target_path, now)
}

/// What an attachment returns and changes. A target that is a path is resolved,
/// and thereby marked used, before anything else is checked.
pub open spec fn attach_outcome(
    pre: Registry,
    post: Registry,
    r: Result<WorkspaceRecord, Error>,
    root: Seq<char>,
    target: Seq<char>,
    target_path: Seq<char>,
    actor: Seq<char>,
    now: i64,
) -> bool {
    let by = text::trimmed(actor);
    if by.len() == 0 {
        post == pre && text::refused(r, "author is required"@)
    } else if paths::looks_like_path(target) {
        exists|mid: Registry, w: Result<Option<WorkspaceRecord>, Error>|
            {
                &&& #[trigger] resolved_for_attach(pre, mid, w, target_path, now)
                &&& match pre.resolution(target_path) {
                    Err(m) => post == mid && text::refused(r, m),
                    Ok(None) => post == mid && text::refused(
                        r,
                        "no Kanban project contains "@ + target,
                    ),
                    Ok(Some((i, j))) => attached(mid, post, r, root, j, by, now),
                }
            }
    } else {
        match pre.attach_choice(target) {
            Err(m) => post == pre && text::refused(r, m),
            Ok(board) => {
                let j = tables::first_index(pre.boards@, tables::board_at(board.board_path@));
                if pre.boards@[j].archived {
                    post == pre && text::refused(r, "Query returned no rows"@)
                } else {
                    attached(pre, post, r, root, j, by, now)
                }
            },
        }
    }
}

// ----------------------------------------------------------------------- repoint

/// `u` shows a root that leads elsewhere, or nowhere.
pub open spec fn is_unreachable(
    u: UnreachableRoot,
    root: RootRow,
    board: BoardRow,
    lead: Option<Seq<char>>,
) -> bool {
    &&& u.name@ == board.name@
    &&& u.root_path@ == root.root_path@
    &&& u.board_path@ == root.board_path@
    &&& text::text_of(u.resolves_to) == lead
}

/// A listed root is out of reach: the path it leads to is not its own.
pub open spec fn out_of_reach(w: WorkspaceRecord, lead: Option<String>) -> bool {
    !w.rootless && text::text_of(lead) != Some(w.root_path@)
}

/// The places of the listed roots that are out of reach.
pub open spec fn unreachable_places(
    records: Seq<WorkspaceRecord>,
    leads: Seq<Option<String>>,
) -> Seq<int>
    decreases records.len(),
{
    if records.len() == 0 {
        seq![]
    } else {
        let n = records.len() - 1;
        let rest = unreachable_places(records.drop_last(), leads);
        if out_of_reach(records[n], leads[n]) {
            rest.push(n)
        } else {
            rest
        }
    }
}

/// The listed roots that no longer lead to themselves, given where each of them
/// leads.
pub fn unreachable_among(records: &[WorkspaceRecord], leads: &[Option<String>]) -> (r: Vec<
    UnreachableRoot,
>)
    requires
        leads@.len() == records@.len(),
    ensures
        ({
            let places = unreachable_places(records@, leads@);
            &&& r@.len() == places.len()
            &&& forall|i: int|
                0 <= i < r@.len() ==> {
                    let w = records@[places[i]];
                    &&& (#[trigger] r@[i]).name@ == w.name@
                    &&& r@[i].root_path@ == w.root_path@
                    &&& r@[i].board_path@ == w.board_path@
                    &&& text::text_of(r@[i].resolves_to) == text::text_of(leads@[places[i]])
                }
        }),
{
    let mut out: Vec<UnreachableRoot> = Vec::new();
    let mut k: usize = 0;
    while k < records.len()
        invariant
            k <= records@.len() == leads@.len(),
            out@.len() == unreachable_places(records@.take(k as int), leads@).len(),
            forall|i: int|
                0 <= i < out@.len() ==> {
                    let place = unreachable_places(records@.take(k as int), leads@)[i];
                    let w = records@[place];
                    &&& (#[trigger] out@[i]).name@ == w.name@
                    &&& out@[i].root_path@ == w.root_path@
                    &&& out@[i].board_path@ == w.board_path@
                    &&& text::text_of(out@[i].resolves_to) == text::text_of(leads@[place])
                },
        decreases records.len() - k,
    {
        proof {
            assert(records@.take(k as int + 1).drop_last() =~= records@.take(k as int));
        }
        let record = &records[k];
        let reachable = match &leads[k] {
            Some(actual) => text::same(actual.as_str(), record.root_path.as_str()),
            None => false,
        };
        if !record.rootless && !reachable {
            out.push(
                UnreachableRoot {
                    name: record.name.clone(),
                    root_path: record.root_path.clone(),
                    board_path: record.board_path.clone(),
                    resolves_to: leads[k].clone(),
                },
            );
        }
        k = k + 1;
    }
    proof {
        assert(records@.take(records@.len() as int) =~= records@);
    }
    out
}

impl Registry {
    /// Why a root cannot be repointed, given where it leads today.
    pub open spec fn repoint_refusal(
        self,
        root: Seq<char>,
        lead: Option<Seq<char>>,
        actor: Seq<char>,
    ) -> Option<Seq<char>> {
        if text::trimmed(actor).len() == 0 {
            Some("author is required"@)
        } else if self.exact_rows(root) is None || lead == Some(root) {
            Some(root + " is not a registered root that needs repointing"@)
        } else if lead is None {
            Some(
                root
                    + " does not exist, so there is nowhere to repoint it. Register the project where it lives now with `kanban init`, or drop this root."@,
            )
        } else if self.exact_rows(lead->0) is Some {
            Some(
                lead->0 + " is already registered, so "@ + root
                    + " has nothing to repoint to — the two would be one row"@,
            )
        } else if tables::first_index(self.roots@, tables::root_at(lead->0)) < self.roots@.len() {
            Some("UNIQUE constraint failed: workspace_roots.root_path"@)
        } else {
            None
        }
    }

    /// Point a registered root at where it leads today, at a given time.
    pub fn repoint_at(
        &mut self,
        root_path: &str,
        lead: Option<&str>,
        actor: &str,
        now: i64,
    ) -> (r: Result<UnreachableRoot, Error>)
        ensures
            repointed(
                *old(self),
                *final(self),
                r,
                root_path@,
                text::str_of(lead),
                actor@,
                now,
            ),
            old(self).wf() ==> final(self).wf(),
    {
        let by = match rules::validate_rule_actor(actor) {
            Ok(by) => by,
            Err(e) => {
                return Err(e);
            },
        };
        let settled = match lead {
            Some(target) => text::same(target, root_path),
            None => false,
        };
        let (i, j) = match self.find_exact(root_path) {
            Some(found) => found,
            None => {
                return text::refuse(
                    root_path.to_owned().concat(
                        " is not a registered root that needs repointing",
                    ),
                );
            },
        };
        if settled {
            return text::refuse(
                root_path.to_owned().concat(" is not a registered root that needs repointing"),
            );
        }
        let target = match lead {
            Some(target) => target,
            None => {
                return text::refuse(
                    root_path.to_owned().concat(
                        " does not exist, so there is nowhere to repoint it. Register the project where it lives now with `kanban init`, or drop this root.",
                    ),
                );
            },
        };
        if self.find_exact(target).is_some() {
            return text::refuse(
                target.to_owned().concat(" is already registered, so ").concat(root_path).concat(
                    " has nothing to repoint to — the two would be one row",
                ),
            );
        }
        if tables::find_root(self.roots.as_slice(), target) < self.roots.len() {
            return text::refuse("UNIQUE constraint failed: workspace_roots.root_path".to_owned());
        }
        let ghost pre = *self;
        let board_path = self.roots[i].board_path.clone();
        let name = self.boards[j].name.clone();
        let mut root = self.roots[i].clone();
        root.root_path = target.to_owned();
        root.last_used_at = now;
        self.roots.set(i, root);
        self.mark_board_used(j, now);
        let members: Vec<String> = vec![
            json::text_member("boardPath", board_path.as_str()),
            json::text_member("previousRootPath", root_path),
            json::text_member("rootPath", target),
        ];
        proof {
            assert(text::texts(members@) =~= seq![
                json::member("boardPath"@, outside::json_text(board_path@)),
                json::member("previousRootPath"@, outside::json_text(root_path@)),
                json::member("rootPath"@, outside::json_text(target@)),
            ]);
        }
        let payload = json::write_object(members.as_slice());
        let subject = "workspace:".to_owned().concat(target);
        tables::append_registry_event(
            &mut self.events,
            subject.as_str(),
            "workspace_repointed",
            by,
            payload.as_str(),
            now,
        );
        proof {
            if pre.wf() {
                workspace_ops::lemma_boards_same_keys(pre.boards@, self.boards@);
                let t = tables::root_at(target@);
                tables::lemma_first_index(pre.roots@, t);
                assert forall|a: int, b: int| 0 <= a < b < self.roots@.len() implies (
                #[trigger] self.roots@[a]).root_path@ != (#[trigger] self.roots@[b]).root_path@ by {
                    assert(!t(pre.roots@[a]));
                    assert(!t(pre.roots@[b]));
                    assert(pre.roots@[a].root_path@ != pre.roots@[b].root_path@);
                }
                assert forall|a: int| 0 <= a < self.roots@.len() implies tables::archived_at_path(
                    self.boards@,
                    (#[trigger] self.roots@[a]).board_path@,
                ) == Some(false) by {
                    assert(tables::archived_at_path(pre.boards@, pre.roots@[a].board_path@) == Some(
                        false,
                    ));
                }
            }
        }
        Ok(
            UnreachableRoot {
                name,
                root_path: target.to_owned(),
                board_path,
                resolves_to: Some(target.to_owned()),
            },
        )
    }

    /// Point a registered root at where it leads today.
    pub fn repoint(&mut self, root_path: &str, lead: Option<&str>, actor: &str) -> (r: Result<
        UnreachableRoot,
        Error,
    >)
        ensures
            exists|now: i64|
                repointed(
                    *old(self),
                    *final(self),
                    r,
                    root_path@,
                    text::str_of(lead),
                    actor@,
                    now,
                ),
            old(self).wf() ==> final(self).wf(),
    {
        let now: i64 = clock::now_ms();
        self.repoint_at(root_path, lead, actor, now)
    }

    /// The registered roots that no longer lead to themselves, given where each
    /// listed root leads.
    pub fn unreachable_roots(&self, leads: &[Option<String>]) -> (r: Option<Vec<UnreachableRoot>>)
        ensures
            exists|all: Seq<WorkspaceRecord>|
                {
                    let records = #[trigger] ranking::ranked(all);
                    &&& self.lists(all, false)
                    &&& r is Some <==> leads@.len() == records.len()
                    &&& r is Some ==> {
                        let places = unreachable_places(records, leads@);
                        &&& r->0@.len() == places.len()
                        &&& forall|i: int|
                            0 <= i < r->0@.len() ==> {
                                let w = records[places[i]];
                                &&& (#[trigger] r->0@[i]).name@ == w.name@
                                &&& r->0@[i].root_path@ == w.root_path@
                                &&& r->0@[i].board_path@ == w.board_path@
                                &&& text::text_of(r->0@[i].resolves_to) == text::text_of(
                                    leads@[places[i]],
                                )
                            }
                    }
                },
    {
        let records = self.list(false);
        if records.len() != leads.len() {
            return None;
        }
        Some(unreachable_among(records.as_slice(), leads))
    }
}

/// What repointing a root returns and changes.
pub open spec fn repointed(
    pre: Registry,
    post: Registry,
    r: Result<UnreachableRoot, Error>,
    root: Seq<char>,
    lead: Option<Seq<char>>,
    actor: Seq<char>,
    now: i64,
) -> bool {
    match pre.repoint_refusal(root, lead, actor) {
        Some(m) => post == pre && text::refused(r, m),
        None => {
            let (i, j) = pre.exact_rows(root)->0;
            let target = lead->0;
            &&& post == Registry {
                boards: post.boards,
                roots: post.roots,
                events: post.events,
                ..pre
            }
            &&& post.roots@ == pre.roots@.update(i, post.roots@[i])
            &&& post.roots@[i] == RootRow {
                root_path: post.roots@[i].root_path,
                last_used_at: now,
                ..pre.roots@[i]
            }
            &&& post.roots@[i].root_path@ == target
            &&& post.boards@ == pre.boards@.update(
                j,
                BoardRow { last_used_at: now, ..pre.boards@[j] },
            )
            &&& tables::audited(
                pre.events@,
                post.events@,
                "workspace:"@ + target,
                "workspace_repointed"@,
                text::trimmed(actor),
                json::object(
                    seq![
                        json::member(
                            "boardPath"@,
                            outside::json_text(pre.roots@[i].board_path@),
                        ),
                        json::member("previousRootPath"@, outside::json_text(root)),
                        json::member("rootPath"@, outside::json_text(target)),
                    ],
                ),
                now,
            )
            &&& r is Ok
            &&& is_unreachable(r->Ok_0, post.roots@[i], pre.boards@[j], Some(target))
        },
    }
}

} // verus!
