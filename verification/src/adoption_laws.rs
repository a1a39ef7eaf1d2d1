//! When a board may be adopted, and what adopting it does.

use vstd::prelude::*;

use crate::adoption;
use crate::adoption::AdoptionMarker;
use crate::adoption::FileFacts;
use crate::adoption::LogCapture;
use crate::adoption::PreparedAdoption;
use crate::adoption::Recovery;
use crate::adoption::SnapshotFacts;
use crate::place_laws;
use crate::tables;
use crate::tables::BoardRow;
use crate::tables::Registry;
use crate::text;
use crate::text::Error;
use crate::workspace::WorkspaceAdoptReceipt;

verus! {

/// The two are one file.
pub open spec fn is_one_file(a: FileFacts, b: FileFacts) -> bool {
    a.device == b.device && a.inode == b.inode
}

/// The file was not written while it was read.
pub open spec fn is_untouched(before: FileFacts, after: FileFacts) -> bool {
    &&& is_one_file(before, after)
    &&& before.length == after.length
    &&& before.modified == after.modified
    &&& before.modified_nanos == after.modified_nanos
}

/// The log was at most written on while it was read, and is still where it was.
pub open spec fn is_only_grown(log: LogCapture) -> bool {
    &&& is_one_file(log.before, log.after)
    &&& log.before.length <= log.after.length
    &&& log.header_before@ == log.header_after@
    &&& log.path_after.is_file
    &&& is_one_file(log.path_after, log.before)
}

/// A snapshot is taken if and only if its source was not touched meanwhile and is still where
/// it was; a log beside it may have grown, and no more.
pub proof fn law_snapshot_needs_an_untouched_source(
    before: FileFacts,
    after: FileFacts,
    path_after: FileFacts,
    log: Option<LogCapture>,
)
    ensures
        adoption::capture_refusal(before, after, path_after, log) is None <==> is_untouched(
            before,
            after,
        ) && path_after.is_file && is_one_file(path_after, after) && (log is Some
            ==> is_only_grown(log->0)),
{
}

/// The file is intact, its references hold, its audit chain is sound and it has its name.
pub open spec fn is_sound(facts: SnapshotFacts, name: Seq<char>) -> bool {
    &&& facts.integrity@.len() == 1 && facts.integrity@[0]@ == "ok"@
    &&& facts.foreign_key_violations@.len() == 0
    &&& facts.audit.healthy
    &&& facts.name matches Some(n) && n@ == name
}

proof fn lemma_intact(facts: SnapshotFacts)
    ensures
        adoption::is_intact(facts) <==> facts.integrity@.len() == 1 && facts.integrity@[0]@
            == "ok"@,
{
    let list = text::texts(facts.integrity@);
    if list == seq!["ok"@] {
        assert(list[0] == "ok"@);
        assert(list.len() == 1);
    }
    if facts.integrity@.len() == 1 && facts.integrity@[0]@ == "ok"@ {
        assert(list =~= seq!["ok"@]);
    }
}

/// A source is adopted from only where it is sound and of no newer schema than is known; a
/// snapshot is published only where it is sound and of just the schema expected.
pub proof fn law_only_sound_boards_are_adopted(
    label: Seq<char>,
    facts: SnapshotFacts,
    name: Seq<char>,
    schema: usize,
)
    ensures
        adoption::source_refusal(label, facts, name, schema) is None <==> is_sound(facts, name)
            && facts.schema <= schema,
        adoption::snapshot_refusal(label, facts, name, schema) is None <==> is_sound(facts, name)
            && facts.schema == schema,
{
    lemma_intact(facts);
}

/// A board that is adopted is there behind the others, active, new and under its name, with
/// just the root it was given, if any. Someone asked for it; no active board had its name, and
/// no root enclosed its root. The receipt tells the source, its digest and its size.
pub proof fn law_adopted_board_is_there(
    pre: Registry,
    post: Registry,
    r: Result<WorkspaceAdoptReceipt, Error>,
    prepared: PreparedAdoption,
    root: Option<Seq<char>>,
    rootless: bool,
    actor: Seq<char>,
    digest: (String, u64),
    file: Seq<char>,
    now: i64,
)
    requires
        pre.wf(),
        root matches Some(path) ==> path.len() > 0 && path[0] == '/',
        adoption::adopted(pre, post, r, prepared, root, rootless, actor, digest, file, now),
        r is Ok,
    ensures
        text::trimmed(actor).len() > 0,
        rootless <==> root is None,
        place_laws::only_places_changed(pre, post) && post.history == pre.history,
        place_laws::on_record(pre, post, "board_adopted"@, text::trimmed(actor), now),
        post.boards@.len() == pre.boards@.len() + 1,
        forall|k: int| 0 <= k < pre.boards@.len() ==> #[trigger] post.boards@[k] == pre.boards@[k],
        forall|k: int|
            0 <= k < pre.boards@.len() ==> (#[trigger] pre.boards@[k]).name@ != prepared.name@
                || pre.boards@[k].archived,
        ({
            let b = post.boards@.last();
            &&& b.name@ == prepared.name@
            &&& b.created_at == now && b.last_used_at == now
            &&& !b.archived && b.archived_at is None && b.retirement_id is None
            &&& r->Ok_0.project.name@ == prepared.name@
            &&& r->Ok_0.project.board_path@ == b.board_path@
            &&& r->Ok_0.project.last_used_at == now
            &&& !r->Ok_0.project.archived && r->Ok_0.project.archived_at is None
        }),
        r->Ok_0.source_board_path@ == prepared.source_board_path@,
        r->Ok_0.source_sha256@ == digest.0@,
        r->Ok_0.source_bytes == digest.1,
        root is None ==> post.roots@ == pre.roots@ && r->Ok_0.root_path is None
            && r->Ok_0.project.workspace_roots@.len() == 0,
        root matches Some(path) ==> {
            &&& post.roots@.len() == pre.roots@.len() + 1
            &&& forall|k: int|
                0 <= k < pre.roots@.len() ==> #[trigger] post.roots@[k] == pre.roots@[k]
            &&& post.roots@.last().root_path@ == path
            &&& post.roots@.last().board_path@ == post.boards@.last().board_path@
            &&& place_laws::is_outside(pre, path)
            &&& r->Ok_0.root_path matches Some(shown) && shown@ == path
            &&& r->Ok_0.project.workspace_roots@.len() == 1
            &&& r->Ok_0.project.workspace_roots@[0]@ == path
        },
{
    assert forall|k: int| 0 <= k < pre.boards@.len() implies (#[trigger] pre.boards@[k]).name@
        != prepared.name@ || pre.boards@[k].archived by {
        assert(!tables::has_active_name(pre.boards@, prepared.name@, None));
    }
    let shown = text::texts(r->Ok_0.project.workspace_roots@);
    assert(shown.len() == r->Ok_0.project.workspace_roots@.len());
    match root {
        Some(path) => {
            place_laws::lemma_outside(pre, path);
            assert(shown[0] == path);
        },
        None => {
            assert(text::text_of(r->Ok_0.root_path) is None);
        },
    }
}

/// What an interrupted adoption left is cleared away: its staging folder and its marker, and
/// the files of its board where no board of that path is on record. A marker that points
/// outside is refused.
pub proof fn law_interrupted_adoption_is_cleared(
    r: Result<Option<Recovery>, Error>,
    root: Seq<char>,
    marker: AdoptionMarker,
    boards: Seq<BoardRow>,
)
    requires
        adoption::recovers(r, root, Some(marker), boards),
        r is Ok,
    ensures
        r->Ok_0 matches Some(found) && {
            &&& found.staging_dir@ == marker.staging_dir@
            &&& (forall|k: int|
                0 <= k < boards.len() ==> (#[trigger] boards[k]).board_path@ != marker.board_path@)
                ==> text::texts(found.orphan_files@).contains(marker.board_path@)
                && text::texts(found.orphan_files@).contains(marker.board_path@ + "-wal"@)
                && text::texts(found.orphan_files@).contains(marker.board_path@ + "-shm"@)
                && text::texts(found.orphan_files@).contains(marker.board_path@ + "-journal"@)
                && found.orphan_files@.len() == 4
            &&& (exists|k: int|
                0 <= k < boards.len() && (#[trigger] boards[k]).board_path@ == marker.board_path@)
                ==> found.orphan_files@.len() == 0
        },
{
    let q = tables::board_at(marker.board_path@);
    tables::lemma_first_index(boards, q);
    let n = tables::first_index(boards, q);
    let list = text::texts(r->Ok_0->0.orphan_files@);
    assert(list.len() == r->Ok_0->0.orphan_files@.len());
    if n < boards.len() {
        assert(q(boards[n]));
    } else {
        assert forall|k: int| 0 <= k < boards.len() implies (#[trigger] boards[k]).board_path@
            != marker.board_path@ by {
            assert(!q(boards[k]));
        }
        let path = marker.board_path@;
        assert(list[0] == path && list[1] == path + "-wal"@ && list[2] == path + "-shm"@ && list[3]
            == path + "-journal"@);
    }
}

} // verus!
