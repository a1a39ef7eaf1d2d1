//! Adopting an existing board file: what is checked of it, what is recorded of
//! it, and how an adoption that did not finish is undone.

use vstd::prelude::*;

use crate::clock;
use crate::json;
use crate::outside;
use crate::paths;
use crate::rules;
use crate::rules::AuditReport;
use crate::tables;
use crate::tables::BoardRow;
use crate::tables::Registry;
use crate::text;
use crate::text::Error;
use crate::workspace::ProjectRecord;
use crate::workspace::WorkspaceAdoptReceipt;
use crate::workspace_laws;
use crate::workspace_ops;

verus! {

/// The descriptor that the adoption helper finds the data root under.
pub const WORKSPACE_ADOPT_HELPER_ROOT_FD: i32 = 37;

/// The descriptor that the adoption helper finds the staged snapshot under.
pub const WORKSPACE_ADOPT_HELPER_SNAPSHOT_FD: i32 = 38;

// --------------------------------------------------------------------------- files

/// What the filesystem says of a file.
#[derive(Debug, Clone, Copy, PartialEq, Eq)]
pub struct FileFacts {
    pub device: u64,
    pub inode: u64,
    pub length: u64,
    pub modified: i64,
    pub modified_nanos: i64,
    pub is_file: bool,
    pub is_dir: bool,
    pub is_symlink: bool,
}

pub open spec fn same_file(a: FileFacts, b: FileFacts) -> bool {
    a.device == b.device && a.inode == b.inode
}

/// The file is the same one, and was not written in between.
pub open spec fn stable(before: FileFacts, after: FileFacts) -> bool {
    &&& same_file(before, after)
    &&& before.length == after.length
    &&& before.modified == after.modified
    &&& before.modified_nanos == after.modified_nanos
}

/// Which file it is.
pub fn metadata_identity(metadata: &FileFacts) -> (r: (u64, u64))
    ensures
        r.0 == metadata.device,
        r.1 == metadata.inode,
{
    (metadata.device, metadata.inode)
}

/// Whether a file stayed as it was.
pub fn metadata_stable(before: &FileFacts, after: &FileFacts) -> (r: bool)
    ensures
        r == stable(*before, *after),
{
    before.device == after.device && before.inode == after.inode && before.length == after.length
        && before.modified == after.modified && before.modified_nanos == after.modified_nanos
}

/// Why a path is not the regular file that is to be read, before it is opened.
pub open spec fn unopened_refusal(
    path: Seq<char>,
    label: Seq<char>,
    facts: FileFacts,
) -> Option<Seq<char>> {
    if facts.is_symlink {
        Some(label + " "@ + path + " is a symlink; pass the exact non-symlink path"@)
    } else if !facts.is_file {
        Some(path + " is not a regular file"@)
    } else {
        None
    }
}

pub fn check_unopened(path: &str, label: &str, facts: &FileFacts) -> (r: Result<(), Error>)
    ensures
        match unopened_refusal(path@, label@, *facts) {
            Some(m) => text::refused(r, m),
            None => r is Ok,
        },
{
    if facts.is_symlink {
        return text::refuse(
            label.to_owned().concat(" ").concat(path).concat(
                " is a symlink; pass the exact non-symlink path",
            ),
        );
    }
    if !facts.is_file {
        return text::refuse(path.to_owned().concat(" is not a regular file"));
    }
    Ok(())
}

/// The opened file is the one that was looked at.
pub fn check_opened(path: &str, label: &str, before: &FileFacts, opened: &FileFacts) -> (r: Result<
    (),
    Error,
>)
    ensures
        if opened.is_file && same_file(*before, *opened) {
            r is Ok
        } else {
            text::refused(
                r,
                label@ + " "@ + path@ + " changed identity while it was opened"@,
            )
        },
{
    if !opened.is_file || before.device != opened.device || before.inode != opened.inode {
        return text::refuse(
            label.to_owned().concat(" ").concat(path).concat(
                " changed identity while it was opened",
            ),
        );
    }
    Ok(())
}

/// A source path names its board without leading through a parent.
pub fn check_source_path(path: &str) -> (r: Result<(), Error>)
    ensures
        if paths::climbs(path@) {
            text::refused(
                r,
                "source board path "@ + path@
                    + " contains parent traversal; pass the exact board path"@,
            )
        } else {
            r is Ok
        },
{
    if paths::has_parent_traversal(path) {
        return text::refuse(
            "source board path ".to_owned().concat(path).concat(
                " contains parent traversal; pass the exact board path",
            ),
        );
    }
    Ok(())
}

/// The resolved path leads to the file that was opened.
pub fn check_resolved(path: &str, resolved: &FileFacts, opened: &FileFacts) -> (r: Result<(), Error>)
    ensures
        if resolved.is_file && same_file(*resolved, *opened) {
            r is Ok
        } else {
            text::refused(
                r,
                "source board "@ + path@ + " changed identity while it was resolved"@,
            )
        },
{
    if !resolved.is_file || resolved.device != opened.device || resolved.inode != opened.inode {
        return text::refuse(
            "source board ".to_owned().concat(path).concat(
                " changed identity while it was resolved",
            ),
        );
    }
    Ok(())
}

/// As many bytes were copied as were to be.
pub fn check_copied(length: u64, copied: u64) -> (r: Result<(), Error>)
    ensures
        if copied == length {
            r is Ok
        } else {
            text::refused(
                r,
                "source component changed length while capturing it: expected "@ + text::decimal(
                    length as int,
                ) + " bytes, copied "@ + text::decimal(copied as int),
            )
        },
{
    if copied != length {
        return text::refuse(
            "source component changed length while capturing it: expected ".to_owned().concat(
                text::show_u64(length).as_str(),
            ).concat(" bytes, copied ").concat(text::show_u64(copied).as_str()),
        );
    }
    Ok(())
}

// ------------------------------------------------------------------------- directories

/// Why a data root cannot be walked to.
pub open spec fn root_refusal(root: Seq<char>, is_symlink: bool) -> Option<Seq<char>> {
    if paths::climbs(root) {
        Some("registry data root "@ + root + " contains parent traversal"@)
    } else if is_symlink {
        Some("registry data root "@ + root + " is a symlink"@)
    } else {
        None
    }
}

/// The data root is reached without a parent component and is no link itself.
pub fn check_data_root(root: &str, is_symlink: bool) -> (r: Result<(), Error>)
    ensures
        match root_refusal(root@, is_symlink) {
            Some(m) => text::refused(r, m),
            None => r is Ok,
        },
{
    if paths::has_parent_traversal(root) {
        return text::refuse(
            "registry data root ".to_owned().concat(root).concat(" contains parent traversal"),
        );
    }
    if is_symlink {
        return text::refuse(
            "registry data root ".to_owned().concat(root).concat(" is a symlink"),
        );
    }
    Ok(())
}

/// Whether a mode lets the group or others in: one of its last six bits is set.
pub fn open_to_others(mode: u32) -> (r: bool)
    ensures
        r == (mode % 64 != 0),
{
    proof {
        assert((mode & 63 != 0) == (mode % 64 != 0)) by (bit_vector);
    }
    mode & 63 != 0
}

/// The boards directory is still the one that was pinned.
pub fn check_registry_chain(root: &str, current: &FileFacts, pinned: &FileFacts) -> (r: Result<
    (),
    Error,
>)
    ensures
        if same_file(*current, *pinned) {
            r is Ok
        } else {
            text::refused(
                r,
                "registry boards directory "@ + paths::below(root@, "boards"@)
                    + " changed identity"@,
            )
        },
{
    if current.device != pinned.device || current.inode != pinned.inode {
        return text::refuse(
            "registry boards directory ".to_owned().concat(
                paths::path_below(root, "boards").as_str(),
            ).concat(" changed identity"),
        );
    }
    Ok(())
}

/// A path still names the directory that was pinned.
pub fn check_pinned_dir(path: &str, label: &str, there: &FileFacts, opened: &FileFacts) -> (r:
    Result<(), Error>)
    ensures
        if !there.is_symlink && there.is_dir && same_file(*there, *opened) {
            r is Ok
        } else {
            text::refused(
                r,
                label@ + " "@ + path@ + " changed identity or became a symlink"@,
            )
        },
{
    if there.is_symlink || !there.is_dir || there.device != opened.device || there.inode
        != opened.inode {
        return text::refuse(
            label.to_owned().concat(" ").concat(path).concat(
                " changed identity or became a symlink",
            ),
        );
    }
    Ok(())
}

/// Where the data lies: a directory given for it, else one below the directory for
/// data, else one below the home directory.
pub fn data_root(given: Option<&str>, data_home: Option<&str>, home: Option<&str>) -> (r: Result<
    String,
    Error,
>)
    ensures
        match (text::str_of(given), text::str_of(data_home), text::str_of(home)) {
            (Some(path), _, _) => r is Ok && r->Ok_0@ == path,
            (None, Some(path), _) => r is Ok && r->Ok_0@ == paths::below(path, "kanban"@),
            (None, None, Some(path)) => r is Ok && r->Ok_0@ == paths::below(
                path,
                ".local/share/kanban"@,
            ),
            (None, None, None) => text::refused(r, "HOME is not set"@),
        },
{
    if let Some(path) = given {
        return Ok(path.to_owned());
    }
    if let Some(path) = data_home {
        return Ok(paths::path_below(path, "kanban"));
    }
    match home {
        Some(path) => Ok(paths::path_below(path, ".local/share/kanban")),
        None => text::refuse("HOME is not set".to_owned()),
    }
}

/// Where the data lies that enforcement is read from: no directory that a caller gives
/// decides it, so that none can point away from a managed registry.
pub fn canonical_data_root(data_home: Option<&str>, home: Option<&str>) -> (r: Result<
    String,
    Error,
>)
    ensures
        match (text::str_of(data_home), text::str_of(home)) {
            (Some(path), _) => r is Ok && r->Ok_0@ == paths::below(path, "kanban"@),
            (None, Some(path)) => r is Ok && r->Ok_0@ == paths::below(
                path,
                ".local/share/kanban"@,
            ),
            (None, None) => text::refused(r, "HOME is not set"@),
        },
{
    data_root(None, data_home, home)
}

/// How long a read waits for a lock, in milliseconds, and whether it tries again.
pub fn read_only_busy_backoff(count: i32) -> (r: (u64, bool))
    ensures
        r.0 == vstd::arithmetic::power2::pow2(
            if count < 0 {
                0
            } else if count > 7 {
                7
            } else {
                count as nat
            },
        ),
        r.1 == (count < 8),
{
    proof {
        vstd::arithmetic::power2::lemma2_to64();
    }
    let pause: u64 = if count <= 0 {
        1
    } else if count == 1 {
        2
    } else if count == 2 {
        4
    } else if count == 3 {
        8
    } else if count == 4 {
        16
    } else if count == 5 {
        32
    } else if count == 6 {
        64
    } else {
        128
    };
    (pause, count < 8)
}

/// Where the helper opens the staged snapshot.
pub fn workspace_adopt_snapshot_uri() -> (r: String)
    ensures
        r@ == "file:/dev/fd/"@ + text::decimal(WORKSPACE_ADOPT_HELPER_SNAPSHOT_FD as int)
            + "?mode=ro&immutable=1"@,
{
    "file:/dev/fd/".to_owned().concat(
        text::show_i64(WORKSPACE_ADOPT_HELPER_SNAPSHOT_FD as i64).as_str(),
    ).concat("?mode=ro&immutable=1")
}

// ----------------------------------------------------------------------- the capture

/// What was seen of the write-ahead log while it was copied.
#[derive(Debug)]
pub struct LogCapture {
    pub before: FileFacts,
    pub after: FileFacts,
    pub path_after: FileFacts,
    pub header_before: Vec<u8>,
    pub header_after: Vec<u8>,
}

/// The log was not restarted while it was copied: the same file, no shorter, under
/// the same header.
pub open spec fn log_kept(log: LogCapture) -> bool {
    &&& same_file(log.before, log.after)
    &&& log.after.length >= log.before.length
    &&& log.header_before@ == log.header_after@
}

/// Why what was copied is no consistent snapshot.
pub open spec fn capture_refusal(
    before: FileFacts,
    after: FileFacts,
    path_after: FileFacts,
    log: Option<LogCapture>,
) -> Option<Seq<char>> {
    if !stable(before, after) || !path_after.is_file || !same_file(path_after, after) {
        Some(
            "source board changed while its consistent snapshot was captured; retry adoption"@,
        )
    } else if log is Some && !log_kept(log->0) {
        Some(
            "source WAL was reset while its consistent snapshot was captured; retry adoption"@,
        )
    } else if log is Some && !(log->0.path_after.is_file && same_file(
        log->0.path_after,
        log->0.before,
    )) {
        Some("source WAL changed identity while its snapshot was captured; retry adoption"@)
    } else {
        None
    }
}

fn same_bytes(a: &[u8], b: &[u8]) -> (r: bool)
    ensures
        r == (a@ == b@),
{
    if a.len() != b.len() {
        return false;
    }
    let mut i: usize = 0;
    while i < a.len()
        invariant
            i <= a@.len(),
            a@.len() == b@.len(),
            forall|k: int| 0 <= k < i ==> a@[k] == b@[k],
        decreases a.len() - i,
    {
        if a[i] != b[i] {
            return false;
        }
        i = i + 1;
    }
    proof {
        assert(a@ =~= b@);
    }
    true
}

/// What was copied is a consistent snapshot of the source.
pub fn check_capture(
    before: &FileFacts,
    after: &FileFacts,
    path_after: &FileFacts,
    log: &Option<LogCapture>,
) -> (r: Result<(), Error>)
    ensures
        match capture_refusal(*before, *after, *path_after, *log) {
            Some(m) => text::refused(r, m),
            None => r is Ok,
        },
{
    if !metadata_stable(before, after) || !path_after.is_file || path_after.device != after.device
        || path_after.inode != after.inode {
        return text::refuse(
            "source board changed while its consistent snapshot was captured; retry adoption".to_owned(),
        );
    }
    if let Some(log) = log {
        if log.before.device != log.after.device || log.before.inode != log.after.inode
            || log.after.length < log.before.length || !same_bytes(
            log.header_before.as_slice(),
            log.header_after.as_slice(),
        ) {
            return text::refuse(
                "source WAL was reset while its consistent snapshot was captured; retry adoption".to_owned(),
            );
        }
        if !log.path_after.is_file || log.path_after.device != log.before.device
            || log.path_after.inode != log.before.inode {
            return text::refuse(
                "source WAL changed identity while its snapshot was captured; retry adoption".to_owned(),
            );
        }
    }
    Ok(())
}

// ---------------------------------------------------------------------- the snapshot

/// What a database says of itself.
#[derive(Debug)]
pub struct SnapshotFacts {
    pub integrity: Vec<String>,
    pub foreign_key_violations: Vec<String>,
    pub schema: usize,
    pub name: Option<String>,
    pub audit: AuditReport,
}

pub open spec fn is_intact(facts: SnapshotFacts) -> bool {
    text::texts(facts.integrity@) == seq!["ok"@]
}

fn intact(facts: &SnapshotFacts) -> (r: bool)
    ensures
        r == is_intact(*facts),
{
    let ghost rows = text::texts(facts.integrity@);
    if facts.integrity.len() == 1 && text::same(facts.integrity[0].as_str(), "ok") {
        proof {
            assert(rows =~= seq!["ok"@]);
        }
        return true;
    }
    proof {
        if rows == seq!["ok"@] {
            assert(rows.len() == 1);
            assert(rows[0] == "ok"@);
        }
    }
    false
}

/// Why a source board is not adopted under a name.
pub open spec fn source_refusal(
    path: Seq<char>,
    facts: SnapshotFacts,
    name: Seq<char>,
    supported: usize,
) -> Option<Seq<char>> {
    if !is_intact(facts) {
        Some(
            "source board "@ + path + " failed integrity check: "@ + text::joined(
                text::texts(facts.integrity@),
                ", "@,
            ),
        )
    } else if facts.foreign_key_violations@.len() > 0 {
        Some(
            "source board"@ + " has foreign key violations: "@ + text::joined(
                text::texts(facts.foreign_key_violations@),
                "; "@,
            ),
        )
    } else if facts.schema > supported {
        Some(
            "source board "@ + path + " is schema version "@ + text::decimal(facts.schema as int)
                + ", newer than supported version "@ + text::decimal(supported as int),
        )
    } else if !facts.audit.healthy {
        Some(
            "source board "@ + path + " has an invalid audit chain: "@ + text::joined(
                text::texts(facts.audit.errors@),
                "; "@,
            ),
        )
    } else if facts.name is None {
        Some("source board name metadata is missing"@)
    } else if facts.name->0@ != name {
        Some("source board name is "@ + facts.name->0@ + ", not "@ + name)
    } else {
        None
    }
}

/// No row refers to one that is not there.
pub fn require_foreign_key_clean(violations: &[String], label: &str) -> (r: Result<(), Error>)
    ensures
        if violations@.len() > 0 {
            text::refused(
                r,
                label@ + " has foreign key violations: "@ + text::joined(
                    text::texts(violations@),
                    "; "@,
                ),
            )
        } else {
            r is Ok
        },
{
    if violations.len() > 0 {
        return text::refuse(
            label.to_owned().concat(" has foreign key violations: ").concat(
                text::join(violations, "; ").as_str(),
            ),
        );
    }
    Ok(())
}

/// A source board can be adopted under a name.
pub fn check_source(path: &str, facts: &SnapshotFacts, name: &str, supported: usize) -> (r: Result<
    (),
    Error,
>)
    ensures
        match source_refusal(path@, *facts, name@, supported) {
            Some(m) => text::refused(r, m),
            None => r is Ok,
        },
{
    let head = "source board ".to_owned().concat(path);
    if !intact(facts) {
        return text::refuse(
            head.concat(" failed integrity check: ").concat(
                text::join(facts.integrity.as_slice(), ", ").as_str(),
            ),
        );
    }
    match require_foreign_key_clean(facts.foreign_key_violations.as_slice(), "source board") {
        Ok(_) => {},
        Err(e) => {
            return Err(e);
        },
    }
    if facts.schema > supported {
        return text::refuse(
            head.concat(" is schema version ").concat(
                text::show_u64(facts.schema as u64).as_str(),
            ).concat(", newer than supported version ").concat(
                text::show_u64(supported as u64).as_str(),
            ),
        );
    }
    if !facts.audit.healthy {
        return text::refuse(
            head.concat(" has an invalid audit chain: ").concat(
                text::join(facts.audit.errors.as_slice(), "; ").as_str(),
            ),
        );
    }
    match &facts.name {
        None => text::refuse("source board name metadata is missing".to_owned()),
        Some(found) => {
            if !text::same(found.as_str(), name) {
                return text::refuse(
                    "source board name is ".to_owned().concat(found.as_str()).concat(
                        ", not ",
                    ).concat(name),
                );
            }
            Ok(())
        },
    }
}

/// Why a copied board is not the one that is to be adopted.
pub open spec fn snapshot_refusal(
    label: Seq<char>,
    facts: SnapshotFacts,
    name: Seq<char>,
    expected: usize,
) -> Option<Seq<char>> {
    if !is_intact(facts) {
        Some(
            label + " failed integrity check: "@ + text::joined(
                text::texts(facts.integrity@),
                ", "@,
            ),
        )
    } else if facts.foreign_key_violations@.len() > 0 {
        Some(
            label + " has foreign key violations: "@ + text::joined(
                text::texts(facts.foreign_key_violations@),
                "; "@,
            ),
        )
    } else if facts.schema != expected {
        Some(
            label + " is schema version "@ + text::decimal(facts.schema as int) + ", expected "@
                + text::decimal(expected as int),
        )
    } else if facts.name is None {
        Some(label + " name metadata is missing"@)
    } else if facts.name->0@ != name {
        Some(label + " name is "@ + facts.name->0@ + ", not "@ + name)
    } else if !facts.audit.healthy {
        Some(
            label + " has an invalid audit chain: "@ + text::joined(
                text::texts(facts.audit.errors@),
                "; "@,
            ),
        )
    } else {
        None
    }
}

/// A copied board is intact, current, and the one that is to be adopted.
pub fn validate_board_snapshot(
    label: &str,
    facts: &SnapshotFacts,
    name: &str,
    expected_schema: usize,
) -> (r: Result<(), Error>)
    ensures
        match snapshot_refusal(label@, *facts, name@, expected_schema) {
            Some(m) => text::refused(r, m),
            None => r is Ok,
        },
{
    let head = label.to_owned();
    if !intact(facts) {
        return text::refuse(
            head.concat(" failed integrity check: ").concat(
                text::join(facts.integrity.as_slice(), ", ").as_str(),
            ),
        );
    }
    match require_foreign_key_clean(facts.foreign_key_violations.as_slice(), label) {
        Ok(_) => {},
        Err(e) => {
            return Err(e);
        },
    }
    if facts.schema != expected_schema {
        return text::refuse(
            head.concat(" is schema version ").concat(
                text::show_u64(facts.schema as u64).as_str(),
            ).concat(", expected ").concat(text::show_u64(expected_schema as u64).as_str()),
        );
    }
    match &facts.name {
        None => {
            return text::refuse(head.concat(" name metadata is missing"));
        },
        Some(found) => {
            if !text::same(found.as_str(), name) {
                return text::refuse(
                    head.concat(" name is ").concat(found.as_str()).concat(", not ").concat(name),
                );
            }
        },
    }
    if !facts.audit.healthy {
        return text::refuse(
            head.concat(" has an invalid audit chain: ").concat(
                text::join(facts.audit.errors.as_slice(), "; ").as_str(),
            ),
        );
    }
    Ok(())
}

/// The digest and the length of a snapshot that was read as a whole.
pub fn hash_file(is_file: bool, bytes: &[u8], length: u64) -> (r: Result<(String, u64), Error>)
    ensures
        if !is_file {
            text::refused(r, "adopted snapshot handle is not a regular file"@)
        } else if bytes@.len() != length {
            text::refused(r, "adopted snapshot changed length while hashing it"@)
        } else {
            r is Ok && r->Ok_0.0@ == rules::sha256_hex(bytes@) && r->Ok_0.1 == length
        },
{
    if !is_file {
        return text::refuse("adopted snapshot handle is not a regular file".to_owned());
    }
    if bytes.len() as u64 != length {
        return text::refuse("adopted snapshot changed length while hashing it".to_owned());
    }
    Ok((rules::bytes_sha256(bytes), length))
}

// --------------------------------------------------------------------------- cleanup

/// The message of an error under a context: the context, a colon, the message.
pub open spec fn under_context(context: Seq<char>, message: Seq<char>) -> Seq<char> {
    context + ": "@ + message
}

/// The outcome of an adoption together with that of its cleanup.
pub fn combine_cleanup<T>(result: Result<T, Error>, cleanup: Result<(), Error>) -> (r: Result<
    T,
    Error,
>)
    ensures
        match (result, cleanup) {
            (Ok(value), Ok(_)) => r == Ok::<T, Error>(value),
            (Err(e), Ok(_)) => text::refused(r, e.message@),
            (Ok(_), Err(c)) => text::refused(
                r,
                under_context("adoption cleanup failed: "@ + c.message@, c.message@),
            ),
            (Err(e), Err(c)) => text::refused(
                r,
                under_context("adoption cleanup also failed: "@ + c.message@, e.message@),
            ),
        },
{
    match (result, cleanup) {
        (Ok(value), Ok(_)) => Ok(value),
        (Err(e), Ok(_)) => Err(e),
        (Ok(_), Err(c)) => text::refuse(
            "adoption cleanup failed: ".to_owned().concat(c.message.as_str()).concat(": ").concat(
                c.message.as_str(),
            ),
        ),
        (Err(e), Err(c)) => text::refuse(
            "adoption cleanup also failed: ".to_owned().concat(c.message.as_str()).concat(
                ": ",
            ).concat(e.message.as_str()),
        ),
    }
}

/// What removing files came to; each failure keeps its file as evidence.
pub fn removal_outcome(what: &str, failures: &[String]) -> (r: Result<(), Error>)
    ensures
        if failures@.len() == 0 {
            r is Ok
        } else {
            text::refused(
                r,
                "failed to "@ + what@ + "; retained evidence: "@ + text::joined(
                    text::texts(failures@),
                    "; "@,
                ),
            )
        },
{
    if failures.len() == 0 {
        return Ok(());
    }
    text::refuse(
        "failed to ".to_owned().concat(what).concat("; retained evidence: ").concat(
            text::join(failures, "; ").as_str(),
        ),
    )
}

/// The files of a database: itself and what may stand beside it.
pub open spec fn artifacts_of(path: Seq<char>) -> Seq<Seq<char>> {
    seq![path, path + "-wal"@, path + "-shm"@, path + "-journal"@]
}

/// The files of a database.
pub fn database_artifacts(path: &str) -> (r: Vec<String>)
    ensures
        text::texts(r@) == artifacts_of(path@),
{
    let out: Vec<String> = vec![
        path.to_owned(),
        paths::database_artifact_path(path, "-wal"),
        paths::database_artifact_path(path, "-shm"),
        paths::database_artifact_path(path, "-journal"),
    ];
    proof {
        assert(text::texts(out@) =~= artifacts_of(path@));
    }
    out
}

// -------------------------------------------------------------------------- the marker

/// What is written down of an adoption before it touches anything.
#[derive(Debug)]
pub struct AdoptionMarker {
    pub board_name: String,
    pub board_path: String,
    pub root_path: Option<String>,
    pub source_board_path: String,
    pub staging_dir: String,
    pub created_at: i64,
}

/// The marker speaks of files below the data root only.
pub open spec fn marker_fits(root: Seq<char>, marker: AdoptionMarker) -> bool {
    match paths::parent_of(marker.board_path@) {
        None => false,
        Some(parent) => {
            &&& paths::within(paths::below(root, "boards"@), parent)
            &&& paths::within(
                paths::below(root, ".workspace-adopt-staging"@),
                marker.staging_dir@,
            )
        },
    }
}

/// Whether a marker speaks of files below the data root only.
pub fn adoption_marker_matches_root(root: &str, marker: &AdoptionMarker) -> (r: bool)
    ensures
        r == marker_fits(root@, *marker),
{
    let boards_root = paths::path_below(root, "boards");
    let adoption_root = paths::adoption_staging_root(root);
    match paths::parent(marker.board_path.as_str()) {
        None => false,
        Some(parent) => paths::adoption_path_within_root(boards_root.as_str(), parent.as_str())
            && paths::adoption_path_within_root(
            adoption_root.as_str(),
            marker.staging_dir.as_str(),
        ),
    }
}

/// How an adoption that did not finish is cleared away.
#[derive(Debug)]
pub struct Recovery {
    /// The files of a board that was published and never registered.
    pub orphan_files: Vec<String>,
    pub staging_dir: String,
    pub marker_path: String,
}

/// What recovery after a crash decides: nothing without a marker; a marker outside
/// the data root is refused; the board goes unless the registry has it, and the
/// staging directory and the marker go in any case.
pub open spec fn recovers(
    r: Result<Option<Recovery>, Error>,
    root: Seq<char>,
    marker: Option<AdoptionMarker>,
    boards: Seq<BoardRow>,
) -> bool {
    let marker_path = paths::below(root, ".workspace-adopt.json"@);
    match marker {
        None => r is Ok && r->Ok_0 is None,
        Some(marker) => if !marker_fits(root, marker) {
            text::refused(
                r,
                "adoption marker "@ + marker_path + " points outside registry-owned storage"@,
            )
        } else {
            &&& r is Ok
            &&& r->Ok_0 is Some
            &&& text::texts(r->Ok_0->0.orphan_files@) == if tables::first_index(
                boards,
                tables::board_at(marker.board_path@),
            ) < boards.len() {
                seq![]
            } else {
                artifacts_of(marker.board_path@)
            }
            &&& r->Ok_0->0.staging_dir@ == marker.staging_dir@
            &&& r->Ok_0->0.marker_path@ == marker_path
        },
    }
}

/// How an adoption that did not finish is cleared away, if there is one. `boards`
/// are those that the registry holds.
pub fn reconcile_pending_adoption(
    root: &str,
    marker: &Option<AdoptionMarker>,
    boards: &[BoardRow],
) -> (r: Result<Option<Recovery>, Error>)
    ensures
        recovers(r, root@, *marker, boards@),
{
    let marker_path = paths::adoption_marker_path(root);
    match marker {
        None => Ok(None),
        Some(marker) => {
            if !adoption_marker_matches_root(root, marker) {
                return text::refuse(
                    "adoption marker ".to_owned().concat(marker_path.as_str()).concat(
                        " points outside registry-owned storage",
                    ),
                );
            }
            let committed = tables::find_board(boards, marker.board_path.as_str()) < boards.len();
            let orphan_files = if committed {
                Vec::new()
            } else {
                database_artifacts(marker.board_path.as_str())
            };
            proof {
                if committed {
                    assert(text::texts(orphan_files@) =~= seq![]);
                }
            }
            Ok(
                Some(
                    Recovery {
                        orphan_files,
                        staging_dir: marker.staging_dir.clone(),
                        marker_path,
                    },
                ),
            )
        },
    }
}

/// Where an adoption works, and what it writes down first.
#[derive(Debug)]
pub struct AdoptionRun {
    pub marker_path: String,
    pub adoption_root: String,
    pub marker: AdoptionMarker,
}

impl AdoptionRun {
    /// An adoption of `source_board_path` into `board_path`, staged in a directory of
    /// the given name.
    pub fn start(
        root: &str,
        board_name: &str,
        board_path: &str,
        source_board_path: &str,
        root_path: Option<String>,
        staging_name: &str,
        now: i64,
    ) -> (r: AdoptionRun)
        ensures
            r.marker_path@ == paths::below(root@, ".workspace-adopt.json"@),
            r.adoption_root@ == paths::below(root@, ".workspace-adopt-staging"@),
            r.marker.board_name@ == board_name@,
            r.marker.board_path@ == board_path@,
            r.marker.root_path == root_path,
            r.marker.source_board_path@ == source_board_path@,
            r.marker.staging_dir@ == paths::below(
                paths::below(root@, ".workspace-adopt-staging"@),
                staging_name@,
            ),
            r.marker.created_at == now,
    {
        let adoption_root = paths::adoption_staging_root(root);
        let staging_dir = paths::path_below(adoption_root.as_str(), staging_name);
        AdoptionRun {
            marker_path: paths::adoption_marker_path(root),
            adoption_root,
            marker: AdoptionMarker {
                board_name: board_name.to_owned(),
                board_path: board_path.to_owned(),
                root_path,
                source_board_path: source_board_path.to_owned(),
                staging_dir,
                created_at: now,
            },
        }
    }

    /// The files that go when an adoption failed: those of the board where it was
    /// published already.
    pub fn cleanup_after_failure(&self, published: bool) -> (r: Recovery)
        ensures
            text::texts(r.orphan_files@) == if published {
                artifacts_of(self.marker.board_path@)
            } else {
                seq![]
            },
            r.staging_dir@ == self.marker.staging_dir@,
            r.marker_path@ == self.marker_path@,
    {
        let orphan_files = if published {
            database_artifacts(self.marker.board_path.as_str())
        } else {
            Vec::new()
        };
        proof {
            if !published {
                assert(text::texts(orphan_files@) =~= seq![]);
            }
        }
        Recovery {
            orphan_files,
            staging_dir: self.marker.staging_dir.clone(),
            marker_path: self.marker_path.clone(),
        }
    }

    /// The files that go when an adoption succeeded.
    pub fn cleanup_after_success(&self) -> (r: Recovery)
        ensures
            r.orphan_files@.len() == 0,
            r.staging_dir@ == self.marker.staging_dir@,
            r.marker_path@ == self.marker_path@,
    {
        Recovery {
            orphan_files: Vec::new(),
            staging_dir: self.marker.staging_dir.clone(),
            marker_path: self.marker_path.clone(),
        }
    }
}

// -------------------------------------------------------------------------- adopting

/// A board file that was captured, checked and copied.
#[derive(Debug)]
pub struct PreparedAdoption {
    pub source_board_path: String,
    pub name: String,
}

/// Why an adoption is refused for how it is asked for.
pub open spec fn request_refusal(
    actor: Seq<char>,
    workspace: bool,
    rootless: bool,
) -> Option<Seq<char>> {
    if text::trimmed(actor).len() == 0 {
        Some("author is required"@)
    } else if rootless && workspace {
        Some("--rootless cannot be combined with --workspace"@)
    } else if !rootless && !workspace {
        Some("workspace adopt requires either --workspace PATH or --rootless"@)
    } else {
        None
    }
}

/// How an adoption is asked for makes sense; the actor, trimmed.
pub fn check_adoption_request(actor: &str, workspace: bool, rootless: bool) -> (r: Result<
    &str,
    Error,
>)
    ensures
        match request_refusal(actor@, workspace, rootless) {
            Some(m) => text::refused(r, m),
            None => r is Ok && r->Ok_0@ == text::trimmed(actor@),
        },
{
    let by = match rules::validate_rule_actor(actor) {
        Ok(by) => by,
        Err(e) => {
            return Err(e);
        },
    };
    if rootless && workspace {
        return text::refuse("--rootless cannot be combined with --workspace".to_owned());
    }
    if !rootless && !workspace {
        return text::refuse(
            "workspace adopt requires either --workspace PATH or --rootless".to_owned(),
        );
    }
    Ok(by)
}

impl Registry {
    /// Why a board cannot be adopted under a name at a canonical root.
    pub open spec fn place_refusal(
        self,
        root: Option<Seq<char>>,
        name: Seq<char>,
    ) -> Option<Seq<char>> {
        let free = if tables::has_active_name(self.boards@, name, None) {
            Some("a Kanban board is already named "@ + name)
        } else {
            None
        };
        match root {
            None => free,
            Some(root) => match self.exact_rows(root) {
                Some((i, j)) => Some(
                    root + " is already registered to board "@ + self.boards@[j].name@,
                ),
                None => match self.enclosure(root) {
                    Err(m) => Some(m),
                    Ok(Some((i, j))) => Some(
                        root + " is already inside Kanban project "@ + self.boards@[j].name@
                            + ".\nTo share that board:        kanban workspace attach --to "@
                            + self.boards@[j].name@
                            + "\nTo create a separate board: use a different --workspace, or pass --rootless"@,
                    ),
                    Ok(None) => free,
                },
            },
        }
    }

    /// A board can be adopted under a name at a canonical root.
    pub fn check_adoption_place(&self, root: Option<&str>, name: &str) -> (r: Result<(), Error>)
        ensures
            match self.place_refusal(text::str_of(root), name@) {
                Some(m) => text::refused(r, m),
                None => r is Ok,
            },
    {
        if let Some(root) = root {
            if let Some((_, j)) = self.find_exact(root) {
                return text::refuse(
                    root.to_owned().concat(" is already registered to board ").concat(
                        self.boards[j].name.as_str(),
                    ),
                );
            }
            match self.find_enclosure(root) {
                Err(e) => {
                    return Err(e);
                },
                Ok(Some((_, j))) => {
                    let inside = self.boards[j].name.as_str();
                    return text::refuse(
                        root.to_owned().concat(" is already inside Kanban project ").concat(
                            inside,
                        ).concat(
                            ".\nTo share that board:        kanban workspace attach --to ",
                        ).concat(inside).concat(
                            "\nTo create a separate board: use a different --workspace, or pass --rootless",
                        ),
                    );
                },
                Ok(None) => {},
            }
        }
        if tables::active_named(self.boards.as_slice(), name, None) {
            return text::refuse("a Kanban board is already named ".to_owned().concat(name));
        }
        Ok(())
    }

    /// Why an adoption is refused.
    pub open spec fn adopt_refusal(
        self,
        name: Seq<char>,
        root: Option<Seq<char>>,
        rootless: bool,
        actor: Seq<char>,
        file: Seq<char>,
    ) -> Option<Seq<char>> {
        if request_refusal(actor, root is Some, rootless) is Some {
            request_refusal(actor, root is Some, rootless)
        } else if self.place_refusal(root, name) is Some {
            self.place_refusal(root, name)
        } else {
            self.insert_refusal(name, workspace_ops::new_board_path(self.data_root@, file), root)
        }
    }

    /// Record the adoption of a prepared board under a given file name at a given
    /// time. The root is a canonical path; the digest and the length are those of
    /// the published file.
    pub fn adopt_snapshot(
        &mut self,
        prepared: &PreparedAdoption,
        root: Option<&str>,
        rootless: bool,
        actor: &str,
        digest: (String, u64),
        file: &str,
        now: i64,
    ) -> (r: Result<WorkspaceAdoptReceipt, Error>)
        ensures
            adopted(
                *old(self),
                *final(self),
                r,
                *prepared,
                text::str_of(root),
                rootless,
                actor@,
                digest,
                file@,
                now,
            ),
            old(self).wf() ==> final(self).wf(),
    {
        let by = match check_adoption_request(actor, root.is_some(), rootless) {
            Ok(by) => by,
            Err(e) => {
                return Err(e);
            },
        };
        let name = prepared.name.as_str();
        match self.check_adoption_place(root, name) {
            Ok(_) => {},
            Err(e) => {
                return Err(e);
            },
        }
        let boards_dir = paths::path_below(self.data_root.as_str(), "boards");
        let path = paths::path_below(
            boards_dir.as_str(),
            file.to_owned().concat(".db").as_str(),
        );
        match self.check_insert(name, path.as_str(), root) {
            Ok(_) => {},
            Err(e) => {
                return Err(e);
            },
        }
        self.add_board(name, path.as_str(), root, now);
        let root_path = match root {
            Some(root) => Some(root.to_owned()),
            None => None,
        };
        let root_json = json::write_optional(&root_path);
        let bytes = text::show_u64(digest.1);
        let members: Vec<String> = vec![
            json::text_member("boardPath", path.as_str()),
            json::text_member("name", name),
            json::write_member("rootPath", root_json.as_str()),
            json::text_member("sourceBoardPath", prepared.source_board_path.as_str()),
            json::write_member("sourceBytes", bytes.as_str()),
            json::text_member("sourceSha256", digest.0.as_str()),
        ];
        proof {
            assert(text::texts(members@) =~= seq![
                json::member("boardPath"@, outside::json_text(path@)),
                json::member("name"@, outside::json_text(name@)),
                json::member("rootPath"@, json::optional(text::str_of(root))),
                json::member(
                    "sourceBoardPath"@,
                    outside::json_text(prepared.source_board_path@),
                ),
                json::member("sourceBytes"@, text::decimal(digest.1 as int)),
                json::member("sourceSha256"@, outside::json_text(digest.0@)),
            ]);
        }
        let payload = json::write_object(members.as_slice());
        let subject = "workspace:".to_owned().concat(path.as_str());
        tables::append_registry_event(
            &mut self.events,
            subject.as_str(),
            "board_adopted",
            by,
            payload.as_str(),
            now,
        );
        proof {
            if old(self).wf() {
                workspace_ops::lemma_board_added_wf(
                    *old(self),
                    *self,
                    path@,
                    name@,
                    text::str_of(root),
                    now,
                );
            }
        }
        let workspace_roots: Vec<String> = match root {
            Some(root) => vec![root.to_owned()],
            None => Vec::new(),
        };
        proof {
            assert(text::texts(workspace_roots@) =~= root_list(text::str_of(root)));
        }
        Ok(
            WorkspaceAdoptReceipt {
                project: ProjectRecord {
                    name: name.to_owned(),
                    board_path: path,
                    workspace_roots,
                    last_used_at: now,
                    archived: false,
                    archived_at: None,
                    archived_by: None,
                    archived_note: None,
                },
                root_path,
                source_board_path: prepared.source_board_path.clone(),
                source_sha256: digest.0,
                source_bytes: digest.1,
            },
        )
    }

    /// Record the adoption of a prepared board. The name of its file is a random
    /// UUID.
    pub fn adopt(
        &mut self,
        prepared: &PreparedAdoption,
        root: Option<&str>,
        rootless: bool,
        actor: &str,
        digest: (String, u64),
    ) -> (r: Result<WorkspaceAdoptReceipt, Error>)
        ensures
            exists|file: Seq<char>, now: i64|
                workspace_ops::is_uuid_text(file) && #[trigger] adopted(
                    *old(self),
                    *final(self),
                    r,
                    *prepared,
                    text::str_of(root),
                    rootless,
                    actor@,
                    digest,
                    file,
                    now,
                ),
            old(self).wf() ==> final(self).wf(),
    {
        let file = workspace_ops::new_uuid();
        let now: i64 = clock::now_ms();
        self.adopt_snapshot(prepared, root, rootless, actor, digest, file.as_str(), now)
    }
}

pub open spec fn root_list(root: Option<Seq<char>>) -> Seq<Seq<char>> {
    match root {
        Some(root) => seq![root],
        None => seq![],
    }
}

/// What an adoption returns and changes.
pub open spec fn adopted(
    pre: Registry,
    post: Registry,
    r: Result<WorkspaceAdoptReceipt, Error>,
    prepared: PreparedAdoption,
    root: Option<Seq<char>>,
    rootless: bool,
    actor: Seq<char>,
    digest: (String, u64),
    file: Seq<char>,
    now: i64,
) -> bool {
    let name = prepared.name@;
    let path = workspace_ops::new_board_path(pre.data_root@, file);
    match pre.adopt_refusal(name, root, rootless, actor, file) {
        Some(m) => post == pre && text::refused(r, m),
        None => {
            &&& workspace_ops::board_added(pre, post, path, name, root, now)
            &&& tables::audited(
                pre.events@,
                post.events@,
                "workspace:"@ + path,
                "board_adopted"@,
                text::trimmed(actor),
                json::object(
                    seq![
                        json::member("boardPath"@, outside::json_text(path)),
                        json::member("name"@, outside::json_text(name)),
                        json::member("rootPath"@, json::optional(root)),
                        json::member(
                            "sourceBoardPath"@,
                            outside::json_text(prepared.source_board_path@),
                        ),
                        json::member("sourceBytes"@, text::decimal(digest.1 as int)),
                        json::member("sourceSha256"@, outside::json_text(digest.0@)),
                    ],
                ),
                now,
            )
            &&& r is Ok
            &&& r->Ok_0.project.name@ == name
            &&& r->Ok_0.project.board_path@ == path
            &&& text::texts(r->Ok_0.project.workspace_roots@) == root_list(root)
            &&& r->Ok_0.project.last_used_at == now
            &&& !r->Ok_0.project.archived
            &&& r->Ok_0.project.archived_at is None
            &&& r->Ok_0.project.archived_by is None
            &&& r->Ok_0.project.archived_note is None
            &&& text::text_of(r->Ok_0.root_path) == root
            &&& r->Ok_0.source_board_path@ == prepared.source_board_path@
            &&& r->Ok_0.source_sha256@ == digest.0@
            &&& r->Ok_0.source_bytes == digest.1
        },
    }
}

/// An adoption keeps the names of active boards unique.
pub proof fn law_adopt_keeps_names_unique(
    pre: Registry,
    post: Registry,
    r: Result<WorkspaceAdoptReceipt, Error>,
    prepared: PreparedAdoption,
    root: Option<Seq<char>>,
    rootless: bool,
    actor: Seq<char>,
    digest: (String, u64),
    file: Seq<char>,
    now: i64,
)
    requires
        workspace_laws::active_names_unique(pre.boards@),
        adopted(pre, post, r, prepared, root, rootless, actor, digest, file, now),
    ensures
        workspace_laws::active_names_unique(post.boards@),
{
    if pre.adopt_refusal(prepared.name@, root, rootless, actor, file) is None {
        assert forall|i: int, j: int|
            0 <= i < j < post.boards@.len() && !(#[trigger] post.boards@[i]).archived && !(
            #[trigger] post.boards@[j]).archived implies post.boards@[i].name@
            != post.boards@[j].name@ by {
            if j == pre.boards@.len() {
                assert(post.boards@[i] == pre.boards@[i]);
                assert(!tables::has_active_name(pre.boards@, prepared.name@, None));
            }
        }
    }
}

/// Recovery leaves the files of a board alone that the registry holds.
pub proof fn law_recovery_keeps_recorded_boards(
    r: Result<Option<Recovery>, Error>,
    root: Seq<char>,
    marker: AdoptionMarker,
    boards: Seq<BoardRow>,
    i: int,
)
    requires
        recovers(r, root, Some(marker), boards),
        marker_fits(root, marker),
        0 <= i < boards.len(),
        boards[i].board_path@ == marker.board_path@,
    ensures
        r is Ok,
        r->Ok_0->0.orphan_files@.len() == 0,
{
    let p = tables::board_at(marker.board_path@);
    tables::lemma_first_index(boards, p);
    if tables::first_index(boards, p) >= boards.len() {
        assert(!p(boards[i]));
    }
    assert(text::texts(r->Ok_0->0.orphan_files@).len() == r->Ok_0->0.orphan_files@.len());
}

} // verus!
