//! Operator rules: their records, their validation and the tags that decide
//! where they apply.

use vstd::prelude::*;

use crate::outside;
use crate::text;
use crate::text::Error;

verus! {

/// One operator rule of the registry's tag-scoped document.
#[derive(Debug, Clone)]
pub struct Rule {
    pub id: String,
    pub body: String,
    pub author: String,
    pub archived: bool,
    pub created_at: i64,
    pub updated_at: i64,
    /// Selector tags (`ALL`, `ONLY:<board>`, `EXCEPT:<board>`) and subsystem tags.
    pub tags: Vec<String>,
    pub source_board: Option<String>,
    pub source_rule_id: Option<String>,
    pub source_registry_uuid: Option<String>,
    pub source_boards: Option<Vec<String>>,
    pub source_content_sha256: Option<String>,
}

/// The table-of-contents entry of a rule.
#[derive(Debug, Clone)]
pub struct RuleSummary {
    pub id: String,
    pub headline: String,
    pub has_more: bool,
    pub bytes: usize,
    pub tags: Vec<String>,
}

/// What verifying an audit chain found.
#[derive(Debug, Clone)]
pub struct AuditReport {
    pub healthy: bool,
    pub head: String,
    pub errors: Vec<String>,
}

/// One rule of a transfer bundle.
#[derive(Debug, Clone)]
pub struct RuleTransferItem {
    pub source_board: Option<String>,
    pub source_registry_uuid: String,
    pub source_rule_id: String,
    pub source_boards: Vec<String>,
    pub source_content_sha256: String,
    pub body: String,
    pub author: String,
    pub archived: bool,
    pub created_at: i64,
    pub updated_at: i64,
    pub tags: Vec<String>,
}

/// A deterministic, auditable bundle of rules that may leave the registry.
#[derive(Debug, Clone)]
pub struct RuleTransferBundle {
    pub format_version: u32,
    pub exported_by: String,
    pub exported_at: i64,
    pub source_registry_uuid: String,
    pub source_registry_audit: AuditReport,
    pub source_boards: Vec<String>,
    pub rules: Vec<RuleTransferItem>,
}

/// Receipt of an import.
#[derive(Debug, Clone)]
pub struct RuleTransferReport {
    pub imported_rules: usize,
    pub already_imported_rules: usize,
    pub destination_boards_verified: usize,
    pub source_registry_uuid: String,
    pub source_registry_audit_head: String,
}

/// Receipt of the consolidation of board-local rules.
#[derive(Debug, Clone)]
pub struct RuleMigrationReport {
    pub legacy_registry_migrated: bool,
    pub legacy_registry_already_migrated: bool,
    pub legacy_rules_imported: usize,
    pub legacy_rules_updated: usize,
    pub legacy_events_imported: usize,
    pub legacy_rules_retired: usize,
    pub boards_migrated: usize,
    pub boards_already_migrated: usize,
    pub rules_imported: usize,
    pub rules_already_imported: usize,
    pub source_rules_retired: usize,
}

/// A named selector of an active rule that does not name exactly one active board.
#[derive(Debug, Clone)]
pub struct ActiveRuleSelectorError {
    pub rule_id: String,
    pub selector: String,
    pub active_board_count: i64,
}

#[derive(Debug, Clone)]
pub struct ActiveRuleSelectorHealth {
    pub healthy: bool,
    pub errors: Vec<ActiveRuleSelectorError>,
}

/// A rule as a table row holds it, with its lists as JSON text.
#[derive(Debug, Clone)]
pub struct RuleRow {
    pub id: String,
    pub body: String,
    pub author: String,
    pub archived: bool,
    pub created_at: i64,
    pub updated_at: i64,
    pub tags: String,
    pub source_board: Option<String>,
    pub source_rule_id: Option<String>,
    pub source_registry_uuid: Option<String>,
    pub source_boards: Option<String>,
    pub source_content_sha256: Option<String>,
}

/// A text column that could not be read, with the length of what it held.
#[derive(Debug, Clone, PartialEq, Eq)]
pub struct ConversionFailure {
    pub length: usize,
    pub message: String,
}

/// `failure` is what comes of reading the given column.
pub open spec fn is_failure(failure: ConversionFailure, encoded: Seq<char>) -> bool {
    &&& outside::json_strings(encoded) is Err
    &&& failure.length == vstd::utf8::encode_utf8(encoded).len() as usize
    &&& failure.message@ == outside::json_strings(encoded)->Err_0
}

// ---------------------------------------------------------------- validation

/// Why `body` is no rule body, if it is none.
pub open spec fn rule_body_refusal(body: Seq<char>) -> Option<Seq<char>> {
    if text::trimmed(body).len() == 0 {
        Some("rule body is required"@)
    } else if text::lines_of(body).len() == 0 || text::trimmed(text::lines_of(body)[0]).len() == 0 {
        Some("rule headline is required on the first line"@)
    } else {
        None
    }
}

/// A rule body holds text, and its first line is the headline.
pub fn validate_rule_body(value: &str) -> (r: Result<(), Error>)
    ensures
        match rule_body_refusal(value@) {
            Some(m) => text::refused(r, m),
            None => r is Ok,
        },
{
    if text::trim(value).is_empty() {
        return text::refuse("rule body is required".to_owned());
    }
    let lines = text::lines(value);
    proof {
        assert(lines@.len() > 0 ==> text::texts(lines@)[0] == lines@[0]@);
    }
    if lines.len() == 0 || text::trim(lines[0].as_str()).is_empty() {
        return text::refuse("rule headline is required on the first line".to_owned());
    }
    Ok(())
}

/// The trimmed name of an author, who must have one.
pub fn validate_rule_actor(value: &str) -> (r: Result<&str, Error>)
    ensures
        if text::trimmed(value@).len() == 0 {
            text::refused(r, "author is required"@)
        } else {
            r is Ok && r->Ok_0@ == text::trimmed(value@)
        },
{
    let actor = text::trim(value);
    if actor.is_empty() {
        return text::refuse("author is required".to_owned());
    }
    Ok(actor)
}

/// Why `value` names no registry, given whether its trimmed text reads as a UUID.
pub open spec fn registry_uuid_refusal(value: Seq<char>, accepted: bool) -> Option<Seq<char>> {
    let uuid = text::trimmed(value);
    if uuid.len() == 0 {
        Some("rule transfer bundle is missing sourceRegistryUuid"@)
    } else if !accepted {
        Some("rule transfer bundle sourceRegistryUuid "@ + uuid + " is invalid"@)
    } else {
        None
    }
}

/// The verdict on a registry UUID, given whether it was accepted as one.
pub fn registry_uuid_verdict(value: &str, accepted: bool) -> (r: Result<&str, Error>)
    ensures
        match registry_uuid_refusal(value@, accepted) {
            Some(m) => text::refused(r, m),
            None => r is Ok && r->Ok_0@ == text::trimmed(value@),
        },
{
    let uuid = text::trim(value);
    if uuid.is_empty() {
        return text::refuse("rule transfer bundle is missing sourceRegistryUuid".to_owned());
    }
    if !accepted {
        return text::refuse(
            "rule transfer bundle sourceRegistryUuid ".to_owned().concat(uuid).concat(
                " is invalid",
            ),
        );
    }
    Ok(uuid)
}

/// Why `value` names no registry, if it names none.
pub open spec fn uuid_refusal(value: Seq<char>) -> Option<Seq<char>> {
    registry_uuid_refusal(value, outside::uuid_accepts(text::trimmed(value)))
}

/// The trimmed UUID of a registry.
pub fn validate_registry_uuid(value: &str) -> (r: Result<&str, Error>)
    ensures
        match uuid_refusal(value@) {
            Some(m) => text::refused(r, m),
            None => r is Ok && r->Ok_0@ == text::trimmed(value@),
        },
{
    let accepted = outside::is_uuid(text::trim(value));
    registry_uuid_verdict(value, accepted)
}

/// The markers of secret material, in lower case.
pub open spec fn secret_markers() -> Seq<Seq<char>> {
    seq![
        "begin private key"@,
        "begin openssh private key"@,
        "begin rsa private key"@,
        "private key-----"@,
        "client_secret"@,
        "credential"@,
        "credentials"@,
        "password"@,
        "secret"@,
        "token"@,
    ]
}

/// Some marker occurs in the lower-case text.
pub open spec fn carries_secret(lower: Seq<char>) -> bool {
    exists|i: int|
        0 <= i < secret_markers().len() && text::contains_text(lower, #[trigger] secret_markers()[i])
}

/// Whether a text, already in lower case, carries secret material.
pub fn has_secret_marker(lower: &str) -> (r: bool)
    ensures
        r == carries_secret(lower@),
{
    let markers: [&'static str; 10] = [
        "begin private key",
        "begin openssh private key",
        "begin rsa private key",
        "private key-----",
        "client_secret",
        "credential",
        "credentials",
        "password",
        "secret",
        "token",
    ];
    let mut i: usize = 0;
    while i < 10
        invariant
            i <= 10,
            markers@.len() == 10,
            secret_markers().len() == 10,
            forall|k: int| 0 <= k < 10 ==> #[trigger] secret_markers()[k] == markers@[k]@,
            forall|k: int|
                0 <= k < i ==> !text::contains_text(lower@, #[trigger] secret_markers()[k]),
        decreases 10 - i,
    {
        if text::contains(lower, markers[i]) {
            proof {
                assert(secret_markers()[i as int] == markers@[i as int]@);
            }
            return true;
        }
        i = i + 1;
    }
    false
}

/// Refuse a rule body that carries secret material.
pub fn deny_secret_material(body: &str) -> (r: Result<(), Error>)
    ensures
        if carries_secret(outside::lowercase(body@)) {
            text::refused(r, "rule body contains secret material"@)
        } else {
            r is Ok
        },
{
    let lower = outside::to_lower(body);
    if has_secret_marker(lower.as_str()) {
        return text::refuse("rule body contains secret material".to_owned());
    }
    Ok(())
}

/// Each text stands strictly before every later one.
pub open spec fn strictly_sorted(names: Seq<Seq<char>>) -> bool {
    forall|i: int, j: int|
        0 <= i < j < names.len() ==> text::text_less(#[trigger] names[i], #[trigger] names[j])
}

pub open spec fn source_boards_refusal(boards: Seq<Seq<char>>) -> Option<Seq<char>> {
    if boards.len() == 0 {
        Some("rule transfer bundle is missing sourceBoards"@)
    } else if !strictly_sorted(boards) {
        Some("rule transfer bundle sourceBoards must be sorted and unique"@)
    } else {
        None
    }
}

/// The boards of a bundle, which must be sorted and unique.
pub fn sorted_unique_boards(boards: &[String]) -> (r: Result<Vec<String>, Error>)
    ensures
        match source_boards_refusal(text::texts(boards@)) {
            Some(m) => text::refused(r, m),
            None => r is Ok && r->Ok_0@ == boards@,
        },
{
    let ghost names = text::texts(boards@);
    if boards.len() == 0 {
        return text::refuse("rule transfer bundle is missing sourceBoards".to_owned());
    }
    let mut i: usize = 1;
    while i < boards.len()
        invariant
            1 <= i <= boards@.len(),
            names == text::texts(boards@),
            forall|a: int, b: int|
                0 <= a < b < i ==> text::text_less(#[trigger] names[a], #[trigger] names[b]),
        decreases boards.len() - i,
    {
        if !text::less(boards[i - 1].as_str(), boards[i].as_str()) {
            proof {
                assert(!text::text_less(names[i - 1], names[i as int]));
                assert(!strictly_sorted(names));
            }
            return text::refuse(
                "rule transfer bundle sourceBoards must be sorted and unique".to_owned(),
            );
        }
        proof {
            assert forall|a: int, b: int| 0 <= a < b < i + 1 implies text::text_less(
                #[trigger] names[a],
                #[trigger] names[b],
            ) by {
                if b == i && a < i - 1 {
                    text::lemma_text_order(names[a], names[i - 1], names[i as int]);
                }
            }
        }
        i = i + 1;
    }
    Ok(text::copy_list(boards))
}

// ------------------------------------------------------------------ fingerprint

/// The bytes that a rule's fingerprint is taken over: its fields, each ended by
/// a zero byte but for the last.
pub open spec fn fingerprint_input(
    source_registry_uuid: Seq<char>,
    source_rule_id: Seq<char>,
    body: Seq<char>,
    author: Seq<char>,
    archived: bool,
    created_at: i64,
    updated_at: i64,
    tags: Seq<Seq<char>>,
) -> Seq<u8> {
    let zero = seq![0u8];
    vstd::utf8::encode_utf8(source_registry_uuid) + zero + vstd::utf8::encode_utf8(source_rule_id)
        + zero + vstd::utf8::encode_utf8(body) + zero + vstd::utf8::encode_utf8(author) + zero
        + seq![if archived { 1u8 } else { 0u8 }] + zero + vstd::bytes::spec_u64_to_le_bytes(
        created_at as u64,
    ) + zero + vstd::bytes::spec_u64_to_le_bytes(updated_at as u64) + zero
        + vstd::utf8::encode_utf8(text::joined(tags, "\u{1f}"@))
}

pub open spec fn hex_digit(n: u8) -> char {
    if n < 10 {
        (48 + n) as char
    } else {
        (87 + n) as char
    }
}

/// Two lower-case hexadecimal digits for each byte.
pub open spec fn hex_of(bytes: Seq<u8>) -> Seq<char>
    decreases bytes.len(),
{
    if bytes.len() == 0 {
        seq![]
    } else {
        hex_of(bytes.drop_last()).push(hex_digit(bytes.last() / 16)).push(
            hex_digit(bytes.last() % 16),
        )
    }
}

/// Two lower-case hexadecimal digits for each byte.
pub fn show_hex(bytes: &[u8]) -> (r: String)
    ensures
        r@ == hex_of(bytes@),
{
    let mut out = String::new();
    let mut i: usize = 0;
    while i < bytes.len()
        invariant
            i <= bytes@.len(),
            out@ == hex_of(bytes@.take(i as int)),
        decreases bytes.len() - i,
    {
        let b: u8 = bytes[i];
        let high: u8 = b / 16;
        let low: u8 = b % 16;
        proof {
            assert(bytes@.take(i as int + 1).drop_last() =~= bytes@.take(i as int));
            assert(bytes@.take(i as int + 1).last() == b);
        }
        out.push(
            if high < 10 {
                (48 + high) as char
            } else {
                (87 + high) as char
            },
        );
        out.push(
            if low < 10 {
                (48 + low) as char
            } else {
                (87 + low) as char
            },
        );
        i = i + 1;
    }
    proof {
        assert(bytes@.take(bytes@.len() as int) =~= bytes@);
    }
    out
}

/// The SHA-256 digest of bytes in hexadecimal notation.
pub open spec fn sha256_hex(bytes: Seq<u8>) -> Seq<char> {
    hex_of(outside::sha256_digest(bytes))
}

/// The SHA-256 digest of bytes in hexadecimal notation.
pub fn bytes_sha256(bytes: &[u8]) -> (r: String)
    ensures
        r@ == sha256_hex(bytes@),
{
    let digest = outside::sha256(bytes);
    show_hex(digest.as_slice())
}

fn put(out: &mut Vec<u8>, bytes: &[u8])
    ensures
        final(out)@ == old(out)@ + bytes@,
{
    let ghost before = out@;
    let mut i: usize = 0;
    while i < bytes.len()
        invariant
            i <= bytes@.len(),
            out@ == before + bytes@.take(i as int),
        decreases bytes.len() - i,
    {
        proof {
            assert(before + bytes@.take(i as int + 1) =~= (before + bytes@.take(i as int)).push(
                bytes@[i as int],
            ));
        }
        out.push(bytes[i]);
        i = i + 1;
    }
    proof {
        assert(bytes@.take(bytes@.len() as int) =~= bytes@);
    }
}

/// The bytes that a rule's fingerprint is taken over.
pub fn fingerprint_bytes(
    source_registry_uuid: &str,
    source_rule_id: &str,
    body: &str,
    author: &str,
    archived: bool,
    created_at: i64,
    updated_at: i64,
    tags: &[String],
) -> (r: Vec<u8>)
    ensures
        r@ == fingerprint_input(
            source_registry_uuid@,
            source_rule_id@,
            body@,
            author@,
            archived,
            created_at,
            updated_at,
            text::texts(tags@),
        ),
{
    let mut out: Vec<u8> = Vec::new();
    put(&mut out, source_registry_uuid.as_bytes());
    out.push(0);
    put(&mut out, source_rule_id.as_bytes());
    out.push(0);
    put(&mut out, body.as_bytes());
    out.push(0);
    put(&mut out, author.as_bytes());
    out.push(0);
    out.push(
        if archived {
            1
        } else {
            0
        },
    );
    out.push(0);
    let created: Vec<u8> = vstd::bytes::u64_to_le_bytes(created_at as u64);
    put(&mut out, created.as_slice());
    out.push(0);
    let updated: Vec<u8> = vstd::bytes::u64_to_le_bytes(updated_at as u64);
    put(&mut out, updated.as_slice());
    out.push(0);
    let joined = text::join(tags, "\u{1f}");
    put(&mut out, joined.as_str().as_bytes());
    proof {
        assert(out@ =~= fingerprint_input(
            source_registry_uuid@,
            source_rule_id@,
            body@,
            author@,
            archived,
            created_at,
            updated_at,
            text::texts(tags@),
        ));
    }
    out
}

/// The fingerprint of a rule: the digest of the digest of its fields.
pub open spec fn fingerprint(
    source_registry_uuid: Seq<char>,
    source_rule_id: Seq<char>,
    body: Seq<char>,
    author: Seq<char>,
    archived: bool,
    created_at: i64,
    updated_at: i64,
    tags: Seq<Seq<char>>,
) -> Seq<char> {
    sha256_hex(
        outside::sha256_digest(
            fingerprint_input(
                source_registry_uuid,
                source_rule_id,
                body,
                author,
                archived,
                created_at,
                updated_at,
                tags,
            ),
        ),
    )
}

/// The fingerprint by which a transferred rule is recognised.
pub fn rule_fingerprint(
    source_registry_uuid: &str,
    source_rule_id: &str,
    body: &str,
    author: &str,
    archived: bool,
    created_at: i64,
    updated_at: i64,
    tags: &[String],
) -> (r: String)
    ensures
        r@ == fingerprint(
            source_registry_uuid@,
            source_rule_id@,
            body@,
            author@,
            archived,
            created_at,
            updated_at,
            text::texts(tags@),
        ),
{
    let input = fingerprint_bytes(
        source_registry_uuid,
        source_rule_id,
        body,
        author,
        archived,
        created_at,
        updated_at,
        tags,
    );
    let digest = outside::sha256(input.as_slice());
    bytes_sha256(digest.as_slice())
}

// -------------------------------------------------------------------- selectors

/// The board that a named selector names.
pub open spec fn selector_board(tag: Seq<char>) -> Option<Seq<char>> {
    match text::stripped_prefix(tag, "ONLY:"@) {
        Some(name) => Some(name),
        None => text::stripped_prefix(tag, "EXCEPT:"@),
    }
}

/// The board that a named selector names.
pub fn named_selector_board(tag: &str) -> (r: Option<&str>)
    ensures
        text::str_of(r) == selector_board(tag@),
{
    match text::strip_prefix(tag, "ONLY:") {
        Some(name) => Some(name),
        None => text::strip_prefix(tag, "EXCEPT:"),
    }
}

/// Some tag is `prefix` followed by `name`.
pub open spec fn names_board(tags: Seq<Seq<char>>, prefix: Seq<char>, name: Seq<char>) -> bool {
    exists|i: int|
        0 <= i < tags.len() && text::stripped_prefix(#[trigger] tags[i], prefix) == Some(name)
}

/// The selectors admit the board; with no board, only `ALL` admits.
pub open spec fn selectors_apply(tags: Seq<Seq<char>>, board: Option<Seq<char>>) -> bool {
    if tags.contains("ALL"@) {
        board is None || !names_board(tags, "EXCEPT:"@, board->0)
    } else {
        board is Some && names_board(tags, "ONLY:"@, board->0)
    }
}

fn has_selector(tags: &[String], prefix: &str, name: &str) -> (r: bool)
    ensures
        r == names_board(text::texts(tags@), prefix@, name@),
{
    let ghost all = text::texts(tags@);
    let mut i: usize = 0;
    while i < tags.len()
        invariant
            i <= tags@.len(),
            all == text::texts(tags@),
            forall|k: int|
                0 <= k < i ==> text::stripped_prefix(#[trigger] all[k], prefix@) != Some(name@),
        decreases tags.len() - i,
    {
        if let Some(rest) = text::strip_prefix(tags[i].as_str(), prefix) {
            if text::same(rest, name) {
                proof {
                    assert(text::stripped_prefix(all[i as int], prefix@) == Some(name@));
                }
                return true;
            }
        }
        i = i + 1;
    }
    false
}

/// Whether the selectors among `tags` admit the board.
pub fn selector_tags_apply(tags: &[String], board_name: Option<&str>) -> (r: bool)
    ensures
        r == selectors_apply(text::texts(tags@), text::str_of(board_name)),
{
    if text::holds(tags, "ALL") {
        match board_name {
            None => true,
            Some(name) => !has_selector(tags, "EXCEPT:", name),
        }
    } else {
        match board_name {
            None => false,
            Some(name) => has_selector(tags, "ONLY:", name),
        }
    }
}

pub open spec fn is_selector(tag: Seq<char>) -> bool {
    tag == "ALL"@ || "ONLY:"@.is_prefix_of(tag) || "EXCEPT:"@.is_prefix_of(tag)
}

/// Whether a tag selects boards rather than a subsystem.
pub fn is_selector_tag(tag: &str) -> (r: bool)
    ensures
        r == is_selector(tag@),
{
    text::same(tag, "ALL") || text::starts_with(tag, "ONLY:") || text::starts_with(tag, "EXCEPT:")
}

/// Some subsystem tag among `tags` is one of the task's.
pub open spec fn shares_subsystem(tags: Seq<Seq<char>>, task_tags: Seq<Seq<char>>) -> bool {
    exists|i: int|
        0 <= i < tags.len() && !is_selector(#[trigger] tags[i]) && task_tags.contains(tags[i])
}

pub open spec fn all_selectors(tags: Seq<Seq<char>>) -> bool {
    forall|i: int| 0 <= i < tags.len() ==> is_selector(#[trigger] tags[i])
}

/// A rule applies where its selectors admit the board and, if it names any
/// subsystem, the task carries one of them.
pub open spec fn tags_apply(
    tags: Seq<Seq<char>>,
    board: Option<Seq<char>>,
    task_tags: Option<Seq<Seq<char>>>,
) -> bool {
    &&& selectors_apply(tags, board)
    &&& all_selectors(tags) || (task_tags is Some && shares_subsystem(tags, task_tags->0))
}

pub open spec fn list_of(o: Option<&[String]>) -> Option<Seq<Seq<char>>> {
    match o {
        Some(list) => Some(text::texts(list@)),
        None => None,
    }
}

/// Whether a rule with the given tags applies to a task of a board.
pub fn rule_tags_apply(
    tags: &[String],
    board_name: Option<&str>,
    task_tags: Option<&[String]>,
) -> (r: bool)
    ensures
        r == tags_apply(text::texts(tags@), text::str_of(board_name), list_of(task_tags)),
{
    if !selector_tags_apply(tags, board_name) {
        return false;
    }
    let ghost all = text::texts(tags@);
    let mut saw_subsystem = false;
    let mut i: usize = 0;
    while i < tags.len()
        invariant
            i <= tags@.len(),
            all == text::texts(tags@),
            selectors_apply(all, text::str_of(board_name)),
            saw_subsystem == exists|k: int| 0 <= k < i && !is_selector(#[trigger] all[k]),
            task_tags is Some ==> forall|k: int|
                0 <= k < i ==> is_selector(#[trigger] all[k]) || !text::texts(
                    task_tags->0@,
                ).contains(all[k]),
        decreases tags.len() - i,
    {
        if !is_selector_tag(tags[i].as_str()) {
            saw_subsystem = true;
            proof {
                assert(!is_selector(all[i as int]));
            }
            if let Some(task_tags) = task_tags {
                if text::holds(task_tags, tags[i].as_str()) {
                    proof {
                        assert(shares_subsystem(all, text::texts(task_tags@)));
                    }
                    return true;
                }
            }
        }
        i = i + 1;
    }
    !saw_subsystem
}

/// A rule never applies to a board that its selectors do not admit, and never
/// to a task without tags while it names a subsystem.
pub proof fn law_rules_fail_closed(
    tags: Seq<Seq<char>>,
    board: Option<Seq<char>>,
    task_tags: Option<Seq<Seq<char>>>,
)
    ensures
        tags_apply(tags, board, task_tags) ==> selectors_apply(tags, board),
        tags_apply(tags, board, None) ==> all_selectors(tags),
        tags_apply(tags, board, None) ==> tags_apply(tags, board, task_tags),
        !tags.contains("ALL"@) ==> !tags_apply(tags, None, task_tags),
{
}

// ------------------------------------------------------------------------- rows

/// The strings of a JSON array, as a text column holds them.
pub fn parse_json_string_array(encoded: &str) -> (r: Result<Vec<String>, ConversionFailure>)
    ensures
        match outside::json_strings(encoded@) {
            Ok(items) => r is Ok && text::texts(r->Ok_0@) == items,
            Err(_) => r is Err && is_failure(r->Err_0, encoded@),
        },
{
    match outside::read_json_strings(encoded) {
        Ok(items) => Ok(items),
        Err(message) => Err(ConversionFailure { length: encoded.len(), message }),
    }
}

pub open spec fn lists_of(o: Option<Vec<String>>) -> Option<Seq<Seq<char>>> {
    match o {
        Some(list) => Some(text::texts(list@)),
        None => None,
    }
}

/// The row decodes: both of its lists are arrays of strings.
pub open spec fn row_decodes(row: RuleRow) -> bool {
    &&& outside::json_strings(row.tags@) is Ok
    &&& row.source_boards is Some ==> outside::json_strings(row.source_boards->0@) is Ok
}

/// The rule that a table row holds.
pub fn rule_row(row: RuleRow) -> (r: Result<Rule, ConversionFailure>)
    ensures
        r is Ok <==> row_decodes(row),
        r is Ok ==> {
            let rule = r->Ok_0;
            &&& rule.id == row.id
            &&& rule.body == row.body
            &&& rule.author == row.author
            &&& rule.archived == row.archived
            &&& rule.created_at == row.created_at
            &&& rule.updated_at == row.updated_at
            &&& text::texts(rule.tags@) == outside::json_strings(row.tags@)->Ok_0
            &&& rule.source_board == row.source_board
            &&& rule.source_rule_id == row.source_rule_id
            &&& rule.source_registry_uuid == row.source_registry_uuid
            &&& lists_of(rule.source_boards) == match row.source_boards {
                Some(encoded) => Some(outside::json_strings(encoded@)->Ok_0),
                None => None,
            }
            &&& rule.source_content_sha256 == row.source_content_sha256
        },
        r is Err ==> is_failure(
            r->Err_0,
            if outside::json_strings(row.tags@) is Err {
                row.tags@
            } else {
                row.source_boards->0@
            },
        ),
{
    let tags = match parse_json_string_array(row.tags.as_str()) {
        Ok(tags) => tags,
        Err(failure) => {
            return Err(failure);
        },
    };
    let source_boards = match &row.source_boards {
        Some(encoded) => match parse_json_string_array(encoded.as_str()) {
            Ok(list) => Some(list),
            Err(failure) => {
                return Err(failure);
            },
        },
        None => None,
    };
    Ok(
        Rule {
            id: row.id,
            body: row.body,
            author: row.author,
            archived: row.archived,
            created_at: row.created_at,
            updated_at: row.updated_at,
            tags,
            source_board: row.source_board,
            source_rule_id: row.source_rule_id,
            source_registry_uuid: row.source_registry_uuid,
            source_boards,
            source_content_sha256: row.source_content_sha256,
        },
    )
}

// -------------------------------------------------------------------- summaries

/// Some line after the first is not blank.
pub open spec fn has_more_lines(lines: Seq<Seq<char>>) -> bool {
    exists|i: int| 1 <= i < lines.len() && text::trimmed(#[trigger] lines[i]).len() > 0
}

/// `s` summarises `rule`: its trimmed first line, whether a later line holds
/// text, and the bytes of its body.
pub open spec fn summarises(s: RuleSummary, rule: Rule) -> bool {
    let lines = text::lines_of(rule.body@);
    &&& s.id@ == rule.id@
    &&& lines.len() > 0
    &&& s.headline@ == text::trimmed(lines[0])
    &&& s.has_more == has_more_lines(lines)
    &&& s.bytes == vstd::utf8::encode_utf8(rule.body@).len() as usize
    &&& s.tags@ == rule.tags@
}

/// The summary of a rule, whose body must have a first line.
pub fn rule_summary(rule: &Rule) -> (r: Result<RuleSummary, Error>)
    ensures
        if text::lines_of(rule.body@).len() == 0 {
            text::refused(r, "stored rule has no headline"@)
        } else {
            r is Ok && summarises(r->Ok_0, *rule)
        },
{
    let lines = text::lines(rule.body.as_str());
    let ghost all = text::texts(lines@);
    if lines.len() == 0 {
        return text::refuse("stored rule has no headline".to_owned());
    }
    let headline = text::trim(lines[0].as_str()).to_owned();
    let mut has_more = false;
    let mut i: usize = 1;
    while i < lines.len() && !has_more
        invariant
            1 <= i <= lines@.len(),
            all == text::texts(lines@),
            has_more == exists|k: int| 1 <= k < i && text::trimmed(#[trigger] all[k]).len() > 0,
        decreases lines.len() - i,
    {
        if !text::trim(lines[i].as_str()).is_empty() {
            proof {
                assert(text::trimmed(all[i as int]).len() > 0);
            }
            has_more = true;
        }
        i = i + 1;
    }
    proof {
        assert(all[0] == lines@[0]@);
    }
    Ok(
        RuleSummary {
            id: rule.id.clone(),
            headline,
            has_more,
            bytes: rule.body.as_str().len(),
            tags: text::copy_list(rule.tags.as_slice()),
        },
    )
}

} // verus!
