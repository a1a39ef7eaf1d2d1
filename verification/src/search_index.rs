//! The search index of a board: its documents, what selects them, and how it stands.

use vstd::prelude::*;

use crate::clock;
use crate::json;
use crate::lattice;
use crate::outside;
use crate::ranking;
use crate::records::SearchIndexHealth;
use crate::records::SearchIndexReport;
use crate::records::SearchOptions;
use crate::search_text;
use crate::tables;
use crate::text;
use crate::text::Error;

verus! {

pub const EMBEDDING_MODEL: &'static str = "kanban-semantic-lite-v1";

/// How many bytes an embedding takes.
pub const EMBEDDING_BYTES: usize = 1536;

/// One indexed document; an event document carries the row of its event.
#[derive(Debug)]
pub struct Document {
    pub seq: i64,
    pub source_kind: String,
    pub source_id: String,
    pub task_id: Option<String>,
    pub title: String,
    pub body: String,
    pub status: Option<String>,
    pub lane: Option<String>,
    pub tags: String,
    pub created_at: i64,
    pub updated_at: i64,
    pub archived: bool,
    pub source_hash: Option<String>,
    pub embedding_model: Option<String>,
    pub embedding: Option<Vec<u8>>,
    pub event_task_id: Option<String>,
    pub event_payload: Option<String>,
}

// -------------------------------------------------------------------------- the source

pub open spec fn or_empty(o: Option<String>) -> Seq<char> {
    match o {
        Some(s) => s@,
        None => seq![],
    }
}

/// A text that is there, or the empty one.
pub fn unwrap_or_empty(o: &Option<String>) -> (r: &str)
    ensures
        r@ == or_empty(*o),
{
    match o {
        Some(s) => s.as_str(),
        None => {
            proof {
                reveal_strlit("");
                assert(""@ =~= seq![]);
            }
            ""
        },
    }
}

/// The bytes of a text and a zero behind them.
pub open spec fn ended(s: Seq<char>) -> Seq<u8> {
    vstd::utf8::encode_utf8(s).push(0)
}

/// The bytes that the hash of a document is taken over.
pub open spec fn source_bytes(d: Document) -> Seq<u8> {
    ended(d.source_kind@) + ended(d.source_id@) + ended(or_empty(d.task_id)) + ended(d.title@)
        + ended(d.body@) + ended(or_empty(d.status)) + ended(or_empty(d.lane)) + ended(d.tags@)
}

/// The hash that shows whether the source of a document has changed.
pub open spec fn hash_of(d: Document) -> Seq<char> {
    search_text::hex_digits(search_text::hashed(search_text::HASH_START, source_bytes(d)), 16)
}

proof fn lemma_hashed_on(h: u64, a: Seq<u8>, b: Seq<u8>)
    ensures
        search_text::hashed(search_text::hashed(h, a), b) == search_text::hashed(h, a + b),
    decreases b.len(),
{
    if b.len() == 0 {
        assert(a + b =~= a);
    } else {
        lemma_hashed_on(h, a, b.drop_last());
        assert((a + b).drop_last() =~= a + b.drop_last());
        assert((a + b).last() == b.last());
    }
}

/// A running hash over one more part.
fn hash_part(h: u64, part: &str, Ghost(start): Ghost<u64>, Ghost(before): Ghost<Seq<u8>>) -> (r:
    u64)
    requires
        h == search_text::hashed(start, before),
    ensures
        r == search_text::hashed(start, before + ended(part@)),
{
    let bytes = part.as_bytes();
    let inner: u64 = search_text::hash_bytes(h, bytes);
    let end: [u8; 1] = [0];
    let r: u64 = search_text::hash_bytes(inner, end.as_slice());
    proof {
        lemma_hashed_on(start, before, bytes@);
        assert(end@ =~= seq![0u8]);
        lemma_hashed_on(start, before + bytes@, seq![0u8]);
        assert(before + bytes@ + seq![0u8] =~= before + ended(part@));
    }
    r
}

/// The hash of a document's source.
pub fn source_hash(d: &Document) -> (r: String)
    ensures
        r@ == hash_of(*d),
{
    let ghost s = search_text::HASH_START;
    let ghost b: Seq<u8> = seq![];
    let mut h: u64 = search_text::HASH_START;
    proof {
        assert(search_text::hashed(s, b) == s);
    }
    h = hash_part(h, d.source_kind.as_str(), Ghost(s), Ghost(b));
    let ghost b1 = b + ended(d.source_kind@);
    h = hash_part(h, d.source_id.as_str(), Ghost(s), Ghost(b1));
    let ghost b2 = b1 + ended(d.source_id@);
    h = hash_part(h, unwrap_or_empty(&d.task_id), Ghost(s), Ghost(b2));
    let ghost b3 = b2 + ended(or_empty(d.task_id));
    h = hash_part(h, d.title.as_str(), Ghost(s), Ghost(b3));
    let ghost b4 = b3 + ended(d.title@);
    h = hash_part(h, d.body.as_str(), Ghost(s), Ghost(b4));
    let ghost b5 = b4 + ended(d.body@);
    h = hash_part(h, unwrap_or_empty(&d.status), Ghost(s), Ghost(b5));
    let ghost b6 = b5 + ended(or_empty(d.status));
    h = hash_part(h, unwrap_or_empty(&d.lane), Ghost(s), Ghost(b6));
    let ghost b7 = b6 + ended(or_empty(d.lane));
    h = hash_part(h, d.tags.as_str(), Ghost(s), Ghost(b7));
    proof {
        assert(b7 + ended(d.tags@) =~= source_bytes(*d));
    }
    search_text::show_hex_digits(h, 16)
}

/// The text that a document is embedded by.
pub open spec fn embedded_text(d: Document) -> Seq<char> {
    d.title@ + " "@ + d.body@ + " "@ + d.tags@ + " "@ + or_empty(d.status) + " "@ + or_empty(
        d.lane,
    )
}

pub fn document_text(d: &Document) -> (r: String)
    ensures
        r@ == embedded_text(*d),
{
    d.title.clone().concat(" ").concat(d.body.as_str()).concat(" ").concat(
        d.tags.as_str(),
    ).concat(" ").concat(unwrap_or_empty(&d.status)).concat(" ").concat(
        unwrap_or_empty(&d.lane),
    )
}

// -------------------------------------------------------------------------- embeddings

/// The stored bytes are an embedding.
pub open spec fn has_shape(embedding: Option<Vec<u8>>) -> bool {
    embedding is Some && embedding->0@.len() == EMBEDDING_BYTES
}

/// The stored embedding is of this model and of this source.
pub open spec fn is_current(d: Document) -> bool {
    &&& has_shape(d.embedding)
    &&& text::text_of(d.embedding_model) == Some(EMBEDDING_MODEL@)
    &&& text::text_of(d.source_hash) == Some(hash_of(d))
}

fn is_text(o: &Option<String>, s: &str) -> (r: bool)
    ensures
        r == (text::text_of(*o) == Some(s@)),
{
    match o {
        Some(t) => text::same(t.as_str(), s),
        None => false,
    }
}

/// Whether the stored embedding of a document can be used.
pub fn embedding_is_current(d: &Document) -> (r: bool)
    ensures
        r == is_current(*d),
{
    let shaped = match &d.embedding {
        Some(bytes) => bytes.len() == EMBEDDING_BYTES,
        None => false,
    };
    if !shaped {
        return false;
    }
    let hash = source_hash(d);
    is_text(&d.embedding_model, EMBEDDING_MODEL) && is_text(&d.source_hash, hash.as_str())
}

pub open spec fn has_no_embedding() -> spec_fn(Document) -> bool {
    |d: Document| d.embedding is None
}

pub open spec fn has_stale_embedding() -> spec_fn(Document) -> bool {
    |d: Document| d.embedding is Some && !is_current(d)
}

/// A document that a write left without an embedding of this model.
pub open spec fn lacks_embedding(d: Document) -> bool {
    ||| d.embedding is None
    ||| d.source_hash is None
    ||| text::text_of(d.embedding_model) != Some(EMBEDDING_MODEL@)
}

pub open spec fn is_to_embed() -> spec_fn(Document) -> bool {
    |d: Document| lacks_embedding(d) && !is_current(d)
}

/// Every document that lacks an embedding is embedded anew.
pub proof fn law_lacking_means_embedding(d: Document)
    requires
        lacks_embedding(d),
    ensures
        is_to_embed()(d),
{
}

pub open spec fn seqs_of(s: Seq<Document>) -> Seq<i64> {
    s.map_values(|d: Document| d.seq)
}

/// The documents that an incremental write has to embed.
pub fn embed_missing(documents: &[Document]) -> (r: Vec<i64>)
    ensures
        r@ == seqs_of(tables::kept(documents@, is_to_embed())),
{
    let ghost p = is_to_embed();
    let mut out: Vec<i64> = Vec::new();
    let mut i: usize = 0;
    proof {
        assert(documents@.take(0) =~= Seq::<Document>::empty());
        assert(out@ =~= seqs_of(tables::kept(documents@.take(0), p)));
    }
    while i < documents.len()
        invariant
            i <= documents@.len(),
            p == is_to_embed(),
            out@ == seqs_of(tables::kept(documents@.take(i as int), p)),
        decreases documents.len() - i,
    {
        let ghost before = tables::kept(documents@.take(i as int), p);
        proof {
            tables::lemma_kept_step(documents@, p, i as int);
            assert(seqs_of(before.push(documents@[i as int])) =~= seqs_of(before).push(
                documents@[i as int].seq,
            ));
        }
        let d = &documents[i];
        let lacking = d.embedding.is_none() || d.source_hash.is_none() || !is_text(
            &d.embedding_model,
            EMBEDDING_MODEL,
        );
        if lacking && !embedding_is_current(d) {
            out.push(d.seq);
        }
        i = i + 1;
    }
    proof {
        assert(documents@.take(documents@.len() as int) =~= documents@);
    }
    out
}

// ---------------------------------------------------------------------------- rebuilds

/// What a rebuild records and reports.
#[derive(Debug)]
pub struct Rebuild {
    pub actor: String,
    pub payload: String,
    pub report: SearchIndexReport,
}

pub open spec fn rebuild_payload(documents: nat) -> Seq<char> {
    json::object(
        seq![
            json::member("documents"@, text::digits(documents)),
            json::member("embeddingModel"@, outside::json_text(EMBEDDING_MODEL@)),
        ],
    )
}

/// What rebuilding the index of a board records and reports, once all its documents
/// have been embedded.
pub fn rebuild(board: &str, actor: &str, documents: usize, elapsed_ms: u128) -> (r: Result<
    Rebuild,
    Error,
>)
    requires
        documents <= i64::MAX,
    ensures
        if text::is_blank(actor@) {
            text::refused(r, "actor is required"@)
        } else {
            r is Ok && r->Ok_0.actor@ == text::trimmed(actor@) && r->Ok_0.payload@
                == rebuild_payload(documents as nat) && r->Ok_0.report.board@ == board@
                && r->Ok_0.report.documents == documents && r->Ok_0.report.embedded == documents
                && r->Ok_0.report.embedding_model@ == EMBEDDING_MODEL@
                && r->Ok_0.report.duration_ms == if elapsed_ms <= i64::MAX {
                elapsed_ms as int
            } else {
                i64::MAX as int
            }
        },
{
    let who = text::trim(actor);
    proof {
        text::lemma_trimmed_blank(actor@);
    }
    if who.is_empty() {
        return text::refuse("actor is required".to_owned());
    }
    let count = text::show_u64(documents as u64);
    let members = vec![
        json::write_member("documents", count.as_str()),
        json::text_member("embeddingModel", EMBEDDING_MODEL),
    ];
    proof {
        assert(text::texts(members@) =~= seq![
            json::member("documents"@, text::digits(documents as nat)),
            json::member("embeddingModel"@, outside::json_text(EMBEDDING_MODEL@)),
        ]);
    }
    let payload = json::write_object(members.as_slice());
    let duration_ms: i64 = clock::saturated_millis(elapsed_ms);
    Ok(
        Rebuild {
            actor: who.to_owned(),
            payload,
            report: SearchIndexReport {
                board: board.to_owned(),
                documents: documents as i64,
                embedded: documents as i64,
                embedding_model: EMBEDDING_MODEL.to_owned(),
                duration_ms,
            },
        },
    )
}

// ------------------------------------------------------------------------------ health

pub open spec fn fix_words() -> Seq<char> {
    "run `kb search-rebuild --project NAME --as ACTOR`"@
}

/// A reason is given where it holds.
pub open spec fn given_reason(holds: bool, reason: Seq<char>) -> Seq<Seq<char>> {
    if holds {
        seq![reason]
    } else {
        seq![]
    }
}

/// Why an index is unhealthy.
pub open spec fn reasons(
    source_rows: i64,
    documents: i64,
    fts_rows: i64,
    missing: nat,
    stale: nat,
) -> Seq<Seq<char>> {
    given_reason(
        source_rows != documents,
        text::decimal(documents as int) + " search documents for "@ + text::decimal(
            source_rows as int,
        ) + " source rows; "@ + fix_words(),
    ) + given_reason(
        documents != fts_rows,
        text::decimal(documents as int) + " search documents for "@ + text::decimal(
            fts_rows as int,
        ) + " FTS rows; "@ + fix_words(),
    ) + given_reason(
        missing > 0,
        text::digits(missing) + " of "@ + text::decimal(documents as int)
            + " documents have no embedding; "@ + fix_words(),
    ) + given_reason(stale > 0, text::digits(stale) + " stale embeddings; "@ + fix_words())
}

fn push_text(out: &mut Vec<String>, s: String)
    ensures
        text::texts(final(out)@) == text::texts(old(out)@) + seq![s@],
{
    let ghost before = text::texts(out@);
    out.push(s);
    proof {
        assert(text::texts(out@) =~= before + seq![s@]);
    }
}

fn explain(source_rows: i64, documents: i64, fts_rows: i64, missing: usize, stale: usize) -> (r: Vec<
    String,
>)
    ensures
        text::texts(r@) == reasons(
            source_rows,
            documents,
            fts_rows,
            missing as nat,
            stale as nat,
        ),
{
    let fix = "run `kb search-rebuild --project NAME --as ACTOR`";
    let shown = text::show_i64(documents);
    let mut out: Vec<String> = Vec::new();
    let ghost none: Seq<Seq<char>> = seq![];
    proof {
        assert(text::texts(out@) =~= none);
    }
    if source_rows != documents {
        let rows = text::show_i64(source_rows);
        push_text(
            &mut out,
            shown.clone().concat(" search documents for ").concat(rows.as_str()).concat(
                " source rows; ",
            ).concat(fix),
        );
    }
    let ghost first = text::texts(out@);
    if documents != fts_rows {
        let rows = text::show_i64(fts_rows);
        push_text(
            &mut out,
            shown.clone().concat(" search documents for ").concat(rows.as_str()).concat(
                " FTS rows; ",
            ).concat(fix),
        );
    }
    let ghost second = text::texts(out@);
    if missing > 0 {
        let count = text::show_u64(missing as u64);
        push_text(
            &mut out,
            count.concat(" of ").concat(shown.as_str()).concat(
                " documents have no embedding; ",
            ).concat(fix),
        );
    }
    let ghost third = text::texts(out@);
    if stale > 0 {
        let count = text::show_u64(stale as u64);
        push_text(&mut out, count.concat(" stale embeddings; ").concat(fix));
    }
    proof {
        let a = given_reason(
            source_rows != documents,
            text::decimal(documents as int) + " search documents for "@ + text::decimal(
                source_rows as int,
            ) + " source rows; "@ + fix_words(),
        );
        let b = given_reason(
            documents != fts_rows,
            text::decimal(documents as int) + " search documents for "@ + text::decimal(
                fts_rows as int,
            ) + " FTS rows; "@ + fix_words(),
        );
        let c = given_reason(
            missing > 0,
            text::digits(missing as nat) + " of "@ + text::decimal(documents as int)
                + " documents have no embedding; "@ + fix_words(),
        );
        let d = given_reason(
            stale > 0,
            text::digits(stale as nat) + " stale embeddings; "@ + fix_words(),
        );
        assert(first =~= a);
        assert(second =~= a + b);
        assert(third =~= a + b + c);
        assert(text::texts(out@) =~= a + b + c + d);
    }
    out
}

/// How an index stands: it is healthy where there is nothing to name.
pub fn health(source_rows: i64, documents: i64, fts_rows: i64, indexed: &[Document]) -> (r:
    SearchIndexHealth)
    requires
        indexed@.len() <= i64::MAX,
    ensures
        ({
            let missing = tables::kept(indexed@, has_no_embedding()).len();
            let stale = tables::kept(indexed@, has_stale_embedding()).len();
            &&& r.source_rows == source_rows
            &&& r.documents == documents
            &&& r.fts_rows == fts_rows
            &&& r.missing_embeddings == missing
            &&& r.stale_embeddings == stale
            &&& r.embedding_model@ == EMBEDDING_MODEL@
            &&& text::texts(r.unhealthy_because@) == reasons(
                source_rows,
                documents,
                fts_rows,
                missing,
                stale,
            )
            &&& r.healthy == (source_rows == documents && documents == fts_rows && missing == 0
                && stale == 0)
        }),
{
    let ghost p = has_no_embedding();
    let ghost q = has_stale_embedding();
    let mut missing: usize = 0;
    let mut stale: usize = 0;
    let mut i: usize = 0;
    proof {
        assert(indexed@.take(0) =~= Seq::<Document>::empty());
    }
    while i < indexed.len()
        invariant
            i <= indexed@.len(),
            p == has_no_embedding(),
            q == has_stale_embedding(),
            missing <= i,
            stale <= i,
            missing == tables::kept(indexed@.take(i as int), p).len(),
            stale == tables::kept(indexed@.take(i as int), q).len(),
        decreases indexed.len() - i,
    {
        proof {
            tables::lemma_kept_step(indexed@, p, i as int);
            tables::lemma_kept_step(indexed@, q, i as int);
        }
        let d = &indexed[i];
        if d.embedding.is_none() {
            missing = missing + 1;
        } else if !embedding_is_current(d) {
            stale = stale + 1;
        }
        i = i + 1;
    }
    proof {
        assert(indexed@.take(indexed@.len() as int) =~= indexed@);
    }
    let unhealthy_because = explain(source_rows, documents, fts_rows, missing, stale);
    proof {
        let all = reasons(source_rows, documents, fts_rows, missing as nat, stale as nat);
        assert(text::texts(unhealthy_because@).len() == unhealthy_because@.len());
        assert(all.len() == unhealthy_because@.len());
    }
    SearchIndexHealth {
        healthy: unhealthy_because.len() == 0,
        source_rows,
        documents,
        fts_rows,
        missing_embeddings: missing as i64,
        stale_embeddings: stale as i64,
        embedding_model: EMBEDDING_MODEL.to_owned(),
        unhealthy_because,
    }
}

// --------------------------------------------------------------------------- selection

/// A wanted text is there, where one is wanted.
pub open spec fn fits(wanted: Option<String>, got: Option<Seq<char>>) -> bool {
    wanted is None || text::text_of(wanted) == got
}

/// A tag stands among others between spaces.
pub open spec fn is_tagged(tags: Seq<char>, tag: Seq<char>) -> bool {
    text::contains_text(" "@ + tags + " "@, " "@ + tag + " "@)
}

/// The options of a search select a document.
pub open spec fn is_selected(options: SearchOptions) -> spec_fn(Document) -> bool {
    |d: Document|
        {
            &&& options.include_archived || !d.archived
            &&& fits(options.source, Some(d.source_kind@))
            &&& fits(options.status, text::text_of(d.status))
            &&& fits(options.lane, text::text_of(d.lane))
            &&& forall|i: int|
                0 <= i < options.tags@.len() ==> is_tagged(
                    d.tags@,
                    (#[trigger] options.tags@[i])@,
                )
            &&& options.after is Some ==> d.updated_at >= options.after->0
            &&& options.before is Some ==> d.updated_at <= options.before->0
        }
}

fn fits_text(wanted: &Option<String>, got: &str) -> (r: bool)
    ensures
        r == fits(*wanted, Some(got@)),
{
    match wanted {
        Some(w) => text::same(w.as_str(), got),
        None => true,
    }
}

fn fits_option(wanted: &Option<String>, got: &Option<String>) -> (r: bool)
    ensures
        r == fits(*wanted, text::text_of(*got)),
{
    match wanted {
        Some(w) => match got {
            Some(g) => text::same(w.as_str(), g.as_str()),
            None => false,
        },
        None => true,
    }
}

fn has_all_tags(tags: &str, wanted: &[String]) -> (r: bool)
    ensures
        r == (forall|i: int|
            0 <= i < wanted@.len() ==> is_tagged(tags@, (#[trigger] wanted@[i])@)),
{
    let hay = " ".to_owned().concat(tags).concat(" ");
    let mut i: usize = 0;
    while i < wanted.len()
        invariant
            i <= wanted@.len(),
            hay@ == " "@ + tags@ + " "@,
            forall|k: int| 0 <= k < i ==> is_tagged(tags@, (#[trigger] wanted@[k])@),
        decreases wanted.len() - i,
    {
        let needle = " ".to_owned().concat(wanted[i].as_str()).concat(" ");
        if !text::contains(hay.as_str(), needle.as_str()) {
            proof {
                assert(!is_tagged(tags@, wanted@[i as int]@));
            }
            return false;
        }
        i = i + 1;
    }
    true
}

/// Whether the options of a search select a document.
pub fn selects(options: &SearchOptions, d: &Document) -> (r: bool)
    ensures
        r == is_selected(*options)(*d),
{
    let in_time = match options.after {
        Some(after) => d.updated_at >= after,
        None => true,
    } && match options.before {
        Some(before) => d.updated_at <= before,
        None => true,
    };
    (options.include_archived || !d.archived) && fits_text(
        &options.source,
        d.source_kind.as_str(),
    ) && fits_option(&options.status, &d.status) && fits_option(&options.lane, &d.lane)
        && has_all_tags(d.tags.as_str(), options.tags.as_slice()) && in_time
}

/// The documents that the options select, in their order.
pub fn load_documents(documents: Vec<Document>, options: &SearchOptions) -> (r: Vec<Document>)
    ensures
        r@ == tables::kept(documents@, is_selected(*options)),
{
    let ghost all = documents@;
    let ghost p = is_selected(*options);
    let mut out: Vec<Document> = Vec::new();
    proof {
        assert(all.take(0) =~= Seq::<Document>::empty());
    }
    for d in it: documents
        invariant
            it.seq() == all,
            p == is_selected(*options),
            out@ == tables::kept(all.take(it.index() as int), p),
    {
        proof {
            tables::lemma_kept_step(all, p, it.index() as int);
        }
        if selects(options, &d) {
            out.push(d);
        }
    }
    proof {
        assert(all.take(all.len() as int) =~= all);
    }
    out
}

// -------------------------------------------------------------------------------- tags

/// The tag that a stale entry is authorised against. It is no tag that a grant can
/// name, so nobody satisfies it.
pub const STALE_INDEX_TAG: &'static str = "*";

/// What the source tables say of the task of a document.
#[derive(Debug)]
pub enum TaskTags {
    /// The document names no task.
    Unlinked,
    /// The task is there, with these tags.
    Present(Vec<String>),
    /// The task was removed, with these tags.
    Removed(Vec<String>),
    /// There is no task, and no record of its removal.
    Gone,
}

/// What the source tables say of the row of a document.
#[derive(Debug)]
pub enum RowTags {
    /// An event, with the tags that the event itself is authorised against.
    Event(Vec<String>),
    /// An attention row, with its own tags where it is still there.
    Attention { task: TaskTags, own: Option<Vec<String>> },
    /// Any other row.
    Other { task: TaskTags },
}

pub open spec fn task_part(task: TaskTags) -> Option<Seq<Seq<char>>> {
    match task {
        TaskTags::Unlinked => Some(seq![]),
        TaskTags::Present(tags) => Some(text::texts(tags@)),
        TaskTags::Removed(tags) => Some(text::texts(tags@)),
        TaskTags::Gone => None,
    }
}

/// Texts in order, each once.
pub open spec fn tag_set(tags: Seq<Seq<char>>) -> Seq<Seq<char>> {
    tables::deduplicated(ranking::sorted_texts(tags))
}

/// The tags that a document is authorised against: those of its row now, never those
/// that the index holds.
pub open spec fn row_tags(row: RowTags) -> Seq<Seq<char>> {
    match row {
        RowTags::Event(tags) => text::texts(tags@),
        RowTags::Attention { task, own } => match (task_part(task), own) {
            (Some(tags), Some(more)) => tag_set(tags + text::texts(more@)),
            _ => seq![STALE_INDEX_TAG@],
        },
        RowTags::Other { task } => match task_part(task) {
            Some(tags) => tag_set(tags),
            None => seq![STALE_INDEX_TAG@],
        },
    }
}

fn own_task_part(task: TaskTags) -> (r: Option<Vec<String>>)
    ensures
        match task_part(task) {
            Some(tags) => r is Some && text::texts(r->0@) == tags,
            None => r is None,
        },
{
    match task {
        TaskTags::Unlinked => {
            let none: Vec<String> = Vec::new();
            proof {
                assert(text::texts(none@) =~= seq![]);
            }
            Some(none)
        },
        TaskTags::Present(tags) => Some(tags),
        TaskTags::Removed(tags) => Some(tags),
        TaskTags::Gone => None,
    }
}

fn stale_tags() -> (r: Vec<String>)
    ensures
        text::texts(r@) == seq![STALE_INDEX_TAG@],
{
    let r = vec![STALE_INDEX_TAG.to_owned()];
    proof {
        assert(text::texts(r@) =~= seq![STALE_INDEX_TAG@]);
    }
    r
}

fn set_of(tags: Vec<String>) -> (r: Vec<String>)
    ensures
        text::texts(r@) == tag_set(text::texts(tags@)),
{
    let sorted = ranking::sort_texts(tags);
    let ghost whole = text::texts(sorted@);
    let mut out: Vec<String> = Vec::new();
    let mut i: usize = 0;
    proof {
        assert(whole.take(0) =~= Seq::<Seq<char>>::empty());
        assert(text::texts(out@) =~= seq![]);
    }
    while i < sorted.len()
        invariant
            i <= sorted@.len(),
            whole == text::texts(sorted@),
            text::texts(out@) == tables::deduplicated(whole.take(i as int)),
        decreases sorted.len() - i,
    {
        let ghost before = text::texts(out@);
        proof {
            assert(whole.take(i as int + 1).drop_last() =~= whole.take(i as int));
            assert(whole.take(i as int + 1).last() == sorted@[i as int]@);
        }
        if !text::holds(out.as_slice(), sorted[i].as_str()) {
            let tag = sorted[i].clone();
            out.push(tag);
            proof {
                assert(text::texts(out@) =~= before.push(tag@));
            }
        }
        i = i + 1;
    }
    proof {
        assert(whole.take(whole.len() as int) =~= whole);
    }
    out
}

/// The tags that a document is authorised against.
pub fn document_row_tags(row: RowTags) -> (r: Vec<String>)
    ensures
        text::texts(r@) == row_tags(row),
{
    match row {
        RowTags::Event(tags) => tags,
        RowTags::Attention { task, own } => match own_task_part(task) {
            None => stale_tags(),
            Some(tags) => match own {
                None => stale_tags(),
                Some(more) => {
                    let ghost a = text::texts(tags@);
                    let ghost b = text::texts(more@);
                    let mut all = tags;
                    let mut rest = more;
                    all.append(&mut rest);
                    proof {
                        assert(text::texts(all@) =~= a + b);
                    }
                    set_of(all)
                },
            },
        },
        RowTags::Other { task } => match own_task_part(task) {
            None => stale_tags(),
            Some(tags) => set_of(tags),
        },
    }
}

/// Whatever the index says, a document whose row or task is gone is authorised against
/// a tag that no grant can name.
pub proof fn law_stale_documents_fail_closed(row: RowTags)
    requires
        match row {
            RowTags::Event(_) => false,
            RowTags::Attention { task, own } => task is Gone || own is None,
            RowTags::Other { task } => task is Gone,
        },
    ensures
        row_tags(row) == seq![STALE_INDEX_TAG@],
        forall|atoms: Seq<Seq<char>>|
            (#[trigger] lattice::scope_of(atoms)) matches Ok(
                lattice::ScopeView::BoardTag(_, tag),
            ) ==> tag != STALE_INDEX_TAG@,
{
    assert forall|atoms: Seq<Seq<char>>|
        (#[trigger] lattice::scope_of(atoms)) matches Ok(
            lattice::ScopeView::BoardTag(_, tag),
        ) ==> tag != STALE_INDEX_TAG@ by {
        if lattice::scope_of(atoms) is Ok {
            lattice::law_read_scope_has_the_atoms(atoms);
        }
    }
}

/// An attention document carries the tags of its task as well as its own.
pub proof fn law_attention_carries_both(task: Vec<String>, own: Vec<String>, tag: Seq<char>)
    requires
        text::texts(task@).contains(tag) || text::texts(own@).contains(tag),
    ensures
        row_tags(
            RowTags::Attention { task: TaskTags::Present(task), own: Some(own) },
        ).contains(tag),
{
    let all = text::texts(task@) + text::texts(own@);
    if text::texts(task@).contains(tag) {
        let i = choose|i: int| 0 <= i < text::texts(task@).len() && text::texts(task@)[i] == tag;
        assert(all[i] == tag);
    } else {
        let i = choose|i: int| 0 <= i < text::texts(own@).len() && text::texts(own@)[i] == tag;
        assert(all[text::texts(task@).len() + i] == tag);
    }
    ranking::law_sorted_texts(all);
    all.to_multiset_ensures();
    ranking::sorted_texts(all).to_multiset_ensures();
    assert(all.to_multiset().count(tag) > 0);
    assert(ranking::sorted_texts(all).contains(tag));
    lemma_deduplicated_holds(ranking::sorted_texts(all), tag);
}

proof fn lemma_deduplicated_holds(s: Seq<Seq<char>>, x: Seq<char>)
    requires
        s.contains(x),
    ensures
        tables::deduplicated(s).contains(x),
    decreases s.len(),
{
    let rest = s.drop_last();
    let i = choose|i: int| 0 <= i < s.len() && s[i] == x;
    let before = tables::deduplicated(rest);
    if i < rest.len() {
        assert(rest[i] == x);
        lemma_deduplicated_holds(rest, x);
        let k = choose|k: int| 0 <= k < before.len() && before[k] == x;
        if !before.contains(s.last()) {
            assert(before.push(s.last())[k] == x);
        }
    } else if !before.contains(x) {
        assert(before.push(x)[before.len() as int] == x);
    }
}

// ---------------------------------------------------------------------------- matching

/// How many sequence numbers one statement names at most.
pub const MATCH_CHUNK: usize = 900;

/// How the rows that match a query are found among those that may be read.
#[derive(Debug)]
pub enum MatchPlan {
    /// Nothing can match.
    Nothing,
    /// The statement names the permitted rows.
    Restricted { query: String, sql: String },
    /// The statement walks the index, and what may not be read is left out.
    Walk { query: String, sql: String },
}

/// So many placeholders in a row.
pub open spec fn placeholders(n: nat) -> Seq<char>
    decreases n,
{
    if n == 0 {
        seq![]
    } else if n == 1 {
        "?"@
    } else {
        placeholders((n - 1) as nat) + ","@ + "?"@
    }
}

fn write_placeholders(n: usize) -> (r: String)
    ensures
        r@ == placeholders(n as nat),
{
    let mut out = String::new();
    let mut i: usize = 0;
    proof {
        assert(out@ =~= seq![]);
    }
    while i < n
        invariant
            i <= n,
            out@ == placeholders(i as nat),
        decreases n - i,
    {
        if i > 0 {
            out = out.concat(",");
        } else {
            proof {
                assert(out@ + "?"@ =~= "?"@);
            }
        }
        out = out.concat("?");
        i = i + 1;
    }
    out
}

pub open spec fn is_match_plan(plan: MatchPlan, query: Seq<char>, permitted: nat) -> bool {
    let wanted = search_text::full_text_query(query);
    if permitted == 0 || wanted is None {
        plan is Nothing
    } else if permitted <= MATCH_CHUNK {
        &&& plan is Restricted
        &&& plan->Restricted_query@ == wanted->0
        &&& plan->Restricted_sql@
            == "SELECT rowid FROM search_fts WHERE search_fts MATCH ? AND rowid IN ("@
            + placeholders(permitted) + ")"@
    } else {
        &&& plan is Walk
        &&& plan->Walk_query@ == wanted->0
        &&& plan->Walk_sql@ == "SELECT rowid FROM search_fts WHERE search_fts MATCH ?"@
    }
}

/// How the rows that match a query are found, with so many that may be read.
pub fn match_plan(query: &str, permitted: usize) -> (r: MatchPlan)
    ensures
        is_match_plan(r, query@, permitted as nat),
{
    if permitted == 0 {
        return MatchPlan::Nothing;
    }
    match search_text::fts_query(query) {
        None => MatchPlan::Nothing,
        Some(query) => if permitted <= MATCH_CHUNK {
            let inner = write_placeholders(permitted);
            let sql =
                "SELECT rowid FROM search_fts WHERE search_fts MATCH ? AND rowid IN (".to_owned().concat(
            inner.as_str()).concat(")");
            MatchPlan::Restricted { query, sql }
        } else {
            MatchPlan::Walk {
                query,
                sql: "SELECT rowid FROM search_fts WHERE search_fts MATCH ?".to_owned(),
            }
        },
    }
}

pub open spec fn is_among(permitted: Seq<i64>) -> spec_fn(i64) -> bool {
    |seq: i64| permitted.contains(seq)
}

/// Whether a number is in a list.
pub fn among(list: &[i64], seq: i64) -> (r: bool)
    ensures
        r == list@.contains(seq),
{
    let mut i: usize = 0;
    while i < list.len()
        invariant
            i <= list@.len(),
            forall|k: int| 0 <= k < i ==> #[trigger] list@[k] != seq,
        decreases list.len() - i,
    {
        if list[i] == seq {
            proof {
                assert(list@[i as int] == seq);
            }
            return true;
        }
        i = i + 1;
    }
    false
}

/// The matched rows that may be read. A row that may not is dropped, however it was
/// found.
pub fn fts_match_permitted(rows: &[i64], permitted: &[i64]) -> (r: Vec<i64>)
    ensures
        r@ == tables::kept(rows@, is_among(permitted@)),
{
    let ghost p = is_among(permitted@);
    let mut out: Vec<i64> = Vec::new();
    let mut i: usize = 0;
    proof {
        assert(rows@.take(0) =~= Seq::<i64>::empty());
    }
    while i < rows.len()
        invariant
            i <= rows@.len(),
            p == is_among(permitted@),
            out@ == tables::kept(rows@.take(i as int), p),
        decreases rows.len() - i,
    {
        proof {
            tables::lemma_kept_step(rows@, p, i as int);
        }
        if among(permitted, rows[i]) {
            out.push(rows[i]);
        }
        i = i + 1;
    }
    proof {
        assert(rows@.take(rows@.len() as int) =~= rows@);
    }
    out
}

/// No row that may not be read is ever matched, and no other is lost.
pub proof fn law_only_permitted_rows_match(rows: Seq<i64>, permitted: Seq<i64>, seq: i64)
    ensures
        tables::kept(rows, is_among(permitted)).contains(seq) <==> rows.contains(seq)
            && permitted.contains(seq),
{
    let p = is_among(permitted);
    let k = tables::kept(rows, p);
    tables::lemma_kept(rows, p);
    if k.contains(seq) {
        let i = choose|i: int| 0 <= i < k.len() && k[i] == seq;
        assert(p(k[i]));
    }
    if rows.contains(seq) && permitted.contains(seq) {
        let i = choose|i: int| 0 <= i < rows.len() && rows[i] == seq;
        assert(p(rows[i]));
    }
}

} // verus!
