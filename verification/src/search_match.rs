//! How well a document answers a query: what it says word for word, what is quoted of
//! it, and the counts that its rank is computed from.

use vstd::prelude::*;

use crate::outside;
use crate::search_index::Document;
use crate::search_text;
use crate::tables;
use crate::text;
use crate::text::Error;

verus! {

// ------------------------------------------------------------------- word-for-word hits

/// How a document holds a query word for word, from the best on.
#[derive(Debug, Clone, Copy, PartialEq, Eq, Structural)]
pub enum ExactHit {
    /// The query is the id of the document.
    SourceId,
    /// The query is its title.
    Title,
    /// The title starts with it.
    TitleStart,
    /// The title holds it.
    TitlePart,
    /// The body holds it.
    Body,
    /// So many words of the query occur, of so many.
    Words { hits: usize, of: usize },
}

pub open spec fn occurs_in(hay: Seq<char>) -> spec_fn(Seq<char>) -> bool {
    |word: Seq<char>| text::contains_text(hay, word)
}

/// So many of the words occur.
pub open spec fn word_hits(hay: Seq<char>, words: Seq<Seq<char>>) -> ExactHit {
    ExactHit::Words {
        hits: tables::kept(words, occurs_in(hay)).len() as usize,
        of: words.len() as usize,
    }
}

/// How texts in lower case hold a query in lower case.
pub open spec fn hit_of(
    source_id: Seq<char>,
    title: Seq<char>,
    body: Seq<char>,
    query: Seq<char>,
    words: Seq<Seq<char>>,
) -> ExactHit {
    if source_id == query {
        ExactHit::SourceId
    } else if query.len() > 0 && title == query {
        ExactHit::Title
    } else if query.len() > 0 && query.is_prefix_of(title) {
        ExactHit::TitleStart
    } else if query.len() > 0 && text::contains_text(title, query) {
        ExactHit::TitlePart
    } else if query.len() > 0 && text::contains_text(body, query) {
        ExactHit::Body
    } else {
        word_hits(source_id + "\n"@ + title + "\n"@ + body, words)
    }
}

/// How a document holds a query, without its tags.
pub open spec fn literal_hit(d: Document, query: Seq<char>, words: Seq<Seq<char>>) -> ExactHit {
    hit_of(
        outside::lowercase(d.source_id@),
        outside::lowercase(d.title@),
        outside::lowercase(d.body@),
        outside::lowercase(query),
        words,
    )
}

/// How a document holds a query, with its tags behind its body.
pub open spec fn tagged_hit(d: Document, query: Seq<char>, words: Seq<Seq<char>>) -> ExactHit {
    hit_of(
        outside::lowercase(d.source_id@),
        outside::lowercase(d.title@),
        outside::lowercase(d.body@ + "\n"@ + d.tags@),
        outside::lowercase(query),
        words,
    )
}

/// So many of the words occur.
pub fn count_words(hay: &str, words: &[String]) -> (r: ExactHit)
    ensures
        r == word_hits(hay@, text::texts(words@)),
{
    let ghost all = text::texts(words@);
    let ghost p = occurs_in(hay@);
    let mut hits: usize = 0;
    let mut i: usize = 0;
    proof {
        assert(all.take(0) =~= Seq::<Seq<char>>::empty());
    }
    while i < words.len()
        invariant
            i <= words@.len(),
            hits <= i,
            all == text::texts(words@),
            p == occurs_in(hay@),
            hits == tables::kept(all.take(i as int), p).len(),
        decreases words.len() - i,
    {
        proof {
            tables::lemma_kept_step(all, p, i as int);
        }
        if text::contains(hay, words[i].as_str()) {
            hits = hits + 1;
        }
        i = i + 1;
    }
    proof {
        assert(all.take(all.len() as int) =~= all);
        assert(all.len() == words@.len());
    }
    ExactHit::Words { hits, of: words.len() }
}

fn find_hit(source_id: &str, title: &str, body: &str, query: &str, words: &[String]) -> (r:
    ExactHit)
    ensures
        r == hit_of(source_id@, title@, body@, query@, text::texts(words@)),
{
    if text::same(source_id, query) {
        return ExactHit::SourceId;
    }
    if !query.is_empty() {
        if text::same(title, query) {
            return ExactHit::Title;
        }
        if text::starts_with(title, query) {
            return ExactHit::TitleStart;
        }
        if text::contains(title, query) {
            return ExactHit::TitlePart;
        }
        if text::contains(body, query) {
            return ExactHit::Body;
        }
    }
    let hay = source_id.to_owned().concat("\n").concat(title).concat("\n").concat(body);
    count_words(hay.as_str(), words)
}

/// How a document holds a query, without its tags.
pub fn literal_exact_score(d: &Document, query: &str, words: &[String]) -> (r: ExactHit)
    ensures
        r == literal_hit(*d, query@, text::texts(words@)),
{
    let source_id = outside::to_lower(d.source_id.as_str());
    let title = outside::to_lower(d.title.as_str());
    let body = outside::to_lower(d.body.as_str());
    let lowered = outside::to_lower(query);
    find_hit(source_id.as_str(), title.as_str(), body.as_str(), lowered.as_str(), words)
}

/// How a document holds a query, with its tags.
pub fn exact_score(d: &Document, query: &str, words: &[String]) -> (r: ExactHit)
    ensures
        r == tagged_hit(*d, query@, text::texts(words@)),
{
    let source_id = outside::to_lower(d.source_id.as_str());
    let title = outside::to_lower(d.title.as_str());
    let whole = d.body.clone().concat("\n").concat(d.tags.as_str());
    let body = outside::to_lower(whole.as_str());
    let lowered = outside::to_lower(query);
    find_hit(source_id.as_str(), title.as_str(), body.as_str(), lowered.as_str(), words)
}

/// How a document holds a query: a generated id is looked for word for word, and never
/// among the tags.
pub open spec fn document_hit(d: Document, query: Seq<char>) -> ExactHit {
    if search_text::is_generated_id(query) {
        literal_hit(d, query, search_text::words_of(query))
    } else {
        tagged_hit(d, query, search_text::words_of(query))
    }
}

/// How a document holds a query.
pub fn exact_hit(d: &Document, query: &str) -> (r: ExactHit)
    ensures
        r == document_hit(*d, query@),
{
    let words = search_text::words(query);
    if search_text::canonical_generated_id_query(query) {
        literal_exact_score(d, query, words.as_slice())
    } else {
        exact_score(d, query, words.as_slice())
    }
}

// ------------------------------------------------------------------------- eligibility

/// A result is shown: for a generated id only where it stands word for word, else where
/// anything speaks for it.
pub open spec fn is_eligible(
    query: Seq<char>,
    exact: ExactHit,
    lexical: bool,
    semantic: bool,
) -> bool {
    if search_text::is_generated_id(query) {
        !(exact is Words)
    } else {
        !(exact is Words) || exact->hits > 0 || lexical || semantic
    }
}

/// Whether a result is shown, given whether the full-text match speaks for it and
/// whether its meaning is close enough.
pub fn result_is_eligible(query: &str, exact: ExactHit, lexical: bool, semantic: bool) -> (r: bool)
    ensures
        r == is_eligible(query@, exact, lexical, semantic),
{
    let (literal, some) = match exact {
        ExactHit::Words { hits, of } => (false, hits > 0),
        _ => (true, true),
    };
    if search_text::canonical_generated_id_query(query) {
        literal
    } else {
        literal || some || lexical || semantic
    }
}

/// Nothing but a word-for-word hit answers a generated id, however close its meaning.
pub proof fn law_ids_keep_only_literal_hits(
    query: Seq<char>,
    exact: ExactHit,
    lexical: bool,
    semantic: bool,
)
    requires
        search_text::is_generated_id(query),
        is_eligible(query, exact, lexical, semantic),
    ensures
        !(exact is Words),
{
}

// ---------------------------------------------------------------------------- snippets

/// The first place at or behind `i` where a text occurs.
pub open spec fn occurrence_from(hay: Seq<char>, needle: Seq<char>, i: int) -> Option<int>
    decreases hay.len() - i + 1,
{
    if i + needle.len() > hay.len() {
        None
    } else if text::occurs_at(hay, needle, i) {
        Some(i)
    } else {
        occurrence_from(hay, needle, i + 1)
    }
}

fn find_text(hay: &str, needle: &str) -> (r: Option<usize>)
    ensures
        match r {
            Some(i) => occurrence_from(hay@, needle@, 0) == Some(i as int) && i <= hay@.len(),
            None => occurrence_from(hay@, needle@, 0) is None,
        },
{
    let n: usize = hay.unicode_len();
    let m: usize = needle.unicode_len();
    if m > n {
        return None;
    }
    let mut i: usize = 0;
    loop
        invariant
            m <= n,
            n == hay@.len(),
            m == needle@.len(),
            i <= n - m,
            occurrence_from(hay@, needle@, 0) == occurrence_from(hay@, needle@, i as int),
        decreases n - m - i,
    {
        if text::same(hay.substring_char(i, i + m), needle) {
            return Some(i);
        }
        if i == n - m {
            proof {
                assert(occurrence_from(hay@, needle@, i as int + 1) is None);
            }
            return None;
        }
        i = i + 1;
    }
}

/// How many bytes stand before the first of some words.
pub open spec fn first_byte(hay: Seq<char>, words: Seq<Seq<char>>) -> Option<nat>
    decreases words.len(),
{
    if words.len() == 0 {
        None
    } else {
        let before = first_byte(hay, words.drop_last());
        match occurrence_from(hay, words.last(), 0) {
            None => before,
            Some(i) => {
                let here = search_text::byte_len(hay.take(i));
                if before is Some && before->0 <= here {
                    before
                } else {
                    Some(here)
                }
            },
        }
    }
}

fn find_first_byte(hay: &str, words: &[String]) -> (r: Option<usize>)
    ensures
        match first_byte(hay@, text::texts(words@)) {
            Some(n) => r is Some && r->0 == n,
            None => r is None,
        },
{
    let ghost all = text::texts(words@);
    let mut best: Option<usize> = None;
    let mut i: usize = 0;
    proof {
        assert(all.take(0) =~= Seq::<Seq<char>>::empty());
    }
    while i < words.len()
        invariant
            i <= words@.len(),
            all == text::texts(words@),
            match first_byte(hay@, all.take(i as int)) {
                Some(n) => best is Some && best->0 == n,
                None => best is None,
            },
        decreases words.len() - i,
    {
        proof {
            assert(all.take(i as int + 1).drop_last() =~= all.take(i as int));
            assert(all.take(i as int + 1).last() == words@[i as int]@);
        }
        if let Some(at) = find_text(hay, words[i].as_str()) {
            let head = hay.substring_char(0, at);
            proof {
                assert(head@ =~= hay@.take(at as int));
            }
            let here: usize = search_text::count_bytes(head);
            best = match best {
                Some(known) => if known <= here {
                    Some(known)
                } else {
                    Some(here)
                },
                None => Some(here),
            };
        }
        i = i + 1;
    }
    proof {
        assert(all.take(all.len() as int) =~= all);
    }
    best
}

/// How many characters a snippet quotes at most.
pub const SNIPPET_CHARS: usize = 480;

/// What a snippet is cut from.
pub open spec fn snippet_source(d: Document) -> Seq<char> {
    text::trimmed(d.title@) + " — "@ + text::trimmed(d.body@)
}

/// Where a snippet starts: a little before the first word that occurs.
pub open spec fn snippet_start(source: Seq<char>, words: Seq<Seq<char>>) -> nat {
    match first_byte(outside::lowercase(source), words) {
        Some(n) => if n > 100 {
            (n - 100) as nat
        } else {
            0
        },
        None => 0,
    }
}

pub open spec fn least(a: nat, b: nat) -> nat {
    if a < b {
        a
    } else {
        b
    }
}

/// So many characters of a text from a place on, with a mark at each end that was cut.
pub open spec fn excerpt(source: Seq<char>, start: nat) -> Seq<char> {
    let from = least(start, source.len());
    let to = least(from + SNIPPET_CHARS as nat, source.len());
    let head = if start > 0 {
        seq!['…']
    } else {
        seq![]
    };
    let tail = if source.len() > start + SNIPPET_CHARS {
        seq!['…']
    } else {
        seq![]
    };
    head + source.subrange(from as int, to as int) + tail
}

/// The snippet of a document for some words.
pub open spec fn snippet_of(d: Document, words: Seq<Seq<char>>) -> Seq<char> {
    let source = snippet_source(d);
    search_text::squeezed(excerpt(source, snippet_start(source, words)))
}

fn cut(source: &str, start: usize) -> (r: String)
    ensures
        r@ == excerpt(source@, start as nat),
{
    let n: usize = source.unicode_len();
    let from: usize = if start < n {
        start
    } else {
        n
    };
    let to: usize = if n - from < SNIPPET_CHARS {
        n
    } else {
        from + SNIPPET_CHARS
    };
    let mut out = String::new();
    if start > 0 {
        out.push('…');
    }
    let inner = source.substring_char(from, to);
    let mut out = out.concat(inner);
    if n > start && n - start > SNIPPET_CHARS {
        out.push('…');
    }
    proof {
        assert(out@ =~= excerpt(source@, start as nat));
    }
    out
}

/// The snippet of a document for some words.
pub fn snippet(d: &Document, words: &[String]) -> (r: String)
    ensures
        r@ == snippet_of(*d, text::texts(words@)),
{
    let source = text::trim(d.title.as_str()).to_owned().concat(" — ").concat(
        text::trim(d.body.as_str()),
    );
    let lower = outside::to_lower(source.as_str());
    let start: usize = match find_first_byte(lower.as_str(), words) {
        Some(n) => if n > 100 {
            n - 100
        } else {
            0
        },
        None => 0,
    };
    let value = cut(source.as_str(), start);
    search_text::squeeze(value.as_str())
}

// -------------------------------------------------------------------------- statistics

/// How often a term occurs in each field of a document.
#[derive(Debug, Clone, Copy, PartialEq, Eq, Structural)]
pub struct FieldHits {
    pub title: usize,
    pub body: usize,
    pub tags: usize,
}

/// The counts of one document.
#[derive(Debug)]
pub struct DocumentCounts {
    pub seq: i64,
    pub length: u64,
    pub hits: Vec<FieldHits>,
}

/// The counts of all documents that may be read: nothing else moves a rank.
#[derive(Debug)]
pub struct CorpusCounts {
    pub documents: Vec<DocumentCounts>,
    pub frequency: Vec<usize>,
    pub total_length: u64,
}

/// The stem of a word starts with a term.
pub open spec fn is_term_hit(term: Seq<char>) -> spec_fn(Seq<char>) -> bool {
    |word: Seq<char>| term.is_prefix_of(search_text::stem_of(word))
}

pub open spec fn hits_in(s: Seq<char>, term: Seq<char>) -> nat {
    tables::kept(search_text::words_of(s), is_term_hit(term)).len()
}

/// How many words a document has.
pub open spec fn length_of(d: Document) -> nat {
    search_text::words_of(d.title@).len() + search_text::words_of(d.body@).len()
        + search_text::words_of(d.tags@).len()
}

/// A term occurs in a document.
pub open spec fn has_term(term: Seq<char>) -> spec_fn(Document) -> bool {
    |d: Document|
        hits_in(d.title@, term) > 0 || hits_in(d.body@, term) > 0 || hits_in(d.tags@, term) > 0
}

/// The counts are those of a document.
pub open spec fn are_counts(c: DocumentCounts, d: Document, terms: Seq<Seq<char>>) -> bool {
    &&& c.seq == d.seq
    &&& c.length == length_of(d)
    &&& c.hits@.len() == terms.len()
    &&& forall|i: int|
        0 <= i < terms.len() ==> (#[trigger] c.hits@[i]).title == hits_in(d.title@, terms[i])
            && c.hits@[i].body == hits_in(d.body@, terms[i]) && c.hits@[i].tags == hits_in(
            d.tags@,
            terms[i],
        )
}

pub open spec fn total_of(documents: Seq<Document>) -> nat
    decreases documents.len(),
{
    if documents.len() == 0 {
        0
    } else {
        total_of(documents.drop_last()) + length_of(documents.last())
    }
}

proof fn lemma_total(documents: Seq<Document>, i: int)
    requires
        0 <= i <= documents.len(),
    ensures
        total_of(documents.take(i)) <= total_of(documents),
    decreases documents.len() - i,
{
    if i < documents.len() {
        lemma_total(documents, i + 1);
        assert(documents.take(i + 1).drop_last() =~= documents.take(i));
    } else {
        assert(documents.take(i) =~= documents);
    }
}

/// The stemmed terms of a query.
pub open spec fn stemmed_terms(query: Seq<char>) -> Seq<Seq<char>> {
    search_text::query_terms(query).map_values(|term: Seq<char>| search_text::stem_of(term))
}

fn stem_terms(query: &str) -> (r: Vec<String>)
    ensures
        text::texts(r@) == stemmed_terms(query@),
{
    let list = search_text::terms(query);
    let ghost wanted = stemmed_terms(query@);
    let mut out: Vec<String> = Vec::new();
    let mut i: usize = 0;
    proof {
        assert(text::texts(list@).len() == list@.len());
    }
    while i < list.len()
        invariant
            i <= list@.len(),
            text::texts(list@) == search_text::query_terms(query@),
            wanted == stemmed_terms(query@),
            text::texts(out@) == wanted.take(i as int),
        decreases list.len() - i,
    {
        let ghost before = text::texts(out@);
        let stem = search_text::stem(list[i].as_str()).to_owned();
        out.push(stem);
        proof {
            assert(text::texts(list@)[i as int] == list@[i as int]@);
            assert(text::texts(out@) =~= before.push(stem@));
            assert(wanted.take(i as int + 1) =~= wanted.take(i as int).push(wanted[i as int]));
        }
        i = i + 1;
    }
    proof {
        assert(text::texts(list@).len() == list@.len());
        assert(wanted.take(wanted.len() as int) =~= wanted);
    }
    out
}

fn count_hits(words: &[String], term: &str) -> (r: usize)
    ensures
        r == tables::kept(text::texts(words@), is_term_hit(term@)).len(),
{
    let ghost all = text::texts(words@);
    let ghost p = is_term_hit(term@);
    let mut hits: usize = 0;
    let mut i: usize = 0;
    proof {
        assert(all.take(0) =~= Seq::<Seq<char>>::empty());
    }
    while i < words.len()
        invariant
            i <= words@.len(),
            hits <= i,
            all == text::texts(words@),
            p == is_term_hit(term@),
            hits == tables::kept(all.take(i as int), p).len(),
        decreases words.len() - i,
    {
        proof {
            tables::lemma_kept_step(all, p, i as int);
        }
        let stem = search_text::stem(words[i].as_str());
        if text::starts_with(stem, term) {
            hits = hits + 1;
        }
        i = i + 1;
    }
    proof {
        assert(all.take(all.len() as int) =~= all);
    }
    hits
}

fn count_document(d: &Document, terms: &[String]) -> (r: DocumentCounts)
    requires
        length_of(*d) <= u64::MAX,
    ensures
        are_counts(r, *d, text::texts(terms@)),
{
    let title = search_text::words(d.title.as_str());
    let body = search_text::words(d.body.as_str());
    let tags = search_text::words(d.tags.as_str());
    let mut hits: Vec<FieldHits> = Vec::new();
    let mut i: usize = 0;
    proof {
        assert(text::texts(title@).len() == title@.len());
        assert(text::texts(body@).len() == body@.len());
        assert(text::texts(tags@).len() == tags@.len());
    }
    while i < terms.len()
        invariant
            i <= terms@.len(),
            hits@.len() == i,
            text::texts(title@) == search_text::words_of(d.title@),
            text::texts(body@) == search_text::words_of(d.body@),
            text::texts(tags@) == search_text::words_of(d.tags@),
            forall|k: int|
                0 <= k < i ==> (#[trigger] hits@[k]).title == hits_in(
                    d.title@,
                    text::texts(terms@)[k],
                ) && hits@[k].body == hits_in(d.body@, text::texts(terms@)[k]) && hits@[k].tags
                    == hits_in(d.tags@, text::texts(terms@)[k]),
        decreases terms.len() - i,
    {
        let term = terms[i].as_str();
        proof {
            assert(text::texts(terms@)[i as int] == term@);
        }
        hits.push(
            FieldHits {
                title: count_hits(title.as_slice(), term),
                body: count_hits(body.as_slice(), term),
                tags: count_hits(tags.as_slice(), term),
            },
        );
        i = i + 1;
    }
    let length: u64 = title.len() as u64 + body.len() as u64 + tags.len() as u64;
    DocumentCounts { seq: d.seq, length, hits }
}

/// In how many documents each term occurs.
fn count_frequency(documents: &[Document], counts: &[DocumentCounts], terms: &[String]) -> (r: Vec<
    usize,
>)
    requires
        counts@.len() == documents@.len(),
        forall|i: int|
            0 <= i < counts@.len() ==> are_counts(
                #[trigger] counts@[i],
                documents@[i],
                text::texts(terms@),
            ),
    ensures
        r@.len() == terms@.len(),
        forall|j: int|
            0 <= j < terms@.len() ==> #[trigger] r@[j] == tables::kept(
                documents@,
                has_term(text::texts(terms@)[j]),
            ).len(),
{
    let ghost all = text::texts(terms@);
    let mut out: Vec<usize> = Vec::new();
    let mut j: usize = 0;
    while j < terms.len()
        invariant
            j <= terms@.len(),
            all == text::texts(terms@),
            out@.len() == j,
            counts@.len() == documents@.len(),
            forall|i: int|
                0 <= i < counts@.len() ==> are_counts(#[trigger] counts@[i], documents@[i], all),
            forall|k: int|
                0 <= k < j ==> #[trigger] out@[k] == tables::kept(
                    documents@,
                    has_term(all[k]),
                ).len(),
        decreases terms.len() - j,
    {
        let ghost p = has_term(all[j as int]);
        let mut count: usize = 0;
        let mut i: usize = 0;
        proof {
            assert(documents@.take(0) =~= Seq::<Document>::empty());
        }
        while i < counts.len()
            invariant
                j < terms@.len(),
                i <= counts@.len(),
                count <= i,
                all == text::texts(terms@),
                p == has_term(all[j as int]),
                counts@.len() == documents@.len(),
                forall|i: int|
                    0 <= i < counts@.len() ==> are_counts(
                        #[trigger] counts@[i],
                        documents@[i],
                        all,
                    ),
                count == tables::kept(documents@.take(i as int), p).len(),
            decreases counts.len() - i,
        {
            proof {
                tables::lemma_kept_step(documents@, p, i as int);
                assert(are_counts(counts@[i as int], documents@[i as int], all));
            }
            let hits: FieldHits = counts[i].hits[j];
            if hits.title > 0 || hits.body > 0 || hits.tags > 0 {
                count = count + 1;
            }
            i = i + 1;
        }
        proof {
            assert(documents@.take(documents@.len() as int) =~= documents@);
        }
        out.push(count);
        j = j + 1;
    }
    out
}

/// The counts are those of a query over some documents; none where the query has no
/// term or there is no document.
pub open spec fn are_permitted_counts(
    counts: Option<CorpusCounts>,
    documents: Seq<Document>,
    query: Seq<char>,
) -> bool {
    let terms = stemmed_terms(query);
    match counts {
        None => terms.len() == 0 || documents.len() == 0,
        Some(c) => {
            &&& terms.len() > 0 && documents.len() > 0
            &&& c.documents@.len() == documents.len()
            &&& forall|i: int|
                0 <= i < documents.len() ==> are_counts(
                    #[trigger] c.documents@[i],
                    documents[i],
                    terms,
                )
            &&& c.frequency@.len() == terms.len()
            &&& forall|j: int|
                0 <= j < terms.len() ==> #[trigger] c.frequency@[j] == tables::kept(
                    documents,
                    has_term(terms[j]),
                ).len()
            &&& c.total_length == total_of(documents)
        },
    }
}

/// The counts that the ranks of a query are computed from, over the documents that may
/// be read and no others.
pub fn permitted_counts(documents: &[Document], query: &str) -> (r: Option<CorpusCounts>)
    requires
        total_of(documents@) <= u64::MAX,
    ensures
        are_permitted_counts(r, documents@, query@),
{
    let terms = stem_terms(query);
    proof {
        assert(text::texts(terms@).len() == terms@.len());
    }
    if terms.len() == 0 || documents.len() == 0 {
        return None;
    }
    let ghost all = text::texts(terms@);
    let mut counts: Vec<DocumentCounts> = Vec::new();
    let mut total: u64 = 0;
    let mut i: usize = 0;
    proof {
        assert(documents@.take(0) =~= Seq::<Document>::empty());
    }
    while i < documents.len()
        invariant
            i <= documents@.len(),
            total_of(documents@) <= u64::MAX,
            all == text::texts(terms@),
            counts@.len() == i,
            forall|k: int|
                0 <= k < i ==> are_counts(#[trigger] counts@[k], documents@[k], all),
            total == total_of(documents@.take(i as int)),
        decreases documents.len() - i,
    {
        proof {
            assert(documents@.take(i as int + 1).drop_last() =~= documents@.take(i as int));
            assert(documents@.take(i as int + 1).last() == documents@[i as int]);
            lemma_total(documents@, i as int + 1);
        }
        let one = count_document(&documents[i], terms.as_slice());
        total = total + one.length;
        counts.push(one);
        i = i + 1;
    }
    proof {
        assert(documents@.take(documents@.len() as int) =~= documents@);
    }
    let frequency = count_frequency(documents, counts.as_slice(), terms.as_slice());
    Some(CorpusCounts { documents: counts, frequency, total_length: total })
}

/// How many words the documents have, if a machine integer holds it.
fn count_total(documents: &[Document]) -> (r: Option<u64>)
    ensures
        match r {
            Some(n) => n == total_of(documents@),
            None => total_of(documents@) > u64::MAX,
        },
{
    let mut total: u64 = 0;
    let mut i: usize = 0;
    proof {
        assert(documents@.take(0) =~= Seq::<Document>::empty());
    }
    while i < documents.len()
        invariant
            i <= documents@.len(),
            total == total_of(documents@.take(i as int)),
        decreases documents.len() - i,
    {
        proof {
            assert(documents@.take(i as int + 1).drop_last() =~= documents@.take(i as int));
            assert(documents@.take(i as int + 1).last() == documents@[i as int]);
            lemma_total(documents@, i as int + 1);
        }
        let d = &documents[i];
        let title = search_text::words(d.title.as_str());
        let body = search_text::words(d.body.as_str());
        let tags = search_text::words(d.tags.as_str());
        proof {
            assert(text::texts(title@).len() == title@.len());
            assert(text::texts(body@).len() == body@.len());
            assert(text::texts(tags@).len() == tags@.len());
        }
        let length: u128 = title.len() as u128 + body.len() as u128 + tags.len() as u128;
        let next: u128 = total as u128 + length;
        if next > u64::MAX as u128 {
            return None;
        }
        total = next as u64;
        i = i + 1;
    }
    proof {
        assert(documents@.take(documents@.len() as int) =~= documents@);
    }
    Some(total)
}

/// The counts of [`permitted_counts`], or an error where the documents have more words
/// than a machine integer holds.
pub fn checked_permitted_counts(documents: &[Document], query: &str) -> (r: Result<
    Option<CorpusCounts>,
    Error,
>)
    ensures
        if total_of(documents@) > u64::MAX {
            text::refused(r, "the documents have too many words to be counted"@)
        } else {
            r is Ok && are_permitted_counts(r->Ok_0, documents@, query@)
        },
{
    match count_total(documents) {
        None => text::refuse("the documents have too many words to be counted".to_owned()),
        Some(_) => Ok(permitted_counts(documents, query)),
    }
}

} // verus!
