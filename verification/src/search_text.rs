//! Text as search sees it: words, stems, concepts, queries and features.

use vstd::prelude::*;

use crate::outside;
use crate::rules;
use crate::tables;
use crate::text;
use crate::tokens;

verus! {

// ----------------------------------------------------------------------------- bytes

/// How many bytes a text takes.
pub open spec fn byte_len(s: Seq<char>) -> nat {
    vstd::utf8::encode_utf8(s).len()
}

pub fn count_bytes(s: &str) -> (r: usize)
    ensures
        r == byte_len(s@),
{
    let bytes = s.as_bytes();
    bytes.len()
}

pub const HASH_START: u64 = 0xcbf29ce484222325;

pub const HASH_FACTOR: u64 = 0x100000001b3;

/// One more byte in a running hash.
pub open spec fn hash_step(h: u64, b: u8) -> u64 {
    (h ^ (b as u64)).wrapping_mul(HASH_FACTOR)
}

/// A running hash over some bytes.
pub open spec fn hashed(h: u64, bytes: Seq<u8>) -> u64
    decreases bytes.len(),
{
    if bytes.len() == 0 {
        h
    } else {
        hash_step(hashed(h, bytes.drop_last()), bytes.last())
    }
}

pub fn hash_bytes(h: u64, bytes: &[u8]) -> (r: u64)
    ensures
        r == hashed(h, bytes@),
{
    let mut hash: u64 = h;
    let mut i: usize = 0;
    while i < bytes.len()
        invariant
            i <= bytes@.len(),
            hash == hashed(h, bytes@.take(i as int)),
        decreases bytes.len() - i,
    {
        proof {
            assert(bytes@.take(i as int + 1).drop_last() =~= bytes@.take(i as int));
        }
        hash = (hash ^ (bytes[i] as u64)).wrapping_mul(HASH_FACTOR);
        i = i + 1;
    }
    proof {
        assert(bytes@.take(bytes@.len() as int) =~= bytes@);
    }
    hash
}

/// So many hexadecimal digits of a number, the last ones.
pub open spec fn hex_digits(h: u64, n: nat) -> Seq<char>
    decreases n,
{
    if n == 0 {
        seq![]
    } else {
        hex_digits(h / 16, (n - 1) as nat).push(rules::hex_digit((h % 16) as u8))
    }
}

pub fn show_hex_digits(h: u64, n: u8) -> (r: String)
    ensures
        r@ == hex_digits(h, n as nat),
    decreases n,
{
    if n == 0 {
        let r = String::new();
        proof {
            assert(r@ =~= seq![]);
        }
        r
    } else {
        let mut r = show_hex_digits(h / 16, n - 1);
        let digit: u8 = (h % 16) as u8;
        r.push(
            if digit < 10 {
                (48 + digit) as char
            } else {
                (87 + digit) as char
            },
        );
        r
    }
}

// ----------------------------------------------------------------------------- words

/// The pieces between characters that are not alphanumeric.
pub open spec fn pieces(s: Seq<char>) -> Seq<Seq<char>>
    decreases s.len(),
{
    let i = tables::first_index(s, is_break());
    if 0 <= i < s.len() {
        seq![s.take(i)] + pieces(s.skip(i + 1))
    } else {
        seq![s]
    }
}

pub open spec fn is_break() -> spec_fn(char) -> bool {
    |c: char| !outside::alphanumeric(c)
}

pub open spec fn lowered(s: Seq<Seq<char>>) -> Seq<Seq<char>> {
    s.map_values(|piece: Seq<char>| outside::lowercase(piece))
}

pub open spec fn is_word() -> spec_fn(Seq<char>) -> bool {
    |s: Seq<char>| byte_len(s) > 1
}

/// The words of a text: its alphanumeric pieces in lower case, without those of a
/// single byte.
pub open spec fn words_of(s: Seq<char>) -> Seq<Seq<char>> {
    tables::kept(lowered(pieces(s)), is_word())
}

fn find_break(cs: &[char], from: usize) -> (r: usize)
    requires
        from <= cs@.len(),
    ensures
        from <= r <= cs@.len(),
        r == from + tables::first_index(cs@.skip(from as int), is_break()),
{
    let mut i: usize = from;
    let ghost rest = cs@.skip(from as int);
    while i < cs.len() && outside::is_alphanumeric(cs[i])
        invariant
            from <= i <= cs@.len(),
            rest == cs@.skip(from as int),
            forall|k: int| 0 <= k < i - from ==> !is_break()(#[trigger] rest[k]),
        decreases cs.len() - i,
    {
        proof {
            assert(rest[i - from] == cs@[i as int]);
        }
        i = i + 1;
    }
    proof {
        if i < cs@.len() {
            assert(rest[i - from] == cs@[i as int]);
        }
        tables::lemma_first_index_is(rest, is_break(), i - from);
    }
    i
}

fn split_pieces(s: &str) -> (r: Vec<String>)
    ensures
        text::texts(r@) == pieces(s@),
{
    let cs = text::chars_of(s);
    let mut out: Vec<String> = Vec::new();
    let mut from: usize = 0;
    proof {
        assert(s@.skip(0) =~= s@);
        assert(text::texts(out@) + pieces(s@) =~= pieces(s@));
    }
    loop
        invariant_except_break
            from <= cs@.len(),
            cs@ == s@,
            pieces(s@) == text::texts(out@) + pieces(s@.skip(from as int)),
        ensures
            text::texts(out@) == pieces(s@),
        decreases cs.len() - from,
    {
        let end: usize = find_break(cs.as_slice(), from);
        let piece = s.substring_char(from, end).to_owned();
        let ghost before = out@;
        let ghost rest = s@.skip(from as int);
        out.push(piece);
        proof {
            assert(text::texts(out@) =~= text::texts(before).push(piece@));
            assert(rest.take(end - from) =~= s@.subrange(from as int, end as int));
        }
        if end >= cs.len() {
            proof {
                assert(rest.take(end - from) =~= rest);
                assert(text::texts(out@) =~= text::texts(before) + seq![rest]);
            }
            break;
        }
        proof {
            assert(rest.skip(end - from + 1) =~= s@.skip(end as int + 1));
            assert(text::texts(before) + (seq![rest.take(end - from)] + pieces(
                s@.skip(end as int + 1),
            )) =~= text::texts(out@) + pieces(s@.skip(end as int + 1)));
        }
        from = end + 1;
    }
    out
}

/// The words of a text.
pub fn words(s: &str) -> (r: Vec<String>)
    ensures
        text::texts(r@) == words_of(s@),
{
    let parts = split_pieces(s);
    let ghost all = lowered(pieces(s@));
    let mut out: Vec<String> = Vec::new();
    let mut i: usize = 0;
    proof {
        assert(all.take(0) =~= Seq::<Seq<char>>::empty());
        assert(text::texts(out@) =~= seq![]);
    }
    while i < parts.len()
        invariant
            i <= parts@.len(),
            text::texts(parts@) == pieces(s@),
            all == lowered(pieces(s@)),
            text::texts(out@) == tables::kept(all.take(i as int), is_word()),
        decreases parts.len() - i,
    {
        let ghost before = text::texts(out@);
        proof {
            assert(text::texts(parts@)[i as int] == parts@[i as int]@);
            tables::lemma_kept_step(all, is_word(), i as int);
        }
        let word = outside::to_lower(parts[i].as_str());
        if count_bytes(word.as_str()) > 1 {
            out.push(word);
            proof {
                assert(text::texts(out@) =~= before.push(word@));
            }
        }
        i = i + 1;
    }
    proof {
        assert(text::texts(parts@).len() == parts@.len());
        assert(all.take(all.len() as int) =~= all);
    }
    out
}

// ----------------------------------------------------------------------------- stems

/// The endings that a stem leaves out, in the order in which they are tried.
pub const ENDINGS: [&'static str; 11] = [
    "ments",
    "ment",
    "ingly",
    "ing",
    "ation",
    "ions",
    "ion",
    "ers",
    "ed",
    "es",
    "s",
];

pub open spec fn ends_with(s: Seq<char>, ending: Seq<char>) -> bool {
    ending.len() <= s.len() && s.skip(s.len() - ending.len()) == ending
}

/// An ending that leaves more than three bytes.
pub open spec fn is_left_out(word: Seq<char>) -> spec_fn(Seq<char>) -> bool {
    |ending: Seq<char>| byte_len(word) > byte_len(ending) + 3 && ends_with(word, ending)
}

/// A word without the first ending that it can leave out.
pub open spec fn stem_of(word: Seq<char>) -> Seq<char> {
    let endings = tokens::words_of(ENDINGS@);
    let i = tables::first_index(endings, is_left_out(word));
    if i < endings.len() {
        word.take(word.len() - endings[i].len())
    } else {
        word
    }
}

/// A word without its ending.
pub fn stem(word: &str) -> (r: &str)
    ensures
        r@ == stem_of(word@),
{
    let ghost endings = tokens::words_of(ENDINGS@);
    let ghost p = is_left_out(word@);
    let bytes: usize = count_bytes(word);
    let n: usize = word.unicode_len();
    let mut i: usize = 0;
    while i < 11
        invariant
            i <= 11,
            n == word@.len(),
            bytes == byte_len(word@),
            endings == tokens::words_of(ENDINGS@),
            p == is_left_out(word@),
            forall|k: int| 0 <= k < i ==> !p(#[trigger] endings[k]),
        decreases 11 - i,
    {
        let ending = ENDINGS[i];
        let m: usize = ending.unicode_len();
        let taken: usize = count_bytes(ending);
        proof {
            assert(endings[i as int] == ending@);
        }
        if m <= n && bytes > taken && bytes - taken > 3 {
            let tail = word.substring_char(n - m, n);
            proof {
                assert(tail@ =~= word@.skip(n - m));
            }
            if text::same(tail, ending) {
                let head = word.substring_char(0, n - m);
                proof {
                    tables::lemma_first_index_is(endings, p, i as int);
                    assert(head@ =~= word@.take(n - m));
                }
                return head;
            }
        }
        i = i + 1;
    }
    proof {
        tables::lemma_first_index_is(endings, p, 11);
    }
    word
}

/// A stem is the beginning of its word.
pub proof fn law_stem_begins_its_word(word: Seq<char>)
    ensures
        stem_of(word).is_prefix_of(word),
{
    let endings = tokens::words_of(ENDINGS@);
    tables::lemma_first_index(endings, is_left_out(word));
    let i = tables::first_index(endings, is_left_out(word));
    if i < endings.len() {
        assert(is_left_out(word)(endings[i]));
    }
}

// -------------------------------------------------------------------------- concepts

/// The stems that stand for one thing, and its name.
pub open spec fn concept_of(word: Seq<char>) -> Option<Seq<char>> {
    let s = stem_of(word);
    if tokens::words_of(RELEASE_STEMS@).contains(s) {
        Some("concept-release"@)
    } else if tokens::words_of(HANDOFF_STEMS@).contains(s) {
        Some("concept-handoff"@)
    } else if tokens::words_of(AUTH_STEMS@).contains(s) {
        Some("concept-auth"@)
    } else if tokens::words_of(ARCHIVE_STEMS@).contains(s) {
        Some("concept-archive"@)
    } else if tokens::words_of(STALE_STEMS@).contains(s) {
        Some("concept-stale"@)
    } else if tokens::words_of(ATTENTION_STEMS@).contains(s) {
        Some("concept-attention"@)
    } else if tokens::words_of(SEARCH_STEMS@).contains(s) {
        Some("concept-search"@)
    } else if tokens::words_of(STORAGE_STEMS@).contains(s) {
        Some("concept-storage"@)
    } else if tokens::words_of(WORK_STEMS@).contains(s) {
        Some("concept-work"@)
    } else {
        None
    }
}

pub const RELEASE_STEMS: [&'static str; 6] = [
    "deploy",
    "release",
    "publish",
    "rollout",
    "install",
    "promot",
];

pub const HANDOFF_STEMS: [&'static str; 6] = [
    "handoff",
    "resume",
    "continu",
    "successor",
    "restart",
    "context",
];

pub const AUTH_STEMS: [&'static str; 8] = [
    "auth",
    "login",
    "session",
    "credential",
    "password",
    "sso",
    "signin",
    "sign",
];

pub const ARCHIVE_STEMS: [&'static str; 10] = [
    "archive",
    "retention",
    "prune",
    "history",
    "settled",
    "settle",
    "old",
    "complete",
    "hot",
    "cold",
];

pub const STALE_STEMS: [&'static str; 6] = [
    "stale",
    "overdue",
    "heartbeat",
    "lease",
    "abandon",
    "check",
];

pub const ATTENTION_STEMS: [&'static str; 5] = [
    "attention",
    "blocker",
    "decision",
    "approval",
    "risk",
];

pub const SEARCH_STEMS: [&'static str; 5] = ["search", "find", "retriev", "query", "rag"];

pub const STORAGE_STEMS: [&'static str; 5] = ["sqlite", "database", "db", "storage", "ledger"];

pub const WORK_STEMS: [&'static str; 6] = ["task", "work", "card", "todo", "story", "epic"];

/// The concept that a word stands for.
pub fn concept(word: &str) -> (r: Option<&'static str>)
    ensures
        text::str_of(r) == concept_of(word@),
{
    let s = stem(word);
    if tokens::is_one_of(s, RELEASE_STEMS.as_slice()) {
        Some("concept-release")
    } else if tokens::is_one_of(s, HANDOFF_STEMS.as_slice()) {
        Some("concept-handoff")
    } else if tokens::is_one_of(s, AUTH_STEMS.as_slice()) {
        Some("concept-auth")
    } else if tokens::is_one_of(s, ARCHIVE_STEMS.as_slice()) {
        Some("concept-archive")
    } else if tokens::is_one_of(s, STALE_STEMS.as_slice()) {
        Some("concept-stale")
    } else if tokens::is_one_of(s, ATTENTION_STEMS.as_slice()) {
        Some("concept-attention")
    } else if tokens::is_one_of(s, SEARCH_STEMS.as_slice()) {
        Some("concept-search")
    } else if tokens::is_one_of(s, STORAGE_STEMS.as_slice()) {
        Some("concept-storage")
    } else if tokens::is_one_of(s, WORK_STEMS.as_slice()) {
        Some("concept-work")
    } else {
        None
    }
}

// --------------------------------------------------------------------------- queries

/// The words of a query that count: each once, the first twelve.
pub open spec fn query_terms(query: Seq<char>) -> Seq<Seq<char>> {
    let distinct = tables::deduplicated(words_of(query));
    if distinct.len() > 12 {
        distinct.take(12)
    } else {
        distinct
    }
}

/// The words of a query that count.
pub fn terms(query: &str) -> (r: Vec<String>)
    ensures
        text::texts(r@) == query_terms(query@),
{
    let all = words(query);
    let ghost whole = text::texts(all@);
    let mut out: Vec<String> = Vec::new();
    let mut i: usize = 0;
    proof {
        assert(whole.take(0) =~= Seq::<Seq<char>>::empty());
        assert(text::texts(out@) =~= seq![]);
    }
    while i < all.len()
        invariant
            i <= all@.len(),
            whole == text::texts(all@),
            text::texts(out@) == tables::deduplicated(whole.take(i as int)),
        decreases all.len() - i,
    {
        let ghost before = text::texts(out@);
        proof {
            assert(whole.take(i as int + 1).drop_last() =~= whole.take(i as int));
            assert(whole.take(i as int + 1).last() == all@[i as int]@);
        }
        if !text::holds(out.as_slice(), all[i].as_str()) {
            let word = all[i].clone();
            out.push(word);
            proof {
                assert(text::texts(out@) =~= before.push(word@));
            }
        }
        i = i + 1;
    }
    proof {
        assert(whole.take(whole.len() as int) =~= whole);
    }
    if out.len() > 12 {
        let ghost distinct = text::texts(out@);
        out.truncate(12);
        proof {
            assert(text::texts(out@) =~= distinct.take(12));
        }
    }
    out
}

/// A text with each quotation mark doubled.
pub open spec fn doubled(s: Seq<char>) -> Seq<char>
    decreases s.len(),
{
    if s.len() == 0 {
        s
    } else if s.last() == '\"' {
        doubled(s.drop_last()).push('\"').push('\"')
    } else {
        doubled(s.drop_last()).push(s.last())
    }
}

fn double_quotes(s: &str) -> (r: String)
    ensures
        r@ == doubled(s@),
{
    let cs = text::chars_of(s);
    let mut out = String::new();
    let mut i: usize = 0;
    proof {
        assert(s@.take(0) =~= Seq::<char>::empty());
        assert(out@ =~= seq![]);
    }
    while i < cs.len()
        invariant
            i <= cs@.len(),
            cs@ == s@,
            out@ == doubled(s@.take(i as int)),
        decreases cs.len() - i,
    {
        proof {
            assert(s@.take(i as int + 1).drop_last() =~= s@.take(i as int));
            assert(s@.take(i as int + 1).last() == s@[i as int]);
        }
        if cs[i] == '\"' {
            out.push('\"');
        }
        out.push(cs[i]);
        i = i + 1;
    }
    proof {
        assert(s@.take(s@.len() as int) =~= s@);
    }
    out
}

/// A term as a quoted prefix.
pub open spec fn quoted_prefix(term: Seq<char>) -> Seq<char> {
    "\""@ + doubled(term) + "\"*"@
}

/// The full-text query for a query: any of its terms as a prefix. None where there is
/// no term.
pub open spec fn full_text_query(query: Seq<char>) -> Option<Seq<char>> {
    if query_terms(query).len() == 0 {
        None
    } else {
        Some(
            text::joined(
                query_terms(query).map_values(|term: Seq<char>| quoted_prefix(term)),
                " OR "@,
            ),
        )
    }
}

/// The full-text query for a query.
pub fn fts_query(query: &str) -> (r: Option<String>)
    ensures
        text::text_of(r) == full_text_query(query@),
{
    let list = terms(query);
    proof {
        assert(text::texts(list@).len() == list@.len());
    }
    if list.len() == 0 {
        return None;
    }
    let ghost wanted = query_terms(query@).map_values(|term: Seq<char>| quoted_prefix(term));
    let mut parts: Vec<String> = Vec::new();
    let mut i: usize = 0;
    while i < list.len()
        invariant
            i <= list@.len(),
            text::texts(list@) == query_terms(query@),
            wanted == query_terms(query@).map_values(|term: Seq<char>| quoted_prefix(term)),
            text::texts(parts@) == wanted.take(i as int),
        decreases list.len() - i,
    {
        let ghost before = text::texts(parts@);
        let inner = double_quotes(list[i].as_str());
        let part = "\"".to_owned().concat(inner.as_str()).concat("\"*");
        parts.push(part);
        proof {
            assert(text::texts(list@)[i as int] == list@[i as int]@);
            assert(text::texts(parts@) =~= before.push(part@));
            assert(wanted.take(i as int + 1) =~= wanted.take(i as int).push(wanted[i as int]));
        }
        i = i + 1;
    }
    proof {
        assert(text::texts(list@).len() == list@.len());
        assert(wanted.take(wanted.len() as int) =~= wanted);
    }
    Some(text::join(parts.as_slice(), " OR "))
}

/// The prefixes of generated ids.
pub const ID_PREFIXES: [&'static str; 10] = [
    "t",
    "e",
    "s",
    "sp",
    "d",
    "sr",
    "a",
    "h",
    "sub",
    "r",
];

/// A query that is a generated id: a known prefix, a hyphen and eight hexadecimal
/// digits.
pub open spec fn is_generated_id(query: Seq<char>) -> bool {
    match tokens::parted(text::trimmed(query), '-') {
        Some((prefix, suffix)) => tokens::words_of(ID_PREFIXES@).contains(prefix)
            && tokens::is_hex(suffix, 8),
        None => false,
    }
}

/// Whether a query is a generated id.
pub fn canonical_generated_id_query(query: &str) -> (r: bool)
    ensures
        r == is_generated_id(query@),
{
    match tokens::split_once(text::trim(query), '-') {
        Some((prefix, suffix)) => tokens::is_one_of(prefix, ID_PREFIXES.as_slice())
            && tokens::hex_of_length(suffix, 8),
        None => false,
    }
}

// -------------------------------------------------------------------------- features

/// How much a feature weighs, in hundredths.
#[derive(Debug, Clone, PartialEq, Eq)]
pub struct Feature {
    pub name: String,
    pub weight: u32,
}

/// What a feature says.
pub struct FeatureView {
    pub name: Seq<char>,
    pub weight: u32,
}

impl View for Feature {
    type V = FeatureView;

    open spec fn view(&self) -> FeatureView {
        FeatureView { name: self.name@, weight: self.weight }
    }
}

pub open spec fn feature_views(s: Seq<Feature>) -> Seq<FeatureView> {
    s.map_values(|f: Feature| f@)
}

pub open spec fn concept_features(word: Seq<char>) -> Seq<FeatureView> {
    match concept_of(word) {
        Some(name) => seq![FeatureView { name, weight: 240 }],
        None => seq![],
    }
}

/// The runs of three characters of a word.
pub open spec fn run_features(word: Seq<char>) -> Seq<FeatureView> {
    Seq::new(
        if word.len() < 3 {
            0
        } else {
            (word.len() - 2) as nat
        },
        |i: int| FeatureView { name: "char:"@ + word.subrange(i, i + 3), weight: 18 },
    )
}

pub open spec fn pair_features(tokens: Seq<Seq<char>>, i: int) -> Seq<FeatureView> {
    if i + 1 < tokens.len() {
        seq![
            FeatureView {
                name: "pair:"@ + tokens[i] + ":"@ + tokens[i + 1],
                weight: 45,
            },
        ]
    } else {
        seq![]
    }
}

/// The features of one word of a text: itself, its stem, its concept, its runs, and
/// itself with its successor.
pub open spec fn word_features(tokens: Seq<Seq<char>>, i: int) -> Seq<FeatureView> {
    seq![
        FeatureView { name: tokens[i], weight: 100 },
        FeatureView { name: "stem:"@ + stem_of(tokens[i]), weight: 80 },
    ] + concept_features(tokens[i]) + run_features(tokens[i]) + pair_features(tokens, i)
}

/// The features of the first words of a text.
pub open spec fn features_up_to(tokens: Seq<Seq<char>>, n: int) -> Seq<FeatureView>
    decreases n,
{
    if n <= 0 {
        seq![]
    } else {
        features_up_to(tokens, n - 1) + word_features(tokens, n - 1)
    }
}

/// The features that a text is embedded by.
pub open spec fn features_of(s: Seq<char>) -> Seq<FeatureView> {
    features_up_to(words_of(s), words_of(s).len() as int)
}

fn push_feature(out: &mut Vec<Feature>, name: String, weight: u32)
    ensures
        feature_views(final(out)@) == feature_views(old(out)@).push(
            FeatureView { name: name@, weight },
        ),
{
    let ghost before = feature_views(out@);
    let f = Feature { name, weight };
    out.push(f);
    proof {
        assert(feature_views(out@) =~= before.push(f@));
    }
}

fn push_runs(out: &mut Vec<Feature>, word: &str)
    ensures
        feature_views(final(out)@) == feature_views(old(out)@) + run_features(word@),
{
    let n: usize = word.unicode_len();
    let ghost start = feature_views(out@);
    let ghost wanted = run_features(word@);
    if n < 3 {
        proof {
            assert(start + wanted =~= start);
        }
        return;
    }
    let mut i: usize = 0;
    proof {
        assert(start + wanted.take(0) =~= start);
    }
    while i + 2 < n
        invariant
            n == word@.len(),
            3 <= n,
            i <= n - 2,
            wanted == run_features(word@),
            start == feature_views(old(out)@),
            feature_views(out@) == start + wanted.take(i as int),
        decreases n - i,
    {
        let ghost before = feature_views(out@);
        let run = word.substring_char(i, i + 3);
        let name = "char:".to_owned().concat(run);
        push_feature(out, name, 18);
        proof {
            assert(wanted.take(i as int + 1) =~= wanted.take(i as int).push(wanted[i as int]));
            assert(feature_views(out@) =~= start + wanted.take(i as int + 1));
        }
        i = i + 1;
    }
    proof {
        assert(wanted.take(wanted.len() as int) =~= wanted);
    }
}

fn push_word(out: &mut Vec<Feature>, list: &[String], i: usize)
    requires
        i < list@.len(),
    ensures
        feature_views(final(out)@) == feature_views(old(out)@) + word_features(
            text::texts(list@),
            i as int,
        ),
{
    let ghost start = feature_views(out@);
    let ghost all = text::texts(list@);
    let word = list[i].as_str();
    push_feature(out, word.to_owned(), 100);
    let name = "stem:".to_owned().concat(stem(word));
    push_feature(out, name, 80);
    let ghost head = feature_views(out@);
    if let Some(group) = concept(word) {
        push_feature(out, group.to_owned(), 240);
    }
    proof {
        assert(feature_views(out@) =~= head + concept_features(word@));
    }
    let ghost second = feature_views(out@);
    push_runs(out, word);
    let ghost third = feature_views(out@);
    if i + 1 < list.len() {
        let name = "pair:".to_owned().concat(word).concat(":").concat(list[i + 1].as_str());
        push_feature(out, name, 45);
    }
    proof {
        assert(feature_views(out@) =~= third + pair_features(all, i as int));
        assert(feature_views(out@) =~= start + word_features(all, i as int));
    }
}

/// The features that a text is embedded by.
pub fn features(s: &str) -> (r: Vec<Feature>)
    ensures
        feature_views(r@) == features_of(s@),
{
    let list = words(s);
    let mut out: Vec<Feature> = Vec::new();
    let mut i: usize = 0;
    proof {
        assert(feature_views(out@) =~= seq![]);
        assert(text::texts(list@).len() == list@.len());
    }
    while i < list.len()
        invariant
            i <= list@.len(),
            text::texts(list@) == words_of(s@),
            feature_views(out@) == features_up_to(words_of(s@), i as int),
        decreases list.len() - i,
    {
        push_word(&mut out, list.as_slice(), i);
        i = i + 1;
    }
    out
}

/// How many places an embedding has.
pub const EMBEDDING_DIMS: usize = 384;

/// The place of a feature in an embedding, and whether it counts against it.
pub fn hash_feature(feature: &str) -> (r: (usize, bool))
    ensures
        r.0 == hashed(HASH_START, vstd::utf8::encode_utf8(feature@)) % 384,
        r.1 == (hashed(HASH_START, vstd::utf8::encode_utf8(feature@))
            >= 0x8000_0000_0000_0000),
{
    let hash: u64 = hash_bytes(HASH_START, feature.as_bytes());
    ((hash % 384) as usize, hash >= 0x8000_0000_0000_0000)
}

// ------------------------------------------------------------------------ white space

/// The runs of characters between white space.
pub open spec fn runs_up_to(s: Seq<char>, n: int, open: Seq<char>) -> Seq<Seq<char>>
    decreases n,
{
    if n <= 0 {
        if open.len() == 0 {
            seq![]
        } else {
            seq![open]
        }
    } else if text::is_white_space(s[n - 1]) {
        if open.len() == 0 {
            runs_up_to(s, n - 1, seq![])
        } else {
            runs_up_to(s, n - 1, seq![]).push(open)
        }
    } else {
        runs_up_to(s, n - 1, seq![s[n - 1]] + open)
    }
}

/// The runs of characters between white space.
pub open spec fn runs_of(s: Seq<char>) -> Seq<Seq<char>> {
    runs_up_to(s, s.len() as int, seq![])
}

/// A run that is open grows to the left up to the white space before it.
proof fn lemma_runs_split(s: Seq<char>, from: int, n: int, open: Seq<char>)
    requires
        0 <= from <= n <= s.len(),
        forall|k: int| from <= k < n ==> !text::is_white_space(#[trigger] s[k]),
    ensures
        runs_up_to(s, n, open) == runs_up_to(s, from, s.subrange(from, n) + open),
    decreases n - from,
{
    if from < n {
        lemma_runs_split(s, from, n - 1, seq![s[n - 1]] + open);
        assert(s.subrange(from, n - 1) + (seq![s[n - 1]] + open) =~= s.subrange(from, n) + open);
    } else {
        assert(s.subrange(from, n) + open =~= open);
    }
}

/// The runs of a text between its white space.
pub fn split_whitespace(s: &str) -> (r: Vec<String>)
    ensures
        text::texts(r@) == runs_of(s@),
{
    let cs = text::chars_of(s);
    let mut out: Vec<String> = Vec::new();
    let mut from: usize = 0;
    let mut i: usize = 0;
    proof {
        assert(text::texts(out@) =~= seq![]);
    }
    while i < cs.len()
        invariant
            from <= i <= cs@.len(),
            cs@ == s@,
            text::texts(out@) == runs_up_to(s@, from as int, seq![]),
            from > 0 ==> text::is_white_space(s@[from - 1]),
            forall|k: int| from <= k < i ==> !text::is_white_space(#[trigger] s@[k]),
        decreases cs.len() - i,
    {
        if text::white_space(cs[i]) {
            proof {
                lemma_runs_split(s@, from as int, i as int, seq![]);
                assert(s@.subrange(from as int, i as int) + seq![] =~= s@.subrange(
                    from as int,
                    i as int,
                ));
            }
            let ghost before = text::texts(out@);
            if i > from {
                let run = s.substring_char(from, i).to_owned();
                out.push(run);
                proof {
                    assert(text::texts(out@) =~= before.push(run@));
                    lemma_open_run(s@, from as int, run@);
                }
            } else {
                proof {
                    assert(s@.subrange(from as int, i as int) =~= seq![]);
                }
            }
            from = i + 1;
        }
        i = i + 1;
    }
    proof {
        lemma_runs_split(s@, from as int, i as int, seq![]);
        assert(s@.subrange(from as int, i as int) + seq![] =~= s@.subrange(from as int, i as int));
    }
    let ghost before = text::texts(out@);
    if i > from {
        let run = s.substring_char(from, i).to_owned();
        out.push(run);
        proof {
            assert(text::texts(out@) =~= before.push(run@));
            lemma_open_run(s@, from as int, run@);
        }
    } else {
        proof {
            assert(s@.subrange(from as int, i as int) =~= seq![]);
        }
    }
    out
}

/// A run that starts behind white space, or at the beginning, stands by itself.
proof fn lemma_open_run(s: Seq<char>, from: int, run: Seq<char>)
    requires
        0 <= from <= s.len(),
        from > 0 ==> text::is_white_space(s[from - 1]),
        run.len() > 0,
    ensures
        runs_up_to(s, from, run) == runs_up_to(s, from, seq![]).push(run),
{
    if from > 0 {
        assert(runs_up_to(s, from, run) == runs_up_to(s, from - 1, seq![]).push(run));
    } else {
        assert(runs_up_to(s, 0, run) =~= seq![run]);
        assert(runs_up_to(s, 0, seq![]) =~= seq![]);
        assert(Seq::<Seq<char>>::empty().push(run) =~= seq![run]);
    }
}

/// The runs with one space between neighbours.
pub open spec fn squeezed(s: Seq<char>) -> Seq<char> {
    text::joined(runs_of(s), " "@)
}

pub fn squeeze(s: &str) -> (r: String)
    ensures
        r@ == squeezed(s@),
{
    let list = split_whitespace(s);
    text::join(list.as_slice(), " ")
}

} // verus!
