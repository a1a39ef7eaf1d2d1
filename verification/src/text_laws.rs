//! What counts as a word, a stem, a term and a generated id; which texts look like secrets,
//! and what the fingerprint of a rule covers.

use vstd::prelude::*;

use crate::listing;
use crate::outside;
use crate::principal_laws;
use crate::result_laws;
use crate::rules;
use crate::search;
use crate::search::Guarded;
use crate::search_index;
use crate::search_index::Document;
use crate::search_match;
use crate::search_match::CorpusCounts;
use crate::search_text;
use crate::search_text::FeatureView;
use crate::tables;
use crate::text;
use crate::tokens;

verus! {

// ---------------------------------------------------------------------------- words

/// Letters and digits, with none of them before it and none behind it.
pub open spec fn is_run(s: Seq<char>, i: int, j: int) -> bool {
    &&& 0 <= i <= j <= s.len()
    &&& forall|k: int| i <= k < j ==> outside::alphanumeric(#[trigger] s[k])
    &&& i > 0 ==> !outside::alphanumeric(s[i - 1])
    &&& j < s.len() ==> !outside::alphanumeric(s[j])
}

/// The text is such a run.
pub open spec fn has_run(s: Seq<char>, piece: Seq<char>) -> bool {
    exists|i: int, j: int| #[trigger] is_run(s, i, j) && s.subrange(i, j) == piece
}

proof fn lemma_pieces(s: Seq<char>, piece: Seq<char>)
    ensures
        search_text::pieces(s).contains(piece) <==> has_run(s, piece),
    decreases s.len(),
{
    let q = search_text::is_break();
    tables::lemma_first_index(s, q);
    let b = tables::first_index(s, q);
    let all = search_text::pieces(s);
    if b < s.len() {
        assert(q(s[b]));
        let rest = s.skip(b + 1);
        let more = search_text::pieces(rest);
        lemma_pieces(rest, piece);
        assert(all[0] == s.take(b));
        assert(forall|k: int| 0 <= k < more.len() ==> all[k + 1] == more[k]);
        assert(is_run(s, 0, b)) by {
            assert forall|k: int| 0 <= k < b implies outside::alphanumeric(#[trigger] s[k]) by {
                assert(!q(s[k]));
            }
        }
        assert(s.subrange(0, b) =~= s.take(b));
        if all.contains(piece) {
            let k = choose|k: int| 0 <= k < all.len() && all[k] == piece;
            if k == 0 {
                assert(is_run(s, 0, b) && s.subrange(0, b) == piece);
            } else {
                assert(more[k - 1] == piece);
                assert(more.contains(piece));
                let (i, j) = choose|i: int, j: int| #[trigger]
                    is_run(rest, i, j) && rest.subrange(i, j) == piece;
                assert(is_run(s, b + 1 + i, b + 1 + j)) by {
                    assert forall|k: int| b + 1 + i <= k < b + 1 + j implies outside::alphanumeric(
                        #[trigger] s[k],
                    ) by {
                        assert(outside::alphanumeric(rest[k - b - 1]));
                    }
                    if i > 0 {
                        assert(rest[i - 1] == s[b + i]);
                    }
                    if j < rest.len() {
                        assert(rest[j] == s[b + 1 + j]);
                    }
                }
                assert(s.subrange(b + 1 + i, b + 1 + j) =~= rest.subrange(i, j));
            }
        }
        if has_run(s, piece) {
            let (i, j) = choose|i: int, j: int| #[trigger]
                is_run(s, i, j) && s.subrange(i, j) == piece;
            if i <= b {
                if i > 0 {
                    assert(!q(s[i - 1]));
                }
                assert(i == 0);
                if j < b {
                    assert(!q(s[j]));
                }
                if j > b {
                    assert(outside::alphanumeric(s[b]));
                }
                assert(j == b);
                assert(all[0] == piece);
            } else {
                let x = i - b - 1;
                let y = j - b - 1;
                assert(is_run(rest, x, y)) by {
                    assert forall|k: int| x <= k < y implies outside::alphanumeric(
                        #[trigger] rest[k],
                    ) by {
                        assert(outside::alphanumeric(s[k + b + 1]));
                    }
                    if x > 0 {
                        assert(rest[x - 1] == s[i - 1]);
                    }
                    if y < rest.len() {
                        assert(rest[y] == s[j]);
                    }
                }
                assert(rest.subrange(x, y) =~= s.subrange(i, j));
                assert(more.contains(piece));
                let k = choose|k: int| 0 <= k < more.len() && more[k] == piece;
                assert(all[k + 1] == piece);
            }
        }
    } else {
        assert(all[0] == s);
        assert forall|k: int| 0 <= k < s.len() implies outside::alphanumeric(#[trigger] s[k]) by {
            assert(!q(s[k]));
        }
        assert(is_run(s, 0, s.len() as int));
        assert(s.subrange(0, s.len() as int) =~= s);
        if has_run(s, piece) {
            let (i, j) = choose|i: int, j: int| #[trigger]
                is_run(s, i, j) && s.subrange(i, j) == piece;
            if i > 0 {
                assert(outside::alphanumeric(s[i - 1]));
            }
            if j < s.len() {
                assert(outside::alphanumeric(s[j]));
            }
            assert(all[0] == piece);
        }
    }
}

/// The word is a run of letters and digits of the text, in small letters.
pub open spec fn is_word_of(s: Seq<char>, word: Seq<char>) -> bool {
    exists|piece: Seq<char>| #[trigger] has_run(s, piece) && outside::lowercase(piece) == word
}

/// The words of a text are its runs of letters and digits, in small letters, of more than one
/// byte.
pub proof fn law_words_are_runs(s: Seq<char>, word: Seq<char>)
    ensures
        search_text::words_of(s).contains(word) <==> is_word_of(s, word)
            && vstd::utf8::encode_utf8(word).len() > 1,
{
    let parts = search_text::pieces(s);
    let low = search_text::lowered(parts);
    let p = search_text::is_word();
    listing::lemma_kept_contains(low, p, word);
    if low.contains(word) {
        let k = choose|k: int| 0 <= k < low.len() && low[k] == word;
        assert(parts.contains(parts[k]));
        lemma_pieces(s, parts[k]);
        assert(has_run(s, parts[k]) && outside::lowercase(parts[k]) == word);
    }
    if is_word_of(s, word) {
        let piece = choose|piece: Seq<char>| #[trigger]
            has_run(s, piece) && outside::lowercase(piece) == word;
        lemma_pieces(s, piece);
        let k = choose|k: int| 0 <= k < parts.len() && parts[k] == piece;
        assert(low[k] == word);
    }
}

/// The terms of a query are its first words, each once, and no more than twelve.
pub proof fn law_terms_are_distinct_words(query: Seq<char>)
    ensures
        ({
            let terms = search_text::query_terms(query);
            let words = search_text::words_of(query);
            &&& terms.len() <= 12
            &&& terms.no_duplicates()
            &&& forall|i: int| 0 <= i < terms.len() ==> words.contains(#[trigger] terms[i])
            &&& terms.len() < 12 ==> forall|k: int|
                0 <= k < words.len() ==> terms.contains(#[trigger] words[k])
            &&& words.len() > 0 ==> terms.len() > 0 && terms[0] == words[0]
        }),
{
    let words = search_text::words_of(query);
    let distinct = tables::deduplicated(words);
    let terms = search_text::query_terms(query);
    lemma_distinct(words);
    assert forall|i: int| 0 <= i < terms.len() implies words.contains(#[trigger] terms[i]) by {
        assert(terms[i] == distinct[i]);
        assert(distinct.contains(distinct[i]));
        principal_laws::lemma_deduplicated(words, distinct[i]);
    }
    if terms.len() < 12 {
        assert(terms == distinct);
        assert forall|k: int| 0 <= k < words.len() implies terms.contains(#[trigger] words[k]) by {
            assert(words.contains(words[k]));
            principal_laws::lemma_deduplicated(words, words[k]);
        }
    }
}

proof fn lemma_distinct(s: Seq<Seq<char>>)
    ensures
        tables::deduplicated(s).no_duplicates(),
        s.len() > 0 ==> tables::deduplicated(s).len() > 0 && tables::deduplicated(s)[0] == s[0],
    decreases s.len(),
{
    if s.len() > 0 {
        let rest = s.drop_last();
        lemma_distinct(rest);
        let d = tables::deduplicated(rest);
        let all = tables::deduplicated(s);
        if !d.contains(s.last()) {
            assert forall|i: int, j: int|
                0 <= i < all.len() && 0 <= j < all.len() && i != j implies all[i] != all[j] by {
                if i == d.len() {
                    assert(d.contains(d[j]));
                } else if j == d.len() {
                    assert(d.contains(d[i]));
                }
            }
        }
        if rest.len() > 0 {
            assert(rest[0] == s[0]);
        }
    }
}

/// The ending may be left out: what remains is more than three bytes.
pub open spec fn may_go(word: Seq<char>, ending: Seq<char>) -> bool {
    &&& ending.len() <= word.len()
    &&& word.skip(word.len() - ending.len()) == ending
    &&& vstd::utf8::encode_utf8(word).len() > vstd::utf8::encode_utf8(ending).len() + 3
}

/// The endings, the longer of two that fit first.
pub open spec fn endings() -> Seq<Seq<char>> {
    seq![
        "ments"@,
        "ment"@,
        "ingly"@,
        "ing"@,
        "ation"@,
        "ions"@,
        "ion"@,
        "ers"@,
        "ed"@,
        "es"@,
        "s"@,
    ]
}

/// The stem of a word is the word without the first ending that may be left out, and the
/// whole word where none may.
pub proof fn law_stem_leaves_one_ending_out(word: Seq<char>)
    ensures
        (forall|i: int| 0 <= i < endings().len() ==> !may_go(word, #[trigger] endings()[i]))
            ==> search_text::stem_of(word) == word,
        forall|i: int|
            0 <= i < endings().len() && may_go(word, #[trigger] endings()[i]) && (forall|k: int|
                0 <= k < i ==> !may_go(word, #[trigger] endings()[k])) ==> search_text::stem_of(
                word,
            ) == word.take(word.len() - endings()[i].len()),
{
    let all = tokens::words_of(search_text::ENDINGS@);
    assert(all =~= endings());
    let p = search_text::is_left_out(word);
    tables::lemma_first_index(all, p);
    let n = tables::first_index(all, p);
    assert forall|i: int| 0 <= i < all.len() implies (p(#[trigger] all[i]) <==> may_go(
        word,
        endings()[i],
    )) by {}
    if n < all.len() {
        assert(p(all[n]));
        assert(may_go(word, endings()[n]));
    }
    assert forall|i: int|
        0 <= i < endings().len() && may_go(word, #[trigger] endings()[i]) && (forall|k: int|
            0 <= k < i ==> !may_go(word, #[trigger] endings()[k])) implies search_text::stem_of(
        word,
    ) == word.take(word.len() - endings()[i].len()) by {
        assert(p(all[i]));
        assert(n <= i);
        if n < i {
            assert(!may_go(word, endings()[n]));
        }
    }
}

// ---------------------------------------------------------------------------- queries

/// A query is a generated id if and only if it is one of ten short prefixes, a hyphen and
/// eight hexadecimal digits, with white space around it at most.
pub proof fn law_generated_ids_have_one_shape(query: Seq<char>)
    ensures
        search_text::is_generated_id(query) ==> {
            let s = text::trimmed(query);
            exists|n: int|
                {
                    &&& 0 < n && s.len() == n + 9
                    &&& #[trigger] s[n] == '-'
                    &&& is_prefix(s.take(n))
                    &&& forall|k: int| n < k < s.len() ==> text::is_lower_hex(#[trigger] s[k])
                }
        },
        forall|prefix: Seq<char>, digits: Seq<char>|
            text::trimmed(query) == #[trigger] (prefix + seq!['-'] + digits) && is_prefix(prefix)
                && tokens::is_hex(digits, 8) ==> search_text::is_generated_id(query),
{
    let all = tokens::words_of(search_text::ID_PREFIXES@);
    lemma_prefixes();
    let s = text::trimmed(query);
    text::lemma_find_char(s, '-');
    if search_text::is_generated_id(query) {
        let n = text::find_char(s, '-');
        assert(is_prefix(s.take(n)));
        if n == 0 {
            assert(s.take(n) =~= Seq::<char>::empty());
        }
        let tail = s.skip(n + 1);
        assert(s[n] == '-');
        assert forall|k: int| n < k < s.len() implies text::is_lower_hex(#[trigger] s[k]) by {
            assert(text::is_lower_hex(tail[k - n - 1]));
        }
    }
    assert forall|prefix: Seq<char>, digits: Seq<char>|
        s == #[trigger] (prefix + seq!['-'] + digits) && is_prefix(prefix) && tokens::is_hex(
            digits,
            8,
        ) implies search_text::is_generated_id(query) by {
        lemma_no_hyphen(prefix);
        let n = text::find_char(s, '-');
        assert(s[prefix.len() as int] == '-');
        assert(n <= prefix.len());
        if n < prefix.len() {
            assert(s[n] == prefix[n]);
        }
        assert(s.take(n) =~= prefix);
        assert(s.skip(n + 1) =~= digits);
    }
}

/// The prefixes of generated ids.
pub open spec fn is_prefix(s: Seq<char>) -> bool {
    ||| s == "t"@
    ||| s == "e"@
    ||| s == "s"@
    ||| s == "sp"@
    ||| s == "d"@
    ||| s == "sr"@
    ||| s == "a"@
    ||| s == "h"@
    ||| s == "sub"@
    ||| s == "r"@
}

proof fn lemma_prefixes()
    ensures
        forall|s: Seq<char>| #[trigger]
            tokens::words_of(search_text::ID_PREFIXES@).contains(s) <==> is_prefix(s),
        !is_prefix(Seq::<char>::empty()),
{
    let all = tokens::words_of(search_text::ID_PREFIXES@);
    assert(all =~= seq![
        "t"@,
        "e"@,
        "s"@,
        "sp"@,
        "d"@,
        "sr"@,
        "a"@,
        "h"@,
        "sub"@,
        "r"@,
    ]);
    assert forall|s: Seq<char>| #[trigger] all.contains(s) <==> is_prefix(s) by {
        if all.contains(s) {
            let i = choose|i: int| 0 <= i < all.len() && all[i] == s;
            assert(i == 0 || i == 1 || i == 2 || i == 3 || i == 4 || i == 5 || i == 6 || i == 7
                || i == 8 || i == 9);
        }
        assert(all[0] == "t"@ && all[1] == "e"@ && all[2] == "s"@ && all[3] == "sp"@ && all[4]
            == "d"@ && all[5] == "sr"@ && all[6] == "a"@ && all[7] == "h"@ && all[8] == "sub"@
            && all[9] == "r"@);
    }
    reveal_strlit("t");
    reveal_strlit("e");
    reveal_strlit("s");
    reveal_strlit("sp");
    reveal_strlit("d");
    reveal_strlit("sr");
    reveal_strlit("a");
    reveal_strlit("h");
    reveal_strlit("sub");
    reveal_strlit("r");
    let none = Seq::<char>::empty();
    assert(none.len() == 0);
    assert("t"@.len() == 1 && "e"@.len() == 1 && "s"@.len() == 1 && "sp"@.len() == 2 && "d"@.len()
        == 1 && "sr"@.len() == 2 && "a"@.len() == 1 && "h"@.len() == 1 && "sub"@.len() == 3
        && "r"@.len() == 1);
}

proof fn lemma_no_hyphen(s: Seq<char>)
    requires
        is_prefix(s),
    ensures
        forall|i: int| 0 <= i < s.len() ==> #[trigger] s[i] != '-',
{
    reveal_strlit("t");
    reveal_strlit("e");
    reveal_strlit("s");
    reveal_strlit("sp");
    reveal_strlit("d");
    reveal_strlit("sr");
    reveal_strlit("a");
    reveal_strlit("h");
    reveal_strlit("sub");
    reveal_strlit("r");
}

/// The full-text query of a text asks for its terms, each quoted and as the beginning of a
/// word, any of which is enough; there is none where the text has no word.
pub proof fn law_full_text_query_asks_for_the_terms(query: Seq<char>)
    ensures
        search_text::full_text_query(query) is None <==> search_text::words_of(query).len() == 0,
        (forall|i: int|
            0 <= i < search_text::query_terms(query).len() ==> !(
            #[trigger] search_text::query_terms(query)[i]).contains('\"')) ==> (
        search_text::full_text_query(query) matches Some(asked) ==> asked == text::joined(
            search_text::query_terms(query).map_values(
                |term: Seq<char>| seq!['\"'] + term + seq!['\"', '*'],
            ),
            seq![' ', 'O', 'R', ' '],
        )),
{
    let terms = search_text::query_terms(query);
    law_terms_are_distinct_words(query);
    reveal_strlit("\"");
    reveal_strlit("\"*");
    reveal_strlit(" OR ");
    assert(" OR "@ =~= seq![' ', 'O', 'R', ' ']);
    if forall|i: int| 0 <= i < terms.len() ==> !(#[trigger] terms[i]).contains('\"') {
        let a = terms.map_values(|term: Seq<char>| search_text::quoted_prefix(term));
        let b = terms.map_values(|term: Seq<char>| seq!['\"'] + term + seq!['\"', '*']);
        assert forall|i: int| 0 <= i < terms.len() implies a[i] == b[i] by {
            assert(!terms[i].contains('\"'));
            lemma_doubled(terms[i]);
            assert(a[i] =~= b[i]);
        }
        assert(a =~= b);
    }
}

proof fn lemma_doubled(s: Seq<char>)
    requires
        !s.contains('\"'),
    ensures
        search_text::doubled(s) == s,
    decreases s.len(),
{
    if s.len() > 0 {
        let rest = s.drop_last();
        if rest.contains('\"') {
            let i = choose|i: int| 0 <= i < rest.len() && rest[i] == '\"';
            assert(s[i] == '\"');
        }
        assert(s[s.len() - 1] == s.last());
        lemma_doubled(rest);
        assert(s =~= rest.push(s.last()));
    }
}

// ---------------------------------------------------------------------------- counts

/// A word begins with the term, once its ending is left out.
pub open spec fn begins_with(term: Seq<char>) -> spec_fn(Seq<char>) -> bool {
    |word: Seq<char>|
        term.len() <= search_text::stem_of(word).len() && search_text::stem_of(word).take(
            term.len() as int,
        ) == term
}

/// So many words of the text begin with the term.
pub open spec fn count_term(s: Seq<char>, term: Seq<char>) -> nat {
    search_text::words_of(s).filter(begins_with(term)).len()
}

proof fn lemma_count_term(s: Seq<char>, term: Seq<char>)
    ensures
        search_match::hits_in(s, term) == count_term(s, term),
{
    let p = search_match::is_term_hit(term);
    let q = begins_with(term);
    assert forall|word: Seq<char>| p(word) == #[trigger] q(word) by {
        let stem = search_text::stem_of(word);
        if term.is_prefix_of(stem) {
            assert(stem.take(term.len() as int) =~= term);
        }
        if term.len() <= stem.len() && stem.take(term.len() as int) == term {
            assert(stem.take(term.len() as int) =~= stem.subrange(0, term.len() as int));
        }
    }
    assert(p =~= q);
    listing::lemma_kept_is_filter(search_text::words_of(s), p);
}

/// A term stands somewhere in the document.
pub open spec fn is_in(d: Document, term: Seq<char>) -> bool {
    count_term(d.title@, term) > 0 || count_term(d.body@, term) > 0 || count_term(d.tags@, term)
        > 0
}

/// The counts of a corpus say, of each document in order, how long it is and how often each
/// term of the query stands in its title, its body and its tags; and of each term in how many
/// documents it stands.
pub proof fn law_counts_say_where_terms_stand(
    c: CorpusCounts,
    documents: Seq<Document>,
    query: Seq<char>,
)
    requires
        search_match::are_permitted_counts(Some(c), documents, query),
    ensures
        ({
            let terms = search_text::query_terms(query);
            &&& c.documents@.len() == documents.len()
            &&& c.frequency@.len() == terms.len()
            &&& forall|i: int|
                0 <= i < documents.len() ==> {
                    &&& (#[trigger] c.documents@[i]).seq == documents[i].seq
                    &&& c.documents@[i].length == search_text::words_of(documents[i].title@).len()
                        + search_text::words_of(documents[i].body@).len() + search_text::words_of(
                        documents[i].tags@,
                    ).len()
                    &&& c.documents@[i].hits@.len() == terms.len()
                }
            &&& forall|i: int, j: int|
                #![trigger c.documents@[i].hits@[j]]
                0 <= i < documents.len() && 0 <= j < terms.len() ==> {
                    let term = search_text::stem_of(terms[j]);
                    &&& c.documents@[i].hits@[j].title == count_term(documents[i].title@, term)
                    &&& c.documents@[i].hits@[j].body == count_term(documents[i].body@, term)
                    &&& c.documents@[i].hits@[j].tags == count_term(documents[i].tags@, term)
                }
            &&& forall|j: int|
                0 <= j < terms.len() ==> #[trigger] c.frequency@[j] == documents.filter(
                    |d: Document| is_in(d, search_text::stem_of(terms[j])),
                ).len()
        }),
{
    let terms = search_text::query_terms(query);
    let stems = search_match::stemmed_terms(query);
    assert forall|i: int, j: int|
        #![trigger c.documents@[i].hits@[j]]
        0 <= i < documents.len() && 0 <= j < terms.len() implies {
        let term = search_text::stem_of(terms[j]);
        &&& c.documents@[i].hits@[j].title == count_term(documents[i].title@, term)
        &&& c.documents@[i].hits@[j].body == count_term(documents[i].body@, term)
        &&& c.documents@[i].hits@[j].tags == count_term(documents[i].tags@, term)
    } by {
        assert(search_match::are_counts(c.documents@[i], documents[i], stems));
        assert(stems[j] == search_text::stem_of(terms[j]));
        lemma_count_term(documents[i].title@, stems[j]);
        lemma_count_term(documents[i].body@, stems[j]);
        lemma_count_term(documents[i].tags@, stems[j]);
    }
    assert forall|j: int| 0 <= j < terms.len() implies #[trigger] c.frequency@[j]
        == documents.filter(|d: Document| is_in(d, search_text::stem_of(terms[j]))).len() by {
        assert(stems[j] == search_text::stem_of(terms[j]));
        let p = search_match::has_term(stems[j]);
        let q = |d: Document| is_in(d, search_text::stem_of(terms[j]));
        assert forall|d: Document| p(d) == #[trigger] q(d) by {
            lemma_count_term(d.title@, stems[j]);
            lemma_count_term(d.body@, stems[j]);
            lemma_count_term(d.tags@, stems[j]);
        }
        assert(p =~= q);
        listing::lemma_kept_is_filter(documents, p);
    }
}

/// What is read of guarded documents are just those that are permitted, in order, where
/// permissions are enforced; and all of them where they are not.
pub proof fn law_readable_documents_are_the_permitted(guarded: Seq<Guarded>, enforcing: bool)
    ensures
        enforcing ==> search::readable(guarded, enforcing) == guarded.filter(
            |g: Guarded| g.permitted,
        ).map_values(|g: Guarded| g.document),
        !enforcing ==> search::readable(guarded, enforcing) == guarded.map_values(
            |g: Guarded| g.document,
        ),
{
    let p = search::may_be_read(enforcing);
    listing::lemma_kept_is_filter(guarded, p);
    if enforcing {
        let q = |g: Guarded| g.permitted;
        assert(p =~= q);
    } else {
        lemma_all_kept(guarded, p);
    }
}

proof fn lemma_all_kept<T>(s: Seq<T>, p: spec_fn(T) -> bool)
    requires
        forall|x: T| #[trigger] p(x),
    ensures
        tables::kept(s, p) == s,
    decreases s.len(),
{
    if s.len() > 0 {
        lemma_all_kept(s.drop_last(), p);
        assert(s =~= s.drop_last().push(s.last()));
    }
}

/// An embedding counts for a document only where it is of the model and of the size in use,
/// and was made of just what the document says now.
pub proof fn law_embedding_is_current_where_nothing_changed(d: Document)
    ensures
        search_index::is_current(d) <==> {
            &&& d.embedding matches Some(bytes) && bytes@.len() == search_index::EMBEDDING_BYTES
            &&& d.embedding_model matches Some(model) && model@ == search_index::EMBEDDING_MODEL@
            &&& d.source_hash matches Some(hash) && hash@ == search_index::hash_of(d)
        },
{
}

// ---------------------------------------------------------------------------- secrets

/// The text holds a word that secrets go by.
pub open spec fn looks_secret(s: Seq<char>) -> bool {
    ||| result_laws::holds(s, "password"@)
    ||| result_laws::holds(s, "secret"@)
    ||| result_laws::holds(s, "token"@)
    ||| result_laws::holds(s, "credential"@)
    ||| result_laws::holds(s, "begin private key"@)
    ||| result_laws::holds(s, "begin openssh private key"@)
    ||| result_laws::holds(s, "begin rsa private key"@)
    ||| result_laws::holds(s, "private key-----"@)
}

proof fn lemma_longer(s: Seq<char>, longer: Seq<char>, n: int)
    requires
        0 <= n <= longer.len(),
        result_laws::holds(s, longer),
    ensures
        result_laws::holds(s, longer.take(n)),
{
    let i = choose|i: int|
        0 <= i && i + longer.len() <= s.len() && #[trigger] s.subrange(i, i + longer.len())
            == longer;
    let short = longer.take(n);
    let part = s.subrange(i, i + longer.len());
    assert(s.subrange(i, i + short.len()) =~= short) by {
        assert forall|k: int| 0 <= k < n implies s[i + k] == longer[k] by {
            assert(part[k] == longer[k]);
        }
    }
}

proof fn lemma_later(s: Seq<char>, longer: Seq<char>, n: int)
    requires
        0 <= n <= longer.len(),
        result_laws::holds(s, longer),
    ensures
        result_laws::holds(s, longer.skip(n)),
{
    let i = choose|i: int|
        0 <= i && i + longer.len() <= s.len() && #[trigger] s.subrange(i, i + longer.len())
            == longer;
    let short = longer.skip(n);
    let part = s.subrange(i, i + longer.len());
    assert(s.subrange(i + n, i + n + short.len()) =~= short) by {
        assert forall|k: int| 0 <= k < short.len() implies s[i + n + k] == #[trigger] short[k] by {
            assert(part[n + k] == longer[n + k]);
        }
    }
}

/// A text is taken for a secret if and only if it holds a word that secrets go by.
pub proof fn law_secrets_are_recognised(s: Seq<char>)
    ensures
        rules::carries_secret(s) <==> looks_secret(s),
{
    let all = rules::secret_markers();
    assert(all.len() == 10);
    assert forall|i: int| 0 <= i < all.len() implies (text::contains_text(s, #[trigger] all[i])
        <==> result_laws::holds(s, all[i])) by {
        result_laws::lemma_holds(s, all[i]);
    }
    if result_laws::holds(s, "credentials"@) {
        reveal_strlit("credentials");
        reveal_strlit("credential");
        lemma_longer(s, "credentials"@, 10);
        assert("credentials"@.take(10) =~= "credential"@);
    }
    if result_laws::holds(s, "client_secret"@) {
        reveal_strlit("client_secret");
        reveal_strlit("secret");
        lemma_later(s, "client_secret"@, 7);
        assert("client_secret"@.skip(7) =~= "secret"@);
    }
    assert(all[0] == "begin private key"@ && all[1] == "begin openssh private key"@ && all[2]
        == "begin rsa private key"@ && all[3] == "private key-----"@ && all[4]
        == "client_secret"@ && all[5] == "credential"@ && all[6] == "credentials"@ && all[7]
        == "password"@ && all[8] == "secret"@ && all[9] == "token"@);
    if rules::carries_secret(s) {
        let i = choose|i: int|
            0 <= i < all.len() && text::contains_text(s, #[trigger] all[i]);
        assert(result_laws::holds(s, all[i]));
        assert(i == 0 || i == 1 || i == 2 || i == 3 || i == 4 || i == 5 || i == 6 || i == 7 || i
            == 8 || i == 9);
    }
}

// ---------------------------------------------------------------------------- fingerprints

/// What stands between the same two parts is the same, where the whole is.
proof fn lemma_between(a: Seq<u8>, x: Seq<u8>, y: Seq<u8>, b: Seq<u8>)
    requires
        a + x + b == a + y + b,
    ensures
        x == y,
{
    let s = a + x + b;
    let t = a + y + b;
    assert(s.len() == t.len());
    assert(x.len() == y.len());
    assert forall|k: int| 0 <= k < x.len() implies x[k] == y[k] by {
        assert(s[a.len() + k] == x[k]);
        assert(t[a.len() + k] == y[k]);
    }
    assert(x =~= y);
}

proof fn lemma_same_bytes(a: Seq<char>, b: Seq<char>)
    requires
        vstd::utf8::encode_utf8(a) == vstd::utf8::encode_utf8(b),
    ensures
        a == b,
{
    vstd::utf8::encode_utf8_decode_utf8(a);
    vstd::utf8::encode_utf8_decode_utf8(b);
}

proof fn lemma_same_time(a: i64, b: i64)
    requires
        vstd::bytes::spec_u64_to_le_bytes(a as u64) == vstd::bytes::spec_u64_to_le_bytes(b as u64),
    ensures
        a == b,
{
    vstd::bytes::lemma_auto_spec_u64_to_from_le_bytes();
    assert(a as u64 == b as u64);
    assert(a as u64 == b as u64 ==> a == b) by (bit_vector);
}

/// The parts of a rule that its fingerprint is taken over.
pub struct RuleParts {
    pub uuid: Seq<char>,
    pub id: Seq<char>,
    pub body: Seq<char>,
    pub author: Seq<char>,
    pub archived: bool,
    pub created: i64,
    pub updated: i64,
    pub tags: Seq<Seq<char>>,
}

pub open spec fn covered(p: RuleParts) -> Seq<u8> {
    rules::fingerprint_input(
        p.uuid,
        p.id,
        p.body,
        p.author,
        p.archived,
        p.created,
        p.updated,
        p.tags,
    )
}

proof fn lemma_covers_uuid(p: RuleParts, other: Seq<char>)
    requires
        covered(p) == covered(RuleParts { uuid: other, ..p }),
    ensures
        p.uuid == other,
{
    let z = seq![0u8];
    let u = vstd::utf8::encode_utf8(p.uuid);
    let i = vstd::utf8::encode_utf8(p.id);
    let b = vstd::utf8::encode_utf8(p.body);
    let w = vstd::utf8::encode_utf8(p.author);
    let x = seq![if p.archived { 1u8 } else { 0u8 }];
    let c = vstd::bytes::spec_u64_to_le_bytes(p.created as u64);
    let d = vstd::bytes::spec_u64_to_le_bytes(p.updated as u64);
    let t = vstd::utf8::encode_utf8(text::joined(p.tags, "\u{1f}"@));
    let y = vstd::utf8::encode_utf8(other);
    let front = Seq::<u8>::empty();
    let back = z + i + z + b + z + w + z + x + z + c + z + d + z + t;
    assert(covered(p) =~= front + u + back);
    assert(covered(RuleParts { uuid: other, ..p }) =~= front + y + back);
    lemma_between(front, u, y, back);
    lemma_same_bytes(p.uuid, other);
}

proof fn lemma_covers_id(p: RuleParts, other: Seq<char>)
    requires
        covered(p) == covered(RuleParts { id: other, ..p }),
    ensures
        p.id == other,
{
    let z = seq![0u8];
    let u = vstd::utf8::encode_utf8(p.uuid);
    let i = vstd::utf8::encode_utf8(p.id);
    let b = vstd::utf8::encode_utf8(p.body);
    let w = vstd::utf8::encode_utf8(p.author);
    let x = seq![if p.archived { 1u8 } else { 0u8 }];
    let c = vstd::bytes::spec_u64_to_le_bytes(p.created as u64);
    let d = vstd::bytes::spec_u64_to_le_bytes(p.updated as u64);
    let t = vstd::utf8::encode_utf8(text::joined(p.tags, "\u{1f}"@));
    let y = vstd::utf8::encode_utf8(other);
    let front = u + z;
    let back = z + b + z + w + z + x + z + c + z + d + z + t;
    assert(covered(p) =~= front + i + back);
    assert(covered(RuleParts { id: other, ..p }) =~= front + y + back);
    lemma_between(front, i, y, back);
    lemma_same_bytes(p.id, other);
}

proof fn lemma_covers_body(p: RuleParts, other: Seq<char>)
    requires
        covered(p) == covered(RuleParts { body: other, ..p }),
    ensures
        p.body == other,
{
    let z = seq![0u8];
    let u = vstd::utf8::encode_utf8(p.uuid);
    let i = vstd::utf8::encode_utf8(p.id);
    let b = vstd::utf8::encode_utf8(p.body);
    let w = vstd::utf8::encode_utf8(p.author);
    let x = seq![if p.archived { 1u8 } else { 0u8 }];
    let c = vstd::bytes::spec_u64_to_le_bytes(p.created as u64);
    let d = vstd::bytes::spec_u64_to_le_bytes(p.updated as u64);
    let t = vstd::utf8::encode_utf8(text::joined(p.tags, "\u{1f}"@));
    let y = vstd::utf8::encode_utf8(other);
    let front = u + z + i + z;
    let back = z + w + z + x + z + c + z + d + z + t;
    assert(covered(p) =~= front + b + back);
    assert(covered(RuleParts { body: other, ..p }) =~= front + y + back);
    lemma_between(front, b, y, back);
    lemma_same_bytes(p.body, other);
}

proof fn lemma_covers_author(p: RuleParts, other: Seq<char>)
    requires
        covered(p) == covered(RuleParts { author: other, ..p }),
    ensures
        p.author == other,
{
    let z = seq![0u8];
    let u = vstd::utf8::encode_utf8(p.uuid);
    let i = vstd::utf8::encode_utf8(p.id);
    let b = vstd::utf8::encode_utf8(p.body);
    let w = vstd::utf8::encode_utf8(p.author);
    let x = seq![if p.archived { 1u8 } else { 0u8 }];
    let c = vstd::bytes::spec_u64_to_le_bytes(p.created as u64);
    let d = vstd::bytes::spec_u64_to_le_bytes(p.updated as u64);
    let t = vstd::utf8::encode_utf8(text::joined(p.tags, "\u{1f}"@));
    let y = vstd::utf8::encode_utf8(other);
    let front = u + z + i + z + b + z;
    let back = z + x + z + c + z + d + z + t;
    assert(covered(p) =~= front + w + back);
    assert(covered(RuleParts { author: other, ..p }) =~= front + y + back);
    lemma_between(front, w, y, back);
    lemma_same_bytes(p.author, other);
}

proof fn lemma_covers_archived(p: RuleParts, other: bool)
    requires
        covered(p) == covered(RuleParts { archived: other, ..p }),
    ensures
        p.archived == other,
{
    let z = seq![0u8];
    let u = vstd::utf8::encode_utf8(p.uuid);
    let i = vstd::utf8::encode_utf8(p.id);
    let b = vstd::utf8::encode_utf8(p.body);
    let w = vstd::utf8::encode_utf8(p.author);
    let x = seq![if p.archived { 1u8 } else { 0u8 }];
    let c = vstd::bytes::spec_u64_to_le_bytes(p.created as u64);
    let d = vstd::bytes::spec_u64_to_le_bytes(p.updated as u64);
    let t = vstd::utf8::encode_utf8(text::joined(p.tags, "\u{1f}"@));
    let y = seq![if other { 1u8 } else { 0u8 }];
    let front = u + z + i + z + b + z + w + z;
    let back = z + c + z + d + z + t;
    assert(covered(p) =~= front + x + back);
    assert(covered(RuleParts { archived: other, ..p }) =~= front + y + back);
    lemma_between(front, x, y, back);
    assert(x[0] == y[0]);
}

proof fn lemma_covers_created(p: RuleParts, other: i64)
    requires
        covered(p) == covered(RuleParts { created: other, ..p }),
    ensures
        p.created == other,
{
    let z = seq![0u8];
    let u = vstd::utf8::encode_utf8(p.uuid);
    let i = vstd::utf8::encode_utf8(p.id);
    let b = vstd::utf8::encode_utf8(p.body);
    let w = vstd::utf8::encode_utf8(p.author);
    let x = seq![if p.archived { 1u8 } else { 0u8 }];
    let c = vstd::bytes::spec_u64_to_le_bytes(p.created as u64);
    let d = vstd::bytes::spec_u64_to_le_bytes(p.updated as u64);
    let t = vstd::utf8::encode_utf8(text::joined(p.tags, "\u{1f}"@));
    let y = vstd::bytes::spec_u64_to_le_bytes(other as u64);
    let front = u + z + i + z + b + z + w + z + x + z;
    let back = z + d + z + t;
    assert(covered(p) =~= front + c + back);
    assert(covered(RuleParts { created: other, ..p }) =~= front + y + back);
    lemma_between(front, c, y, back);
    lemma_same_time(p.created, other);
}

proof fn lemma_covers_updated(p: RuleParts, other: i64)
    requires
        covered(p) == covered(RuleParts { updated: other, ..p }),
    ensures
        p.updated == other,
{
    let z = seq![0u8];
    let u = vstd::utf8::encode_utf8(p.uuid);
    let i = vstd::utf8::encode_utf8(p.id);
    let b = vstd::utf8::encode_utf8(p.body);
    let w = vstd::utf8::encode_utf8(p.author);
    let x = seq![if p.archived { 1u8 } else { 0u8 }];
    let c = vstd::bytes::spec_u64_to_le_bytes(p.created as u64);
    let d = vstd::bytes::spec_u64_to_le_bytes(p.updated as u64);
    let t = vstd::utf8::encode_utf8(text::joined(p.tags, "\u{1f}"@));
    let y = vstd::bytes::spec_u64_to_le_bytes(other as u64);
    let front = u + z + i + z + b + z + w + z + x + z + c + z;
    let back = z + t;
    assert(covered(p) =~= front + d + back);
    assert(covered(RuleParts { updated: other, ..p }) =~= front + y + back);
    lemma_between(front, d, y, back);
    lemma_same_time(p.updated, other);
}

proof fn lemma_covers_tags(p: RuleParts, other: Seq<Seq<char>>)
    requires
        covered(p) == covered(RuleParts { tags: other, ..p }),
    ensures
        text::joined(p.tags, "\u{1f}"@) == text::joined(other, "\u{1f}"@),
{
    let z = seq![0u8];
    let u = vstd::utf8::encode_utf8(p.uuid);
    let i = vstd::utf8::encode_utf8(p.id);
    let b = vstd::utf8::encode_utf8(p.body);
    let w = vstd::utf8::encode_utf8(p.author);
    let x = seq![if p.archived { 1u8 } else { 0u8 }];
    let c = vstd::bytes::spec_u64_to_le_bytes(p.created as u64);
    let d = vstd::bytes::spec_u64_to_le_bytes(p.updated as u64);
    let t = vstd::utf8::encode_utf8(text::joined(p.tags, "\u{1f}"@));
    let y = vstd::utf8::encode_utf8(text::joined(other, "\u{1f}"@));
    let front = u + z + i + z + b + z + w + z + x + z + c + z + d + z;
    let back = Seq::<u8>::empty();
    assert(covered(p) =~= front + t + back);
    assert(covered(RuleParts { tags: other, ..p }) =~= front + y + back);
    lemma_between(front, t, y, back);
    lemma_same_bytes(text::joined(p.tags, "\u{1f}"@), text::joined(other, "\u{1f}"@));
}

/// The fingerprint of a rule covers every part of it: a rule that differs from another in one
/// part alone is fingerprinted over other bytes.
pub proof fn law_fingerprint_covers_each_part(p: RuleParts, q: RuleParts)
    ensures
        covered(p) == covered(RuleParts { uuid: q.uuid, ..p }) ==> p.uuid == q.uuid,
        covered(p) == covered(RuleParts { id: q.id, ..p }) ==> p.id == q.id,
        covered(p) == covered(RuleParts { body: q.body, ..p }) ==> p.body == q.body,
        covered(p) == covered(RuleParts { author: q.author, ..p }) ==> p.author == q.author,
        covered(p) == covered(RuleParts { archived: q.archived, ..p }) ==> p.archived == q.archived,
        covered(p) == covered(RuleParts { created: q.created, ..p }) ==> p.created == q.created,
        covered(p) == covered(RuleParts { updated: q.updated, ..p }) ==> p.updated == q.updated,
        covered(p) == covered(RuleParts { tags: q.tags, ..p }) ==> text::joined(p.tags, "\u{1f}"@) == text::joined(q.tags, "\u{1f}"@),
{
    if covered(p) == covered(RuleParts { uuid: q.uuid, ..p }) {
        lemma_covers_uuid(p, q.uuid);
    }
    if covered(p) == covered(RuleParts { id: q.id, ..p }) {
        lemma_covers_id(p, q.id);
    }
    if covered(p) == covered(RuleParts { body: q.body, ..p }) {
        lemma_covers_body(p, q.body);
    }
    if covered(p) == covered(RuleParts { author: q.author, ..p }) {
        lemma_covers_author(p, q.author);
    }
    if covered(p) == covered(RuleParts { archived: q.archived, ..p }) {
        lemma_covers_archived(p, q.archived);
    }
    if covered(p) == covered(RuleParts { created: q.created, ..p }) {
        lemma_covers_created(p, q.created);
    }
    if covered(p) == covered(RuleParts { updated: q.updated, ..p }) {
        lemma_covers_updated(p, q.updated);
    }
    if covered(p) == covered(RuleParts { tags: q.tags, ..p }) {
        lemma_covers_tags(p, q.tags);
    }
}

// ---------------------------------------------------------------------------- features

/// What a word and its neighbour are known by: the word itself, its stem, its concept where
/// it has one, each three letters of it in a row, and the pair of it and the next word; each
/// with its weight.
pub open spec fn is_feature_at(words: Seq<Seq<char>>, i: int, f: FeatureView) -> bool {
    ||| f.weight == 100 && f.name == words[i]
    ||| f.weight == 80 && f.name == "stem:"@ + search_text::stem_of(words[i])
    ||| f.weight == 240 && search_text::concept_of(words[i]) == Some(f.name)
    ||| f.weight == 18 && is_three_of(words[i], f.name)
    ||| f.weight == 45 && i + 1 < words.len() && f.name == "pair:"@ + words[i] + ":"@ + words[i + 1]
}

pub open spec fn is_three_of(word: Seq<char>, name: Seq<char>) -> bool {
    exists|k: int|
        0 <= k && k + 3 <= word.len() && name == "char:"@ + #[trigger] word.subrange(k, k + 3)
}

proof fn lemma_in_both<T>(a: Seq<T>, b: Seq<T>, x: T)
    ensures
        (a + b).contains(x) <==> a.contains(x) || b.contains(x),
{
    if a.contains(x) {
        let i = choose|i: int| 0 <= i < a.len() && a[i] == x;
        assert((a + b)[i] == x);
    }
    if b.contains(x) {
        let i = choose|i: int| 0 <= i < b.len() && b[i] == x;
        assert((a + b)[a.len() + i] == x);
    }
    if (a + b).contains(x) {
        let i = choose|i: int| 0 <= i < (a + b).len() && (a + b)[i] == x;
        if i < a.len() {
            assert(a[i] == x);
        } else {
            assert(b[i - a.len()] == x);
        }
    }
}

proof fn lemma_word_features(words: Seq<Seq<char>>, i: int, f: FeatureView)
    requires
        0 <= i < words.len(),
    ensures
        search_text::word_features(words, i).contains(f) <==> is_feature_at(words, i, f),
{
    let word = words[i];
    let two = seq![
        FeatureView { name: word, weight: 100 },
        FeatureView { name: "stem:"@ + search_text::stem_of(word), weight: 80 },
    ];
    let c = search_text::concept_features(word);
    let t = search_text::run_features(word);
    let p = search_text::pair_features(words, i);
    lemma_in_both(two + c + t, p, f);
    lemma_in_both(two + c, t, f);
    lemma_in_both(two, c, f);
    assert(two[0].name == word && two[0].weight == 100);
    assert(two.contains(f) <==> f == two[0] || f == two[1]) by {
        if f == two[0] || f == two[1] {
            assert(two.contains(two[0]) && two.contains(two[1]));
        }
    }
    assert(c.contains(f) <==> f.weight == 240 && search_text::concept_of(word) == Some(f.name)) by {
        if search_text::concept_of(word) is Some {
            assert(c[0] == (FeatureView { name: search_text::concept_of(word)->0, weight: 240 }));
        }
    }
    assert(t.contains(f) <==> f.weight == 18 && is_three_of(word, f.name)) by {
        if t.contains(f) {
            let k = choose|k: int| 0 <= k < t.len() && t[k] == f;
            assert(f.name == "char:"@ + word.subrange(k, k + 3));
        }
        if f.weight == 18 && is_three_of(word, f.name) {
            let k = choose|k: int|
                0 <= k && k + 3 <= word.len() && f.name == "char:"@ + #[trigger] word.subrange(
                    k,
                    k + 3,
                );
            assert(t[k] == f);
        }
    }
    assert(p.contains(f) <==> f.weight == 45 && i + 1 < words.len() && f.name == "pair:"@ + words[i]
        + ":"@ + words[i + 1]) by {
        if i + 1 < words.len() {
            assert(p[0].weight == 45);
            if f.weight == 45 && f.name == "pair:"@ + words[i] + ":"@ + words[i + 1] {
                assert(p[0] == f);
            }
        }
    }
}

proof fn lemma_features(words: Seq<Seq<char>>, n: int, f: FeatureView)
    requires
        0 <= n <= words.len(),
    ensures
        search_text::features_up_to(words, n).contains(f) <==> exists|i: int|
            0 <= i < n && #[trigger] is_feature_at(words, i, f),
    decreases n,
{
    if n > 0 {
        lemma_features(words, n - 1, f);
        lemma_in_both(
            search_text::features_up_to(words, n - 1),
            search_text::word_features(words, n - 1),
            f,
        );
        lemma_word_features(words, n - 1, f);
    }
}

/// The features of a text are just what its words are known by.
pub proof fn law_features_are_of_the_words(s: Seq<char>, f: FeatureView)
    ensures
        search_text::features_of(s).contains(f) <==> exists|i: int|
            0 <= i < search_text::words_of(s).len() && #[trigger] is_feature_at(
                search_text::words_of(s),
                i,
                f,
            ),
{
    lemma_features(search_text::words_of(s), search_text::words_of(s).len() as int, f);
}

// ---------------------------------------------------------------------------- runs

/// What stands between white space, and is not empty.
pub open spec fn is_solid(s: Seq<char>, i: int, j: int) -> bool {
    &&& 0 <= i < j <= s.len()
    &&& forall|k: int| i <= k < j ==> !text::is_white_space(#[trigger] s[k])
    &&& i > 0 ==> text::is_white_space(s[i - 1])
    &&& j < s.len() ==> text::is_white_space(s[j])
}

pub open spec fn has_solid(s: Seq<char>, part: Seq<char>) -> bool {
    exists|i: int, j: int| #[trigger] is_solid(s, i, j) && s.subrange(i, j) == part
}

proof fn lemma_runs(s: Seq<char>, n: int, m: int, part: Seq<char>)
    requires
        0 <= n <= m <= s.len(),
        forall|k: int| n <= k < m ==> !text::is_white_space(#[trigger] s[k]),
    ensures
        search_text::runs_up_to(s, n, s.subrange(n, m)).contains(part) <==> has_solid(
            s.take(m),
            part,
        ),
    decreases n,
{
    let open = s.subrange(n, m);
    let t = s.take(m);
    let all = search_text::runs_up_to(s, n, open);
    if n == 0 {
        assert(t =~= open);
        if open.len() > 0 {
            assert(all[0] == open);
            assert(is_solid(t, 0, m));
            assert(t.subrange(0, m) =~= open);
            if has_solid(t, part) {
                let (i, j) = choose|i: int, j: int| #[trigger]
                    is_solid(t, i, j) && t.subrange(i, j) == part;
                if i > 0 {
                    assert(t[i - 1] == s[i - 1]);
                }
                if j < t.len() {
                    assert(t[j] == s[j]);
                }
                assert(i == 0 && j == m);
                assert(all[0] == part);
            }
        }
    } else if text::is_white_space(s[n - 1]) {
        let none = s.subrange(n - 1, n - 1);
        assert(none =~= Seq::<char>::empty());
        lemma_runs(s, n - 1, n - 1, part);
        let before = search_text::runs_up_to(s, n - 1, seq![]);
        let u = s.take(n - 1);
        assert forall|i: int, j: int| j <= n - 1 implies (#[trigger] is_solid(u, i, j)
            <==> is_solid(t, i, j)) by {
            assert(forall|k: int| 0 <= k < n - 1 ==> u[k] == t[k]);
            assert(t[n - 1] == s[n - 1]);
            if is_solid(u, i, j) {
                assert forall|k: int| i <= k < j implies !text::is_white_space(
                    #[trigger] t[k],
                ) by {
                    assert(!text::is_white_space(u[k]));
                }
            }
            if is_solid(t, i, j) {
                assert forall|k: int| i <= k < j implies !text::is_white_space(
                    #[trigger] u[k],
                ) by {
                    assert(!text::is_white_space(t[k]));
                }
            }
        }
        if open.len() > 0 {
            assert(all == before.push(open));
            assert(is_solid(t, n, m)) by {
                assert(t[n - 1] == s[n - 1]);
            }
            assert(t.subrange(n, m) =~= open);
        } else {
            assert(open =~= Seq::<char>::empty());
        }
        if has_solid(u, part) {
            let (i, j) = choose|i: int, j: int| #[trigger]
                is_solid(u, i, j) && u.subrange(i, j) == part;
            assert(is_solid(t, i, j));
            assert(t.subrange(i, j) =~= u.subrange(i, j));
        }
        if has_solid(t, part) {
            let (i, j) = choose|i: int, j: int| #[trigger]
                is_solid(t, i, j) && t.subrange(i, j) == part;
            if j <= n - 1 {
                assert(is_solid(u, i, j));
                assert(t.subrange(i, j) =~= u.subrange(i, j));
                assert(before.contains(part));
                let k = choose|k: int| 0 <= k < before.len() && before[k] == part;
                assert(all[k] == part);
            } else {
                if i <= n - 1 {
                    assert(!text::is_white_space(t[n - 1]));
                }
                if i > n {
                    assert(t[i - 1] == s[i - 1]);
                }
                if j < m {
                    assert(t[j] == s[j]);
                }
                assert(i == n && j == m);
                assert(all[before.len() as int] == part);
            }
        }
        if all.contains(part) {
            let k = choose|k: int| 0 <= k < all.len() && all[k] == part;
            if k < before.len() {
                assert(before[k] == part);
                assert(before.contains(part));
            } else {
                assert(t.subrange(n, m) == part);
            }
        }
    } else {
        assert(seq![s[n - 1]] + open =~= s.subrange(n - 1, m));
        lemma_runs(s, n - 1, m, part);
    }
}

/// The tags of a document, which are kept in one text, are what stands between white space.
pub proof fn law_tags_stand_between_white_space(s: Seq<char>, part: Seq<char>)
    ensures
        search_text::runs_of(s).contains(part) <==> has_solid(s, part),
{
    let n = s.len() as int;
    lemma_runs(s, n, n, part);
    assert(s.subrange(n, n) =~= Seq::<char>::empty());
    assert(s.take(n) =~= s);
}

} // verus!
