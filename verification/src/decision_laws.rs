//! How a decision card and its tokens belong together.

use vstd::prelude::*;

use crate::attention;
use crate::attention::CardView;
use crate::attention::ChoiceView;
use crate::decisions;
use crate::paths;
use crate::tables;
use crate::text;
use crate::tokens;

verus! {

// -------------------------------------------------------------- binding by key

/// The choice that a consequence token names, or the number of choices.
spec fn target(choices: Seq<ChoiceView>, token: Seq<char>) -> int {
    tables::first_index(
        choices,
        attention::has_key(text::trimmed((tokens::parted(token, '=')->0).0)),
    )
}

/// What a consequence token says.
spec fn said(token: Seq<char>) -> Seq<char> {
    text::trimmed((tokens::parted(token, '=')->0).1)
}

/// The token names a choice and says something.
spec fn fits(choices: Seq<ChoiceView>, token: Seq<char>) -> bool {
    &&& tokens::parted(token, '=') is Some
    &&& target(choices, token) < choices.len()
    &&& said(token).len() > 0
}

/// `bound` is the choices with what the tokens say, each by its key.
spec fn binds(choices: Seq<ChoiceView>, list: Seq<Seq<char>>, bound: Seq<ChoiceView>) -> bool {
    &&& bound.len() == choices.len()
    &&& forall|n: int|
        0 <= n < bound.len() ==> #[trigger] bound[n] == (ChoiceView {
            consequence: bound[n].consequence,
            ..choices[n]
        })
    &&& forall|i: int| 0 <= i < list.len() ==> fits(choices, #[trigger] list[i])
    &&& tables::distinct_by(list, |token: Seq<char>| target(choices, token))
    &&& forall|i: int|
        0 <= i < list.len() ==> bound[target(choices, list[i])].consequence == said(
            #[trigger] list[i],
        )
    &&& forall|n: int|
        0 <= n < bound.len() && (#[trigger] bound[n]).consequence.len() > 0 ==> exists|i: int|
            0 <= i < list.len() && target(choices, #[trigger] list[i]) == n
}

spec fn all_silent(choices: Seq<ChoiceView>) -> bool {
    forall|n: int| 0 <= n < choices.len() ==> (#[trigger] choices[n]).consequence.len() == 0
}

proof fn lemma_same_target(choices: Seq<ChoiceView>, bound: Seq<ChoiceView>, token: Seq<char>)
    requires
        bound.len() == choices.len(),
        forall|n: int| 0 <= n < bound.len() ==> (#[trigger] bound[n]).key == choices[n].key,
    ensures
        target(bound, token) == target(choices, token),
        0 <= target(choices, token) <= choices.len(),
{
    let p = attention::has_key(text::trimmed((tokens::parted(token, '=')->0).0));
    tables::lemma_first_index(choices, p);
    tables::lemma_first_index(bound, p);
    let n = tables::first_index(choices, p);
    assert forall|i: int| 0 <= i < n implies !p(#[trigger] bound[i]) by {
        assert(!p(choices[i]));
        assert(bound[i].key == choices[i].key);
    }
    if n < choices.len() {
        assert(bound[n].key == choices[n].key);
        assert(p(bound[n]));
    }
    tables::lemma_first_index_is(bound, p, n);
}

proof fn lemma_binds(choices: Seq<ChoiceView>, list: Seq<Seq<char>>)
    requires
        all_silent(choices),
    ensures
        decisions::bind_consequences(choices, list) matches Ok(bound) ==> binds(
            choices,
            list,
            bound,
        ),
    decreases list.len(),
{
    if list.len() > 0 && decisions::bind_consequences(choices, list) is Ok {
        let rest = list.drop_last();
        let token = list.last();
        let before = decisions::bind_consequences(choices, rest)->Ok_0;
        let bound = decisions::bind_consequences(choices, list)->Ok_0;
        lemma_binds(choices, rest);
        lemma_same_target(choices, before, token);
        let n = target(choices, token);
        assert(list[list.len() - 1] == token);
        assert forall|i: int| 0 <= i < list.len() implies fits(choices, #[trigger] list[i]) by {
            if i < rest.len() {
                assert(list[i] == rest[i]);
            }
        }
        assert forall|i: int| 0 <= i < rest.len() implies target(choices, #[trigger] rest[i])
            != n by {
            assert(fits(choices, rest[i]));
            assert(before[target(choices, rest[i])].consequence == said(rest[i]));
        }
        let key = |t: Seq<char>| target(choices, t);
        assert forall|i: int, j: int| 0 <= i < j < list.len() implies key(#[trigger] list[i])
            != key(#[trigger] list[j]) by {
            assert(list[i] == rest[i]);
            if j < rest.len() {
                assert(list[j] == rest[j]);
                assert(key(rest[i]) != key(rest[j]));
            }
        }
        assert forall|i: int| 0 <= i < list.len() implies bound[target(
            choices,
            list[i],
        )].consequence == said(#[trigger] list[i]) by {
            if i < rest.len() {
                assert(list[i] == rest[i]);
                lemma_same_target(choices, before, rest[i]);
            }
        }
        assert forall|m: int|
            0 <= m < bound.len() && (#[trigger] bound[m]).consequence.len() > 0 implies exists|
            i: int,
        | 0 <= i < list.len() && target(choices, #[trigger] list[i]) == m by {
            if m == n {
                assert(target(choices, list[list.len() - 1]) == m);
            } else {
                assert(bound[m] == before[m]);
                let i = choose|i: int|
                    0 <= i < rest.len() && target(choices, #[trigger] rest[i]) == m;
                assert(target(choices, list[i]) == m);
            }
        }
    }
}

proof fn lemma_bound(choices: Seq<ChoiceView>, list: Seq<Seq<char>>)
    requires
        all_silent(choices),
        forall|i: int| 0 <= i < list.len() ==> fits(choices, #[trigger] list[i]),
        tables::distinct_by(list, |token: Seq<char>| target(choices, token)),
    ensures
        decisions::bind_consequences(choices, list) is Ok,
    decreases list.len(),
{
    if list.len() > 0 {
        let rest = list.drop_last();
        let token = list.last();
        let key = |t: Seq<char>| target(choices, t);
        assert forall|i: int| 0 <= i < rest.len() implies fits(choices, #[trigger] rest[i]) by {
            assert(rest[i] == list[i]);
        }
        assert forall|i: int, j: int| 0 <= i < j < rest.len() implies key(#[trigger] rest[i])
            != key(#[trigger] rest[j]) by {
            assert(key(list[i]) != key(list[j]));
        }
        lemma_bound(choices, rest);
        lemma_binds(choices, rest);
        let before = decisions::bind_consequences(choices, rest)->Ok_0;
        lemma_same_target(choices, before, token);
        assert(fits(choices, list[list.len() - 1]));
        let n = target(choices, token);
        if before[n].consequence.len() > 0 {
            let i = choose|i: int| 0 <= i < rest.len() && target(choices, #[trigger] rest[i]) == n;
            assert(key(list[i]) != key(list[list.len() - 1]));
        }
    }
}

/// Whatever order the tokens stand in, they bind the same.
proof fn lemma_reordered(
    choices: Seq<ChoiceView>,
    list: Seq<Seq<char>>,
    other: Seq<Seq<char>>,
)
    requires
        all_silent(choices),
        decisions::bind_consequences(choices, list) is Ok,
        list.to_multiset() == other.to_multiset(),
    ensures
        decisions::bind_consequences(choices, other) == decisions::bind_consequences(
            choices,
            list,
        ),
{
    broadcast use vstd::seq_lib::group_to_multiset_ensures;

    let key = |t: Seq<char>| target(choices, t);
    lemma_binds(choices, list);
    tables::lemma_reordered_distinct(list, other, key);
    assert forall|i: int| 0 <= i < other.len() implies fits(choices, #[trigger] other[i]) by {
        assert(other.contains(other[i]));
        assert(list.to_multiset().count(other[i]) > 0);
        let k = choose|k: int| 0 <= k < list.len() && list[k] == other[i];
        assert(fits(choices, list[k]));
    }
    lemma_bound(choices, other);
    lemma_binds(choices, other);
    let a = decisions::bind_consequences(choices, list)->Ok_0;
    let b = decisions::bind_consequences(choices, other)->Ok_0;
    assert forall|n: int| 0 <= n < a.len() implies a[n] == b[n] by {
        if a[n].consequence.len() > 0 {
            let i = choose|i: int| 0 <= i < list.len() && target(choices, #[trigger] list[i]) == n;
            assert(list.contains(list[i]));
            assert(other.to_multiset().count(list[i]) > 0);
            let k = choose|k: int| 0 <= k < other.len() && other[k] == list[i];
            assert(b[target(choices, other[k])].consequence == said(other[k]));
        } else if b[n].consequence.len() > 0 {
            let i = choose|i: int|
                0 <= i < other.len() && target(choices, #[trigger] other[i]) == n;
            assert(other.contains(other[i]));
            assert(list.to_multiset().count(other[i]) > 0);
            let k = choose|k: int| 0 <= k < list.len() && list[k] == other[i];
            assert(a[target(choices, list[k])].consequence == said(list[k]));
        } else {
            assert(a[n].consequence =~= b[n].consequence);
        }
    }
    assert(a =~= b);
}

proof fn lemma_declared_silent(tokens: Seq<Seq<char>>)
    ensures
        all_silent(decisions::choices_of(tokens)),
{
}

/// A consequence is bound by its key and never by its place: any reordering of the
/// consequence tokens makes the same card.
pub proof fn law_consequences_are_bound_by_key(
    question: Option<Seq<char>>,
    context: Option<Seq<char>>,
    choices: Seq<Seq<char>>,
    consequences: Seq<Seq<char>>,
    reordered: Seq<Seq<char>>,
    recommend: Option<Seq<char>>,
)
    requires
        decisions::card_of(question, context, choices, consequences, recommend) is Ok,
        consequences.to_multiset() == reordered.to_multiset(),
    ensures
        decisions::card_of(question, context, choices, reordered, recommend)
            == decisions::card_of(question, context, choices, consequences, recommend),
{
    lemma_declared_silent(choices);
    lemma_reordered(decisions::choices_of(choices), consequences, reordered);
}

// ---------------------------------------------------------------------- reading back

/// The token that declares a choice.
pub open spec fn choice_token(c: ChoiceView) -> Seq<char> {
    c.key + seq!['='] + c.label + seq!['|'] + c.outcome
}

/// The token that says what happens if a choice is picked.
pub open spec fn consequence_token(c: ChoiceView) -> Seq<char> {
    c.key + seq!['='] + c.consequence
}

/// Nothing on the card has white space at its ends.
pub open spec fn is_trimmed(card: CardView) -> bool {
    &&& decisions::trimmed_option(card.question) == card.question
    &&& decisions::trimmed_option(card.context) == card.context
    &&& forall|i: int|
        0 <= i < card.choices.len() ==> {
            let c = #[trigger] card.choices[i];
            &&& text::trimmed(c.key) == c.key
            &&& text::trimmed(c.label) == c.label
            &&& text::trimmed(c.outcome) == c.outcome
            &&& text::trimmed(c.consequence) == c.consequence
        }
}

proof fn lemma_parted(head: Seq<char>, c: char, tail: Seq<char>)
    requires
        !head.contains(c),
    ensures
        tokens::parted(head + seq![c] + tail, c) == Some((head, tail)),
{
    let s = head + seq![c] + tail;
    text::lemma_find_char(s, c);
    let i = text::find_char(s, c);
    assert(s[head.len() as int] == c);
    if i < head.len() {
        assert(s[i] == head[i]);
        assert(head.contains(head[i]));
    }
    assert(i == head.len());
    assert(s.take(i) =~= head);
    assert(s.skip(i + 1) =~= tail);
}

proof fn lemma_last_of(head: Seq<char>, c: char, tail: Seq<char>)
    requires
        !tail.contains(c),
    ensures
        paths::last_index(head + seq![c] + tail, c) == head.len(),
    decreases tail.len(),
{
    let s = head + seq![c] + tail;
    if tail.len() == 0 {
        assert(s.last() == c);
    } else {
        let rest = tail.drop_last();
        assert(s.drop_last() =~= head + seq![c] + rest);
        assert(tail.contains(tail.last()));
        assert(s.last() == tail.last());
        if rest.contains(c) {
            let k = choose|k: int| 0 <= k < rest.len() && rest[k] == c;
            assert(tail[k] == c);
        }
        lemma_last_of(head, c, rest);
    }
}

proof fn lemma_parted_last(head: Seq<char>, c: char, tail: Seq<char>)
    requires
        !tail.contains(c),
    ensures
        tokens::parted_last(head + seq![c] + tail, c) == Some((head, tail)),
{
    let s = head + seq![c] + tail;
    lemma_last_of(head, c, tail);
    assert(s.take(head.len() as int) =~= head);
    assert(s.skip(head.len() as int + 1) =~= tail);
}

proof fn lemma_slug_plain(key: Seq<char>)
    requires
        tokens::is_slug(key),
    ensures
        !key.contains('='),
{
    if key.contains('=') {
        let k = choose|k: int| 0 <= k < key.len() && key[k] == '=';
        assert(tokens::is_slug_letter(key[k]) || key[k] == '-');
    }
}

proof fn lemma_outcome_plain(outcome: Seq<char>)
    requires
        attention::outcomes().contains(outcome),
    ensures
        !outcome.contains('|'),
{
    reveal_strlit("approve");
    reveal_strlit("reject");
    reveal_strlit("defer");
    reveal_strlit("other");
    let words = attention::outcomes();
    let k = choose|k: int| 0 <= k < words.len() && words[k] == outcome;
    assert(attention::ATTENTION_OUTCOMES@.len() == 4);
    assert(outcome == "approve"@ || outcome == "reject"@ || outcome == "defer"@ || outcome
        == "other"@);
}

/// A choice as its token declares it.
spec fn bare(c: ChoiceView) -> ChoiceView {
    ChoiceView { consequence: seq![], recommended: false, ..c }
}

proof fn lemma_token_read(c: ChoiceView)
    requires
        attention::choice_refusal()(c) is None,
        text::trimmed(c.key) == c.key,
        text::trimmed(c.label) == c.label,
        text::trimmed(c.outcome) == c.outcome,
        text::trimmed(c.consequence) == c.consequence,
    ensures
        decisions::token_refusal()(choice_token(c)) is None,
        decisions::choice_of(choice_token(c)) == bare(c),
        tokens::parted(consequence_token(c), '=') == Some((c.key, c.consequence)),
{
    let rest = c.label + seq!['|'] + c.outcome;
    lemma_slug_plain(c.key);
    lemma_outcome_plain(c.outcome);
    assert(choice_token(c) =~= c.key + seq!['='] + rest);
    lemma_parted(c.key, '=', rest);
    lemma_parted(c.key, '=', c.consequence);
    lemma_parted_last(c.label, '|', c.outcome);
}

/// A valid, trimmed card with choices is read back from its tokens.
pub proof fn law_card_reads_back(card: CardView, r: int)
    requires
        attention::card_refusal(card) is None,
        card.choices.len() > 0,
        is_trimmed(card),
        0 <= r < card.choices.len(),
        card.choices[r].recommended,
    ensures
        decisions::card_of(
            card.question,
            card.context,
            card.choices.map_values(|c: ChoiceView| choice_token(c)),
            card.choices.map_values(|c: ChoiceView| consequence_token(c)),
            Some(card.choices[r].key),
        ) == Ok::<CardView, Seq<char>>(card),
{
    let all = card.choices;
    let choices = all.map_values(|c: ChoiceView| choice_token(c));
    let consequences = all.map_values(|c: ChoiceView| consequence_token(c));
    let declared = decisions::choices_of(choices);
    decisions::law_valid_card(card);
    tokens::lemma_first_refusal(all, attention::choice_refusal());
    assert forall|i: int| 0 <= i < all.len() implies decisions::token_refusal()(
        #[trigger] choices[i],
    ) is None && declared[i] == bare(all[i]) && tokens::parted(consequences[i], '=') == Some(
        (all[i].key, all[i].consequence),
    ) by {
        assert(attention::choice_refusal()(all[i]) is None);
        lemma_token_read(all[i]);
    }
    tokens::lemma_first_refusal(choices, decisions::token_refusal());
    assert(attention::keys_of(declared) =~= attention::keys_of(all)) by {
        assert forall|i: int| 0 <= i < all.len() implies (#[trigger] declared[i]).key
            == all[i].key by {
            assert(decisions::token_refusal()(choices[i]) is None);
        }
    }
    attention::lemma_repeated_key(declared);
    lemma_declared_silent(choices);
    let keys = attention::keys_of(all);
    assert forall|i: int, j: int| 0 <= i < all.len() && 0 <= j < all.len() && i != j implies (
    #[trigger] all[i]).key != (#[trigger] all[j]).key by {
        assert(keys[i] != keys[j]);
    }
    assert forall|i: int| 0 <= i < all.len() implies fits(declared, #[trigger] consequences[i])
        && target(declared, consequences[i]) == i && said(consequences[i])
        == all[i].consequence by {
        assert(decisions::token_refusal()(choices[i]) is None);
        let p = attention::has_key(all[i].key);
        assert forall|k: int| 0 <= k < i implies !p(#[trigger] declared[k]) by {
            assert(decisions::token_refusal()(choices[k]) is None);
            assert(all[k].key != all[i].key);
        }
        assert(p(declared[i]));
        tables::lemma_first_index_is(declared, p, i);
    }
    let key = |t: Seq<char>| target(declared, t);
    assert forall|i: int, j: int| 0 <= i < j < consequences.len() implies key(
        #[trigger] consequences[i],
    ) != key(#[trigger] consequences[j]) by {
        assert(fits(declared, consequences[i]));
        assert(fits(declared, consequences[j]));
    }
    lemma_bound(declared, consequences);
    lemma_binds(declared, consequences);
    let bound = decisions::bind_consequences(declared, consequences)->Ok_0;
    assert forall|i: int| 0 <= i < all.len() implies #[trigger] bound[i] == (ChoiceView {
        recommended: false,
        ..all[i]
    }) by {
        assert(decisions::token_refusal()(choices[i]) is None);
        assert(fits(declared, consequences[i]));
        assert(bound[target(declared, consequences[i])].consequence == said(consequences[i]));
    }
    let silent = decisions::has_no_consequence();
    tables::lemma_first_index(bound, silent);
    if tables::first_index(bound, silent) < bound.len() {
        let n = tables::first_index(bound, silent);
        assert(silent(bound[n]));
        assert(all[n].consequence.len() > 0);
    }
    let name = all[r].key;
    let named = attention::has_key(name);
    tables::lemma_first_index(bound, named);
    assert(named(bound[r]));
    let marked = decisions::recommended_at(bound, name);
    assert forall|i: int| 0 <= i < all.len() implies #[trigger] marked[i] == all[i] by {
        assert(bound[i] == (ChoiceView { recommended: false, ..all[i] }));
        if i != r {
            assert(all[i].key != all[r].key);
            if all[i].recommended {
                lemma_two_kept(all, attention::is_recommended(), i, r);
            }
        }
    }
    assert(marked =~= all);
}

/// Two that fit make at least two that are kept.
proof fn lemma_two_kept(s: Seq<ChoiceView>, p: spec_fn(ChoiceView) -> bool, i: int, j: int)
    requires
        0 <= i < s.len(),
        0 <= j < s.len(),
        i != j,
        p(s[i]),
        p(s[j]),
    ensures
        tables::kept(s, p).len() >= 2,
    decreases s.len(),
{
    let rest = s.drop_last();
    let n = rest.len();
    if i < n && j < n {
        lemma_two_kept(rest, p, i, j);
    } else {
        let k = if i < n {
            i
        } else {
            j
        };
        tables::lemma_kept(rest, p);
        assert(p(rest[k]));
        assert(tables::kept(rest, p).contains(rest[k]));
    }
}

} // verus!
