//! What makes a card valid, what an answer decides, which deployment is verified and which
//! state is enforced, in plain words.

use vstd::prelude::*;

use crate::attention;
use crate::attention::CardView;
use crate::attention::ChoiceView;
use crate::decisions;
use crate::decisions::AnswerView;
use crate::deploy;
use crate::deploy::IdentityView;
use crate::deploy::ModeView;
use crate::listing;
use crate::routing;
use crate::routing::Enforcement;
use crate::routing::RegistryReading;
use crate::tables;
use crate::text;
use crate::tokens;

verus! {

// ---------------------------------------------------------------------------- cards

/// The four verdicts.
pub open spec fn is_verdict(s: Seq<char>) -> bool {
    s == "approve"@ || s == "reject"@ || s == "defer"@ || s == "other"@
}

/// A small letter or a digit.
pub open spec fn is_plain(c: char) -> bool {
    'a' <= c <= 'z' || '0' <= c <= '9'
}

/// One to 32 small letters, digits and hyphens, with no hyphen in front.
pub open spec fn is_short_key(s: Seq<char>) -> bool {
    &&& 1 <= s.len() <= 32
    &&& s[0] != '-'
    &&& forall|i: int| 0 <= i < s.len() ==> is_plain(#[trigger] s[i]) || s[i] == '-'
}

/// A choice that may stand on a card.
pub open spec fn is_good_choice(c: ChoiceView) -> bool {
    &&& is_short_key(c.key)
    &&& c.key != "custom"@
    &&& 1 <= c.label.len() <= 60
    &&& !c.label.contains('|')
    &&& 1 <= c.consequence.len() <= 200
    &&& is_verdict(c.outcome)
}

/// A card that may be raised: a question with its context, or neither; and two to four
/// choices, each of another key, one of them recommended, or none.
pub open spec fn is_good_card(card: CardView) -> bool {
    &&& card.question is Some <==> card.context is Some
    &&& card.question matches Some(q) ==> 1 <= q.len() <= 160
    &&& card.context matches Some(c) ==> 1 <= c.len() <= 800
    &&& card.choices.len() > 0 ==> {
        &&& 2 <= card.choices.len() <= 4
        &&& forall|i: int| 0 <= i < card.choices.len() ==> is_good_choice(#[trigger] card.choices[i])
        &&& forall|i: int, j: int|
            0 <= i < j < card.choices.len() ==> (#[trigger] card.choices[i]).key != (
            #[trigger] card.choices[j]).key
        &&& card.choices.filter(|c: ChoiceView| c.recommended).len() == 1
    }
}

proof fn lemma_verdicts(s: Seq<char>)
    ensures
        attention::outcomes().contains(s) <==> is_verdict(s),
{
    let all = attention::outcomes();
    assert(all.len() == 4);
    assert(all[0] == "approve"@ && all[1] == "reject"@ && all[2] == "defer"@ && all[3]
        == "other"@);
}

proof fn lemma_choice(c: ChoiceView)
    ensures
        attention::choice_refusal()(c) is None <==> is_good_choice(c),
{
    lemma_verdicts(c.outcome);
    assert(tokens::is_slug(c.key) <==> is_short_key(c.key)) by {
        if c.key.len() > 0 {
            assert(forall|i: int|
                0 <= i < c.key.len() ==> (tokens::is_slug_letter(#[trigger] c.key[i]) <==> is_plain(
                    c.key[i],
                )));
            assert(is_plain(c.key[0]) || c.key[0] == '-' || !(is_plain(c.key[0]) || c.key[0]
                == '-'));
        }
    }
}

/// A card is accepted if and only if it may be raised.
pub proof fn law_good_cards_are_accepted(card: CardView)
    ensures
        attention::card_refusal(card) is None <==> is_good_card(card),
{
    let all = card.choices;
    let refusal = attention::choice_refusal();
    tokens::lemma_first_refusal(all, refusal);
    attention::lemma_repeated_key(all);
    let keys = attention::keys_of(all);
    let p = attention::is_recommended();
    let q = |c: ChoiceView| c.recommended;
    listing::lemma_kept_is_filter(all, p);
    assert(p =~= q);
    assert forall|i: int| 0 <= i < all.len() implies (refusal(#[trigger] all[i]) is None
        <==> is_good_choice(all[i])) by {
        lemma_choice(all[i]);
    }
    assert(keys.no_duplicates() <==> forall|i: int, j: int|
        0 <= i < j < all.len() ==> (#[trigger] all[i]).key != (#[trigger] all[j]).key) by {
        if keys.no_duplicates() {
            assert forall|i: int, j: int| 0 <= i < j < all.len() implies (#[trigger] all[i]).key
                != (#[trigger] all[j]).key by {
                assert(keys[i] != keys[j]);
            }
        }
        if forall|i: int, j: int|
            0 <= i < j < all.len() ==> (#[trigger] all[i]).key != (#[trigger] all[j]).key {
            assert forall|i: int, j: int|
                0 <= i < keys.len() && 0 <= j < keys.len() && i != j implies keys[i]
                != keys[j] by {
                if i < j {
                    assert(all[i].key != all[j].key);
                } else {
                    assert(all[j].key != all[i].key);
                }
            }
        }
    }
}

/// What is said, without the white space around it; nothing where nothing is left.
pub open spec fn said(o: Option<Seq<char>>) -> Option<Seq<char>> {
    if o is Some && text::trimmed(o->0).len() > 0 {
        Some(text::trimmed(o->0))
    } else {
        None
    }
}

/// An answer decides by the choice that it names: the verdict, the label and the consequence
/// are those of that choice. An answer of one's own names its verdict, one of the four, and
/// has to say why. Nothing else decides.
pub proof fn law_answer_decides_by_its_choice(
    answer: AnswerView,
    id: Seq<char>,
    choices: Seq<ChoiceView>,
    by: Seq<char>,
    at: i64,
)
    ensures
        decisions::decision_of(answer, id, choices, by, at) is Ok <==> {
            ||| said(answer.choice) == Some("custom"@) && said(answer.note) is Some && said(
                answer.outcome,
            ) is Some && is_verdict(said(answer.outcome)->0)
            ||| said(answer.choice) is Some && said(answer.choice) != Some("custom"@) && said(
                answer.outcome,
            ) is None && exists|n: int|
                0 <= n < choices.len() && Some((#[trigger] choices[n]).key) == said(answer.choice)
        },
        decisions::decision_of(answer, id, choices, by, at) matches Ok((decision, resolution))
            ==> {
            &&& Some(decision.choice) == said(answer.choice)
            &&& decision.by == by
            &&& decision.at == at
            &&& decision.note == said(answer.note)
            &&& decision.choice == "custom"@ ==> Some(decision.outcome) == said(answer.outcome)
                && resolution == "Decision: Custom answer, recorded as "@ + decision.outcome + "."@
                + "\nNote: "@ + decision.note->0
            &&& decision.choice != "custom"@ ==> is_told(
                choices,
                decision.choice,
                decision.outcome,
                decision.note,
                resolution,
            )
        },
{
    let o = said(answer.outcome);
    if o is Some {
        lemma_verdicts(o->0);
    }
    if said(answer.choice) is Some {
        let key = said(answer.choice)->0;
        let p = attention::has_key(key);
        tables::lemma_first_index(choices, p);
        let n = tables::first_index(choices, p);
        if n < choices.len() {
            assert(p(choices[n]));
            assert forall|m: int| 0 <= m < n implies (#[trigger] choices[m]).key != key by {
                assert(!p(choices[m]));
            }
        }
        if exists|n: int|
            0 <= n < choices.len() && Some((#[trigger] choices[n]).key) == said(answer.choice) {
            let m = choose|m: int|
                0 <= m < choices.len() && Some((#[trigger] choices[m]).key) == said(answer.choice);
            assert(p(choices[m]));
            assert(n <= m);
        }
    }
}

/// The resolution tells the first choice of that key, with its verdict.
pub open spec fn is_told(
    choices: Seq<ChoiceView>,
    key: Seq<char>,
    outcome: Seq<char>,
    note: Option<Seq<char>>,
    resolution: Seq<char>,
) -> bool {
    exists|n: int|
        {
            &&& 0 <= n < choices.len()
            &&& (#[trigger] choices[n]).key == key
            &&& choices[n].outcome == outcome
            &&& note is None ==> resolution == "Decision: "@ + choices[n].label + ". "@
                + choices[n].consequence
            &&& note matches Some(why) ==> resolution == "Decision: "@ + choices[n].label + ". "@
                + choices[n].consequence + "\nNote: "@ + why
            &&& forall|m: int| 0 <= m < n ==> (#[trigger] choices[m]).key != key
        }
}

// ---------------------------------------------------------------------------- deployments

/// The identity is among these.
pub open spec fn is_among(a: IdentityView, list: Seq<IdentityView>) -> bool {
    exists|i: int|
        0 <= i < list.len() && (#[trigger] list[i]).role == a.role && list[i].kind == a.kind
            && list[i].value == a.value
}

/// No two of these have one role.
pub open spec fn have_own_roles(list: Seq<IdentityView>) -> bool {
    forall|i: int, j: int|
        0 <= i < j < list.len() ==> (#[trigger] list[i]).role != (#[trigger] list[j]).role
}

/// A deployment is verified if and only if what was observed is what was expected: every
/// expected artifact with just its kind and its value, and no other role.
pub proof fn law_verified_if_and_only_if_observed(
    id: Seq<char>,
    expected: Seq<IdentityView>,
    observed: Seq<IdentityView>,
)
    requires
        have_own_roles(expected),
        have_own_roles(observed),
    ensures
        deploy::verify_refusal(id, expected, observed) is None <==> (forall|i: int|
            0 <= i < expected.len() ==> is_among(#[trigger] expected[i], observed)) && (forall|
            i: int,
        |
            0 <= i < observed.len() ==> is_among(#[trigger] observed[i], expected)),
{
    let extra = deploy::extra_refusal(id, expected);
    let wrong = deploy::mismatch(id, observed);
    tokens::lemma_first_refusal(observed, extra);
    tokens::lemma_first_refusal(expected, wrong);
    let roles = deploy::roles_of(expected);
    assert forall|i: int| 0 <= i < expected.len() implies (wrong(#[trigger] expected[i]) is None
        <==> is_among(expected[i], observed)) by {
        let a = expected[i];
        let p = deploy::has_role(a.role);
        tables::lemma_first_index(observed, p);
        let n = tables::first_index(observed, p);
        if n < observed.len() {
            assert(p(observed[n]));
        }
        if is_among(a, observed) {
            let m = choose|m: int|
                0 <= m < observed.len() && (#[trigger] observed[m]).role == a.role
                    && observed[m].kind == a.kind && observed[m].value == a.value;
            assert(p(observed[m]));
            if n < m {
                assert(observed[n].role != observed[m].role);
            }
        }
    }
    if deploy::verify_refusal(id, expected, observed) is None {
        assert forall|i: int| 0 <= i < observed.len() implies is_among(
            #[trigger] observed[i],
            expected,
        ) by {
            assert(extra(observed[i]) is None);
            let k = choose|k: int| 0 <= k < roles.len() && roles[k] == observed[i].role;
            assert(is_among(expected[k], observed));
            let m = choose|m: int|
                0 <= m < observed.len() && (#[trigger] observed[m]).role == expected[k].role
                    && observed[m].kind == expected[k].kind && observed[m].value
                    == expected[k].value;
            if m < i {
                assert(observed[m].role != observed[i].role);
            } else if i < m {
                assert(observed[i].role != observed[m].role);
            }
            assert(expected[k].role == observed[i].role);
        }
    }
    if forall|i: int| 0 <= i < observed.len() ==> is_among(#[trigger] observed[i], expected) {
        assert forall|i: int| 0 <= i < observed.len() implies extra(
            #[trigger] observed[i],
        ) is None by {
            assert(is_among(observed[i], expected));
            let k = choose|k: int|
                0 <= k < expected.len() && (#[trigger] expected[k]).role == observed[i].role
                    && expected[k].kind == observed[i].kind && expected[k].value
                    == observed[i].value;
            assert(roles[k] == observed[i].role);
        }
    }
}

/// A small hexadecimal digit.
pub open spec fn is_hex_digit(c: char) -> bool {
    '0' <= c <= '9' || 'a' <= c <= 'f'
}

/// A full commit: 40 hexadecimal digits, in small letters.
pub open spec fn is_full_commit(s: Seq<char>) -> bool {
    s.len() == 40 && forall|i: int| 0 <= i < s.len() ==> is_hex_digit(#[trigger] s[i])
}

/// A deployment names what it deploys in one of two ways: by a full commit alone, or by the
/// artifacts of a build whose commit is said to be unknown.
pub proof fn law_deployment_names_one_identity(
    commit: Option<Seq<char>>,
    build_commit: Option<Seq<char>>,
    artifacts: Seq<Seq<char>>,
)
    ensures
        deploy::mode_of(commit, build_commit, artifacts) matches Ok(ModeView::Git(full)) ==> commit
            is Some && build_commit is None && artifacts.len() == 0 && is_full_commit(full)
            && full.len() == text::trimmed(commit->0).len(),
        deploy::mode_of(commit, build_commit, artifacts) matches Ok(ModeView::Artifact(list))
            ==> commit is None && build_commit is Some && text::trimmed(build_commit->0)
            == "unknown"@ && artifacts.len() > 0 && list.len() == artifacts.len()
            && have_own_roles(list) && forall|i: int|
            0 <= i < list.len() ==> is_named_artifact(#[trigger] list[i]),
        commit is Some && build_commit is None && artifacts.len() == 0 && is_full_commit(
            text::trimmed(commit->0),
        ) ==> deploy::mode_of(commit, build_commit, artifacts) == Ok::<ModeView, Seq<char>>(
            ModeView::Git(text::trimmed(commit->0)),
        ),
{
    if let Ok(ModeView::Artifact(list)) = deploy::mode_of(commit, build_commit, artifacts) {
        deploy::law_read_identities_are_sound(artifacts, "--artifact"@);
        let roles = deploy::roles_of(list);
        assert forall|i: int, j: int| 0 <= i < j < list.len() implies (#[trigger] list[i]).role
            != (#[trigger] list[j]).role by {
            assert(roles[i] != roles[j]);
        }
        assert forall|i: int| 0 <= i < list.len() implies is_named_artifact(
            #[trigger] list[i],
        ) by {
            let a = list[i];
            assert(deploy::is_identity(deploy::identities_of(artifacts, "--artifact"@)->Ok_0[i]));
            let kinds = deploy::identity_kinds();
            assert(kinds.len() == 2);
            assert(kinds[0] == "docker-image-id"@ && kinds[1] == "oci-manifest-digest"@);
            assert(deploy::is_digest(a.value));
            reveal_strlit("sha256:");
            let rest = text::stripped_prefix(a.value, "sha256:"@)->0;
            assert(a.value.take(7) =~= "sha256:"@);
            assert forall|k: int| 7 <= k < a.value.len() implies is_hex_digit(
                #[trigger] a.value[k],
            ) by {
                assert(text::is_lower_hex(rest[k - 7]));
            }
        }
    }
    if commit is Some && is_full_commit(text::trimmed(commit->0)) {
        let t = text::trimmed(commit->0);
        assert(tokens::ascii_lowered(t) =~= t) by {
            assert forall|i: int| 0 <= i < t.len() implies tokens::ascii_lowered(t)[i] == t[i] by {
                assert(is_hex_digit(t[i]));
            }
        }
    }
    if let Ok(ModeView::Git(full)) = deploy::mode_of(commit, build_commit, artifacts) {
        assert forall|i: int| 0 <= i < full.len() implies is_hex_digit(#[trigger] full[i]) by {
            assert(text::is_lower_hex(full[i]));
        }
    }
}

/// A role, one of two kinds, and a digest of 64 hexadecimal digits.
pub open spec fn is_named_artifact(a: IdentityView) -> bool {
    &&& is_short_key(a.role)
    &&& a.kind == "docker-image-id"@ || a.kind == "oci-manifest-digest"@
    &&& a.value.len() == 71
    &&& a.value.take(7) == "sha256:"@
    &&& forall|k: int| 7 <= k < a.value.len() ==> is_hex_digit(#[trigger] a.value[k])
}

// ---------------------------------------------------------------------------- enforcement

/// A registry that is not there, or from before enforcement, is not enforced; one that may
/// not be opened is managed. A stored state counts as what it says, and as managed where it
/// says nothing that is known. A registry that cannot be read is an error, never a guess.
pub proof fn law_enforcement_is_what_the_registry_says(reading: RegistryReading)
    ensures
        reading is Absent ==> routing::decided(reading) == Ok::<Enforcement, Seq<char>>(
            Enforcement::Direct,
        ),
        reading is Denied ==> routing::decided(reading) == Ok::<Enforcement, Seq<char>>(
            Enforcement::Managed,
        ),
        reading is Unreadable ==> routing::decided(reading) is Err,
        reading matches RegistryReading::Read { schema, state } ==> {
            &&& schema < 14 ==> routing::decided(reading) == Ok::<Enforcement, Seq<char>>(
                Enforcement::Direct,
            )
            &&& schema >= 14 && state is Err ==> routing::decided(reading) is Err
            &&& schema >= 14 && state is Ok ==> routing::decided(reading) == Ok::<
                Enforcement,
                Seq<char>,
            >(
                if state->Ok_0@ == "direct"@ {
                    Enforcement::Direct
                } else if state->Ok_0@ == "prepared"@ {
                    Enforcement::Prepared
                } else {
                    Enforcement::Managed
                },
            )
        },
{
}

} // verus!
