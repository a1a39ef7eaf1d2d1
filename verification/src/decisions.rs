//! Reading an authored card, and settling it with an answer.

use vstd::prelude::*;

use crate::attention;
use crate::attention::AttentionChoice;
use crate::attention::CardView;
use crate::attention::ChoiceView;
use crate::attention::DecisionCard;
use crate::attention::ATTENTION_OUTCOMES;
use crate::attention::CUSTOM_CHOICE;
use crate::outside;
use crate::tables;
use crate::text;
use crate::text::Error;
use crate::tokens;

verus! {

// --------------------------------------------------------------------- choice tokens

/// What a `KEY=LABEL|OUTCOME` token is refused with.
pub open spec fn token_refusal() -> spec_fn(Seq<char>) -> Option<Seq<char>> {
    |token: Seq<char>|
        match tokens::parted(token, '=') {
            None => Some(
                "attention: --choice "@ + outside::debug_text(token)
                    + " must read KEY=LABEL|OUTCOME, such as --choice \"assign=Assign a seat|approve\""@,
            ),
            Some((key, rest)) => match tokens::parted_last(rest, '|') {
                None => Some(
                    "attention: --choice "@ + outside::debug_text(token)
                        + " names no outcome; it must read KEY=LABEL|OUTCOME with the outcome one of "@
                        + attention::outcome_words(),
                ),
                Some(_) => None,
            },
        }
}

/// The choice that a token declares: the key stands before its first `=`, the outcome
/// behind its last `|`.
pub open spec fn choice_of(token: Seq<char>) -> ChoiceView {
    let (key, rest) = tokens::parted(token, '=')->0;
    let (label, outcome) = tokens::parted_last(rest, '|')->0;
    ChoiceView {
        key: text::trimmed(key),
        label: text::trimmed(label),
        consequence: seq![],
        outcome: text::trimmed(outcome),
        recommended: false,
    }
}

pub open spec fn choices_of(choices: Seq<Seq<char>>) -> Seq<ChoiceView> {
    choices.map_values(|token: Seq<char>| choice_of(token))
}

fn read_choice(token: &str) -> (r: Result<AttentionChoice, Error>)
    ensures
        match token_refusal()(token@) {
            Some(m) => text::refused(r, m),
            None => r is Ok && r->Ok_0@ == choice_of(token@),
        },
{
    match tokens::split_once(token, '=') {
        None => {
            let shown = outside::debug(token);
            text::refuse(
                "attention: --choice ".to_owned().concat(shown.as_str()).concat(
                    " must read KEY=LABEL|OUTCOME, such as --choice \"assign=Assign a seat|approve\"",
                ),
            )
        },
        Some((key, rest)) => match tokens::rsplit_once(rest, '|') {
            None => {
                let shown = outside::debug(token);
                let list = attention::outcome_list();
                text::refuse(
                    "attention: --choice ".to_owned().concat(shown.as_str()).concat(
                        " names no outcome; it must read KEY=LABEL|OUTCOME with the outcome one of ",
                    ).concat(list.as_str()),
                )
            },
            Some((label, outcome)) => {
                let r = AttentionChoice {
                    key: text::trim(key).to_owned(),
                    label: text::trim(label).to_owned(),
                    consequence: String::new(),
                    outcome: text::trim(outcome).to_owned(),
                    recommended: false,
                };
                proof {
                    assert(r.consequence@ =~= seq![]);
                }
                Ok(r)
            },
        },
    }
}

fn read_choices(choices: &[String]) -> (r: Result<Vec<AttentionChoice>, Error>)
    ensures
        match tokens::first_refusal(text::texts(choices@), token_refusal()) {
            Some(m) => text::refused(r, m),
            None => r is Ok && attention::choice_views(r->Ok_0@) == choices_of(
                text::texts(choices@),
            ),
        },
{
    let ghost all = text::texts(choices@);
    let ghost wanted = choices_of(all);
    let mut parsed: Vec<AttentionChoice> = Vec::new();
    let mut i: usize = 0;
    proof {
        assert(all.take(0) =~= Seq::<Seq<char>>::empty());
    }
    while i < choices.len()
        invariant
            i <= choices@.len(),
            all == text::texts(choices@),
            wanted == choices_of(all),
            tokens::first_refusal(all.take(i as int), token_refusal()) is None,
            attention::choice_views(parsed@) == wanted.take(i as int),
        decreases choices.len() - i,
    {
        proof {
            tokens::lemma_first_refusal_step(all, token_refusal(), i as int);
        }
        let ghost before = attention::choice_views(parsed@);
        match read_choice(choices[i].as_str()) {
            Err(e) => {
                proof {
                    tokens::lemma_first_refusal_stays(all, token_refusal(), i as int + 1);
                }
                return Err(e);
            },
            Ok(choice) => {
                parsed.push(choice);
                proof {
                    assert(attention::choice_views(parsed@) =~= before.push(choice@));
                    assert(wanted.take(i as int + 1) =~= wanted.take(i as int).push(
                        wanted[i as int],
                    ));
                }
            },
        }
        i = i + 1;
    }
    proof {
        assert(all.take(all.len() as int) =~= all);
        assert(wanted.take(wanted.len() as int) =~= wanted);
    }
    Ok(parsed)
}

// ---------------------------------------------------------------------- consequences

pub open spec fn undeclared(key: Seq<char>, choices: Seq<ChoiceView>) -> Seq<char> {
    "attention: no choice named "@ + key + "; declared keys are "@ + attention::key_list(choices)
}

/// A `KEY=TEXT` token gives the choice that it names its consequence.
pub open spec fn bind_consequence(choices: Seq<ChoiceView>, token: Seq<char>) -> Result<
    Seq<ChoiceView>,
    Seq<char>,
> {
    match tokens::parted(token, '=') {
        None => Err(
            "attention: --consequence "@ + outside::debug_text(token)
                + " must read KEY=TEXT, naming the choice it belongs to"@,
        ),
        Some((name, said)) => {
            let key = text::trimmed(name);
            let consequence = text::trimmed(said);
            let n = tables::first_index(choices, attention::has_key(key));
            if n >= choices.len() {
                Err(undeclared(key, choices))
            } else if choices[n].consequence.len() > 0 {
                Err(
                    "attention: choice "@ + key
                        + " is given two --consequence values; give one per choice"@,
                )
            } else if consequence.len() == 0 {
                Err(
                    "attention: choice "@ + key
                        + " has an empty --consequence; every choice must say what happens if it is picked"@,
                )
            } else {
                Ok(choices.update(n, ChoiceView { consequence, ..choices[n] }))
            }
        },
    }
}

pub open spec fn bind_consequences(
    choices: Seq<ChoiceView>,
    consequences: Seq<Seq<char>>,
) -> Result<Seq<ChoiceView>, Seq<char>>
    decreases consequences.len(),
{
    if consequences.len() == 0 {
        Ok(choices)
    } else {
        match bind_consequences(choices, consequences.drop_last()) {
            Err(m) => Err(m),
            Ok(bound) => bind_consequence(bound, consequences.last()),
        }
    }
}

proof fn lemma_bind_stays(choices: Seq<ChoiceView>, consequences: Seq<Seq<char>>, i: int)
    requires
        0 <= i <= consequences.len(),
        bind_consequences(choices, consequences.take(i)) is Err,
    ensures
        bind_consequences(choices, consequences) == bind_consequences(
            choices,
            consequences.take(i),
        ),
    decreases consequences.len() - i,
{
    if i < consequences.len() {
        assert(consequences.take(i + 1).drop_last() =~= consequences.take(i));
        lemma_bind_stays(choices, consequences, i + 1);
    } else {
        assert(consequences.take(i) =~= consequences);
    }
}

fn refuse_undeclared<T>(key: &str, choices: &[AttentionChoice]) -> (r: Result<T, Error>)
    ensures
        text::refused(r, undeclared(key@, attention::choice_views(choices@))),
{
    let list = attention::show_keys(choices);
    text::refuse(
        "attention: no choice named ".to_owned().concat(key).concat(
            "; declared keys are ",
        ).concat(list.as_str()),
    )
}

fn apply_consequence(choices: &mut Vec<AttentionChoice>, token: &str) -> (r: Result<(), Error>)
    ensures
        match bind_consequence(attention::choice_views(old(choices)@), token@) {
            Err(m) => text::refused(r, m),
            Ok(bound) => r is Ok && attention::choice_views(final(choices)@) == bound,
        },
{
    let ghost all = attention::choice_views(choices@);
    match tokens::split_once(token, '=') {
        None => {
            let shown = outside::debug(token);
            text::refuse(
                "attention: --consequence ".to_owned().concat(shown.as_str()).concat(
                    " must read KEY=TEXT, naming the choice it belongs to",
                ),
            )
        },
        Some((name, said)) => {
            let key = text::trim(name);
            let consequence = text::trim(said);
            let n: usize = attention::find_choice(choices.as_slice(), key);
            if n >= choices.len() {
                return refuse_undeclared(key, choices.as_slice());
            }
            if !choices[n].consequence.as_str().is_empty() {
                return text::refuse(
                    "attention: choice ".to_owned().concat(key).concat(
                        " is given two --consequence values; give one per choice",
                    ),
                );
            }
            if consequence.is_empty() {
                return text::refuse(
                    "attention: choice ".to_owned().concat(key).concat(
                        " has an empty --consequence; every choice must say what happens if it is picked",
                    ),
                );
            }
            let bound = AttentionChoice {
                key: choices[n].key.clone(),
                label: choices[n].label.clone(),
                consequence: consequence.to_owned(),
                outcome: choices[n].outcome.clone(),
                recommended: choices[n].recommended,
            };
            choices.set(n, bound);
            proof {
                assert(attention::choice_views(choices@) =~= all.update(
                    n as int,
                    ChoiceView { consequence: consequence@, ..all[n as int] },
                ));
            }
            Ok(())
        },
    }
}

fn apply_consequences(choices: &mut Vec<AttentionChoice>, consequences: &[String]) -> (r: Result<
    (),
    Error,
>)
    ensures
        match bind_consequences(
            attention::choice_views(old(choices)@),
            text::texts(consequences@),
        ) {
            Err(m) => text::refused(r, m),
            Ok(bound) => r is Ok && attention::choice_views(final(choices)@) == bound,
        },
{
    let ghost start = attention::choice_views(choices@);
    let ghost all = text::texts(consequences@);
    let mut i: usize = 0;
    proof {
        assert(all.take(0) =~= Seq::<Seq<char>>::empty());
    }
    while i < consequences.len()
        invariant
            i <= consequences@.len(),
            start == attention::choice_views(old(choices)@),
            all == text::texts(consequences@),
            bind_consequences(start, all.take(i as int)) == Ok::<_, Seq<char>>(
                attention::choice_views(choices@),
            ),
        decreases consequences.len() - i,
    {
        proof {
            assert(all.take(i as int + 1).drop_last() =~= all.take(i as int));
        }
        let one = apply_consequence(choices, consequences[i].as_str());
        if one.is_err() {
            proof {
                lemma_bind_stays(start, all, i as int + 1);
            }
            return one;
        }
        i = i + 1;
    }
    proof {
        assert(all.take(all.len() as int) =~= all);
    }
    Ok(())
}

pub open spec fn has_no_consequence() -> spec_fn(ChoiceView) -> bool {
    |c: ChoiceView| c.consequence.len() == 0
}

/// Every choice says what happens if it is picked.
pub open spec fn silent_refusal(choices: Seq<ChoiceView>) -> Option<Seq<char>> {
    let n = tables::first_index(choices, has_no_consequence());
    if n < choices.len() {
        Some(
            "attention: choice "@ + choices[n].key
                + " has no --consequence; every choice must say what happens if it is picked"@,
        )
    } else {
        None
    }
}

fn check_consequences(choices: &[AttentionChoice]) -> (r: Result<(), Error>)
    ensures
        match silent_refusal(attention::choice_views(choices@)) {
            Some(m) => text::refused(r, m),
            None => r is Ok,
        },
{
    let ghost all = attention::choice_views(choices@);
    let mut i: usize = 0;
    while i < choices.len() && !choices[i].consequence.as_str().is_empty()
        invariant
            i <= choices@.len(),
            all == attention::choice_views(choices@),
            forall|k: int| 0 <= k < i ==> !has_no_consequence()(#[trigger] all[k]),
        decreases choices.len() - i,
    {
        i = i + 1;
    }
    proof {
        tables::lemma_first_index_is(all, has_no_consequence(), i as int);
    }
    if i < choices.len() {
        return text::refuse(
            "attention: choice ".to_owned().concat(choices[i].key.as_str()).concat(
                " has no --consequence; every choice must say what happens if it is picked",
            ),
        );
    }
    Ok(())
}

// -------------------------------------------------------------------- recommendation

pub open spec fn recommended_at(choices: Seq<ChoiceView>, key: Seq<char>) -> Seq<ChoiceView> {
    choices.map_values(
        |c: ChoiceView|
            if c.key == key {
                ChoiceView { recommended: true, ..c }
            } else {
                c
            },
    )
}

/// The choice that `--recommend` names is marked.
pub open spec fn recommend_choice(choices: Seq<ChoiceView>, name: Option<Seq<char>>) -> Result<
    Seq<ChoiceView>,
    Seq<char>,
> {
    match name {
        None => Ok(choices),
        Some(named) => {
            let key = text::trimmed(named);
            if choices.len() == 0 {
                Err("attention: --recommend needs choices; give --choice or drop it"@)
            } else if tables::first_index(choices, attention::has_key(key)) >= choices.len() {
                Err(undeclared(key, choices))
            } else {
                Ok(recommended_at(choices, key))
            }
        },
    }
}

fn mark_recommended(choices: Vec<AttentionChoice>, key: &str) -> (r: Vec<AttentionChoice>)
    ensures
        attention::choice_views(r@) == recommended_at(attention::choice_views(choices@), key@),
{
    let ghost wanted = recommended_at(attention::choice_views(choices@), key@);
    let mut out: Vec<AttentionChoice> = Vec::new();
    let mut i: usize = 0;
    while i < choices.len()
        invariant
            i <= choices@.len(),
            wanted == recommended_at(attention::choice_views(choices@), key@),
            attention::choice_views(out@) == wanted.take(i as int),
        decreases choices.len() - i,
    {
        let ghost before = attention::choice_views(out@);
        let marked = AttentionChoice {
            key: choices[i].key.clone(),
            label: choices[i].label.clone(),
            consequence: choices[i].consequence.clone(),
            outcome: choices[i].outcome.clone(),
            recommended: choices[i].recommended || text::same(choices[i].key.as_str(), key),
        };
        out.push(marked);
        proof {
            assert(attention::choice_views(out@) =~= before.push(marked@));
            assert(wanted.take(i as int + 1) =~= wanted.take(i as int).push(wanted[i as int]));
        }
        i = i + 1;
    }
    proof {
        assert(wanted.take(wanted.len() as int) =~= wanted);
    }
    out
}

fn apply_recommendation(choices: Vec<AttentionChoice>, name: Option<&str>) -> (r: Result<
    Vec<AttentionChoice>,
    Error,
>)
    ensures
        match recommend_choice(attention::choice_views(choices@), text::str_of(name)) {
            Err(m) => text::refused(r, m),
            Ok(marked) => r is Ok && attention::choice_views(r->Ok_0@) == marked,
        },
{
    match name {
        None => Ok(choices),
        Some(named) => {
            let key = text::trim(named);
            if choices.len() == 0 {
                return text::refuse(
                    "attention: --recommend needs choices; give --choice or drop it".to_owned(),
                );
            }
            if attention::find_choice(choices.as_slice(), key) >= choices.len() {
                return refuse_undeclared(key, choices.as_slice());
            }
            Ok(mark_recommended(choices, key))
        },
    }
}

// ---------------------------------------------------------------------------- a card

pub open spec fn trimmed_option(o: Option<Seq<char>>) -> Option<Seq<char>> {
    match o {
        Some(s) => Some(text::trimmed(s)),
        None => None,
    }
}

/// The card that the tokens make, or what they are refused with.
pub open spec fn card_of(
    question: Option<Seq<char>>,
    context: Option<Seq<char>>,
    choices: Seq<Seq<char>>,
    consequences: Seq<Seq<char>>,
    recommend: Option<Seq<char>>,
) -> Result<CardView, Seq<char>> {
    let declared = choices_of(choices);
    if tokens::first_refusal(choices, token_refusal()) is Some {
        Err(tokens::first_refusal(choices, token_refusal())->0)
    } else if attention::keys_refusal(declared) is Some {
        Err(attention::keys_refusal(declared)->0)
    } else {
        match bind_consequences(declared, consequences) {
            Err(m) => Err(m),
            Ok(bound) => if silent_refusal(bound) is Some {
                Err(silent_refusal(bound)->0)
            } else {
                match recommend_choice(bound, recommend) {
                    Err(m) => Err(m),
                    Ok(marked) => {
                        let card = CardView {
                            question: trimmed_option(question),
                            context: trimmed_option(context),
                            choices: marked,
                        };
                        match attention::card_refusal(card) {
                            Some(m) => Err(m),
                            None => Ok(card),
                        }
                    },
                }
            },
        }
    }
}

fn own_trimmed(o: Option<&str>) -> (r: Option<String>)
    ensures
        text::text_of(r) == trimmed_option(text::str_of(o)),
{
    match o {
        Some(s) => Some(text::trim(s).to_owned()),
        None => None,
    }
}

impl DecisionCard {
    /// Binds the tokens into a card, and validates it. A choice token splits at its
    /// first `=` and its last `|`, so a label may hold `=` and may not hold `|`; a
    /// consequence is a sentence of its own.
    pub fn parse(
        question: Option<&str>,
        context: Option<&str>,
        choices: &[String],
        consequences: &[String],
        recommend: Option<&str>,
    ) -> (r: Result<Self, Error>)
        ensures
            match card_of(
                text::str_of(question),
                text::str_of(context),
                text::texts(choices@),
                text::texts(consequences@),
                text::str_of(recommend),
            ) {
                Err(m) => text::refused(r, m),
                Ok(card) => r is Ok && r->Ok_0@ == card,
            },
    {
        let mut parsed = read_choices(choices)?;
        attention::unique_keys(parsed.as_slice())?;
        apply_consequences(&mut parsed, consequences)?;
        check_consequences(parsed.as_slice())?;
        let marked = apply_recommendation(parsed, recommend)?;
        let card = DecisionCard {
            question: own_trimmed(question),
            context: own_trimmed(context),
            choices: marked,
        };
        card.validate()?;
        Ok(card)
    }
}

// -------------------------------------------------------------------------- an answer

/// What settling an item recorded.
#[derive(Debug, Clone, PartialEq, Eq)]
pub struct AttentionDecision {
    pub choice: String,
    pub outcome: String,
    pub note: Option<String>,
    pub by: String,
    pub at: i64,
}

/// What a decision says.
pub struct DecisionView {
    pub choice: Seq<char>,
    pub outcome: Seq<char>,
    pub note: Option<Seq<char>>,
    pub by: Seq<char>,
    pub at: i64,
}

impl View for AttentionDecision {
    type V = DecisionView;

    open spec fn view(&self) -> DecisionView {
        DecisionView {
            choice: self.choice@,
            outcome: self.outcome@,
            note: text::text_of(self.note),
            by: self.by@,
            at: self.at,
        }
    }
}

/// What settles an item: an authored choice by its key, or the custom answer with a
/// verdict of its own and a note.
#[derive(Debug, Clone, Copy)]
pub struct AttentionAnswer<'a> {
    pub choice: Option<&'a str>,
    pub outcome: Option<&'a str>,
    pub note: Option<&'a str>,
}

impl<'a> Default for AttentionAnswer<'a> {
    fn default() -> (r: Self)
        ensures
            r.choice is None,
            r.outcome is None,
            r.note is None,
    {
        AttentionAnswer { choice: None, outcome: None, note: None }
    }
}

/// What an answer says.
pub struct AnswerView {
    pub choice: Option<Seq<char>>,
    pub outcome: Option<Seq<char>>,
    pub note: Option<Seq<char>>,
}

impl<'a> View for AttentionAnswer<'a> {
    type V = AnswerView;

    open spec fn view(&self) -> AnswerView {
        AnswerView {
            choice: text::str_of(self.choice),
            outcome: text::str_of(self.outcome),
            note: text::str_of(self.note),
        }
    }
}

/// A text with a note on a line of its own.
pub open spec fn with_note(s: Seq<char>, note: Option<Seq<char>>) -> Seq<char> {
    match note {
        Some(n) => s + "\nNote: "@ + n,
        None => s,
    }
}

/// The custom answer's decision and resolution.
pub open spec fn custom_decision(answer: AnswerView, by: Seq<char>, at: i64) -> Result<
    (DecisionView, Seq<char>),
    Seq<char>,
> {
    match (tokens::given(answer.outcome), tokens::given(answer.note)) {
        (Some(outcome), Some(note)) => if attention::outcomes().contains(outcome) {
            Ok(
                (
                    DecisionView {
                        choice: CUSTOM_CHOICE@,
                        outcome,
                        note: Some(note),
                        by,
                        at,
                    },
                    with_note(
                        "Decision: Custom answer, recorded as "@ + outcome + "."@,
                        Some(note),
                    ),
                ),
            )
        } else {
            Err(
                "attention: --outcome "@ + outcome + " is not a verdict; an outcome is one of "@
                    + attention::outcome_words(),
            )
        },
        _ => Err(
            "attention: a custom answer needs --outcome ("@ + text::joined(
                attention::outcomes(),
                ", "@,
            ) + ") and --note"@,
        ),
    }
}

/// The decision that an answer records against the choices of a row, and the
/// resolution that it composes.
pub open spec fn decision_of(
    answer: AnswerView,
    id: Seq<char>,
    choices: Seq<ChoiceView>,
    by: Seq<char>,
    at: i64,
) -> Result<(DecisionView, Seq<char>), Seq<char>> {
    match tokens::given(answer.choice) {
        None => Err(
            "attention resolve requires --choice KEY or --choice custom --outcome X --note TEXT"@,
        ),
        Some(key) => {
            let n = tables::first_index(choices, attention::has_key(key));
            let note = tokens::given(answer.note);
            if key == CUSTOM_CHOICE@ {
                custom_decision(answer, by, at)
            } else if tokens::given(answer.outcome) is Some {
                Err(
                    "attention: --outcome applies only to --choice custom; an authored choice carries its own outcome"@,
                )
            } else if n >= choices.len() {
                Err(
                    "attention "@ + id + " has no choice "@ + key + "; its choices are "@
                        + attention::key_list(choices),
                )
            } else {
                Ok(
                    (
                        DecisionView {
                            choice: choices[n].key,
                            outcome: choices[n].outcome,
                            note,
                            by,
                            at,
                        },
                        with_note(
                            "Decision: "@ + choices[n].label + ". "@ + choices[n].consequence,
                            note,
                        ),
                    ),
                )
            }
        },
    }
}

pub open spec fn is_decided(
    r: Result<(AttentionDecision, String), Error>,
    wanted: Result<(DecisionView, Seq<char>), Seq<char>>,
) -> bool {
    match wanted {
        Err(m) => text::refused(r, m),
        Ok((decision, resolution)) => r is Ok && r->Ok_0.0@ == decision && (r->Ok_0.1)@
            == resolution,
    }
}

impl<'a> AttentionAnswer<'a> {
    /// The custom answer, which every item offers and which carries a verdict and a
    /// note.
    pub fn custom(outcome: &'a str, note: &'a str) -> (r: Self)
        ensures
            r@ == (AnswerView {
                choice: Some(CUSTOM_CHOICE@),
                outcome: Some(outcome@),
                note: Some(note@),
            }),
    {
        AttentionAnswer { choice: Some(CUSTOM_CHOICE), outcome: Some(outcome), note: Some(note) }
    }

    fn decide_custom(&self, by: &str, at: i64) -> (r: Result<(AttentionDecision, String), Error>)
        ensures
            is_decided(r, custom_decision(self@, by@, at)),
    {
        match (tokens::given_text(self.outcome), tokens::given_text(self.note)) {
            (Some(outcome), Some(note)) => {
                if !tokens::is_one_of(outcome, ATTENTION_OUTCOMES.as_slice()) {
                    let list = attention::outcome_list();
                    return text::refuse(
                        "attention: --outcome ".to_owned().concat(outcome).concat(
                            " is not a verdict; an outcome is one of ",
                        ).concat(list.as_str()),
                    );
                }
                let resolution = "Decision: Custom answer, recorded as ".to_owned().concat(
                    outcome,
                ).concat(".").concat("\nNote: ").concat(note);
                Ok(
                    (
                        AttentionDecision {
                            choice: CUSTOM_CHOICE.to_owned(),
                            outcome: outcome.to_owned(),
                            note: Some(note.to_owned()),
                            by: by.to_owned(),
                            at,
                        },
                        resolution,
                    ),
                )
            },
            _ => {
                let words = tokens::own_words(ATTENTION_OUTCOMES.as_slice());
                let list = text::join(words.as_slice(), ", ");
                text::refuse(
                    "attention: a custom answer needs --outcome (".to_owned().concat(
                        list.as_str(),
                    ).concat(") and --note"),
                )
            },
        }
    }

    /// The decision that this answer records against the choices of a row, and the
    /// resolution text that it composes.
    pub fn decide(&self, id: &str, choices: &[AttentionChoice], by: &str, at: i64) -> (r: Result<
        (AttentionDecision, String),
        Error,
    >)
        ensures
            is_decided(
                r,
                decision_of(self@, id@, attention::choice_views(choices@), by@, at),
            ),
    {
        match tokens::given_text(self.choice) {
            None => text::refuse(
                "attention resolve requires --choice KEY or --choice custom --outcome X --note TEXT".to_owned(),
            ),
            Some(key) => {
                if text::same(key, CUSTOM_CHOICE) {
                    return self.decide_custom(by, at);
                }
                if tokens::given_text(self.outcome).is_some() {
                    return text::refuse(
                        "attention: --outcome applies only to --choice custom; an authored choice carries its own outcome".to_owned(),
                    );
                }
                let n: usize = attention::find_choice(choices, key);
                if n >= choices.len() {
                    let list = attention::show_keys(choices);
                    return text::refuse(
                        "attention ".to_owned().concat(id).concat(" has no choice ").concat(
                            key,
                        ).concat("; its choices are ").concat(list.as_str()),
                    );
                }
                let choice = &choices[n];
                let head = "Decision: ".to_owned().concat(choice.label.as_str()).concat(
                    ". ",
                ).concat(choice.consequence.as_str());
                let (note, resolution) = match tokens::given_text(self.note) {
                    Some(note) => (Some(note.to_owned()), head.concat("\nNote: ").concat(note)),
                    None => (None, head),
                };
                Ok(
                    (
                        AttentionDecision {
                            choice: choice.key.clone(),
                            outcome: choice.outcome.clone(),
                            note,
                            by: by.to_owned(),
                            at,
                        },
                        resolution,
                    ),
                )
            },
        }
    }
}

/// One attention row as it is read: the choices on offer are never empty.
#[derive(Debug, Clone)]
pub struct Attention {
    pub id: String,
    pub task_id: Option<String>,
    pub kind: String,
    pub body: String,
    pub question: Option<String>,
    pub context: Option<String>,
    pub choices: Vec<AttentionChoice>,
    pub raised_by: String,
    pub created_at: i64,
    pub status: String,
    pub priority: i64,
    pub priority_level: Option<String>,
    pub resolved_at: Option<i64>,
    pub resolved_by: Option<String>,
    pub resolution: Option<String>,
    pub decision: Option<AttentionDecision>,
    pub reopened_at: Option<i64>,
    pub reopened_by: Option<String>,
    pub reopen_note: Option<String>,
    pub archived: bool,
    pub tags: Vec<String>,
}

// ------------------------------------------------------------------------------ laws

/// A card that was read passes validation.
pub proof fn law_read_card_is_valid(
    question: Option<Seq<char>>,
    context: Option<Seq<char>>,
    choices: Seq<Seq<char>>,
    consequences: Seq<Seq<char>>,
    recommend: Option<Seq<char>>,
)
    requires
        card_of(question, context, choices, consequences, recommend) is Ok,
    ensures
        attention::card_refusal(
            card_of(question, context, choices, consequences, recommend)->Ok_0,
        ) is None,
{
}

/// A valid card with choices has two to four of them, with distinct slugs for keys
/// none of which is reserved, known verdicts and exactly one recommendation.
pub proof fn law_valid_card(card: CardView)
    requires
        attention::card_refusal(card) is None,
        card.choices.len() > 0,
    ensures
        2 <= card.choices.len() <= 4,
        attention::keys_of(card.choices).no_duplicates(),
        forall|i: int|
            0 <= i < card.choices.len() ==> tokens::is_slug((#[trigger] card.choices[i]).key)
                && card.choices[i].key != CUSTOM_CHOICE@ && attention::outcomes().contains(
                card.choices[i].outcome,
            ) && card.choices[i].label.len() > 0 && card.choices[i].consequence.len() > 0,
        tables::kept(card.choices, attention::is_recommended()).len() == 1,
{
    attention::lemma_repeated_key(card.choices);
    tokens::lemma_first_refusal(card.choices, attention::choice_refusal());
    assert forall|i: int| 0 <= i < card.choices.len() implies tokens::is_slug(
        (#[trigger] card.choices[i]).key,
    ) && card.choices[i].key != CUSTOM_CHOICE@ && attention::outcomes().contains(
        card.choices[i].outcome,
    ) && card.choices[i].label.len() > 0 && card.choices[i].consequence.len() > 0 by {
        assert(attention::choice_refusal()(card.choices[i]) is None);
    }
}

/// Whatever a valid card is settled with, the verdict is a known one and the recorded
/// choice is an authored key or the reserved one.
pub proof fn law_decision_has_a_known_verdict(
    answer: AnswerView,
    id: Seq<char>,
    card: CardView,
    by: Seq<char>,
    at: i64,
)
    requires
        attention::card_refusal(card) is None,
        decision_of(answer, id, card.choices, by, at) is Ok,
    ensures
        ({
            let (decision, _) = decision_of(answer, id, card.choices, by, at)->Ok_0;
            &&& attention::outcomes().contains(decision.outcome)
            &&& decision.choice == CUSTOM_CHOICE@ || attention::keys_of(card.choices).contains(
                decision.choice,
            )
            &&& decision.by == by
            &&& decision.at == at
        }),
{
    let key = tokens::given(answer.choice)->0;
    if key != CUSTOM_CHOICE@ {
        let n = tables::first_index(card.choices, attention::has_key(key));
        tables::lemma_first_index(card.choices, attention::has_key(key));
        law_valid_card(card);
        assert(attention::keys_of(card.choices)[n] == card.choices[n].key);
    }
}

/// Each authored choice can be picked by its key, and carries its own verdict.
pub proof fn law_authored_choice_can_be_picked(
    id: Seq<char>,
    card: CardView,
    i: int,
    note: Option<Seq<char>>,
    by: Seq<char>,
    at: i64,
)
    requires
        attention::card_refusal(card) is None,
        0 <= i < card.choices.len(),
    ensures
        ({
            let picked = card.choices[i];
            decision_of(
                AnswerView { choice: Some(picked.key), outcome: None, note },
                id,
                card.choices,
                by,
                at,
            ) == Ok::<(DecisionView, Seq<char>), Seq<char>>(
                (
                    DecisionView {
                        choice: picked.key,
                        outcome: picked.outcome,
                        note: tokens::given(note),
                        by,
                        at,
                    },
                    with_note(
                        "Decision: "@ + picked.label + ". "@ + picked.consequence,
                        tokens::given(note),
                    ),
                ),
            )
        }),
{
    law_valid_card(card);
    let key = card.choices[i].key;
    tokens::lemma_slug_trimmed(key);
    let p = attention::has_key(key);
    tables::lemma_first_index(card.choices, p);
    let n = tables::first_index(card.choices, p);
    assert(p(card.choices[i]));
    let keys = attention::keys_of(card.choices);
    assert(keys[n] == keys[i]);
}

/// Every item offers the custom answer, whatever its choices are: with a known verdict
/// and a note it always settles the item.
pub proof fn law_custom_answer_is_always_offered(
    outcome: Seq<char>,
    note: Seq<char>,
    id: Seq<char>,
    choices: Seq<ChoiceView>,
    by: Seq<char>,
    at: i64,
)
    requires
        attention::outcomes().contains(text::trimmed(outcome)),
        !text::is_blank(note),
    ensures
        decision_of(
            AnswerView {
                choice: Some(CUSTOM_CHOICE@),
                outcome: Some(outcome),
                note: Some(note),
            },
            id,
            choices,
            by,
            at,
        ) == Ok::<(DecisionView, Seq<char>), Seq<char>>(
            (
                DecisionView {
                    choice: CUSTOM_CHOICE@,
                    outcome: text::trimmed(outcome),
                    note: Some(text::trimmed(note)),
                    by,
                    at,
                },
                "Decision: Custom answer, recorded as "@ + text::trimmed(outcome) + "."@
                    + "\nNote: "@ + text::trimmed(note),
            ),
        ),
{
    text::lemma_trimmed_blank(note);
    reveal_strlit("custom");
    reveal_strlit("approve");
    reveal_strlit("reject");
    reveal_strlit("defer");
    reveal_strlit("other");
    tokens::lemma_trimmed_already("custom"@);
    let words = attention::outcomes();
    let k = choose|k: int| 0 <= k < words.len() && words[k] == text::trimmed(outcome);
    assert(words[0] == "approve"@ && words[1] == "reject"@ && words[2] == "defer"@ && words[3]
        == "other"@);
    assert(words[k].len() > 0);
}

} // verus!
