//! What needs the operator: the card that asks, and the answer that settles it.

use vstd::prelude::*;

use crate::json;
use crate::outside;
use crate::tables;
use crate::text;
use crate::text::Error;
use crate::tokens;

verus! {

/// The one actor who may settle or reopen anyone's attention item, and whom the
/// browser acts as where no actor is configured.
pub const OPERATOR_ACTOR: &'static str = "geoyws";

/// The kinds of thing that can need the operator.
pub const ATTENTION_KINDS: [&'static str; 5] = [
    "blocking",
    "decision",
    "approval",
    "review",
    "risk",
];

/// The statuses of an attention row; a resolved one is closed until reopened.
pub const ATTENTION_STATUSES: [&'static str; 2] = ["open", "resolved"];

/// The verdicts that a choice can carry.
pub const ATTENTION_OUTCOMES: [&'static str; 4] = ["approve", "reject", "defer", "other"];

/// The reserved key of the free-text answer that every item offers.
pub const CUSTOM_CHOICE: &'static str = "custom";

pub const QUESTION_MAX: usize = 160;

pub const CONTEXT_MAX: usize = 800;

pub const LABEL_MAX: usize = 60;

pub const CONSEQUENCE_MAX: usize = 200;

// --------------------------------------------------------------------------- choices

/// One authored answer to the question of an attention item.
#[derive(Debug, Clone, PartialEq, Eq)]
pub struct AttentionChoice {
    pub key: String,
    pub label: String,
    pub consequence: String,
    pub outcome: String,
    pub recommended: bool,
}

/// What a choice says.
pub struct ChoiceView {
    pub key: Seq<char>,
    pub label: Seq<char>,
    pub consequence: Seq<char>,
    pub outcome: Seq<char>,
    pub recommended: bool,
}

impl View for AttentionChoice {
    type V = ChoiceView;

    open spec fn view(&self) -> ChoiceView {
        ChoiceView {
            key: self.key@,
            label: self.label@,
            consequence: self.consequence@,
            outcome: self.outcome@,
            recommended: self.recommended,
        }
    }
}

pub open spec fn choice_views(s: Seq<AttentionChoice>) -> Seq<ChoiceView> {
    s.map_values(|c: AttentionChoice| c@)
}

pub open spec fn keys_of(s: Seq<ChoiceView>) -> Seq<Seq<char>> {
    s.map_values(|c: ChoiceView| c.key)
}

pub open spec fn has_key(key: Seq<char>) -> spec_fn(ChoiceView) -> bool {
    |c: ChoiceView| c.key == key
}

pub open spec fn is_recommended() -> spec_fn(ChoiceView) -> bool {
    |c: ChoiceView| c.recommended
}

/// The keys, in a row.
pub open spec fn key_list(s: Seq<ChoiceView>) -> Seq<char> {
    text::joined(keys_of(s), ", "@)
}

pub open spec fn outcomes() -> Seq<Seq<char>> {
    tokens::words_of(ATTENTION_OUTCOMES@)
}

/// The verdicts in words: all but the last in a row, then the last.
pub open spec fn outcome_words() -> Seq<char> {
    text::joined(outcomes().drop_last(), ", "@) + ", or "@ + outcomes().last()
}

/// The verdicts in words, for a refusal that names them.
pub fn outcome_list() -> (r: String)
    ensures
        r@ == outcome_words(),
{
    let mut words = tokens::own_words(ATTENTION_OUTCOMES.as_slice());
    let ghost all = text::texts(words@);
    proof {
        assert(all.len() == 4);
    }
    let last = words.pop();
    proof {
        assert(text::texts(words@) =~= all.drop_last());
        assert(last is Some && last->Some_0@ == all.last());
    }
    let head = text::join(words.as_slice(), ", ");
    match last {
        Some(word) => head.concat(", or ").concat(word.as_str()),
        None => head,
    }
}

/// The index of the first choice with a key, or the number of choices.
pub(crate) fn find_choice(choices: &[AttentionChoice], key: &str) -> (r: usize)
    ensures
        r == tables::first_index(choice_views(choices@), has_key(key@)),
        r <= choices@.len(),
{
    let ghost all = choice_views(choices@);
    let mut i: usize = 0;
    while i < choices.len() && !text::same(choices[i].key.as_str(), key)
        invariant
            i <= choices@.len(),
            all == choice_views(choices@),
            forall|k: int| 0 <= k < i ==> !has_key(key@)(#[trigger] all[k]),
        decreases choices.len() - i,
    {
        i = i + 1;
    }
    proof {
        tables::lemma_first_index_is(all, has_key(key@), i as int);
    }
    i
}

pub(crate) fn show_keys(choices: &[AttentionChoice]) -> (r: String)
    ensures
        r@ == key_list(choice_views(choices@)),
{
    let ghost wanted = keys_of(choice_views(choices@));
    let mut keys: Vec<String> = Vec::new();
    let mut i: usize = 0;
    while i < choices.len()
        invariant
            i <= choices@.len(),
            wanted == keys_of(choice_views(choices@)),
            text::texts(keys@) == wanted.take(i as int),
        decreases choices.len() - i,
    {
        let ghost before = text::texts(keys@);
        let key = choices[i].key.clone();
        keys.push(key);
        proof {
            assert(text::texts(keys@) =~= before.push(key@));
            assert(wanted.take(i as int + 1) =~= wanted.take(i as int).push(wanted[i as int]));
        }
        i = i + 1;
    }
    proof {
        assert(wanted.take(wanted.len() as int) =~= wanted);
    }
    text::join(keys.as_slice(), ", ")
}

pub open spec fn pair_views() -> Seq<ChoiceView> {
    seq![
        ChoiceView {
            key: "approve"@,
            label: "Approve - proceed"@,
            consequence: "The work the body describes goes ahead as written."@,
            outcome: "approve"@,
            recommended: false,
        },
        ChoiceView {
            key: "reject"@,
            label: "Reject - do not proceed"@,
            consequence:
                "The work the body describes does not happen; whoever raised it needs a new plan."@,
            outcome: "reject"@,
            recommended: false,
        },
    ]
}

/// The pair of choices that a row without authored ones is served as. Nobody authored
/// it, so nothing is recommended.
pub fn default_choice_pair() -> (r: Vec<AttentionChoice>)
    ensures
        choice_views(r@) == pair_views(),
{
    let r = vec![
        AttentionChoice {
            key: "approve".to_owned(),
            label: "Approve - proceed".to_owned(),
            consequence: "The work the body describes goes ahead as written.".to_owned(),
            outcome: "approve".to_owned(),
            recommended: false,
        },
        AttentionChoice {
            key: "reject".to_owned(),
            label: "Reject - do not proceed".to_owned(),
            consequence:
                "The work the body describes does not happen; whoever raised it needs a new plan.".to_owned(),
            outcome: "reject".to_owned(),
            recommended: false,
        },
    ];
    proof {
        assert(choice_views(r@) =~= pair_views());
    }
    r
}

// ------------------------------------------------------------------------ validation

/// The first choice whose key an earlier one has.
pub open spec fn repeated_key(s: Seq<ChoiceView>) -> Option<Seq<char>>
    decreases s.len(),
{
    if s.len() == 0 {
        None
    } else {
        match repeated_key(s.drop_last()) {
            Some(key) => Some(key),
            None => if keys_of(s.drop_last()).contains(s.last().key) {
                Some(s.last().key)
            } else {
                None
            },
        }
    }
}

pub open spec fn keys_refusal(s: Seq<ChoiceView>) -> Option<Seq<char>> {
    match repeated_key(s) {
        Some(key) => Some(
            "attention: choice key "@ + key
                + " is given twice; keys must be unique within an item"@,
        ),
        None => None,
    }
}

proof fn lemma_repeated_stays(s: Seq<ChoiceView>, i: int)
    requires
        0 <= i <= s.len(),
        repeated_key(s.take(i)) is Some,
    ensures
        repeated_key(s) == repeated_key(s.take(i)),
    decreases s.len() - i,
{
    if i < s.len() {
        assert(s.take(i + 1).drop_last() =~= s.take(i));
        lemma_repeated_stays(s, i + 1);
    } else {
        assert(s.take(i) =~= s);
    }
}

/// No key occurs twice exactly where none is repeated.
pub proof fn lemma_repeated_key(s: Seq<ChoiceView>)
    ensures
        repeated_key(s) is None <==> keys_of(s).no_duplicates(),
    decreases s.len(),
{
    if s.len() > 0 {
        let rest = s.drop_last();
        let keys = keys_of(s);
        lemma_repeated_key(rest);
        assert(keys_of(rest) =~= keys.drop_last());
        if repeated_key(s) is None {
            assert forall|i: int, j: int| 0 <= i < j < keys.len() implies keys[i] != keys[j] by {
                assert(keys[i] == keys_of(rest)[i]);
                if j < rest.len() {
                    assert(keys[j] == keys_of(rest)[j]);
                } else {
                    assert(keys_of(rest).contains(keys_of(rest)[i]));
                }
            }
        }
        if keys.no_duplicates() {
            assert(keys_of(rest).no_duplicates());
            if keys_of(rest).contains(s.last().key) {
                let i = choose|i: int|
                    0 <= i < keys_of(rest).len() && keys_of(rest)[i] == s.last().key;
                assert(keys[i] == keys[s.len() - 1]);
            }
        }
    }
}

/// Keys are unique within an item: a choice is named by its key everywhere.
pub fn unique_keys(choices: &[AttentionChoice]) -> (r: Result<(), Error>)
    ensures
        match keys_refusal(choice_views(choices@)) {
            Some(m) => text::refused(r, m),
            None => r is Ok,
        },
{
    let ghost all = choice_views(choices@);
    let mut i: usize = 0;
    proof {
        assert(all.take(0) =~= Seq::<ChoiceView>::empty());
    }
    while i < choices.len()
        invariant
            i <= choices@.len(),
            all == choice_views(choices@),
            repeated_key(all.take(i as int)) is None,
        decreases choices.len() - i,
    {
        let earlier: usize = find_choice(choices, choices[i].key.as_str());
        proof {
            let key = all[i as int].key;
            let p = has_key(key);
            let before = all.take(i as int);
            tables::lemma_first_index(all, p);
            assert(p(all[i as int]));
            assert(all.take(i as int + 1).drop_last() =~= before);
            if earlier < i {
                assert(keys_of(before)[earlier as int] == key);
            } else if keys_of(before).contains(key) {
                let k = choose|k: int| 0 <= k < keys_of(before).len() && keys_of(before)[k] == key;
                assert(!p(all[k]));
            }
        }
        if earlier < i {
            proof {
                lemma_repeated_stays(all, i as int + 1);
            }
            return text::refuse(
                "attention: choice key ".to_owned().concat(choices[i].key.as_str()).concat(
                    " is given twice; keys must be unique within an item",
                ),
            );
        }
        i = i + 1;
    }
    proof {
        assert(all.take(all.len() as int) =~= all);
    }
    Ok(())
}

pub open spec fn bound_refusal(value: Seq<char>, field: Seq<char>, max: usize) -> Option<
    Seq<char>,
> {
    if value.len() == 0 {
        Some("attention: "@ + field + " is empty; give it a value or drop it"@)
    } else if value.len() > max {
        Some(
            "attention: "@ + field + " is "@ + text::digits(value.len())
                + " characters; the bound is "@ + text::digits(max as nat),
        )
    } else {
        None
    }
}

/// The bound on a field, in characters.
pub fn bounded(value: &str, field: &str, max: usize) -> (r: Result<(), Error>)
    ensures
        match bound_refusal(value@, field@, max) {
            Some(m) => text::refused(r, m),
            None => r is Ok,
        },
{
    let length: usize = value.unicode_len();
    if length == 0 {
        return text::refuse(
            "attention: ".to_owned().concat(field).concat(
                " is empty; give it a value or drop it",
            ),
        );
    }
    if length > max {
        let got = text::show_u64(length as u64);
        let bound = text::show_u64(max as u64);
        return text::refuse(
            "attention: ".to_owned().concat(field).concat(" is ").concat(got.as_str()).concat(
                " characters; the bound is ",
            ).concat(bound.as_str()),
        );
    }
    Ok(())
}

pub open spec fn key_refusal(key: Seq<char>) -> Option<Seq<char>> {
    if tokens::is_slug(key) {
        None
    } else {
        Some(
            "attention: choice key "@ + outside::debug_text(key)
                + " is not a slug; a key matches [a-z0-9][a-z0-9-]{0,31} so it stays typeable in argv, a form POST and the ledger"@,
        )
    }
}

/// A key is a slug.
pub fn valid_key(key: &str) -> (r: Result<(), Error>)
    ensures
        match key_refusal(key@) {
            Some(m) => text::refused(r, m),
            None => r is Ok,
        },
{
    if tokens::slug(key) {
        return Ok(());
    }
    let shown = outside::debug(key);
    text::refuse(
        "attention: choice key ".to_owned().concat(shown.as_str()).concat(
            " is not a slug; a key matches [a-z0-9][a-z0-9-]{0,31} so it stays typeable in argv, a form POST and the ledger",
        ),
    )
}

pub open spec fn choice_refusal() -> spec_fn(ChoiceView) -> Option<Seq<char>> {
    |c: ChoiceView|
        {
            let label = bound_refusal(c.label, "choice "@ + c.key + " label"@, LABEL_MAX);
            let consequence = bound_refusal(
                c.consequence,
                "choice "@ + c.key + " consequence"@,
                CONSEQUENCE_MAX,
            );
            if key_refusal(c.key) is Some {
                key_refusal(c.key)
            } else if c.key == CUSTOM_CHOICE@ {
                Some(
                    "attention: custom is reserved for the free-text answer and cannot be a choice key"@,
                )
            } else if label is Some {
                label
            } else if c.label.contains('|') {
                Some(
                    "attention: choice "@ + c.key
                        + " label contains '|', which separates the label from the outcome in --choice KEY=LABEL|OUTCOME; write the label without it"@,
                )
            } else if consequence is Some {
                consequence
            } else if !outcomes().contains(c.outcome) {
                Some(
                    "attention: choice "@ + c.key + " has outcome "@ + c.outcome
                        + "; an outcome is one of "@ + outcome_words(),
                )
            } else {
                None
            }
        }
}

fn has_bar(s: &str) -> (r: bool)
    ensures
        r == s@.contains('|'),
{
    let cs = text::chars_of(s);
    proof {
        assert(cs@.skip(0) =~= cs@);
        text::lemma_find_char(s@, '|');
    }
    let at: usize = text::find_from(cs.as_slice(), 0, '|');
    proof {
        if at < cs@.len() {
            assert(s@[at as int] == '|');
        } else if s@.contains('|') {
            let k = choose|k: int| 0 <= k < s@.len() && s@[k] == '|';
            assert(s@[k] != '|');
        }
    }
    at < cs.len()
}

/// What one choice has to keep to.
pub fn valid_choice(choice: &AttentionChoice) -> (r: Result<(), Error>)
    ensures
        match choice_refusal()(choice@) {
            Some(m) => text::refused(r, m),
            None => r is Ok,
        },
{
    let key = choice.key.as_str();
    valid_key(key)?;
    if text::same(key, CUSTOM_CHOICE) {
        return text::refuse(
            "attention: custom is reserved for the free-text answer and cannot be a choice key".to_owned(),
        );
    }
    let field = "choice ".to_owned().concat(key).concat(" label");
    bounded(choice.label.as_str(), field.as_str(), LABEL_MAX)?;
    if has_bar(choice.label.as_str()) {
        return text::refuse(
            "attention: choice ".to_owned().concat(key).concat(
                " label contains '|', which separates the label from the outcome in --choice KEY=LABEL|OUTCOME; write the label without it",
            ),
        );
    }
    let field = "choice ".to_owned().concat(key).concat(" consequence");
    bounded(choice.consequence.as_str(), field.as_str(), CONSEQUENCE_MAX)?;
    if !tokens::is_one_of(choice.outcome.as_str(), ATTENTION_OUTCOMES.as_slice()) {
        let list = outcome_list();
        return text::refuse(
            "attention: choice ".to_owned().concat(key).concat(" has outcome ").concat(
                choice.outcome.as_str(),
            ).concat("; an outcome is one of ").concat(list.as_str()),
        );
    }
    Ok(())
}

fn valid_choices(choices: &[AttentionChoice]) -> (r: Result<(), Error>)
    ensures
        match tokens::first_refusal(choice_views(choices@), choice_refusal()) {
            Some(m) => text::refused(r, m),
            None => r is Ok,
        },
{
    let ghost all = choice_views(choices@);
    let mut i: usize = 0;
    proof {
        assert(all.take(0) =~= Seq::<ChoiceView>::empty());
    }
    while i < choices.len()
        invariant
            i <= choices@.len(),
            all == choice_views(choices@),
            tokens::first_refusal(all.take(i as int), choice_refusal()) is None,
        decreases choices.len() - i,
    {
        proof {
            tokens::lemma_first_refusal_step(all, choice_refusal(), i as int);
        }
        let one = valid_choice(&choices[i]);
        if one.is_err() {
            proof {
                tokens::lemma_first_refusal_stays(all, choice_refusal(), i as int + 1);
            }
            return one;
        }
        i = i + 1;
    }
    proof {
        assert(all.take(all.len() as int) =~= all);
    }
    Ok(())
}

fn count_recommended(choices: &[AttentionChoice]) -> (r: usize)
    ensures
        r == tables::kept(choice_views(choices@), is_recommended()).len(),
{
    let ghost all = choice_views(choices@);
    let mut count: usize = 0;
    let mut i: usize = 0;
    proof {
        assert(all.take(0) =~= Seq::<ChoiceView>::empty());
    }
    while i < choices.len()
        invariant
            i <= choices@.len(),
            count <= i,
            all == choice_views(choices@),
            count == tables::kept(all.take(i as int), is_recommended()).len(),
        decreases choices.len() - i,
    {
        proof {
            tables::lemma_kept_step(all, is_recommended(), i as int);
        }
        if choices[i].recommended {
            count = count + 1;
        }
        i = i + 1;
    }
    proof {
        assert(all.take(all.len() as int) =~= all);
    }
    count
}

// ---------------------------------------------------------------------------- a card

/// An authored card: the question, the context that answering it needs, and two to
/// four choices, one of them recommended.
#[derive(Debug, Clone, PartialEq, Eq)]
pub struct DecisionCard {
    pub question: Option<String>,
    pub context: Option<String>,
    pub choices: Vec<AttentionChoice>,
}

/// What a card says.
pub struct CardView {
    pub question: Option<Seq<char>>,
    pub context: Option<Seq<char>>,
    pub choices: Seq<ChoiceView>,
}

impl View for DecisionCard {
    type V = CardView;

    open spec fn view(&self) -> CardView {
        CardView {
            question: text::text_of(self.question),
            context: text::text_of(self.context),
            choices: choice_views(self.choices@),
        }
    }
}

impl Default for DecisionCard {
    fn default() -> (r: Self)
        ensures
            r@ == (CardView { question: None, context: None, choices: seq![] }),
    {
        let r = DecisionCard { question: None, context: None, choices: Vec::new() };
        proof {
            assert(r@.choices =~= seq![]);
        }
        r
    }
}

pub open spec fn choices_refusal(choices: Seq<ChoiceView>) -> Option<Seq<char>> {
    let recommended = tables::kept(choices, is_recommended()).len();
    if choices.len() == 0 {
        None
    } else if choices.len() < 2 || choices.len() > 4 {
        Some(
            "attention: an item carries 2 to 4 choices; "@ + text::digits(choices.len())
                + " were given"@,
        )
    } else if tokens::first_refusal(choices, choice_refusal()) is Some {
        tokens::first_refusal(choices, choice_refusal())
    } else if keys_refusal(choices) is Some {
        keys_refusal(choices)
    } else if recommended != 1 {
        Some(
            "attention: exactly one choice is recommended; "@ + text::digits(recommended)
                + " were"@,
        )
    } else {
        None
    }
}

/// What a card is refused with.
pub open spec fn card_refusal(card: CardView) -> Option<Seq<char>> {
    let question = bound_refusal(card.question->0, "--question"@, QUESTION_MAX);
    let context = bound_refusal(card.context->0, "--context"@, CONTEXT_MAX);
    if card.question is Some != card.context is Some {
        Some("attention: --question and --context are one card; give both or neither"@)
    } else if card.question is Some && question is Some {
        question
    } else if card.context is Some && context is Some {
        context
    } else {
        choices_refusal(card.choices)
    }
}

pub open spec fn choice_json(c: ChoiceView) -> Seq<char> {
    json::object(
        seq![
            json::member("key"@, outside::json_text(c.key)),
            json::member("label"@, outside::json_text(c.label)),
            json::member("consequence"@, outside::json_text(c.consequence)),
            json::member("outcome"@, outside::json_text(c.outcome)),
            json::member("recommended"@, json::boolean(c.recommended)),
        ],
    )
}

fn write_choice(c: &AttentionChoice) -> (r: String)
    ensures
        r@ == choice_json(c@),
{
    let flag = json::write_boolean(c.recommended);
    let members = vec![
        json::text_member("key", c.key.as_str()),
        json::text_member("label", c.label.as_str()),
        json::text_member("consequence", c.consequence.as_str()),
        json::text_member("outcome", c.outcome.as_str()),
        json::write_member("recommended", flag.as_str()),
    ];
    proof {
        assert(text::texts(members@) =~= seq![
            json::member("key"@, outside::json_text(c.key@)),
            json::member("label"@, outside::json_text(c.label@)),
            json::member("consequence"@, outside::json_text(c.consequence@)),
            json::member("outcome"@, outside::json_text(c.outcome@)),
            json::member("recommended"@, json::boolean(c.recommended)),
        ]);
    }
    json::write_object(members.as_slice())
}

impl DecisionCard {
    /// Whether this card asks for nothing to be written.
    pub fn is_empty(&self) -> (r: bool)
        ensures
            r == (self@ == CardView { question: None, context: None, choices: seq![] }),
    {
        proof {
            if self@.choices.len() == 0 {
                assert(self@.choices =~= seq![]);
            }
        }
        self.question.is_none() && self.context.is_none() && self.choices.len() == 0
    }

    /// Every invariant of a card, across its fields and in each.
    pub fn validate(&self) -> (r: Result<(), Error>)
        ensures
            match card_refusal(self@) {
                Some(m) => text::refused(r, m),
                None => r is Ok,
            },
    {
        if self.question.is_some() != self.context.is_some() {
            return text::refuse(
                "attention: --question and --context are one card; give both or neither".to_owned(),
            );
        }
        if let Some(question) = &self.question {
            bounded(question.as_str(), "--question", QUESTION_MAX)?;
        }
        if let Some(context) = &self.context {
            bounded(context.as_str(), "--context", CONTEXT_MAX)?;
        }
        let n: usize = self.choices.len();
        if n == 0 {
            return Ok(());
        }
        if n < 2 || n > 4 {
            let got = text::show_u64(n as u64);
            return text::refuse(
                "attention: an item carries 2 to 4 choices; ".to_owned().concat(
                    got.as_str(),
                ).concat(" were given"),
            );
        }
        valid_choices(self.choices.as_slice())?;
        unique_keys(self.choices.as_slice())?;
        let recommended: usize = count_recommended(self.choices.as_slice());
        if recommended != 1 {
            let got = text::show_u64(recommended as u64);
            return text::refuse(
                "attention: exactly one choice is recommended; ".to_owned().concat(
                    got.as_str(),
                ).concat(" were"),
            );
        }
        Ok(())
    }

    /// The stored form of the choices; none where nothing was authored.
    pub fn choices_json(&self) -> (r: Option<String>)
        ensures
            text::text_of(r) == if self@.choices.len() == 0 {
                None
            } else {
                Some(
                    "["@ + text::joined(
                        self@.choices.map_values(|c: ChoiceView| choice_json(c)),
                        ","@,
                    ) + "]"@,
                )
            },
    {
        if self.choices.len() == 0 {
            return None;
        }
        let ghost wanted = self@.choices.map_values(|c: ChoiceView| choice_json(c));
        let mut items: Vec<String> = Vec::new();
        let mut i: usize = 0;
        while i < self.choices.len()
            invariant
                i <= self.choices@.len(),
                wanted == self@.choices.map_values(|c: ChoiceView| choice_json(c)),
                text::texts(items@) == wanted.take(i as int),
            decreases self.choices.len() - i,
        {
            let ghost before = text::texts(items@);
            let item = write_choice(&self.choices[i]);
            items.push(item);
            proof {
                assert(text::texts(items@) =~= before.push(item@));
                assert(wanted.take(i as int + 1) =~= wanted.take(i as int).push(
                    wanted[i as int],
                ));
            }
            i = i + 1;
        }
        proof {
            assert(wanted.take(wanted.len() as int) =~= wanted);
        }
        let inner = text::join(items.as_slice(), ",");
        Some("[".to_owned().concat(inner.as_str()).concat("]"))
    }
}

} // verus!
