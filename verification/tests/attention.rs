//! Cards that ask the operator, and the answers that settle them.

use kanban::attention::default_choice_pair;
use kanban::attention::DecisionCard;
use kanban::decisions::AttentionAnswer;
use kanban::paths::board_id_from_path;


#[test]
fn board_id_from_path_reads_the_uuid_stem_and_ignores_extension() {
    assert_eq!(
        board_id_from_path("/root/boards/b1e2c2d9-b9e8-4c67-923d-153f7faed19a.db"),
        Some("b1e2c2d9-b9e8-4c67-923d-153f7faed19a".to_owned())
    );
    // A path with no file component (the root, or the empty path) yields
    // nothing, which the direct estate falls back to the empty string and
    // never consults.
    assert_eq!(board_id_from_path("/"), None);
    assert_eq!(board_id_from_path(""), None);
}

/// One well-formed pair of tokens, which every refusal case breaks in
/// exactly one way.
fn tokens() -> (Vec<String>, Vec<String>) {
    (
        vec![
            "assign=Assign a seat to hax and log in|approve".to_owned(),
            "keep-parked=Keep it parked until a seat frees up|defer".to_owned(),
        ],
        vec![
            "assign=You buy or free one seat and finish the login: ten minutes.".to_owned(),
            "keep-parked=Nothing changes; a task is filed to re-raise it.".to_owned(),
        ],
    )
}

fn refusal(
    question: Option<&str>,
    context: Option<&str>,
    choices: &[String],
    consequences: &[String],
    recommend: Option<&str>,
) -> String {
    DecisionCard::parse(question, context, choices, consequences, recommend)
        .expect_err("the card must be refused")
        .to_string()
}

#[test]
fn a_well_formed_card_parses_into_its_choices_and_one_recommendation() {
    let (choices, consequences) = tokens();
    let card = DecisionCard::parse(
        Some("  hax has no logged-in account - assign a seat, or drop it?  "),
        Some("  A real turn answers HTTP 401.  "),
        &choices,
        &consequences,
        Some("assign"),
    )
    .expect("a well-formed card");
    assert_eq!(
        card.question.as_deref(),
        Some("hax has no logged-in account - assign a seat, or drop it?"),
        "the question is stored trimmed"
    );
    assert_eq!(
        card.context.as_deref(),
        Some("A real turn answers HTTP 401.")
    );
    assert_eq!(card.choices.len(), 2);
    assert_eq!(card.choices[0].key, "assign");
    assert_eq!(
        card.choices[0].label,
        "Assign a seat to hax and log in"
    );
    assert_eq!(card.choices[0].outcome, "approve");
    assert!(card.choices[0].recommended, "--recommend marks its choice");
    assert_eq!(card.choices[1].outcome, "defer");
    assert!(!card.choices[1].recommended);
    assert!(!card.is_empty());
    // The column's value is the array, in declared order.
    let stored: serde_json::Value =
        serde_json::from_str(&card.choices_json().expect("authored choices")).unwrap();
    let items = stored.as_array().expect("an array");
    assert_eq!(items.len(), card.choices.len());
    for (item, choice) in items.iter().zip(card.choices.iter()) {
        assert_eq!(item["key"], choice.key.as_str());
        assert_eq!(item["label"], choice.label.as_str());
        assert_eq!(item["consequence"], choice.consequence.as_str());
        assert_eq!(item["outcome"], choice.outcome.as_str());
        assert_eq!(item["recommended"], choice.recommended);
        assert_eq!(item.as_object().expect("an object").len(), 5);
    }
}

#[test]
fn an_empty_card_is_empty_and_stores_no_choices() {
    let card = DecisionCard::parse(None, None, &[], &[], None).expect("nothing authored");
    assert!(card.is_empty());
    assert_eq!(card.choices_json(), None);
}

/// A label may contain `=` because the key splits on the FIRST one, and
/// the outcome splits on the LAST `|`.
#[test]
fn a_label_may_contain_an_equals_sign() {
    let card = DecisionCard::parse(
        None,
        None,
        &[
            "pin=Set retries=3 and ship it|approve".to_owned(),
            "hold=Hold the release|defer".to_owned(),
        ],
        &[
            "pin=The queue retries three times and the release ships today.".to_owned(),
            "hold=Nothing ships until 2026-09-15, when this is re-raised.".to_owned(),
        ],
        Some("pin"),
    )
    .expect("an `=` in a label is legal");
    assert_eq!(card.choices[0].label, "Set retries=3 and ship it");
}

#[test]
fn a_consequence_naming_no_declared_choice_is_refused_with_the_declared_keys() {
    let (choices, _) = tokens();
    let error = refusal(
        None,
        None,
        &choices,
        &["typo=A consequence for a key nobody declared.".to_owned()],
        None,
    );
    assert_eq!(
        error,
        "attention: no choice named typo; declared keys are assign, keep-parked"
    );
    // The same refusal covers --recommend, which names a key the same way.
    let (_, consequences) = tokens();
    assert_eq!(
        refusal(None, None, &choices, &consequences, Some("typo")),
        "attention: no choice named typo; declared keys are assign, keep-parked"
    );
}

#[test]
fn a_repeated_choice_key_is_refused_rather_than_the_last_one_winning() {
    let error = refusal(
        None,
        None,
        &[
            "assign=Assign a seat|approve".to_owned(),
            "assign=Assign two seats|approve".to_owned(),
        ],
        &[
            "assign=One seat is bought and the login is finished today.".to_owned(),
            "assign=Two seats are bought and both logins are finished.".to_owned(),
        ],
        Some("assign"),
    );
    assert_eq!(
        error,
        "attention: choice key assign is given twice; keys must be unique within an item"
    );
}

#[test]
fn a_choice_count_outside_two_to_four_is_refused_with_the_count() {
    let one = refusal(
        None,
        None,
        &["assign=Assign a seat|approve".to_owned()],
        &["assign=One seat is bought and the login is finished today.".to_owned()],
        Some("assign"),
    );
    assert_eq!(
        one,
        "attention: an item carries 2 to 4 choices; 1 were given"
    );
    let mut choices = Vec::new();
    let mut consequences = Vec::new();
    for index in 0..5 {
        choices.push(format!("k{index}=Take option {index}|other"));
        consequences.push(format!(
            "k{index}=Option {index} happens and costs nothing."
        ));
    }
    assert_eq!(
        refusal(None, None, &choices, &consequences, Some("k0")),
        "attention: an item carries 2 to 4 choices; 5 were given"
    );
}

#[test]
fn a_card_with_no_recommendation_or_two_is_refused_with_the_count() {
    let (choices, consequences) = tokens();
    assert_eq!(
        refusal(None, None, &choices, &consequences, None),
        "attention: exactly one choice is recommended; 0 were"
    );
    // Two is unreachable through a single-valued --recommend and is still
    // the invariant, so the validator is asserted directly.
    let mut card =
        DecisionCard::parse(None, None, &choices, &consequences, Some("assign")).unwrap();
    card.choices[1].recommended = true;
    assert_eq!(
        card.validate()
            .expect_err("two recommendations")
            .to_string(),
        "attention: exactly one choice is recommended; 2 were"
    );
}

#[test]
fn a_choice_with_no_consequence_is_refused_naming_the_choice() {
    let (choices, consequences) = tokens();
    assert_eq!(
        refusal(None, None, &choices, &consequences[..1], Some("assign")),
        "attention: choice keep-parked has no --consequence; every choice must say what \
         happens if it is picked"
    );
    assert_eq!(
        refusal(
            None,
            None,
            &choices,
            &["assign=   ".to_owned()],
            Some("assign")
        ),
        "attention: choice assign has an empty --consequence; every choice must say what \
         happens if it is picked"
    );
    assert_eq!(
        refusal(
            None,
            None,
            &choices,
            &[consequences[0].clone(), consequences[0].clone()],
            Some("assign")
        ),
        "attention: choice assign is given two --consequence values; give one per choice"
    );
}

#[test]
fn a_question_without_a_context_is_refused_as_half_a_card() {
    let paired = "attention: --question and --context are one card; give both or neither";
    assert_eq!(
        refusal(Some("Assign a seat?"), None, &[], &[], None),
        paired
    );
    assert_eq!(
        refusal(None, Some("A turn answers 401."), &[], &[], None),
        paired
    );
}

#[test]
fn the_reserved_custom_key_cannot_be_authored() {
    assert_eq!(
        refusal(
            None,
            None,
            &[
                "custom=Write your own answer|other".to_owned(),
                "assign=Assign a seat|approve".to_owned(),
            ],
            &[
                "custom=Whatever you type is recorded as the verdict.".to_owned(),
                "assign=One seat is bought and the login is finished today.".to_owned(),
            ],
            Some("assign"),
        ),
        "attention: custom is reserved for the free-text answer and cannot be a choice key"
    );
}

#[test]
fn recommend_without_choices_is_refused() {
    assert_eq!(
        refusal(None, None, &[], &[], Some("assign")),
        "attention: --recommend needs choices; give --choice or drop it"
    );
}

#[test]
fn every_bound_is_refused_naming_the_field_the_bound_and_what_it_got() {
    let (choices, consequences) = tokens();
    let long = "x".repeat(161);
    assert_eq!(
        refusal(Some(&long), Some("A turn answers 401."), &[], &[], None),
        "attention: --question is 161 characters; the bound is 160"
    );
    let long_context = "y".repeat(801);
    assert_eq!(
        refusal(Some("Assign a seat?"), Some(&long_context), &[], &[], None),
        "attention: --context is 801 characters; the bound is 800"
    );
    assert_eq!(
        refusal(
            None,
            None,
            &[
                format!("assign={}|approve", "L".repeat(61)),
                "keep-parked=Keep it parked|defer".to_owned(),
            ],
            &consequences,
            Some("assign"),
        ),
        "attention: choice assign label is 61 characters; the bound is 60"
    );
    assert_eq!(
        refusal(
            None,
            None,
            &choices,
            &[
                format!("assign={}", "C".repeat(201)),
                consequences[1].clone(),
            ],
            Some("assign"),
        ),
        "attention: choice assign consequence is 201 characters; the bound is 200"
    );
    // An empty question is refused as empty rather than as a length.
    assert_eq!(
        refusal(Some("   "), Some("A turn answers 401."), &[], &[], None),
        "attention: --question is empty; give it a value or drop it"
    );
    // A label carrying `|` after the last-`|` split is refused by name.
    assert_eq!(
        refusal(
            None,
            None,
            &[
                "assign=Assign a seat|and log in|approve".to_owned(),
                "keep-parked=Keep it parked|defer".to_owned(),
            ],
            &consequences,
            Some("assign"),
        ),
        "attention: choice assign label contains '|', which separates the label from the \
         outcome in --choice KEY=LABEL|OUTCOME; write the label without it"
    );
    // An empty label is empty, not zero-length-bounded.
    assert_eq!(
        refusal(
            None,
            None,
            &[
                "assign= |approve".to_owned(),
                "keep=Keep it|defer".to_owned()
            ],
            &[
                consequences[0].clone(),
                "keep=Nothing changes and it is re-raised on 2026-09-15.".to_owned(),
            ],
            Some("assign"),
        ),
        "attention: choice assign label is empty; give it a value or drop it"
    );
}

#[test]
fn a_malformed_choice_token_names_the_shape_it_must_take() {
    assert_eq!(
        refusal(None, None, &["assign".to_owned()], &[], None),
        "attention: --choice \"assign\" must read KEY=LABEL|OUTCOME, such as \
         --choice \"assign=Assign a seat|approve\""
    );
    assert_eq!(
        refusal(None, None, &["assign=Assign a seat".to_owned()], &[], None),
        "attention: --choice \"assign=Assign a seat\" names no outcome; it must read \
         KEY=LABEL|OUTCOME with the outcome one of approve, reject, defer, or other"
    );
    assert_eq!(
        refusal(
            None,
            None,
            &["assign=Assign a seat|approve".to_owned()],
            &["a consequence with no key".to_owned()],
            None
        ),
        "attention: --consequence \"a consequence with no key\" must read KEY=TEXT, \
         naming the choice it belongs to"
    );
}

#[test]
fn an_outcome_outside_the_closed_set_is_refused_with_the_four_values() {
    let (_, consequences) = tokens();
    assert_eq!(
        refusal(
            None,
            None,
            &[
                "assign=Assign a seat|vibes".to_owned(),
                "keep-parked=Keep it parked|defer".to_owned(),
            ],
            &consequences,
            Some("assign"),
        ),
        "attention: choice assign has outcome vibes; an outcome is one of approve, \
         reject, defer, or other"
    );
}

#[test]
fn a_key_that_is_not_a_slug_is_refused_with_the_pattern() {
    let (_, consequences) = tokens();
    let error = refusal(
        None,
        None,
        &[
            "Assign Seat=Assign a seat|approve".to_owned(),
            "keep-parked=Keep it parked|defer".to_owned(),
        ],
        &[
            "Assign Seat=One seat is bought and the login is finished today.".to_owned(),
            consequences[1].clone(),
        ],
        Some("Assign Seat"),
    );
    assert!(
        error.starts_with("attention: choice key \"Assign Seat\" is not a slug;"),
        "{error}"
    );
    assert!(error.contains("[a-z0-9][a-z0-9-]{0,31}"), "{error}");
    // A 33-character key exceeds the bound the pattern names.
    let long = "k".repeat(33);
    let over = refusal(
        None,
        None,
        &[
            format!("{long}=Assign a seat|approve"),
            "keep-parked=Keep it parked|defer".to_owned(),
        ],
        &[
            format!("{long}=One seat is bought and the login is finished today."),
            consequences[1].clone(),
        ],
        Some(&long),
    );
    assert!(over.contains("is not a slug"), "{over}");
    // A leading hyphen is refused; a digit start is not.
    assert!(
        refusal(
            None,
            None,
            &[
                "-assign=Assign a seat|approve".to_owned(),
                "keep=Keep it parked|defer".to_owned(),
            ],
            &[
                "-assign=One seat is bought and the login is finished today.".to_owned(),
                "keep=Nothing changes and it is re-raised on 2026-09-15.".to_owned(),
            ],
            Some("-assign"),
        )
        .contains("is not a slug")
    );
    DecisionCard::parse(
        None,
        None,
        &[
            "2fa=Turn on two-factor|approve".to_owned(),
            "keep=Keep it parked|defer".to_owned(),
        ],
        &[
            "2fa=Every login needs a second factor from today.".to_owned(),
            "keep=Nothing changes and it is re-raised on 2026-09-15.".to_owned(),
        ],
        Some("2fa"),
    )
    .expect("a key may start with a digit");
}

#[test]
fn an_authored_choice_composes_its_label_and_consequence_and_carries_its_outcome() {
    let (choices, consequences) = tokens();
    let card =
        DecisionCard::parse(None, None, &choices, &consequences, Some("assign")).unwrap();
    let (decision, resolution) = AttentionAnswer {
        choice: Some("keep-parked"),
        ..Default::default()
    }
    .decide("a-1", &card.choices, "geoyws", 1788805112431)
    .expect("an authored key resolves");
    assert_eq!(decision.choice, "keep-parked");
    assert_eq!(decision.outcome, "defer");
    assert_eq!(decision.note, None);
    assert_eq!(decision.by, "geoyws");
    assert_eq!(decision.at, 1788805112431);
    assert_eq!(
        resolution,
        "Decision: Keep it parked until a seat frees up. \
         Nothing changes; a task is filed to re-raise it."
    );
    // A note is appended on its own line, and only when one was given.
    let noted = AttentionAnswer {
        choice: Some("assign"),
        outcome: None,
        note: Some("  after the pin lands  "),
    }
    .decide("a-1", &card.choices, "geoyws", 7)
    .expect("a note is optional on an authored choice");
    assert_eq!(noted.0.note.as_deref(), Some("after the pin lands"));
    assert!(
        noted.1.ends_with("\nNote: after the pin lands"),
        "{}",
        noted.1
    );
}

#[test]
fn the_custom_answer_needs_an_outcome_and_a_note_and_records_both() {
    let needs_both = "attention: a custom answer needs --outcome \
                      (approve, reject, defer, other) and --note";
    assert_eq!(
        AttentionAnswer {
            choice: Some("custom"),
            outcome: Some("defer"),
            note: None,
        }
        .decide("a-1", &default_choice_pair(), "geoyws", 1)
        .expect_err("a custom answer with no note")
        .to_string(),
        needs_both
    );
    assert_eq!(
        AttentionAnswer {
            choice: Some("custom"),
            outcome: None,
            note: Some("do it after the pin lands"),
        }
        .decide("a-1", &default_choice_pair(), "geoyws", 1)
        .expect_err("a custom answer with no outcome")
        .to_string(),
        needs_both
    );
    assert_eq!(
        AttentionAnswer::custom("vibes", "do it")
            .decide("a-1", &default_choice_pair(), "geoyws", 1)
            .expect_err("an invented outcome")
            .to_string(),
        "attention: --outcome vibes is not a verdict; an outcome is one of approve, \
         reject, defer, or other"
    );
    let (decision, resolution) = AttentionAnswer::custom("defer", "  after the pin lands  ")
        .decide("a-1", &default_choice_pair(), "geoyws", 42)
        .expect("a custom answer with both");
    assert_eq!(decision.choice, "custom");
    assert_eq!(decision.outcome, "defer");
    assert_eq!(decision.note.as_deref(), Some("after the pin lands"));
    assert_eq!(
        resolution,
        "Decision: Custom answer, recorded as defer.\nNote: after the pin lands"
    );
}

#[test]
fn an_answer_with_no_choice_or_a_stale_one_or_a_stray_outcome_is_refused() {
    assert_eq!(
        AttentionAnswer::default()
            .decide("a-1", &default_choice_pair(), "geoyws", 1)
            .expect_err("no choice at all")
            .to_string(),
        "attention resolve requires --choice KEY or \
         --choice custom --outcome X --note TEXT"
    );
    assert_eq!(
        AttentionAnswer {
            choice: Some("   "),
            ..Default::default()
        }
        .decide("a-1", &default_choice_pair(), "geoyws", 1)
        .expect_err("an empty choice is no choice")
        .to_string(),
        "attention resolve requires --choice KEY or \
         --choice custom --outcome X --note TEXT"
    );
    assert_eq!(
        AttentionAnswer {
            choice: Some("keep-parked"),
            ..Default::default()
        }
        .decide("a-347ff24c", &default_choice_pair(), "geoyws", 1)
        .expect_err("a key the row does not carry")
        .to_string(),
        "attention a-347ff24c has no choice keep-parked; its choices are approve, reject"
    );
    assert_eq!(
        AttentionAnswer {
            choice: Some("approve"),
            outcome: Some("reject"),
            note: None,
        }
        .decide("a-1", &default_choice_pair(), "geoyws", 1)
        .expect_err("an outcome on an authored choice")
        .to_string(),
        "attention: --outcome applies only to --choice custom; an authored choice \
         carries its own outcome"
    );
}

#[test]
fn the_default_pair_is_two_choices_with_no_recommendation() {
    let pair = default_choice_pair();
    assert_eq!(
        pair.iter().map(|c| c.key.as_str()).collect::<Vec<_>>(),
        ["approve", "reject"]
    );
    assert_eq!(pair.iter().filter(|c| c.recommended).count(), 0);
    // ASCII only: these labels travel through argv, a form POST and a
    // terminal.
    for choice in &pair {
        assert!(choice.label.is_ascii(), "{}", choice.label);
        assert!(choice.consequence.is_ascii(), "{}", choice.consequence);
    }
    // Synthesized rather than chosen, so the one card the model refuses
    // to author is the one it serves by default.
    let synthesized = DecisionCard {
        question: None,
        context: None,
        choices: pair,
    };
    assert_eq!(
        synthesized
            .validate()
            .expect_err("nothing authored it, so nothing may be marked")
            .to_string(),
        "attention: exactly one choice is recommended; 0 were"
    );
}

#[test]
fn the_order_of_consequences_makes_no_difference() {
    let list = |items: &[&str]| -> Vec<String> { items.iter().map(|i| (*i).to_owned()).collect() };
    let choices = list(&["ship=Ship = now|approve", "wait=Wait|defer"]);
    let forward = list(&["ship=It goes out.", "wait=It stays."]);
    let backward = list(&["wait=It stays.", "ship=It goes out."]);
    let read = |consequences: &[String]| {
        DecisionCard::parse(
            Some("Ship?"),
            Some("Ready."),
            &choices,
            consequences,
            Some("wait"),
        )
        .unwrap()
    };
    let card = read(&forward);
    assert_eq!(card, read(&backward));
    let tokens: Vec<String> = card
        .choices
        .iter()
        .map(|c| format!("{}={}|{}", c.key, c.label, c.outcome))
        .collect();
    assert_eq!(tokens, choices);
}
