//! The boundary of managed mode.

use kanban::routing::enforcement_state_at;
use kanban::routing::refusal;
use kanban::routing::Enforcement;
use kanban::routing::RegistryReading;
use kanban::routing::SelectorBypass;
use kanban::routing::ENFORCEMENT_STATE_SCHEMA;

const ALL: [SelectorBypass; 5] = [
    SelectorBypass::DirectDb,
    SelectorBypass::RootPath,
    SelectorBypass::Workspace,
    SelectorBypass::Project,
    SelectorBypass::EnvironmentSelector,
];

#[test]
fn every_bypass_is_refused_by_name_in_managed_mode() {
    for bypass in ALL {
        let message = refusal(Enforcement::Managed, &[bypass])
            .expect("a managed caller must be refused, not waved through");
        // The refusal names the specific bypass: the caller can act on it.
        assert!(
            message.contains(bypass.as_str()),
            "refusal for {bypass:?} must name {}: {message}",
            bypass.as_str()
        );
    }
}

#[test]
fn unmanaged_states_do_not_refuse_any_bypass() {
    for state in [Enforcement::Direct, Enforcement::Prepared] {
        for bypass in ALL {
            assert_eq!(
                refusal(state, &[bypass]),
                None,
                "a {state:?} caller must keep single-user selector behaviour for {bypass:?}"
            );
        }
    }
}

#[test]
fn refusal_names_only_the_first_present_bypass() {
    let message = refusal(
        Enforcement::Managed,
        &[SelectorBypass::DirectDb, SelectorBypass::Project],
    )
    .expect("managed caller refused");
    assert!(message.contains("--db"), "{message}");
    assert!(!message.contains("--project"), "{message}");
    assert_eq!(refusal(Enforcement::Managed, &[]), None);
}

#[test]
fn enforcement_parse_distinguishes_the_three_states() {
    assert_eq!(Enforcement::parse("direct"), Enforcement::Direct);
    assert_eq!(Enforcement::parse("prepared"), Enforcement::Prepared);
    assert_eq!(Enforcement::parse("managed"), Enforcement::Managed);
    // The permissive end is never reached by a value that is not known.
    assert_eq!(Enforcement::parse("bogus"), Enforcement::Managed);
    assert!(Enforcement::parse("").is_managed());
    assert!(Enforcement::Managed.is_managed());
    assert!(!Enforcement::Prepared.is_managed());
    assert!(!Enforcement::Direct.is_managed());
}

/// The state that a registry of a schema shows, with a stored state.
fn read(schema: i64, state: &str) -> Enforcement {
    enforcement_state_at(RegistryReading::Read {
        schema,
        state: Ok(state.to_owned()),
    })
    .unwrap()
}

#[test]
fn only_absent_or_pre_v14_registries_resolve_to_direct() {
    // 1. No registry at all: a fresh install.
    assert_eq!(
        enforcement_state_at(RegistryReading::Absent).unwrap(),
        Enforcement::Direct
    );
    // 2. A registry reads its own stored state.
    assert_eq!(
        read(ENFORCEMENT_STATE_SCHEMA, "direct"),
        Enforcement::Direct
    );
    // 3. A managed estate is honoured.
    assert_eq!(
        read(ENFORCEMENT_STATE_SCHEMA, "managed"),
        Enforcement::Managed
    );
    // 4. Below the schema the stored row does not count.
    assert_eq!(
        read(ENFORCEMENT_STATE_SCHEMA - 1, "managed"),
        Enforcement::Direct,
        "an unmigrated registry is a legacy single-user estate, not an ambiguity"
    );
    // 5. What cannot be read fails closed.
    let ambiguous =
        enforcement_state_at(RegistryReading::Unreadable("file is not a database".to_owned()));
    assert_eq!(
        ambiguous.expect_err("a corrupt registry must fail closed").message,
        "file is not a database"
    );
    let rowless = enforcement_state_at(RegistryReading::Read {
        schema: ENFORCEMENT_STATE_SCHEMA,
        state: Err("no row".to_owned()),
    });
    assert!(rowless.is_err());
    assert_eq!(
        enforcement_state_at(RegistryReading::Denied).unwrap(),
        Enforcement::Managed
    );
}
