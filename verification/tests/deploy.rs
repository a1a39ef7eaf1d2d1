//! What a deployment proves itself with.

use kanban::deploy::build_commit_label;
use kanban::deploy::kind_list;
use kanban::deploy::verify_artifacts;
use kanban::deploy::ArtifactIdentity;
use kanban::deploy::DeployIdentity;
use kanban::deploy::ARTIFACT_KIND_IMAGE_ID;
use kanban::deploy::ARTIFACT_KIND_MANIFEST_DIGEST;
use kanban::deploy::IDENTITY_MODE_ARTIFACT;
use kanban::deploy::IDENTITY_MODE_GIT;
use kanban::deploy::UNKNOWN_BUILD_COMMIT;

const API_ID: &str = "sha256:1111111111111111111111111111111111111111111111111111111111111111";
const WEB_DIGEST: &str =
    "sha256:2222222222222222222222222222222222222222222222222222222222222222";
const OTHER_ID: &str =
    "sha256:3333333333333333333333333333333333333333333333333333333333333333";
const FULL_SHA: &str = "aaaaaaaaaaaaaaaaaaaaaaaaaaaaaaaaaaaaaaaa";

fn expected_pair() -> Vec<ArtifactIdentity> {
    ArtifactIdentity::parse(
        &[
            format!("api={ARTIFACT_KIND_IMAGE_ID}:{API_ID}"),
            format!("web={ARTIFACT_KIND_MANIFEST_DIGEST}:{WEB_DIGEST}"),
        ],
        "--artifact",
    )
    .expect("two well-formed identities")
}

fn token_refusal(token: &str) -> String {
    ArtifactIdentity::parse(&[token.to_owned()], "--artifact")
        .expect_err("the token must be refused")
        .to_string()
}

fn mode_refusal(
    commit: Option<&str>,
    build_commit: Option<&str>,
    artifacts: &[String],
) -> String {
    DeployIdentity::parse(commit, build_commit, artifacts)
        .expect_err("the identity must be refused")
        .to_string()
}

fn verify_refusal(observed: &[ArtifactIdentity]) -> String {
    verify_artifacts("d-1", &expected_pair(), observed)
        .expect_err("the observation must be refused")
        .to_string()
}

#[test]
fn an_artifact_token_parses_into_a_role_a_typed_kind_and_a_lowercased_digest() {
    let parsed = ArtifactIdentity::parse(
        &[format!(
            "  api = {ARTIFACT_KIND_IMAGE_ID}:{}",
            API_ID.to_uppercase()
        )],
        "--artifact",
    )
    .expect("a well-formed token");
    assert_eq!(
        parsed,
        vec![ArtifactIdentity {
            role: "api".to_owned(),
            kind: ARTIFACT_KIND_IMAGE_ID.to_owned(),
            value: API_ID.to_owned(),
        }],
        "the role and kind are trimmed and the digest is lowercased, so the same \
         identity typed two ways compares equal"
    );
}

#[test]
fn a_malformed_artifact_token_is_refused_naming_the_shape_the_role_or_the_kind() {
    assert_eq!(
        token_refusal("docker-image-id:sha256:x"),
        format!(
            "deploy: --artifact \"docker-image-id:sha256:x\" must read ROLE=KIND:VALUE, \
             such as --artifact \"api={ARTIFACT_KIND_IMAGE_ID}:sha256:<64 hex>\""
        )
    );
    assert_eq!(
        token_refusal(&format!("Api={ARTIFACT_KIND_IMAGE_ID}:{API_ID}")),
        "deploy: --artifact role \"Api\" is not a slug; a role names one component and \
         matches [a-z0-9][a-z0-9-]{0,31}, such as api or web"
    );
    assert_eq!(
        token_refusal("api=docker-image-id"),
        format!(
            "deploy: --artifact role api names no typed value; it must read \
             ROLE=KIND:VALUE with KIND one of {}",
            kind_list()
        )
    );
    assert_eq!(
        token_refusal(&format!("api=image-id:{API_ID}")),
        format!(
            "deploy: --artifact role api has kind \"image-id\"; a kind is one of {}",
            kind_list()
        )
    );
    // A short digest, a missing algorithm, and a Git commit offered as an
    // image identity are all the same refusal, because all three are "not
    // an identity of this kind".
    for value in ["sha256:abcd", "1111111111111111", FULL_SHA] {
        assert_eq!(
            token_refusal(&format!("api={ARTIFACT_KIND_IMAGE_ID}:{value}")),
            format!(
                "deploy: --artifact role api value {value:?} is not an identity; a \
                 {ARTIFACT_KIND_IMAGE_ID} is sha256: followed by 64 hexadecimal characters"
            )
        );
    }
    assert_eq!(
        ArtifactIdentity::parse(
            &[
                format!("api={ARTIFACT_KIND_IMAGE_ID}:{API_ID}"),
                format!("api={ARTIFACT_KIND_IMAGE_ID}:{OTHER_ID}"),
            ],
            "--artifact",
        )
        .expect_err("one identity per role")
        .to_string(),
        "deploy: --artifact names role api twice; give one identity per role"
    );
    // The flag is named by the caller, so `finish`'s refusals read as
    // `--observed` rather than as the flag `start` happens to use.
    assert_eq!(
        ArtifactIdentity::parse(&["api".to_owned()], "--observed")
            .expect_err("the token must be refused")
            .to_string(),
        format!(
            "deploy: --observed \"api\" must read ROLE=KIND:VALUE, such as \
             --observed \"api={ARTIFACT_KIND_IMAGE_ID}:sha256:<64 hex>\""
        )
    );
}

#[test]
fn each_identity_mode_refuses_the_other_mode_s_flags_and_names_the_one_to_use() {
    let artifacts = vec![format!("api={ARTIFACT_KIND_IMAGE_ID}:{API_ID}")];
    assert_eq!(
        mode_refusal(Some(FULL_SHA), None, &artifacts),
        "deploy: --commit names a Git-mode attempt and --artifact names an \
         artifact-identity attempt; one mode per attempt, so pass one or the other"
    );
    assert_eq!(
        mode_refusal(Some(FULL_SHA), Some(UNKNOWN_BUILD_COMMIT), &[]),
        "deploy: --build-commit \"unknown\" belongs to artifact mode; the Git path \
         names its commit with --commit FULL_SHA"
    );
    assert_eq!(
        mode_refusal(Some("aaaaaaa"), None, &[]),
        "commit must be a full 40-character hexadecimal commit"
    );
    assert_eq!(
        mode_refusal(None, None, &artifacts),
        "deploy: artifact mode requires --build-commit unknown, so a missing build \
         commit is stated rather than defaulted"
    );
    // The one that matters most: a caller who knows the build commit is
    // sent to the Git path rather than allowed to record it as unknown.
    assert_eq!(
        mode_refusal(None, Some(&FULL_SHA.to_uppercase()), &artifacts),
        format!(
            "deploy: --build-commit {FULL_SHA} is a full Git commit, so this build's \
             provenance is known; use the Git mode with --commit {FULL_SHA} instead \
             of --artifact"
        )
    );
    assert_eq!(
        mode_refusal(None, Some("none"), &artifacts),
        "deploy: --build-commit must be the literal unknown in artifact mode, got \"none\""
    );
    assert_eq!(
        mode_refusal(None, None, &[]),
        "deploy start requires --commit FULL_SHA (the verified Git path) or \
         --artifact ROLE=KIND:VALUE with --build-commit unknown (the artifact-identity \
         recovery path)"
    );
}

#[test]
fn a_resolved_identity_carries_its_mode_its_build_commit_and_its_expectations() {
    let git =
        DeployIdentity::parse(Some(&FULL_SHA.to_uppercase()), None, &[]).expect("the Git path");
    assert_eq!(git.mode(), IDENTITY_MODE_GIT);
    assert_eq!(git.build_commit(), FULL_SHA);
    assert!(git.artifacts().is_empty());
    assert_eq!(build_commit_label(git.mode(), git.build_commit()), FULL_SHA);

    let recovery = DeployIdentity::parse(
        None,
        Some(UNKNOWN_BUILD_COMMIT),
        &[format!("api={ARTIFACT_KIND_IMAGE_ID}:{API_ID}")],
    )
    .expect("the recovery path");
    assert_eq!(recovery.mode(), IDENTITY_MODE_ARTIFACT);
    assert_eq!(recovery.build_commit(), UNKNOWN_BUILD_COMMIT);
    assert_eq!(recovery.artifacts().len(), 1);
    // Where a SHA would be, a reader gets words rather than the bare
    // literal or a blank.
    assert_eq!(
        build_commit_label(recovery.mode(), recovery.build_commit()),
        "build commit unknown - recovered by artifact identity"
    );
}

#[test]
fn an_observation_verifies_only_when_every_role_matches_by_kind_and_value() {
    let expected = expected_pair();
    let matched =
        verify_artifacts("d-1", &expected, &expected).expect("the same identities verify");
    assert_eq!(
        matched, expected,
        "the observations keep the expected order"
    );
    // Observed out of order still verifies: a role is matched by name,
    // not by position, and the answer is in the attempt's own order.
    let reversed = vec![expected[1].clone(), expected[0].clone()];
    assert_eq!(
        verify_artifacts("d-1", &expected, &reversed).expect("order is not identity"),
        expected
    );

    let mut extra = expected.clone();
    extra.push(ArtifactIdentity {
        role: "worker".to_owned(),
        kind: ARTIFACT_KIND_IMAGE_ID.to_owned(),
        value: OTHER_ID.to_owned(),
    });
    assert_eq!(
        verify_refusal(&extra),
        "deployment d-1 does not expect artifact role worker; its expected roles are api, web"
    );
    assert_eq!(
        verify_refusal(&expected[..1]),
        format!(
            "deployment d-1 expects artifact role web ({ARTIFACT_KIND_MANIFEST_DIGEST} \
             {WEB_DIGEST}) and --observed named no identity for it"
        )
    );
    // A config ID offered where a manifest digest was expected, with the
    // value of the OTHER kind: refused on the kind, naming both.
    let wrong_kind = vec![
        expected[0].clone(),
        ArtifactIdentity {
            role: "web".to_owned(),
            kind: ARTIFACT_KIND_IMAGE_ID.to_owned(),
            value: OTHER_ID.to_owned(),
        },
    ];
    assert_eq!(
        verify_refusal(&wrong_kind),
        format!(
            "deployment d-1 artifact role web expects {ARTIFACT_KIND_MANIFEST_DIGEST} \
             {WEB_DIGEST} but --observed offered {ARTIFACT_KIND_IMAGE_ID} {OTHER_ID}; \
             a {ARTIFACT_KIND_IMAGE_ID} and an {ARTIFACT_KIND_MANIFEST_DIGEST} are \
             never compared to each other"
        )
    );
    let wrong_value = vec![
        ArtifactIdentity {
            role: "api".to_owned(),
            kind: ARTIFACT_KIND_IMAGE_ID.to_owned(),
            value: OTHER_ID.to_owned(),
        },
        expected[1].clone(),
    ];
    assert_eq!(
        verify_refusal(&wrong_value),
        format!(
            "deployment d-1 artifact role api expects {ARTIFACT_KIND_IMAGE_ID} {API_ID} \
             but --observed offered {ARTIFACT_KIND_IMAGE_ID} {OTHER_ID}"
        )
    );
    // And nothing observed at all is the missing-role refusal for the
    // first expected role, not a silent pass.
    assert_eq!(
        verify_refusal(&[]),
        format!(
            "deployment d-1 expects artifact role api ({ARTIFACT_KIND_IMAGE_ID} \
             {API_ID}) and --observed named no identity for it"
        )
    );
}
