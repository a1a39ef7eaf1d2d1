//! Deployments: what an attempt proves itself with, and whether what was observed is
//! what was expected.

use vstd::prelude::*;

use crate::outside;
use crate::tables;
use crate::text;
use crate::text::Error;
use crate::tokens;

verus! {

pub const DEPLOYMENT_TIERS: [&'static str; 7] = [
    "@_bdt",
    "@_bd",
    "@_bst",
    "@_bs",
    "@_s",
    "@_uat",
    "@_p",
];

pub const DEPLOYMENT_STATUSES: [&'static str; 5] = [
    "started",
    "succeeded",
    "failed",
    "cancelled",
    "abandoned",
];

/// The results that a finished deployment may record.
pub const DEPLOYMENT_RESULTS: [&'static str; 4] = [
    "succeeded",
    "failed",
    "cancelled",
    "abandoned",
];

pub const DEPLOYMENT_PHASES: [&'static str; 4] = ["build", "publish", "start", "verification"];

/// The tiers that are hosted on [`MBP_HOSTS`]; every other one is hosted elsewhere.
pub const MBP_TIERS: [&'static str; 2] = ["@_bdt", "@_bd"];

pub const MBP_HOSTS: [&'static str; 2] = ["geoywsMBP", "geoywsMBA"];

/// The ordinary identity: a build commit.
pub const IDENTITY_MODE_GIT: &'static str = "git";

/// The recovery identity, for an artifact whose build commit is lost.
pub const IDENTITY_MODE_ARTIFACT: &'static str = "artifact";

/// The digest of the configuration of an image.
pub const ARTIFACT_KIND_IMAGE_ID: &'static str = "docker-image-id";

/// The digest of the manifest that a registry serves.
pub const ARTIFACT_KIND_MANIFEST_DIGEST: &'static str = "oci-manifest-digest";

/// The kinds of artifact identity. Both are digests, of different documents, so one
/// is never evidence for the other.
pub const ARTIFACT_IDENTITY_KINDS: [&'static str; 2] = [
    "docker-image-id",
    "oci-manifest-digest",
];

/// What a build commit must be stated as where it is not known.
pub const UNKNOWN_BUILD_COMMIT: &'static str = "unknown";

/// What is shown where an unknown build commit would stand.
pub const UNKNOWN_BUILD_COMMIT_WORDS: &'static str =
    "build commit unknown - recovered by artifact identity";

// ---------------------------------------------------------------------------- commits

/// The commit that a text names: 40 hexadecimal digits, written small.
pub open spec fn commit_of(value: Seq<char>) -> Option<Seq<char>> {
    let lowered = tokens::ascii_lowered(text::trimmed(value));
    if tokens::is_hex(lowered, 40) {
        Some(lowered)
    } else {
        None
    }
}

/// A full commit, and nothing shorter.
pub fn full_commit(value: &str, label: &str) -> (r: Result<String, Error>)
    ensures
        match commit_of(value@) {
            Some(commit) => r is Ok && r->Ok_0@ == commit,
            None => text::refused(
                r,
                label@ + " must be a full 40-character hexadecimal commit"@,
            ),
        },
{
    let lowered = tokens::to_ascii_lower(text::trim(value));
    if tokens::hex_of_length(lowered.as_str(), 40) {
        Ok(lowered)
    } else {
        text::refuse(
            label.to_owned().concat(" must be a full 40-character hexadecimal commit"),
        )
    }
}

// ------------------------------------------------------------------------- identities

/// One identity of one component: its role, the typed kind, and the value.
#[derive(Debug, PartialEq, Eq)]
pub struct ArtifactIdentity {
    pub role: String,
    pub kind: String,
    pub value: String,
}

impl Clone for ArtifactIdentity {
    fn clone(&self) -> (r: Self)
        ensures
            r == *self,
    {
        ArtifactIdentity {
            role: self.role.clone(),
            kind: self.kind.clone(),
            value: self.value.clone(),
        }
    }
}

/// What an identity says.
pub struct IdentityView {
    pub role: Seq<char>,
    pub kind: Seq<char>,
    pub value: Seq<char>,
}

impl View for ArtifactIdentity {
    type V = IdentityView;

    open spec fn view(&self) -> IdentityView {
        IdentityView { role: self.role@, kind: self.kind@, value: self.value@ }
    }
}

pub open spec fn identity_views(s: Seq<ArtifactIdentity>) -> Seq<IdentityView> {
    s.map_values(|a: ArtifactIdentity| a@)
}

pub open spec fn roles_of(s: Seq<IdentityView>) -> Seq<Seq<char>> {
    s.map_values(|a: IdentityView| a.role)
}

pub open spec fn has_role(role: Seq<char>) -> spec_fn(IdentityView) -> bool {
    |a: IdentityView| a.role == role
}

pub open spec fn identity_kinds() -> Seq<Seq<char>> {
    tokens::words_of(ARTIFACT_IDENTITY_KINDS@)
}

/// The kinds in words, with what each is.
pub open spec fn kind_words() -> Seq<char> {
    ARTIFACT_KIND_IMAGE_ID@ + " (a Docker config or image ID) or "@
        + ARTIFACT_KIND_MANIFEST_DIGEST@ + " (a registry manifest digest)"@
}

/// The kinds in words, for a refusal that says which is which.
pub fn kind_list() -> (r: String)
    ensures
        r@ == kind_words(),
{
    ARTIFACT_KIND_IMAGE_ID.to_owned().concat(" (a Docker config or image ID) or ").concat(
        ARTIFACT_KIND_MANIFEST_DIGEST,
    ).concat(" (a registry manifest digest)")
}

/// `sha256:` and 64 hexadecimal digits.
pub open spec fn is_digest(value: Seq<char>) -> bool {
    match text::stripped_prefix(value, "sha256:"@) {
        Some(rest) => tokens::is_hex(rest, 64),
        None => false,
    }
}

pub open spec fn role_refusal(flag: Seq<char>, role: Seq<char>) -> Option<Seq<char>> {
    if tokens::is_slug(role) {
        None
    } else {
        Some(
            "deploy: "@ + flag + " role "@ + outside::debug_text(role)
                + " is not a slug; a role names one component and matches [a-z0-9][a-z0-9-]{0,31}, such as api or web"@,
        )
    }
}

/// A role is a slug.
pub fn valid_role(flag: &str, role: &str) -> (r: Result<(), Error>)
    ensures
        match role_refusal(flag@, role@) {
            Some(m) => text::refused(r, m),
            None => r is Ok,
        },
{
    if tokens::slug(role) {
        return Ok(());
    }
    let shown = outside::debug(role);
    text::refuse(
        "deploy: ".to_owned().concat(flag).concat(" role ").concat(shown.as_str()).concat(
            " is not a slug; a role names one component and matches [a-z0-9][a-z0-9-]{0,31}, such as api or web",
        ),
    )
}

/// The identity that a `ROLE=KIND:VALUE` token names. The value owns every colon
/// behind the first.
pub open spec fn identity_of(token: Seq<char>, flag: Seq<char>) -> Result<
    IdentityView,
    Seq<char>,
> {
    match tokens::parted(token, '=') {
        None => Err(
            "deploy: "@ + flag + " "@ + outside::debug_text(token)
                + " must read ROLE=KIND:VALUE, such as "@ + flag + " \"api="@
                + ARTIFACT_KIND_IMAGE_ID@ + ":sha256:<64 hex>\""@,
        ),
        Some((name, rest)) => {
            let role = text::trimmed(name);
            if role_refusal(flag, role) is Some {
                Err(role_refusal(flag, role)->0)
            } else {
                match tokens::parted(rest, ':') {
                    None => Err(
                        "deploy: "@ + flag + " role "@ + role
                            + " names no typed value; it must read ROLE=KIND:VALUE with KIND one of "@
                            + kind_words(),
                    ),
                    Some((typed, said)) => typed_identity(
                        flag,
                        role,
                        text::trimmed(typed),
                        tokens::ascii_lowered(text::trimmed(said)),
                    ),
                }
            }
        },
    }
}

pub open spec fn typed_identity(
    flag: Seq<char>,
    role: Seq<char>,
    kind: Seq<char>,
    value: Seq<char>,
) -> Result<IdentityView, Seq<char>> {
    if !identity_kinds().contains(kind) {
        Err(
            "deploy: "@ + flag + " role "@ + role + " has kind "@ + outside::debug_text(kind)
                + "; a kind is one of "@ + kind_words(),
        )
    } else if !is_digest(value) {
        Err(
            "deploy: "@ + flag + " role "@ + role + " value "@ + outside::debug_text(value)
                + " is not an identity; a "@ + kind
                + " is sha256: followed by 64 hexadecimal characters"@,
        )
    } else {
        Ok(IdentityView { role, kind, value })
    }
}

fn read_typed(flag: &str, role: &str, kind: &str, value: String) -> (r: Result<
    ArtifactIdentity,
    Error,
>)
    ensures
        match typed_identity(flag@, role@, kind@, value@) {
            Err(m) => text::refused(r, m),
            Ok(a) => r is Ok && r->Ok_0@ == a,
        },
{
    if !tokens::is_one_of(kind, ARTIFACT_IDENTITY_KINDS.as_slice()) {
        let shown = outside::debug(kind);
        let list = kind_list();
        return text::refuse(
            "deploy: ".to_owned().concat(flag).concat(" role ").concat(role).concat(
                " has kind ",
            ).concat(shown.as_str()).concat("; a kind is one of ").concat(list.as_str()),
        );
    }
    let shaped = match text::strip_prefix(value.as_str(), "sha256:") {
        Some(rest) => tokens::hex_of_length(rest, 64),
        None => false,
    };
    if !shaped {
        let shown = outside::debug(value.as_str());
        return text::refuse(
            "deploy: ".to_owned().concat(flag).concat(" role ").concat(role).concat(
                " value ",
            ).concat(shown.as_str()).concat(" is not an identity; a ").concat(kind).concat(
                " is sha256: followed by 64 hexadecimal characters",
            ),
        );
    }
    Ok(ArtifactIdentity { role: role.to_owned(), kind: kind.to_owned(), value })
}

fn read_identity(token: &str, flag: &str) -> (r: Result<ArtifactIdentity, Error>)
    ensures
        match identity_of(token@, flag@) {
            Err(m) => text::refused(r, m),
            Ok(a) => r is Ok && r->Ok_0@ == a,
        },
{
    match tokens::split_once(token, '=') {
        None => {
            let shown = outside::debug(token);
            text::refuse(
                "deploy: ".to_owned().concat(flag).concat(" ").concat(shown.as_str()).concat(
                    " must read ROLE=KIND:VALUE, such as ",
                ).concat(flag).concat(" \"api=").concat(ARTIFACT_KIND_IMAGE_ID).concat(
                    ":sha256:<64 hex>\"",
                ),
            )
        },
        Some((name, rest)) => {
            let role = text::trim(name);
            if let Err(e) = valid_role(flag, role) {
                return Err(e);
            }
            match tokens::split_once(rest, ':') {
                None => {
                    let list = kind_list();
                    text::refuse(
                        "deploy: ".to_owned().concat(flag).concat(" role ").concat(role).concat(
                            " names no typed value; it must read ROLE=KIND:VALUE with KIND one of ",
                        ).concat(list.as_str()),
                    )
                },
                Some((typed, said)) => {
                    let kind = text::trim(typed);
                    let value = tokens::to_ascii_lower(text::trim(said));
                    read_typed(flag, role, kind, value)
                },
            }
        },
    }
}

/// The identities that tokens name, one per role, or the first refusal.
pub open spec fn identities_of(list: Seq<Seq<char>>, flag: Seq<char>) -> Result<
    Seq<IdentityView>,
    Seq<char>,
>
    decreases list.len(),
{
    if list.len() == 0 {
        Ok(seq![])
    } else {
        match identities_of(list.drop_last(), flag) {
            Err(m) => Err(m),
            Ok(parsed) => match identity_of(list.last(), flag) {
                Err(m) => Err(m),
                Ok(a) => if roles_of(parsed).contains(a.role) {
                    Err(
                        "deploy: "@ + flag + " names role "@ + a.role
                            + " twice; give one identity per role"@,
                    )
                } else {
                    Ok(parsed.push(a))
                },
            },
        }
    }
}

proof fn lemma_identities_stay(list: Seq<Seq<char>>, flag: Seq<char>, i: int)
    requires
        0 <= i <= list.len(),
        identities_of(list.take(i), flag) is Err,
    ensures
        identities_of(list, flag) == identities_of(list.take(i), flag),
    decreases list.len() - i,
{
    if i < list.len() {
        assert(list.take(i + 1).drop_last() =~= list.take(i));
        lemma_identities_stay(list, flag, i + 1);
    } else {
        assert(list.take(i) =~= list);
    }
}

/// The index of the first identity of a role, or the number of identities.
fn find_role(identities: &[ArtifactIdentity], role: &str) -> (r: usize)
    ensures
        r == tables::first_index(identity_views(identities@), has_role(role@)),
        r <= identities@.len(),
        r < identities@.len() <==> roles_of(identity_views(identities@)).contains(role@),
{
    let ghost all = identity_views(identities@);
    let ghost roles = roles_of(all);
    let mut i: usize = 0;
    while i < identities.len() && !text::same(identities[i].role.as_str(), role)
        invariant
            i <= identities@.len(),
            all == identity_views(identities@),
            roles == roles_of(all),
            forall|k: int| 0 <= k < i ==> !has_role(role@)(#[trigger] all[k]),
        decreases identities.len() - i,
    {
        i = i + 1;
    }
    proof {
        tables::lemma_first_index_is(all, has_role(role@), i as int);
        if i < identities@.len() {
            assert(roles[i as int] == role@);
        } else if roles.contains(role@) {
            let k = choose|k: int| 0 <= k < roles.len() && roles[k] == role@;
            assert(!has_role(role@)(all[k]));
        }
    }
    i
}

/// The roles, in a row.
pub open spec fn role_list(s: Seq<IdentityView>) -> Seq<char> {
    text::joined(roles_of(s), ", "@)
}

fn show_roles(identities: &[ArtifactIdentity]) -> (r: String)
    ensures
        r@ == role_list(identity_views(identities@)),
{
    let ghost wanted = roles_of(identity_views(identities@));
    let mut roles: Vec<String> = Vec::new();
    let mut i: usize = 0;
    while i < identities.len()
        invariant
            i <= identities@.len(),
            wanted == roles_of(identity_views(identities@)),
            text::texts(roles@) == wanted.take(i as int),
        decreases identities.len() - i,
    {
        let ghost before = text::texts(roles@);
        let role = identities[i].role.clone();
        roles.push(role);
        proof {
            assert(text::texts(roles@) =~= before.push(role@));
            assert(wanted.take(i as int + 1) =~= wanted.take(i as int).push(wanted[i as int]));
        }
        i = i + 1;
    }
    proof {
        assert(wanted.take(wanted.len() as int) =~= wanted);
    }
    text::join(roles.as_slice(), ", ")
}

/// The kind and the value, for a refusal that names both.
pub open spec fn named(a: IdentityView) -> Seq<char> {
    a.kind + " "@ + a.value
}

impl ArtifactIdentity {
    /// Reads `ROLE=KIND:VALUE` tokens, named by the flag that carried them; one
    /// identity per role.
    pub fn parse(list: &[String], flag: &str) -> (r: Result<Vec<Self>, Error>)
        ensures
            match identities_of(text::texts(list@), flag@) {
                Err(m) => text::refused(r, m),
                Ok(parsed) => r is Ok && identity_views(r->Ok_0@) == parsed,
            },
    {
        let ghost all = text::texts(list@);
        let mut parsed: Vec<ArtifactIdentity> = Vec::new();
        let mut i: usize = 0;
        proof {
            assert(all.take(0) =~= Seq::<Seq<char>>::empty());
            assert(identity_views(parsed@) =~= seq![]);
        }
        while i < list.len()
            invariant
                i <= list@.len(),
                all == text::texts(list@),
                identities_of(all.take(i as int), flag@) == Ok::<_, Seq<char>>(
                    identity_views(parsed@),
                ),
            decreases list.len() - i,
        {
            proof {
                assert(all.take(i as int + 1).drop_last() =~= all.take(i as int));
            }
            match read_identity(list[i].as_str(), flag) {
                Err(e) => {
                    proof {
                        lemma_identities_stay(all, flag@, i as int + 1);
                    }
                    return Err(e);
                },
                Ok(a) => {
                    if find_role(parsed.as_slice(), a.role.as_str()) < parsed.len() {
                        proof {
                            lemma_identities_stay(all, flag@, i as int + 1);
                        }
                        return text::refuse(
                            "deploy: ".to_owned().concat(flag).concat(" names role ").concat(
                                a.role.as_str(),
                            ).concat(" twice; give one identity per role"),
                        );
                    }
                    let ghost before = identity_views(parsed@);
                    parsed.push(a);
                    proof {
                        assert(identity_views(parsed@) =~= before.push(a@));
                    }
                },
            }
            i = i + 1;
        }
        proof {
            assert(all.take(all.len() as int) =~= all);
        }
        Ok(parsed)
    }

    /// The kind and the value.
    pub fn named(&self) -> (r: String)
        ensures
            r@ == named(self@),
    {
        self.kind.clone().concat(" ").concat(self.value.as_str())
    }
}

// ----------------------------------------------------------------------- verification

/// One expected identity, and what was observed for it.
#[derive(Debug, Clone, PartialEq, Eq)]
pub struct ArtifactVerification {
    pub role: String,
    pub kind: String,
    pub expected: String,
    pub observed: Option<String>,
}

/// An observation of a role that is not expected is refused.
pub open spec fn extra_refusal(id: Seq<char>, expected: Seq<IdentityView>) -> spec_fn(
    IdentityView,
) -> Option<Seq<char>> {
    |offered: IdentityView|
        if roles_of(expected).contains(offered.role) {
            None
        } else {
            Some(
                "deployment "@ + id + " does not expect artifact role "@ + offered.role
                    + "; its expected roles are "@ + role_list(expected),
            )
        }
}

/// An expectation without an observation of its role, kind and value is refused.
pub open spec fn mismatch(id: Seq<char>, observed: Seq<IdentityView>) -> spec_fn(
    IdentityView,
) -> Option<Seq<char>> {
    |a: IdentityView|
        {
            let n = tables::first_index(observed, has_role(a.role));
            let offered = observed[n];
            if n >= observed.len() {
                Some(
                    "deployment "@ + id + " expects artifact role "@ + a.role + " ("@ + named(a)
                        + ") and --observed named no identity for it"@,
                )
            } else if offered.kind != a.kind {
                Some(
                    "deployment "@ + id + " artifact role "@ + a.role + " expects "@ + named(a)
                        + " but --observed offered "@ + named(offered) + "; a "@
                        + ARTIFACT_KIND_IMAGE_ID@ + " and an "@
                        + ARTIFACT_KIND_MANIFEST_DIGEST@
                        + " are never compared to each other"@,
                )
            } else if offered.value != a.value {
                Some(
                    "deployment "@ + id + " artifact role "@ + a.role + " expects "@ + named(a)
                        + " but --observed offered "@ + named(offered),
                )
            } else {
                None
            }
        }
}

/// What an observation is refused with: roles that are not expected come before roles
/// that were not observed.
pub open spec fn verify_refusal(
    id: Seq<char>,
    expected: Seq<IdentityView>,
    observed: Seq<IdentityView>,
) -> Option<Seq<char>> {
    match tokens::first_refusal(observed, extra_refusal(id, expected)) {
        Some(m) => Some(m),
        None => tokens::first_refusal(expected, mismatch(id, observed)),
    }
}

fn check_extra(id: &str, expected: &[ArtifactIdentity], observed: &[ArtifactIdentity]) -> (r:
    Result<(), Error>)
    ensures
        match tokens::first_refusal(
            identity_views(observed@),
            extra_refusal(id@, identity_views(expected@)),
        ) {
            Some(m) => text::refused(r, m),
            None => r is Ok,
        },
{
    let ghost all = identity_views(observed@);
    let ghost refusal = extra_refusal(id@, identity_views(expected@));
    let mut i: usize = 0;
    proof {
        assert(all.take(0) =~= Seq::<IdentityView>::empty());
    }
    while i < observed.len()
        invariant
            i <= observed@.len(),
            all == identity_views(observed@),
            refusal == extra_refusal(id@, identity_views(expected@)),
            tokens::first_refusal(all.take(i as int), refusal) is None,
        decreases observed.len() - i,
    {
        proof {
            tokens::lemma_first_refusal_step(all, refusal, i as int);
        }
        let role = observed[i].role.as_str();
        if find_role(expected, role) >= expected.len() {
            proof {
                tokens::lemma_first_refusal_stays(all, refusal, i as int + 1);
            }
            let roles = show_roles(expected);
            return text::refuse(
                "deployment ".to_owned().concat(id).concat(
                    " does not expect artifact role ",
                ).concat(role).concat("; its expected roles are ").concat(roles.as_str()),
            );
        }
        i = i + 1;
    }
    proof {
        assert(all.take(all.len() as int) =~= all);
    }
    Ok(())
}

fn match_one(id: &str, artifact: &ArtifactIdentity, observed: &[ArtifactIdentity]) -> (r: Result<
    ArtifactIdentity,
    Error,
>)
    ensures
        match mismatch(id@, identity_views(observed@))(artifact@) {
            Some(m) => text::refused(r, m),
            None => r is Ok && r->Ok_0@ == artifact@,
        },
{
    let wanted = artifact.named();
    let role = artifact.role.as_str();
    let n: usize = find_role(observed, role);
    if n >= observed.len() {
        return text::refuse(
            "deployment ".to_owned().concat(id).concat(" expects artifact role ").concat(
                role,
            ).concat(" (").concat(wanted.as_str()).concat(
                ") and --observed named no identity for it",
            ),
        );
    }
    proof {
        let all = identity_views(observed@);
        tables::lemma_first_index(all, has_role(role@));
        assert(has_role(role@)(all[n as int]));
    }
    let offered = &observed[n];
    let got = offered.named();
    if !text::same(offered.kind.as_str(), artifact.kind.as_str()) {
        return text::refuse(
            "deployment ".to_owned().concat(id).concat(" artifact role ").concat(role).concat(
                " expects ",
            ).concat(wanted.as_str()).concat(" but --observed offered ").concat(
                got.as_str(),
            ).concat("; a ").concat(ARTIFACT_KIND_IMAGE_ID).concat(" and an ").concat(
                ARTIFACT_KIND_MANIFEST_DIGEST,
            ).concat(" are never compared to each other"),
        );
    }
    if !text::same(offered.value.as_str(), artifact.value.as_str()) {
        return text::refuse(
            "deployment ".to_owned().concat(id).concat(" artifact role ").concat(role).concat(
                " expects ",
            ).concat(wanted.as_str()).concat(" but --observed offered ").concat(got.as_str()),
        );
    }
    Ok(offered.clone())
}

/// Matches what was observed against what was expected, role by role and kind by kind.
/// The answer is in the order of the expectations, and says what they say.
pub fn verify_artifacts(
    id: &str,
    expected: &[ArtifactIdentity],
    observed: &[ArtifactIdentity],
) -> (r: Result<Vec<ArtifactIdentity>, Error>)
    ensures
        match verify_refusal(id@, identity_views(expected@), identity_views(observed@)) {
            Some(m) => text::refused(r, m),
            None => r is Ok && identity_views(r->Ok_0@) == identity_views(expected@),
        },
{
    if let Err(e) = check_extra(id, expected, observed) {
        return Err(e);
    }
    let ghost all = identity_views(expected@);
    let ghost refusal = mismatch(id@, identity_views(observed@));
    let mut verified: Vec<ArtifactIdentity> = Vec::new();
    let mut i: usize = 0;
    proof {
        assert(all.take(0) =~= Seq::<IdentityView>::empty());
    }
    while i < expected.len()
        invariant
            i <= expected@.len(),
            all == identity_views(expected@),
            refusal == mismatch(id@, identity_views(observed@)),
            tokens::first_refusal(
                identity_views(observed@),
                extra_refusal(id@, identity_views(expected@)),
            ) is None,
            tokens::first_refusal(all.take(i as int), refusal) is None,
            identity_views(verified@) == all.take(i as int),
        decreases expected.len() - i,
    {
        proof {
            tokens::lemma_first_refusal_step(all, refusal, i as int);
        }
        let ghost before = identity_views(verified@);
        match match_one(id, &expected[i], observed) {
            Err(e) => {
                proof {
                    tokens::lemma_first_refusal_stays(all, refusal, i as int + 1);
                }
                return Err(e);
            },
            Ok(a) => {
                verified.push(a);
                proof {
                    assert(identity_views(verified@) =~= before.push(a@));
                    assert(all.take(i as int + 1) =~= all.take(i as int).push(all[i as int]));
                }
            },
        }
        i = i + 1;
    }
    proof {
        assert(all.take(all.len() as int) =~= all);
    }
    Ok(verified)
}

// ------------------------------------------------------------------------------ modes

/// What one attempt proves itself with: exactly one mode.
#[derive(Debug, Clone, PartialEq, Eq)]
pub enum DeployIdentity {
    Git(String),
    Artifact(Vec<ArtifactIdentity>),
}

/// What a resolved identity says.
pub enum ModeView {
    Git(Seq<char>),
    Artifact(Seq<IdentityView>),
}

impl View for DeployIdentity {
    type V = ModeView;

    open spec fn view(&self) -> ModeView {
        match *self {
            DeployIdentity::Git(commit) => ModeView::Git(commit@),
            DeployIdentity::Artifact(list) => ModeView::Artifact(identity_views(list@)),
        }
    }
}

/// The one mode that the flags name, or the refusal that says which to use.
pub open spec fn mode_of(
    commit: Option<Seq<char>>,
    build_commit: Option<Seq<char>>,
    artifacts: Seq<Seq<char>>,
) -> Result<ModeView, Seq<char>> {
    match commit {
        Some(named) => if artifacts.len() > 0 {
            Err(
                "deploy: --commit names a Git-mode attempt and --artifact names an artifact-identity attempt; one mode per attempt, so pass one or the other"@,
            )
        } else if build_commit is Some {
            Err(
                "deploy: --build-commit "@ + outside::debug_text(build_commit->0)
                    + " belongs to artifact mode; the Git path names its commit with --commit FULL_SHA"@,
            )
        } else {
            match commit_of(named) {
                Some(full) => Ok(ModeView::Git(full)),
                None => Err("commit"@ + " must be a full 40-character hexadecimal commit"@),
            }
        },
        None => if artifacts.len() == 0 {
            Err(
                "deploy start requires --commit FULL_SHA (the verified Git path) or --artifact ROLE=KIND:VALUE with --build-commit unknown (the artifact-identity recovery path)"@,
            )
        } else {
            match build_commit {
                None => Err(
                    "deploy: artifact mode requires --build-commit unknown, so a missing build commit is stated rather than defaulted"@,
                ),
                Some(said) => artifact_mode(text::trimmed(said), artifacts),
            }
        },
    }
}

pub open spec fn artifact_mode(stated: Seq<char>, artifacts: Seq<Seq<char>>) -> Result<
    ModeView,
    Seq<char>,
> {
    match commit_of(stated) {
        Some(full) => Err(
            "deploy: --build-commit "@ + full
                + " is a full Git commit, so this build's provenance is known; use the Git mode with --commit "@
                + full + " instead of --artifact"@,
        ),
        None => if stated != UNKNOWN_BUILD_COMMIT@ {
            Err(
                "deploy: --build-commit must be the literal unknown in artifact mode, got "@
                    + outside::debug_text(stated),
            )
        } else {
            match identities_of(artifacts, "--artifact"@) {
                Err(m) => Err(m),
                Ok(parsed) => Ok(ModeView::Artifact(parsed)),
            }
        },
    }
}

pub open spec fn is_resolved(
    r: Result<DeployIdentity, Error>,
    wanted: Result<ModeView, Seq<char>>,
) -> bool {
    match wanted {
        Err(m) => text::refused(r, m),
        Ok(mode) => r is Ok && r->Ok_0@ == mode,
    }
}

fn resolve_artifacts(stated: &str, artifacts: &[String]) -> (r: Result<DeployIdentity, Error>)
    ensures
        is_resolved(r, artifact_mode(stated@, text::texts(artifacts@))),
{
    if let Ok(commit) = full_commit(stated, "build commit") {
        return text::refuse(
            "deploy: --build-commit ".to_owned().concat(commit.as_str()).concat(
                " is a full Git commit, so this build's provenance is known; use the Git mode with --commit ",
            ).concat(commit.as_str()).concat(" instead of --artifact"),
        );
    }
    if !text::same(stated, UNKNOWN_BUILD_COMMIT) {
        let shown = outside::debug(stated);
        return text::refuse(
            "deploy: --build-commit must be the literal unknown in artifact mode, got ".to_owned().concat(
            shown.as_str()),
        );
    }
    match ArtifactIdentity::parse(artifacts, "--artifact") {
        Ok(parsed) => Ok(DeployIdentity::Artifact(parsed)),
        Err(e) => Err(e),
    }
}

impl DeployIdentity {
    /// Resolves the flags that a caller passed into exactly one mode.
    pub fn parse(commit: Option<&str>, build_commit: Option<&str>, artifacts: &[String]) -> (r:
        Result<Self, Error>)
        ensures
            is_resolved(
                r,
                mode_of(
                    text::str_of(commit),
                    text::str_of(build_commit),
                    text::texts(artifacts@),
                ),
            ),
    {
        match commit {
            Some(named) => {
                if artifacts.len() > 0 {
                    return text::refuse(
                        "deploy: --commit names a Git-mode attempt and --artifact names an artifact-identity attempt; one mode per attempt, so pass one or the other".to_owned(),
                    );
                }
                if let Some(stated) = build_commit {
                    let shown = outside::debug(stated);
                    return text::refuse(
                        "deploy: --build-commit ".to_owned().concat(shown.as_str()).concat(
                            " belongs to artifact mode; the Git path names its commit with --commit FULL_SHA",
                        ),
                    );
                }
                match full_commit(named, "commit") {
                    Ok(full) => Ok(DeployIdentity::Git(full)),
                    Err(e) => Err(e),
                }
            },
            None => {
                if artifacts.len() == 0 {
                    return text::refuse(
                        "deploy start requires --commit FULL_SHA (the verified Git path) or --artifact ROLE=KIND:VALUE with --build-commit unknown (the artifact-identity recovery path)".to_owned(),
                    );
                }
                match build_commit {
                    None => text::refuse(
                        "deploy: artifact mode requires --build-commit unknown, so a missing build commit is stated rather than defaulted".to_owned(),
                    ),
                    Some(said) => resolve_artifacts(text::trim(said), artifacts),
                }
            },
        }
    }

    /// The mode that a row records.
    pub fn mode(&self) -> (r: &'static str)
        ensures
            r@ == match self@ {
                ModeView::Git(_) => IDENTITY_MODE_GIT@,
                ModeView::Artifact(_) => IDENTITY_MODE_ARTIFACT@,
            },
    {
        match self {
            DeployIdentity::Git(_) => IDENTITY_MODE_GIT,
            DeployIdentity::Artifact(_) => IDENTITY_MODE_ARTIFACT,
        }
    }

    /// The build commit that a row records; the literal `unknown` in artifact mode.
    pub fn build_commit(&self) -> (r: &str)
        ensures
            r@ == match self@ {
                ModeView::Git(commit) => commit,
                ModeView::Artifact(_) => UNKNOWN_BUILD_COMMIT@,
            },
    {
        match self {
            DeployIdentity::Git(commit) => commit.as_str(),
            DeployIdentity::Artifact(_) => UNKNOWN_BUILD_COMMIT,
        }
    }

    /// The expected identities; none in Git mode.
    pub fn artifacts(&self) -> (r: &[ArtifactIdentity])
        ensures
            identity_views(r@) == match self@ {
                ModeView::Git(_) => seq![],
                ModeView::Artifact(list) => list,
            },
    {
        match self {
            DeployIdentity::Git(_) => {
                let none: &[ArtifactIdentity] = &[];
                proof {
                    assert(identity_views(none@) =~= seq![]);
                }
                none
            },
            DeployIdentity::Artifact(list) => list.as_slice(),
        }
    }
}

/// What is shown for the build commit of an attempt: the commit, or the words that
/// say that there is none.
pub fn build_commit_label(identity_mode: &str, build_commit: &str) -> (r: String)
    ensures
        r@ == if identity_mode@ == IDENTITY_MODE_ARTIFACT@ {
            UNKNOWN_BUILD_COMMIT_WORDS@
        } else {
            build_commit@
        },
{
    if text::same(identity_mode, IDENTITY_MODE_ARTIFACT) {
        UNKNOWN_BUILD_COMMIT_WORDS.to_owned()
    } else {
        build_commit.to_owned()
    }
}

// ---------------------------------------------------------------------------- records

/// One immutable deployment attempt.
#[derive(Debug, Clone)]
pub struct DeploymentAttempt {
    pub id: String,
    pub task_id: Option<String>,
    pub repo: String,
    pub identity_mode: String,
    pub build_commit: String,
    pub build_commit_label: String,
    pub deployer_checkout: Option<String>,
    pub branch: Option<String>,
    pub tier: String,
    pub environment: String,
    pub host: String,
    pub url: String,
    pub mechanism: Option<String>,
    pub operation_id: Option<String>,
    pub retry_of: Option<String>,
    pub status: String,
    pub phase: Option<String>,
    pub actor: String,
    pub lane: Option<String>,
    pub receipt: Option<String>,
    pub artifact_uri: Option<String>,
    pub served_commit: Option<String>,
    pub artifacts: Vec<ArtifactVerification>,
    pub created_at: i64,
    pub updated_at: i64,
    pub completed_at: Option<i64>,
    pub archived: bool,
    pub archived_at: Option<i64>,
}

/// Receipt for a started deployment.
#[derive(Debug, Clone)]
pub struct DeploymentStartReceipt {
    pub deployment: DeploymentAttempt,
    pub capability_token: String,
    pub idempotent_replay: bool,
}

/// What a deployment is started with.
#[derive(Debug, Clone)]
pub struct StartDeployment {
    pub task_id: Option<String>,
    pub repo: String,
    pub identity: DeployIdentity,
    pub deployer_checkout: Option<String>,
    pub branch: Option<String>,
    pub tier: String,
    pub environment: String,
    pub host: String,
    pub url: String,
    pub mechanism: Option<String>,
    pub operation_id: Option<String>,
    pub retry_of: Option<String>,
    pub actor: String,
    pub lane: Option<String>,
}

/// What a deployment is finished with.
#[derive(Debug, Clone)]
pub struct FinishDeployment {
    pub id: String,
    pub capability_token: String,
    pub result: String,
    pub phase: Option<String>,
    pub receipt: Option<String>,
    pub artifact_uri: Option<String>,
    pub served_commit: Option<String>,
    pub observed: Vec<ArtifactIdentity>,
    pub actor: String,
}

// ------------------------------------------------------------------------------- laws

/// A sound identity: a slug for a role, a known kind and a digest.
pub open spec fn is_identity(a: IdentityView) -> bool {
    tokens::is_slug(a.role) && identity_kinds().contains(a.kind) && is_digest(a.value)
}

/// The token that an identity is written as.
pub open spec fn token_of(a: IdentityView) -> Seq<char> {
    a.role + seq!['='] + (a.kind + seq![':'] + a.value)
}

/// An identity is read back from its token as it is.
pub proof fn law_identity_reads_back(a: IdentityView, flag: Seq<char>)
    requires
        is_identity(a),
    ensures
        identity_of(token_of(a), flag) == Ok::<IdentityView, Seq<char>>(a),
{
    reveal_strlit("docker-image-id");
    reveal_strlit("oci-manifest-digest");
    reveal_strlit("sha256:");
    tokens::lemma_slug_trimmed(a.role);
    let kinds = identity_kinds();
    let k = choose|k: int| 0 <= k < kinds.len() && kinds[k] == a.kind;
    assert(kinds[0] == "docker-image-id"@ && kinds[1] == "oci-manifest-digest"@);
    assert(tokens::is_slug(a.kind)) by {
        let s = a.kind;
        assert forall|i: int| 0 <= i < s.len() implies tokens::is_slug_letter(#[trigger] s[i])
            || s[i] == '-' by {}
    }
    tokens::lemma_slug_trimmed(a.kind);
    tokens::lemma_parted_at(a.role, '=', a.kind + seq![':'] + a.value);
    tokens::lemma_parted_at(a.kind, ':', a.value);
    let rest = a.value.skip(7);
    assert("sha256:"@.len() == 7);
    assert(a.value[0] == "sha256:"@[0]);
    assert(a.value.last() == rest.last());
    assert(text::is_lower_hex(rest[63]));
    tokens::lemma_trimmed_already(a.value);
    assert(tokens::ascii_lowered(a.value) =~= a.value) by {
        assert forall|i: int| 0 <= i < a.value.len() implies tokens::ascii_lowered(a.value)[i]
            == a.value[i] by {
            if i < 7 {
                assert(a.value[i] == "sha256:"@[i]);
            } else {
                assert(text::is_lower_hex(rest[i - 7]));
            }
        }
    }
}

/// What was read names each role once, and is sound.
pub proof fn law_read_identities_are_sound(list: Seq<Seq<char>>, flag: Seq<char>)
    requires
        identities_of(list, flag) is Ok,
    ensures
        identities_of(list, flag)->Ok_0.len() == list.len(),
        roles_of(identities_of(list, flag)->Ok_0).no_duplicates(),
        forall|i: int|
            0 <= i < list.len() ==> is_identity(#[trigger] identities_of(list, flag)->Ok_0[i]),
    decreases list.len(),
{
    if list.len() > 0 {
        let rest = list.drop_last();
        law_read_identities_are_sound(rest, flag);
        let parsed = identities_of(rest, flag)->Ok_0;
        let a = identity_of(list.last(), flag)->Ok_0;
        assert(roles_of(parsed.push(a)) =~= roles_of(parsed).push(a.role));
        let roles = roles_of(parsed);
        assert forall|i: int, j: int|
            0 <= i < j < roles.push(a.role).len() implies roles.push(a.role)[i]
            != roles.push(a.role)[j] by {
            if j == roles.len() {
                assert(roles.contains(roles[i]));
            }
        }
    }
}

/// Expectations verify against themselves, in whatever order they are observed.
pub proof fn law_order_is_not_identity(
    id: Seq<char>,
    expected: Seq<IdentityView>,
    observed: Seq<IdentityView>,
)
    requires
        roles_of(expected).no_duplicates(),
        observed.to_multiset() == expected.to_multiset(),
    ensures
        verify_refusal(id, expected, observed) is None,
{
    observed.to_multiset_ensures();
    expected.to_multiset_ensures();
    let extra = extra_refusal(id, expected);
    assert forall|i: int| 0 <= i < observed.len() implies extra(#[trigger] observed[i]) is None by {
        let o = observed[i];
        assert(observed.contains(o));
        assert(observed.to_multiset().count(o) > 0);
        assert(expected.contains(o));
        let k = choose|k: int| 0 <= k < expected.len() && expected[k] == o;
        assert(roles_of(expected)[k] == o.role);
    }
    tokens::lemma_first_refusal(observed, extra);
    let wrong = mismatch(id, observed);
    assert forall|i: int| 0 <= i < expected.len() implies wrong(#[trigger] expected[i]) is None by {
        let a = expected[i];
        assert(expected.contains(a));
        assert(expected.to_multiset().count(a) > 0);
        assert(observed.contains(a));
        let k = choose|k: int| 0 <= k < observed.len() && observed[k] == a;
        let p = has_role(a.role);
        tables::lemma_first_index(observed, p);
        assert(p(observed[k]));
        let n = tables::first_index(observed, p);
        let o = observed[n];
        assert(p(o));
        assert(observed.contains(o));
        assert(observed.to_multiset().count(o) > 0);
        assert(expected.contains(o));
        let j = choose|j: int| 0 <= j < expected.len() && expected[j] == o;
        assert(roles_of(expected)[j] == roles_of(expected)[i]);
        assert(o == a);
    }
    tokens::lemma_first_refusal(expected, wrong);
}

/// What verifies observed every expected identity, and no role beside them.
pub proof fn law_verified_means_observed(
    id: Seq<char>,
    expected: Seq<IdentityView>,
    observed: Seq<IdentityView>,
)
    requires
        verify_refusal(id, expected, observed) is None,
    ensures
        forall|i: int| 0 <= i < expected.len() ==> observed.contains(#[trigger] expected[i]),
        forall|i: int|
            0 <= i < observed.len() ==> roles_of(expected).contains(
                (#[trigger] observed[i]).role,
            ),
{
    let extra = extra_refusal(id, expected);
    let wrong = mismatch(id, observed);
    tokens::lemma_first_refusal(observed, extra);
    tokens::lemma_first_refusal(expected, wrong);
    assert forall|i: int| 0 <= i < expected.len() implies observed.contains(
        #[trigger] expected[i],
    ) by {
        assert(wrong(expected[i]) is None);
        let p = has_role(expected[i].role);
        tables::lemma_first_index(observed, p);
        let n = tables::first_index(observed, p);
        assert(p(observed[n]));
        assert(observed[n] == expected[i]);
    }
    assert forall|i: int| 0 <= i < observed.len() implies roles_of(expected).contains(
        (#[trigger] observed[i]).role,
    ) by {
        assert(extra(observed[i]) is None);
    }
}

/// A known build commit never passes as unknown: artifact mode is refused wherever a
/// full commit is stated.
pub proof fn law_known_commit_is_never_unknown(
    build_commit: Seq<char>,
    artifacts: Seq<Seq<char>>,
)
    requires
        commit_of(text::trimmed(build_commit)) is Some,
    ensures
        mode_of(None, Some(build_commit), artifacts) is Err,
{
}

} // verus!
