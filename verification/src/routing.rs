//! The boundary of managed mode: which selectors go round the broker, and when they
//! are refused.

use vstd::prelude::*;

use crate::text;
use crate::text::Error;

verus! {

/// The ways round the broker, each of which a managed caller is refused by name.
#[derive(Debug, Clone, Copy, PartialEq, Eq, Structural)]
pub enum SelectorBypass {
    /// `--db`: a board file opened directly.
    DirectDb,
    /// `KANBAN_DATA_DIR`: another data root.
    RootPath,
    /// `--workspace`: a project by its path.
    Workspace,
    /// `--project`: a project by its name.
    Project,
    /// `KANBAN_DB` and `KANBAN_PROJECT`: defaults for the two.
    EnvironmentSelector,
}

pub open spec fn selector_text(bypass: SelectorBypass) -> Seq<char> {
    match bypass {
        SelectorBypass::DirectDb => "--db"@,
        SelectorBypass::RootPath => "KANBAN_DATA_DIR"@,
        SelectorBypass::Workspace => "--workspace"@,
        SelectorBypass::Project => "--project"@,
        SelectorBypass::EnvironmentSelector => "KANBAN_DB / KANBAN_PROJECT"@,
    }
}

pub open spec fn reason_text(bypass: SelectorBypass) -> Seq<char> {
    match bypass {
        SelectorBypass::DirectDb =>
            "the broker owns board data and opens it for you; a direct database path bypasses the broker"@,
        SelectorBypass::RootPath =>
            "the broker owns the data root; the caller cannot repoint it"@,
        SelectorBypass::Workspace =>
            "board selection is the broker's, not a caller-chosen filesystem path"@,
        SelectorBypass::Project =>
            "board selection is the broker's, not a caller-chosen project name"@,
        SelectorBypass::EnvironmentSelector =>
            "board selection is the broker's, not an environment default"@,
    }
}

/// The refusal of one bypass, by its name.
pub open spec fn refusal_text(bypass: SelectorBypass) -> Seq<char> {
    "managed mode refuses "@ + selector_text(bypass) + ": "@ + reason_text(bypass)
}

impl SelectorBypass {
    /// The selector as the caller wrote it.
    pub fn as_str(self) -> (r: &'static str)
        ensures
            r@ == selector_text(self),
    {
        match self {
            SelectorBypass::DirectDb => "--db",
            SelectorBypass::RootPath => "KANBAN_DATA_DIR",
            SelectorBypass::Workspace => "--workspace",
            SelectorBypass::Project => "--project",
            SelectorBypass::EnvironmentSelector => "KANBAN_DB / KANBAN_PROJECT",
        }
    }

    /// The refusal of this bypass.
    pub fn refusal(self) -> (r: String)
        ensures
            r@ == refusal_text(self),
    {
        let reason = match self {
            SelectorBypass::DirectDb =>
                "the broker owns board data and opens it for you; a direct database path bypasses the broker",
            SelectorBypass::RootPath =>
                "the broker owns the data root; the caller cannot repoint it",
            SelectorBypass::Workspace =>
                "board selection is the broker's, not a caller-chosen filesystem path",
            SelectorBypass::Project =>
                "board selection is the broker's, not a caller-chosen project name",
            SelectorBypass::EnvironmentSelector =>
                "board selection is the broker's, not an environment default",
        };
        "managed mode refuses ".to_owned().concat(self.as_str()).concat(": ").concat(reason)
    }
}

/// How far enforcement has come. The way leads from direct to prepared to managed, and
/// never back.
#[derive(Debug, Clone, Copy, PartialEq, Eq, Structural)]
pub enum Enforcement {
    Direct,
    Prepared,
    Managed,
}

/// What a stored state says. One that is not known here counts as managed: direct is
/// the permissive end, so nothing may land there by accident.
pub open spec fn enforcement_of(state: Seq<char>) -> Enforcement {
    if state == "direct"@ {
        Enforcement::Direct
    } else if state == "prepared"@ {
        Enforcement::Prepared
    } else {
        Enforcement::Managed
    }
}

impl Enforcement {
    /// Reads a stored state.
    pub fn parse(state: &str) -> (r: Enforcement)
        ensures
            r == enforcement_of(state@),
    {
        if text::same(state, "direct") {
            Enforcement::Direct
        } else if text::same(state, "prepared") {
            Enforcement::Prepared
        } else {
            Enforcement::Managed
        }
    }

    pub fn is_managed(self) -> (r: bool)
        ensures
            r == (self == Enforcement::Managed),
    {
        match self {
            Enforcement::Managed => true,
            _ => false,
        }
    }
}

/// The refusal of the first bypass that is present. Only a managed state refuses, and
/// then it always does.
pub fn refusal(state: Enforcement, bypasses: &[SelectorBypass]) -> (r: Option<String>)
    ensures
        text::text_of(r) == if state == Enforcement::Managed && bypasses@.len() > 0 {
            Some(refusal_text(bypasses@[0]))
        } else {
            None
        },
{
    if !state.is_managed() || bypasses.len() == 0 {
        return None;
    }
    Some(bypasses[0].refusal())
}

/// The registry schema that first held a state of enforcement.
pub const ENFORCEMENT_STATE_SCHEMA: i64 = 14;

/// What an attempt to read the registry came to.
#[derive(Debug)]
pub enum RegistryReading {
    /// There is no registry file.
    Absent,
    /// The file may not be opened.
    Denied,
    /// The file cannot be read, and why.
    Unreadable(String),
    /// The schema of the registry, and the stored state or why it cannot be read.
    Read { schema: i64, state: Result<String, String> },
}

/// What a reading decides, or why it decides nothing.
pub open spec fn decided(reading: RegistryReading) -> Result<Enforcement, Seq<char>> {
    match reading {
        RegistryReading::Absent => Ok(Enforcement::Direct),
        RegistryReading::Denied => Ok(Enforcement::Managed),
        RegistryReading::Unreadable(why) => Err(why@),
        RegistryReading::Read { schema, state } => if schema < ENFORCEMENT_STATE_SCHEMA {
            Ok(Enforcement::Direct)
        } else {
            match state {
                Ok(stored) => Ok(enforcement_of(stored@)),
                Err(why) => Err(why@),
            }
        },
    }
}

/// The state of enforcement that a reading of the registry shows. No registry, and one
/// from before enforcement, are not managed; a registry that may not be opened is; and
/// what cannot be read is an error.
pub fn enforcement_state_at(reading: RegistryReading) -> (r: Result<Enforcement, Error>)
    ensures
        match decided(reading) {
            Ok(state) => r == Ok::<Enforcement, Error>(state),
            Err(why) => text::refused(r, why),
        },
{
    match reading {
        RegistryReading::Absent => Ok(Enforcement::Direct),
        RegistryReading::Denied => Ok(Enforcement::Managed),
        RegistryReading::Unreadable(why) => text::refuse(why),
        RegistryReading::Read { schema, state } => {
            if schema < ENFORCEMENT_STATE_SCHEMA {
                return Ok(Enforcement::Direct);
            }
            match state {
                Ok(stored) => Ok(Enforcement::parse(stored.as_str())),
                Err(why) => text::refuse(why),
            }
        },
    }
}

/// Only a registry that is absent, one from before enforcement, and one that stores
/// just that are direct: nothing that cannot be read ever is.
pub proof fn law_direct_is_never_a_guess(reading: RegistryReading)
    requires
        decided(reading) == Ok::<Enforcement, Seq<char>>(Enforcement::Direct),
    ensures
        reading is Absent || (reading is Read && (reading->schema < ENFORCEMENT_STATE_SCHEMA || (
        reading->state is Ok && reading->state->Ok_0@ == "direct"@))),
{
}

} // verus!
