//! The shapes of the build tool's progress messages that the engine
//! consumes, and the classification of message kinds.
//!
//! Reading and decoding the JSON stream is the orchestration layer's
//! work; the library only defines the data it needs from it and decides
//! which message kinds matter.

use vstd::prelude::*;

use crate::strutil::str_eq;

verus! {

/// One build target as a progress message names it.
#[derive(Clone, Debug)]
pub struct CargoTarget {
    /// The name of the build target.
    pub name: Option<String>,
    /// The target kinds, as given.
    pub kind: Option<Vec<String>>,
    /// The crate types, as given.
    pub crate_types: Option<Vec<String>>,
}

/// Why a progress message could not be used.
#[derive(Clone, Debug)]
pub enum CargoMessageError {
    UnknownReason(String),
    MissingTarget(String),
    MissingDuration,
    MissingCrateName,
    MissingFilenames,
    InvalidJson(String),
}

/// The kinds of progress message the engine distinguishes.
#[derive(Clone, Copy, Debug, PartialEq, Eq, Structural)]
pub enum MessageKind {
    /// Carries one unit's build duration.
    TimingInfo,
    /// Names the files one unit produced.
    CompilerArtifact,
    /// A known kind the engine has no use for.
    Ignored,
    /// Anything else.
    Unknown,
}

/// How a message's `reason` field is classified.
pub open spec fn spec_message_kind(reason: Seq<char>) -> MessageKind {
    if reason == "timing-info"@ {
        MessageKind::TimingInfo
    } else if reason == "compiler-artifact"@ {
        MessageKind::CompilerArtifact
    } else if reason == "build-script-executed"@ || reason == "compiler-message"@ || reason
        == "build-finished"@ {
        MessageKind::Ignored
    } else {
        MessageKind::Unknown
    }
}

/// Classifies one progress message by its `reason` field: the two kinds
/// the engine consumes, the three it knowingly ignores, and the rest.
pub fn classify_message_reason(reason: &str) -> (r: MessageKind)
    ensures
        r == spec_message_kind(reason@),
{
    if str_eq(reason, "timing-info") {
        MessageKind::TimingInfo
    } else if str_eq(reason, "compiler-artifact") {
        MessageKind::CompilerArtifact
    } else if str_eq(reason, "build-script-executed") || str_eq(reason, "compiler-message")
        || str_eq(reason, "build-finished") {
        MessageKind::Ignored
    } else {
        MessageKind::Unknown
    }
}

} // verus!
