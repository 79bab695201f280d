//! The options the command line hands the engine, and the small decisions
//! made on them.
//!
//! Argument parsing itself, terminals and process spawning belong to the
//! layer around the library.

use vstd::prelude::*;

use crate::strutil::str_eq;

verus! {

/// How results are printed.
#[derive(Clone, Copy, Debug, PartialEq, Eq, Structural)]
pub enum MessageFormat {
    Table,
    Json,
}

/// Everything the command line can ask for.
#[derive(Clone, Debug)]
pub struct Args {
    pub help: bool,
    pub version: bool,
    pub lib: bool,
    pub bin: Option<String>,
    pub example: Option<String>,
    pub test: Option<String>,
    pub package: Option<String>,
    pub release: bool,
    pub jobs: Option<u32>,
    pub features: Option<String>,
    pub all_features: bool,
    pub no_default_features: bool,
    pub profile: Option<String>,
    pub config: Option<String>,
    pub target: Option<String>,
    pub target_dir: Option<String>,
    pub frozen: bool,
    pub locked: bool,
    pub unstable: Vec<String>,
    pub crates: bool,
    pub filter: Option<String>,
    pub split_std: bool,
    pub symbols_section: Option<String>,
    pub no_relative_size: bool,
    pub full_fn: bool,
    pub n: usize,
    pub wide: bool,
    pub verbose: bool,
    pub manifest_path: Option<String>,
    pub message_format: MessageFormat,
}

/// The profile a build uses: the named one when given, `release` under
/// the release switch, `dev` otherwise.
pub open spec fn spec_profile(a: Args) -> Seq<char> {
    match a.profile {
        Some(p) => p@,
        None => if a.release {
            "release"@
        } else {
            "dev"@
        },
    }
}

impl Args {
    /// The profile this invocation builds with.
    pub fn get_profile(&self) -> (r: &str)
        ensures
            r@ == spec_profile(*self),
    {
        match &self.profile {
            Some(p) => p.as_str(),
            None => if self.release {
                "release"
            } else {
                "dev"
            },
        }
    }
}

/// How a format name is understood: the two known names, or nothing.
pub open spec fn spec_message_format(s: Seq<char>) -> Option<MessageFormat> {
    if s == "table"@ {
        Some(MessageFormat::Table)
    } else if s == "json"@ {
        Some(MessageFormat::Json)
    } else {
        None
    }
}

/// Parses an output-format name; any unknown name is rejected with a
/// fixed message.
pub fn parse_message_format(s: &str) -> (r: Result<MessageFormat, &'static str>)
    ensures
        match r {
            Ok(f) => spec_message_format(s@) == Some(f),
            Err(m) => spec_message_format(s@) is None && m@ == "invalid message format"@,
        },
{
    if str_eq(s, "table") {
        Ok(MessageFormat::Table)
    } else if str_eq(s, "json") {
        Ok(MessageFormat::Json)
    } else {
        Err("invalid message format")
    }
}

} // verus!
