//! The closed registry of supported checker tools.

use vstd::prelude::*;
use crate::strutil;

verus! {

/// Capacity hint: the number of checkers commonly planned per package.
pub const TOOLS: usize = 11;

/// A supported checker tool. The registry is closed: no dynamic registration.
///
/// `Cargo` is a synthetic pseudo-tool standing for a generic build error in
/// the tool's stderr that is not attributable to the checker itself.
#[derive(Debug, Clone, Copy, PartialEq, Eq, Structural)]
pub enum CheckerTool {
    Fmt,
    Clippy,
    Miri,
    SemverChecks,
    Audit,
    Mirai,
    Lockbud,
    Atomvchecker,
    Rapx,
    Rudra,
    Outdated,
    Geiger,
    Udeps,
    Cargo,
}

/// The canonical name of each tool, used for CLI invocation and for
/// validating custom commands.
pub open spec fn spec_name(t: CheckerTool) -> Seq<char> {
    match t {
        CheckerTool::Fmt => "fmt"@,
        CheckerTool::Clippy => "clippy"@,
        CheckerTool::Miri => "miri"@,
        CheckerTool::SemverChecks => "semver-checks"@,
        CheckerTool::Audit => "audit"@,
        CheckerTool::Mirai => "mirai"@,
        CheckerTool::Lockbud => "lockbud"@,
        CheckerTool::Atomvchecker => "atomvchecker"@,
        CheckerTool::Rapx => "rapx"@,
        CheckerTool::Rudra => "rudra"@,
        CheckerTool::Outdated => "outdated"@,
        CheckerTool::Geiger => "geiger"@,
        CheckerTool::Udeps => "udeps"@,
        CheckerTool::Cargo => "cargo"@,
    }
}

/// A total order on the registry, used to sort invocation plans.
pub open spec fn spec_rank(t: CheckerTool) -> int {
    match t {
        CheckerTool::Fmt => 0,
        CheckerTool::Clippy => 1,
        CheckerTool::Miri => 2,
        CheckerTool::SemverChecks => 3,
        CheckerTool::Audit => 4,
        CheckerTool::Mirai => 5,
        CheckerTool::Lockbud => 6,
        CheckerTool::Atomvchecker => 7,
        CheckerTool::Rapx => 8,
        CheckerTool::Rudra => 9,
        CheckerTool::Outdated => 10,
        CheckerTool::Geiger => 11,
        CheckerTool::Udeps => 12,
        CheckerTool::Cargo => 13,
    }
}

impl CheckerTool {
    /// The checker name invoked in the CLI.
    pub fn name(self) -> (r: &'static str)
        ensures
            r@ == spec_name(self),
    {
        match self {
            CheckerTool::Fmt => "fmt",
            CheckerTool::Clippy => "clippy",
            CheckerTool::Miri => "miri",
            CheckerTool::SemverChecks => "semver-checks",
            CheckerTool::Audit => "audit",
            CheckerTool::Mirai => "mirai",
            CheckerTool::Lockbud => "lockbud",
            CheckerTool::Atomvchecker => "atomvchecker",
            CheckerTool::Rapx => "rapx",
            CheckerTool::Rudra => "rudra",
            CheckerTool::Outdated => "outdated",
            CheckerTool::Geiger => "geiger",
            CheckerTool::Udeps => "udeps",
            CheckerTool::Cargo => "cargo",
        }
    }

    /// The tool whose canonical name is `s`, if any.
    pub fn from_str(s: &str) -> (r: Option<Self>)
        ensures
            match r {
                Some(t) => s@ == spec_name(t),
                None => forall|t: CheckerTool| s@ != spec_name(t),
            },
    {
        if strutil::str_eq(s, "fmt") {
            Some(CheckerTool::Fmt)
        } else if strutil::str_eq(s, "clippy") {
            Some(CheckerTool::Clippy)
        } else if strutil::str_eq(s, "miri") {
            Some(CheckerTool::Miri)
        } else if strutil::str_eq(s, "semver-checks") {
            Some(CheckerTool::SemverChecks)
        } else if strutil::str_eq(s, "audit") {
            Some(CheckerTool::Audit)
        } else if strutil::str_eq(s, "mirai") {
            Some(CheckerTool::Mirai)
        } else if strutil::str_eq(s, "lockbud") {
            Some(CheckerTool::Lockbud)
        } else if strutil::str_eq(s, "atomvchecker") {
            Some(CheckerTool::Atomvchecker)
        } else if strutil::str_eq(s, "rapx") {
            Some(CheckerTool::Rapx)
        } else if strutil::str_eq(s, "rudra") {
            Some(CheckerTool::Rudra)
        } else if strutil::str_eq(s, "outdated") {
            Some(CheckerTool::Outdated)
        } else if strutil::str_eq(s, "geiger") {
            Some(CheckerTool::Geiger)
        } else if strutil::str_eq(s, "udeps") {
            Some(CheckerTool::Udeps)
        } else if strutil::str_eq(s, "cargo") {
            Some(CheckerTool::Cargo)
        } else {
            None
        }
    }

    /// The position of this tool in the registry's total order.
    pub fn rank(self) -> (r: u8)
        ensures
            r as int == spec_rank(self),
    {
        match self {
            CheckerTool::Fmt => 0,
            CheckerTool::Clippy => 1,
            CheckerTool::Miri => 2,
            CheckerTool::SemverChecks => 3,
            CheckerTool::Audit => 4,
            CheckerTool::Mirai => 5,
            CheckerTool::Lockbud => 6,
            CheckerTool::Atomvchecker => 7,
            CheckerTool::Rapx => 8,
            CheckerTool::Rudra => 9,
            CheckerTool::Outdated => 10,
            CheckerTool::Geiger => 11,
            CheckerTool::Udeps => 12,
            CheckerTool::Cargo => 13,
        }
    }
}

} // verus!
