//! Build-time metadata acquisition.
//!
//! This library captures a snapshot of the build environment and derives
//! structured facts from it: package identity read from environment
//! variables (with an operator-controlled override mechanism and a per-key
//! usage audit), detection of the continuous-integration platform the build
//! runs on, a probe of the enclosing git repository, and a classification
//! of the dependency graph recorded in `Cargo.lock` into root, direct and
//! indirect packages.  A thin unverified driver renders the resulting
//! values; everything that decides or computes lives here.

use vstd::prelude::*;

pub mod dependencies;
pub mod environment;
pub mod git;
pub mod krono;
pub mod util;

pub use environment::CIPlatform;

verus! {

/// Environment variable that requests a reproducible build time; when it is
/// set, time-dependent and parallelism defaults are pinned.
pub const SOURCE_DATE_EPOCH: &'static str = "SOURCE_DATE_EPOCH";

/// The rendered form of an optional string: `Some("…")` with the value
/// spliced in verbatim, or `None`.
pub open spec fn spec_fmt_option_str(o: Option<Seq<char>>) -> Seq<char> {
    match o {
        Some(s) => "Some(\""@ + s + "\")"@,
        None => "None"@,
    }
}

/// Renders an optional string the way the generated code spells it.
pub fn fmt_option_str(o: Option<String>) -> (r: String)
    ensures
        r@ == spec_fmt_option_str(match o {
            Some(ref s) => Some(s@),
            None => None,
        }),
{
    match o {
        Some(s) => {
            let mut r = String::from_str("Some(\"");
            r.append(s.as_str());
            r.append("\")");
            r
        },
        None => String::from_str("None"),
    }
}

} // verus!
