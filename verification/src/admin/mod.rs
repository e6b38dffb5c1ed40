//! The companion administration CLI's logic: its configuration, the table
//! layout of its listings, the setup wizard's checks and the config file it
//! writes, and the bootstrap blueprint. Prompts, HTTP calls and printing are
//! done outside the library.

use vstd::prelude::*;
use crate::text::{lowercased, str_eq, to_lower, trim_ws, trimmed};

pub mod api;
pub mod bootstrap;
pub mod config;
pub mod output;
pub mod setup;

verus! {

/// How listings are printed.
pub enum OutputFormat {
    Table,
    Json,
}

/// The answer to a `[y/N]` confirmation (a deletion, overwriting a file)
/// goes ahead only when it is `y` in any case once trimmed and lower-cased.
pub fn confirms(answer: &str) -> (r: bool)
    ensures
        r == (lowercased(trimmed(answer@)) == "y"@),
{
    let lower = to_lower(trim_ws(answer));
    proof {
        reveal_strlit("y");
    }
    str_eq(lower.as_str(), "y")
}

} // verus!
