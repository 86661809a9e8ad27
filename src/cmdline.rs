//! The options of a translation run.

use vstd::prelude::*;
use crate::versions::ActiveVersion;

verus! {

/// What to translate and how.
pub struct CmdLine {
    /// The API, profile and version selected.
    pub version: ActiveVersion,
    /// Where the registry is read from.
    pub xml_path: String,
    /// The extensions requested, in order.
    pub extensions: Vec<String>,
    /// Spell primitive types through the `libc` crate.
    pub use_libc: bool,
    /// Where the allow-list of identifiers is read from, if one is used.
    pub used_identifiers_path: Option<String>,
}

} // verus!
