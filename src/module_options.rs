//! The module options that a host resolves per directory.

use vstd::prelude::*;

verus! {

/// The module rules in force for one directory. Resolving them from file
/// types is the host's work; this library carries the list as given.
pub struct ModuleOptions<R> {
    pub rules: Vec<R>,
}

} // verus!
