//! The build systems the dashboard tells apart.

use vstd::prelude::*;

verus! {

/// The build system a package's log shows, or that its build tree suggests.
#[derive(Debug, Clone, Copy, PartialEq, Eq, Structural)]
pub enum BuildSystem {
    Ninja,
    Make,
    Cargo,
    Unknown,
}

impl Default for BuildSystem {
    /// A build system not (yet) recognised.
    fn default() -> (r: Self)
        ensures
            r == BuildSystem::Unknown,
    {
        BuildSystem::Unknown
    }
}

} // verus!
