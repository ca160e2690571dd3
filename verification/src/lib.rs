//! Finds packages that a resolved dependency graph holds in more than one
//! version, and attributes each duplication to the packages that pull it in.
//!
//! Names and versions are opaque ranks: a caller interns the names and the
//! versions of its graph into `u64` values whose numeric order is the order
//! in which they are to be listed. The analysis reads nothing else of them.

use vstd::prelude::*;

pub mod analysis;
pub mod blame;
pub mod cycles;
pub mod dep_tree;
pub mod multi_ver_deps;
pub mod multi_ver_parents;
pub mod path_summary;
pub mod paths;
pub(crate) mod pkg_map;
pub mod pkg_set;
pub mod results;

verus! {

/// Identity of one resolved package: a name and a version.
///
/// Packages are ordered by name, then by version.
#[derive(Clone, Copy, Debug, Hash, PartialEq, Eq, PartialOrd, Ord, Structural)]
pub struct Package {
    pub name: u64,
    pub version: u64,
}

impl Package {
    /// The strict order of packages: by name, then by version.
    pub open spec fn precedes(self, other: Package) -> bool {
        self.name < other.name || (self.name == other.name && self.version < other.version)
    }

    /// Whether `self` comes strictly before `other`.
    pub fn comes_before(&self, other: &Package) -> (b: bool)
        ensures
            b == self.precedes(*other),
    {
        self.name < other.name || (self.name == other.name && self.version < other.version)
    }
}

/// Why an analysis was given up. No error leaves a partial result behind.
#[derive(Clone, Copy, Debug, PartialEq, Eq, Structural)]
pub enum Error {
    /// The lock file is of a format that is not read.
    UnsupportedInputVersion,
    /// A package that the graph was asked for is not among its nodes.
    CorruptedGraph { name: u64, version: u64 },
    /// A package requires itself, directly or through other packages: the
    /// walks upward from a duplicate would not end.
    CyclicGraph,
}

/// Which packages a report assigns blame to.
#[derive(Clone, Copy, Debug, PartialEq, Eq, Structural)]
pub enum BlameMode {
    /// Only the top level packages.
    TopLevel,
    /// The top level packages and every other package that sees a duplication.
    All,
}

} // verus!
