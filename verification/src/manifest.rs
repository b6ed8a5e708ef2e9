//! The slice of workspace metadata the engine consumes: each package's
//! name and feature map.  Loading it from the external metadata tool is an
//! adapter concern.

use crate::intern::FeatureMap;
use vstd::prelude::*;

verus! {

/// The packages of one workspace.
pub struct Manifest {
    pub packages: Vec<Package>,
}

/// One package: its name and its feature-to-dependencies map.
pub struct Package {
    pub name: String,
    pub features: FeatureMap,
}

/// The mathematical view of a package: its name and its feature entries.
pub open spec fn pkg_view(p: Package) -> (Seq<char>, Seq<(Seq<char>, Seq<Seq<char>>)>) {
    (p.name@, p.features.entry_seq())
}

/// The views of a list of packages.
pub open spec fn pkg_views(s: Seq<Package>) -> Seq<(Seq<char>, Seq<(Seq<char>, Seq<Seq<char>>)>)> {
    s.map_values(|p: Package| pkg_view(p))
}

} // verus!
