//! The resolved packages and the dependencies between them.

use vstd::prelude::*;
use crate::error::PlanError;
use crate::feature::{FeatureSet, Symbol};
use crate::kind::CompileKind;
use crate::target::BuildTarget;

verus! {

/// The identity of a package: its place in the [`PackageGraph`].
#[derive(Clone, Copy, Debug, PartialEq, Eq, Structural, Hash)]
pub struct PackageId {
    pub index: usize,
}

/// What a dependency is for.
#[derive(Clone, Copy, Debug, PartialEq, Eq, Structural, Hash)]
pub enum EdgeKind {
    /// An ordinary dependency.
    Normal,
    /// Needed by the dependent's build script.
    BuildScript,
    /// A procedural macro that the dependent invokes.
    ProcMacro,
    /// Needed only by the dependent's tests.
    Test,
    /// Needed only to document the dependent.
    Doc,
}

impl EdgeKind {
    /// The dependency runs while the build runs, so it is built for the
    /// host.
    pub open spec fn spec_forces_host(&self) -> bool {
        *self == EdgeKind::BuildScript || *self == EdgeKind::ProcMacro
    }

    #[verifier::when_used_as_spec(spec_forces_host)]
    pub fn forces_host(&self) -> (r: bool)
        ensures
            r == self.spec_forces_host(),
    {
        match self {
            EdgeKind::BuildScript => true,
            EdgeKind::ProcMacro => true,
            _ => false,
        }
    }
}

/// One declared dependency of a package.
#[derive(Debug)]
pub struct Dependency {
    pub package: PackageId,
    /// The features that the dependent asks of the dependency.
    pub features: FeatureSet,
    pub kind: EdgeKind,
}

/// Two features of one package that must not both be active.
#[derive(Clone, Copy, Debug, PartialEq, Eq, Structural)]
pub struct Exclusion {
    pub first: Symbol,
    pub second: Symbol,
}

/// What is known of one package.
#[derive(Debug)]
pub struct PackageInfo {
    pub name: Symbol,
    pub targets: Vec<BuildTarget>,
    /// The package is a member of the workspace, not an outside dependency.
    pub is_member: bool,
    /// The platform that the package insists on being built for.
    pub forced_kind: Option<CompileKind>,
    /// The platform that the package is built for where the host was asked
    /// for.
    pub default_kind: Option<CompileKind>,
    /// Every feature that the package declares.
    pub features: FeatureSet,
    /// The features that are active where nothing was asked of the package.
    pub default_features: FeatureSet,
    /// The pairs of features that the package declares as excluding each
    /// other.
    pub exclusions: Vec<Exclusion>,
    pub dependencies: Vec<Dependency>,
}

impl PackageInfo {
    /// The feature sets are well formed.
    pub open spec fn wf(&self) -> bool {
        &&& self.features.wf()
        &&& self.default_features.wf()
        &&& forall|j: int|
            0 <= j < self.dependencies@.len() ==> (#[trigger] self.dependencies@[j]).features.wf()
    }
}

/// The resolved package graph: every package with its dependencies. A
/// package is named by its index.
#[derive(Debug)]
pub struct PackageGraph {
    packages: Vec<PackageInfo>,
}

/// Every dependency in `packages` names a package in `packages`.
pub open spec fn edges_in_range(packages: Seq<PackageInfo>) -> bool {
    forall|p: int, j: int|
        0 <= p < packages.len() && 0 <= j < packages[p].dependencies@.len() ==> (
        #[trigger] packages[p].dependencies@[j]).package.index < packages.len()
}

/// The first dependency, in the order of the packages and then of their
/// dependencies, that names a package outside `packages`, looking from
/// package `p` and dependency `j` on.
pub open spec fn spec_first_dangling(packages: Seq<PackageInfo>, p: int, j: int) -> Option<
    PackageId,
>
    decreases packages.len() - p, packages[p].dependencies@.len() - j,
{
    if p < 0 || j < 0 || p >= packages.len() {
        None
    } else if j >= packages[p].dependencies@.len() {
        spec_first_dangling(packages, p + 1, 0)
    } else if packages[p].dependencies@[j].package.index >= packages.len() {
        Some(packages[p].dependencies@[j].package)
    } else {
        spec_first_dangling(packages, p, j + 1)
    }
}

/// `rank` gives every package a number above those of the packages it
/// depends on.
pub open spec fn is_package_ranking(packages: Seq<PackageInfo>, rank: Seq<nat>) -> bool {
    &&& rank.len() == packages.len()
    &&& forall|p: int, j: int|
        0 <= p < packages.len() && 0 <= j < packages[p].dependencies@.len() ==> (
        #[trigger] packages[p].dependencies@[j]).package.index < packages.len()
            && rank[packages[p].dependencies@[j].package.index as int] < rank[p]
}

/// No package depends on itself, by however many steps: the packages can
/// be put in an order in which each comes after what it depends on.
pub open spec fn packages_acyclic(packages: Seq<PackageInfo>) -> bool {
    exists|rank: Seq<nat>| is_package_ranking(packages, rank)
}

impl PackageGraph {
    /// The packages, by index.
    pub closed spec fn packages(&self) -> Seq<PackageInfo> {
        self.packages@
    }

    /// Every dependency names a package of the graph, and every feature set
    /// is well formed.
    pub open spec fn wf(&self) -> bool {
        &&& edges_in_range(self.packages())
        &&& forall|p: int| 0 <= p < self.packages().len() ==> (#[trigger] self.packages()[p]).wf()
    }

    /// The graph holds the package.
    pub open spec fn has(&self, id: PackageId) -> bool {
        id.index < self.packages().len()
    }

    /// Makes the graph of `packages`. Fails where a dependency names a
    /// package that is not among them; the error names the first such
    /// package.
    pub fn new(packages: Vec<PackageInfo>) -> (r: Result<PackageGraph, PlanError>)
        requires
            forall|p: int| 0 <= p < packages@.len() ==> (#[trigger] packages@[p]).wf(),
        ensures
            match r {
                Ok(g) => g.wf() && g.packages() == packages@ && spec_first_dangling(
                    packages@,
                    0,
                    0,
                ) is None,
                Err(e) => spec_first_dangling(packages@, 0, 0) matches Some(id) && e
                    == (PlanError::UnknownPackage { package: id }),
            },
    {
        let n = packages.len();
        let mut p: usize = 0;
        while p < n
            invariant
                n == packages@.len(),
                p <= n,
                spec_first_dangling(packages@, 0, 0) == spec_first_dangling(packages@, p as int, 0),
                forall|a: int, b: int|
                    0 <= a < p && 0 <= b < packages@[a].dependencies@.len() ==> (
                    #[trigger] packages@[a].dependencies@[b]).package.index < n,
            decreases n - p,
        {
            let m = packages[p].dependencies.len();
            let mut j: usize = 0;
            while j < m
                invariant
                    n == packages@.len(),
                    p < n,
                    m == packages@[p as int].dependencies@.len(),
                    j <= m,
                    spec_first_dangling(packages@, 0, 0) == spec_first_dangling(
                        packages@,
                        p as int,
                        j as int,
                    ),
                    forall|b: int|
                        0 <= b < j ==> (#[trigger] packages@[p as int].dependencies@[b]).package.index
                            < n,
                decreases m - j,
            {
                let dep = packages[p].dependencies[j].package;
                if dep.index >= n {
                    return Err(PlanError::UnknownPackage { package: dep });
                }
                j = j + 1;
            }
            p = p + 1;
        }
        Ok(PackageGraph { packages })
    }

    /// The number of packages.
    pub fn len(&self) -> (n: usize)
        ensures
            n == self.packages().len(),
    {
        self.packages.len()
    }

    /// The package with the given identity, if the graph holds it.
    pub fn get(&self, id: PackageId) -> (r: Option<&PackageInfo>)
        ensures
            match r {
                Some(info) => self.has(id) && *info == self.packages()[id.index as int],
                None => !self.has(id),
            },
    {
        if id.index < self.packages.len() {
            Some(&self.packages[id.index])
        } else {
            None
        }
    }

    /// The declared dependencies of a package, in order.
    pub fn dependencies_of(&self, id: PackageId) -> (r: &Vec<Dependency>)
        requires
            self.has(id),
        ensures
            *r == self.packages()[id.index as int].dependencies,
    {
        &self.packages[id.index].dependencies
    }

    /// The targets of a package.
    pub fn targets_of(&self, id: PackageId) -> (r: &Vec<BuildTarget>)
        requires
            self.has(id),
        ensures
            *r == self.packages()[id.index as int].targets,
    {
        &self.packages[id.index].targets
    }

    /// Whether a package is a member of the workspace.
    pub fn is_workspace_member(&self, id: PackageId) -> (r: bool)
        requires
            self.has(id),
        ensures
            r == self.packages()[id.index as int].is_member,
    {
        self.packages[id.index].is_member
    }

    /// The platform that a package insists on, if any.
    pub fn forced_kind(&self, id: PackageId) -> (r: Option<CompileKind>)
        requires
            self.has(id),
        ensures
            r == self.packages()[id.index as int].forced_kind,
    {
        self.packages[id.index].forced_kind
    }
}

} // verus!
