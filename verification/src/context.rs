//! How the configuration of a unit follows from that of the unit that
//! depends on it.
//!
//! The rules by which the platform, the role and the mode pass from a unit
//! to its dependencies stand in one function, [`derive_child_context`]. The
//! rest of this module puts the pieces of a dependency unit together.

use vstd::prelude::*;
use crate::error::{ConfigurationError, PlanError};
use crate::feature::Symbol;
use crate::kind::{CompileKind, TargetData};
use crate::package::{EdgeKind, PackageGraph, PackageId, PackageInfo};
use crate::profile::{PanicStrategy, ProfileTable, UnitRole};
use crate::resolver::{FeatureNode, FeatureRole, ResolvedFeatures};
use crate::target::{library_of, spec_library_of, BuildTarget};
use crate::unit::{CompileMode, Unit, UnitKey};

verus! {

/// What a unit hands down to its dependencies.
#[derive(Clone, Copy, Debug, PartialEq, Eq, Structural)]
pub struct UnitContext {
    pub role: UnitRole,
    pub kind: CompileKind,
    pub mode: CompileMode,
}

/// What a dependency brings along: the library it is used through, and the
/// platform its package insists on.
#[derive(Clone, Copy, Debug, PartialEq, Eq, Structural)]
pub struct DependencyDescriptor {
    pub library: BuildTarget,
    pub forced_kind: Option<CompileKind>,
}

/// What a dependency unit is configured from.
#[derive(Clone, Copy, Debug, PartialEq, Eq, Structural)]
pub struct ChildContext {
    pub role: UnitRole,
    pub feature_role: FeatureRole,
    pub kind: CompileKind,
    pub mode: CompileMode,
}

/// The dependency has to run on the host: it is needed by a build script,
/// it is a procedural macro, or the unit that depends on it is a build
/// tool already.
pub open spec fn spec_host_forced(parent: UnitContext, edge: EdgeKind, dep: DependencyDescriptor) -> bool {
    edge.spec_forces_host() || dep.library.for_host || parent.role == UnitRole::CompilerTool
}

/// The mode of a dependency that is not forced to the host.
pub open spec fn spec_child_mode(parent: CompileMode, edge: EdgeKind) -> CompileMode {
    match parent {
        CompileMode::Check => CompileMode::Check,
        CompileMode::Build => CompileMode::Build,
        CompileMode::Test => CompileMode::Build,
        CompileMode::Doc => if edge == EdgeKind::Doc {
            CompileMode::Doc
        } else {
            CompileMode::Check
        },
        CompileMode::RunCustomBuild => CompileMode::Build,
    }
}

/// The feature role of a dependency.
pub open spec fn spec_child_features_for(
    parent: UnitRole,
    edge: EdgeKind,
    library: BuildTarget,
) -> FeatureRole {
    if edge == EdgeKind::BuildScript {
        FeatureRole::BuildHost
    } else if edge == EdgeKind::ProcMacro || library.spec_proc_macro() {
        FeatureRole::ProcMacroHost
    } else if parent == UnitRole::CompilerTool {
        FeatureRole::BuildHost
    } else {
        FeatureRole::Normal
    }
}

/// The context of a dependency on a machine whose triple is `host`.
pub open spec fn spec_derive_child_context(
    parent: UnitContext,
    edge: EdgeKind,
    dep: DependencyDescriptor,
    host: Symbol,
) -> ChildContext {
    let forced = spec_host_forced(parent, edge, dep);
    ChildContext {
        role: if forced {
            UnitRole::CompilerTool
        } else {
            parent.role
        },
        feature_role: spec_child_features_for(parent.role, edge, dep.library),
        kind: if forced {
            CompileKind::Target(host)
        } else {
            match dep.forced_kind {
                Some(k) => CompileKind::Target(k.triple(host)),
                None => CompileKind::Target(parent.kind.triple(host)),
            }
        },
        mode: if forced {
            CompileMode::Build
        } else {
            spec_child_mode(parent.mode, edge)
        },
    }
}

/// The context of a dependency, from the context of the unit that depends
/// on it, the kind of the dependency and what the dependency brings along.
///
/// A dependency that has to run on the host is a build tool, is built for
/// the host's own triple and is compiled, whatever the dependent is built
/// for and whatever platform the dependency's package insists on. Any
/// other dependency keeps the role of the dependent; it is built for the
/// platform that its package insists on, or else for the dependent's; and
/// it is type-checked where the dependent is type-checked or documented,
/// documented where the dependent needs it for documenting, and compiled
/// otherwise.
pub fn derive_child_context(
    parent: &UnitContext,
    edge: EdgeKind,
    dep: &DependencyDescriptor,
    host: Symbol,
) -> (r: ChildContext)
    ensures
        r == spec_derive_child_context(*parent, edge, *dep, host),
{
    let parent_is_tool = match parent.role {
        UnitRole::CompilerTool => true,
        _ => false,
    };
    let forced = edge.forces_host() || dep.library.for_host || parent_is_tool;
    let feature_role = match edge {
        EdgeKind::BuildScript => FeatureRole::BuildHost,
        EdgeKind::ProcMacro => FeatureRole::ProcMacroHost,
        _ => if dep.library.proc_macro() {
            FeatureRole::ProcMacroHost
        } else if parent_is_tool {
            FeatureRole::BuildHost
        } else {
            FeatureRole::Normal
        },
    };
    if forced {
        ChildContext {
            role: UnitRole::CompilerTool,
            feature_role,
            kind: CompileKind::Target(host),
            mode: CompileMode::Build,
        }
    } else {
        let wanted = match dep.forced_kind {
            Some(k) => k,
            None => parent.kind,
        };
        let kind = match wanted {
            CompileKind::Host => CompileKind::Target(host),
            CompileKind::Target(t) => CompileKind::Target(t),
        };
        let mode = match parent.mode {
            CompileMode::Check => CompileMode::Check,
            CompileMode::Build => CompileMode::Build,
            CompileMode::Test => CompileMode::Build,
            CompileMode::Doc => match edge {
                EdgeKind::Doc => CompileMode::Doc,
                _ => CompileMode::Check,
            },
            CompileMode::RunCustomBuild => CompileMode::Build,
        };
        ChildContext { role: parent.role, feature_role, kind, mode }
    }
}

/// Whether a dependency of the given kind is followed from a unit in the
/// given mode: a test-only dependency only from a test, and only where such
/// dependencies count; a documentation-only dependency only from a unit
/// that is documented; any other always.
pub open spec fn spec_edge_followed(mode: CompileMode, edge: EdgeKind, has_dev_units: bool) -> bool {
    match edge {
        EdgeKind::Test => has_dev_units && mode == CompileMode::Test,
        EdgeKind::Doc => mode == CompileMode::Doc,
        _ => true,
    }
}

/// Whether a dependency of the given kind is followed from a unit in the
/// given mode.
pub fn edge_followed(mode: CompileMode, edge: EdgeKind, has_dev_units: bool) -> (r: bool)
    ensures
        r == spec_edge_followed(mode, edge, has_dev_units),
{
    match edge {
        EdgeKind::Test => has_dev_units && mode.is_any_test(),
        EdgeKind::Doc => mode.is_doc(),
        _ => true,
    }
}

/// `kind` names a platform that `targets` does not know.
pub open spec fn spec_unknown(kind: Option<CompileKind>, targets: &TargetData) -> bool {
    match kind {
        Some(k) => !targets.knows(k),
        None => false,
    }
}

/// The first platform that a package of `packages` insists on, or names as
/// its default, and that `targets` does not know; from package `p` on.
pub open spec fn spec_first_unknown_kind(
    packages: Seq<PackageInfo>,
    targets: &TargetData,
    p: int,
) -> Option<Symbol>
    decreases packages.len() - p,
{
    if p < 0 || p >= packages.len() {
        None
    } else if spec_unknown(packages[p].forced_kind, targets) {
        Some(targets.triple_of(packages[p].forced_kind.unwrap()))
    } else if spec_unknown(packages[p].default_kind, targets) {
        Some(targets.triple_of(packages[p].default_kind.unwrap()))
    } else {
        spec_first_unknown_kind(packages, targets, p + 1)
    }
}

/// Where [`spec_first_unknown_kind`] finds nothing, every platform that a
/// package names is known.
pub proof fn lemma_kinds_known(packages: Seq<PackageInfo>, targets: &TargetData, p: int, q: int)
    requires
        0 <= p <= q < packages.len(),
        spec_first_unknown_kind(packages, targets, p) is None,
    ensures
        packages[q].forced_kind matches Some(k) ==> targets.knows(k),
        packages[q].default_kind matches Some(k) ==> targets.knows(k),
    decreases q - p,
{
    if p < q {
        lemma_kinds_known(packages, targets, p + 1, q);
    }
}

/// All that a unit is configured from: the packages, the features that are
/// active, the profile asked for, and the platforms.
#[derive(Debug)]
pub struct PlanContext<'a> {
    pub graph: &'a PackageGraph,
    pub features: &'a ResolvedFeatures,
    pub profiles: &'a ProfileTable,
    pub targets: &'a TargetData,
    /// Test-only dependencies count.
    pub has_dev_units: bool,
}

impl<'a> PlanContext<'a> {
    /// The parts are well formed and fit together: the features cover the
    /// packages, and the platforms cover what the packages name.
    pub open spec fn wf(&self) -> bool {
        &&& self.graph.wf()
        &&& self.features.wf()
        &&& self.features.count() == self.graph.packages().len()
        &&& self.targets.wf()
        &&& spec_first_unknown_kind(self.graph.packages(), self.targets, 0) is None
    }

    /// The host's triple.
    pub open spec fn host(&self) -> Symbol {
        self.targets.host_triple()
    }

    /// Puts the context together. Fails where a package insists on, or
    /// names as its default, a platform that `targets` does not know; the
    /// error names the first such triple, in the order of the packages.
    pub fn new(
        graph: &'a PackageGraph,
        features: &'a ResolvedFeatures,
        profiles: &'a ProfileTable,
        targets: &'a TargetData,
        has_dev_units: bool,
    ) -> (r: Result<PlanContext<'a>, PlanError>)
        requires
            graph.wf(),
            features.wf(),
            features.count() == graph.packages().len(),
            targets.wf(),
        ensures
            match r {
                Ok(c) => {
                    &&& c.wf()
                    &&& c.graph == graph
                    &&& c.features == features
                    &&& c.profiles == profiles
                    &&& c.targets == targets
                    &&& c.has_dev_units == has_dev_units
                },
                Err(e) => spec_first_unknown_kind(graph.packages(), targets, 0) matches Some(t)
                    && e == PlanError::Configuration(
                    ConfigurationError::UnrecognizedTriple { triple: t },
                ),
            },
    {
        let n = graph.len();
        let mut p: usize = 0;
        while p < n
            invariant
                graph.wf(),
                n == graph.packages().len(),
                p <= n,
                spec_first_unknown_kind(graph.packages(), targets, 0) == spec_first_unknown_kind(
                    graph.packages(),
                    targets,
                    p as int,
                ),
            decreases n - p,
        {
            let info = match graph.get(PackageId { index: p }) {
                Some(info) => info,
                None => {
                    assert(false);
                    return Err(PlanError::UnknownPackage { package: PackageId { index: p } });
                },
            };
            match info.forced_kind {
                Some(k) => {
                    if !targets.is_known(k) {
                        return Err(
                            PlanError::Configuration(
                                ConfigurationError::UnrecognizedTriple {
                                    triple: targets.resolve_triple(k),
                                },
                            ),
                        );
                    }
                },
                None => {},
            }
            match info.default_kind {
                Some(k) => {
                    if !targets.is_known(k) {
                        return Err(
                            PlanError::Configuration(
                                ConfigurationError::UnrecognizedTriple {
                                    triple: targets.resolve_triple(k),
                                },
                            ),
                        );
                    }
                },
                None => {},
            }
            p = p + 1;
        }
        Ok(PlanContext { graph, features, profiles, targets, has_dev_units })
    }

    /// The unit that dependency `j` of `parent` leads to, with the kind of
    /// the dependency; `None` where the dependency is not followed or leads
    /// to a package without a library.
    ///
    /// The unit is the library of the dependency's package. Its role,
    /// platform and mode come from `parent` by
    /// [`spec_derive_child_context`]; its features are those of its package
    /// in the feature role so derived; and its profile is resolved for its
    /// own package, member of the workspace or not, in the role so derived.
    pub open spec fn child(&self, parent: UnitKey, j: int) -> Option<(UnitKey, EdgeKind)> {
        let info = self.graph.packages()[parent.package.index as int];
        let dep = info.dependencies@[j];
        let dep_info = self.graph.packages()[dep.package.index as int];
        if !spec_edge_followed(parent.mode, dep.kind, self.has_dev_units) {
            None
        } else {
            match spec_library_of(dep_info.targets@) {
                None => None,
                Some(library) => {
                    let c = spec_derive_child_context(
                        UnitContext {
                            role: parent.profile.role,
                            kind: parent.kind,
                            mode: parent.mode,
                        },
                        dep.kind,
                        DependencyDescriptor { library, forced_kind: dep_info.forced_kind },
                        self.host(),
                    );
                    Some(
                        (
                            UnitKey {
                                package: dep.package,
                                target: library,
                                profile: self.profiles.spec_get_profile(
                                    dep.package,
                                    dep_info.is_member,
                                    c.role,
                                ),
                                features: self.features.activated(
                                    FeatureNode { package: dep.package, role: c.feature_role },
                                ),
                                kind: c.kind,
                                mode: c.mode,
                            },
                            dep.kind,
                        ),
                    )
                },
            }
        }
    }

    /// The unit names a package of the graph and is built for a platform
    /// that is known, named by its triple.
    pub open spec fn admits(&self, unit: UnitKey) -> bool {
        &&& unit.package.index < self.graph.packages().len()
        &&& unit.kind is Target
        &&& self.targets.knows(unit.kind)
    }

    /// The unit that dependency `j` of `parent` leads to, with the kind of
    /// the dependency.
    pub fn child_unit(&self, parent: &Unit, j: usize) -> (r: Option<(Unit, EdgeKind)>)
        requires
            self.wf(),
            self.admits(parent@),
            j < self.graph.packages()[parent.package.index as int].dependencies@.len(),
        ensures
            match r {
                Some((unit, kind)) => self.child(parent@, j as int) == Some((unit@, kind))
                    && unit.wf() && self.admits(unit@),
                None => self.child(parent@, j as int) is None,
            },
    {
        let dep = &self.graph.dependencies_of(parent.package)[j];
        assert(dep.package.index < self.graph.packages().len());
        if !edge_followed(parent.mode, dep.kind, self.has_dev_units) {
            return None;
        }
        let dep_info = match self.graph.get(dep.package) {
            Some(info) => info,
            None => {
                assert(false);
                return None;
            },
        };
        match library_of(dep_info.targets.as_slice()) {
            None => None,
            Some(library) => {
                let host = self.targets.host();
                let c = derive_child_context(
                    &UnitContext { role: parent.profile.role, kind: parent.kind, mode: parent.mode },
                    dep.kind,
                    &DependencyDescriptor { library, forced_kind: dep_info.forced_kind },
                    host,
                );
                proof {
                    lemma_kinds_known(self.graph.packages(), self.targets, 0, dep.package.index as int);
                }
                Some(
                    (
                        Unit {
                            package: dep.package,
                            target: library,
                            profile: self.profiles.get_profile(
                                dep.package,
                                dep_info.is_member,
                                c.role,
                            ),
                            features: self.features.activated_features(dep.package, c.feature_role),
                            kind: c.kind,
                            mode: c.mode,
                        },
                        dep.kind,
                    ),
                )
            },
        }
    }
}

/// A unit that is forced to the host is a build tool, is built for the
/// host's triple and is compiled.
pub proof fn lemma_forced_child(
    parent: UnitContext,
    edge: EdgeKind,
    dep: DependencyDescriptor,
    host: Symbol,
)
    requires
        spec_host_forced(parent, edge, dep),
    ensures
        spec_derive_child_context(parent, edge, dep, host).role == UnitRole::CompilerTool,
        spec_derive_child_context(parent, edge, dep, host).kind == CompileKind::Target(host),
        spec_derive_child_context(parent, edge, dep, host).mode == CompileMode::Build,
{
}

/// The profile of a build tool unwinds, whatever the profile asked for
/// and the overrides say.
pub proof fn lemma_tool_unwinds(profiles: &ProfileTable, package: PackageId, is_member: bool)
    ensures
        profiles.spec_get_profile(package, is_member, UnitRole::CompilerTool).panic
            == PanicStrategy::Unwind,
        profiles.spec_get_profile(package, is_member, UnitRole::CompilerTool).role
            == UnitRole::CompilerTool,
{
}

} // verus!
