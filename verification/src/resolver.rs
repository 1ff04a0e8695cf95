//! Feature resolution: which features of a package are active, for each
//! role in which the package is built.
//!
//! A package that is built both for the platform asked for and as part of
//! a build tool may have different features active in the two roles: what
//! one role activates stays out of the other.

use vstd::prelude::*;
use crate::counting::{lemma_digits, lemma_distinct_bounded};
use crate::error::PlanError;
use crate::feature::{FeatureSet, Symbol};
use crate::package::{EdgeKind, PackageGraph, PackageId, PackageInfo};
use crate::target::{library_of, spec_library_of, BuildTarget};

verus! {

/// The role in which a package's features are resolved.
#[derive(Clone, Copy, Debug, PartialEq, Eq, Structural, Hash)]
pub enum FeatureRole {
    /// Built for the platform that was asked for.
    Normal,
    /// Built for the host, for a build script or below a build tool.
    BuildHost,
    /// Built for the host as a procedural macro.
    ProcMacroHost,
}

impl FeatureRole {
    /// The role of a unit that the build starts from: a procedural macro
    /// takes the features of the host, anything else those of the platform
    /// asked for.
    pub open spec fn spec_for_target(target: &BuildTarget) -> FeatureRole {
        if target.spec_proc_macro() {
            FeatureRole::ProcMacroHost
        } else {
            FeatureRole::Normal
        }
    }

    #[verifier::when_used_as_spec(spec_for_target)]
    pub fn for_target(target: &BuildTarget) -> (r: FeatureRole)
        ensures
            r == FeatureRole::spec_for_target(target),
    {
        if target.proc_macro() {
            FeatureRole::ProcMacroHost
        } else {
            FeatureRole::Normal
        }
    }

    /// The role's number: 0, 1 or 2.
    pub open spec fn ordinal(self) -> int {
        match self {
            FeatureRole::Normal => 0,
            FeatureRole::BuildHost => 1,
            FeatureRole::ProcMacroHost => 2,
        }
    }
}

/// The role of a dependency, from the role of the dependent, the kind of
/// the dependency and the library it leads to.
pub open spec fn spec_child_feature_role(
    parent: FeatureRole,
    kind: EdgeKind,
    library: BuildTarget,
) -> FeatureRole {
    if kind == EdgeKind::BuildScript {
        FeatureRole::BuildHost
    } else if kind == EdgeKind::ProcMacro || library.spec_proc_macro() {
        FeatureRole::ProcMacroHost
    } else if parent != FeatureRole::Normal {
        FeatureRole::BuildHost
    } else {
        FeatureRole::Normal
    }
}

/// The role of a dependency, from the role of the dependent, the kind of
/// the dependency and the library it leads to. A dependency of a build
/// script, and any dependency below a build tool, is built for the host; a
/// procedural macro is one; and an ordinary dependency of a package in its
/// normal role keeps that role.
pub fn child_feature_role(parent: FeatureRole, kind: EdgeKind, library: &BuildTarget) -> (r:
    FeatureRole)
    ensures
        r == spec_child_feature_role(parent, kind, *library),
{
    match kind {
        EdgeKind::BuildScript => FeatureRole::BuildHost,
        EdgeKind::ProcMacro => FeatureRole::ProcMacroHost,
        _ => if library.proc_macro() {
            FeatureRole::ProcMacroHost
        } else {
            match parent {
                FeatureRole::Normal => FeatureRole::Normal,
                _ => FeatureRole::BuildHost,
            }
        },
    }
}

/// A feature asked for on the command line: a package and one of its
/// features.
#[derive(Clone, Copy, Debug, PartialEq, Eq, Structural)]
pub struct FeaturePair {
    pub package: PackageId,
    pub feature: Symbol,
}

/// Which features were asked for.
#[derive(Debug)]
pub enum FeatureRequest {
    /// Every feature that a package declares.
    All,
    /// The listed features, on top of each package's default features. An
    /// empty list leaves every package with its defaults.
    Explicit(Vec<FeaturePair>),
}

/// A package in a role.
#[derive(Clone, Copy, Debug, PartialEq, Eq, Structural)]
pub struct FeatureNode {
    pub package: PackageId,
    pub role: FeatureRole,
}

/// What feature resolution is asked: the packages, the request, whether
/// test-only dependencies count, and the packages and roles that the build
/// starts from.
pub ghost struct FeatureProblem {
    pub packages: Seq<PackageInfo>,
    pub request: FeatureRequest,
    pub has_dev_units: bool,
    pub roots: Seq<FeatureNode>,
}

/// The packages that `pairs` names, in order.
pub open spec fn pair_packages(pairs: Seq<FeaturePair>) -> Seq<PackageId> {
    pairs.map_values(|p: FeaturePair| p.package)
}

/// The packages that `nodes` names, in order.
pub open spec fn node_packages(nodes: Seq<FeatureNode>) -> Seq<PackageId> {
    nodes.map_values(|n: FeatureNode| n.package)
}

/// The first of `ids` that is no package of a graph of `count` packages.
pub open spec fn spec_first_absent(count: nat, ids: Seq<PackageId>) -> Option<PackageId>
    decreases ids.len(),
{
    if ids.len() == 0 {
        None
    } else if ids[0].index >= count {
        Some(ids[0])
    } else {
        spec_first_absent(count, ids.skip(1))
    }
}

/// Where [`spec_first_absent`] finds nothing, every one of `ids` is a
/// package of the graph.
pub proof fn lemma_none_absent(count: nat, ids: Seq<PackageId>)
    requires
        spec_first_absent(count, ids) is None,
    ensures
        forall|i: int| 0 <= i < ids.len() ==> (#[trigger] ids[i]).index < count,
    decreases ids.len(),
{
    if ids.len() > 0 {
        let rest = ids.skip(1);
        lemma_none_absent(count, rest);
        assert forall|i: int| 0 <= i < ids.len() implies (#[trigger] ids[i]).index < count by {
            if i > 0 {
                assert(rest[i - 1] == ids[i]);
            }
        }
    }
}

impl FeatureProblem {
    /// The packages that the request names.
    pub open spec fn requested_packages(self) -> Seq<PackageId> {
        match self.request {
            FeatureRequest::All => Seq::empty(),
            FeatureRequest::Explicit(pairs) => pair_packages(pairs@),
        }
    }

    /// The node names a package of the graph.
    pub open spec fn valid(self, node: FeatureNode) -> bool {
        node.package.index < self.packages.len()
    }

    /// The features that the request alone activates for a package: all
    /// that it declares where all were asked for, else its defaults and
    /// those that the request lists for it.
    pub open spec fn base(self, package: PackageId) -> Set<Symbol> {
        let info = self.packages[package.index as int];
        match self.request {
            FeatureRequest::All => info.features@,
            FeatureRequest::Explicit(pairs) => info.default_features@.union(
                Set::new(|f: Symbol| pairs@.contains(FeaturePair { package, feature: f })),
            ),
        }
    }

    /// Where dependency `j` of the package of `node` leads: to the
    /// dependency in its role. A test-only dependency leads nowhere unless
    /// such dependencies count, and a dependency without a library leads
    /// nowhere.
    pub open spec fn step(self, node: FeatureNode, j: int) -> Option<FeatureNode> {
        let dep = self.packages[node.package.index as int].dependencies@[j];
        if dep.kind == EdgeKind::Test && !self.has_dev_units {
            None
        } else {
            match spec_library_of(self.packages[dep.package.index as int].targets@) {
                Some(library) => Some(
                    FeatureNode {
                        package: dep.package,
                        role: spec_child_feature_role(node.role, dep.kind, library),
                    },
                ),
                None => None,
            }
        }
    }

    /// Dependency `j` of `a` exists and leads to `b`.
    pub open spec fn leads(self, a: FeatureNode, j: int, b: FeatureNode) -> bool {
        &&& self.valid(a)
        &&& 0 <= j < self.packages[a.package.index as int].dependencies@.len()
        &&& self.step(a, j) == Some(b)
    }

    /// Some dependency of `a` leads to `b`.
    pub open spec fn linked(self, a: FeatureNode, b: FeatureNode) -> bool {
        exists|j: int| self.leads(a, j, b)
    }

    /// `path` starts at a root and follows dependencies.
    pub open spec fn is_path(self, path: Seq<FeatureNode>) -> bool {
        &&& path.len() > 0
        &&& self.roots.contains(path[0])
        &&& forall|i: int|
            #![trigger path[i]]
            0 <= i < path.len() - 1 ==> self.linked(path[i], path[i + 1])
    }

    /// The build reaches the package in the role.
    pub open spec fn reachable(self, node: FeatureNode) -> bool {
        exists|path: Seq<FeatureNode>| self.is_path(path) && path.last() == node
    }

    /// Some dependency that the build reaches asks for feature `f` of the
    /// package in the role.
    pub open spec fn contributed(self, node: FeatureNode, f: Symbol) -> bool {
        exists|parent: FeatureNode, j: int|
            self.reachable(parent) && #[trigger] self.leads(parent, j, node)
                && self.packages[parent.package.index as int].dependencies@[j].features@.contains(
                f,
            )
    }

    /// The features of the package that are active in the role: those that
    /// the request activates, and those that a dependency reached by the
    /// build asks for in that role.
    pub open spec fn activated(self, node: FeatureNode) -> Set<Symbol> {
        Set::new(|f: Symbol| self.base(node.package).contains(f) || self.contributed(node, f))
    }

    /// Exclusion `k` of the package is broken in the role: the build
    /// reaches the package in the role with both features active.
    pub open spec fn conflict(self, node: FeatureNode, k: int) -> bool {
        let info = self.packages[node.package.index as int];
        &&& self.valid(node)
        &&& self.reachable(node)
        &&& 0 <= k < info.exclusions@.len()
        &&& self.activated(node).contains(info.exclusions@[k].first)
        &&& self.activated(node).contains(info.exclusions@[k].second)
    }

    /// A root is reachable.
    pub proof fn lemma_root_reachable(self, k: int)
        requires
            0 <= k < self.roots.len(),
        ensures
            self.reachable(self.roots[k]),
    {
        let path = seq![self.roots[k]];
        assert(self.is_path(path));
        assert(path.last() == self.roots[k]);
    }

    /// What a reachable node leads to is reachable.
    pub proof fn lemma_step_reachable(self, a: FeatureNode, j: int, b: FeatureNode)
        requires
            self.reachable(a),
            self.leads(a, j, b),
        ensures
            self.reachable(b),
    {
        let path = choose|path: Seq<FeatureNode>| self.is_path(path) && path.last() == a;
        let longer = path.push(b);
        assert forall|i: int| #![trigger longer[i]] 0 <= i < longer.len() - 1 implies self.linked(
            longer[i],
            longer[i + 1],
        ) by {
            if i < path.len() - 1 {
                assert(longer[i] == path[i]);
                assert(longer[i + 1] == path[i + 1]);
                assert(self.linked(path[i], path[i + 1]));
            } else {
                assert(longer[i] == a);
                assert(longer[i + 1] == b);
                assert(self.leads(longer[i], j, longer[i + 1]));
            }
        }
        assert(longer[0] == path[0]);
        assert(self.is_path(longer));
        assert(longer.last() == b);
    }

    /// Every node on a path names a package of the graph, if the roots do
    /// and every dependency does.
    pub proof fn lemma_path_valid(self, path: Seq<FeatureNode>, i: int)
        requires
            self.is_path(path),
            0 <= i < path.len(),
            forall|k: int| 0 <= k < self.roots.len() ==> self.valid(#[trigger] self.roots[k]),
            crate::package::edges_in_range(self.packages),
        ensures
            self.valid(path[i]),
        decreases i,
    {
        if i == 0 {
            let k = choose|k: int| 0 <= k < self.roots.len() && self.roots[k] == path[0];
            assert(self.valid(self.roots[k]));
        } else {
            self.lemma_path_valid(path, i - 1);
            let a = path[i - 1];
            let b = path[i];
            assert(self.linked(path[i - 1], path[i - 1 + 1]));
            let j = choose|j: int| self.leads(a, j, b);
            assert(self.leads(a, j, b));
            let dep = self.packages[a.package.index as int].dependencies@[j];
            assert(dep.package.index < self.packages.len());
        }
    }
}

/// One value for each package in each role.
#[derive(Debug)]
struct RoleTable<T> {
    normal: Vec<T>,
    build_host: Vec<T>,
    proc_macro_host: Vec<T>,
}

impl<T> RoleTable<T> {
    spec fn count(&self) -> nat {
        self.normal@.len()
    }

    spec fn wf(&self) -> bool {
        &&& self.build_host@.len() == self.normal@.len()
        &&& self.proc_macro_host@.len() == self.normal@.len()
    }

    spec fn at(&self, node: FeatureNode) -> T {
        match node.role {
            FeatureRole::Normal => self.normal@[node.package.index as int],
            FeatureRole::BuildHost => self.build_host@[node.package.index as int],
            FeatureRole::ProcMacroHost => self.proc_macro_host@[node.package.index as int],
        }
    }

    fn get(&self, node: FeatureNode) -> (r: &T)
        requires
            self.wf(),
            node.package.index < self.count(),
        ensures
            *r == self.at(node),
    {
        match node.role {
            FeatureRole::Normal => &self.normal[node.package.index],
            FeatureRole::BuildHost => &self.build_host[node.package.index],
            FeatureRole::ProcMacroHost => &self.proc_macro_host[node.package.index],
        }
    }

    fn set(&mut self, node: FeatureNode, value: T)
        requires
            old(self).wf(),
            node.package.index < old(self).count(),
        ensures
            final(self).wf(),
            final(self).count() == old(self).count(),
            final(self).at(node) == value,
            forall|m: FeatureNode|
                m != node && m.package.index < old(self).count() ==> final(self).at(m) == old(
                    self,
                ).at(m),
    {
        match node.role {
            FeatureRole::Normal => {
                self.normal.set(node.package.index, value);
            },
            FeatureRole::BuildHost => {
                self.build_host.set(node.package.index, value);
            },
            FeatureRole::ProcMacroHost => {
                self.proc_macro_host.set(node.package.index, value);
            },
        }
    }
}

/// The features that the request alone activates for a package.
fn base_features(info: &PackageInfo, package: PackageId, request: &FeatureRequest) -> (r:
    FeatureSet)
    requires
        info.wf(),
    ensures
        r.wf(),
        r@ == match *request {
            FeatureRequest::All => info.features@,
            FeatureRequest::Explicit(pairs) => info.default_features@.union(
                Set::new(|f: Symbol| pairs@.contains(FeaturePair { package, feature: f })),
            ),
        },
{
    match request {
        FeatureRequest::All => info.features.duplicate(),
        FeatureRequest::Explicit(pairs) => {
            let mut r = info.default_features.duplicate();
            let n = pairs.len();
            let mut i: usize = 0;
            assert(r@ =~= info.default_features@.union(
                Set::new(
                    |f: Symbol| pairs@.take(0).contains(FeaturePair { package, feature: f }),
                ),
            ));
            while i < n
                invariant
                    n == pairs@.len(),
                    i <= n,
                    r.wf(),
                    r@ == info.default_features@.union(
                        Set::new(
                            |f: Symbol|
                                pairs@.take(i as int).contains(FeaturePair { package, feature: f }),
                        ),
                    ),
                decreases n - i,
            {
                let pair = pairs[i];
                let ghost before = r@;
                if pair.package.index == package.index {
                    r.insert(pair.feature);
                }
                proof {
                    let a = pairs@.take(i as int);
                    let b = pairs@.take(i + 1);
                    assert(b =~= a.push(pair));
                    assert forall|f: Symbol|
                        b.contains(FeaturePair { package, feature: f }) == (a.contains(
                            FeaturePair { package, feature: f },
                        ) || pair == (FeaturePair { package, feature: f })) by {
                        let want = FeaturePair { package, feature: f };
                        if b.contains(want) {
                            let k = choose|k: int| 0 <= k < b.len() && b[k] == want;
                            if k < i {
                                assert(a[k] == want);
                            }
                        }
                        if a.contains(want) {
                            let k = choose|k: int| 0 <= k < a.len() && a[k] == want;
                            assert(b[k] == want);
                        }
                        if pair == want {
                            assert(b[i as int] == want);
                        }
                    }
                    assert(r@ =~= info.default_features@.union(
                        Set::new(|f: Symbol| b.contains(FeaturePair { package, feature: f })),
                    ));
                }
                i = i + 1;
            }
            assert(pairs@.take(n as int) =~= pairs@);
            r
        },
    }
}

/// No more distinct nodes exist than three for each package.
proof fn lemma_nodes_bounded(order: Seq<FeatureNode>, count: int)
    requires
        0 <= count,
        order.no_duplicates(),
        forall|k: int| 0 <= k < order.len() ==> (#[trigger] order[k]).package.index < count,
    ensures
        order.len() <= 3 * count,
{
    let idx = order.map_values(|c: FeatureNode| c.package.index * 3 + c.role.ordinal());
    assert forall|a: int, b: int| 0 <= a < idx.len() && 0 <= b < idx.len() && a != b implies idx[a]
        != idx[b] by {
        if idx[a] == idx[b] {
            lemma_digits(
                order[a].package.index as int,
                order[a].role.ordinal(),
                order[b].package.index as int,
                order[b].role.ordinal(),
                3,
            );
            assert(order[a].role == order[b].role);
            assert(order[a].package == order[b].package);
            assert(order[a] == order[b]);
        }
    }
    assert forall|a: int| 0 <= a < idx.len() implies 0 <= #[trigger] idx[a] < 3 * count by {
        assert(order[a].package.index < count);
    }
    lemma_distinct_bounded(idx, 3 * count);
}

/// What holds while the resolver walks: `order` lists, once each, the
/// nodes met so far, all of them reachable; `seen` marks exactly those;
/// `acc` holds for each node the features found so far, none of them
/// wrong; and the first `done` nodes have been followed to the end.
spec fn walk_inv(
    problem: FeatureProblem,
    acc: RoleTable<FeatureSet>,
    seen: RoleTable<bool>,
    order: Seq<FeatureNode>,
    done: int,
) -> bool {
    &&& acc.wf()
    &&& seen.wf()
    &&& acc.count() == problem.packages.len()
    &&& seen.count() == problem.packages.len()
    &&& order.no_duplicates()
    &&& 0 <= done <= order.len()
    &&& forall|k: int|
        0 <= k < order.len() ==> problem.valid(#[trigger] order[k]) && seen.at(order[k])
            && problem.reachable(order[k])
    &&& forall|node: FeatureNode|
        problem.valid(node) && #[trigger] seen.at(node) ==> order.contains(node)
    &&& forall|node: FeatureNode|
        problem.valid(node) ==> (#[trigger] acc.at(node)).wf() && problem.base(
            node.package,
        ).subset_of(acc.at(node)@) && acc.at(node)@.subset_of(problem.activated(node))
    &&& forall|p: int, j: int, c: FeatureNode|
        0 <= p < done && #[trigger] problem.leads(order[p], j, c) ==> seen.at(c)
            && problem.packages[order[p].package.index as int].dependencies@[j].features@.subset_of(
            acc.at(c)@,
        )
}

/// Once every node met has been followed, everything reachable has been
/// met and the features found are exactly the active ones.
proof fn lemma_walk_complete(
    problem: FeatureProblem,
    acc: RoleTable<FeatureSet>,
    seen: RoleTable<bool>,
    order: Seq<FeatureNode>,
)
    requires
        walk_inv(problem, acc, seen, order, order.len() as int),
        forall|k: int| 0 <= k < problem.roots.len() ==> seen.at(#[trigger] problem.roots[k]),
        forall|k: int| 0 <= k < problem.roots.len() ==> problem.valid(#[trigger] problem.roots[k]),
        crate::package::edges_in_range(problem.packages),
    ensures
        forall|node: FeatureNode|
            problem.valid(node) ==> (#[trigger] acc.at(node))@ == problem.activated(node),
        forall|node: FeatureNode|
            problem.valid(node) ==> (#[trigger] seen.at(node) <==> problem.reachable(node)),
{
    assert forall|node: FeatureNode| problem.valid(node) && problem.reachable(
        node,
    ) implies #[trigger] seen.at(node) by {
        let path = choose|path: Seq<FeatureNode>| problem.is_path(path) && path.last() == node;
        lemma_path_seen(problem, acc, seen, order, path, path.len() - 1);
    }
    assert forall|node: FeatureNode| problem.valid(node) && #[trigger] seen.at(
        node,
    ) implies problem.reachable(node) by {
        assert(order.contains(node));
        let k = choose|k: int| 0 <= k < order.len() && order[k] == node;
        assert(problem.reachable(order[k]));
    }
    assert forall|node: FeatureNode| problem.valid(node) implies (#[trigger] acc.at(node))@
        == problem.activated(node) by {
        assert forall|f: Symbol| problem.activated(node).contains(f) implies acc.at(
            node,
        )@.contains(f) by {
            if problem.base(node.package).contains(f) {
            } else {
                assert(problem.contributed(node, f));
                let (parent, j) = choose|parent: FeatureNode, j: int|
                    problem.reachable(parent) && #[trigger] problem.leads(parent, j, node)
                        && problem.packages[parent.package.index as int].dependencies@[j].features@.contains(
                    f);
                assert(seen.at(parent));
                assert(order.contains(parent));
                let p = choose|p: int| 0 <= p < order.len() && order[p] == parent;
                assert(problem.leads(order[p], j, node));
            }
        }
        assert(acc.at(node)@ =~= problem.activated(node));
    }
}

/// Every node of a path has been met, once every node met has been
/// followed.
proof fn lemma_path_seen(
    problem: FeatureProblem,
    acc: RoleTable<FeatureSet>,
    seen: RoleTable<bool>,
    order: Seq<FeatureNode>,
    path: Seq<FeatureNode>,
    i: int,
)
    requires
        walk_inv(problem, acc, seen, order, order.len() as int),
        forall|k: int| 0 <= k < problem.roots.len() ==> seen.at(#[trigger] problem.roots[k]),
        forall|k: int| 0 <= k < problem.roots.len() ==> problem.valid(#[trigger] problem.roots[k]),
        crate::package::edges_in_range(problem.packages),
        problem.is_path(path),
        0 <= i < path.len(),
    ensures
        seen.at(path[i]),
        problem.valid(path[i]),
    decreases i,
{
    problem.lemma_path_valid(path, i);
    if i == 0 {
        let k = choose|k: int| 0 <= k < problem.roots.len() && problem.roots[k] == path[0];
        assert(seen.at(problem.roots[k]));
    } else {
        lemma_path_seen(problem, acc, seen, order, path, i - 1);
        let a = path[i - 1];
        let b = path[i];
        assert(problem.linked(path[i - 1], path[i - 1 + 1]));
        let j = choose|j: int| problem.leads(a, j, b);
        assert(order.contains(a));
        let p = choose|p: int| 0 <= p < order.len() && order[p] == a;
        assert(problem.leads(order[p], j, b));
    }
}

/// The first exclusion that `set` breaks.
fn first_broken(exclusions: &Vec<crate::package::Exclusion>, set: &FeatureSet) -> (r: Option<
    usize,
>)
    ensures
        match r {
            Some(k) => {
                &&& k < exclusions@.len()
                &&& set@.contains(exclusions@[k as int].first)
                &&& set@.contains(exclusions@[k as int].second)
                &&& forall|l: int|
                    0 <= l < k ==> !(set@.contains((#[trigger] exclusions@[l]).first)
                        && set@.contains(exclusions@[l].second))
            },
            None => forall|k: int|
                0 <= k < exclusions@.len() ==> !(set@.contains((#[trigger] exclusions@[k]).first)
                    && set@.contains(exclusions@[k].second)),
        },
{
    let n = exclusions.len();
    let mut k: usize = 0;
    while k < n
        invariant
            n == exclusions@.len(),
            k <= n,
            forall|a: int|
                0 <= a < k ==> !(set@.contains((#[trigger] exclusions@[a]).first) && set@.contains(
                    exclusions@[a].second,
                )),
        decreases n - k,
    {
        if set.holds_both(exclusions[k].first, exclusions[k].second) {
            return Some(k);
        }
        k = k + 1;
    }
    None
}

/// Follows the dependencies of node `i` of `order`: what each leads to
/// gets the features that the dependency asks for, and is put into `order`
/// if it was not met before.
fn follow(
    graph: &PackageGraph,
    has_dev_units: bool,
    acc: &mut RoleTable<FeatureSet>,
    seen: &mut RoleTable<bool>,
    order: &mut Vec<FeatureNode>,
    i: usize,
    Ghost(problem): Ghost<FeatureProblem>,
)
    requires
        graph.wf(),
        problem.packages == graph.packages(),
        problem.has_dev_units == has_dev_units,
        walk_inv(problem, *old(acc), *old(seen), old(order)@, i as int),
        i < old(order)@.len(),
        forall|k: int| 0 <= k < problem.roots.len() ==> old(seen).at(#[trigger] problem.roots[k]),
        forall|k: int| 0 <= k < problem.roots.len() ==> problem.valid(#[trigger] problem.roots[k]),
    ensures
        walk_inv(problem, *final(acc), *final(seen), final(order)@, i + 1),
        forall|k: int| 0 <= k < problem.roots.len() ==> final(seen).at(#[trigger] problem.roots[k]),
{
    let node = order[i];
    let deps = graph.dependencies_of(node.package);
    let m = deps.len();
    let mut j: usize = 0;
    while j < m
        invariant
            graph.wf(),
            problem.packages == graph.packages(),
            problem.has_dev_units == has_dev_units,
            walk_inv(problem, *acc, *seen, order@, i as int),
            i < order@.len(),
            order@[i as int] == node,
            *deps == graph.packages()[node.package.index as int].dependencies,
            m == deps@.len(),
            j <= m,
            forall|k: int| 0 <= k < problem.roots.len() ==> seen.at(#[trigger] problem.roots[k]),
            forall|k: int|
                0 <= k < problem.roots.len() ==> problem.valid(#[trigger] problem.roots[k]),
            forall|b: int, c: FeatureNode|
                0 <= b < j && #[trigger] problem.leads(node, b, c) ==> seen.at(c)
                    && deps@[b].features@.subset_of(acc.at(c)@),
        decreases m - j,
    {
        let dep = &deps[j];
        assert(dep.package.index < graph.packages().len());
        let eligible = match dep.kind {
            EdgeKind::Test => has_dev_units,
            _ => true,
        };
        let mut found: Option<FeatureNode> = None;
        if eligible {
            match library_of(graph.targets_of(dep.package).as_slice()) {
                Some(library) => {
                    found =
                    Some(
                        FeatureNode {
                            package: dep.package,
                            role: child_feature_role(node.role, dep.kind, &library),
                        },
                    );
                },
                None => {},
            }
        }
        assert(found == problem.step(node, j as int));
        match found {
            Some(child) => {
                assert(problem.leads(node, j as int, child));
                assert(problem.valid(child));
                let ghost acc0 = *acc;
                let ghost seen0 = *seen;
                let ghost order0 = order@;
                let mut set = acc.get(child).duplicate();
                set.extend(&dep.features);
                acc.set(child, set);
                proof {
                    assert(problem.reachable(node));
                    assert forall|f: Symbol| dep.features@.contains(f) implies problem.activated(
                        child,
                    ).contains(f) by {
                        assert(problem.contributed(child, f));
                    }
                    assert forall|nd: FeatureNode| problem.valid(nd) implies (#[trigger] acc.at(
                        nd,
                    )).wf() && problem.base(nd.package).subset_of(acc.at(nd)@) && acc.at(
                        nd,
                    )@.subset_of(problem.activated(nd)) by {
                        if nd != child {
                            assert(acc.at(nd) == acc0.at(nd));
                        } else {
                            assert(acc0.at(nd).wf());
                        }
                    }
                    assert forall|p: int, b: int, c: FeatureNode|
                        0 <= p < i && #[trigger] problem.leads(order0[p], b, c) implies seen.at(c)
                            && problem.packages[order0[p].package.index as int].dependencies@[b].features@.subset_of(
                        acc.at(c)@) by {
                        assert(problem.valid(c));
                        if c != child {
                            assert(acc.at(c) == acc0.at(c));
                        }
                    }
                    assert forall|b: int, c: FeatureNode|
                        0 <= b < j + 1 && #[trigger] problem.leads(node, b, c) implies deps@[b].features@.subset_of(
                    acc.at(c)@) by {
                        assert(problem.valid(c));
                        if b < j {
                            if c != child {
                                assert(acc.at(c) == acc0.at(c));
                            }
                        } else {
                            assert(c == child);
                        }
                    }
                    assert(walk_inv(problem, *acc, *seen, order@, i as int));
                }
                if !*seen.get(child) {
                    let ghost acc1 = *acc;
                    seen.set(child, true);
                    order.push(child);
                    proof {
                        problem.lemma_step_reachable(node, j as int, child);
                        assert forall|a: int, b: int|
                            0 <= a < order@.len() && 0 <= b < order@.len() && a != b implies order@[a]
                            != order@[b] by {
                            if a < order0.len() && b < order0.len() {
                                assert(order0[a] != order0[b]);
                            } else if a < order0.len() {
                                assert(seen0.at(order0[a]));
                            } else {
                                assert(seen0.at(order0[b]));
                            }
                        }
                        assert forall|k: int| 0 <= k < order@.len() implies problem.valid(
                            #[trigger] order@[k],
                        ) && seen.at(order@[k]) && problem.reachable(order@[k]) by {
                            if k < order0.len() {
                                assert(order@[k] == order0[k]);
                                assert(seen0.at(order0[k]));
                            }
                        }
                        assert forall|nd: FeatureNode|
                            problem.valid(nd) && #[trigger] seen.at(nd) implies order@.contains(
                            nd,
                        ) by {
                            if nd == child {
                                assert(order@[order0.len() as int] == child);
                            } else {
                                assert(seen0.at(nd));
                                assert(order0.contains(nd));
                                let k = choose|k: int| 0 <= k < order0.len() && order0[k] == nd;
                                assert(order@[k] == nd);
                            }
                        }
                        assert forall|p: int, b: int, c: FeatureNode|
                            0 <= p < i && #[trigger] problem.leads(
                                order@[p],
                                b,
                                c,
                            ) implies seen.at(c)
                            && problem.packages[order@[p].package.index as int].dependencies@[b].features@.subset_of(
                        acc.at(c)@) by {
                            assert(order@[p] == order0[p]);
                            assert(problem.leads(order0[p], b, c));
                            assert(problem.valid(c));
                            assert(seen0.at(c));
                        }
                        assert forall|k: int| 0 <= k < problem.roots.len() implies seen.at(
                            #[trigger] problem.roots[k],
                        ) by {
                            assert(seen0.at(problem.roots[k]));
                        }
                        assert forall|b: int, c: FeatureNode|
                            0 <= b < j + 1 && #[trigger] problem.leads(node, b, c) implies seen.at(
                            c,
                        ) by {
                            assert(problem.valid(c));
                            if b < j {
                                assert(seen0.at(c));
                            }
                        }
                        assert(walk_inv(problem, *acc, *seen, order@, i as int));
                    }
                }
            },
            None => {},
        }
        j = j + 1;
    }
    proof {
        assert forall|p: int, b: int, c: FeatureNode|
            0 <= p < i + 1 && #[trigger] problem.leads(order@[p], b, c) implies seen.at(c)
                && problem.packages[order@[p].package.index as int].dependencies@[b].features@.subset_of(
            acc.at(c)@) by {
            if p == i {
                assert(problem.leads(node, b, c));
            }
        }
    }
}

/// The active features of every package in every role.
#[derive(Debug)]
pub struct ResolvedFeatures {
    table: RoleTable<FeatureSet>,
}

impl ResolvedFeatures {
    /// The number of packages that the table covers.
    pub closed spec fn count(&self) -> nat {
        self.table.count()
    }

    /// The table holds a well-formed set for each package in each role.
    pub closed spec fn wf(&self) -> bool {
        &&& self.table.wf()
        &&& forall|node: FeatureNode|
            node.package.index < self.table.count() ==> (#[trigger] self.table.at(node)).wf()
    }

    /// The features of the package that are active in the role.
    pub closed spec fn activated(&self, node: FeatureNode) -> Set<Symbol> {
        self.table.at(node)@
    }

    /// The table answers `problem`: for every package of the graph, in
    /// every role, it holds the features that are active.
    pub open spec fn resolves(&self, problem: FeatureProblem) -> bool {
        &&& self.wf()
        &&& self.count() == problem.packages.len()
        &&& forall|node: FeatureNode|
            problem.valid(node) ==> #[trigger] self.activated(node) == problem.activated(node)
    }

    /// The features of `package` that are active in `role`.
    pub fn activated_features(&self, package: PackageId, role: FeatureRole) -> (r: FeatureSet)
        requires
            self.wf(),
            package.index < self.count(),
        ensures
            r.wf(),
            r@ == self.activated(FeatureNode { package, role }),
    {
        self.table.get(FeatureNode { package, role }).duplicate()
    }
}

/// In a list made of two, the first absent package is the first of the
/// front part, or else the first of the back part.
pub proof fn lemma_first_absent_concat(count: nat, front: Seq<PackageId>, back: Seq<PackageId>)
    ensures
        spec_first_absent(count, front + back) == match spec_first_absent(count, front) {
            Some(id) => Some(id),
            None => spec_first_absent(count, back),
        },
    decreases front.len(),
{
    if front.len() == 0 {
        assert(front + back =~= back);
    } else {
        assert((front + back)[0] == front[0]);
        assert((front + back).skip(1) =~= front.skip(1) + back);
        lemma_first_absent_concat(count, front.skip(1), back);
    }
}

/// The first package that `pairs` names and the graph does not hold.
fn first_absent_pair(count: usize, pairs: &Vec<FeaturePair>) -> (r: Option<PackageId>)
    ensures
        r == spec_first_absent(count as nat, pair_packages(pairs@)),
{
    let ghost ids = pair_packages(pairs@);
    let n = pairs.len();
    let mut i: usize = 0;
    assert(ids.skip(0) =~= ids);
    while i < n
        invariant
            n == pairs@.len(),
            ids == pair_packages(pairs@),
            i <= n,
            spec_first_absent(count as nat, ids) == spec_first_absent(
                count as nat,
                ids.skip(i as int),
            ),
        decreases n - i,
    {
        assert(ids.skip(i as int)[0] == pairs@[i as int].package);
        if pairs[i].package.index >= count {
            return Some(pairs[i].package);
        }
        assert(ids.skip(i as int).skip(1) =~= ids.skip(i + 1));
        i = i + 1;
    }
    None
}

/// The first package that `nodes` names and the graph does not hold.
fn first_absent_node(count: usize, nodes: &[FeatureNode]) -> (r: Option<PackageId>)
    ensures
        r == spec_first_absent(count as nat, node_packages(nodes@)),
{
    let ghost ids = node_packages(nodes@);
    let n = nodes.len();
    let mut i: usize = 0;
    assert(ids.skip(0) =~= ids);
    while i < n
        invariant
            n == nodes@.len(),
            ids == node_packages(nodes@),
            i <= n,
            spec_first_absent(count as nat, ids) == spec_first_absent(
                count as nat,
                ids.skip(i as int),
            ),
        decreases n - i,
    {
        assert(ids.skip(i as int)[0] == nodes@[i as int].package);
        if nodes[i].package.index >= count {
            return Some(nodes[i].package);
        }
        assert(ids.skip(i as int).skip(1) =~= ids.skip(i + 1));
        i = i + 1;
    }
    None
}

/// The tables that the walk starts from: for every package in every role
/// the features that the request alone activates, and nothing met.
fn initial_tables(graph: &PackageGraph, request: &FeatureRequest, Ghost(problem): Ghost<
    FeatureProblem,
>) -> (r: (RoleTable<FeatureSet>, RoleTable<bool>))
    requires
        graph.wf(),
        problem.packages == graph.packages(),
        problem.request == *request,
    ensures
        r.0.wf(),
        r.1.wf(),
        r.0.count() == graph.packages().len(),
        r.1.count() == graph.packages().len(),
        forall|node: FeatureNode|
            problem.valid(node) ==> (#[trigger] r.0.at(node)).wf() && r.0.at(node)@ == problem.base(
                node.package,
            ),
        forall|node: FeatureNode| problem.valid(node) ==> !#[trigger] r.1.at(node),
{
    let mut acc = RoleTable::<FeatureSet> {
        normal: Vec::new(),
        build_host: Vec::new(),
        proc_macro_host: Vec::new(),
    };
    let mut seen = RoleTable::<bool> {
        normal: Vec::new(),
        build_host: Vec::new(),
        proc_macro_host: Vec::new(),
    };
    let n = graph.len();
    let mut p: usize = 0;
    while p < n
        invariant
            graph.wf(),
            problem.packages == graph.packages(),
            problem.request == *request,
            n == graph.packages().len(),
            p <= n,
            acc.wf(),
            seen.wf(),
            acc.count() == p,
            seen.count() == p,
            forall|node: FeatureNode|
                node.package.index < p ==> (#[trigger] acc.at(node)).wf() && acc.at(node)@
                    == problem.base(node.package),
            forall|node: FeatureNode| node.package.index < p ==> !#[trigger] seen.at(node),
        decreases n - p,
    {
        let id = PackageId { index: p };
        let info = match graph.get(id) {
            Some(info) => info,
            None => {
                assert(false);
                return (acc, seen);
            },
        };
        let ghost acc0 = acc;
        let ghost seen0 = seen;
        let base = base_features(info, id, request);
        acc.normal.push(base.duplicate());
        acc.build_host.push(base.duplicate());
        acc.proc_macro_host.push(base);
        seen.normal.push(false);
        seen.build_host.push(false);
        seen.proc_macro_host.push(false);
        proof {
            assert forall|node: FeatureNode| node.package.index < p + 1 implies (#[trigger] acc.at(
                node,
            )).wf() && acc.at(node)@ == problem.base(node.package) by {
                if node.package.index < p {
                    assert(acc.at(node) == acc0.at(node));
                } else {
                    assert(node.package == id);
                }
            }
            assert forall|node: FeatureNode| node.package.index < p + 1 implies !#[trigger] seen.at(
                node,
            ) by {
                if node.package.index < p {
                    assert(seen.at(node) == seen0.at(node));
                }
            }
        }
        p = p + 1;
    }
    (acc, seen)
}

impl FeatureProblem {
    /// Exclusion `k` of the package is broken in the role, and it is the
    /// first that is: no package of lower index has a broken exclusion, the
    /// package has none in a role of lower number, and none before `k` in
    /// this role.
    pub open spec fn first_conflict(self, node: FeatureNode, k: int) -> bool {
        &&& self.conflict(node, k)
        &&& forall|other: FeatureNode, l: int|
            other.package.index < node.package.index ==> !self.conflict(other, l)
        &&& forall|other: FeatureNode, l: int|
            other.package == node.package && other.role.ordinal() < node.role.ordinal()
                ==> !self.conflict(other, l)
        &&& forall|l: int| 0 <= l < k ==> !self.conflict(node, l)
    }

    /// The error that tells of the broken exclusion `k` of the package.
    pub open spec fn conflict_error(self, node: FeatureNode, k: int) -> PlanError {
        PlanError::FeatureConflict {
            package: node.package,
            first: self.packages[node.package.index as int].exclusions@[k].first,
            second: self.packages[node.package.index as int].exclusions@[k].second,
        }
    }

    /// There is at most one first conflict.
    pub proof fn lemma_first_conflict_unique(
        self,
        node: FeatureNode,
        k: int,
        other: FeatureNode,
        l: int,
    )
        requires
            self.first_conflict(node, k),
            self.first_conflict(other, l),
        ensures
            node == other,
            k == l,
    {
        assert(node.package.index == other.package.index);
        assert(node.role.ordinal() == other.role.ordinal());
    }
}

/// No exclusion of the package is broken in the role.
spec fn no_conflict_at(problem: FeatureProblem, node: FeatureNode) -> bool {
    forall|l: int| !problem.conflict(node, l)
}

/// Looks for an exclusion that is broken, package by package. Finds the
/// package with the least index that has one.
fn find_conflict(
    graph: &PackageGraph,
    acc: &RoleTable<FeatureSet>,
    seen: &RoleTable<bool>,
    Ghost(problem): Ghost<FeatureProblem>,
) -> (r: Option<PlanError>)
    requires
        graph.wf(),
        problem.packages == graph.packages(),
        acc.wf(),
        seen.wf(),
        acc.count() == graph.packages().len(),
        seen.count() == graph.packages().len(),
        forall|node: FeatureNode|
            problem.valid(node) ==> (#[trigger] acc.at(node))@ == problem.activated(node),
        forall|node: FeatureNode|
            problem.valid(node) ==> (#[trigger] seen.at(node) <==> problem.reachable(node)),
    ensures
        match r {
            None => forall|node: FeatureNode, k: int| !problem.conflict(node, k),
            Some(e) => exists|node: FeatureNode, k: int|
                #[trigger] problem.first_conflict(node, k) && e == problem.conflict_error(node, k),
        },
{
    let n = graph.len();
    let mut p: usize = 0;
    while p < n
        invariant
            graph.wf(),
            problem.packages == graph.packages(),
            acc.wf(),
            seen.wf(),
            n == graph.packages().len(),
            acc.count() == n,
            seen.count() == n,
            p <= n,
            forall|node: FeatureNode|
                problem.valid(node) ==> (#[trigger] acc.at(node))@ == problem.activated(node),
            forall|node: FeatureNode|
                problem.valid(node) ==> (#[trigger] seen.at(node) <==> problem.reachable(node)),
            forall|other: FeatureNode, l: int|
                other.package.index < p ==> !problem.conflict(other, l),
        decreases n - p,
    {
        let id = PackageId { index: p };
        let info = match graph.get(id) {
            Some(info) => info,
            None => {
                assert(false);
                return None;
            },
        };
        let roles = [FeatureRole::Normal, FeatureRole::BuildHost, FeatureRole::ProcMacroHost];
        let mut t: usize = 0;
        while t < 3
            invariant
                graph.wf(),
                problem.packages == graph.packages(),
                acc.wf(),
                seen.wf(),
                n == graph.packages().len(),
                acc.count() == n,
                seen.count() == n,
                p < n,
                id.index == p,
                *info == graph.packages()[p as int],
                t <= 3,
                roles@ == seq![
                    FeatureRole::Normal,
                    FeatureRole::BuildHost,
                    FeatureRole::ProcMacroHost,
                ],
                forall|node: FeatureNode|
                    problem.valid(node) ==> (#[trigger] acc.at(node))@ == problem.activated(node),
                forall|node: FeatureNode|
                    problem.valid(node) ==> (#[trigger] seen.at(node) <==> problem.reachable(node)),
                forall|other: FeatureNode, l: int|
                    other.package.index < p ==> !problem.conflict(other, l),
                forall|a: int|
                    0 <= a < t ==> no_conflict_at(
                        problem,
                        FeatureNode { package: id, role: #[trigger] roles@[a] },
                    ),
            decreases 3 - t,
        {
            let node = FeatureNode { package: id, role: roles[t] };
            assert(problem.valid(node));
            if *seen.get(node) {
                match first_broken(&info.exclusions, acc.get(node)) {
                    Some(k) => {
                        proof {
                            assert(problem.conflict(node, k as int));
                            assert forall|other: FeatureNode, l: int|
                                other.package == node.package && other.role.ordinal()
                                    < node.role.ordinal() implies !problem.conflict(other, l) by {
                                let a: int = other.role.ordinal();
                                assert(roles@[a] == other.role);
                                assert(other == FeatureNode { package: id, role: roles@[a] });
                                assert(no_conflict_at(
                                    problem,
                                    FeatureNode { package: id, role: roles@[a] },
                                ));
                            }
                            assert(problem.first_conflict(node, k as int));
                        }
                        return Some(
                            PlanError::FeatureConflict {
                                package: id,
                                first: info.exclusions[k].first,
                                second: info.exclusions[k].second,
                            },
                        );
                    },
                    None => {},
                }
            }
            assert(no_conflict_at(problem, node));
            t = t + 1;
        }
        proof {
            assert forall|other: FeatureNode, l: int|
                other.package.index < p + 1 implies !problem.conflict(other, l) by {
                if other.package.index == p {
                    assert(other.package == id);
                    let a: int = other.role.ordinal();
                    assert(roles@[a] == other.role);
                    assert(other == FeatureNode { package: id, role: roles@[a] });
                    assert(no_conflict_at(problem, FeatureNode { package: id, role: roles@[a] }));
                }
            }
        }
        p = p + 1;
    }
    None
}

/// Resolves the features: works out, for every package of `graph` in every
/// role, which of its features are active in a build that starts from
/// `roots`.
///
/// Fails before anything else is done where the request, or a root, names
/// a package that the graph does not hold; the error names the first such
/// package, those of the request before those of the roots. Fails, too,
/// where the build reaches a package in a role in which two features are
/// active that the package declares as excluding each other; the error
/// names the first such pair: of the package of least index, in its role
/// of least number, the exclusion that the package lists first.
pub fn resolve_features(
    graph: &PackageGraph,
    request: &FeatureRequest,
    has_dev_units: bool,
    roots: &[FeatureNode],
) -> (r: Result<ResolvedFeatures, PlanError>)
    requires
        graph.wf(),
    ensures
        ({
            let problem = FeatureProblem {
                packages: graph.packages(),
                request: *request,
                has_dev_units,
                roots: roots@,
            };
            let named = problem.requested_packages() + node_packages(roots@);
            match r {
                Ok(f) => {
                    &&& spec_first_absent(graph.packages().len(), named) is None
                    &&& f.resolves(problem)
                    &&& forall|node: FeatureNode, k: int| !problem.conflict(node, k)
                },
                Err(e) => match spec_first_absent(graph.packages().len(), named) {
                    Some(id) => e == (PlanError::UnknownPackage { package: id }),
                    None => exists|node: FeatureNode, k: int|
                        #[trigger] problem.first_conflict(node, k) && e == problem.conflict_error(
                            node,
                            k,
                        ),
                },
            }
        }),
{
    let ghost problem = FeatureProblem {
        packages: graph.packages(),
        request: *request,
        has_dev_units,
        roots: roots@,
    };
    let n = graph.len();
    proof {
        lemma_first_absent_concat(n as nat, problem.requested_packages(), node_packages(roots@));
    }
    match request {
        FeatureRequest::All => {},
        FeatureRequest::Explicit(pairs) => {
            match first_absent_pair(n, pairs) {
                Some(id) => {
                    return Err(PlanError::UnknownPackage { package: id });
                },
                None => {},
            }
        },
    }
    match first_absent_node(n, roots) {
        Some(id) => {
            return Err(PlanError::UnknownPackage { package: id });
        },
        None => {},
    }
    proof {
        lemma_none_absent(n as nat, node_packages(roots@));
        assert forall|k: int| 0 <= k < problem.roots.len() implies problem.valid(
            #[trigger] problem.roots[k],
        ) by {
            assert(node_packages(roots@)[k] == roots@[k].package);
        }
    }
    let (mut acc, mut seen) = initial_tables(graph, request, Ghost(problem));
    let mut order: Vec<FeatureNode> = Vec::new();
    let rn = roots.len();
    let mut k: usize = 0;
    proof {
        assert forall|node: FeatureNode| problem.valid(node) implies (#[trigger] acc.at(
            node,
        )).wf() && problem.base(node.package).subset_of(acc.at(node)@) && acc.at(node)@.subset_of(
            problem.activated(node),
        ) by {}
        assert(walk_inv(problem, acc, seen, order@, 0));
    }
    while k < rn
        invariant
            graph.wf(),
            problem.packages == graph.packages(),
            problem.roots == roots@,
            rn == roots@.len(),
            k <= rn,
            walk_inv(problem, acc, seen, order@, 0),
            forall|a: int| 0 <= a < k ==> seen.at(#[trigger] problem.roots[a]),
            forall|a: int| 0 <= a < problem.roots.len() ==> problem.valid(#[trigger] problem.roots[a]),
        decreases rn - k,
    {
        let node = roots[k];
        assert(node == problem.roots[k as int]);
        assert(problem.valid(node));
        if !*seen.get(node) {
            let ghost seen0 = seen;
            let ghost order0 = order@;
            seen.set(node, true);
            order.push(node);
            proof {
                problem.lemma_root_reachable(k as int);
                assert forall|a: int, b: int|
                    0 <= a < order@.len() && 0 <= b < order@.len() && a != b implies order@[a]
                    != order@[b] by {
                    if a < order0.len() && b < order0.len() {
                        assert(order0[a] != order0[b]);
                    } else if a < order0.len() {
                        assert(seen0.at(order0[a]));
                    } else {
                        assert(seen0.at(order0[b]));
                    }
                }
                assert forall|a: int| 0 <= a < order@.len() implies problem.valid(
                    #[trigger] order@[a],
                ) && seen.at(order@[a]) && problem.reachable(order@[a]) by {
                    if a < order0.len() {
                        assert(order@[a] == order0[a]);
                        assert(seen0.at(order0[a]));
                    }
                }
                assert forall|nd: FeatureNode|
                    problem.valid(nd) && #[trigger] seen.at(nd) implies order@.contains(nd) by {
                    if nd == node {
                        assert(order@[order0.len() as int] == node);
                    } else {
                        assert(seen0.at(nd));
                        assert(order0.contains(nd));
                        let b = choose|b: int| 0 <= b < order0.len() && order0[b] == nd;
                        assert(order@[b] == nd);
                    }
                }
                assert forall|a: int| 0 <= a < k + 1 implies seen.at(
                    #[trigger] problem.roots[a],
                ) by {
                    if a < k {
                        assert(seen0.at(problem.roots[a]));
                    }
                }
                assert(walk_inv(problem, acc, seen, order@, 0));
            }
        }
        k = k + 1;
    }
    let mut i: usize = 0;
    while i < order.len()
        invariant
            graph.wf(),
            problem.packages == graph.packages(),
            problem.has_dev_units == has_dev_units,
            n == graph.packages().len(),
            walk_inv(problem, acc, seen, order@, i as int),
            forall|a: int| 0 <= a < problem.roots.len() ==> seen.at(#[trigger] problem.roots[a]),
            forall|a: int| 0 <= a < problem.roots.len() ==> problem.valid(#[trigger] problem.roots[a]),
        decreases 3 * n - i,
    {
        proof {
            lemma_nodes_bounded(order@, n as int);
        }
        follow(graph, has_dev_units, &mut acc, &mut seen, &mut order, i, Ghost(problem));
        i = i + 1;
    }
    proof {
        lemma_walk_complete(problem, acc, seen, order@);
    }
    match find_conflict(graph, &acc, &seen, Ghost(problem)) {
        Some(e) => Err(e),
        None => {
            let f = ResolvedFeatures { table: acc };
            assert(f.resolves(problem));
            Ok(f)
        },
    }
}

} // verus!
