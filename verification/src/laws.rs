//! What holds of every plan.

use vstd::prelude::*;
use crate::context::PlanContext;
use crate::graph::GraphModel;
use crate::kind::{CompileKind, TargetData};
use crate::order::{acyclic, depends_on, is_dependency_path, is_ranking, lemma_no_cycle};
use crate::package::{is_package_ranking, packages_acyclic, EdgeKind, PackageGraph};
use crate::plan::{context_of, is_plan, Proposal};
use crate::profile::{PanicStrategy, ProfileTable, UnitRole};
use crate::resolver::{FeatureNode, FeatureProblem, ResolvedFeatures};
use crate::unit::UnitKey;

verus! {

impl<'a> PlanContext<'a> {
    /// Unit `a` depends on unit `b`.
    pub open spec fn key_step(&self, a: UnitKey, b: UnitKey) -> bool {
        exists|t: int| 0 <= t < self.unit_deps(a).len() && (#[trigger] self.unit_deps(a)[t]).0 == b
    }

    /// `path` starts at one of `root_keys` and follows dependencies.
    pub open spec fn is_key_path(&self, root_keys: Seq<UnitKey>, path: Seq<UnitKey>) -> bool {
        &&& path.len() > 0
        &&& root_keys.contains(path[0])
        &&& forall|i: int|
            #![trigger path[i]]
            0 <= i < path.len() - 1 ==> self.key_step(path[i], path[i + 1])
    }

    /// A build that starts from `root_keys` needs the unit `key`.
    pub open spec fn reaches(&self, root_keys: Seq<UnitKey>, key: UnitKey) -> bool {
        exists|path: Seq<UnitKey>| self.is_key_path(root_keys, path) && path.last() == key
    }
}

/// Every unit of a graph is one that the build needs.
pub proof fn lemma_unit_reached(ctx: &PlanContext, root_keys: Seq<UnitKey>, m: GraphModel, h: int)
    requires
        m.is_closure(ctx, root_keys),
        0 <= h < m.units.len(),
    ensures
        ctx.reaches(root_keys, m.units[h]),
    decreases h,
{
    if m.is_root(h) {
        let i = choose|i: int| 0 <= i < m.roots.len() && (#[trigger] m.roots[i]).index == h;
        assert(m.units[m.roots[i].index as int] == root_keys[i]);
        let path = seq![m.units[h]];
        assert(root_keys.contains(path[0]));
        assert(ctx.is_key_path(root_keys, path));
        assert(path.last() == m.units[h]);
    } else {
        assert(m.is_found(h));
        let (p, t) = choose|p: int, t: int|
            0 <= p < h && 0 <= t < m.edges[p].len() && (#[trigger] m.edges[p][t]).unit.index == h;
        lemma_unit_reached(ctx, root_keys, m, p);
        let path = choose|path: Seq<UnitKey>|
            ctx.is_key_path(root_keys, path) && path.last() == m.units[p];
        assert(ctx.names(m.units, m.edges[p], ctx.unit_deps(m.units[p])));
        assert(m.units[m.edges[p][t].unit.index as int] == ctx.unit_deps(m.units[p])[t].0);
        assert(ctx.key_step(m.units[p], m.units[h]));
        let longer = path.push(m.units[h]);
        assert forall|i: int| #![trigger longer[i]] 0 <= i < longer.len() - 1 implies ctx.key_step(
            longer[i],
            longer[i + 1],
        ) by {
            if i < path.len() - 1 {
                assert(longer[i] == path[i]);
                assert(longer[i + 1] == path[i + 1]);
                assert(ctx.key_step(path[i], path[i + 1]));
            } else {
                assert(longer[i] == m.units[p]);
                assert(longer[i + 1] == m.units[h]);
            }
        }
        assert(longer[0] == path[0]);
        assert(ctx.is_key_path(root_keys, longer));
        assert(longer.last() == m.units[h]);
    }
}

/// Every unit on a path from the roots is in the graph.
pub proof fn lemma_path_in_graph(
    ctx: &PlanContext,
    root_keys: Seq<UnitKey>,
    m: GraphModel,
    path: Seq<UnitKey>,
    i: int,
)
    requires
        m.is_closure(ctx, root_keys),
        ctx.is_key_path(root_keys, path),
        0 <= i < path.len(),
    ensures
        m.units.contains(path[i]),
    decreases i,
{
    if i == 0 {
        let k = choose|k: int| 0 <= k < root_keys.len() && root_keys[k] == path[0];
        assert(m.units[m.roots[k].index as int] == root_keys[k]);
    } else {
        lemma_path_in_graph(ctx, root_keys, m, path, i - 1);
        let h = choose|h: int| 0 <= h < m.units.len() && m.units[h] == path[i - 1];
        assert(ctx.key_step(path[i - 1], path[i - 1 + 1]));
        let t = choose|t: int|
            0 <= t < ctx.unit_deps(path[i - 1]).len() && (#[trigger] ctx.unit_deps(
                path[i - 1],
            )[t]).0 == path[i];
        assert(ctx.names(m.units, m.edges[h], ctx.unit_deps(m.units[h])));
        assert(m.units[m.edges[h][t].unit.index as int] == path[i]);
    }
}

/// The units of a graph are exactly those that the build needs.
pub proof fn lemma_units_are_the_reachable(
    ctx: &PlanContext,
    root_keys: Seq<UnitKey>,
    m: GraphModel,
)
    requires
        m.is_closure(ctx, root_keys),
    ensures
        forall|key: UnitKey| m.key_set().contains(key) <==> ctx.reaches(root_keys, key),
{
    assert forall|key: UnitKey| m.key_set().contains(key) <==> ctx.reaches(root_keys, key) by {
        if m.key_set().contains(key) {
            let h = choose|h: int| 0 <= h < m.units.len() && m.units[h] == key;
            lemma_unit_reached(ctx, root_keys, m, h);
        }
        if ctx.reaches(root_keys, key) {
            let path = choose|path: Seq<UnitKey>|
                ctx.is_key_path(root_keys, path) && path.last() == key;
            lemma_path_in_graph(ctx, root_keys, m, path, path.len() - 1);
        }
    }
}

/// A dependency of one graph is a dependency of any other graph of the
/// same build.
proof fn lemma_edge_carries_over(
    ctx: &PlanContext,
    root_keys: Seq<UnitKey>,
    m1: GraphModel,
    m2: GraphModel,
    a: UnitKey,
    b: UnitKey,
    kind: EdgeKind,
)
    requires
        m1.is_closure(ctx, root_keys),
        m2.is_closure(ctx, root_keys),
        m1.has_edge(a, b, kind),
    ensures
        m2.has_edge(a, b, kind),
{
    let (h, t) = choose|h: int, t: int|
        0 <= h < m1.units.len() && 0 <= t < m1.edges[h].len() && m1.units[h] == a && m1.units[(
        #[trigger] m1.edges[h][t]).unit.index as int] == b && m1.edges[h][t].kind == kind;
    assert(ctx.names(m1.units, m1.edges[h], ctx.unit_deps(m1.units[h])));
    assert(ctx.unit_deps(a)[t] == (b, kind));
    lemma_units_are_the_reachable(ctx, root_keys, m1);
    lemma_units_are_the_reachable(ctx, root_keys, m2);
    assert(m1.key_set().contains(a));
    assert(m2.key_set().contains(a));
    let h2 = choose|h2: int| 0 <= h2 < m2.units.len() && m2.units[h2] == a;
    assert(ctx.names(m2.units, m2.edges[h2], ctx.unit_deps(m2.units[h2])));
    assert(m2.units[m2.edges[h2][t].unit.index as int] == b);
    assert(m2.edges[h2][t].kind == kind);
}

/// Planning is deterministic: two graphs of the same build, from the same
/// roots, hold the same units and the same dependencies. They can differ
/// in nothing but the order of the handles.
pub proof fn lemma_closure_unique(
    ctx: &PlanContext,
    root_keys: Seq<UnitKey>,
    m1: GraphModel,
    m2: GraphModel,
)
    requires
        m1.is_closure(ctx, root_keys),
        m2.is_closure(ctx, root_keys),
    ensures
        m1.key_set() == m2.key_set(),
        m1.edge_set() == m2.edge_set(),
{
    lemma_units_are_the_reachable(ctx, root_keys, m1);
    lemma_units_are_the_reachable(ctx, root_keys, m2);
    assert(m1.key_set() =~= m2.key_set());
    assert forall|e: (UnitKey, UnitKey, EdgeKind)| m1.edge_set().contains(e)
        == m2.edge_set().contains(e) by {
        if m1.has_edge(e.0, e.1, e.2) {
            lemma_edge_carries_over(ctx, root_keys, m1, m2, e.0, e.1, e.2);
        }
        if m2.has_edge(e.0, e.1, e.2) {
            lemma_edge_carries_over(ctx, root_keys, m2, m1, e.0, e.1, e.2);
        }
    }
    assert(m1.edge_set() =~= m2.edge_set());
}

/// Whether the units can be ordered does not depend on the order of the
/// handles: if one graph of a build can be ordered, any other can.
pub proof fn lemma_order_carries_over(
    ctx: &PlanContext,
    root_keys: Seq<UnitKey>,
    m1: GraphModel,
    m2: GraphModel,
)
    requires
        m1.is_closure(ctx, root_keys),
        m2.is_closure(ctx, root_keys),
        acyclic(m1.edges),
    ensures
        acyclic(m2.edges),
{
    let rank1 = choose|rank: Seq<nat>| is_ranking(m1.edges, rank);
    lemma_units_are_the_reachable(ctx, root_keys, m1);
    lemma_units_are_the_reachable(ctx, root_keys, m2);
    let rank2 = Seq::new(m2.units.len(), |h: int| rank1[m1.units.index_of(m2.units[h])]);
    assert forall|h: int, t: int| 0 <= h < m2.edges.len() && 0 <= t < m2.edges[h].len() implies (
    #[trigger] m2.edges[h][t]).unit.index < m2.edges.len() && rank2[m2.edges[h][t].unit.index as int]
        < rank2[h] by {
        let a = m2.units[h];
        let d = m2.edges[h][t].unit.index as int;
        let b = m2.units[d];
        assert(ctx.names(m2.units, m2.edges[h], ctx.unit_deps(m2.units[h])));
        assert(ctx.unit_deps(a)[t].0 == b);
        assert(m2.key_set().contains(a));
        assert(m1.key_set().contains(a));
        assert(m2.key_set().contains(b));
        assert(m1.key_set().contains(b));
        let h1 = m1.units.index_of(a);
        assert(m1.units[h1] == a);
        assert(ctx.names(m1.units, m1.edges[h1], ctx.unit_deps(m1.units[h1])));
        let d1 = m1.edges[h1][t].unit.index as int;
        assert(m1.units[d1] == b);
        assert(m1.units[m1.units.index_of(b)] == b);
        assert(m1.units.index_of(b) == d1);
        assert(rank1[d1] < rank1[h1]);
    }
    assert(is_ranking(m2.edges, rank2));
}

/// Each of the units that the first `n` dependencies of `parent` lead to
/// is what one of those dependencies leads to.
pub proof fn lemma_deps_origin(ctx: &PlanContext, parent: UnitKey, n: int, t: int)
    requires
        0 <= t < ctx.deps_upto(parent, n).len(),
    ensures
        exists|j: int| 0 <= j < n && #[trigger] ctx.child(parent, j) == Some(ctx.deps_upto(parent, n)[t]),
    decreases n,
{
    if n > 0 {
        let before = ctx.deps_upto(parent, n - 1);
        if t < before.len() {
            lemma_deps_origin(ctx, parent, n - 1, t);
            let j = choose|j: int| 0 <= j < n - 1 && #[trigger] ctx.child(parent, j) == Some(before[t]);
            assert(ctx.child(parent, j) == Some(ctx.deps_upto(parent, n)[t]));
        } else {
            assert(ctx.child(parent, n - 1) == Some(ctx.deps_upto(parent, n)[t]));
        }
    }
}

/// Where no package depends on itself, by however many steps, no unit
/// does: a graph over packages that can be ordered can be ordered itself.
pub proof fn lemma_acyclic_packages(
    ctx: &PlanContext,
    root_keys: Seq<UnitKey>,
    m: GraphModel,
    package_rank: Seq<nat>,
)
    requires
        m.is_closure(ctx, root_keys),
        is_package_ranking(ctx.graph.packages(), package_rank),
    ensures
        acyclic(m.edges),
{
    let rank = Seq::new(m.units.len(), |h: int| package_rank[m.units[h].package.index as int]);
    assert forall|h: int, t: int| 0 <= h < m.edges.len() && 0 <= t < m.edges[h].len() implies (
    #[trigger] m.edges[h][t]).unit.index < m.edges.len() && rank[m.edges[h][t].unit.index as int]
        < rank[h] by {
        let parent = m.units[h];
        assert(ctx.admits(parent));
        assert(ctx.names(m.units, m.edges[h], ctx.unit_deps(parent)));
        let n = ctx.graph.packages()[parent.package.index as int].dependencies@.len() as int;
        lemma_deps_origin(ctx, parent, n, t);
        let j = choose|j: int|
            0 <= j < n && #[trigger] ctx.child(parent, j) == Some(ctx.deps_upto(parent, n)[t]);
        let dep = ctx.graph.packages()[parent.package.index as int].dependencies@[j];
        assert(m.units[m.edges[h][t].unit.index as int].package == dep.package);
    }
    assert(is_ranking(m.edges, rank));
}

/// Acyclicity: the unit graph of packages none of which depends on itself,
/// by however many steps, can be ordered, and so holds no cycle.
pub proof fn lemma_acyclic_input(ctx: &PlanContext, root_keys: Seq<UnitKey>, m: GraphModel)
    requires
        m.is_closure(ctx, root_keys),
        packages_acyclic(ctx.graph.packages()),
    ensures
        acyclic(m.edges),
{
    let rank = choose|rank: Seq<nat>| is_package_ranking(ctx.graph.packages(), rank);
    lemma_acyclic_packages(ctx, root_keys, m, rank);
}

/// Unit `a` depends on unit `b` as a build script does on what it needs,
/// or as on a procedural macro.
pub open spec fn forced_step(m: GraphModel, a: int, b: int) -> bool {
    exists|t: int|
        0 <= t < m.edges[a].len() && (#[trigger] m.edges[a][t]).unit.index == b
            && m.edges[a][t].kind.spec_forces_host()
}

/// A unit is a build tool: it runs on the host while the build runs.
pub open spec fn is_tool(ctx: &PlanContext, unit: UnitKey) -> bool {
    &&& unit.profile.role == UnitRole::CompilerTool
    &&& unit.kind == CompileKind::Target(ctx.host())
    &&& unit.profile.panic == PanicStrategy::Unwind
}

/// What a build script needs, what is a procedural macro, and whatever a
/// build tool depends on, is a build tool: it is built for the host's
/// triple and unwinds.
pub proof fn lemma_tools_beget_tools(
    ctx: &PlanContext,
    root_keys: Seq<UnitKey>,
    m: GraphModel,
    h: int,
    t: int,
)
    requires
        m.is_closure(ctx, root_keys),
        0 <= h < m.units.len(),
        0 <= t < m.edges[h].len(),
        m.edges[h][t].kind.spec_forces_host() || m.units[h].profile.role == UnitRole::CompilerTool,
    ensures
        is_tool(ctx, m.units[m.edges[h][t].unit.index as int]),
{
    let parent = m.units[h];
    assert(ctx.admits(parent));
    assert(ctx.names(m.units, m.edges[h], ctx.unit_deps(parent)));
    let n = ctx.graph.packages()[parent.package.index as int].dependencies@.len() as int;
    lemma_deps_origin(ctx, parent, n, t);
    let j = choose|j: int|
        0 <= j < n && #[trigger] ctx.child(parent, j) == Some(ctx.deps_upto(parent, n)[t]);
    let dep = ctx.graph.packages()[parent.package.index as int].dependencies@[j];
    assert(m.edges[h][t].kind == dep.kind);
    let child = m.units[m.edges[h][t].unit.index as int];
    assert(ctx.child(parent, j) == Some((child, dep.kind)));
}

/// From a step that forces the host on, every unit on a path of
/// dependencies is a build tool.
pub proof fn lemma_tools_below(
    ctx: &PlanContext,
    root_keys: Seq<UnitKey>,
    m: GraphModel,
    path: Seq<int>,
    s: int,
    i: int,
)
    requires
        m.is_closure(ctx, root_keys),
        is_dependency_path(m.edges, path),
        0 <= s < i < path.len(),
        forced_step(m, path[s], path[s + 1]),
    ensures
        is_tool(ctx, m.units[path[i]]),
    decreases i,
{
    if i == s + 1 {
        let t = choose|t: int|
            0 <= t < m.edges[path[s]].len() && (#[trigger] m.edges[path[s]][t]).unit.index == path[s
                + 1] && m.edges[path[s]][t].kind.spec_forces_host();
        lemma_tools_beget_tools(ctx, root_keys, m, path[s], t);
    } else {
        lemma_tools_below(ctx, root_keys, m, path, s, i - 1);
        assert(depends_on(m.edges, path[i - 1], path[i - 1 + 1]));
        let t = choose|t: int|
            0 <= t < m.edges[path[i - 1]].len() && (#[trigger] m.edges[path[i - 1]][t]).unit.index
                == path[i];
        lemma_tools_beget_tools(ctx, root_keys, m, path[i - 1], t);
    }
}

/// Host isolation: a unit that is reached through a dependency of a build
/// script, or through a procedural macro, is built for the host's triple,
/// whatever platform the units at the start of the path are built for.
pub proof fn lemma_host_isolation(
    ctx: &PlanContext,
    root_keys: Seq<UnitKey>,
    m: GraphModel,
    path: Seq<int>,
    s: int,
)
    requires
        m.is_closure(ctx, root_keys),
        is_dependency_path(m.edges, path),
        0 <= s < path.len() - 1,
        forced_step(m, path[s], path[s + 1]),
    ensures
        m.units[path.last()].kind == CompileKind::Target(ctx.host()),
{
    lemma_tools_below(ctx, root_keys, m, path, s, path.len() - 1);
}

/// The panic strategy of build tools: a unit that is reached through a
/// dependency of a build script, or through a procedural macro, unwinds,
/// whatever the profile asked for and the overrides of the workspace say.
pub proof fn lemma_tools_unwind(
    ctx: &PlanContext,
    root_keys: Seq<UnitKey>,
    m: GraphModel,
    path: Seq<int>,
    s: int,
)
    requires
        m.is_closure(ctx, root_keys),
        is_dependency_path(m.edges, path),
        0 <= s < path.len() - 1,
        forced_step(m, path[s], path[s + 1]),
    ensures
        m.units[path.last()].profile.panic == PanicStrategy::Unwind,
{
    lemma_tools_below(ctx, root_keys, m, path, s, path.len() - 1);
}

/// `path` leads from a root to unit `h`.
pub open spec fn is_root_path(m: GraphModel, path: Seq<int>, h: int) -> bool {
    &&& is_dependency_path(m.edges, path)
    &&& m.is_root(path[0])
    &&& path.last() == h
}

/// One step of `path` forces the host on.
pub open spec fn passes_forced_step(m: GraphModel, path: Seq<int>) -> bool {
    exists|s: int| 0 <= s < path.len() - 1 && forced_step(m, #[trigger] path[s], path[s + 1])
}

/// Every unit of a graph is reached from a root.
pub proof fn lemma_reached_from_root(ctx: &PlanContext, root_keys: Seq<UnitKey>, m: GraphModel, h: int)
    requires
        m.is_closure(ctx, root_keys),
        0 <= h < m.units.len(),
    ensures
        exists|path: Seq<int>| is_root_path(m, path, h),
    decreases h,
{
    if m.is_root(h) {
        let path = seq![h];
        assert(is_root_path(m, path, h));
    } else {
        assert(m.is_found(h));
        let (p, t) = choose|p: int, t: int|
            0 <= p < h && 0 <= t < m.edges[p].len() && (#[trigger] m.edges[p][t]).unit.index == h;
        lemma_reached_from_root(ctx, root_keys, m, p);
        let path = choose|path: Seq<int>| is_root_path(m, path, p);
        let longer = path.push(h);
        assert forall|i: int| #![trigger longer[i]] 0 <= i < longer.len() - 1 implies depends_on(
            m.edges,
            longer[i],
            longer[i + 1],
        ) by {
            if i < path.len() - 1 {
                assert(longer[i] == path[i]);
                assert(longer[i + 1] == path[i + 1]);
                assert(depends_on(m.edges, path[i], path[i + 1]));
            } else {
                assert(longer[i] == p);
                assert(longer[i + 1] == h);
            }
        }
        assert forall|i: int| 0 <= i < longer.len() implies 0 <= #[trigger] longer[i]
            < m.edges.len() by {
            if i < path.len() {
                assert(longer[i] == path[i]);
            }
        }
        assert(longer[0] == path[0]);
        assert(is_root_path(m, longer, h));
    }
}

/// Host isolation, by packages: a unit that the roots reach only through
/// dependencies of build scripts or through procedural macros is built for
/// the host's triple. So every unit of a package that is reached in no
/// other way is.
pub proof fn lemma_host_only(ctx: &PlanContext, root_keys: Seq<UnitKey>, m: GraphModel, h: int)
    requires
        m.is_closure(ctx, root_keys),
        0 <= h < m.units.len(),
        forall|path: Seq<int>| #[trigger] is_root_path(m, path, h) ==> passes_forced_step(m, path),
    ensures
        m.units[h].kind == CompileKind::Target(ctx.host()),
        m.units[h].profile.panic == PanicStrategy::Unwind,
{
    lemma_reached_from_root(ctx, root_keys, m, h);
    let path = choose|path: Seq<int>| is_root_path(m, path, h);
    assert(passes_forced_step(m, path));
    let s = choose|s: int| 0 <= s < path.len() - 1 && forced_step(m, #[trigger] path[s], path[s + 1]);
    lemma_tools_below(ctx, root_keys, m, path, s, path.len() - 1);
}

/// No two handles of a graph name the same unit.
pub proof fn lemma_handles_distinct(m: GraphModel, a: int, b: int)
    requires
        m.wf(),
        0 <= a < m.units.len(),
        0 <= b < m.units.len(),
        m.units[a] == m.units[b],
    ensures
        a == b,
{
}

/// A plan that succeeded holds no cycle: no path of one step or more leads
/// from a unit back to itself.
pub proof fn lemma_plan_has_no_cycle(m: GraphModel, path: Seq<int>)
    requires
        acyclic(m.edges),
        is_dependency_path(m.edges, path),
        path.len() >= 2,
    ensures
        path.last() != path[0],
{
    lemma_no_cycle(m.edges, path);
}

/// The two contexts are made from the same packages, profile and
/// platforms, and hold the same active features for every package of the
/// graph in every role.
pub open spec fn same_inputs(c1: &PlanContext, c2: &PlanContext) -> bool {
    &&& c1.graph.packages() == c2.graph.packages()
    &&& c1.profiles.name() == c2.profiles.name()
    &&& c1.profiles.base() == c2.profiles.base()
    &&& c1.profiles.overrides() == c2.profiles.overrides()
    &&& c1.targets.host_triple() == c2.targets.host_triple()
    &&& c1.targets.platforms() == c2.targets.platforms()
    &&& c1.has_dev_units == c2.has_dev_units
    &&& forall|node: FeatureNode|
        node.package.index < c1.graph.packages().len() ==> #[trigger] c1.features.activated(node)
            == c2.features.activated(node)
}

/// Contexts made from the same inputs lead from a unit to the same
/// dependency units.
pub proof fn lemma_deps_agree(c1: &PlanContext, c2: &PlanContext, parent: UnitKey, n: int)
    requires
        same_inputs(c1, c2),
        c1.graph.wf(),
        parent.package.index < c1.graph.packages().len(),
        n <= c1.graph.packages()[parent.package.index as int].dependencies@.len(),
    ensures
        c1.deps_upto(parent, n) == c2.deps_upto(parent, n),
    decreases n,
{
    if n > 0 {
        lemma_deps_agree(c1, c2, parent, n - 1);
        let dep = c1.graph.packages()[parent.package.index as int].dependencies@[n - 1];
        assert(dep.package.index < c1.graph.packages().len());
        assert(c1.child(parent, n - 1) == c2.child(parent, n - 1));
    }
}

/// Contexts made from the same inputs give the same root units.
pub proof fn lemma_roots_agree(
    c1: &PlanContext,
    c2: &PlanContext,
    proposals: Seq<Proposal>,
    requested: Seq<CompileKind>,
)
    requires
        same_inputs(c1, c2),
        forall|i: int| 0 <= i < proposals.len() ==> c1.graph.has((#[trigger] proposals[i]).package),
    ensures
        c1.all_root_units(proposals, requested) == c2.all_root_units(proposals, requested),
    decreases proposals.len(),
{
    if proposals.len() > 0 {
        let front = proposals.drop_last();
        let last = proposals.last();
        assert forall|i: int| 0 <= i < front.len() implies c1.graph.has(
            (#[trigger] front[i]).package,
        ) by {
            assert(front[i] == proposals[i]);
        }
        lemma_roots_agree(c1, c2, front, requested);
        assert(c1.graph.has(last.package));
        let host_kind = CompileKind::Target(c1.host());
        assert(c1.root_units(last.package, last.target, last.mode, requested, host_kind)
            =~= c2.root_units(last.package, last.target, last.mode, requested, host_kind));
    }
}

/// Determinism of planning: two plans made from the same packages,
/// features, profile, platforms and proposals hold the same units and the
/// same dependencies.
pub proof fn lemma_planning_deterministic(
    c1: &PlanContext,
    c2: &PlanContext,
    proposals: Seq<Proposal>,
    requested: Seq<CompileKind>,
    m1: GraphModel,
    m2: GraphModel,
)
    requires
        same_inputs(c1, c2),
        c1.graph.wf(),
        forall|i: int| 0 <= i < proposals.len() ==> c1.graph.has((#[trigger] proposals[i]).package),
        m1.is_closure(c1, c1.all_root_units(proposals, requested)),
        m2.is_closure(c2, c2.all_root_units(proposals, requested)),
    ensures
        m1.key_set() == m2.key_set(),
        m1.edge_set() == m2.edge_set(),
{
    lemma_roots_agree(c1, c2, proposals, requested);
    let root_keys = c1.all_root_units(proposals, requested);
    assert forall|h: int| 0 <= h < m2.units.len() implies c1.names(
        m2.units,
        #[trigger] m2.edges[h],
        c1.unit_deps(m2.units[h]),
    ) by {
        assert(c2.admits(m2.units[h]));
        assert(c2.names(m2.units, m2.edges[h], c2.unit_deps(m2.units[h])));
        lemma_deps_agree(
            c1,
            c2,
            m2.units[h],
            c1.graph.packages()[m2.units[h].package.index as int].dependencies@.len() as int,
        );
    }
    assert forall|h: int| 0 <= h < m2.units.len() implies c1.admits(#[trigger] m2.units[h]) by {
        assert(c2.admits(m2.units[h]));
    }
    assert(m2.is_closure(c1, root_keys));
    lemma_closure_unique(c1, root_keys, m1, m2);
}

/// Determinism, from the start: planning the same packages, feature
/// request, profile, platforms and proposals twice gives graphs with the
/// same units and the same dependencies, and both can be ordered or
/// neither can.
pub proof fn lemma_plan_unique(
    graph: &PackageGraph,
    profiles: &ProfileTable,
    targets: &TargetData,
    problem: FeatureProblem,
    proposals: Seq<Proposal>,
    requested: Seq<CompileKind>,
    m1: GraphModel,
    ordered1: bool,
    m2: GraphModel,
    ordered2: bool,
)
    requires
        forall|i: int| 0 <= i < proposals.len() ==> graph.has((#[trigger] proposals[i]).package),
        problem.packages == graph.packages(),
        is_plan(graph, profiles, targets, problem, proposals, requested, m1, ordered1),
        is_plan(graph, profiles, targets, problem, proposals, requested, m2, ordered2),
    ensures
        m1.key_set() == m2.key_set(),
        m1.edge_set() == m2.edge_set(),
        ordered1 == ordered2,
{
    let f1 = choose|features: ResolvedFeatures|
        {
            let ctx = context_of(graph, &features, profiles, targets, problem.has_dev_units);
            &&& #[trigger] features.resolves(problem)
            &&& ctx.wf()
            &&& m1.is_closure(&ctx, ctx.all_root_units(proposals, requested))
            &&& acyclic(m1.edges) == ordered1
        };
    let f2 = choose|features: ResolvedFeatures|
        {
            let ctx = context_of(graph, &features, profiles, targets, problem.has_dev_units);
            &&& #[trigger] features.resolves(problem)
            &&& ctx.wf()
            &&& m2.is_closure(&ctx, ctx.all_root_units(proposals, requested))
            &&& acyclic(m2.edges) == ordered2
        };
    let c1 = context_of(graph, &f1, profiles, targets, problem.has_dev_units);
    let c2 = context_of(graph, &f2, profiles, targets, problem.has_dev_units);
    assert forall|node: FeatureNode|
        node.package.index < c1.graph.packages().len() implies #[trigger] c1.features.activated(
        node,
    ) == c2.features.activated(node) by {
        assert(problem.valid(node));
        assert(f1.activated(node) == problem.activated(node));
        assert(f2.activated(node) == problem.activated(node));
    }
    assert(same_inputs(&c1, &c2));
    lemma_planning_deterministic(&c1, &c2, proposals, requested, m1, m2);
    lemma_roots_agree(&c1, &c2, proposals, requested);
    let root_keys = c1.all_root_units(proposals, requested);
    assert forall|h: int| 0 <= h < m2.units.len() implies c1.names(
        m2.units,
        #[trigger] m2.edges[h],
        c1.unit_deps(m2.units[h]),
    ) by {
        assert(c2.admits(m2.units[h]));
        assert(c2.names(m2.units, m2.edges[h], c2.unit_deps(m2.units[h])));
        lemma_deps_agree(
            &c1,
            &c2,
            m2.units[h],
            c1.graph.packages()[m2.units[h].package.index as int].dependencies@.len() as int,
        );
    }
    assert forall|h: int| 0 <= h < m2.units.len() implies c1.admits(#[trigger] m2.units[h]) by {
        assert(c2.admits(m2.units[h]));
    }
    assert(m2.is_closure(&c1, root_keys));
    if acyclic(m1.edges) {
        lemma_order_carries_over(&c1, root_keys, m1, m2);
    }
    if acyclic(m2.edges) {
        lemma_order_carries_over(&c1, root_keys, m2, m1);
    }
}

} // verus!
