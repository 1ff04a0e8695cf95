//! The unit graph: the units of a build and what each depends on.

use vstd::prelude::*;
use crate::context::PlanContext;
use crate::counting::{lemma_digit_range, lemma_digits, lemma_distinct_bounded};
use crate::error::PlanError;
use crate::order::{
    acyclic, first_unplaceable, in_range, is_least_order, is_topological, lists,
    topological_order,
};
use crate::kind::{lemma_find_platform, spec_find_platform, CompileKind};
use crate::package::{EdgeKind, PackageId};
use crate::profile::UnitRole;
use crate::resolver::{FeatureNode, FeatureRole};
use crate::target::spec_library_of;
use crate::unit::{lemma_intern, CompileMode, Unit, UnitHandle, UnitInterner, UnitKey};

verus! {

/// One dependency of a unit: the unit depended on, and what the
/// dependency is for.
#[derive(Clone, Copy, Debug, PartialEq, Eq, Structural)]
pub struct UnitDep {
    pub unit: UnitHandle,
    pub kind: EdgeKind,
}

impl<'a> PlanContext<'a> {
    /// The units that the first `n` dependencies of `parent` lead to, in
    /// order, each with the kind of its dependency.
    pub open spec fn deps_upto(&self, parent: UnitKey, n: int) -> Seq<(UnitKey, EdgeKind)>
        decreases n,
    {
        if n <= 0 {
            Seq::empty()
        } else {
            let before = self.deps_upto(parent, n - 1);
            match self.child(parent, n - 1) {
                Some(c) => before.push(c),
                None => before,
            }
        }
    }

    /// The units that `parent` depends on, in the order of the
    /// dependencies of its package.
    pub open spec fn unit_deps(&self, parent: UnitKey) -> Seq<(UnitKey, EdgeKind)> {
        self.deps_upto(
            parent,
            self.graph.packages()[parent.package.index as int].dependencies@.len() as int,
        )
    }

    /// `out` names, by their handles among `units`, the units of `want`.
    pub open spec fn names(
        &self,
        units: Seq<UnitKey>,
        out: Seq<UnitDep>,
        want: Seq<(UnitKey, EdgeKind)>,
    ) -> bool {
        &&& out.len() == want.len()
        &&& forall|t: int|
            0 <= t < out.len() ==> (#[trigger] out[t]).unit.index < units.len()
                && units[out[t].unit.index as int] == want[t].0 && out[t].kind == want[t].1
    }

    /// The number of units that a dependency can lead to: one for each
    /// package, role, feature role, platform and mode.
    pub open spec fn unit_bound(&self) -> int {
        (self.graph.packages().len() as int) * 4 * 3 * (self.targets.platforms().len() as int) * 5
    }

    /// The unit is one that a dependency can lead to.
    pub open spec fn derived(&self, unit: UnitKey) -> bool {
        exists|c: UnitCoordinates| self.valid_coordinates(c) && #[trigger] self.unit_at(c) == unit
    }

    /// The coordinates name a package and a platform.
    pub open spec fn valid_coordinates(&self, c: UnitCoordinates) -> bool {
        &&& c.package.index < self.graph.packages().len()
        &&& 0 <= c.platform < self.targets.platforms().len()
    }

    /// The dependency unit with the given coordinates.
    pub open spec fn unit_at(&self, c: UnitCoordinates) -> UnitKey {
        let info = self.graph.packages()[c.package.index as int];
        UnitKey {
            package: c.package,
            target: spec_library_of(info.targets@).unwrap(),
            profile: self.profiles.spec_get_profile(c.package, info.is_member, c.role),
            features: self.features.activated(
                FeatureNode { package: c.package, role: c.feature_role },
            ),
            kind: CompileKind::Target(self.targets.platforms()[c.platform].triple),
            mode: c.mode,
        }
    }

    /// What a dependency leads to is a unit that a dependency can lead to.
    pub proof fn lemma_child_derived(&self, parent: UnitKey, j: int)
        requires
            self.wf(),
            self.admits(parent),
            0 <= j < self.graph.packages()[parent.package.index as int].dependencies@.len(),
            self.child(parent, j) is Some,
        ensures
            self.derived(self.child(parent, j).unwrap().0),
            self.admits(self.child(parent, j).unwrap().0),
    {
        let info = self.graph.packages()[parent.package.index as int];
        let dep = info.dependencies@[j];
        assert(dep.package.index < self.graph.packages().len());
        let (unit, _) = self.child(parent, j).unwrap();
        crate::context::lemma_kinds_known(
            self.graph.packages(),
            self.targets,
            0,
            dep.package.index as int,
        );
        let triple = unit.kind->0;
        assert(self.targets.knows(unit.kind));
        lemma_find_platform(self.targets.platforms(), triple);
        let c = UnitCoordinates {
            package: dep.package,
            role: unit.profile.role,
            feature_role: crate::context::spec_child_features_for(
                parent.profile.role,
                dep.kind,
                unit.target,
            ),
            platform: spec_find_platform(self.targets.platforms(), triple).unwrap(),
            mode: unit.mode,
        };
        assert(self.unit_at(c) =~= unit);
    }

    /// No more distinct units can come from dependencies than
    /// [`PlanContext::unit_bound`] says.
    pub proof fn lemma_units_bounded(&self, units: Seq<UnitKey>)
        requires
            units.no_duplicates(),
            forall|h: int| 0 <= h < units.len() ==> self.derived(#[trigger] units[h]),
        ensures
            units.len() <= self.unit_bound(),
            0 <= self.unit_bound(),
    {
        let n = self.graph.packages().len() as int;
        let m = self.targets.platforms().len() as int;
        assert(0 <= n * 4 * 3 * m * 5) by (nonlinear_arith)
            requires
                0 <= n,
                0 <= m,
        ;
        let coords = units.map_values(
            |u: UnitKey|
                choose|c: UnitCoordinates| self.valid_coordinates(c) && #[trigger] self.unit_at(c) == u,
        );
        let idx = coords.map_values(|c: UnitCoordinates| c.index(m));
        assert forall|a: int| 0 <= a < units.len() implies self.valid_coordinates(
            #[trigger] coords[a],
        ) && self.unit_at(coords[a]) == units[a] by {
            assert(self.derived(units[a]));
        }
        assert forall|a: int, b: int|
            0 <= a < idx.len() && 0 <= b < idx.len() && a != b implies idx[a] != idx[b] by {
            if idx[a] == idx[b] {
                assert(self.valid_coordinates(coords[a]));
                assert(self.valid_coordinates(coords[b]));
                coords[a].lemma_index_injective(coords[b], m);
                assert(self.unit_at(coords[a]) == units[a]);
                assert(self.unit_at(coords[b]) == units[b]);
            }
        }
        assert forall|a: int| 0 <= a < idx.len() implies 0 <= #[trigger] idx[a] < self.unit_bound() by {
            assert(self.valid_coordinates(coords[a]));
            coords[a].lemma_index_range(n, m);
        }
        lemma_distinct_bounded(idx, self.unit_bound());
    }
}

/// What tells the units apart that dependencies lead to.
pub ghost struct UnitCoordinates {
    pub package: PackageId,
    pub role: UnitRole,
    pub feature_role: FeatureRole,
    pub platform: int,
    pub mode: CompileMode,
}

/// The number of a role: 0 to 3.
pub open spec fn role_ordinal(role: UnitRole) -> int {
    match role {
        UnitRole::Normal => 0,
        UnitRole::Test => 1,
        UnitRole::CompilerTool => 2,
        UnitRole::Doc => 3,
    }
}

/// The number of a mode: 0 to 4.
pub open spec fn mode_ordinal(mode: CompileMode) -> int {
    match mode {
        CompileMode::Check => 0,
        CompileMode::Build => 1,
        CompileMode::Test => 2,
        CompileMode::Doc => 3,
        CompileMode::RunCustomBuild => 4,
    }
}

impl UnitCoordinates {
    /// The coordinates as one number, where there are `platforms`
    /// platforms.
    pub open spec fn index(self, platforms: int) -> int {
        (((self.package.index * 4 + role_ordinal(self.role)) * 3 + self.feature_role.ordinal())
            * platforms + self.platform) * 5 + mode_ordinal(self.mode)
    }

    /// Different coordinates have different numbers.
    pub proof fn lemma_index_injective(self, other: UnitCoordinates, platforms: int)
        requires
            0 <= self.platform < platforms,
            0 <= other.platform < platforms,
            self.index(platforms) == other.index(platforms),
        ensures
            self == other,
    {
        let a3 = (self.package.index * 4 + role_ordinal(self.role)) * 3
            + self.feature_role.ordinal();
        let b3 = (other.package.index * 4 + role_ordinal(other.role)) * 3
            + other.feature_role.ordinal();
        lemma_digits(
            a3 * platforms + self.platform,
            mode_ordinal(self.mode),
            b3 * platforms + other.platform,
            mode_ordinal(other.mode),
            5,
        );
        lemma_digits(a3, self.platform, b3, other.platform, platforms);
        lemma_digits(
            self.package.index * 4 + role_ordinal(self.role),
            self.feature_role.ordinal(),
            other.package.index * 4 + role_ordinal(other.role),
            other.feature_role.ordinal(),
            3,
        );
        lemma_digits(
            self.package.index as int,
            role_ordinal(self.role),
            other.package.index as int,
            role_ordinal(other.role),
            4,
        );
        assert(self.package == other.package);
        assert(self.role == other.role);
        assert(self.feature_role == other.feature_role);
        assert(self.mode == other.mode);
    }

    /// The number of valid coordinates lies below the number of units that
    /// dependencies can lead to.
    pub proof fn lemma_index_range(self, packages: int, platforms: int)
        requires
            self.package.index < packages,
            0 <= self.platform < platforms,
        ensures
            0 <= self.index(platforms) < packages * 4 * 3 * platforms * 5,
    {
        lemma_digit_range(self.package.index as int, role_ordinal(self.role), packages, 4);
        lemma_digit_range(
            self.package.index * 4 + role_ordinal(self.role),
            self.feature_role.ordinal(),
            packages * 4,
            3,
        );
        lemma_digit_range(
            (self.package.index * 4 + role_ordinal(self.role)) * 3 + self.feature_role.ordinal(),
            self.platform,
            packages * 4 * 3,
            platforms,
        );
        lemma_digit_range(
            ((self.package.index * 4 + role_ordinal(self.role)) * 3 + self.feature_role.ordinal())
                * platforms + self.platform,
            mode_ordinal(self.mode),
            packages * 4 * 3 * platforms,
            5,
        );
    }
}

/// Unit `x` is among what one of the first `limit` units, and one before
/// `x`, depends on.
pub open spec fn found_by(edges: Seq<Vec<UnitDep>>, x: int, limit: int) -> bool {
    exists|p: int, t: int|
        0 <= p < x && p < limit && 0 <= t < edges[p]@.len() && (#[trigger] edges[p]@[t]).unit.index
            == x
}

/// Unit `x` is among the units that `out` names.
pub open spec fn named_in(out: Seq<UnitDep>, x: int) -> bool {
    exists|t: int| 0 <= t < out.len() && (#[trigger] out[t]).unit.index == x
}

/// Works out what unit `h` depends on. Each unit depended on is interned;
/// the result names them in the order of the dependencies.
fn expand(ctx: &PlanContext, interner: &mut UnitInterner, h: usize) -> (out: Vec<UnitDep>)
    requires
        ctx.wf(),
        old(interner).wf(),
        h < old(interner)@.len(),
        forall|x: int| 0 <= x < old(interner)@.len() ==> ctx.admits(#[trigger] old(interner)@[x]),
    ensures
        final(interner).wf(),
        old(interner)@.len() <= final(interner)@.len(),
        forall|x: int|
            0 <= x < old(interner)@.len() ==> #[trigger] final(interner)@[x] == old(interner)@[x],
        forall|x: int| 0 <= x < final(interner)@.len() ==> ctx.admits(#[trigger] final(interner)@[x]),
        ctx.names(final(interner)@, out@, ctx.unit_deps(final(interner)@[h as int])),
        forall|x: int|
            old(interner)@.len() <= x < final(interner)@.len() ==> ctx.derived(
                #[trigger] final(interner)@[x],
            ),
        forall|x: int|
            old(interner)@.len() <= x < final(interner)@.len() ==> #[trigger] named_in(out@, x),
{
    let parent = interner.get(UnitHandle { index: h }).duplicate();
    let m = ctx.graph.dependencies_of(parent.package).len();
    let mut out: Vec<UnitDep> = Vec::new();
    let mut j: usize = 0;
    while j < m
        invariant
            ctx.wf(),
            interner.wf(),
            parent.wf(),
            ctx.admits(parent@),
            h < old(interner)@.len(),
            parent@ == old(interner)@[h as int],
            m == ctx.graph.packages()[parent.package.index as int].dependencies@.len(),
            j <= m,
            old(interner)@.len() <= interner@.len(),
            forall|x: int| 0 <= x < old(interner)@.len() ==> #[trigger] interner@[x] == old(
                interner,
            )@[x],
            forall|x: int| 0 <= x < interner@.len() ==> ctx.admits(#[trigger] interner@[x]),
            ctx.names(interner@, out@, ctx.deps_upto(parent@, j as int)),
            forall|x: int|
                old(interner)@.len() <= x < interner@.len() ==> ctx.derived(#[trigger] interner@[x]),
            forall|x: int|
                old(interner)@.len() <= x < interner@.len() ==> #[trigger] named_in(out@, x),
        decreases m - j,
    {
        let ghost before = interner@;
        let ghost out0 = out@;
        match ctx.child_unit(&parent, j) {
            Some((unit, kind)) => {
                proof {
                    interner.lemma_wf();
                    lemma_intern(before, unit@);
                    ctx.lemma_child_derived(parent@, j as int);
                }
                let handle = interner.intern(unit);
                out.push(UnitDep { unit: handle, kind });
                proof {
                    let want = ctx.deps_upto(parent@, j + 1);
                    assert(want == ctx.deps_upto(parent@, j as int).push((unit@, kind)));
                    assert forall|t: int| 0 <= t < out@.len() implies (#[trigger] out@[t]).unit.index
                        < interner@.len() && interner@[out@[t].unit.index as int] == want[t].0
                        && out@[t].kind == want[t].1 by {
                        if t < out0.len() {
                            assert(out@[t] == out0[t]);
                            assert(interner@[out0[t].unit.index as int]
                                == before[out0[t].unit.index as int]);
                        }
                    }
                    assert forall|x: int| 0 <= x < interner@.len() implies ctx.admits(
                        #[trigger] interner@[x],
                    ) by {
                        if x < before.len() {
                            assert(interner@[x] == before[x]);
                        }
                    }
                    assert forall|x: int|
                        old(interner)@.len() <= x < interner@.len() implies ctx.derived(
                        #[trigger] interner@[x],
                    ) by {
                        if x < before.len() {
                            assert(interner@[x] == before[x]);
                        }
                    }
                    assert forall|x: int|
                        old(interner)@.len() <= x < interner@.len() implies #[trigger] named_in(
                        out@,
                        x,
                    ) by {
                        if x < before.len() {
                            assert(named_in(out0, x));
                            let t = choose|t: int|
                                0 <= t < out0.len() && (#[trigger] out0[t]).unit.index == x;
                            assert(out@[t] == out0[t]);
                        } else {
                            assert(out@[out0.len() as int].unit.index == x);
                        }
                    }
                }
            },
            None => {
                assert(ctx.deps_upto(parent@, j + 1) == ctx.deps_upto(parent@, j as int));
            },
        }
        j = j + 1;
    }
    out
}

/// Walks the units: takes them in the order in which they were interned,
/// works out for each what it depends on, and interns what it has not met
/// before, until none is left.
///
/// The table is the worklist. While the walk stands at unit `i`, the units
/// before it are resolved, unit `i` is being resolved, and the units after
/// it are proposed and wait their turn. A unit that is met again is not
/// walked again; only the dependency on it is recorded.
fn walk(ctx: &PlanContext, interner: UnitInterner) -> (r: (UnitInterner, Vec<Vec<UnitDep>>))
    requires
        ctx.wf(),
        interner.wf(),
        forall|x: int| 0 <= x < interner@.len() ==> ctx.admits(#[trigger] interner@[x]),
    ensures
        r.0.wf(),
        interner@.len() <= r.0@.len(),
        forall|x: int| 0 <= x < interner@.len() ==> #[trigger] r.0@[x] == interner@[x],
        forall|x: int| 0 <= x < r.0@.len() ==> ctx.admits(#[trigger] r.0@[x]),
        r.1@.len() == r.0@.len(),
        forall|h: int|
            0 <= h < r.0@.len() ==> ctx.names(r.0@, (#[trigger] r.1@[h])@, ctx.unit_deps(r.0@[h])),
        forall|x: int| interner@.len() <= x < r.0@.len() ==> #[trigger] found_by(r.1@, x, x),
{
    let ghost first = interner@;
    let mut interner = interner;
    let mut edges: Vec<Vec<UnitDep>> = Vec::new();
    let mut i: usize = 0;
    while i < interner.len()
        invariant
            ctx.wf(),
            interner.wf(),
            i <= interner@.len(),
            edges@.len() == i,
            first.len() <= interner@.len(),
            forall|x: int| 0 <= x < first.len() ==> #[trigger] interner@[x] == first[x],
            forall|x: int| 0 <= x < interner@.len() ==> ctx.admits(#[trigger] interner@[x]),
            forall|h: int|
                0 <= h < i ==> ctx.names(interner@, (#[trigger] edges@[h])@, ctx.unit_deps(interner@[h])),
            forall|x: int| first.len() <= x < interner@.len() ==> ctx.derived(#[trigger] interner@[x]),
            forall|x: int|
                first.len() <= x < interner@.len() ==> #[trigger] found_by(edges@, x, i as int),
        decreases first.len() + ctx.unit_bound() - i,
    {
        proof {
            interner.lemma_wf();
            let tail = interner@.subrange(first.len() as int, interner@.len() as int);
            assert forall|a: int| 0 <= a < tail.len() implies ctx.derived(#[trigger] tail[a]) by {
                assert(tail[a] == interner@[a + first.len()]);
            }
            assert forall|a: int, b: int|
                0 <= a < tail.len() && 0 <= b < tail.len() && a != b implies tail[a] != tail[b] by {
                assert(tail[a] == interner@[a + first.len()]);
                assert(tail[b] == interner@[b + first.len()]);
            }
            ctx.lemma_units_bounded(tail);
        }
        let ghost before = interner@;
        let ghost edges0 = edges@;
        let out = expand(ctx, &mut interner, i);
        edges.push(out);
        proof {
            assert forall|h: int| 0 <= h < i + 1 implies ctx.names(
                interner@,
                (#[trigger] edges@[h])@,
                ctx.unit_deps(interner@[h]),
            ) by {
                if h < i {
                    assert(edges@[h] == edges0[h]);
                    assert(interner@[h] == before[h]);
                    let want = ctx.unit_deps(before[h]);
                    assert(ctx.names(before, edges0[h]@, want));
                    assert forall|t: int| 0 <= t < edges0[h]@.len() implies (
                    #[trigger] edges0[h]@[t]).unit.index < interner@.len()
                        && interner@[edges0[h]@[t].unit.index as int] == want[t].0
                        && edges0[h]@[t].kind == want[t].1 by {
                        assert(interner@[edges0[h]@[t].unit.index as int]
                            == before[edges0[h]@[t].unit.index as int]);
                    }
                }
            }
            assert forall|x: int| first.len() <= x < interner@.len() implies ctx.derived(
                #[trigger] interner@[x],
            ) by {
                if x < before.len() {
                    assert(interner@[x] == before[x]);
                }
            }
            assert forall|x: int| first.len() <= x < interner@.len() implies #[trigger] found_by(
                edges@,
                x,
                i + 1,
            ) by {
                if x < before.len() {
                    assert(found_by(edges0, x, i as int));
                    let (p, t) = choose|p: int, t: int|
                        0 <= p < x && p < i && 0 <= t < edges0[p]@.len() && (
                        #[trigger] edges0[p]@[t]).unit.index == x;
                    assert(edges@[p] == edges0[p]);
                    assert(edges@[p]@[t].unit.index == x);
                } else {
                    assert(named_in(out@, x));
                    let t = choose|t: int| 0 <= t < out@.len() && (#[trigger] out@[t]).unit.index == x;
                    assert(edges@[i as int] == out);
                    assert(edges@[i as int]@[t].unit.index == x);
                }
            }
            assert forall|x: int| 0 <= x < first.len() implies #[trigger] interner@[x]
                == first[x] by {
                assert(interner@[x] == before[x]);
            }
        }
        i = i + 1;
    }
    proof {
        assert forall|x: int| first.len() <= x < interner@.len() implies #[trigger] found_by(
            edges@,
            x,
            x,
        ) by {
            assert(found_by(edges@, x, i as int));
        }
    }
    (interner, edges)
}

/// A unit graph as a value: the units in the order of their handles, what
/// each depends on, and the units that the build starts from.
pub ghost struct GraphModel {
    pub units: Seq<UnitKey>,
    pub edges: Seq<Seq<UnitDep>>,
    pub roots: Seq<UnitHandle>,
}

impl GraphModel {
    /// No unit occurs twice, every unit has its list of dependencies, and
    /// every handle names a unit.
    pub open spec fn wf(self) -> bool {
        &&& self.units.no_duplicates()
        &&& self.edges.len() == self.units.len()
        &&& in_range(self.edges)
        &&& forall|i: int|
            0 <= i < self.roots.len() ==> (#[trigger] self.roots[i]).index < self.units.len()
    }

    /// Unit `h` is a root.
    pub open spec fn is_root(self, h: int) -> bool {
        exists|i: int| 0 <= i < self.roots.len() && (#[trigger] self.roots[i]).index == h
    }

    /// A unit with a lower handle depends on unit `h`.
    pub open spec fn is_found(self, h: int) -> bool {
        exists|p: int, t: int|
            0 <= p < h && 0 <= t < self.edges[p].len() && (#[trigger] self.edges[p][t]).unit.index
                == h
    }

    /// The graph is what a build that starts from `root_keys` needs and no
    /// more: it holds the roots; with every unit it holds it holds what the
    /// unit depends on, listed in the order of the dependencies; and every
    /// unit it holds is a root or is depended on by a unit before it.
    pub open spec fn is_closure(self, ctx: &PlanContext, root_keys: Seq<UnitKey>) -> bool {
        &&& self.wf()
        &&& self.roots.len() == root_keys.len()
        &&& forall|i: int|
            0 <= i < self.roots.len() ==> self.units[(#[trigger] self.roots[i]).index as int]
                == root_keys[i]
        &&& forall|h: int|
            0 <= h < self.units.len() ==> ctx.names(
                self.units,
                #[trigger] self.edges[h],
                ctx.unit_deps(self.units[h]),
            )
        &&& forall|h: int| 0 <= h < self.units.len() ==> ctx.admits(#[trigger] self.units[h])
        &&& forall|h: int|
            0 <= h < self.units.len() ==> #[trigger] self.is_root(h) || self.is_found(h)
    }

    /// The units of the graph, as a set.
    pub open spec fn key_set(self) -> Set<UnitKey> {
        self.units.to_set()
    }

    /// Unit `a` depends on unit `b`, for the reason `kind`.
    pub open spec fn has_edge(self, a: UnitKey, b: UnitKey, kind: EdgeKind) -> bool {
        exists|h: int, t: int|
            0 <= h < self.units.len() && 0 <= t < self.edges[h].len() && self.units[h] == a
                && self.units[(#[trigger] self.edges[h][t]).unit.index as int] == b
                && self.edges[h][t].kind == kind
    }

    /// The dependencies of the graph, as a set.
    pub open spec fn edge_set(self) -> Set<(UnitKey, UnitKey, EdgeKind)> {
        Set::new(|e: (UnitKey, UnitKey, EdgeKind)| self.has_edge(e.0, e.1, e.2))
    }
}

/// The finished plan: the units to build, what each depends on, the units
/// that the build was asked for, and an order in which the units can be
/// built.
#[derive(Debug)]
pub struct UnitGraph {
    units: UnitInterner,
    edges: Vec<Vec<UnitDep>>,
    roots: Vec<UnitHandle>,
    order: Vec<usize>,
}

impl UnitGraph {
    /// The graph as a value.
    pub closed spec fn model(&self) -> GraphModel {
        GraphModel { units: self.units@, edges: lists(self.edges@), roots: self.roots@ }
    }

    /// The order in which the units can be built.
    pub closed spec fn build_order(&self) -> Seq<usize> {
        self.order@
    }

    /// The graph is well formed, and its build order lists every unit once,
    /// after everything it depends on, taking at every place the unit of
    /// least handle that can stand there.
    pub closed spec fn wf(&self) -> bool {
        &&& self.units.wf()
        &&& self.model().wf()
        &&& is_topological(self.model().edges, self.order@)
        &&& is_least_order(self.model().edges, self.order@)
    }

    /// What a well-formed graph is.
    pub proof fn lemma_wf(&self)
        requires
            self.wf(),
        ensures
            self.model().wf(),
            is_topological(self.model().edges, self.build_order()),
            is_least_order(self.model().edges, self.build_order()),
    {
    }

    /// The number of units.
    pub fn len(&self) -> (n: usize)
        ensures
            n == self.model().units.len(),
    {
        self.units.len()
    }

    /// The units that the build was asked for.
    pub fn roots(&self) -> (r: &Vec<UnitHandle>)
        ensures
            r@ == self.model().roots,
    {
        &self.roots
    }

    /// The unit with the given handle.
    pub fn unit(&self, handle: UnitHandle) -> (r: &Unit)
        requires
            self.wf(),
            handle.index < self.model().units.len(),
        ensures
            r@ == self.model().units[handle.index as int],
            r.wf(),
    {
        self.units.get(handle)
    }

    /// What the unit with the given handle depends on, in the order of the
    /// dependencies of its package.
    pub fn dependencies_of(&self, handle: UnitHandle) -> (r: &Vec<UnitDep>)
        requires
            self.wf(),
            handle.index < self.model().units.len(),
        ensures
            r@ == self.model().edges[handle.index as int],
    {
        &self.edges[handle.index]
    }

    /// The handles of all units, each after the handles of the units it
    /// depends on.
    pub fn order(&self) -> (r: &Vec<usize>)
        ensures
            r@ == self.build_order(),
    {
        &self.order
    }
}

/// One of `roots` is the handle `x`.
pub open spec fn named_by(roots: Seq<UnitHandle>, x: int) -> bool {
    exists|i: int| 0 <= i < roots.len() && (#[trigger] roots[i]).index == x
}

/// The keys that `roots` names in `units`.
pub open spec fn keys_of(units: Seq<UnitKey>, roots: Seq<UnitHandle>) -> Seq<UnitKey> {
    Seq::new(roots.len(), |i: int| units[roots[i].index as int])
}

/// Builds the unit graph of a build that starts from the units in
/// `interner`, which `roots` names: resolves unit after unit, in the order
/// of their handles, until every unit that was interned on the way is
/// resolved, and then orders the units.
///
/// Fails where the units cannot be put in an order in which each comes
/// after what it depends on; the error names the package of the first
/// unit that cannot be placed.
pub fn build_unit_graph(ctx: &PlanContext, interner: UnitInterner, roots: Vec<UnitHandle>) -> (r:
    Result<UnitGraph, PlanError>)
    requires
        ctx.wf(),
        interner.wf(),
        forall|x: int| 0 <= x < interner@.len() ==> ctx.admits(#[trigger] interner@[x]),
        forall|i: int| 0 <= i < roots@.len() ==> (#[trigger] roots@[i]).index < interner@.len(),
        forall|x: int| 0 <= x < interner@.len() ==> #[trigger] named_by(roots@, x),
    ensures
        match r {
            Ok(g) => {
                &&& g.wf()
                &&& g.model().is_closure(ctx, keys_of(interner@, roots@))
                &&& g.model().roots == roots@
                &&& acyclic(g.model().edges)
            },
            Err(e) => exists|m: GraphModel, h: int|
                {
                    &&& m.is_closure(ctx, keys_of(interner@, roots@))
                    &&& !acyclic(m.edges)
                    &&& 0 <= h < m.units.len()
                    &&& first_unplaceable(m.edges, h)
                    &&& e == PlanError::CycleDetected { package: (#[trigger] m.units[h]).package }
                },
        },
{
    let ghost first = interner@;
    let (units, edges) = walk(ctx, interner);
    let ghost m = GraphModel { units: units@, edges: lists(edges@), roots: roots@ };
    proof {
        units.lemma_wf();
        assert forall|h: int, t: int|
            0 <= h < m.edges.len() && 0 <= t < m.edges[h].len() implies (
        #[trigger] m.edges[h][t]).unit.index < m.edges.len() by {
            assert(ctx.names(units@, edges@[h]@, ctx.unit_deps(units@[h])));
            assert(m.edges[h][t] == edges@[h]@[t]);
        }
        assert forall|h: int| 0 <= h < m.units.len() implies ctx.names(
            m.units,
            #[trigger] m.edges[h],
            ctx.unit_deps(m.units[h]),
        ) by {
            assert(ctx.names(units@, edges@[h]@, ctx.unit_deps(units@[h])));
        }
        assert forall|h: int| 0 <= h < m.units.len() implies #[trigger] m.is_root(h) || m.is_found(
            h,
        ) by {
            if h < first.len() {
                assert(named_by(roots@, h));
                let i = choose|i: int| 0 <= i < roots@.len() && (#[trigger] roots@[i]).index == h;
                assert(m.roots[i].index == h);
            } else {
                assert(found_by(edges@, h, h));
                let (p, t) = choose|p: int, t: int|
                    0 <= p < h && p < h && 0 <= t < edges@[p]@.len() && (
                    #[trigger] edges@[p]@[t]).unit.index == h;
                assert(m.edges[p][t].unit.index == h);
            }
        }
        assert forall|i: int| 0 <= i < m.roots.len() implies m.units[(
        #[trigger] m.roots[i]).index as int] == keys_of(first, roots@)[i] by {
            assert(units@[roots@[i].index as int] == first[roots@[i].index as int]);
        }
        assert(m.is_closure(ctx, keys_of(first, roots@)));
    }
    match topological_order(&edges) {
        Ok(order) => Ok(UnitGraph { units, edges, roots, order }),
        Err(h) => {
            let package = units.get(UnitHandle { index: h }).package;
            assert(m.units[h as int].package == package);
            Err(PlanError::CycleDetected { package })
        },
    }
}

} // verus!
