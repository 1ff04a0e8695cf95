//! From what the user asked to build to the finished unit graph.

use vstd::prelude::*;
use crate::context::{spec_first_unknown_kind, PlanContext};
use crate::error::{ConfigurationError, PlanError};
use crate::feature::Symbol;
use crate::graph::{build_unit_graph, keys_of, named_by, GraphModel, UnitGraph};
use crate::kind::{
    lemma_all_recognized, spec_find_platform, spec_first_unrecognized, CompileKind, Platform,
    TargetData,
};
use crate::laws::lemma_acyclic_input;
use crate::order::{acyclic, first_unplaceable};
use crate::package::{packages_acyclic, PackageGraph, PackageId, PackageInfo};
use crate::profile::{ProfileTable, UnitRole};
use crate::resolver::{
    lemma_first_absent_concat, node_packages, resolve_features, spec_first_absent, FeatureNode,
    FeatureProblem, FeatureRequest, FeatureRole, ResolvedFeatures,
};
use crate::target::{filter_default_targets, BuildTarget};
use crate::unit::{lemma_intern, spec_intern, CompileMode, Unit, UnitHandle, UnitInterner, UnitKey};

verus! {

/// A target that the user asked to build.
#[derive(Clone, Copy, Debug, PartialEq, Eq, Structural)]
pub struct Proposal {
    pub package: PackageId,
    pub target: BuildTarget,
    pub requires_features: bool,
    pub mode: CompileMode,
}

/// The proposal for building `target` of `package` in `mode`.
pub open spec fn spec_proposal(package: PackageId, target: BuildTarget, mode: CompileMode) -> Proposal {
    Proposal { package, target, requires_features: false, mode }
}

/// The proposals for the default targets of `targets`.
pub open spec fn spec_package_proposals(
    package: PackageId,
    targets: Seq<BuildTarget>,
    mode: CompileMode,
) -> Seq<Proposal> {
    targets.filter(|t: BuildTarget| t.is_default()).map_values(
        |t: BuildTarget| spec_proposal(package, t, mode),
    )
}

/// The proposals for the default targets of the packages `ids`, package
/// after package.
pub open spec fn spec_default_proposals(
    packages: Seq<PackageInfo>,
    ids: Seq<PackageId>,
    mode: CompileMode,
) -> Seq<Proposal>
    decreases ids.len(),
{
    if ids.len() == 0 {
        Seq::empty()
    } else {
        spec_default_proposals(packages, ids.drop_last(), mode) + spec_package_proposals(
            ids.last(),
            packages[ids.last().index as int].targets@,
            mode,
        )
    }
}

/// What is proposed where the user names packages and no targets: the
/// libraries and binaries of each package, in the order of the packages and
/// of their targets, all in the same mode.
///
/// Fails where one of `to_build` is no package of the graph; the error
/// names the first such package.
pub fn default_proposals(graph: &PackageGraph, to_build: &[PackageId], mode: CompileMode) -> (r:
    Result<Vec<Proposal>, PlanError>)
    ensures
        match r {
            Ok(proposals) => spec_first_absent(graph.packages().len(), to_build@) is None
                && proposals@ == spec_default_proposals(graph.packages(), to_build@, mode),
            Err(e) => spec_first_absent(graph.packages().len(), to_build@) matches Some(id) && e
                == (PlanError::UnknownPackage { package: id }),
        },
{
    let n = to_build.len();
    let mut k: usize = 0;
    assert(to_build@.skip(0) =~= to_build@);
    while k < n
        invariant
            n == to_build@.len(),
            k <= n,
            spec_first_absent(graph.packages().len(), to_build@) == spec_first_absent(
                graph.packages().len(),
                to_build@.skip(k as int),
            ),
            forall|a: int| 0 <= a < k ==> (#[trigger] to_build@[a]).index < graph.packages().len(),
        decreases n - k,
    {
        assert(to_build@.skip(k as int)[0] == to_build@[k as int]);
        if to_build[k].index >= graph.len() {
            return Err(PlanError::UnknownPackage { package: to_build[k] });
        }
        assert(to_build@.skip(k as int).skip(1) =~= to_build@.skip(k + 1));
        k = k + 1;
    }
    let mut proposals: Vec<Proposal> = Vec::new();
    let mut i: usize = 0;
    assert(to_build@.take(0) =~= Seq::<PackageId>::empty());
    while i < n
        invariant
            n == to_build@.len(),
            i <= n,
            forall|a: int| 0 <= a < n ==> (#[trigger] to_build@[a]).index < graph.packages().len(),
            proposals@ == spec_default_proposals(graph.packages(), to_build@.take(i as int), mode),
        decreases n - i,
    {
        let package = to_build[i];
        let chosen = filter_default_targets(graph.targets_of(package).as_slice());
        let ghost before = proposals@;
        let m = chosen.len();
        let mut t: usize = 0;
        while t < m
            invariant
                m == chosen@.len(),
                t <= m,
                proposals@ == before + chosen@.take(t as int).map_values(
                    |x: BuildTarget| spec_proposal(package, x, mode),
                ),
            decreases m - t,
        {
            proposals.push(
                Proposal { package, target: chosen[t], requires_features: false, mode },
            );
            assert(chosen@.take(t + 1) =~= chosen@.take(t as int).push(chosen@[t as int]));
            assert(proposals@ =~= before + chosen@.take(t + 1).map_values(
                |x: BuildTarget| spec_proposal(package, x, mode),
            ));
            t = t + 1;
        }
        proof {
            assert(chosen@.take(m as int) =~= chosen@);
            assert(to_build@.take(i + 1).drop_last() =~= to_build@.take(i as int));
            assert(to_build@.take(i + 1).last() == package);
        }
        i = i + 1;
    }
    assert(to_build@.take(n as int) =~= to_build@);
    Ok(proposals)
}

/// The platform that a root unit is proposed for, where `kind` was asked
/// for: the package's default, or else the host by its triple, where the
/// host was asked for; else the platform asked for.
pub open spec fn spec_explicit_kind(
    info: PackageInfo,
    explicit_host_kind: CompileKind,
    kind: CompileKind,
) -> CompileKind {
    match kind {
        CompileKind::Host => match info.default_kind {
            Some(d) => d,
            None => explicit_host_kind,
        },
        CompileKind::Target(t) => CompileKind::Target(t),
    }
}

/// The platforms that the root units of a package are proposed for: the
/// one that the package insists on, or else one for each platform asked
/// for.
pub open spec fn spec_root_kinds(
    info: PackageInfo,
    requested: Seq<CompileKind>,
    explicit_host_kind: CompileKind,
) -> Seq<CompileKind> {
    match info.forced_kind {
        Some(k) => seq![k],
        None => Seq::new(
            requested.len(),
            |i: int| spec_explicit_kind(info, explicit_host_kind, requested[i]),
        ),
    }
}

/// The role of a root unit: a test is a test; else a target that runs on
/// the host is a build tool; else what is documented has the role of that;
/// and anything else is normal.
pub open spec fn spec_root_role(target: BuildTarget, mode: CompileMode) -> UnitRole {
    if mode.spec_is_any_test() {
        UnitRole::Test
    } else if target.for_host {
        UnitRole::CompilerTool
    } else if mode.spec_is_doc() {
        UnitRole::Doc
    } else {
        UnitRole::Normal
    }
}

/// The role of a root unit.
pub fn root_role(target: &BuildTarget, mode: CompileMode) -> (r: UnitRole)
    ensures
        r == spec_root_role(*target, mode),
{
    if mode.is_any_test() {
        UnitRole::Test
    } else if target.for_host {
        UnitRole::CompilerTool
    } else if mode.is_doc() {
        UnitRole::Doc
    } else {
        UnitRole::Normal
    }
}

/// What interning `keys` one after the other does to the units `known`:
/// the units after it, and the handle of each key.
pub open spec fn spec_intern_all(known: Seq<UnitKey>, keys: Seq<UnitKey>) -> (Seq<UnitKey>, Seq<int>)
    decreases keys.len(),
{
    if keys.len() == 0 {
        (known, Seq::empty())
    } else {
        let (before, handles) = spec_intern_all(known, keys.drop_last());
        let (after, h) = spec_intern(before, keys.last());
        (after, handles.push(h))
    }
}

/// Interning a list of keys keeps the table free of repetitions and keeps
/// what was there in place; every key is then found under its handle; and
/// every unit that is new is the unit of one of the handles.
pub proof fn lemma_intern_all(known: Seq<UnitKey>, keys: Seq<UnitKey>)
    requires
        known.no_duplicates(),
    ensures
        ({
            let (after, handles) = spec_intern_all(known, keys);
            &&& after.no_duplicates()
            &&& handles.len() == keys.len()
            &&& known.len() <= after.len()
            &&& forall|x: int| 0 <= x < known.len() ==> #[trigger] after[x] == known[x]
            &&& forall|i: int|
                0 <= i < keys.len() ==> 0 <= #[trigger] handles[i] < after.len()
                    && after[handles[i]] == keys[i]
            &&& forall|x: int| known.len() <= x < after.len() ==> #[trigger] handles.contains(x)
        }),
    decreases keys.len(),
{
    if keys.len() > 0 {
        lemma_intern_all(known, keys.drop_last());
        let (before, hs) = spec_intern_all(known, keys.drop_last());
        lemma_intern(before, keys.last());
        let (after, handles) = spec_intern_all(known, keys);
        assert forall|i: int| 0 <= i < keys.len() implies 0 <= #[trigger] handles[i] < after.len()
            && after[handles[i]] == keys[i] by {
            if i < keys.len() - 1 {
                assert(handles[i] == hs[i]);
                assert(keys.drop_last()[i] == keys[i]);
                assert(after[hs[i]] == before[hs[i]]);
            }
        }
        assert forall|x: int| known.len() <= x < after.len() implies #[trigger] handles.contains(
            x,
        ) by {
            if x < before.len() {
                assert(hs.contains(x));
                let i = choose|i: int| 0 <= i < hs.len() && hs[i] == x;
                assert(handles[i] == x);
            } else {
                assert(handles[keys.len() - 1] == x);
            }
        }
    }
}

/// Interning two lists one after the other is interning them as one.
pub proof fn lemma_intern_all_concat(known: Seq<UnitKey>, a: Seq<UnitKey>, b: Seq<UnitKey>)
    ensures
        ({
            let (mid, first) = spec_intern_all(known, a);
            let (after, second) = spec_intern_all(mid, b);
            spec_intern_all(known, a + b) == (after, first + second)
        }),
    decreases b.len(),
{
    let (mid, first) = spec_intern_all(known, a);
    if b.len() == 0 {
        assert(a + b =~= a);
        assert(first + Seq::<int>::empty() =~= first);
    } else {
        lemma_intern_all_concat(known, a, b.drop_last());
        assert((a + b).drop_last() =~= a + b.drop_last());
        assert((a + b).last() == b.last());
        let (before, second0) = spec_intern_all(mid, b.drop_last());
        let (after, h) = spec_intern(before, b.last());
        assert((first + second0).push(h) =~= first + second0.push(h));
    }
}

impl<'a> PlanContext<'a> {
    /// The root unit for `target` of `package` in `mode`, where the
    /// platform `kind` is proposed: a target that runs on the host is
    /// built for the host whatever is proposed, and the host is named by
    /// its triple.
    pub open spec fn root_unit(
        &self,
        package: PackageId,
        target: BuildTarget,
        mode: CompileMode,
        kind: CompileKind,
    ) -> UnitKey {
        let info = self.graph.packages()[package.index as int];
        UnitKey {
            package,
            target,
            profile: self.profiles.spec_get_profile(
                package,
                info.is_member,
                spec_root_role(target, mode),
            ),
            features: self.features.activated(
                FeatureNode { package, role: FeatureRole::spec_for_target(&target) },
            ),
            kind: self.targets.spec_resolve(kind.spec_for_target(&target)),
            mode,
        }
    }

    /// The root units for `target` of `package` in `mode`: one for each
    /// platform proposed.
    pub open spec fn root_units(
        &self,
        package: PackageId,
        target: BuildTarget,
        mode: CompileMode,
        requested: Seq<CompileKind>,
        explicit_host_kind: CompileKind,
    ) -> Seq<UnitKey> {
        let kinds = spec_root_kinds(
            self.graph.packages()[package.index as int],
            requested,
            explicit_host_kind,
        );
        Seq::new(kinds.len(), |i: int| self.root_unit(package, target, mode, kinds[i]))
    }

    /// The platforms that the root units for `target` of `package` are
    /// built for.
    pub open spec fn root_platforms(
        &self,
        package: PackageId,
        target: BuildTarget,
        requested: Seq<CompileKind>,
        explicit_host_kind: CompileKind,
    ) -> Seq<CompileKind> {
        let kinds = spec_root_kinds(
            self.graph.packages()[package.index as int],
            requested,
            explicit_host_kind,
        );
        Seq::new(kinds.len(), |i: int| kinds[i].spec_for_target(&target))
    }
}

/// The handles as numbers.
pub open spec fn indices(handles: Seq<UnitHandle>) -> Seq<int> {
    handles.map_values(|h: UnitHandle| h.index as int)
}

/// Makes the root units for one target that the user asked to build: one
/// unit for each platform that is proposed for the package, interned in
/// `interner`. The handles come in the order of the platforms; platforms
/// that come to the same unit give the same handle.
///
/// Fails, and leaves `interner` as it was, where `package` is no package
/// of the graph, and else where a platform that a unit would be built for
/// is not known; the error names the package, or the triple of the first
/// such platform.
pub fn new_units(
    ctx: &PlanContext,
    package: PackageId,
    target: &BuildTarget,
    mode: CompileMode,
    requested_kinds: &[CompileKind],
    explicit_host_kind: CompileKind,
    interner: &mut UnitInterner,
) -> (r: Result<Vec<UnitHandle>, PlanError>)
    requires
        ctx.wf(),
        old(interner).wf(),
    ensures
        final(interner).wf(),
        match r {
            Ok(handles) => {
                &&& ctx.graph.has(package)
                &&& spec_first_unrecognized(
                    ctx.targets.platforms(),
                    ctx.host(),
                    ctx.root_platforms(package, *target, requested_kinds@, explicit_host_kind),
                ) is None
                &&& (final(interner)@, indices(handles@)) == spec_intern_all(
                    old(interner)@,
                    ctx.root_units(package, *target, mode, requested_kinds@, explicit_host_kind),
                )
                &&& old(interner)@.len() <= final(interner)@.len()
                &&& forall|x: int|
                    0 <= x < old(interner)@.len() ==> #[trigger] final(interner)@[x]
                        == old(interner)@[x]
                &&& forall|x: int|
                    old(interner)@.len() <= x < final(interner)@.len() ==> #[trigger] named_by(
                        handles@,
                        x,
                    )
                &&& forall|i: int|
                    0 <= i < handles@.len() ==> (#[trigger] handles@[i]).index
                        < final(interner)@.len() && ctx.admits(
                        final(interner)@[handles@[i].index as int],
                    )
            },
            Err(e) => {
                &&& final(interner)@ == old(interner)@
                &&& if !ctx.graph.has(package) {
                    e == (PlanError::UnknownPackage { package })
                } else {
                    spec_first_unrecognized(
                        ctx.targets.platforms(),
                        ctx.host(),
                        ctx.root_platforms(package, *target, requested_kinds@, explicit_host_kind),
                    ) matches Some(t) && e == PlanError::Configuration(
                        ConfigurationError::UnrecognizedTriple { triple: t },
                    )
                }
            },
        },
{
    let info = match ctx.graph.get(package) {
        Some(info) => info,
        None => {
            return Err(PlanError::UnknownPackage { package });
        },
    };
    let ghost kinds = spec_root_kinds(*info, requested_kinds@, explicit_host_kind);
    let ghost platforms = ctx.root_platforms(
        package,
        *target,
        requested_kinds@,
        explicit_host_kind,
    );
    let ghost keys = ctx.root_units(package, *target, mode, requested_kinds@, explicit_host_kind);
    let mut explicit_kinds: Vec<CompileKind> = Vec::new();
    match info.forced_kind {
        Some(k) => {
            explicit_kinds.push(k);
            assert(explicit_kinds@ =~= kinds);
        },
        None => {
            let n = requested_kinds.len();
            let mut i: usize = 0;
            while i < n
                invariant
                    n == requested_kinds@.len(),
                    i <= n,
                    info.forced_kind is None,
                    kinds == spec_root_kinds(*info, requested_kinds@, explicit_host_kind),
                    explicit_kinds@.len() == i,
                    forall|a: int| 0 <= a < i ==> #[trigger] explicit_kinds@[a] == kinds[a],
                decreases n - i,
            {
                let kind = match requested_kinds[i] {
                    CompileKind::Host => match info.default_kind {
                        Some(d) => d,
                        None => explicit_host_kind,
                    },
                    CompileKind::Target(t) => CompileKind::Target(t),
                };
                explicit_kinds.push(kind);
                i = i + 1;
            }
            assert(explicit_kinds@ =~= kinds);
        },
    }
    let n = explicit_kinds.len();
    let mut i: usize = 0;
    assert(platforms.skip(0) =~= platforms);
    while i < n
        invariant
            interner.wf(),
            interner@ == old(interner)@,
            ctx.graph.has(package),
            platforms == ctx.root_platforms(
                package,
                *target,
                requested_kinds@,
                explicit_host_kind,
            ),
            n == explicit_kinds@.len(),
            explicit_kinds@ == kinds,
            platforms.len() == kinds.len(),
            forall|a: int| 0 <= a < n ==> #[trigger] platforms[a] == kinds[a].spec_for_target(target),
            i <= n,
            spec_first_unrecognized(ctx.targets.platforms(), ctx.host(), platforms)
                == spec_first_unrecognized(
                ctx.targets.platforms(),
                ctx.host(),
                platforms.skip(i as int),
            ),
            forall|a: int| 0 <= a < i ==> ctx.targets.knows(#[trigger] platforms[a]),
        decreases n - i,
    {
        let kind = explicit_kinds[i].for_target(target);
        assert(platforms.skip(i as int)[0] == platforms[i as int]);
        if !ctx.targets.is_known(kind) {
            return Err(
                PlanError::Configuration(
                    ConfigurationError::UnrecognizedTriple {
                        triple: ctx.targets.resolve_triple(kind),
                    },
                ),
            );
        }
        assert(platforms.skip(i as int).skip(1) =~= platforms.skip(i + 1));
        i = i + 1;
    }
    let features_for = FeatureRole::for_target(target);
    let role = root_role(target, mode);
    let profile = ctx.profiles.get_profile(package, info.is_member, role);
    let mut units: Vec<UnitHandle> = Vec::new();
    let mut i: usize = 0;
    assert(keys.take(0) =~= Seq::<UnitKey>::empty());
    while i < n
        invariant
            ctx.wf(),
            ctx.graph.has(package),
            *info == ctx.graph.packages()[package.index as int],
            interner.wf(),
            n == explicit_kinds@.len(),
            explicit_kinds@ == kinds,
            keys.len() == kinds.len(),
            forall|a: int|
                0 <= a < n ==> #[trigger] keys[a] == ctx.root_unit(package, *target, mode, kinds[a]),
            platforms == ctx.root_platforms(
                package,
                *target,
                requested_kinds@,
                explicit_host_kind,
            ),
            spec_first_unrecognized(ctx.targets.platforms(), ctx.host(), platforms) is None,
            features_for == FeatureRole::spec_for_target(target),
            profile == ctx.profiles.spec_get_profile(
                package,
                info.is_member,
                spec_root_role(*target, mode),
            ),
            i <= n,
            (interner@, indices(units@)) == spec_intern_all(old(interner)@, keys.take(i as int)),
        decreases n - i,
    {
        let kind = ctx.targets.resolve(explicit_kinds[i].for_target(target));
        let unit = Unit {
            package,
            target: *target,
            profile,
            features: ctx.features.activated_features(package, features_for),
            kind,
            mode,
        };
        assert(unit@ =~= keys[i as int]);
        let ghost units0 = units@;
        let handle = interner.intern(unit);
        units.push(handle);
        proof {
            assert(keys.take(i + 1).drop_last() =~= keys.take(i as int));
            assert(keys.take(i + 1).last() == keys[i as int]);
            assert(indices(units@) =~= indices(units0).push(handle.index as int));
        }
        i = i + 1;
    }
    proof {
        assert(keys.take(n as int) =~= keys);
        old(interner).lemma_wf();
        lemma_intern_all(old(interner)@, keys);
        lemma_all_recognized(ctx.targets.platforms(), ctx.host(), platforms);
        let hs = indices(units@);
        assert forall|x: int| old(interner)@.len() <= x < interner@.len() implies #[trigger] named_by(
            units@,
            x,
        ) by {
            assert(hs.contains(x));
            let a = choose|a: int| 0 <= a < hs.len() && hs[a] == x;
            assert(units@[a].index == x);
        }
        assert forall|i: int| 0 <= i < units@.len() implies (#[trigger] units@[i]).index
            < interner@.len() && ctx.admits(interner@[units@[i].index as int]) by {
            assert(hs[i] == units@[i].index);
            assert(interner@[hs[i]] == keys[i]);
            assert(keys[i] == ctx.root_unit(package, *target, mode, kinds[i]));
            assert(ctx.targets.knows(platforms[i]));
        }
    }
    Ok(units)
}

/// The packages that `proposals` names, in order.
pub open spec fn proposal_packages(proposals: Seq<Proposal>) -> Seq<PackageId> {
    proposals.map_values(|p: Proposal| p.package)
}

/// Where every one of `kinds` is known, [`spec_first_unrecognized`] finds
/// nothing.
pub proof fn lemma_none_unrecognized(
    platforms: Seq<Platform>,
    host: Symbol,
    kinds: Seq<CompileKind>,
)
    requires
        forall|i: int|
            0 <= i < kinds.len() ==> spec_find_platform(
                platforms,
                (#[trigger] kinds[i]).triple(host),
            ) is Some,
    ensures
        spec_first_unrecognized(platforms, host, kinds) is None,
    decreases kinds.len(),
{
    if kinds.len() > 0 {
        let rest = kinds.skip(1);
        assert forall|i: int| 0 <= i < rest.len() implies spec_find_platform(
            platforms,
            (#[trigger] rest[i]).triple(host),
        ) is Some by {
            assert(rest[i] == kinds[i + 1]);
        }
        lemma_none_unrecognized(platforms, host, rest);
        assert(spec_find_platform(platforms, kinds[0].triple(host)) is Some);
    }
}

impl<'a> PlanContext<'a> {
    /// The root units of `proposals`, proposal after proposal, where the
    /// platforms `requested` were asked for.
    pub open spec fn all_root_units(
        &self,
        proposals: Seq<Proposal>,
        requested: Seq<CompileKind>,
    ) -> Seq<UnitKey>
        decreases proposals.len(),
    {
        if proposals.len() == 0 {
            Seq::empty()
        } else {
            self.all_root_units(proposals.drop_last(), requested) + self.root_units(
                proposals.last().package,
                proposals.last().target,
                proposals.last().mode,
                requested,
                CompileKind::Target(self.host()),
            )
        }
    }

    /// Every platform proposed for a root unit of a package of the graph
    /// is known, where those asked for are.
    pub proof fn lemma_root_platforms_known(
        &self,
        package: PackageId,
        target: BuildTarget,
        requested: Seq<CompileKind>,
    )
        requires
            self.wf(),
            self.graph.has(package),
            forall|i: int| 0 <= i < requested.len() ==> self.targets.knows(#[trigger] requested[i]),
        ensures
            forall|i: int|
                0 <= i < self.root_platforms(
                    package,
                    target,
                    requested,
                    CompileKind::Target(self.host()),
                ).len() ==> self.targets.knows(
                    #[trigger] self.root_platforms(
                        package,
                        target,
                        requested,
                        CompileKind::Target(self.host()),
                    )[i],
                ),
            spec_first_unrecognized(
                self.targets.platforms(),
                self.host(),
                self.root_platforms(package, target, requested, CompileKind::Target(self.host())),
            ) is None,
    {
        let host_kind = CompileKind::Target(self.host());
        let info = self.graph.packages()[package.index as int];
        let kinds = spec_root_kinds(info, requested, host_kind);
        let platforms = self.root_platforms(package, target, requested, host_kind);
        crate::context::lemma_kinds_known(
            self.graph.packages(),
            self.targets,
            0,
            package.index as int,
        );
        assert forall|i: int| 0 <= i < platforms.len() implies self.targets.knows(
            #[trigger] platforms[i],
        ) by {
            assert(platforms[i] == kinds[i].spec_for_target(&target));
            if info.forced_kind is None {
                assert(kinds[i] == spec_explicit_kind(info, host_kind, requested[i]));
                assert(self.targets.knows(requested[i]));
            }
        }
        lemma_none_unrecognized(self.targets.platforms(), self.host(), platforms);
    }

    /// Every root unit of proposals that name packages of the graph is
    /// admitted, where the platforms asked for are known.
    pub proof fn lemma_roots_admitted(&self, proposals: Seq<Proposal>, requested: Seq<CompileKind>)
        requires
            self.wf(),
            forall|i: int| 0 <= i < proposals.len() ==> self.graph.has((#[trigger] proposals[i]).package),
            forall|i: int| 0 <= i < requested.len() ==> self.targets.knows(#[trigger] requested[i]),
        ensures
            forall|i: int|
                0 <= i < self.all_root_units(proposals, requested).len() ==> self.admits(
                    #[trigger] self.all_root_units(proposals, requested)[i],
                ),
        decreases proposals.len(),
    {
        if proposals.len() > 0 {
            let front = proposals.drop_last();
            let last = proposals.last();
            assert forall|i: int| 0 <= i < front.len() implies self.graph.has(
                (#[trigger] front[i]).package,
            ) by {
                assert(front[i] == proposals[i]);
            }
            self.lemma_roots_admitted(front, requested);
            let host_kind = CompileKind::Target(self.host());
            self.lemma_root_platforms_known(last.package, last.target, requested);
            let a = self.all_root_units(front, requested);
            let b = self.root_units(last.package, last.target, last.mode, requested, host_kind);
            let platforms = self.root_platforms(last.package, last.target, requested, host_kind);
            assert forall|i: int| 0 <= i < (a + b).len() implies self.admits(#[trigger] (a + b)[i]) by {
                if i < a.len() {
                    assert((a + b)[i] == a[i]);
                } else {
                    let k = i - a.len();
                    assert((a + b)[i] == b[k]);
                    assert(self.targets.knows(platforms[k]));
                }
            }
        }
    }
}

/// Plans the build: makes the root units of `proposals`, one for each
/// platform proposed, and from them the unit graph.
///
/// Fails where a proposal names a package that the graph does not hold
/// (the error names the first such package); else where a platform asked
/// for is not known (the error names the first such triple); else where
/// the units cannot be put in an order in which each comes after what it
/// depends on (the error names the package of the first unit that cannot
/// be placed). That last failure does not come where no package depends
/// on itself, by however many steps. No part of a plan is handed out where
/// planning fails.
pub fn plan(ctx: &PlanContext, proposals: &[Proposal], requested_kinds: &[CompileKind]) -> (r:
    Result<UnitGraph, PlanError>)
    requires
        ctx.wf(),
    ensures
        packages_acyclic(ctx.graph.packages()) ==> !(r matches Err(e) && e is CycleDetected),
        match r {
            Ok(g) => {
                &&& spec_first_absent(
                    ctx.graph.packages().len(),
                    proposal_packages(proposals@),
                ) is None
                &&& spec_first_unrecognized(
                    ctx.targets.platforms(),
                    ctx.host(),
                    requested_kinds@,
                ) is None
                &&& g.wf()
                &&& g.model().is_closure(ctx, ctx.all_root_units(proposals@, requested_kinds@))
                &&& acyclic(g.model().edges)
            },
            Err(e) => match spec_first_absent(
                ctx.graph.packages().len(),
                proposal_packages(proposals@),
            ) {
                Some(id) => e == (PlanError::UnknownPackage { package: id }),
                None => match spec_first_unrecognized(
                    ctx.targets.platforms(),
                    ctx.host(),
                    requested_kinds@,
                ) {
                    Some(t) => e == PlanError::Configuration(
                        ConfigurationError::UnrecognizedTriple { triple: t },
                    ),
                    None => exists|m: GraphModel, h: int|
                        {
                            &&& m.is_closure(ctx, ctx.all_root_units(proposals@, requested_kinds@))
                            &&& !acyclic(m.edges)
                            &&& 0 <= h < m.units.len()
                            &&& first_unplaceable(m.edges, h)
                            &&& e == PlanError::CycleDetected {
                                package: (#[trigger] m.units[h]).package,
                            }
                        },
                },
            },
        },
{
    let ghost ids = proposal_packages(proposals@);
    let count = ctx.graph.len();
    let n = proposals.len();
    let mut k: usize = 0;
    assert(ids.skip(0) =~= ids);
    while k < n
        invariant
            n == proposals@.len(),
            ids == proposal_packages(proposals@),
            count == ctx.graph.packages().len(),
            k <= n,
            spec_first_absent(count as nat, ids) == spec_first_absent(
                count as nat,
                ids.skip(k as int),
            ),
            forall|a: int| 0 <= a < k ==> ctx.graph.has((#[trigger] proposals@[a]).package),
        decreases n - k,
    {
        assert(ids.skip(k as int)[0] == proposals@[k as int].package);
        if proposals[k].package.index >= count {
            return Err(PlanError::UnknownPackage { package: proposals[k].package });
        }
        assert(ids.skip(k as int).skip(1) =~= ids.skip(k + 1));
        k = k + 1;
    }
    let m = requested_kinds.len();
    let mut j: usize = 0;
    assert(requested_kinds@.skip(0) =~= requested_kinds@);
    while j < m
        invariant
            m == requested_kinds@.len(),
            j <= m,
            ids == proposal_packages(proposals@),
            count == ctx.graph.packages().len(),
            spec_first_absent(count as nat, ids) is None,
            spec_first_unrecognized(ctx.targets.platforms(), ctx.host(), requested_kinds@)
                == spec_first_unrecognized(
                ctx.targets.platforms(),
                ctx.host(),
                requested_kinds@.skip(j as int),
            ),
            forall|a: int| 0 <= a < j ==> ctx.targets.knows(#[trigger] requested_kinds@[a]),
        decreases m - j,
    {
        assert(requested_kinds@.skip(j as int)[0] == requested_kinds@[j as int]);
        if !ctx.targets.is_known(requested_kinds[j]) {
            return Err(
                PlanError::Configuration(
                    ConfigurationError::UnrecognizedTriple {
                        triple: ctx.targets.resolve_triple(requested_kinds[j]),
                    },
                ),
            );
        }
        assert(requested_kinds@.skip(j as int).skip(1) =~= requested_kinds@.skip(j + 1));
        j = j + 1;
    }
    let host_kind = ctx.targets.explicit_host_kind();
    let mut interner = UnitInterner::new();
    let mut roots: Vec<UnitHandle> = Vec::new();
    let mut i: usize = 0;
    proof {
        assert(proposals@.take(0) =~= Seq::<Proposal>::empty());
        assert(indices(roots@) =~= Seq::<int>::empty());
    }
    while i < n
        invariant
            ctx.wf(),
            n == proposals@.len(),
            i <= n,
            host_kind == CompileKind::Target(ctx.host()),
            interner.wf(),
            ids == proposal_packages(proposals@),
            count == ctx.graph.packages().len(),
            spec_first_absent(count as nat, ids) is None,
            spec_first_unrecognized(ctx.targets.platforms(), ctx.host(), requested_kinds@) is None,
            forall|a: int| 0 <= a < n ==> ctx.graph.has((#[trigger] proposals@[a]).package),
            forall|a: int|
                0 <= a < requested_kinds@.len() ==> ctx.targets.knows(#[trigger] requested_kinds@[a]),
            (interner@, indices(roots@)) == spec_intern_all(
                Seq::<UnitKey>::empty(),
                ctx.all_root_units(proposals@.take(i as int), requested_kinds@),
            ),
        decreases n - i,
    {
        let proposal = proposals[i];
        let ghost before = interner@;
        let ghost roots0 = roots@;
        proof {
            ctx.lemma_root_platforms_known(proposal.package, proposal.target, requested_kinds@);
        }
        match new_units(
            ctx,
            proposal.package,
            &proposal.target,
            proposal.mode,
            requested_kinds,
            host_kind,
            &mut interner,
        ) {
            Ok(mut handles) => {
                let ghost handles0 = handles@;
                roots.append(&mut handles);
                proof {
                    let done = proposals@.take(i as int);
                    let next = proposals@.take(i + 1);
                    assert(next.drop_last() =~= done);
                    assert(next.last() == proposal);
                    let a = ctx.all_root_units(done, requested_kinds@);
                    let b = ctx.root_units(
                        proposal.package,
                        proposal.target,
                        proposal.mode,
                        requested_kinds@,
                        host_kind,
                    );
                    lemma_intern_all_concat(Seq::<UnitKey>::empty(), a, b);
                    assert(indices(roots@) =~= indices(roots0) + indices(handles0));
                }
            },
            Err(e) => {
                assert(false);
                return Err(e);
            },
        }
        i = i + 1;
    }
    proof {
        assert(proposals@.take(n as int) =~= proposals@);
        let keys = ctx.all_root_units(proposals@, requested_kinds@);
        lemma_intern_all(Seq::<UnitKey>::empty(), keys);
        ctx.lemma_roots_admitted(proposals@, requested_kinds@);
        let hs = indices(roots@);
        assert forall|x: int| 0 <= x < interner@.len() implies #[trigger] named_by(roots@, x) by {
            assert(hs.contains(x));
            let a = choose|a: int| 0 <= a < hs.len() && hs[a] == x;
            assert(roots@[a].index == x);
        }
        assert forall|x: int| 0 <= x < interner@.len() implies ctx.admits(
            #[trigger] interner@[x],
        ) by {
            assert(hs.contains(x));
            let a = choose|a: int| 0 <= a < hs.len() && hs[a] == x;
            assert(interner@[hs[a]] == keys[a]);
        }
        assert forall|a: int| 0 <= a < roots@.len() implies (#[trigger] roots@[a]).index
            < interner@.len() by {
            assert(hs[a] == roots@[a].index);
        }
        assert(keys_of(interner@, roots@) =~= keys) by {
            assert forall|a: int| 0 <= a < roots@.len() implies interner@[roots@[a].index as int]
                == keys[a] by {
                assert(hs[a] == roots@[a].index);
            }
        }
    }
    let ghost root_keys = keys_of(interner@, roots@);
    let r = build_unit_graph(ctx, interner, roots);
    proof {
        if packages_acyclic(ctx.graph.packages()) && r is Err {
            let (m, h) = choose|m: GraphModel, h: int|
                {
                    &&& m.is_closure(ctx, root_keys)
                    &&& !acyclic(m.edges)
                    &&& 0 <= h < m.units.len()
                    &&& first_unplaceable(m.edges, h)
                    &&& r->Err_0 == PlanError::CycleDetected {
                        package: (#[trigger] m.units[h]).package,
                    }
                };
            lemma_acyclic_input(ctx, root_keys, m);
        }
    }
    r
}

/// The packages and roles that feature resolution starts from: for each
/// proposal its package, in the role of its target.
pub open spec fn feature_roots(proposals: Seq<Proposal>) -> Seq<FeatureNode> {
    proposals.map_values(
        |p: Proposal|
            FeatureNode { package: p.package, role: FeatureRole::spec_for_target(&p.target) },
    )
}

/// The context that planning works in, from its parts.
pub open spec fn context_of<'a>(
    graph: &'a PackageGraph,
    features: &'a ResolvedFeatures,
    profiles: &'a ProfileTable,
    targets: &'a TargetData,
    has_dev_units: bool,
) -> PlanContext<'a> {
    PlanContext { graph, features, profiles, targets, has_dev_units }
}

/// `m` is the unit graph of the build that was asked for, made with
/// features that answer `problem`; and whether it can be ordered is as
/// `ordered` says.
pub open spec fn is_plan(
    graph: &PackageGraph,
    profiles: &ProfileTable,
    targets: &TargetData,
    problem: FeatureProblem,
    proposals: Seq<Proposal>,
    requested: Seq<CompileKind>,
    m: GraphModel,
    ordered: bool,
) -> bool {
    exists|features: ResolvedFeatures|
        {
            let ctx = context_of(graph, &features, profiles, targets, problem.has_dev_units);
            &&& #[trigger] features.resolves(problem)
            &&& ctx.wf()
            &&& m.is_closure(&ctx, ctx.all_root_units(proposals, requested))
            &&& acyclic(m.edges) == ordered
        }
}

/// Some exclusion of some package is broken.
pub open spec fn has_conflict(problem: FeatureProblem) -> bool {
    exists|node: FeatureNode, k: int| problem.conflict(node, k)
}

/// Plans a build from the start: resolves the features, then makes the
/// root units of `proposals` and from them the unit graph.
///
/// Fails, before any unit is made, where the feature request or a
/// proposal names a package that the graph does not hold (the error names
/// the first such package, those of the request first), and else where the
/// build reaches a package with two features active that exclude each
/// other (the error names the first such pair).
/// Fails after that where a package insists on, or names as its default, a
/// platform that is not known, and else where a platform asked for is not
/// known (the error names the first such triple); and at last where the
/// units cannot be put in an order in which each comes after what it
/// depends on.
pub fn plan_workspace(
    graph: &PackageGraph,
    request: &FeatureRequest,
    has_dev_units: bool,
    profiles: &ProfileTable,
    targets: &TargetData,
    proposals: &[Proposal],
    requested_kinds: &[CompileKind],
) -> (r: Result<UnitGraph, PlanError>)
    requires
        graph.wf(),
        targets.wf(),
    ensures
        packages_acyclic(graph.packages()) ==> !(r matches Err(e) && e is CycleDetected),
        ({
            let problem = FeatureProblem {
                packages: graph.packages(),
                request: *request,
                has_dev_units,
                roots: feature_roots(proposals@),
            };
            let named = problem.requested_packages() + node_packages(problem.roots);
            match r {
                Ok(g) => {
                    &&& spec_first_absent(graph.packages().len(), named) is None
                    &&& !has_conflict(problem)
                    &&& spec_first_unknown_kind(graph.packages(), targets, 0) is None
                    &&& spec_first_unrecognized(
                        targets.platforms(),
                        targets.host_triple(),
                        requested_kinds@,
                    ) is None
                    &&& g.wf()
                    &&& is_plan(
                        graph,
                        profiles,
                        targets,
                        problem,
                        proposals@,
                        requested_kinds@,
                        g.model(),
                        true,
                    )
                },
                Err(e) => match spec_first_absent(graph.packages().len(), named) {
                    Some(id) => e == (PlanError::UnknownPackage { package: id }),
                    None => if has_conflict(problem) {
                        exists|node: FeatureNode, k: int|
                            #[trigger] problem.first_conflict(node, k) && e
                                == problem.conflict_error(node, k)
                    } else {
                        match spec_first_unknown_kind(graph.packages(), targets, 0) {
                            Some(t) => e == PlanError::Configuration(
                                ConfigurationError::UnrecognizedTriple { triple: t },
                            ),
                            None => match spec_first_unrecognized(
                                targets.platforms(),
                                targets.host_triple(),
                                requested_kinds@,
                            ) {
                                Some(t) => e == PlanError::Configuration(
                                    ConfigurationError::UnrecognizedTriple { triple: t },
                                ),
                                None => exists|m: GraphModel, h: int|
                                    {
                                        &&& is_plan(
                                            graph,
                                            profiles,
                                            targets,
                                            problem,
                                            proposals@,
                                            requested_kinds@,
                                            m,
                                            false,
                                        )
                                        &&& 0 <= h < m.units.len()
                                        &&& first_unplaceable(m.edges, h)
                                        &&& e == PlanError::CycleDetected {
                                            package: (#[trigger] m.units[h]).package,
                                        }
                                    },
                            },
                        }
                    },
                },
            }
        }),
{
    let ghost problem = FeatureProblem {
        packages: graph.packages(),
        request: *request,
        has_dev_units,
        roots: feature_roots(proposals@),
    };
    let mut roots: Vec<FeatureNode> = Vec::new();
    let n = proposals.len();
    let mut i: usize = 0;
    while i < n
        invariant
            n == proposals@.len(),
            i <= n,
            roots@.len() == i,
            forall|a: int| 0 <= a < i ==> #[trigger] roots@[a] == feature_roots(proposals@)[a],
        decreases n - i,
    {
        roots.push(
            FeatureNode {
                package: proposals[i].package,
                role: FeatureRole::for_target(&proposals[i].target),
            },
        );
        i = i + 1;
    }
    assert(roots@ =~= feature_roots(proposals@));
    let features = match resolve_features(graph, request, has_dev_units, roots.as_slice()) {
        Ok(features) => features,
        Err(e) => {
            return Err(e);
        },
    };
    let ctx = match PlanContext::new(graph, &features, profiles, targets, has_dev_units) {
        Ok(ctx) => ctx,
        Err(e) => {
            return Err(e);
        },
    };
    proof {
        lemma_first_absent_concat(
            graph.packages().len(),
            problem.requested_packages(),
            node_packages(problem.roots),
        );
        assert(node_packages(feature_roots(proposals@)) =~= proposal_packages(proposals@));
        assert(ctx == context_of(graph, &features, profiles, targets, has_dev_units));
    }
    match plan(&ctx, proposals, requested_kinds) {
        Ok(g) => {
            assert(is_plan(
                graph,
                profiles,
                targets,
                problem,
                proposals@,
                requested_kinds@,
                g.model(),
                true,
            ));
            Ok(g)
        },
        Err(e) => {
            proof {
                if spec_first_unrecognized(
                    targets.platforms(),
                    targets.host_triple(),
                    requested_kinds@,
                ) is None {
                    let (m, h) = choose|m: GraphModel, h: int|
                        {
                            &&& m.is_closure(
                                &ctx,
                                ctx.all_root_units(proposals@, requested_kinds@),
                            )
                            &&& !acyclic(m.edges)
                            &&& 0 <= h < m.units.len()
                            &&& first_unplaceable(m.edges, h)
                            &&& e == PlanError::CycleDetected {
                                package: (#[trigger] m.units[h]).package,
                            }
                        };
                    assert(is_plan(
                        graph,
                        profiles,
                        targets,
                        problem,
                        proposals@,
                        requested_kinds@,
                        m,
                        false,
                    ));
                }
            }
            Err(e)
        },
    }
}

} // verus!
