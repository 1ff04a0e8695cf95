use unit_graph::error::PlanError;
use unit_graph::feature::{FeatureSet, Symbol};
use unit_graph::package::{Dependency, EdgeKind, Exclusion, PackageGraph, PackageId, PackageInfo};
use unit_graph::resolver::{
    child_feature_role, resolve_features, FeatureNode, FeaturePair, FeatureRequest, FeatureRole,
};
use unit_graph::target::{BuildTarget, TargetKind};

fn sym(id: u64) -> Symbol {
    Symbol { id }
}

fn id(index: usize) -> PackageId {
    PackageId { index }
}

fn set(features: &[u64]) -> FeatureSet {
    let listed: Vec<Symbol> = features.iter().map(|&id| sym(id)).collect();
    FeatureSet::from_vec(&listed)
}

fn lib() -> BuildTarget {
    BuildTarget::new(TargetKind::Lib, sym(1), sym(2))
}

fn dep(package: usize, kind: EdgeKind, features: &[u64]) -> Dependency {
    Dependency { package: id(package), features: set(features), kind }
}

fn package(dependencies: Vec<Dependency>) -> PackageInfo {
    PackageInfo {
        name: sym(0),
        targets: vec![lib()],
        is_member: true,
        forced_kind: None,
        default_kind: None,
        features: set(&[1, 2, 3, 4]),
        default_features: set(&[1]),
        exclusions: Vec::new(),
        dependencies,
    }
}

fn normal(package: usize) -> FeatureNode {
    FeatureNode { package: id(package), role: FeatureRole::Normal }
}

#[test]
fn a_set_keeps_each_member_once_in_increasing_order() {
    let s = set(&[5, 3, 9, 3, 5, 1]);
    assert_eq!(s.to_vec(), vec![sym(1), sym(3), sym(5), sym(9)]);
    assert_eq!(s.len(), 4);
    assert_eq!(s.listing_len(), 4);
    assert_eq!(s.get(2), sym(5));
    assert!(s.contains(sym(9)));
    assert!(!s.contains(sym(4)));
    assert!(s.holds_both(sym(1), sym(9)));
    assert!(!s.holds_both(sym(1), sym(2)));
}

#[test]
fn the_empty_set_has_no_member() {
    let s = FeatureSet::new();
    assert_eq!(s.len(), 0);
    assert_eq!(s.to_vec(), Vec::new());
    assert!(!s.contains(sym(0)));
    assert!(s.same(&set(&[])));
}

#[test]
fn inserting_adds_a_member_and_inserting_again_changes_nothing() {
    let mut s = set(&[4, 8]);
    s.insert(sym(6));
    assert_eq!(s.to_vec(), vec![sym(4), sym(6), sym(8)]);
    s.insert(sym(6));
    assert_eq!(s.to_vec(), vec![sym(4), sym(6), sym(8)]);
    s.insert(sym(0));
    s.insert(sym(u64::MAX));
    assert_eq!(s.to_vec(), vec![sym(0), sym(4), sym(6), sym(8), sym(u64::MAX)]);
}

#[test]
fn extending_gives_the_union() {
    let mut s = set(&[1, 5]);
    s.extend(&set(&[5, 2, 9]));
    assert_eq!(s.to_vec(), vec![sym(1), sym(2), sym(5), sym(9)]);
    s.extend(&FeatureSet::new());
    assert_eq!(s.to_vec(), vec![sym(1), sym(2), sym(5), sym(9)]);
}

#[test]
fn sets_are_the_same_whatever_order_their_members_were_given_in() {
    assert!(set(&[1, 2, 3]).same(&set(&[3, 1, 2, 1])));
    assert!(!set(&[1, 2, 3]).same(&set(&[1, 2])));
    assert!(!set(&[1, 2, 3]).same(&set(&[1, 2, 4])));
    assert!(set(&[7]).same(&set(&[7]).duplicate()));
}

#[test]
fn an_empty_request_leaves_every_package_with_its_defaults() {
    let graph = PackageGraph::new(vec![package(vec![dep(1, EdgeKind::Normal, &[])]), package(Vec::new())])
        .unwrap();
    let features =
        resolve_features(&graph, &FeatureRequest::Explicit(Vec::new()), false, &[normal(0)]).unwrap();
    for p in [0, 1] {
        for role in [FeatureRole::Normal, FeatureRole::BuildHost, FeatureRole::ProcMacroHost] {
            assert_eq!(features.activated_features(id(p), role), set(&[1]));
        }
    }
}

#[test]
fn a_request_for_everything_activates_every_declared_feature() {
    let graph = PackageGraph::new(vec![package(Vec::new())]).unwrap();
    let features = resolve_features(&graph, &FeatureRequest::All, false, &[normal(0)]).unwrap();
    assert_eq!(features.activated_features(id(0), FeatureRole::Normal), set(&[1, 2, 3, 4]));
}

#[test]
fn requested_features_come_on_top_of_the_defaults_of_their_package_only() {
    let graph = PackageGraph::new(vec![package(vec![dep(1, EdgeKind::Normal, &[])]), package(Vec::new())])
        .unwrap();
    let request = FeatureRequest::Explicit(vec![
        FeaturePair { package: id(1), feature: sym(3) },
        FeaturePair { package: id(1), feature: sym(2) },
    ]);
    let features = resolve_features(&graph, &request, false, &[normal(0)]).unwrap();
    assert_eq!(features.activated_features(id(0), FeatureRole::Normal), set(&[1]));
    assert_eq!(features.activated_features(id(1), FeatureRole::Normal), set(&[1, 2, 3]));
}

#[test]
fn what_a_build_tool_activates_stays_out_of_the_normal_role_and_the_other_way_round() {
    let graph = PackageGraph::new(vec![
        package(vec![dep(1, EdgeKind::Normal, &[2]), dep(2, EdgeKind::BuildScript, &[])]),
        package(Vec::new()),
        package(vec![dep(1, EdgeKind::Normal, &[3])]),
    ])
    .unwrap();
    let features =
        resolve_features(&graph, &FeatureRequest::Explicit(Vec::new()), false, &[normal(0)]).unwrap();
    assert_eq!(features.activated_features(id(1), FeatureRole::Normal), set(&[1, 2]));
    assert_eq!(features.activated_features(id(1), FeatureRole::BuildHost), set(&[1, 3]));
    assert_eq!(features.activated_features(id(1), FeatureRole::ProcMacroHost), set(&[1]));
}

#[test]
fn what_no_root_reaches_activates_nothing() {
    let graph = PackageGraph::new(vec![
        package(Vec::new()),
        package(vec![dep(0, EdgeKind::Normal, &[4])]),
    ])
    .unwrap();
    let features =
        resolve_features(&graph, &FeatureRequest::Explicit(Vec::new()), false, &[normal(0)]).unwrap();
    assert_eq!(features.activated_features(id(0), FeatureRole::Normal), set(&[1]));
    let from_both = resolve_features(
        &graph,
        &FeatureRequest::Explicit(Vec::new()),
        false,
        &[normal(0), normal(1)],
    )
    .unwrap();
    assert_eq!(from_both.activated_features(id(0), FeatureRole::Normal), set(&[1, 4]));
}

#[test]
fn test_dependencies_activate_features_only_where_they_count() {
    let packages = || vec![package(vec![dep(1, EdgeKind::Test, &[2])]), package(Vec::new())];
    let request = FeatureRequest::Explicit(Vec::new());
    let graph = PackageGraph::new(packages()).unwrap();
    let without = resolve_features(&graph, &request, false, &[normal(0)]).unwrap();
    assert_eq!(without.activated_features(id(1), FeatureRole::Normal), set(&[1]));
    let with = resolve_features(&graph, &request, true, &[normal(0)]).unwrap();
    assert_eq!(with.activated_features(id(1), FeatureRole::Normal), set(&[1, 2]));
}

#[test]
fn features_are_resolved_in_a_graph_with_a_cycle() {
    let graph = PackageGraph::new(vec![
        package(vec![dep(1, EdgeKind::Normal, &[2])]),
        package(vec![dep(0, EdgeKind::Normal, &[3])]),
    ])
    .unwrap();
    let features =
        resolve_features(&graph, &FeatureRequest::Explicit(Vec::new()), false, &[normal(0)]).unwrap();
    assert_eq!(features.activated_features(id(0), FeatureRole::Normal), set(&[1, 3]));
    assert_eq!(features.activated_features(id(1), FeatureRole::Normal), set(&[1, 2]));
}

#[test]
fn the_first_absent_package_is_reported_and_the_request_comes_before_the_roots() {
    let graph = PackageGraph::new(vec![package(Vec::new())]).unwrap();
    let request = FeatureRequest::Explicit(vec![
        FeaturePair { package: id(0), feature: sym(2) },
        FeaturePair { package: id(4), feature: sym(2) },
        FeaturePair { package: id(3), feature: sym(2) },
    ]);
    let by_request = resolve_features(&graph, &request, false, &[normal(9)]);
    assert_eq!(by_request.unwrap_err(), PlanError::UnknownPackage { package: id(4) });
    let by_root = resolve_features(&graph, &FeatureRequest::All, false, &[normal(0), normal(9), normal(8)]);
    assert_eq!(by_root.unwrap_err(), PlanError::UnknownPackage { package: id(9) });
}

#[test]
fn two_features_that_exclude_each_other_are_a_conflict_where_the_build_reaches_them() {
    let mut exclusive = package(Vec::new());
    exclusive.exclusions = vec![
        Exclusion { first: sym(3), second: sym(4) },
        Exclusion { first: sym(1), second: sym(2) },
    ];
    let packages = |kind: EdgeKind| {
        let mut exclusive = exclusive.clone_for_test();
        exclusive.dependencies = Vec::new();
        vec![package(vec![dep(1, kind, &[2])]), exclusive]
    };
    let request = FeatureRequest::Explicit(Vec::new());
    let graph = PackageGraph::new(packages(EdgeKind::Normal)).unwrap();
    let conflict = resolve_features(&graph, &request, false, &[normal(0)]);
    assert_eq!(
        conflict.unwrap_err(),
        PlanError::FeatureConflict { package: id(1), first: sym(1), second: sym(2) }
    );
    let graph = PackageGraph::new(packages(EdgeKind::Test)).unwrap();
    assert!(resolve_features(&graph, &request, false, &[normal(0)]).is_ok());
}

trait CloneForTest {
    fn clone_for_test(&self) -> PackageInfo;
}

impl CloneForTest for PackageInfo {
    fn clone_for_test(&self) -> PackageInfo {
        PackageInfo {
            name: self.name,
            targets: self.targets.clone(),
            is_member: self.is_member,
            forced_kind: self.forced_kind,
            default_kind: self.default_kind,
            features: self.features.clone(),
            default_features: self.default_features.clone(),
            exclusions: self.exclusions.clone(),
            dependencies: Vec::new(),
        }
    }
}

#[test]
fn a_dependency_that_names_an_absent_package_is_refused() {
    let refused = PackageGraph::new(vec![
        package(vec![dep(1, EdgeKind::Normal, &[])]),
        package(vec![dep(0, EdgeKind::Normal, &[]), dep(6, EdgeKind::Normal, &[]), dep(7, EdgeKind::Normal, &[])]),
    ]);
    assert_eq!(refused.unwrap_err(), PlanError::UnknownPackage { package: id(6) });
}

#[test]
fn the_graph_hands_out_what_it_was_given() {
    let graph = PackageGraph::new(vec![package(vec![dep(1, EdgeKind::Doc, &[2])]), package(Vec::new())])
        .unwrap();
    assert_eq!(graph.len(), 2);
    assert!(graph.get(id(2)).is_none());
    assert_eq!(graph.get(id(1)).unwrap().default_features, set(&[1]));
    assert_eq!(graph.dependencies_of(id(0)).len(), 1);
    assert_eq!(graph.dependencies_of(id(0))[0].package, id(1));
    assert_eq!(graph.dependencies_of(id(0))[0].kind, EdgeKind::Doc);
    assert_eq!(graph.targets_of(id(1)), &vec![lib()]);
    assert!(graph.is_workspace_member(id(0)));
    assert_eq!(graph.forced_kind(id(0)), None);
}

#[test]
fn the_role_of_a_dependency_follows_its_kind_its_library_and_its_dependent() {
    let library = lib();
    let macro_library = BuildTarget::new(TargetKind::ProcMacro, sym(1), sym(2));
    let roles = [FeatureRole::Normal, FeatureRole::BuildHost, FeatureRole::ProcMacroHost];
    for parent in roles {
        assert_eq!(child_feature_role(parent, EdgeKind::BuildScript, &library), FeatureRole::BuildHost);
        assert_eq!(child_feature_role(parent, EdgeKind::BuildScript, &macro_library), FeatureRole::BuildHost);
        assert_eq!(child_feature_role(parent, EdgeKind::ProcMacro, &library), FeatureRole::ProcMacroHost);
        assert_eq!(child_feature_role(parent, EdgeKind::Normal, &macro_library), FeatureRole::ProcMacroHost);
    }
    for kind in [EdgeKind::Normal, EdgeKind::Test, EdgeKind::Doc] {
        assert_eq!(child_feature_role(FeatureRole::Normal, kind, &library), FeatureRole::Normal);
        assert_eq!(child_feature_role(FeatureRole::BuildHost, kind, &library), FeatureRole::BuildHost);
        assert_eq!(child_feature_role(FeatureRole::ProcMacroHost, kind, &library), FeatureRole::BuildHost);
    }
    assert_eq!(FeatureRole::for_target(&library), FeatureRole::Normal);
    assert_eq!(FeatureRole::for_target(&macro_library), FeatureRole::ProcMacroHost);
}

#[test]
fn only_dependencies_of_build_scripts_and_procedural_macros_force_the_host() {
    let kinds =
        [EdgeKind::Normal, EdgeKind::BuildScript, EdgeKind::ProcMacro, EdgeKind::Test, EdgeKind::Doc];
    let forcing: Vec<bool> = kinds.iter().map(|k| k.forces_host()).collect();
    assert_eq!(forcing, vec![false, true, true, false, false]);
}
