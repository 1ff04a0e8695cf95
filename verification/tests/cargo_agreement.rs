use std::path::PathBuf;

use unit_graph::feature::Symbol;
use unit_graph::kind::CompileKind;
use unit_graph::resolver::FeatureRole;
use unit_graph::target::{filter_default_targets, BuildTarget, TargetKind};
use unit_graph::unit::CompileMode;

type CargoKind = cargo::core::compiler::CompileKind;
type CargoMode = cargo::core::compiler::CompileMode;
type CompileTarget = cargo::core::compiler::CompileTarget;
type CrateType = cargo::core::compiler::CrateType;
type FeaturesFor = cargo::core::resolver::features::FeaturesFor;
type Edition = cargo::core::Edition;
type Target = cargo::core::Target;

const TRIPLE: &str = "aarch64-unknown-linux-gnu";
const TRIPLE_SYMBOL: Symbol = Symbol { id: 7 };

fn kinds() -> Vec<TargetKind> {
    vec![
        TargetKind::Lib,
        TargetKind::Bin,
        TargetKind::BuildScript,
        TargetKind::ProcMacro,
        TargetKind::Test,
        TargetKind::Example,
    ]
}

fn ours(kind: TargetKind) -> BuildTarget {
    BuildTarget::new(kind, Symbol { id: 1 }, Symbol { id: 2 })
}

fn theirs(kind: TargetKind) -> Target {
    let path = PathBuf::from("/workspace/src/entry.rs");
    let edition = Edition::Edition2021;
    match kind {
        TargetKind::Lib => Target::lib_target("t", vec![CrateType::Lib], path, edition),
        TargetKind::Bin => Target::bin_target("t", None, path, None, edition),
        TargetKind::BuildScript => Target::custom_build_target("t", path, edition),
        TargetKind::ProcMacro => {
            let mut target = Target::lib_target("t", vec![CrateType::ProcMacro], path, edition);
            target.set_proc_macro(true).set_for_host(true);
            target
        }
        TargetKind::Test => Target::test_target("t", path, None, edition),
        TargetKind::Example => Target::example_target("t", Vec::new(), path, None, edition),
    }
}

#[test]
fn targets_are_classified_as_cargo_classifies_them() {
    for kind in kinds() {
        let mine = ours(kind);
        let cargos = theirs(kind);
        assert_eq!(mine.is_lib(), cargos.is_lib());
        assert_eq!(mine.is_bin(), cargos.is_bin());
        assert_eq!(mine.proc_macro(), cargos.proc_macro());
        assert_eq!(mine.is_custom_build(), cargos.is_custom_build());
        assert_eq!(mine.for_host, cargos.for_host());
    }
}

#[test]
fn the_default_targets_are_those_that_cargo_takes() {
    let mut order = kinds();
    order.extend(kinds().into_iter().rev());
    let mine: Vec<BuildTarget> = order.iter().map(|&k| ours(k)).collect();
    let cargos: Vec<Target> = order.iter().map(|&k| theirs(k)).collect();
    let expected: Vec<BuildTarget> = cargos
        .iter()
        .zip(mine.iter())
        .filter(|(t, _)| t.is_bin() || t.is_lib())
        .map(|(_, m)| *m)
        .collect();
    assert_eq!(filter_default_targets(&mine), expected);
    assert_eq!(expected.len(), 6);
}

fn to_ours(kind: CargoKind) -> CompileKind {
    match kind {
        CargoKind::Host => CompileKind::Host,
        CargoKind::Target(_) => CompileKind::Target(TRIPLE_SYMBOL),
    }
}

#[test]
fn a_kind_is_lifted_to_the_host_as_cargo_lifts_it() {
    let triple = CompileTarget::new(TRIPLE).unwrap();
    for asked in [CargoKind::Host, CargoKind::Target(triple)] {
        for kind in kinds() {
            let expected = to_ours(asked.for_target(&theirs(kind)));
            assert_eq!(to_ours(asked).for_target(&ours(kind)), expected);
        }
    }
    assert!(CompileKind::Host.is_host());
    assert!(!CompileKind::Target(TRIPLE_SYMBOL).is_host());
    assert_eq!(CargoKind::Host.is_host(), CompileKind::Host.is_host());
    assert_eq!(
        CargoKind::Target(triple).is_host(),
        CompileKind::Target(TRIPLE_SYMBOL).is_host()
    );
}

#[test]
fn a_mode_is_a_test_where_cargo_says_so() {
    let pairs = [
        (CompileMode::Check, CargoMode::Check { test: false }),
        (CompileMode::Build, CargoMode::Build),
        (CompileMode::Test, CargoMode::Test),
        (CompileMode::Doc, CargoMode::Doc),
        (CompileMode::RunCustomBuild, CargoMode::RunCustomBuild),
    ];
    for (mine, cargos) in pairs {
        assert_eq!(mine.is_any_test(), cargos.is_any_test());
        assert_eq!(mine.is_doc(), cargos.is_doc());
    }
}

#[test]
fn a_root_takes_the_features_of_the_host_where_cargo_does() {
    for kind in kinds() {
        let expected = match FeaturesFor::from_for_host(theirs(kind).proc_macro()) {
            FeaturesFor::NormalOrDev => FeatureRole::Normal,
            FeaturesFor::HostDep => FeatureRole::ProcMacroHost,
            FeaturesFor::ArtifactDep(_) => unreachable!(),
        };
        assert_eq!(FeatureRole::for_target(&ours(kind)), expected);
    }
}
