use unit_graph::context::{
    derive_child_context, edge_followed, ChildContext, DependencyDescriptor, PlanContext, UnitContext,
};
use unit_graph::error::{ConfigurationError, PlanError};
use unit_graph::feature::{FeatureSet, Symbol};
use unit_graph::graph::UnitDep;
use unit_graph::kind::{
    holds_json, kind_of_answer, target_kind, CompileKind, Platform, TargetConfig, TargetData, TargetInfo,
};
use unit_graph::order::topological_order;
use unit_graph::package::{EdgeKind, PackageGraph, PackageId, PackageInfo};
use unit_graph::plan::root_role;
use unit_graph::profile::{PanicStrategy, ProfileDef, ProfileTable, Settings, UnitRole};
use unit_graph::resolver::{resolve_features, FeatureNode, FeatureRequest, FeatureRole};
use unit_graph::symbols::SymbolTable;
use unit_graph::target::{BuildTarget, TargetKind};
use unit_graph::unit::{CompileMode, UnitHandle};

const HOST: Symbol = Symbol { id: 1 };
const ARM: Symbol = Symbol { id: 2 };
const WASM: Symbol = Symbol { id: 3 };

fn sym(id: u64) -> Symbol {
    Symbol { id }
}

fn platform(triple: Symbol, flag: u64) -> Platform {
    Platform {
        triple,
        info: TargetInfo { compiler_flags: vec![sym(flag)], doc_flags: vec![sym(flag + 1)] },
        config: TargetConfig { link_overrides: vec![sym(flag + 2)] },
    }
}

fn installed() -> Vec<Platform> {
    vec![platform(ARM, 100), platform(HOST, 200), platform(ARM, 300)]
}

#[test]
fn the_descriptor_knows_the_installed_platforms_and_hands_out_their_settings() {
    let data = TargetData::new(HOST, installed(), &[CompileKind::Host, CompileKind::Target(ARM)]).unwrap();
    assert_eq!(data.host(), HOST);
    assert_eq!(data.explicit_host_kind(), CompileKind::Target(HOST));
    assert!(data.is_known(CompileKind::Host));
    assert!(data.is_known(CompileKind::Target(HOST)));
    assert!(data.is_known(CompileKind::Target(ARM)));
    assert!(!data.is_known(CompileKind::Target(WASM)));
    assert_eq!(data.info(CompileKind::Host).unwrap().compiler_flags, vec![sym(200)]);
    assert_eq!(data.info(CompileKind::Target(HOST)).unwrap().doc_flags, vec![sym(201)]);
    assert_eq!(data.info(CompileKind::Target(ARM)).unwrap().compiler_flags, vec![sym(100)]);
    assert_eq!(data.target_config(CompileKind::Target(ARM)).unwrap().link_overrides, vec![sym(102)]);
    assert_eq!(data.target_config(CompileKind::Host).unwrap().link_overrides, vec![sym(202)]);
    assert!(data.info(CompileKind::Target(WASM)).is_none());
    assert!(data.target_config(CompileKind::Target(WASM)).is_none());
}

#[test]
fn the_host_is_resolved_to_its_triple() {
    let data = TargetData::new(HOST, installed(), &[]).unwrap();
    assert_eq!(data.resolve(CompileKind::Host), CompileKind::Target(HOST));
    assert_eq!(data.resolve(CompileKind::Target(ARM)), CompileKind::Target(ARM));
    assert_eq!(data.resolve(CompileKind::Target(WASM)), CompileKind::Target(WASM));
    assert_eq!(data.resolve_triple(CompileKind::Host), HOST);
    assert_eq!(data.resolve_triple(CompileKind::Target(WASM)), WASM);
}

#[test]
fn a_platform_that_is_not_installed_is_a_configuration_error() {
    let asked = [CompileKind::Target(ARM), CompileKind::Target(WASM), CompileKind::Target(sym(9))];
    let refused = TargetData::new(HOST, installed(), &asked);
    assert_eq!(
        refused.unwrap_err(),
        PlanError::Configuration(ConfigurationError::UnrecognizedTriple { triple: WASM })
    );
    let no_host = TargetData::new(WASM, installed(), &[CompileKind::Target(sym(9))]);
    assert_eq!(
        no_host.unwrap_err(),
        PlanError::Configuration(ConfigurationError::UnrecognizedTriple { triple: WASM })
    );
    let nothing = TargetData::new(HOST, Vec::new(), &[]);
    assert_eq!(
        nothing.unwrap_err(),
        PlanError::Configuration(ConfigurationError::UnrecognizedTriple { triple: HOST })
    );
}

fn library(kind: TargetKind) -> BuildTarget {
    BuildTarget::new(kind, sym(1), sym(2))
}

fn parent(role: UnitRole, mode: CompileMode) -> UnitContext {
    UnitContext { role, kind: CompileKind::Target(ARM), mode }
}

fn plain() -> DependencyDescriptor {
    DependencyDescriptor { library: library(TargetKind::Lib), forced_kind: None }
}

#[test]
fn an_ordinary_dependency_keeps_the_role_and_the_platform_of_its_dependent() {
    for role in [UnitRole::Normal, UnitRole::Test, UnitRole::Doc] {
        let child =
            derive_child_context(&parent(role, CompileMode::Build), EdgeKind::Normal, &plain(), HOST);
        assert_eq!(
            child,
            ChildContext {
                role,
                feature_role: FeatureRole::Normal,
                kind: CompileKind::Target(ARM),
                mode: CompileMode::Build,
            }
        );
    }
}

#[test]
fn whatever_forces_the_host_gives_a_build_tool_on_the_host() {
    let insisting =
        DependencyDescriptor { library: library(TargetKind::Lib), forced_kind: Some(CompileKind::Target(WASM)) };
    let macro_library = DependencyDescriptor { library: library(TargetKind::ProcMacro), forced_kind: None };
    let normal = parent(UnitRole::Normal, CompileMode::Check);
    let tool = parent(UnitRole::CompilerTool, CompileMode::Check);
    let cases = [
        (normal, EdgeKind::BuildScript, insisting, FeatureRole::BuildHost),
        (normal, EdgeKind::ProcMacro, insisting, FeatureRole::ProcMacroHost),
        (normal, EdgeKind::Normal, macro_library, FeatureRole::ProcMacroHost),
        (tool, EdgeKind::Normal, insisting, FeatureRole::BuildHost),
        (tool, EdgeKind::Test, plain(), FeatureRole::BuildHost),
        (tool, EdgeKind::Doc, plain(), FeatureRole::BuildHost),
    ];
    for (from, edge, dep, feature_role) in cases {
        assert_eq!(
            derive_child_context(&from, edge, &dep, HOST),
            ChildContext {
                role: UnitRole::CompilerTool,
                feature_role,
                kind: CompileKind::Target(HOST),
                mode: CompileMode::Build,
            }
        );
    }
}

#[test]
fn the_platform_a_package_insists_on_replaces_that_of_the_dependent() {
    let insisting =
        DependencyDescriptor { library: library(TargetKind::Lib), forced_kind: Some(CompileKind::Target(WASM)) };
    let on_host = DependencyDescriptor { library: library(TargetKind::Lib), forced_kind: Some(CompileKind::Host) };
    let from = parent(UnitRole::Normal, CompileMode::Build);
    assert_eq!(derive_child_context(&from, EdgeKind::Normal, &insisting, HOST).kind, CompileKind::Target(WASM));
    assert_eq!(derive_child_context(&from, EdgeKind::Normal, &on_host, HOST).kind, CompileKind::Target(HOST));
    assert_eq!(derive_child_context(&from, EdgeKind::Normal, &on_host, HOST).role, UnitRole::Normal);
    let unresolved = UnitContext { role: UnitRole::Normal, kind: CompileKind::Host, mode: CompileMode::Build };
    assert_eq!(derive_child_context(&unresolved, EdgeKind::Normal, &plain(), HOST).kind, CompileKind::Target(HOST));
}

#[test]
fn the_mode_of_a_dependency_follows_the_mode_of_its_dependent() {
    let expect = |mode: CompileMode, edge: EdgeKind| {
        derive_child_context(&parent(UnitRole::Normal, mode), edge, &plain(), HOST).mode
    };
    assert_eq!(expect(CompileMode::Check, EdgeKind::Normal), CompileMode::Check);
    assert_eq!(expect(CompileMode::Build, EdgeKind::Normal), CompileMode::Build);
    assert_eq!(expect(CompileMode::Test, EdgeKind::Normal), CompileMode::Build);
    assert_eq!(expect(CompileMode::Test, EdgeKind::Test), CompileMode::Build);
    assert_eq!(expect(CompileMode::Doc, EdgeKind::Normal), CompileMode::Check);
    assert_eq!(expect(CompileMode::Doc, EdgeKind::Doc), CompileMode::Doc);
    assert_eq!(expect(CompileMode::RunCustomBuild, EdgeKind::Normal), CompileMode::Build);
    assert_eq!(expect(CompileMode::Check, EdgeKind::BuildScript), CompileMode::Build);
}

#[test]
fn test_and_documentation_dependencies_are_followed_from_their_mode_only() {
    let modes = [
        CompileMode::Check,
        CompileMode::Build,
        CompileMode::Test,
        CompileMode::Doc,
        CompileMode::RunCustomBuild,
    ];
    for mode in modes {
        for has_dev_units in [true, false] {
            assert!(edge_followed(mode, EdgeKind::Normal, has_dev_units));
            assert!(edge_followed(mode, EdgeKind::BuildScript, has_dev_units));
            assert!(edge_followed(mode, EdgeKind::ProcMacro, has_dev_units));
            assert_eq!(edge_followed(mode, EdgeKind::Doc, has_dev_units), mode == CompileMode::Doc);
            assert_eq!(
                edge_followed(mode, EdgeKind::Test, has_dev_units),
                mode == CompileMode::Test && has_dev_units
            );
        }
    }
}

#[test]
fn the_role_of_a_root_follows_its_mode_and_its_target() {
    let lib = library(TargetKind::Lib);
    let script = library(TargetKind::BuildScript);
    assert_eq!(root_role(&lib, CompileMode::Check), UnitRole::Normal);
    assert_eq!(root_role(&lib, CompileMode::Build), UnitRole::Normal);
    assert_eq!(root_role(&lib, CompileMode::Test), UnitRole::Test);
    assert_eq!(root_role(&lib, CompileMode::Doc), UnitRole::Doc);
    assert_eq!(root_role(&script, CompileMode::Build), UnitRole::CompilerTool);
    assert_eq!(root_role(&script, CompileMode::Test), UnitRole::Test);
    assert_eq!(root_role(&script, CompileMode::Doc), UnitRole::CompilerTool);
    assert_eq!(root_role(&library(TargetKind::ProcMacro), CompileMode::Check), UnitRole::CompilerTool);
}

fn edge(index: usize) -> UnitDep {
    UnitDep { unit: UnitHandle { index }, kind: EdgeKind::Normal }
}

#[test]
fn units_are_ordered_after_what_they_depend_on() {
    let edges = vec![vec![edge(2), edge(1)], vec![edge(3)], vec![edge(3), edge(1)], Vec::new()];
    assert_eq!(topological_order(&edges), Ok(vec![3, 1, 2, 0]));
    assert_eq!(topological_order(&Vec::new()), Ok(Vec::<usize>::new()));
    assert_eq!(topological_order(&vec![Vec::new(), Vec::new()]), Ok(vec![0, 1]));
}

#[test]
fn a_unit_that_cannot_be_placed_is_reported() {
    let looped = vec![Vec::new(), vec![edge(2)], vec![edge(3), edge(0)], vec![edge(1)], vec![edge(1)]];
    assert_eq!(topological_order(&looped), Err(1));
    let own = vec![vec![edge(0)]];
    assert_eq!(topological_order(&own), Err(0));
}

#[test]
fn a_package_that_names_a_platform_that_is_not_known_gives_no_context() {
    let info = |forced: Option<CompileKind>, default: Option<CompileKind>| PackageInfo {
        name: sym(0),
        targets: vec![library(TargetKind::Lib)],
        is_member: true,
        forced_kind: forced,
        default_kind: default,
        features: FeatureSet::new(),
        default_features: FeatureSet::new(),
        exclusions: Vec::new(),
        dependencies: Vec::new(),
    };
    let graph = PackageGraph::new(vec![
        info(Some(CompileKind::Target(ARM)), Some(CompileKind::Host)),
        info(None, Some(CompileKind::Target(WASM))),
        info(Some(CompileKind::Target(sym(9))), None),
    ])
    .unwrap();
    let roots = [FeatureNode { package: PackageId { index: 0 }, role: FeatureRole::Normal }];
    let features = resolve_features(&graph, &FeatureRequest::All, false, &roots).unwrap();
    let settings = Settings {
        opt_level: 0,
        debuginfo: 0,
        panic: PanicStrategy::Unwind,
        overflow_checks: false,
        debug_assertions: false,
        incremental: false,
    };
    let profiles =
        ProfileTable::new(&[ProfileDef { name: sym(10), settings }], Vec::new(), sym(10)).unwrap();
    let targets = TargetData::new(HOST, installed(), &[]).unwrap();
    let refused = PlanContext::new(&graph, &features, &profiles, &targets, false);
    assert_eq!(
        refused.unwrap_err(),
        PlanError::Configuration(ConfigurationError::UnrecognizedTriple { triple: WASM })
    );
}

#[test]
fn a_name_is_given_the_same_symbol_every_time() {
    let mut table = SymbolTable::new();
    let host = table.intern("x86_64-unknown-linux-gnu".to_string());
    let dev = table.intern("dev".to_string());
    assert_eq!(host, sym(0));
    assert_eq!(dev, sym(1));
    assert_eq!(table.intern("x86_64-unknown-linux-gnu".to_string()), host);
    assert_eq!(table.intern("dev".to_string()), dev);
    assert_eq!(table.len(), 2);
    assert_eq!(table.lookup(&"dev".to_string()), Some(dev));
    assert_eq!(table.lookup(&"release".to_string()), None);
    assert_eq!(table.name_of(dev), Some(&"dev".to_string()));
    assert_eq!(table.name_of(sym(2)), None);
    assert_eq!(table.intern(String::new()), sym(2));
    assert_eq!(table.name_of(sym(2)), Some(&String::new()));
}

#[test]
fn a_platform_is_known_by_the_name_that_the_build_driver_gives_it() {
    let mut names = SymbolTable::new();
    let kind = target_kind(&mut names, "  aarch64-unknown-linux-gnu\n").unwrap();
    let symbol = match kind {
        CompileKind::Target(symbol) => symbol,
        CompileKind::Host => panic!("a named platform is not the host"),
    };
    assert_eq!(symbol, sym(0));
    assert_eq!(names.name_of(symbol), Some(&"aarch64-unknown-linux-gnu".to_string()));
    assert_eq!(target_kind(&mut names, "aarch64-unknown-linux-gnu"), Ok(kind));
    assert_eq!(target_kind(&mut names, "\taarch64-unknown-linux-gnu "), Ok(kind));
    assert_eq!(names.len(), 1);
    assert_eq!(target_kind(&mut names, "wasm32-wasip1"), Ok(CompileKind::Target(sym(1))));
    let theirs = cargo::core::compiler::CompileTarget::new("  aarch64-unknown-linux-gnu\n").unwrap();
    assert_eq!(names.name_of(symbol).unwrap().as_str(), theirs.rustc_target().as_str());
}

#[test]
fn a_name_that_the_build_driver_refuses_is_a_configuration_error() {
    let mut names = SymbolTable::new();
    for refused in ["", "   ", "\n\t"] {
        assert_eq!(
            target_kind(&mut names, refused),
            Err(PlanError::Configuration(ConfigurationError::InvalidTripleName))
        );
    }
    assert_eq!(names.len(), 0);
}

#[test]
fn a_name_that_may_be_a_file_is_not_taken() {
    let mut names = SymbolTable::new();
    for file in ["my-target.json", " /path/to/x.json ", "a.jsonb", ".json"] {
        assert!(holds_json(file));
        assert_eq!(
            target_kind(&mut names, file),
            Err(PlanError::Configuration(ConfigurationError::TargetFile))
        );
    }
    assert_eq!(names.len(), 0);
    for triple in ["", "json", ".jso", "x86_64-unknown-linux-gnu", "a.js.on", ".JSON"] {
        assert!(!holds_json(triple));
    }
}

#[test]
fn an_answer_of_the_build_driver_is_interned_and_a_refusal_is_an_error() {
    let mut names = SymbolTable::new();
    names.intern("dev".to_string());
    assert_eq!(
        kind_of_answer(&mut names, Some("thumbv7em-none-eabi".to_string())),
        Ok(CompileKind::Target(sym(1)))
    );
    assert_eq!(kind_of_answer(&mut names, Some("dev".to_string())), Ok(CompileKind::Target(sym(0))));
    assert_eq!(
        kind_of_answer(&mut names, None),
        Err(PlanError::Configuration(ConfigurationError::InvalidTripleName))
    );
    assert_eq!(names.len(), 2);
}
