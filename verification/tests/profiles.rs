use unit_graph::error::{ConfigurationError, PlanError};
use unit_graph::feature::Symbol;
use unit_graph::package::PackageId;
use unit_graph::profile::{
    PanicStrategy, Profile, ProfileDef, ProfileOverride, ProfileTable, Settings, UnitRole,
    MAX_DEBUGINFO, MAX_OPT_LEVEL,
};

const DEV: Symbol = Symbol { id: 10 };
const RELEASE: Symbol = Symbol { id: 11 };

fn id(index: usize) -> PackageId {
    PackageId { index }
}

fn dev() -> Settings {
    Settings {
        opt_level: 0,
        debuginfo: 2,
        panic: PanicStrategy::Abort,
        overflow_checks: true,
        debug_assertions: true,
        incremental: true,
    }
}

fn release() -> Settings {
    Settings {
        opt_level: 3,
        debuginfo: 0,
        panic: PanicStrategy::Unwind,
        overflow_checks: false,
        debug_assertions: false,
        incremental: false,
    }
}

fn defs() -> Vec<ProfileDef> {
    vec![
        ProfileDef { name: DEV, settings: dev() },
        ProfileDef { name: RELEASE, settings: release() },
        ProfileDef { name: DEV, settings: release() },
    ]
}

fn blank(package: usize) -> ProfileOverride {
    ProfileOverride {
        package: id(package),
        opt_level: None,
        debuginfo: None,
        panic: None,
        overflow_checks: None,
        debug_assertions: None,
        incremental: None,
    }
}

fn resolved(role: UnitRole, settings: Settings) -> Profile {
    Profile {
        name: DEV,
        role,
        opt_level: settings.opt_level,
        debuginfo: settings.debuginfo,
        panic: settings.panic,
        overflow_checks: settings.overflow_checks,
        debug_assertions: settings.debug_assertions,
        incremental: settings.incremental,
    }
}

#[test]
fn a_member_gets_the_profile_as_it_is_defined() {
    let table = ProfileTable::new(&defs(), Vec::new(), DEV).unwrap();
    for role in [UnitRole::Normal, UnitRole::Test, UnitRole::Doc] {
        assert_eq!(table.get_profile(id(0), true, role), resolved(role, dev()));
    }
}

#[test]
fn an_outside_package_is_optimised_and_has_no_debug_assertions() {
    let table = ProfileTable::new(&defs(), Vec::new(), DEV).unwrap();
    let mut expected = dev();
    expected.opt_level = 3;
    expected.debug_assertions = false;
    assert_eq!(table.get_profile(id(0), false, UnitRole::Normal), resolved(UnitRole::Normal, expected));
}

#[test]
fn an_override_replaces_what_it_sets_and_the_outside_defaults_with_it() {
    let mut over = blank(4);
    over.opt_level = Some(1);
    over.incremental = Some(false);
    let table = ProfileTable::new(&defs(), vec![blank(3), over, blank(4)], DEV).unwrap();
    let mut expected = dev();
    expected.opt_level = 1;
    expected.incremental = false;
    assert_eq!(table.get_profile(id(4), false, UnitRole::Normal), resolved(UnitRole::Normal, expected));
    assert_eq!(table.get_profile(id(4), true, UnitRole::Normal), resolved(UnitRole::Normal, expected));
    assert_eq!(table.get_profile(id(3), false, UnitRole::Normal), resolved(UnitRole::Normal, dev()));
}

#[test]
fn an_override_can_set_every_field() {
    let over = ProfileOverride {
        package: id(0),
        opt_level: Some(2),
        debuginfo: Some(1),
        panic: Some(PanicStrategy::Unwind),
        overflow_checks: Some(false),
        debug_assertions: Some(false),
        incremental: Some(false),
    };
    let table = ProfileTable::new(&defs(), vec![over], DEV).unwrap();
    assert_eq!(
        table.get_profile(id(0), true, UnitRole::Normal),
        Profile {
            name: DEV,
            role: UnitRole::Normal,
            opt_level: 2,
            debuginfo: 1,
            panic: PanicStrategy::Unwind,
            overflow_checks: false,
            debug_assertions: false,
            incremental: false,
        }
    );
}

#[test]
fn a_build_tool_unwinds_whatever_the_profile_and_the_override_say() {
    let mut over = blank(1);
    over.panic = Some(PanicStrategy::Abort);
    let table = ProfileTable::new(&defs(), vec![over], DEV).unwrap();
    for package in [0, 1] {
        for is_member in [true, false] {
            let tool = table.get_profile(id(package), is_member, UnitRole::CompilerTool);
            assert_eq!(tool.panic, PanicStrategy::Unwind);
            assert_eq!(tool.role, UnitRole::CompilerTool);
            let normal = table.get_profile(id(package), is_member, UnitRole::Normal);
            assert_eq!(normal.panic, PanicStrategy::Abort);
        }
    }
}

#[test]
fn the_first_definition_of_the_name_asked_for_is_taken() {
    let table = ProfileTable::new(&defs(), Vec::new(), RELEASE).unwrap();
    let profile = table.get_profile(id(0), true, UnitRole::Normal);
    assert_eq!(profile.name, RELEASE);
    assert_eq!(profile.opt_level, 3);
    assert_eq!(profile.debuginfo, 0);
    let first = ProfileTable::new(&defs(), Vec::new(), DEV).unwrap();
    assert_eq!(first.get_profile(id(0), true, UnitRole::Normal).opt_level, 0);
}

#[test]
fn a_profile_that_is_not_defined_is_a_configuration_error() {
    let mut bad = blank(2);
    bad.opt_level = Some(9);
    let missing = ProfileTable::new(&defs(), vec![bad], Symbol { id: 12 });
    assert_eq!(
        missing.unwrap_err(),
        PlanError::Configuration(ConfigurationError::UndefinedProfile { name: Symbol { id: 12 } })
    );
    let none = ProfileTable::new(&[], Vec::new(), DEV);
    assert_eq!(
        none.unwrap_err(),
        PlanError::Configuration(ConfigurationError::UndefinedProfile { name: DEV })
    );
}

#[test]
fn an_override_with_a_level_that_does_not_exist_is_a_configuration_error() {
    let mut too_fast = blank(5);
    too_fast.opt_level = Some(MAX_OPT_LEVEL + 1);
    let mut too_much = blank(6);
    too_much.debuginfo = Some(MAX_DEBUGINFO + 1);
    let refused = ProfileTable::new(&defs(), vec![blank(1), too_much, too_fast], DEV);
    assert_eq!(
        refused.unwrap_err(),
        PlanError::Configuration(ConfigurationError::MalformedOverride { package: id(6) })
    );
    let mut highest = blank(5);
    highest.opt_level = Some(MAX_OPT_LEVEL);
    highest.debuginfo = Some(MAX_DEBUGINFO);
    assert!(highest.well_formed());
    assert!(!too_fast.well_formed());
    assert!(ProfileTable::new(&defs(), vec![highest], DEV).is_ok());
    assert_eq!(MAX_OPT_LEVEL, 3);
    assert_eq!(MAX_DEBUGINFO, 2);
}
