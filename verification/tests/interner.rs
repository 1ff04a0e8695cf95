use unit_graph::feature::{FeatureSet, Symbol};
use unit_graph::kind::CompileKind;
use unit_graph::package::PackageId;
use unit_graph::profile::{PanicStrategy, Profile, UnitRole};
use unit_graph::target::{BuildTarget, TargetKind};
use unit_graph::unit::{CompileMode, Unit, UnitHandle, UnitInterner};

fn sym(id: u64) -> Symbol {
    Symbol { id }
}

fn unit(package: usize, features: &[u64]) -> Unit {
    let listed: Vec<Symbol> = features.iter().map(|&id| sym(id)).collect();
    Unit {
        package: PackageId { index: package },
        target: BuildTarget::new(TargetKind::Lib, sym(1), sym(2)),
        profile: Profile {
            name: sym(10),
            role: UnitRole::Normal,
            opt_level: 0,
            debuginfo: 2,
            panic: PanicStrategy::Unwind,
            overflow_checks: true,
            debug_assertions: true,
            incremental: true,
        },
        features: FeatureSet::from_vec(&listed),
        kind: CompileKind::Target(sym(20)),
        mode: CompileMode::Build,
    }
}

#[test]
fn interning_twice_gives_the_same_handle_and_stores_once() {
    let mut interner = UnitInterner::new();
    let first = interner.intern(unit(0, &[5, 6]));
    let second = interner.intern(unit(0, &[5, 6]));
    assert_eq!(first, second);
    assert_eq!(first, UnitHandle { index: 0 });
    assert_eq!(interner.len(), 1);
    assert!(interner.get(first).same(&unit(0, &[5, 6])));
}

#[test]
fn the_order_in_which_features_are_listed_does_not_tell_units_apart() {
    let mut interner = UnitInterner::new();
    let first = interner.intern(unit(0, &[5, 6, 7]));
    let second = interner.intern(unit(0, &[7, 5, 6, 5]));
    assert_eq!(first, second);
    assert_eq!(interner.len(), 1);
}

#[test]
fn units_that_differ_in_one_field_get_different_handles() {
    let base = unit(0, &[5]);
    let mut variants = vec![base.clone(); 7];
    variants[1].package = PackageId { index: 1 };
    variants[2].target = BuildTarget::new(TargetKind::Bin, sym(1), sym(2));
    variants[3].profile.opt_level = 3;
    variants[4].features = FeatureSet::from_vec(&vec![sym(5), sym(6)]);
    variants[5].kind = CompileKind::Target(sym(21));
    variants[6].mode = CompileMode::Check;
    let mut interner = UnitInterner::new();
    let handles: Vec<UnitHandle> = variants.iter().map(|u| interner.intern(u.clone())).collect();
    assert_eq!(interner.len(), 7);
    for (index, handle) in handles.iter().enumerate() {
        assert_eq!(*handle, UnitHandle { index });
        assert!(interner.get(*handle).same(&variants[index]));
    }
    for (index, variant) in variants.iter().enumerate() {
        assert_eq!(interner.intern(variant.clone()), UnitHandle { index });
        assert_eq!(interner.lookup(variant), Some(UnitHandle { index }));
    }
    assert_eq!(interner.len(), 7);
}

#[test]
fn a_unit_that_was_not_interned_is_not_found() {
    let mut interner = UnitInterner::new();
    assert_eq!(interner.lookup(&unit(0, &[])), None);
    interner.intern(unit(0, &[]));
    assert_eq!(interner.lookup(&unit(1, &[])), None);
    assert_eq!(interner.lookup(&unit(0, &[])), Some(UnitHandle { index: 0 }));
}

#[test]
fn same_units_compare_as_the_same_and_a_copy_is_the_same() {
    let a = unit(3, &[9, 8]);
    assert!(a.same(&unit(3, &[8, 9])));
    assert!(!a.same(&unit(3, &[8])));
    assert!(a.same(&a.duplicate()));
}

#[test]
fn only_a_test_is_a_test_and_only_documenting_documents() {
    let modes = [
        CompileMode::Check,
        CompileMode::Build,
        CompileMode::Test,
        CompileMode::Doc,
        CompileMode::RunCustomBuild,
    ];
    let tests: Vec<bool> = modes.iter().map(|m| m.is_any_test()).collect();
    let docs: Vec<bool> = modes.iter().map(|m| m.is_doc()).collect();
    assert_eq!(tests, vec![false, false, true, false, false]);
    assert_eq!(docs, vec![false, false, false, true, false]);
}
