use unit_graph::feature::Symbol;
use unit_graph::target::{filter_default_targets, library_of, BuildTarget, TargetKind};

fn target(kind: TargetKind, name: u64) -> BuildTarget {
    BuildTarget::new(kind, Symbol { id: name }, Symbol { id: name + 100 })
}

#[test]
fn default_targets_are_the_libraries_and_binaries_in_order() {
    let targets = vec![
        target(TargetKind::BuildScript, 1),
        target(TargetKind::Bin, 2),
        target(TargetKind::Test, 3),
        target(TargetKind::Lib, 4),
        target(TargetKind::Example, 5),
        target(TargetKind::ProcMacro, 6),
    ];
    let chosen = filter_default_targets(&targets);
    assert_eq!(
        chosen,
        vec![
            target(TargetKind::Bin, 2),
            target(TargetKind::Lib, 4),
            target(TargetKind::ProcMacro, 6),
        ]
    );
}

#[test]
fn default_targets_of_nothing_are_nothing() {
    assert_eq!(filter_default_targets(&[]), vec![]);
}

#[test]
fn build_scripts_and_proc_macros_are_for_the_host() {
    assert!(target(TargetKind::BuildScript, 1).for_host);
    assert!(target(TargetKind::ProcMacro, 1).for_host);
    assert!(!target(TargetKind::Lib, 1).for_host);
    assert!(!target(TargetKind::Bin, 1).for_host);
    assert!(!target(TargetKind::Test, 1).for_host);
    assert!(!target(TargetKind::Example, 1).for_host);
}

#[test]
fn the_library_of_a_package_is_its_first_library() {
    let targets = vec![
        target(TargetKind::Bin, 1),
        target(TargetKind::Lib, 2),
        target(TargetKind::ProcMacro, 3),
    ];
    assert_eq!(library_of(&targets), Some(target(TargetKind::Lib, 2)));
    assert_eq!(library_of(&[target(TargetKind::Bin, 1)]), None);
}
