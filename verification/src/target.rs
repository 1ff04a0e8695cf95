//! Build targets: the compilable artifacts of a package.

use vstd::prelude::*;
use crate::feature::Symbol;

verus! {

/// What sort of artifact a target is.
#[derive(Clone, Copy, Debug, PartialEq, Eq, Structural, Hash)]
pub enum TargetKind {
    Lib,
    Bin,
    BuildScript,
    ProcMacro,
    Test,
    Example,
}

/// One compilable artifact of a package.
#[derive(Clone, Copy, Debug, PartialEq, Eq, Structural, Hash)]
pub struct BuildTarget {
    pub kind: TargetKind,
    pub name: Symbol,
    /// The source file the compiler is started on.
    pub entry: Symbol,
    /// The artifact runs on the machine that drives the build, whatever
    /// platform the build is for.
    pub for_host: bool,
}

impl BuildTarget {
    /// A target of the given kind. Build scripts and procedural macros are
    /// for the host; nothing else is.
    pub fn new(kind: TargetKind, name: Symbol, entry: Symbol) -> (t: BuildTarget)
        ensures
            t.kind == kind,
            t.name == name,
            t.entry == entry,
            t.for_host == (kind == TargetKind::BuildScript || kind == TargetKind::ProcMacro),
    {
        let for_host = match kind {
            TargetKind::BuildScript => true,
            TargetKind::ProcMacro => true,
            _ => false,
        };
        BuildTarget { kind, name, entry, for_host }
    }

    pub open spec fn spec_is_lib(&self) -> bool {
        self.kind == TargetKind::Lib || self.kind == TargetKind::ProcMacro
    }

    /// A library. A procedural macro is a library too.
    #[verifier::when_used_as_spec(spec_is_lib)]
    pub fn is_lib(&self) -> (r: bool)
        ensures
            r == self.spec_is_lib(),
    {
        match self.kind {
            TargetKind::Lib => true,
            TargetKind::ProcMacro => true,
            _ => false,
        }
    }

    pub open spec fn spec_is_bin(&self) -> bool {
        self.kind == TargetKind::Bin
    }

    /// A binary.
    #[verifier::when_used_as_spec(spec_is_bin)]
    pub fn is_bin(&self) -> (r: bool)
        ensures
            r == self.spec_is_bin(),
    {
        match self.kind {
            TargetKind::Bin => true,
            _ => false,
        }
    }

    pub open spec fn spec_proc_macro(&self) -> bool {
        self.kind == TargetKind::ProcMacro
    }

    /// A procedural macro.
    #[verifier::when_used_as_spec(spec_proc_macro)]
    pub fn proc_macro(&self) -> (r: bool)
        ensures
            r == self.spec_proc_macro(),
    {
        match self.kind {
            TargetKind::ProcMacro => true,
            _ => false,
        }
    }

    pub open spec fn spec_is_custom_build(&self) -> bool {
        self.kind == TargetKind::BuildScript
    }

    /// A build script.
    #[verifier::when_used_as_spec(spec_is_custom_build)]
    pub fn is_custom_build(&self) -> (r: bool)
        ensures
            r == self.spec_is_custom_build(),
    {
        match self.kind {
            TargetKind::BuildScript => true,
            _ => false,
        }
    }

    /// Built when nothing narrower was asked for: the libraries and the
    /// binaries.
    pub open spec fn is_default(&self) -> bool {
        self.spec_is_bin() || self.spec_is_lib()
    }
}

/// The targets that are built by default, in the order given.
pub fn filter_default_targets(targets: &[BuildTarget]) -> (r: Vec<BuildTarget>)
    ensures
        r@ == targets@.filter(|t: BuildTarget| t.is_default()),
{
    let ghost pred = |t: BuildTarget| t.is_default();
    let mut r: Vec<BuildTarget> = Vec::new();
    let n = targets.len();
    let mut i: usize = 0;
    proof {
        reveal(Seq::filter);
        assert(targets@.take(0) =~= Seq::<BuildTarget>::empty());
    }
    while i < n
        invariant
            n == targets@.len(),
            i <= n,
            pred == (|t: BuildTarget| t.is_default()),
            r@ == targets@.take(i as int).filter(pred),
        decreases n - i,
    {
        let t = targets[i];
        proof {
            reveal(Seq::filter);
            assert(targets@.take(i + 1).drop_last() =~= targets@.take(i as int));
            assert(targets@.take(i + 1).last() == t);
        }
        if t.is_bin() || t.is_lib() {
            r.push(t);
        }
        i = i + 1;
    }
    assert(targets@.take(n as int) =~= targets@);
    r
}

/// The first library among `targets`, if there is one: what a dependency on
/// the package links against.
pub open spec fn spec_library_of(targets: Seq<BuildTarget>) -> Option<BuildTarget>
    decreases targets.len(),
{
    if targets.len() == 0 {
        None
    } else if targets[0].spec_is_lib() {
        Some(targets[0])
    } else {
        spec_library_of(targets.skip(1))
    }
}

/// The first library among `targets`, if there is one.
pub fn library_of(targets: &[BuildTarget]) -> (r: Option<BuildTarget>)
    ensures
        r == spec_library_of(targets@),
{
    let n = targets.len();
    let mut i: usize = 0;
    assert(targets@.skip(0) =~= targets@);
    while i < n
        invariant
            n == targets@.len(),
            i <= n,
            spec_library_of(targets@) == spec_library_of(targets@.skip(i as int)),
        decreases n - i,
    {
        let t = targets[i];
        assert(targets@.skip(i as int)[0] == t);
        if t.is_lib() {
            return Some(t);
        }
        assert(targets@.skip(i as int).skip(1) =~= targets@.skip(i + 1));
        i = i + 1;
    }
    None
}

/// What [`spec_library_of`] finds is a library and one of the targets.
pub proof fn lemma_library_of(targets: Seq<BuildTarget>)
    ensures
        match spec_library_of(targets) {
            Some(t) => t.spec_is_lib() && targets.contains(t),
            None => forall|i: int| 0 <= i < targets.len() ==> !targets[i].spec_is_lib(),
        },
    decreases targets.len(),
{
    if targets.len() == 0 {
    } else if targets[0].spec_is_lib() {
        assert(targets.contains(targets[0]));
    } else {
        lemma_library_of(targets.skip(1));
        match spec_library_of(targets.skip(1)) {
            Some(t) => {
                let k = choose|k: int| 0 <= k < targets.skip(1).len() && targets.skip(1)[k] == t;
                assert(targets[k + 1] == t);
            },
            None => {
                assert forall|i: int| 0 <= i < targets.len() implies !targets[i].spec_is_lib() by {
                    if i > 0 {
                        assert(targets.skip(1)[i - 1] == targets[i]);
                    }
                }
            },
        }
    }
}

} // verus!
