//! Compilation units and the table that keeps one of each.

use vstd::prelude::*;
use crate::feature::{FeatureSet, Symbol};
use crate::kind::CompileKind;
use crate::package::PackageId;
use crate::profile::Profile;
use crate::target::BuildTarget;

verus! {

/// What is done to a unit.
#[derive(Clone, Copy, Debug, PartialEq, Eq, Structural, Hash)]
pub enum CompileMode {
    /// Type-checked only.
    Check,
    /// Compiled.
    Build,
    /// Compiled as a test.
    Test,
    /// Documented.
    Doc,
    /// The build script, already compiled, is run.
    RunCustomBuild,
}

impl CompileMode {
    pub open spec fn spec_is_any_test(&self) -> bool {
        *self == CompileMode::Test
    }

    /// Whether this is a test of any sort.
    #[verifier::when_used_as_spec(spec_is_any_test)]
    pub fn is_any_test(&self) -> (r: bool)
        ensures
            r == self.spec_is_any_test(),
    {
        match self {
            CompileMode::Test => true,
            _ => false,
        }
    }

    pub open spec fn spec_is_doc(&self) -> bool {
        *self == CompileMode::Doc
    }

    /// Whether this documents.
    #[verifier::when_used_as_spec(spec_is_doc)]
    pub fn is_doc(&self) -> (r: bool)
        ensures
            r == self.spec_is_doc(),
    {
        match self {
            CompileMode::Doc => true,
            _ => false,
        }
    }
}

/// One compilation job, fully configured. Two units are the same unit
/// exactly if they agree in all six fields.
#[derive(Clone, Debug, PartialEq, Eq)]
pub struct Unit {
    pub package: PackageId,
    pub target: BuildTarget,
    pub profile: Profile,
    pub features: FeatureSet,
    pub kind: CompileKind,
    pub mode: CompileMode,
}

/// A unit as a value: what two equal units have in common.
#[verifier::ext_equal]
pub ghost struct UnitKey {
    pub package: PackageId,
    pub target: BuildTarget,
    pub profile: Profile,
    pub features: Set<Symbol>,
    pub kind: CompileKind,
    pub mode: CompileMode,
}

impl View for Unit {
    type V = UnitKey;

    open spec fn view(&self) -> UnitKey {
        UnitKey {
            package: self.package,
            target: self.target,
            profile: self.profile,
            features: self.features@,
            kind: self.kind,
            mode: self.mode,
        }
    }
}

impl Unit {
    /// The feature set is well formed.
    pub open spec fn wf(&self) -> bool {
        self.features.wf()
    }

    /// Whether the two are the same unit.
    pub fn same(&self, other: &Unit) -> (r: bool)
        requires
            self.wf(),
            other.wf(),
        ensures
            r == (self@ == other@),
    {
        let r = self.package.index == other.package.index && self.target == other.target
            && self.profile == other.profile && self.kind == other.kind && self.mode == other.mode
            && self.features.same(&other.features);
        proof {
            if r {
                assert(self@ =~= other@);
            }
        }
        r
    }

    /// A copy of the unit.
    pub fn duplicate(&self) -> (r: Unit)
        ensures
            r@ == self@,
            r.wf() == self.wf(),
    {
        Unit {
            package: self.package,
            target: self.target,
            profile: self.profile,
            features: self.features.duplicate(),
            kind: self.kind,
            mode: self.mode,
        }
    }
}

/// The name of a unit in a [`UnitInterner`] or a unit graph: its place in
/// the order in which the units were first met.
#[derive(Clone, Copy, Debug, PartialEq, Eq, Structural, Hash)]
pub struct UnitHandle {
    pub index: usize,
}

/// What interning `key` does to the units `known`: a unit that is there
/// keeps its place and nothing changes; one that is not is put at the end.
pub open spec fn spec_intern(known: Seq<UnitKey>, key: UnitKey) -> (Seq<UnitKey>, int) {
    if known.contains(key) {
        (known, known.index_of(key))
    } else {
        (known.push(key), known.len() as int)
    }
}

/// Interning leaves the unit in the table under the handle it gives, keeps
/// every unit that was there in its place, and keeps the table free of
/// repetitions.
pub proof fn lemma_intern(known: Seq<UnitKey>, key: UnitKey)
    requires
        known.no_duplicates(),
    ensures
        ({
            let (after, h) = spec_intern(known, key);
            &&& after.no_duplicates()
            &&& 0 <= h < after.len()
            &&& after[h] == key
            &&& known.len() <= after.len() <= known.len() + 1
            &&& forall|i: int| 0 <= i < known.len() ==> after[i] == known[i]
            &&& forall|i: int| 0 <= i < after.len() && after[i] == key ==> i == h
        }),
{
    let (after, h) = spec_intern(known, key);
    if known.contains(key) {
        assert(0 <= h < known.len() && known[h] == key);
    } else {
        assert forall|i: int, j: int| 0 <= i < j < after.len() implies after[i] != after[j] by {
            if j == known.len() {
                assert(known[i] == after[i]);
                assert(known.contains(after[i]));
            }
        }
    }
}

/// Interning the same unit a second time gives the same handle and changes
/// nothing.
pub proof fn lemma_intern_idempotent(known: Seq<UnitKey>, key: UnitKey)
    requires
        known.no_duplicates(),
    ensures
        ({
            let (once, first) = spec_intern(known, key);
            let (twice, second) = spec_intern(once, key);
            &&& twice == once
            &&& second == first
            &&& once[first] == key
            &&& twice.no_duplicates()
        }),
{
    lemma_intern(known, key);
    let (once, first) = spec_intern(known, key);
    assert(once.contains(key));
    lemma_intern(once, key);
}

/// The table of units: it holds each unit once, and hands out one handle
/// for all that are equal.
#[derive(Debug)]
pub struct UnitInterner {
    units: Vec<Unit>,
}

impl View for UnitInterner {
    type V = Seq<UnitKey>;

    closed spec fn view(&self) -> Seq<UnitKey> {
        self.units@.map_values(|u: Unit| u@)
    }
}

impl UnitInterner {
    /// No unit is held twice, and every unit held is well formed.
    pub closed spec fn wf(&self) -> bool {
        &&& self@.no_duplicates()
        &&& forall|i: int| 0 <= i < self.units@.len() ==> (#[trigger] self.units@[i]).wf()
    }

    /// A well-formed table holds no unit twice.
    pub proof fn lemma_wf(&self)
        requires
            self.wf(),
        ensures
            self@.no_duplicates(),
    {
    }

    /// An empty table.
    pub fn new() -> (r: UnitInterner)
        ensures
            r.wf(),
            r@ == Seq::<UnitKey>::empty(),
    {
        let r = UnitInterner { units: Vec::new() };
        assert(r@ =~= Seq::<UnitKey>::empty());
        r
    }

    /// The number of units held.
    pub fn len(&self) -> (n: usize)
        ensures
            n == self@.len(),
    {
        self.units.len()
    }

    /// The unit with the given handle.
    pub fn get(&self, handle: UnitHandle) -> (r: &Unit)
        requires
            self.wf(),
            handle.index < self@.len(),
        ensures
            r@ == self@[handle.index as int],
            r.wf(),
    {
        &self.units[handle.index]
    }

    /// The handle of `unit`, if the table holds it.
    pub fn lookup(&self, unit: &Unit) -> (r: Option<UnitHandle>)
        requires
            self.wf(),
            unit.wf(),
        ensures
            match r {
                Some(h) => self@.contains(unit@) && h.index == self@.index_of(unit@),
                None => !self@.contains(unit@),
            },
    {
        let n = self.units.len();
        let mut i: usize = 0;
        while i < n
            invariant
                n == self.units@.len(),
                n == self@.len(),
                i <= n,
                self.wf(),
                unit.wf(),
                forall|k: int| 0 <= k < i ==> self@[k] != unit@,
            decreases n - i,
        {
            if self.units[i].same(unit) {
                assert(self@[i as int] == unit@);
                assert(self@.contains(unit@));
                let ghost k = self@.index_of(unit@);
                assert(self@[k] == unit@);
                assert(k == i);
                return Some(UnitHandle { index: i });
            }
            i = i + 1;
        }
        None
    }

    /// The handle of `unit`, which is put into the table if it is not yet
    /// there. Equal units get the same handle, and a unit that is there is
    /// not stored again.
    pub fn intern(&mut self, unit: Unit) -> (h: UnitHandle)
        requires
            old(self).wf(),
            unit.wf(),
        ensures
            final(self).wf(),
            (final(self)@, h.index as int) == spec_intern(old(self)@, unit@),
            h.index < final(self)@.len(),
            final(self)@[h.index as int] == unit@,
    {
        proof {
            lemma_intern(self@, unit@);
        }
        match self.lookup(&unit) {
            Some(h) => h,
            None => {
                let h = UnitHandle { index: self.units.len() };
                let ghost before = self.units@;
                self.units.push(unit);
                assert(self@ =~= old(self)@.push(unit@));
                assert forall|i: int| 0 <= i < self.units@.len() implies (
                #[trigger] self.units@[i]).wf() by {
                    if i < before.len() {
                        assert(self.units@[i] == before[i]);
                    }
                }
                h
            },
        }
    }
}

} // verus!
