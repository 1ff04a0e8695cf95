//! Build profiles: the settings a unit is compiled with.
//!
//! A profile is worked out from the profile that was asked for by name,
//! from whether the unit's package is a member of the workspace, from an
//! override that the workspace may hold for that package, and from the
//! role the unit plays in the build.

use vstd::prelude::*;
use crate::error::{ConfigurationError, PlanError};
use crate::feature::Symbol;
use crate::package::PackageId;

verus! {

/// What a compiled program does when it panics.
#[derive(Clone, Copy, Debug, PartialEq, Eq, Structural, Hash)]
pub enum PanicStrategy {
    Unwind,
    Abort,
}

/// The part a unit plays in the build.
#[derive(Clone, Copy, Debug, PartialEq, Eq, Structural, Hash)]
pub enum UnitRole {
    /// Part of what is built for the platform that was asked for.
    Normal,
    /// A test, or built for one.
    Test,
    /// Runs on the host while the build runs: a build script, a procedural
    /// macro, or anything either of them depends on.
    CompilerTool,
    /// Documented, or built for documenting.
    Doc,
}

/// The highest optimisation level.
pub const MAX_OPT_LEVEL: u8 = 3;

/// The highest level of debug information.
pub const MAX_DEBUGINFO: u8 = 2;

/// The settings of a profile.
#[derive(Clone, Copy, Debug, PartialEq, Eq, Structural, Hash)]
pub struct Settings {
    pub opt_level: u8,
    pub debuginfo: u8,
    pub panic: PanicStrategy,
    pub overflow_checks: bool,
    pub debug_assertions: bool,
    pub incremental: bool,
}

/// A profile resolved for one unit: the settings, the name of the profile
/// they come from, and the role they were resolved for.
#[derive(Clone, Copy, Debug, PartialEq, Eq, Structural, Hash)]
pub struct Profile {
    pub name: Symbol,
    pub role: UnitRole,
    pub opt_level: u8,
    pub debuginfo: u8,
    pub panic: PanicStrategy,
    pub overflow_checks: bool,
    pub debug_assertions: bool,
    pub incremental: bool,
}

/// A profile as the workspace defines it.
#[derive(Clone, Copy, Debug, PartialEq, Eq, Structural)]
pub struct ProfileDef {
    pub name: Symbol,
    pub settings: Settings,
}

/// Settings that the workspace fixes for one package. A field that is
/// `None` leaves the profile's own value in place.
#[derive(Clone, Copy, Debug, PartialEq, Eq, Structural)]
pub struct ProfileOverride {
    pub package: PackageId,
    pub opt_level: Option<u8>,
    pub debuginfo: Option<u8>,
    pub panic: Option<PanicStrategy>,
    pub overflow_checks: Option<bool>,
    pub debug_assertions: Option<bool>,
    pub incremental: Option<bool>,
}

impl ProfileOverride {
    /// Every level that the override sets is one that exists.
    pub open spec fn spec_well_formed(&self) -> bool {
        &&& self.opt_level matches Some(l) ==> l <= MAX_OPT_LEVEL
        &&& self.debuginfo matches Some(l) ==> l <= MAX_DEBUGINFO
    }

    #[verifier::when_used_as_spec(spec_well_formed)]
    pub fn well_formed(&self) -> (r: bool)
        ensures
            r == self.spec_well_formed(),
    {
        let opt_ok = match self.opt_level {
            Some(l) => l <= MAX_OPT_LEVEL,
            None => true,
        };
        let debug_ok = match self.debuginfo {
            Some(l) => l <= MAX_DEBUGINFO,
            None => true,
        };
        opt_ok && debug_ok
    }

    /// `base` with the fields that the override sets put in.
    pub open spec fn apply(&self, base: Settings) -> Settings {
        Settings {
            opt_level: match self.opt_level {
                Some(v) => v,
                None => base.opt_level,
            },
            debuginfo: match self.debuginfo {
                Some(v) => v,
                None => base.debuginfo,
            },
            panic: match self.panic {
                Some(v) => v,
                None => base.panic,
            },
            overflow_checks: match self.overflow_checks {
                Some(v) => v,
                None => base.overflow_checks,
            },
            debug_assertions: match self.debug_assertions {
                Some(v) => v,
                None => base.debug_assertions,
            },
            incremental: match self.incremental {
                Some(v) => v,
                None => base.incremental,
            },
        }
    }
}

/// What a package outside the workspace is built with where the workspace
/// holds no override for it: optimised and without debug assertions,
/// whatever `base` says of those two.
pub open spec fn outside_default(base: Settings) -> Settings {
    Settings { opt_level: MAX_OPT_LEVEL, debug_assertions: false, ..base }
}

/// The first definition in `defs` with the given name.
pub open spec fn spec_find_def(defs: Seq<ProfileDef>, name: Symbol) -> Option<ProfileDef>
    decreases defs.len(),
{
    if defs.len() == 0 {
        None
    } else if defs[0].name == name {
        Some(defs[0])
    } else {
        spec_find_def(defs.skip(1), name)
    }
}

/// The first override in `overrides` for the given package.
pub open spec fn spec_find_override(overrides: Seq<ProfileOverride>, package: PackageId) -> Option<
    ProfileOverride,
>
    decreases overrides.len(),
{
    if overrides.len() == 0 {
        None
    } else if overrides[0].package == package {
        Some(overrides[0])
    } else {
        spec_find_override(overrides.skip(1), package)
    }
}

/// The first override in `overrides` that is not well formed.
pub open spec fn spec_first_malformed(overrides: Seq<ProfileOverride>) -> Option<ProfileOverride>
    decreases overrides.len(),
{
    if overrides.len() == 0 {
        None
    } else if !overrides[0].spec_well_formed() {
        Some(overrides[0])
    } else {
        spec_first_malformed(overrides.skip(1))
    }
}

/// The profile of a unit: the settings of `base`, replaced by the
/// override's where there is one and by the outside defaults where there is
/// none and the package is no member; and over all of that, a unit that
/// runs during the build unwinds.
pub open spec fn spec_resolve_profile(
    name: Symbol,
    base: Settings,
    over: Option<ProfileOverride>,
    is_member: bool,
    role: UnitRole,
) -> Profile {
    let s = match over {
        Some(o) => o.apply(base),
        None => if is_member {
            base
        } else {
            outside_default(base)
        },
    };
    Profile {
        name,
        role,
        opt_level: s.opt_level,
        debuginfo: s.debuginfo,
        panic: if role == UnitRole::CompilerTool {
            PanicStrategy::Unwind
        } else {
            s.panic
        },
        overflow_checks: s.overflow_checks,
        debug_assertions: s.debug_assertions,
        incremental: s.incremental,
    }
}

/// The profile that was asked for, with the overrides of the workspace.
#[derive(Debug)]
pub struct ProfileTable {
    name: Symbol,
    base: Settings,
    overrides: Vec<ProfileOverride>,
}

impl ProfileTable {
    /// The name of the profile that was asked for.
    pub closed spec fn name(&self) -> Symbol {
        self.name
    }

    /// The settings of the profile that was asked for, before any override.
    pub closed spec fn base(&self) -> Settings {
        self.base
    }

    /// The overrides, as they were given.
    pub closed spec fn overrides(&self) -> Seq<ProfileOverride> {
        self.overrides@
    }

    /// The profile of a unit of `package` in the given role.
    pub open spec fn spec_get_profile(
        &self,
        package: PackageId,
        is_member: bool,
        role: UnitRole,
    ) -> Profile {
        spec_resolve_profile(
            self.name(),
            self.base(),
            spec_find_override(self.overrides(), package),
            is_member,
            role,
        )
    }

    /// Makes the table for the profile named `requested`. Fails where
    /// `defs` defines no such profile, and else where an override is not
    /// well formed; the error names the profile, or the package of the
    /// first such override.
    pub fn new(defs: &[ProfileDef], overrides: Vec<ProfileOverride>, requested: Symbol) -> (r:
        Result<ProfileTable, PlanError>)
        ensures
            match r {
                Ok(t) => {
                    &&& spec_find_def(defs@, requested) matches Some(d)
                    &&& spec_first_malformed(overrides@) is None
                    &&& t.name() == requested
                    &&& t.base() == d.settings
                    &&& t.overrides() == overrides@
                },
                Err(e) => match spec_find_def(defs@, requested) {
                    None => e == PlanError::Configuration(
                        ConfigurationError::UndefinedProfile { name: requested },
                    ),
                    Some(_) => spec_first_malformed(overrides@) matches Some(o) && e
                        == PlanError::Configuration(
                        ConfigurationError::MalformedOverride { package: o.package },
                    ),
                },
            },
    {
        let n = defs.len();
        let mut i: usize = 0;
        let mut found: Option<ProfileDef> = None;
        assert(defs@.skip(0) =~= defs@);
        while i < n && found.is_none()
            invariant
                n == defs@.len(),
                i <= n,
                match found {
                    Some(d) => spec_find_def(defs@, requested) == Some(d),
                    None => spec_find_def(defs@, requested) == spec_find_def(
                        defs@.skip(i as int),
                        requested,
                    ),
                },
            decreases n - i,
        {
            assert(defs@.skip(i as int)[0] == defs@[i as int]);
            if defs[i].name.id == requested.id {
                found = Some(defs[i]);
            } else {
                assert(defs@.skip(i as int).skip(1) =~= defs@.skip(i + 1));
            }
            i = i + 1;
        }
        let def = match found {
            Some(d) => d,
            None => {
                return Err(
                    PlanError::Configuration(
                        ConfigurationError::UndefinedProfile { name: requested },
                    ),
                );
            },
        };
        let m = overrides.len();
        let mut j: usize = 0;
        assert(overrides@.skip(0) =~= overrides@);
        while j < m
            invariant
                m == overrides@.len(),
                j <= m,
                spec_find_def(defs@, requested) == Some(def),
                spec_first_malformed(overrides@) == spec_first_malformed(overrides@.skip(j as int)),
            decreases m - j,
        {
            assert(overrides@.skip(j as int)[0] == overrides@[j as int]);
            if !overrides[j].well_formed() {
                return Err(
                    PlanError::Configuration(
                        ConfigurationError::MalformedOverride { package: overrides[j].package },
                    ),
                );
            }
            assert(overrides@.skip(j as int).skip(1) =~= overrides@.skip(j + 1));
            j = j + 1;
        }
        Ok(ProfileTable { name: requested, base: def.settings, overrides })
    }

    fn find_override(&self, package: PackageId) -> (r: Option<ProfileOverride>)
        ensures
            r == spec_find_override(self.overrides(), package),
    {
        let n = self.overrides.len();
        let mut i: usize = 0;
        assert(self.overrides@.skip(0) =~= self.overrides@);
        while i < n
            invariant
                n == self.overrides@.len(),
                i <= n,
                spec_find_override(self.overrides@, package) == spec_find_override(
                    self.overrides@.skip(i as int),
                    package,
                ),
            decreases n - i,
        {
            assert(self.overrides@.skip(i as int)[0] == self.overrides@[i as int]);
            if self.overrides[i].package.index == package.index {
                return Some(self.overrides[i]);
            }
            assert(self.overrides@.skip(i as int).skip(1) =~= self.overrides@.skip(i + 1));
            i = i + 1;
        }
        None
    }

    /// The profile of a unit of `package` in the given role.
    #[verifier::when_used_as_spec(spec_get_profile)]
    pub fn get_profile(&self, package: PackageId, is_member: bool, role: UnitRole) -> (r: Profile)
        ensures
            r == self.spec_get_profile(package, is_member, role),
    {
        let over = self.find_override(package);
        let s = match over {
            Some(o) => Settings {
                opt_level: match o.opt_level {
                    Some(v) => v,
                    None => self.base.opt_level,
                },
                debuginfo: match o.debuginfo {
                    Some(v) => v,
                    None => self.base.debuginfo,
                },
                panic: match o.panic {
                    Some(v) => v,
                    None => self.base.panic,
                },
                overflow_checks: match o.overflow_checks {
                    Some(v) => v,
                    None => self.base.overflow_checks,
                },
                debug_assertions: match o.debug_assertions {
                    Some(v) => v,
                    None => self.base.debug_assertions,
                },
                incremental: match o.incremental {
                    Some(v) => v,
                    None => self.base.incremental,
                },
            },
            None => if is_member {
                self.base
            } else {
                Settings {
                    opt_level: MAX_OPT_LEVEL,
                    debuginfo: self.base.debuginfo,
                    panic: self.base.panic,
                    overflow_checks: self.base.overflow_checks,
                    debug_assertions: false,
                    incremental: self.base.incremental,
                }
            },
        };
        let panic = match role {
            UnitRole::CompilerTool => PanicStrategy::Unwind,
            _ => s.panic,
        };
        Profile {
            name: self.name,
            role,
            opt_level: s.opt_level,
            debuginfo: s.debuginfo,
            panic,
            overflow_checks: s.overflow_checks,
            debug_assertions: s.debug_assertions,
            incremental: s.incremental,
        }
    }
}

} // verus!
