//! Why planning fails.

use vstd::prelude::*;
use crate::feature::Symbol;
use crate::package::PackageId;

verus! {

/// A fault in what the planner was configured with.
#[derive(Clone, Copy, Debug, PartialEq, Eq, Structural)]
pub enum ConfigurationError {
    /// A platform was asked for that the platform descriptor does not know.
    UnrecognizedTriple { triple: Symbol },
    /// A platform was named by something that is no target name.
    InvalidTripleName,
    /// A platform was named by a file that describes it. Such platforms are
    /// not planned for.
    TargetFile,
    /// A profile override for this package holds a value out of range.
    MalformedOverride { package: PackageId },
    /// The profile asked for is not defined.
    UndefinedProfile { name: Symbol },
}

/// Why no plan was made. A plan is made whole or not at all.
#[derive(Clone, Copy, Debug, PartialEq, Eq, Structural)]
pub enum PlanError {
    Configuration(ConfigurationError),
    /// A package was named that the package graph does not hold.
    UnknownPackage { package: PackageId },
    /// The units cannot be put in an order in which each comes after what
    /// it depends on. `package` owns a unit that no such order can place.
    CycleDetected { package: PackageId },
    /// Two features that the package declares as excluding each other are
    /// both activated for it.
    FeatureConflict { package: PackageId, first: Symbol, second: Symbol },
}

} // verus!
