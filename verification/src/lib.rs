//! Planning of compilation units.
//!
//! Given the resolved packages of a workspace, the features asked for, a
//! build profile and the platforms to build for, this library works out
//! which compilation units have to be built, in which configuration, and
//! which of them depend on which. It runs no compiler and reads no file.
//!
//! A plan is made in these steps, each of which has a module of its own:
//!
//! - [`kind`] describes the platforms: the host, and what is known of each
//!   installed platform.
//! - [`package`] holds the resolved package graph.
//! - [`resolver`] works out which features of each package are active, for
//!   each role in which the package is built.
//! - [`profile`] works out the settings that a unit is compiled with.
//! - [`context`] holds the rules by which the configuration of a unit
//!   follows from that of the unit that depends on it.
//! - [`unit`] holds the units and the table that keeps one of each.
//! - [`graph`] walks from the root units to everything they depend on, and
//!   [`order`] puts the units in an order in which they can be built.
//! - [`plan`] puts the steps together.
//!
//! [`laws`] states what holds of every plan: that planning is
//! deterministic, that no unit is planned twice, that a plan has no cycle,
//! and that whatever runs while the build runs is built for the host and
//! unwinds when it panics.

pub mod context;
pub mod counting;
pub mod error;
pub mod feature;
pub mod graph;
pub mod kind;
pub mod laws;
pub mod order;
pub mod package;
pub mod plan;
pub mod profile;
pub mod resolver;
pub mod symbols;
pub mod target;
pub mod unit;
