//! Verified core of a game-data extraction pipeline.
//!
//! The library turns the flat, sentinel-framed text that a scriptable game
//! host prints into a validated, strongly typed model of the game's
//! production economy (items, fluids, recipes, machines, beacons and
//! upgrade modules), and turns pairs of flat-background icon renders into
//! a single deduplicated atlas with recovered transparency.
//!
//! All numeric data is kept in exact arbitrary-precision arithmetic; the
//! surrounding process management, file handling and persistence are left
//! to the (unverified) binary built on top of this crate.

pub mod approx;
pub mod assembly;
pub mod decode;
pub mod digits;
pub mod icons;
pub mod model;
pub mod numbers;
pub mod symbols;

use vstd::prelude::*;

verus! {

/// The single error taxonomy of the pipeline.  Every stage either fully
/// succeeds or surfaces exactly one of these; no stage retries.
#[derive(Clone, Copy, PartialEq, Eq, Structural, Debug)]
pub enum Error {
    /// The stream ended early, a sentinel is missing, or the positional
    /// cursor was exhausted in the middle of a record.
    MalformedRecord,
    /// A declared entity count does not match the number of records that
    /// were actually produced (for example, a duplicate ID collapsing a
    /// collection below its declared count).
    SchemaMismatch,
    /// An unrecognized kind or tag token.
    UnknownVariant,
    /// A module limitation names a recipe that is not in the recipe set.
    ReferenceError,
    /// Non-digit content, an empty numeric field, or scientific notation.
    NumericParseError,
    /// An icon render is not exactly one tile in size.
    ImageDimensionMismatch,
    /// The icon stage was handed no images at all.
    EmptyDataSet,
}

} // verus!
