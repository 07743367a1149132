use vstd::prelude::*;

verus! {

/// Why a comparison was refused.
#[derive(Clone, Copy, Debug, PartialEq, Eq, Structural)]
pub enum LoCoHDError {
    /// Labels and distances differ in length, or an environment does not
    /// start with its anchor at distance zero.
    InputMismatch,
    /// A label that the catalog does not hold.
    InvalidCategory,
    /// A side of a tracker has no observation yet.
    UninitializedDistribution,
    /// A range whose lower end is negative or lies above its upper end.
    InvalidRange,
    /// Two distance matrices with different numbers of rows.
    DimensionMismatch,
}

} // verus!
