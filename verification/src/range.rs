use vstd::prelude::*;
use crate::error::LoCoHDError;

verus! {

/// Upper end of a piece of the radius axis.
#[derive(Clone, Copy, Debug, PartialEq, Eq, Structural)]
pub enum UpperBound {
    /// The piece ends just below this rank.
    At(i64),
    /// The piece has no end.
    Unbounded,
}

/// A range over which a weight can be integrated: it starts at a rank that
/// is not negative and does not end below its start.
pub open spec fn valid_range(lo: i64, hi: UpperBound) -> bool {
    0 <= lo && match hi {
        UpperBound::At(h) => lo <= h,
        UpperBound::Unbounded => true,
    }
}

/// Accepts exactly the valid ranges.
pub fn check_range(lo: i64, hi: UpperBound) -> (r: Result<(), LoCoHDError>)
    ensures
        valid_range(lo, hi) ==> r == Ok::<(), LoCoHDError>(()),
        !valid_range(lo, hi) ==> r == Err::<(), LoCoHDError>(LoCoHDError::InvalidRange),
{
    if lo < 0 {
        return Err(LoCoHDError::InvalidRange);
    }
    match hi {
        UpperBound::At(h) => {
            if lo <= h {
                Ok(())
            } else {
                Err(LoCoHDError::InvalidRange)
            }
        },
        UpperBound::Unbounded => Ok(()),
    }
}

} // verus!
