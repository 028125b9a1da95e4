use vstd::prelude::*;

use crate::error::SearchError;

verus! {

/// Two vectors can be compared only when their lengths agree: succeeds exactly
/// then, and otherwise names both lengths.
pub fn check_dimensions(left: usize, right: usize) -> (r: Result<(), SearchError>)
    ensures
        r is Ok <==> left == right,
        r is Err ==> r == Err::<(), SearchError>(SearchError::DimensionMismatch { left, right }),
{
    if left == right {
        Ok(())
    } else {
        Err(SearchError::DimensionMismatch { left, right })
    }
}

} // verus!
