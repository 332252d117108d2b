//! The view of a result.

use vstd::prelude::*;

verus! {

/// The result with the view of what it holds in place of the value itself.
pub open spec fn result_view<T: View, E: View>(result: Result<T, E>) -> Result<T::V, E::V> {
    match result {
        Ok(value) => Ok(value@),
        Err(error) => Err(error@),
    }
}

} // verus!
