//! Views of the elements of standard containers.
use vstd::prelude::*;

verus! {

/// The view of what an option holds.
pub open spec fn option_view<T: View>(option: Option<T>) -> Option<T::V> {
    match option {
        Some(value) => Some(value@),
        None => None,
    }
}

/// The views of the elements of a sequence.
pub open spec fn seq_view<T: View>(elements: Seq<T>) -> Seq<T::V> {
    elements.map_values(|element: T| element@)
}

} // verus!
