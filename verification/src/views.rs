use vstd::prelude::*;

verus! {

/// The views of a sequence of values, in order.
pub open spec fn views<T: View>(items: Seq<T>) -> Seq<T::V> {
    items.map_values(|item: T| item@)
}

/// A sequence of numbers is its own sequence of views.
pub proof fn lemma_views_of_numbers(numbers: Seq<usize>)
    ensures
        views(numbers) == numbers,
{
}

} // verus!
