//! The stages of the Butterworth low-pass.

use vstd::prelude::*;

verus! {

/// The order a filter is built with: even, and at least two.
pub open spec fn even_order(order: int) -> int {
    if order < 2 {
        2
    } else {
        order - order % 2
    }
}

/// The order that a low-pass of the order asked for is built with. It is a
/// cascade of second-order stages, so the order is even.
pub fn filter_order(order: usize) -> (r: usize)
    ensures
        r == even_order(order as int),
{
    if order < 2 {
        2
    } else {
        order - order % 2
    }
}

/// The second-order stages of a low-pass of the order asked for.
pub fn stage_count(order: usize) -> (r: usize)
    ensures
        2 * r == even_order(order as int),
        r >= 1,
{
    filter_order(order) / 2
}

/// The order is the greatest even one that is no more than what was asked for,
/// or two where that is less.
pub proof fn orders_are_even(order: int)
    requires
        0 <= order,
    ensures
        even_order(order) % 2 == 0,
        order >= 2 ==> order - 1 <= even_order(order) <= order,
        order < 2 ==> even_order(order) == 2,
{
}

} // verus!
