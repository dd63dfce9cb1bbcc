//! Helpers over sequences of items.

use vstd::prelude::*;

verus! {

/// If a list has exactly one element, returns that element. Otherwise
/// returns `None`.
pub fn unique_element<T>(items: Vec<T>) -> (r: Option<T>)
    ensures
        r == if items@.len() == 1 {
            Some(items@[0])
        } else {
            None
        },
{
    let mut items = items;
    if items.len() == 1 {
        items.pop()
    } else {
        None
    }
}

} // verus!
