//! Values with several owners.

use std::rc::Rc;
use vstd::prelude::*;

verus! {

/// Calls `Rc::clone`: another pointer to the same value.
#[verifier::external_body]
pub(crate) fn share<T>(value: &Rc<T>) -> (r: Rc<T>)
    ensures
        r == *value,
{
    Rc::clone(value)
}

} // verus!
