//! The fixed answers of the service's routes that carry no data.

use vstd::prelude::*;

verus! {

/// The answer at the root of the service.
pub fn index() -> (r: &'static str)
    ensures
        r@ == "Hello, world!"@,
{
    "Hello, world!"
}

/// The answer to a request to reset the service. Nothing is reset.
pub fn reset() -> (r: &'static str)
    ensures
        r@ == "Hello, world!"@,
{
    "Hello, world!"
}

} // verus!
