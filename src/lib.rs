use vstd::prelude::*;

pub mod path;
pub mod pattern;
pub mod order;
pub mod store;
pub mod json;
pub mod construct;
pub mod search;

verus! {

/// Adds two integers; the sum must fit in an `i32`.
pub fn add(a: i32, b: i32) -> (r: i32)
    requires
        i32::MIN <= a + b <= i32::MAX,
    ensures
        r == a + b,
{
    a + b
}

} // verus!
