//! Small text helpers shared by the modules of the crate.

use vstd::prelude::*;

verus! {

/// Whether the two texts are the same.
pub fn same_text(a: &str, b: &str) -> (r: bool)
    ensures
        r == (a@ == b@),
{
    let x = a.to_owned();
    let y = b.to_owned();
    x.eq(&y)
}

} // verus!
