//! Small verified string utilities shared across the crate.

use vstd::prelude::*;

verus! {

/// Are two string slices the same sequence of characters?
pub fn str_eq(a: &str, b: &str) -> (r: bool)
    ensures
        r == (a@ == b@),
{
    let sa: String = a.to_owned();
    let sb: String = b.to_owned();
    sa == sb
}

} // verus!
