use vstd::prelude::*;

verus! {

/// A checker texture shows its first color on cell `(iu, iv)` when the
/// cell's coordinates sum to an even number, its second color otherwise.
pub fn checker_first(iu: u32, iv: u32) -> (r: bool)
    ensures
        r == ((iu + iv) % 2 == 0),
{
    (iu % 2 + iv % 2) % 2 == 0
}

} // verus!
