use vstd::prelude::*;

verus! {

/// A coordinate axis.
#[derive(PartialEq, Eq, Structural, Clone, Copy, Debug)]
pub enum Axis {
    X,
    Y,
    Z,
}

impl Axis {
    /// The two other axes, in the order X, Y, Z.
    pub fn others(&self) -> (r: (Axis, Axis))
        ensures
            r.0 != *self,
            r.1 != *self,
            r.0 != r.1,
            *self == Axis::X ==> r == (Axis::Y, Axis::Z),
            *self == Axis::Y ==> r == (Axis::X, Axis::Z),
            *self == Axis::Z ==> r == (Axis::X, Axis::Y),
    {
        match self {
            Axis::X => (Axis::Y, Axis::Z),
            Axis::Y => (Axis::X, Axis::Z),
            Axis::Z => (Axis::X, Axis::Y),
        }
    }
}

} // verus!
