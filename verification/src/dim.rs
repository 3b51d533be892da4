use vstd::prelude::*;

verus! {

/// One of the two coordinate axes a node may split on.
#[derive(Debug, PartialEq, Eq, Structural, Clone, Copy)]
pub enum Dim {
    X,
    Y,
}

/// The splitting axis for a given tree depth: `X` at even depths, `Y` at odd
/// depths, cycling with period two.
pub open spec fn axis_of(depth: nat) -> Dim {
    if depth % 2 == 0 {
        Dim::X
    } else {
        Dim::Y
    }
}

impl Dim {
    /// The axis a node created at depth `n` splits on. Only two dimensions
    /// exist, so the depth is reduced modulo two.
    pub fn from_depth(n: usize) -> (d: Dim)
        ensures
            d == axis_of(n as nat),
    {
        let m: usize = n % 2;
        if m == 0 {
            Dim::X
        } else {
            Dim::Y
        }
    }
}

} // verus!
