//! A benchmark circuit: a given number of trivial constraints `0 * 0 = 0`,
//! each on a fresh zero witness. Its synthesis into a constraint system is
//! done where the constraint system lives.
use vstd::prelude::*;

verus! {

/// A circuit of `num_constraints_target` trivial constraints.
#[derive(Clone, Debug)]
pub struct SimpleSha256Circuit {
    pub num_constraints_target: usize,
}

impl SimpleSha256Circuit {
    /// The circuit with the given number of constraints.
    pub fn new(num_constraints_target: usize) -> (c: Self)
        ensures
            c.num_constraints_target == num_constraints_target,
    {
        SimpleSha256Circuit { num_constraints_target }
    }
}

} // verus!
