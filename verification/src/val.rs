use vstd::prelude::*;

verus! {

/// A runtime value of the evaluator: a number, or the unit value of a
/// construct that produces nothing.
#[derive(Clone, Copy, Debug, PartialEq, Eq, Structural)]
pub enum Val {
    Number(i32),
    Unit,
}

} // verus!
