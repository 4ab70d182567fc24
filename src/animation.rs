use vstd::prelude::*;

verus! {

/// The outcome of one tile during a single move: where it started, where it
/// ended, and whether it combined with another tile there.
#[derive(Clone, Copy, Debug, PartialEq, Eq, Structural)]
pub struct AnimationStep {
    pub from_x: usize,
    pub from_y: usize,
    pub to_x: usize,
    pub to_y: usize,
    pub is_merge: bool,
}

impl AnimationStep {
    pub fn new(from_x: usize, from_y: usize, to_x: usize, to_y: usize, is_merge: bool) -> (r: Self)
        ensures
            r == (AnimationStep { from_x, from_y, to_x, to_y, is_merge }),
    {
        AnimationStep { from_x, from_y, to_x, to_y, is_merge }
    }
}

} // verus!
