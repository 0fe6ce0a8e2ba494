use vstd::prelude::*;
use crate::geosphere::cube::CubeInstance;

verus! {

/// One cell of the world: the cube it holds, if any, and which of its six faces are drawn.
#[derive(Clone, Copy, Debug)]
pub struct Slot {
    pub cube_instance: Option<CubeInstance>,
    pub display_upward_quad: bool,
    pub display_downward_quad: bool,
    pub display_left_quad: bool,
    pub display_right_quad: bool,
    pub display_front_quad: bool,
    pub display_back_quad: bool,
}

impl Slot {
    /// An empty slot with every face drawn.
    pub open spec fn spec_default() -> Slot {
        Slot {
            cube_instance: None,
            display_upward_quad: true,
            display_downward_quad: true,
            display_left_quad: true,
            display_right_quad: true,
            display_front_quad: true,
            display_back_quad: true,
        }
    }
}

impl Default for Slot {
    fn default() -> (r: Slot)
        ensures
            r == Slot::spec_default(),
    {
        Slot {
            cube_instance: None,
            display_upward_quad: true,
            display_downward_quad: true,
            display_left_quad: true,
            display_right_quad: true,
            display_front_quad: true,
            display_back_quad: true,
        }
    }
}

} // verus!
