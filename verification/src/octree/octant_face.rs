use vstd::prelude::*;

verus! {

/// The six faces of an axis aligned cube.
#[derive(Eq, PartialEq, Structural, Debug, Copy, Clone)]
pub enum OctantFace {
    Back,
    Up,
    Front,
    Down,
    Right,
    Left,
}

impl OctantFace {
    /// The number of the face: `Back` is 0, `Up` 1, `Front` 2, `Down` 3, `Right` 4 and `Left` 5.
    pub open spec fn spec_number(self) -> nat {
        match self {
            OctantFace::Back => 0,
            OctantFace::Up => 1,
            OctantFace::Front => 2,
            OctantFace::Down => 3,
            OctantFace::Right => 4,
            OctantFace::Left => 5,
        }
    }

    pub fn to_usize(&self) -> (r: usize)
        ensures
            r == self.spec_number(),
    {
        match self {
            OctantFace::Back => 0,
            OctantFace::Up => 1,
            OctantFace::Front => 2,
            OctantFace::Down => 3,
            OctantFace::Right => 4,
            OctantFace::Left => 5,
        }
    }

    /// The face with number `n`, if there is one.
    pub fn from_usize(n: usize) -> (r: Option<OctantFace>)
        ensures
            n < 6 <==> r is Some,
            r matches Some(f) ==> f.spec_number() == n,
    {
        match n {
            0 => Some(OctantFace::Back),
            1 => Some(OctantFace::Up),
            2 => Some(OctantFace::Front),
            3 => Some(OctantFace::Down),
            4 => Some(OctantFace::Right),
            5 => Some(OctantFace::Left),
            _ => None,
        }
    }
}

} // verus!
