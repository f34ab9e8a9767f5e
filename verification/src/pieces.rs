//! The names of the cube's parts: faces, moves, corners, edges, and the ways
//! in which a state can fail to be solvable.

use vstd::prelude::*;

verus! {

/// Number of corners on a 3x3x3 cube.
pub const NUM_CORNERS: usize = 8;

/// Number of edges on a 3x3x3 cube.
pub const NUM_EDGES: usize = 12;

/// The faces on a 3x3x3 cube.
#[derive(Clone, Copy, Debug, PartialEq, Eq, Structural)]
pub enum Face {
    U,
    R,
    F,
    D,
    B,
    L,
}

impl Face {
    /// The index of the face, in the order U, R, F, D, B, L.
    pub open spec fn spec_index(self) -> int {
        match self {
            Face::U => 0,
            Face::R => 1,
            Face::F => 2,
            Face::D => 3,
            Face::B => 4,
            Face::L => 5,
        }
    }

    /// Whether `self` and `other` lie on the same axis, on opposite sides.
    pub open spec fn spec_is_opposite(self, other: Face) -> bool {
        match self {
            Face::U => other == Face::D,
            Face::D => other == Face::U,
            Face::F => other == Face::B,
            Face::B => other == Face::F,
            Face::R => other == Face::L,
            Face::L => other == Face::R,
        }
    }

    /// The index of the face, in the order U, R, F, D, B, L.
    pub fn index(self) -> (i: usize)
        ensures
            i == self.spec_index(),
            i < 6,
    {
        match self {
            Face::U => 0,
            Face::R => 1,
            Face::F => 2,
            Face::D => 3,
            Face::B => 4,
            Face::L => 5,
        }
    }

    /// Whether `self` and `other` lie on the same axis, on opposite sides.
    pub fn is_opposite(self, other: Face) -> (b: bool)
        ensures
            b == self.spec_is_opposite(other),
    {
        match self {
            Face::U => other == Face::D,
            Face::D => other == Face::U,
            Face::F => other == Face::B,
            Face::B => other == Face::F,
            Face::R => other == Face::L,
            Face::L => other == Face::R,
        }
    }
}

impl From<Face> for usize {
    fn from(face: Face) -> (i: usize) {
        face.index()
    }
}

impl vstd::std_specs::convert::FromSpecImpl<Face> for usize {
    open spec fn obeys_from_spec() -> bool {
        true
    }

    open spec fn from_spec(face: Face) -> usize {
        face.spec_index() as usize
    }
}

/// A move on a 3x3x3 cube: a face and the number of quarter turns.
#[derive(Clone, Copy, Debug, PartialEq, Eq, Structural)]
pub struct Move(pub Face, pub u8);

/// The corners on a 3x3x3 cube.
#[derive(Clone, Copy, Debug, PartialEq, Eq, Structural, PartialOrd)]
pub enum Corner {
    URF,
    UFL,
    ULB,
    UBR,
    DFR,
    DLF,
    DBL,
    DRB,
}

impl Corner {
    /// The place of the corner in the solved cube.
    pub open spec fn spec_index(self) -> int {
        match self {
            Corner::URF => 0,
            Corner::UFL => 1,
            Corner::ULB => 2,
            Corner::UBR => 3,
            Corner::DFR => 4,
            Corner::DLF => 5,
            Corner::DBL => 6,
            Corner::DRB => 7,
        }
    }

    /// The place of the corner in the solved cube.
    pub fn index(self) -> (i: usize)
        ensures
            i == self.spec_index(),
            i < 8,
    {
        match self {
            Corner::URF => 0,
            Corner::UFL => 1,
            Corner::ULB => 2,
            Corner::UBR => 3,
            Corner::DFR => 4,
            Corner::DLF => 5,
            Corner::DBL => 6,
            Corner::DRB => 7,
        }
    }

    /// The corner whose place in the solved cube is `i`.
    pub fn from_index(i: usize) -> (c: Corner)
        requires
            i < 8,
        ensures
            c.spec_index() == i,
    {
        if i == 0 {
            Corner::URF
        } else if i == 1 {
            Corner::UFL
        } else if i == 2 {
            Corner::ULB
        } else if i == 3 {
            Corner::UBR
        } else if i == 4 {
            Corner::DFR
        } else if i == 5 {
            Corner::DLF
        } else if i == 6 {
            Corner::DBL
        } else {
            Corner::DRB
        }
    }
}

/// The edges on a 3x3x3 cube.
#[derive(Clone, Copy, Debug, PartialEq, Eq, Structural, PartialOrd)]
pub enum Edge {
    UR,
    UF,
    UL,
    UB,
    DR,
    DF,
    DL,
    DB,
    FR,
    FL,
    BL,
    BR,
}

impl Edge {
    /// The place of the edge in the solved cube.
    pub open spec fn spec_index(self) -> int {
        match self {
            Edge::UR => 0,
            Edge::UF => 1,
            Edge::UL => 2,
            Edge::UB => 3,
            Edge::DR => 4,
            Edge::DF => 5,
            Edge::DL => 6,
            Edge::DB => 7,
            Edge::FR => 8,
            Edge::FL => 9,
            Edge::BL => 10,
            Edge::BR => 11,
        }
    }

    /// The place of the edge in the solved cube.
    pub fn index(self) -> (i: usize)
        ensures
            i == self.spec_index(),
            i < 12,
    {
        match self {
            Edge::UR => 0,
            Edge::UF => 1,
            Edge::UL => 2,
            Edge::UB => 3,
            Edge::DR => 4,
            Edge::DF => 5,
            Edge::DL => 6,
            Edge::DB => 7,
            Edge::FR => 8,
            Edge::FL => 9,
            Edge::BL => 10,
            Edge::BR => 11,
        }
    }

    /// The edge whose place in the solved cube is `i`.
    pub fn from_index(i: usize) -> (e: Edge)
        requires
            i < 12,
        ensures
            e.spec_index() == i,
    {
        if i == 0 {
            Edge::UR
        } else if i == 1 {
            Edge::UF
        } else if i == 2 {
            Edge::UL
        } else if i == 3 {
            Edge::UB
        } else if i == 4 {
            Edge::DR
        } else if i == 5 {
            Edge::DF
        } else if i == 6 {
            Edge::DL
        } else if i == 7 {
            Edge::DB
        } else if i == 8 {
            Edge::FR
        } else if i == 9 {
            Edge::FL
        } else if i == 10 {
            Edge::BL
        } else {
            Edge::BR
        }
    }
}

/// An error for the different invalid cube states.
#[derive(Clone, Copy, Debug, PartialEq, Eq, Structural)]
pub enum CubeStateErr {
    ErrEO,
    ErrCO,
    ErrEP,
    ErrCP,
    ErrParity,
}

} // verus!
