//! The piece catalog: the seven shapes, their canonical cell offsets,
//! the fixed shape/index correspondence and random selection.

use vstd::prelude::*;

verus! {

/// A coordinate pair `(dx, dy)` relative to a piece's pivot, y grows downward.
pub type Point = (i32, i32);

/// The seven standard piece shapes.
#[derive(Clone, Copy, Debug)]
pub enum TetrominoShape {
    I,
    O,
    T,
    S,
    Z,
    J,
    L,
}

/// The fixed index of a shape: I=0, O=1, T=2, S=3, Z=4, J=5, L=6.
/// Statistics slots and cell colour values rely on this order.
pub open spec fn shape_index(s: TetrominoShape) -> int {
    match s {
        TetrominoShape::I => 0,
        TetrominoShape::O => 1,
        TetrominoShape::T => 2,
        TetrominoShape::S => 3,
        TetrominoShape::Z => 4,
        TetrominoShape::J => 5,
        TetrominoShape::L => 6,
    }
}

/// The shape at a given index; every index from 6 upward maps to L,
/// matching the catch-all arm of `from_index`.
pub open spec fn index_shape(i: int) -> TetrominoShape {
    if i == 0 {
        TetrominoShape::I
    } else if i == 1 {
        TetrominoShape::O
    } else if i == 2 {
        TetrominoShape::T
    } else if i == 3 {
        TetrominoShape::S
    } else if i == 4 {
        TetrominoShape::Z
    } else if i == 5 {
        TetrominoShape::J
    } else {
        TetrominoShape::L
    }
}

/// The four canonical relative offsets of a shape in spawn orientation.
pub open spec fn spec_cells(s: TetrominoShape) -> Seq<Point> {
    match s {
        TetrominoShape::I => seq![(0i32, 0i32), (-1i32, 0i32), (1i32, 0i32), (2i32, 0i32)],
        TetrominoShape::O => seq![(0i32, 0i32), (1i32, 0i32), (0i32, 1i32), (1i32, 1i32)],
        TetrominoShape::T => seq![(0i32, 0i32), (-1i32, 0i32), (1i32, 0i32), (0i32, 1i32)],
        TetrominoShape::S => seq![(0i32, 0i32), (-1i32, 0i32), (0i32, 1i32), (1i32, 1i32)],
        TetrominoShape::Z => seq![(0i32, 0i32), (1i32, 0i32), (0i32, 1i32), (-1i32, 1i32)],
        TetrominoShape::J => seq![(0i32, 0i32), (-1i32, 0i32), (1i32, 0i32), (-1i32, 1i32)],
        TetrominoShape::L => seq![(0i32, 0i32), (-1i32, 0i32), (1i32, 0i32), (1i32, 1i32)],
    }
}

/// The shape/index correspondence is a bijection between the seven shapes
/// and the indices 0 through 6.
pub proof fn lemma_shape_index_bijective()
    ensures
        forall|s: TetrominoShape| index_shape(#[trigger] shape_index(s)) == s,
        forall|i: int| 0 <= i < 7 ==> shape_index(#[trigger] index_shape(i)) == i,
        forall|s: TetrominoShape| 0 <= #[trigger] shape_index(s) < 7,
{
}

/// Relies on rand::random_range: returns a value drawn from the given
/// range, here 0..7, using the thread-local generator.
#[verifier::external_body]
fn random_index() -> (r: usize)
    ensures
        r < 7,
{
    rand::random_range(0..7usize)
}

impl TetrominoShape {
    /// Picks one of the seven shapes at random; every shape is a possible
    /// outcome, so callers learn nothing beyond the result being a shape.
    pub fn random() -> Self {
        TetrominoShape::from_index(random_index())
    }

    pub fn from_index(index: usize) -> (s: Self)
        ensures
            s == index_shape(index as int),
    {
        match index {
            0 => TetrominoShape::I,
            1 => TetrominoShape::O,
            2 => TetrominoShape::T,
            3 => TetrominoShape::S,
            4 => TetrominoShape::Z,
            5 => TetrominoShape::J,
            _ => TetrominoShape::L,
        }
    }

    pub fn to_index(&self) -> (i: usize)
        ensures
            i == shape_index(*self),
    {
        match self {
            TetrominoShape::I => 0,
            TetrominoShape::O => 1,
            TetrominoShape::T => 2,
            TetrominoShape::S => 3,
            TetrominoShape::Z => 4,
            TetrominoShape::J => 5,
            TetrominoShape::L => 6,
        }
    }

    /// Returns the four relative offsets of this shape's spawn orientation.
    pub fn cells(&self) -> (r: [Point; 4])
        ensures
            r@ == spec_cells(*self),
    {
        let r: [Point; 4] = match self {
            TetrominoShape::I => [(0, 0), (-1, 0), (1, 0), (2, 0)],
            TetrominoShape::O => [(0, 0), (1, 0), (0, 1), (1, 1)],
            TetrominoShape::T => [(0, 0), (-1, 0), (1, 0), (0, 1)],
            TetrominoShape::S => [(0, 0), (-1, 0), (0, 1), (1, 1)],
            TetrominoShape::Z => [(0, 0), (1, 0), (0, 1), (-1, 1)],
            TetrominoShape::J => [(0, 0), (-1, 0), (1, 0), (-1, 1)],
            TetrominoShape::L => [(0, 0), (-1, 0), (1, 0), (1, 1)],
        };
        proof {
            assert(r@ =~= spec_cells(*self));
        }
        r
    }
}

} // verus!
