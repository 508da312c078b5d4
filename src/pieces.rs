//! Pieces, their edges and their rotations.

use vstd::prelude::*;

verus! {

/// Position of each edge inside a piece's `sides`.
pub const TOP: usize = 0;
/// See [`TOP`].
pub const RIGHT: usize = 1;
/// See [`TOP`].
pub const BOTTOM: usize = 2;
/// See [`TOP`].
pub const LEFT: usize = 3;

/// One edge of a piece: 0 is flat, a positive value a blank and a negative
/// one a tab of the same shape.
#[derive(Debug, Clone, Copy, PartialEq, Eq, Structural)]
pub struct Side(pub i8);

impl Side {
    /// Two edges interlock when their values cancel out.
    pub open spec fn interlocks(self, other: Side) -> bool {
        self.0 + other.0 == 0
    }

    /// Whether the two edges interlock.
    pub fn matches(&self, other: &Side) -> (r: bool)
        ensures
            r == self.interlocks(*other),
    {
        (self.0 as i16) + (other.0 as i16) == 0
    }
}

/// A piece: its identity and its edges as generated, in the order
/// top, right, bottom, left.
#[derive(Debug, Clone, Copy, PartialEq, Eq)]
pub struct Piece {
    pub id: usize,
    pub sides: [Side; 4],
}

/// A quarter turn count; each turn moves left to top, top to right,
/// right to bottom and bottom to left.
#[derive(Debug, Clone, Copy, PartialEq, Eq, Structural)]
pub enum Rotation {
    Degrees0,
    Degrees90,
    Degrees180,
    Degrees270,
}

/// A piece as it lies in the grid: its edges already turned by `rotation`.
#[derive(Debug, Clone, Copy, PartialEq, Eq)]
pub struct PieceState {
    pub piece: Piece,
    pub rotation: Rotation,
}

/// The edges of `s` after turning it by `r`.
pub open spec fn rotated(s: Seq<Side>, r: Rotation) -> Seq<Side> {
    match r {
        Rotation::Degrees0 => s,
        Rotation::Degrees90 => seq![s[3], s[0], s[1], s[2]],
        Rotation::Degrees180 => seq![s[2], s[3], s[0], s[1]],
        Rotation::Degrees270 => seq![s[1], s[2], s[3], s[0]],
    }
}

impl PieceState {
    /// How far the piece is turned from its generated orientation.
    pub fn rotation(&self) -> (r: Rotation)
        ensures
            r == self.rotation,
    {
        self.rotation
    }

    /// The piece with its edges as they lie.
    pub fn as_ref(&self) -> (r: &Piece)
        ensures
            *r == self.piece,
    {
        &self.piece
    }
}

/// The four edges of `sides` after turning them by `rotation`.
pub fn rotate_sides(sides: &[Side; 4], rotation: Rotation) -> (r: [Side; 4])
    ensures
        r@ == rotated(sides@, rotation),
{
    let r = match rotation {
        Rotation::Degrees0 => *sides,
        Rotation::Degrees90 => [sides[3], sides[0], sides[1], sides[2]],
        Rotation::Degrees180 => [sides[2], sides[3], sides[0], sides[1]],
        Rotation::Degrees270 => [sides[1], sides[2], sides[3], sides[0]],
    };
    assert(r@ =~= rotated(sides@, rotation));
    r
}


/// A rotation as a number of quarter turns.
pub open spec fn quarter_turns(r: Rotation) -> int {
    match r {
        Rotation::Degrees0 => 0,
        Rotation::Degrees90 => 1,
        Rotation::Degrees180 => 2,
        Rotation::Degrees270 => 3,
    }
}

} // verus!
