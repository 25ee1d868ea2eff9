use vstd::prelude::*;

verus! {

/// A grid cell together with the cell the agent occupied just before it.
/// The pair encodes the heading implicitly: the heading is the vector from
/// `(previous_x, previous_y)` to `(x, y)`.
#[derive(Debug, Copy, Clone, PartialEq, Eq, Structural)]
pub struct Position {
    pub x: i32,
    pub y: i32,
    pub previous_x: i32,
    pub previous_y: i32,
}

/// `v` is representable as an `i32`.
pub open spec fn fits_i32(v: int) -> bool {
    i32::MIN <= v <= i32::MAX
}

impl Position {
    /// Horizontal component of the heading.
    pub open spec fn dx(self) -> int {
        self.x - self.previous_x
    }

    /// Vertical component of the heading.
    pub open spec fn dy(self) -> int {
        self.y - self.previous_y
    }

    /// The previous cell is exactly one orthogonal step away, so the heading
    /// is one of the four grid directions.
    pub open spec fn unit_step(self) -> bool {
        ||| self.dx() == 0 && (self.dy() == 1 || self.dy() == -1)
        ||| self.dy() == 0 && (self.dx() == 1 || self.dx() == -1)
    }

    pub fn new(x: i32, y: i32, previous_x: i32, previous_y: i32) -> (p: Position)
        ensures
            p == (Position { x, y, previous_x, previous_y }),
    {
        Position { x, y, previous_x, previous_y }
    }
}

/// The three successor positions of `p`, as the triple
/// (forward, starboard, larboard), relative to the heading of `p`.
///
/// With a nonzero horizontal delta `dx`, forward advances `x` by `dx` and the
/// lateral moves hold `x` fixed and shift `y` by `+dx` (starboard) or `-dx`
/// (larboard). Otherwise the vertical delta `dy` is used symmetrically:
/// forward advances `y` by `dy`, starboard shifts `x` by `-dy`, larboard by
/// `+dy`. Every successor records the current cell of `p` as its previous
/// cell, so the heading always rotates relative to the immediately preceding
/// position.
pub open spec fn move_targets(p: Position) -> (Position, Position, Position) {
    let dx = p.dx();
    let dy = p.dy();
    if dx != 0 {
        (
            Position { x: (p.x + dx) as i32, y: p.y, previous_x: p.x, previous_y: p.y },
            Position { x: p.x, y: (p.y + dx) as i32, previous_x: p.x, previous_y: p.y },
            Position { x: p.x, y: (p.y - dx) as i32, previous_x: p.x, previous_y: p.y },
        )
    } else {
        (
            Position { x: p.x, y: (p.y + dy) as i32, previous_x: p.x, previous_y: p.y },
            Position { x: (p.x - dy) as i32, y: p.y, previous_x: p.x, previous_y: p.y },
            Position { x: (p.x + dy) as i32, y: p.y, previous_x: p.x, previous_y: p.y },
        )
    }
}

/// All coordinates produced by `move_targets(p)` are representable.
pub open spec fn move_targets_fit(p: Position) -> bool {
    &&& fits_i32(p.dx())
    &&& fits_i32(p.dy())
    &&& if p.dx() != 0 {
        fits_i32(p.x + p.dx()) && fits_i32(p.y + p.dx()) && fits_i32(p.y - p.dx())
    } else {
        fits_i32(p.y + p.dy()) && fits_i32(p.x - p.dy()) && fits_i32(p.x + p.dy())
    }
}

/// Computes the three successor positions (forward, starboard, larboard) of
/// `position` relative to its heading.
pub fn moves(position: &Position) -> (r: (Position, Position, Position))
    requires
        move_targets_fit(*position),
    ensures
        r == move_targets(*position),
{
    let dx = position.x - position.previous_x;
    let dy = position.y - position.previous_y;
    if dx != 0 {
        (
            Position::new(position.x + dx, position.y, position.x, position.y),
            Position::new(position.x, position.y + dx, position.x, position.y),
            Position::new(position.x, position.y - dx, position.x, position.y),
        )
    } else {
        (
            Position::new(position.x, position.y + dy, position.x, position.y),
            Position::new(position.x - dy, position.y, position.x, position.y),
            Position::new(position.x + dy, position.y, position.x, position.y),
        )
    }
}

/// Law (heading derivation, horizontal case): with a nonzero horizontal delta
/// `dx`, the forward successor changes `x` by exactly `dx` and leaves `y`
/// unchanged, the lateral successors leave `x` unchanged and shift `y` by
/// `dx` and `-dx`, and the vertical history (`previous_y`) of the input plays
/// no part: only the horizontal delta generates all three successors.
pub proof fn lemma_heading_derivation_horizontal(p: Position, q: Position)
    requires
        p.dx() != 0,
        move_targets_fit(p),
        q.x == p.x,
        q.y == p.y,
        q.previous_x == p.previous_x,
    ensures
        move_targets(p).0.x == p.x + p.dx() && move_targets(p).0.y == p.y,
        move_targets(p).1.x == p.x && move_targets(p).1.y == p.y + p.dx(),
        move_targets(p).2.x == p.x && move_targets(p).2.y == p.y - p.dx(),
        move_targets(q) == move_targets(p),
{
}

/// Law (heading derivation, vertical case): with a zero horizontal delta the
/// vertical delta `dy` alone generates all three successors: forward changes
/// `y` by exactly `dy` and leaves `x` unchanged, and the lateral successors
/// leave `y` unchanged and shift `x` by `-dy` and `dy`.
pub proof fn lemma_heading_derivation_vertical(p: Position)
    requires
        p.dx() == 0,
        move_targets_fit(p),
    ensures
        move_targets(p).0.x == p.x && move_targets(p).0.y == p.y + p.dy(),
        move_targets(p).1.x == p.x - p.dy() && move_targets(p).1.y == p.y,
        move_targets(p).2.x == p.x + p.dy() && move_targets(p).2.y == p.y,
{
}

} // verus!
