use vstd::prelude::*;

verus! {

/// The colour of a player and of the pieces they own.
#[derive(Clone, Copy, Debug, PartialEq, Eq, Structural)]
pub enum Colour {
    White,
    Black,
}

impl Colour {
    pub open spec fn spec_next(self) -> Colour {
        match self {
            Colour::White => Colour::Black,
            Colour::Black => Colour::White,
        }
    }

    /// The other colour.
    pub fn next(self) -> (r: Colour)
        ensures
            r == self.spec_next(),
    {
        match self {
            Colour::White => Colour::Black,
            Colour::Black => Colour::White,
        }
    }
}

/// The shape of a piece.
#[derive(Clone, Copy, Debug, PartialEq, Eq, Structural)]
pub enum Shape {
    Flat,
    Standing,
    Capstone,
}

/// A direction on the board: `Up` raises `y`, `Right` raises `x`.
#[derive(Clone, Copy, Debug, PartialEq, Eq, Structural)]
pub enum Direction {
    Up,
    Down,
    Left,
    Right,
}

/// A move.
///
/// A spread carries pieces off the top of the stack at `(x, y)` and drops them
/// on the following squares in `direction`. The drop `pattern` is a bit mask:
/// its highest set bit gives the number of pieces carried (bit `k` set as the
/// highest means `k + 1` pieces), and reading from that bit down, every set
/// bit starts the drop on a new square. So `0b100` drops three pieces on one
/// square, `0b101` drops two then one, and `0b111` drops one on each of three.
#[derive(Clone, Copy, Debug, PartialEq, Eq, Structural)]
pub enum Turn {
    Place { x: usize, y: usize, shape: Shape },
    Spread { x: usize, y: usize, direction: Direction, pattern: u32 },
}

/// `2` to the power `k`.
pub open spec fn pow2(k: nat) -> nat
    decreases k,
{
    if k == 0 {
        1
    } else {
        2 * pow2((k - 1) as nat)
    }
}

/// The board sizes the rules know.
pub open spec fn valid_size(n: nat) -> bool {
    3 <= n <= 8
}

/// A move whose squares and pattern fit a board of size `n`.
pub open spec fn turn_fits(n: nat, t: Turn) -> bool {
    match t {
        Turn::Place { x, y, shape } => x < n && y < n,
        Turn::Spread { x, y, direction, pattern } => x < n && y < n && 1 <= pattern < pow2(n),
    }
}

} // verus!
