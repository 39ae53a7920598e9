//! The board and the values that every agent and strategy shares:
//! dimensions, points, facings and moves.

use vstd::prelude::*;

verus! {

/// Width and height of the board, in cells.
#[derive(Clone, Copy, Debug, PartialEq, Eq, Structural)]
pub struct Dimension {
    pub width: usize,
    pub height: usize,
}

impl Dimension {
    /// Both sides are positive and every column and row fits in an `isize`.
    pub open spec fn wf(self) -> bool {
        &&& 0 < self.width <= isize::MAX
        &&& 0 < self.height <= isize::MAX
    }

    /// The cell `(x, y)` lies on the board.
    pub open spec fn contains(self, x: int, y: int) -> bool {
        0 <= x < self.width && 0 <= y < self.height
    }
}

impl Default for Dimension {
    fn default() -> (r: Self)
        ensures
            r.width == 20,
            r.height == 20,
    {
        Dimension { width: 20, height: 20 }
    }
}

/// A cell of the board; `y` grows southwards.
#[derive(Clone, Copy, Debug, PartialEq, Eq, Structural)]
pub struct BoardPoint {
    pub x: isize,
    pub y: isize,
}

impl Default for BoardPoint {
    fn default() -> (r: Self)
        ensures
            r.x == 0,
            r.y == 0,
    {
        BoardPoint { x: 0, y: 0 }
    }
}

impl BoardPoint {
    /// The point `k` cells away from `self` in direction `d`.
    pub open spec fn shifted(self, d: Direction, k: int) -> (int, int) {
        match d {
            Direction::North => (self.x as int, self.y - k),
            Direction::East => (self.x + k, self.y as int),
            Direction::South => (self.x as int, self.y + k),
            Direction::West => (self.x - k, self.y as int),
        }
    }

    /// Whether `self` is the cell `c`.
    pub open spec fn at(self, c: (int, int)) -> bool {
        self.x == c.0 && self.y == c.1
    }

    pub fn with_offset(&self, direction: Direction, offset: isize) -> (r: Self)
        requires
            isize::MIN <= self.shifted(direction, offset as int).0 <= isize::MAX,
            isize::MIN <= self.shifted(direction, offset as int).1 <= isize::MAX,
        ensures
            r.at(self.shifted(direction, offset as int)),
    {
        match direction {
            Direction::North => BoardPoint { x: self.x, y: self.y - offset },
            Direction::East => BoardPoint { x: self.x + offset, y: self.y },
            Direction::South => BoardPoint { x: self.x, y: self.y + offset },
            Direction::West => BoardPoint { x: self.x - offset, y: self.y },
        }
    }
}

/// A facing on the board.
#[derive(Clone, Copy, Debug, PartialEq, Eq, Structural)]
pub enum Direction {
    North,
    East,
    South,
    West,
}

impl Default for Direction {
    fn default() -> (r: Self)
        ensures
            r == Direction::North,
    {
        Direction::North
    }
}

impl Direction {
    /// Column step of one cell in this direction.
    pub open spec fn dx(self) -> int {
        match self {
            Direction::North => 0,
            Direction::East => 1,
            Direction::South => 0,
            Direction::West => -1,
        }
    }

    /// Row step of one cell in this direction.
    pub open spec fn dy(self) -> int {
        match self {
            Direction::North => -1,
            Direction::East => 0,
            Direction::South => 1,
            Direction::West => 0,
        }
    }

    /// A quarter turn to the right.
    pub open spec fn right(self) -> Direction {
        match self {
            Direction::North => Direction::East,
            Direction::East => Direction::South,
            Direction::South => Direction::West,
            Direction::West => Direction::North,
        }
    }

    /// A quarter turn to the left.
    pub open spec fn left(self) -> Direction {
        match self {
            Direction::North => Direction::West,
            Direction::East => Direction::North,
            Direction::South => Direction::East,
            Direction::West => Direction::South,
        }
    }

    pub fn x(&self) -> (r: isize)
        ensures
            r == self.dx(),
    {
        match *self {
            Direction::North => 0,
            Direction::East => 1,
            Direction::South => 0,
            Direction::West => -1,
        }
    }

    pub fn y(&self) -> (r: isize)
        ensures
            r == self.dy(),
    {
        match *self {
            Direction::North => -1,
            Direction::East => 0,
            Direction::South => 1,
            Direction::West => 0,
        }
    }

    pub fn clockwise(&self) -> (r: Direction)
        ensures
            r == self.right(),
    {
        match *self {
            Direction::North => Direction::East,
            Direction::East => Direction::South,
            Direction::South => Direction::West,
            Direction::West => Direction::North,
        }
    }

    pub fn counter_clockwise(&self) -> (r: Direction)
        ensures
            r == self.left(),
    {
        match *self {
            Direction::North => Direction::West,
            Direction::East => Direction::North,
            Direction::South => Direction::East,
            Direction::West => Direction::South,
        }
    }

    pub fn opposite(&self) -> (r: Direction)
        ensures
            r == self.right().right(),
            r.dx() == -self.dx(),
            r.dy() == -self.dy(),
    {
        match *self {
            Direction::North => Direction::South,
            Direction::East => Direction::West,
            Direction::South => Direction::North,
            Direction::West => Direction::East,
        }
    }
}

/// Turning right and turning left undo each other, and four turns the same
/// way come back to the start.
pub proof fn lemma_turns_cycle(d: Direction)
    ensures
        d.right().left() == d,
        d.left().right() == d,
        d.right().right().right().right() == d,
        d.left().left().left().left() == d,
{
}

/// What an agent does in one turn.
#[derive(Clone, Copy, Debug, PartialEq, Eq, Structural)]
pub enum Move {
    Fire,
    TurnLeft,
    Forward,
    TurnRight,
    Wait,
}

/// The move that a drawn number stands for.
pub open spec fn sampled_move(n: u32) -> Move {
    if n == 0 {
        Move::Fire
    } else if n == 1 {
        Move::TurnLeft
    } else if n == 2 {
        Move::Forward
    } else if n == 3 {
        Move::TurnRight
    } else {
        Move::Wait
    }
}

/// Maps a number drawn at random to a move.
pub fn move_from_sample(n: u32) -> (r: Move)
    ensures
        r == sampled_move(n),
{
    match n {
        0 => Move::Fire,
        1 => Move::TurnLeft,
        2 => Move::Forward,
        3 => Move::TurnRight,
        _ => Move::Wait,
    }
}

/// What a strategy is told of one agent.
#[derive(Clone, Copy, Debug, PartialEq, Eq, Structural)]
pub struct TankStatus {
    pub direction: Direction,
    pub location: BoardPoint,
    pub is_alive: bool,
}

/// The observation handed to a strategy: the board, its own agent, every other
/// agent in roster order, and the range of a shot.
#[derive(Debug)]
pub struct NextMoveInput {
    pub game_board: Dimension,
    pub own_status: TankStatus,
    pub opponent_status: Vec<TankStatus>,
    pub fire_range: usize,
}

impl NextMoveInput {
    /// The board is well formed, every agent stands on it, and every cell
    /// within a shot's range of the board has coordinates that fit in an
    /// `isize`.
    pub open spec fn wf(&self) -> bool {
        &&& self.game_board.wf()
        &&& self.game_board.width + self.fire_range <= isize::MAX
        &&& self.game_board.height + self.fire_range <= isize::MAX
        &&& self.game_board.contains(self.own_status.location.x as int, self.own_status.location.y as int)
        &&& forall|i: int|
            0 <= i < self.opponent_status@.len() ==> #[trigger] self.game_board.contains(
                self.opponent_status@[i].location.x as int,
                self.opponent_status@[i].location.y as int,
            )
    }
}

} // verus!
