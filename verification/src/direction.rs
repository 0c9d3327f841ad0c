use vstd::prelude::*;

verus! {

/// A direction from a cell to one of its four neighbours on the grid. Up is toward
/// smaller row numbers, Left toward smaller column numbers.
#[derive(PartialEq, Eq, Hash, Clone, Copy, Debug, Structural)]
pub enum Direction {
    Up,
    Down,
    Right,
    Left,
}

/// The four directions, in the order in which rules are built and checked.
pub const ALL_DIRECTIONS: [Direction; 4] = [
    Direction::Up,
    Direction::Down,
    Direction::Left,
    Direction::Right,
];

/// The number of directions: a rule table holds this many rules per pattern.
pub const NUM_DIRECTIONS: usize = 4;

/// The slot of a direction in a pattern's row of the rule table.
pub open spec fn direction_slot(direction: Direction) -> int {
    match direction {
        Direction::Up => 0,
        Direction::Down => 1,
        Direction::Right => 2,
        Direction::Left => 3,
    }
}

/// The direction whose slot is `slot`.
pub open spec fn direction_of_slot(slot: int) -> Direction {
    if slot == 0 {
        Direction::Up
    } else if slot == 1 {
        Direction::Down
    } else if slot == 2 {
        Direction::Right
    } else {
        Direction::Left
    }
}

impl Direction {
    /// The slot of this direction in a pattern's row of the rule table.
    pub fn index(self) -> (r: usize)
        ensures
            r == direction_slot(self),
            r < NUM_DIRECTIONS,
    {
        match self {
            Direction::Up => 0,
            Direction::Down => 1,
            Direction::Right => 2,
            Direction::Left => 3,
        }
    }

    /// The direction whose slot is `slot`.
    pub fn from_index(slot: usize) -> (r: Direction)
        requires
            slot < NUM_DIRECTIONS,
        ensures
            r == direction_of_slot(slot as int),
            direction_slot(r) == slot,
    {
        if slot == 0 {
            Direction::Up
        } else if slot == 1 {
            Direction::Down
        } else if slot == 2 {
            Direction::Right
        } else {
            Direction::Left
        }
    }
}

} // verus!
