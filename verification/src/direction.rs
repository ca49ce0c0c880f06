use vstd::prelude::*;

verus! {

/// One of the four cardinal neighbor directions.
#[derive(Clone, Copy, Debug, PartialEq, Eq, Structural)]
pub enum Direction {
    North,
    South,
    East,
    West,
}

impl Direction {
    /// The unit grid offset this direction stands for.
    pub open spec fn spec_offsets(self) -> (int, int) {
        match self {
            Direction::North => (0int, -1int),
            Direction::South => (0int, 1int),
            Direction::East => (-1int, 0int),
            Direction::West => (1int, 0int),
        }
    }

    pub fn offsets(self) -> (r: (i32, i32))
        ensures
            (r.0 as int, r.1 as int) == self.spec_offsets(),
    {
        match self {
            Direction::North => (0, -1),
            Direction::South => (0, 1),
            Direction::East => (-1, 0),
            Direction::West => (1, 0),
        }
    }

    /// The slot this direction occupies in the adjacency table layout.
    pub open spec fn spec_dir_index(self) -> int {
        match self {
            Direction::North => 0int,
            Direction::South => 1int,
            Direction::East => 2int,
            Direction::West => 3int,
        }
    }

    pub fn dir_index(self) -> (r: usize)
        ensures
            r as int == self.spec_dir_index(),
            r < 4,
    {
        match self {
            Direction::North => 0,
            Direction::South => 1,
            Direction::East => 2,
            Direction::West => 3,
        }
    }

    /// The direction stored at a given adjacency table slot.
    pub open spec fn spec_from_index(d: int) -> Direction {
        if d == 0 {
            Direction::North
        } else if d == 1 {
            Direction::South
        } else if d == 2 {
            Direction::East
        } else {
            Direction::West
        }
    }

    pub fn from_index(d: usize) -> (r: Direction)
        ensures
            r == Direction::spec_from_index(d as int),
            d < 4 ==> r.spec_dir_index() == d as int,
    {
        if d == 0 {
            Direction::North
        } else if d == 1 {
            Direction::South
        } else if d == 2 {
            Direction::East
        } else {
            Direction::West
        }
    }
}

} // verus!
