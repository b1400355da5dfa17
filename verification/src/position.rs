use vstd::prelude::*;

verus! {

/// One of the four cardinal directions, or no movement at all.
#[derive(Clone, Copy, PartialEq, Eq, Structural, Debug)]
pub enum Direction {
    North,
    South,
    East,
    West,
    Still,
}

/// Horizontal displacement of one step in the direction.
pub open spec fn dir_dx(d: Direction) -> int {
    match d {
        Direction::East => 1,
        Direction::West => -1,
        _ => 0,
    }
}

/// Vertical displacement of one step in the direction (south grows y).
pub open spec fn dir_dy(d: Direction) -> int {
    match d {
        Direction::South => 1,
        Direction::North => -1,
        _ => 0,
    }
}

/// The cardinal directions in the order every scan walks them.
pub open spec fn all_cardinals() -> Seq<Direction> {
    seq![Direction::North, Direction::South, Direction::East, Direction::West]
}

impl Direction {
    pub fn get_all_cardinals() -> (dirs: Vec<Direction>)
        ensures
            dirs@ == all_cardinals(),
    {
        let mut dirs: Vec<Direction> = Vec::new();
        dirs.push(Direction::North);
        dirs.push(Direction::South);
        dirs.push(Direction::East);
        dirs.push(Direction::West);
        proof {
            assert(dirs@ =~= all_cardinals());
        }
        dirs
    }
}

/// An integer coordinate pair. It may lie outside the grid in either axis;
/// the grid normalizes it before using it as an index.
#[derive(Clone, Copy, PartialEq, Eq, Structural, Debug)]
pub struct Position {
    pub x: i32,
    pub y: i32,
}

impl Position {
    /// The position one step away in the given direction.
    pub fn directional_offset(&self, d: Direction) -> (p: Position)
        requires
            i32::MIN < self.x < i32::MAX,
            i32::MIN < self.y < i32::MAX,
        ensures
            p.x == self.x + dir_dx(d),
            p.y == self.y + dir_dy(d),
    {
        match d {
            Direction::North => Position { x: self.x, y: self.y - 1 },
            Direction::South => Position { x: self.x, y: self.y + 1 },
            Direction::East => Position { x: self.x + 1, y: self.y },
            Direction::West => Position { x: self.x - 1, y: self.y },
            Direction::Still => Position { x: self.x, y: self.y },
        }
    }
}

} // verus!
