use vstd::prelude::*;

verus! {

/// One of the four compass directions from a cell towards a neighbour.
/// North is towards row 0, West towards column 0.
#[derive(Debug, Clone, Copy, PartialEq, Eq, Structural, Hash)]
pub enum Direction {
    N,
    W,
    E,
    S,
}

/// The direction pointing back the way `dir` came.
pub open spec fn opposite_spec(dir: Direction) -> Direction {
    match dir {
        Direction::N => Direction::S,
        Direction::S => Direction::N,
        Direction::E => Direction::W,
        Direction::W => Direction::E,
    }
}

/// Maps each direction to its opposite: North and South, East and West swap.
pub fn opposite(dir: Direction) -> (r: Direction)
    ensures
        r == opposite_spec(dir),
        opposite_spec(r) == dir,
        r != dir,
{
    match dir {
        Direction::N => Direction::S,
        Direction::S => Direction::N,
        Direction::E => Direction::W,
        Direction::W => Direction::E,
    }
}

/// The set of directions in which a cell has no wall.
#[derive(Debug, Clone, Copy, PartialEq, Eq, Structural, Hash)]
pub struct Openings {
    pub north: bool,
    pub west: bool,
    pub east: bool,
    pub south: bool,
}

impl Openings {
    /// Whether `dir` is open.
    pub open spec fn has(self, dir: Direction) -> bool {
        match dir {
            Direction::N => self.north,
            Direction::W => self.west,
            Direction::E => self.east,
            Direction::S => self.south,
        }
    }

    /// The same set with `dir` added.
    pub open spec fn with(self, dir: Direction) -> Openings {
        match dir {
            Direction::N => Openings { north: true, ..self },
            Direction::W => Openings { west: true, ..self },
            Direction::E => Openings { east: true, ..self },
            Direction::S => Openings { south: true, ..self },
        }
    }

    /// The set with no direction open.
    pub open spec fn none_spec() -> Openings {
        Openings { north: false, west: false, east: false, south: false }
    }

    /// A cell with walls on all four sides.
    pub fn closed() -> (r: Openings)
        ensures
            r == Openings::none_spec(),
    {
        Openings { north: false, west: false, east: false, south: false }
    }

    /// Whether no direction is open.
    pub open spec fn is_empty_spec(self) -> bool {
        !self.north && !self.west && !self.east && !self.south
    }

    /// Whether `dir` is open.
    pub fn contains(&self, dir: Direction) -> (r: bool)
        ensures
            r == self.has(dir),
    {
        match dir {
            Direction::N => self.north,
            Direction::W => self.west,
            Direction::E => self.east,
            Direction::S => self.south,
        }
    }

    /// Whether no direction is open.
    pub fn is_empty(&self) -> (r: bool)
        ensures
            r == self.is_empty_spec(),
    {
        !self.north && !self.west && !self.east && !self.south
    }

    /// Opens `dir`, leaving the other directions as they were.
    pub fn insert(&mut self, dir: Direction)
        ensures
            *final(self) == old(self).with(dir),
    {
        match dir {
            Direction::N => self.north = true,
            Direction::W => self.west = true,
            Direction::E => self.east = true,
            Direction::S => self.south = true,
        }
    }
}

} // verus!
