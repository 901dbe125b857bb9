//! Parameters of a generation run and the per-level adjacency rules.
use vstd::prelude::*;

verus! {

/// One of the four grid directions, from a cell to its neighbour.
#[derive(Clone, Copy, Debug, PartialEq, Eq, Structural)]
pub enum Direction {
    Top,
    Bottom,
    Left,
    Right,
}

impl Direction {
    /// Column offset of the neighbour in this direction.
    pub open spec fn dx(self) -> int {
        match self {
            Direction::Left => -1,
            Direction::Right => 1,
            _ => 0,
        }
    }

    /// Row offset of the neighbour in this direction (rows grow downwards).
    pub open spec fn dy(self) -> int {
        match self {
            Direction::Top => -1,
            Direction::Bottom => 1,
            _ => 0,
        }
    }
}

/// The levels observed next to cells of one level, per direction.
#[derive(Debug)]
pub struct DirectionalRules {
    pub top: Vec<u8>,
    pub bottom: Vec<u8>,
    pub left: Vec<u8>,
    pub right: Vec<u8>,
}

impl DirectionalRules {
    /// The levels recorded for direction `d`.
    pub open spec fn spec_levels(&self, d: Direction) -> Seq<u8> {
        match d {
            Direction::Top => self.top@,
            Direction::Bottom => self.bottom@,
            Direction::Left => self.left@,
            Direction::Right => self.right@,
        }
    }

    /// Rules with no level recorded in any direction.
    pub fn new() -> (r: DirectionalRules)
        ensures
            forall|d: Direction| #[trigger] r.spec_levels(d).len() == 0,
    {
        DirectionalRules { top: Vec::new(), bottom: Vec::new(), left: Vec::new(), right: Vec::new() }
    }

    /// The levels recorded for direction `d`.
    pub fn levels(&self, d: Direction) -> (r: &Vec<u8>)
        ensures
            r@ == self.spec_levels(d),
    {
        match d {
            Direction::Top => &self.top,
            Direction::Bottom => &self.bottom,
            Direction::Left => &self.left,
            Direction::Right => &self.right,
        }
    }
}

/// Parameters of one generation run.
#[derive(Debug)]
pub struct Config {
    pub input_image: String,
    pub output_width: u32,
    pub output_height: u32,
    pub tile_size: u32,
    pub luminance_levels: u8,
}

} // verus!
