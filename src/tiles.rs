use vstd::prelude::*;

verus! {

/// What stands on one cell of the grid. Terrain never changes once a level exists.
#[derive(PartialEq, Eq, Structural, Copy, Clone, Debug)]
pub enum TileType {
    WALL,
    FLOOR,
}

/// The kind of a cell as the level's layout stores it.
#[derive(PartialEq, Eq, Structural, Copy, Clone, Debug)]
pub struct TileTypeMap(pub TileType);

impl TileType {
    /// Walls stop movement and sight.
    pub fn is_wall(&self) -> (r: bool)
        ensures
            r == (*self == TileType::WALL),
    {
        match self {
            TileType::WALL => true,
            TileType::FLOOR => false,
        }
    }
}

} // verus!
