use vstd::prelude::*;

verus! {

/// A grid coordinate.
#[derive(PartialEq, Eq, Structural, Copy, Clone, Debug, Hash)]
pub struct Position {
    pub x: i32,
    pub y: i32,
}

impl View for Position {
    type V = (int, int);

    open spec fn view(&self) -> (int, int) {
        (self.x as int, self.y as int)
    }
}

/// The kinds of actor that a level holds.
#[derive(PartialEq, Eq, Structural, Copy, Clone, Debug, PartialOrd, Ord, Hash)]
pub enum MobType {
    PLAYER,
    GOBLIN,
    ORC,
}

/// Marks an actor (the player or an enemy) and says which kind it is.
#[derive(PartialEq, Eq, Structural, Copy, Clone, Debug)]
pub struct Mob(pub MobType);

/// What an actor sees from where it stands.
pub struct POV {
    /// Each visible cell once, with its light level.
    pub visible_tiles: Vec<(Position, i32)>,
    /// The cells that the last computation added to the level's ledger.
    pub newly_revealed_tiles: Vec<Position>,
    /// How far the actor sees.
    pub range: i32,
}

} // verus!
