use crate::components::{Mob, MobType, Position, POV};
use crate::health::Health;
use vstd::prelude::*;

verus! {

/// How far every actor sees.
pub const SIGHT_RANGE: i32 = 8;

/// Health the player starts with.
pub const PLAYER_HEALTH: i32 = 10;

/// A sight record that has seen nothing yet.
pub fn blank_pov(range: i32) -> (pov: POV)
    ensures
        pov.range == range,
        pov.visible_tiles@.len() == 0,
        pov.newly_revealed_tiles@.len() == 0,
{
    POV { visible_tiles: Vec::new(), newly_revealed_tiles: Vec::new(), range }
}

/// The parts of a freshly placed player.
pub struct PlayerBundle {
    pub position: Position,
    pub pov: POV,
    pub mob: Mob,
    pub health: Health,
}

impl PlayerBundle {
    pub fn new(location: (i32, i32)) -> (b: PlayerBundle)
        ensures
            b.position == (Position { x: location.0, y: location.1 }),
            b.mob == Mob(MobType::PLAYER),
            b.health == Health(PLAYER_HEALTH),
            b.pov.range == SIGHT_RANGE,
            b.pov.visible_tiles@.len() == 0,
            b.pov.newly_revealed_tiles@.len() == 0,
    {
        PlayerBundle {
            position: Position { x: location.0, y: location.1 },
            pov: blank_pov(SIGHT_RANGE),
            mob: Mob(MobType::PLAYER),
            health: Health(PLAYER_HEALTH),
        }
    }
}

} // verus!
