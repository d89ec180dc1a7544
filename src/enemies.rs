use crate::components::{Mob, MobType, Position, POV};
use crate::health::Health;
use crate::player::{blank_pov, SIGHT_RANGE};
use vstd::prelude::*;

verus! {

/// Health an orc starts with.
pub const ORC_HEALTH: i32 = 4;

/// Health a goblin starts with.
pub const GOBLIN_HEALTH: i32 = 3;

/// The parts of a freshly placed orc.
pub struct OrcBundle {
    pub position: Position,
    pub pov: POV,
    pub mob: Mob,
    pub health: Health,
}

impl OrcBundle {
    pub fn new(location: (i32, i32)) -> (b: OrcBundle)
        ensures
            b.position == (Position { x: location.0, y: location.1 }),
            b.mob == Mob(MobType::ORC),
            b.health == Health(ORC_HEALTH),
            b.pov.range == SIGHT_RANGE,
            b.pov.visible_tiles@.len() == 0,
            b.pov.newly_revealed_tiles@.len() == 0,
    {
        OrcBundle {
            position: Position { x: location.0, y: location.1 },
            pov: blank_pov(SIGHT_RANGE),
            mob: Mob(MobType::ORC),
            health: Health(ORC_HEALTH),
        }
    }
}

/// The parts of a freshly placed goblin.
pub struct GoblinBundle {
    pub position: Position,
    pub pov: POV,
    pub mob: Mob,
    pub health: Health,
}

impl GoblinBundle {
    pub fn new(location: (i32, i32)) -> (b: GoblinBundle)
        ensures
            b.position == (Position { x: location.0, y: location.1 }),
            b.mob == Mob(MobType::GOBLIN),
            b.health == Health(GOBLIN_HEALTH),
            b.pov.range == SIGHT_RANGE,
            b.pov.visible_tiles@.len() == 0,
            b.pov.newly_revealed_tiles@.len() == 0,
    {
        GoblinBundle {
            position: Position { x: location.0, y: location.1 },
            pov: blank_pov(SIGHT_RANGE),
            mob: Mob(MobType::GOBLIN),
            health: Health(GOBLIN_HEALTH),
        }
    }
}

} // verus!
