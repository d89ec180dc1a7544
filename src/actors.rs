use crate::components::{Mob, MobType, Position, POV};
use crate::enemies::{GoblinBundle, OrcBundle, GOBLIN_HEALTH, ORC_HEALTH};
use crate::fov::{lemma_visible_map_terrain, lists_map, lists_set, visible_map};
use crate::health::Health;
use crate::map::Level;
use crate::player::{PlayerBundle, PLAYER_HEALTH, SIGHT_RANGE};
use vstd::prelude::*;

verus! {

/// Health lost by the target of one bump attack.
pub const DAMAGE: i32 = 1;

/// One of the four unit steps an actor may request.
#[derive(PartialEq, Eq, Structural, Copy, Clone, Debug)]
pub enum Direction {
    Up,
    Left,
    Down,
    Right,
}

pub open spec fn offset(d: Direction) -> (int, int) {
    match d {
        Direction::Up => (0, 1),
        Direction::Left => (-1, 0),
        Direction::Down => (0, -1),
        Direction::Right => (1, 0),
    }
}

/// What one requested step came to.
#[derive(PartialEq, Eq, Structural, Copy, Clone, Debug)]
pub enum TurnOutcome {
    /// The actor stepped onto the destination.
    Moved,
    /// The destination was occupied: the actor in that slot was hit and now
    /// has the given health.
    Attacked(usize, i32),
    /// The destination is a wall or lies outside the grid.
    Blocked,
    /// The request named no living actor.
    Ignored,
}

/// A living actor: the player or an enemy.
pub struct Actor {
    pub mob: Mob,
    pub position: Position,
    pub health: Health,
    pub pov: POV,
    /// Set when the actor's position changed; cleared once its sight is recomputed.
    pub moved: bool,
}

/// Every actor of a level. An actor's identifier is its slot; a slot is
/// emptied when its actor is removed and is never reused.
pub struct ActorDirectory {
    pub actors: Vec<Option<Actor>>,
}

/// Health after one hit.
pub open spec fn wounded(h: i32) -> i32 {
    if h - DAMAGE < i32::MIN {
        i32::MIN
    } else {
        (h - DAMAGE) as i32
    }
}

pub open spec fn cell_position(p: (int, int)) -> Position {
    Position { x: p.0 as i32, y: p.1 as i32 }
}

/// Health an actor of kind `kind` starts with.
pub open spec fn starting_health(kind: MobType) -> i32 {
    match kind {
        MobType::PLAYER => PLAYER_HEALTH,
        MobType::GOBLIN => GOBLIN_HEALTH,
        MobType::ORC => ORC_HEALTH,
    }
}

/// `a` is a freshly placed actor of kind `kind` at `pos`, whose sight is
/// still to be computed.
pub open spec fn fresh_actor(a: Actor, pos: Position, kind: MobType) -> bool {
    &&& a.position == pos
    &&& a.mob == Mob(kind)
    &&& a.health == Health(starting_health(kind))
    &&& a.pov.range == SIGHT_RANGE
    &&& a.pov.visible_tiles@.len() == 0
    &&& a.pov.newly_revealed_tiles@.len() == 0
    &&& a.moved
}

/// The ledger as it stands once the moved actors among the first `n` slots
/// have had their sight recomputed, in slot order.
pub open spec fn ledger_after(level: Level, actors: Seq<Option<Actor>>, n: int) -> Set<(int, int)>
    decreases n,
{
    if n <= 0 {
        level.revealed()
    } else {
        let prev = ledger_after(level, actors, n - 1);
        match actors[n - 1] {
            Some(a) => if a.moved {
                prev.union(visible_map(level, a.position@, a.pov.range as int).dom())
            } else {
                prev
            },
            None => prev,
        }
    }
}

/// `b` is `a` after a sight refresh in which `ledger` was the ledger just before.
pub open spec fn refreshed(level: Level, a: Actor, b: Actor, ledger: Set<(int, int)>) -> bool {
    let m = visible_map(level, a.position@, a.pov.range as int);
    &&& b.mob == a.mob
    &&& b.position == a.position
    &&& b.health == a.health
    &&& !b.moved
    &&& a.moved ==> {
        &&& b.pov.range == a.pov.range
        &&& lists_map(b.pov.visible_tiles@, m)
        &&& lists_set(b.pov.newly_revealed_tiles@, m.dom().difference(ledger))
    }
    &&& !a.moved ==> b.pov == a.pov
}

impl ActorDirectory {
    /// A directory with one actor per placement of `level`, in placement
    /// order, each built from the bundle of its kind.
    pub fn from_level(level: &Level) -> (d: ActorDirectory)
        ensures
            d.actors@.len() == level.mobs@.len(),
            forall|i: int| 0 <= i < d.actors@.len() ==> ((#[trigger] d.actors@[i]) matches Some(a) && fresh_actor(a, level.mobs@[i].0, level.mobs@[i].1)),
            (forall|k: int| 0 <= k < level.mobs@.len() ==> level.spawn_cell((#[trigger] level.mobs@[k]).0@)) ==> d.stands_on(*level),
            level.mobs_apart() ==> d.apart(),
    {
        let mut actors: Vec<Option<Actor>> = Vec::new();
        let mut i: usize = 0;
        while i < level.mobs.len()
            invariant
                i <= level.mobs@.len(),
                actors@.len() == i,
                forall|k: int| 0 <= k < i ==> ((#[trigger] actors@[k]) matches Some(a) && fresh_actor(a, level.mobs@[k].0, level.mobs@[k].1)),
            decreases level.mobs@.len() - i,
        {
            let (pos, kind) = level.mobs[i];
            let actor = match kind {
                MobType::PLAYER => {
                    let b = PlayerBundle::new((pos.x, pos.y));
                    Actor { mob: b.mob, position: b.position, health: b.health, pov: b.pov, moved: true }
                },
                MobType::GOBLIN => {
                    let b = GoblinBundle::new((pos.x, pos.y));
                    Actor { mob: b.mob, position: b.position, health: b.health, pov: b.pov, moved: true }
                },
                MobType::ORC => {
                    let b = OrcBundle::new((pos.x, pos.y));
                    Actor { mob: b.mob, position: b.position, health: b.health, pov: b.pov, moved: true }
                },
            };
            actors.push(Some(actor));
            i = i + 1;
        }
        let d = ActorDirectory { actors };
        proof {
            if forall|k: int| 0 <= k < level.mobs@.len() ==> level.spawn_cell((#[trigger] level.mobs@[k]).0@) {
                assert forall|i: int| #[trigger] d.alive(i) implies !level.blocks(d.actor(i).position@) by {
                    assert(level.spawn_cell(level.mobs@[i].0@));
                }
            }
            if level.mobs_apart() {
                assert forall|i: int, j: int| #[trigger] d.alive(i) && #[trigger] d.alive(j) && i != j implies d.actor(i).position != d.actor(j).position by {
                    if i < j {
                        assert(level.mobs@[i].0 != level.mobs@[j].0);
                    } else {
                        assert(level.mobs@[j].0 != level.mobs@[i].0);
                    }
                }
            }
        }
        d
    }

    /// Recomputes the sight of every actor that moved since its last
    /// refresh, in slot order, adding what each sees to the level's ledger,
    /// and clears their moved flags.
    pub fn update_tile_vis_and_explore(&mut self, level: &mut Level)
        requires
            old(level).wf(),
        ensures
            final(level).wf(),
            final(level).tiles == old(level).tiles,
            final(level).size == old(level).size,
            final(level).mobs == old(level).mobs,
            final(level).revealed() == ledger_after(*old(level), old(self).actors@, old(self).actors@.len() as int),
            final(self).actors@.len() == old(self).actors@.len(),
            forall|i: int| 0 <= i < old(self).actors@.len() ==> match #[trigger] old(self).actors@[i] {
                None => final(self).actors@[i] is None,
                Some(a) => final(self).actors@[i] matches Some(b) && refreshed(
                    *old(level),
                    a,
                    b,
                    ledger_after(*old(level), old(self).actors@, i),
                ),
            },
    {
        let ghost lv0 = *level;
        let ghost before = *self;
        let mut i: usize = 0;
        while i < self.actors.len()
            invariant
                level.wf(),
                lv0 == *old(level),
                before == *old(self),
                level.tiles == lv0.tiles,
                level.size == lv0.size,
                level.mobs == lv0.mobs,
                level.revealed() == ledger_after(lv0, before.actors@, i as int),
                self.actors@.len() == before.actors@.len(),
                i <= self.actors@.len(),
                forall|k: int| i <= k < self.actors@.len() ==> #[trigger] self.actors@[k] == before.actors@[k],
                forall|k: int| 0 <= k < i ==> match #[trigger] before.actors@[k] {
                    None => self.actors@[k] is None,
                    Some(a) => self.actors@[k] matches Some(b) && refreshed(lv0, a, b, ledger_after(lv0, before.actors@, k)),
                },
            decreases self.actors@.len() - i,
        {
            let moved = match &self.actors[i] {
                Some(a) => a.moved,
                None => false,
            };
            let ghost lvi = *level;
            if moved {
                let slot = self.actors[i].take();
                let mut a = slot.unwrap();
                let ghost a0 = a;
                a.pov = level.compute_visibility(a.position, a.pov.range);
                a.moved = false;
                self.actors.set(i, Some(a));
                proof {
                    lemma_visible_map_terrain(lvi, lv0, a0.position@, a0.pov.range as int);
                    assert(refreshed(lv0, a0, a, ledger_after(lv0, before.actors@, i as int)));
                    assert(level.revealed() == ledger_after(lv0, before.actors@, i + 1));
                }
            } else {
                proof {
                    assert(level.revealed() == ledger_after(lv0, before.actors@, i + 1));
                }
            }
            i = i + 1;
        }
    }

    pub open spec fn alive(self, id: int) -> bool {
        0 <= id < self.actors@.len() && self.actors@[id] is Some
    }

    pub open spec fn actor(self, id: int) -> Actor {
        self.actors@[id]->Some_0
    }

    pub open spec fn occupies(self, j: int, p: (int, int)) -> bool {
        self.alive(j) && self.actor(j).position@ == p
    }

    /// No living actor but `id` stands on `p`.
    pub open spec fn vacant(self, id: int, p: (int, int)) -> bool {
        forall|j: int| 0 <= j < self.actors@.len() && j != id ==> !#[trigger] self.occupies(j, p)
    }

    /// `j` is the lowest slot other than `id` whose actor stands on `p`.
    pub open spec fn first_occupant(self, id: int, p: (int, int), j: int) -> bool {
        &&& j != id
        &&& self.occupies(j, p)
        &&& forall|k: int| 0 <= k < j && k != id ==> !#[trigger] self.occupies(k, p)
    }

    /// Where the actor in slot `id` would step.
    pub open spec fn destination(self, id: int, d: Direction) -> (int, int) {
        let q = self.actor(id).position@;
        (q.0 + offset(d).0, q.1 + offset(d).1)
    }

    /// One requested step of the actor in slot `id`, resolved as a move, a
    /// bump attack, or nothing.
    pub open spec fn resolves(level: Level, before: Self, id: int, d: Direction, r: TurnOutcome, after: Self) -> bool {
        let dest = before.destination(id, d);
        if !before.alive(id) {
            r == TurnOutcome::Ignored && after == before
        } else if level.blocks(dest) {
            r == TurnOutcome::Blocked && after == before
        } else if before.vacant(id, dest) {
            let a = before.actor(id);
            &&& r == TurnOutcome::Moved
            &&& after.actors@ == before.actors@.update(
                id,
                Some(Actor { position: cell_position(dest), moved: true, ..a }),
            )
        } else {
            &&& r matches TurnOutcome::Attacked(t, h)
            &&& before.first_occupant(id, dest, t as int)
            &&& h == wounded(before.actor(t as int).health.0)
            &&& after.actors@ == before.actors@.update(
                t as int,
                Some(Actor { health: Health(h), ..before.actor(t as int) }),
            )
        }
    }

    /// Resolves one step of the actor in slot `id`: into a wall or off the
    /// grid nothing happens; into a cell where another living actor stands,
    /// the first such actor loses `DAMAGE` health and nobody moves;
    /// otherwise the actor steps there.
    pub fn submit_move(&mut self, level: &Level, id: usize, direction: Direction) -> (r: TurnOutcome)
        requires
            level.wf(),
        ensures
            ActorDirectory::resolves(*level, *old(self), id as int, direction, r, *final(self)),
    {
        if id >= self.actors.len() {
            return TurnOutcome::Ignored;
        }
        let pos = match &self.actors[id] {
            Some(a) => a.position,
            None => {
                return TurnOutcome::Ignored;
            },
        };
        let (dx, dy): (i64, i64) = match direction {
            Direction::Up => (0, 1),
            Direction::Left => (-1, 0),
            Direction::Down => (0, -1),
            Direction::Right => (1, 0),
        };
        let nx = pos.x as i64 + dx;
        let ny = pos.y as i64 + dy;
        if nx < 0 || ny < 0 || nx >= level.size.0 as i64 || ny >= level.size.1 as i64 || level.wall_at(nx, ny) {
            return TurnOutcome::Blocked;
        }
        let dest = Position { x: nx as i32, y: ny as i32 };
        let ghost before = *self;
        let mut j: usize = 0;
        while j < self.actors.len()
            invariant
                *self == before,
                before == *old(self),
                before.alive(id as int),
                dest@ == before.destination(id as int, direction),
                !level.blocks(dest@),
                0 <= j <= self.actors@.len(),
                forall|k: int| 0 <= k < j && k != id ==> !#[trigger] before.occupies(k, dest@),
            decreases self.actors@.len() - j,
        {
            let hit = if j == id {
                false
            } else {
                match &self.actors[j] {
                    Some(t) => t.position == dest,
                    None => false,
                }
            };
            if hit {
                let slot = self.actors[j].take();
                let mut target = slot.unwrap();
                let h = target.health.0;
                let new_h = if h >= i32::MIN + DAMAGE {
                    h - DAMAGE
                } else {
                    i32::MIN
                };
                target.health = Health(new_h);
                self.actors.set(j, Some(target));
                proof {
                    assert(!level.blocks(dest@));
                    assert(before.occupies(j as int, dest@));
                    assert(!before.vacant(id as int, dest@));
                    assert(before.first_occupant(id as int, dest@, j as int));
                    assert(new_h == wounded(before.actor(j as int).health.0));
                    assert(self.actors@ =~= before.actors@.update(
                        j as int,
                        Some(Actor { health: Health(new_h), ..before.actor(j as int) }),
                    ));
                }
                return TurnOutcome::Attacked(j, new_h);
            }
            j = j + 1;
        }
        let slot = self.actors[id].take();
        let mut mover = slot.unwrap();
        mover.position = dest;
        mover.moved = true;
        self.actors.set(id, Some(mover));
        proof {
            assert(!level.blocks(dest@));
            assert(before.vacant(id as int, dest@));
            assert(dest == cell_position(dest@));
            assert(self.actors@ =~= before.actors@.update(
                id as int,
                Some(Actor { position: cell_position(dest@), moved: true, ..before.actor(id as int) }),
            ));
        }
        TurnOutcome::Moved
    }

    /// Every living actor stands on a floor cell of `level`.
    pub open spec fn stands_on(self, level: Level) -> bool {
        forall|i: int| #[trigger] self.alive(i) ==> !level.blocks(self.actor(i).position@)
    }

    pub fn is_alive(&self, id: usize) -> (r: bool)
        ensures
            r == self.alive(id as int),
    {
        id < self.actors.len() && self.actors[id].is_some()
    }

    pub fn actor_position(&self, id: usize) -> (r: Option<Position>)
        ensures
            r == if self.alive(id as int) {
                Some(self.actor(id as int).position)
            } else {
                None::<Position>
            },
    {
        if id >= self.actors.len() {
            return None;
        }
        match &self.actors[id] {
            Some(a) => Some(a.position),
            None => None,
        }
    }

    pub fn actor_health(&self, id: usize) -> (r: Option<i32>)
        ensures
            r == if self.alive(id as int) {
                Some(self.actor(id as int).health.0)
            } else {
                None::<i32>
            },
    {
        if id >= self.actors.len() {
            return None;
        }
        match &self.actors[id] {
            Some(a) => Some(a.health.0),
            None => None,
        }
    }

    /// The cells the actor sees, each with its light level.
    pub fn actor_visible_tiles(&self, id: usize) -> (r: Option<&Vec<(Position, i32)>>)
        ensures
            self.alive(id as int) ==> (r matches Some(v) && v@ == self.actor(id as int).pov.visible_tiles@),
            !self.alive(id as int) ==> r is None,
    {
        if id >= self.actors.len() {
            return None;
        }
        match &self.actors[id] {
            Some(a) => Some(&a.pov.visible_tiles),
            None => None,
        }
    }

    /// Hands out the cells that the actor's last sight refresh added to the
    /// ledger, and clears them so that each is handed out once.
    pub fn actor_newly_revealed(&mut self, id: usize) -> (r: Vec<Position>)
        ensures
            !old(self).alive(id as int) ==> r@.len() == 0 && *final(self) == *old(self),
            old(self).alive(id as int) ==> {
                let a = old(self).actor(id as int);
                &&& r@ == a.pov.newly_revealed_tiles@
                &&& final(self).actors@.len() == old(self).actors@.len()
                &&& forall|k: int| 0 <= k < old(self).actors@.len() && k != id ==> #[trigger] final(self).actors@[k] == old(self).actors@[k]
                &&& final(self).actors@[id as int] matches Some(b) && b.mob == a.mob && b.position == a.position && b.health == a.health && b.moved == a.moved
                    && b.pov.range == a.pov.range && b.pov.visible_tiles == a.pov.visible_tiles && b.pov.newly_revealed_tiles@.len() == 0
            },
    {
        let mut out: Vec<Position> = Vec::new();
        if id >= self.actors.len() || self.actors[id].is_none() {
            return out;
        }
        let slot = self.actors[id].take();
        let mut a = slot.unwrap();
        std::mem::swap(&mut a.pov.newly_revealed_tiles, &mut out);
        self.actors.set(id, Some(a));
        out
    }
}

/// A sight refresh of the whole directory only ever adds cells to the ledger.
pub proof fn lemma_refresh_keeps_ledger(level: Level, actors: Seq<Option<Actor>>, n: int, p: (int, int))
    requires
        level.revealed().contains(p),
    ensures
        ledger_after(level, actors, n).contains(p),
    decreases n,
{
    if n > 0 {
        lemma_refresh_keeps_ledger(level, actors, n - 1, p);
    }
}

/// A step into a wall, or off the grid, moves nobody, hurts nobody, and is
/// reported as `Blocked`.
pub proof fn lemma_step_into_wall(level: Level, before: ActorDirectory, id: int, d: Direction, r: TurnOutcome, after: ActorDirectory)
    requires
        ActorDirectory::resolves(level, before, id, d, r, after),
        before.alive(id),
        level.blocks(before.destination(id, d)),
    ensures
        r == TurnOutcome::Blocked,
        after == before,
{
}

/// A step into a cell where another living actor stands is an attack on
/// that actor: the mover stays where it was, and, when no two actors share
/// a cell, the actor hit is the one standing there and loses exactly
/// `DAMAGE` health (health cannot go below the least `i32`).
pub proof fn lemma_bump_attack(level: Level, before: ActorDirectory, id: int, d: Direction, r: TurnOutcome, after: ActorDirectory, j: int)
    requires
        ActorDirectory::resolves(level, before, id, d, r, after),
        before.stands_on(level),
        before.alive(id),
        j != id,
        before.occupies(j, before.destination(id, d)),
    ensures
        r matches TurnOutcome::Attacked(t, h) && {
            &&& before.occupies(t as int, before.destination(id, d))
            &&& after.alive(id) && after.actor(id).position == before.actor(id).position
            &&& after.alive(t as int) && after.actor(t as int).health.0 == h
            &&& before.actor(t as int).health.0 > i32::MIN ==> h == before.actor(t as int).health.0 - DAMAGE
            &&& before.apart() ==> t == j && h == wounded(before.actor(j).health.0)
            &&& before.apart() && before.actor(j).health.0 > i32::MIN ==> h == before.actor(j).health.0 - DAMAGE
        },
{
    assert(before.alive(j));
    assert(!level.blocks(before.destination(id, d)));
    assert(!before.vacant(id, before.destination(id, d)));
    let t = r->Attacked_0 as int;
    if before.apart() && t != j {
        assert(before.alive(t) && before.alive(j));
    }
}

/// After the removal step, no actor with health at or below zero is left,
/// and every actor that had such health is gone.
pub proof fn lemma_dead_are_removed(before: ActorDirectory, after: ActorDirectory)
    requires
        ActorDirectory::despawns(before, after),
    ensures
        forall|i: int| #[trigger] after.alive(i) ==> after.actor(i).health.0 > 0,
        forall|i: int| before.alive(i) && before.actor(i).health.0 <= 0 ==> !#[trigger] after.alive(i),
{
    assert forall|i: int| #[trigger] after.alive(i) implies after.actor(i).health.0 > 0 by {
        assert(after.actors@[i] == if before.is_dead(i) {
            None::<Actor>
        } else {
            before.actors@[i]
        });
    }
    assert forall|i: int| before.alive(i) && before.actor(i).health.0 <= 0 implies !#[trigger] after.alive(i) by {
        assert(after.actors@[i] == if before.is_dead(i) {
            None::<Actor>
        } else {
            before.actors@[i]
        });
    }
}

impl ActorDirectory {
    /// No two living actors share a cell.
    pub open spec fn apart(self) -> bool {
        forall|i: int, j: int| #[trigger] self.alive(i) && #[trigger] self.alive(j) && i != j ==> self.actor(i).position != self.actor(j).position
    }
}

/// A resolved step keeps every living actor on a floor cell and never puts
/// two living actors on one cell.
pub proof fn lemma_step_keeps_actors_apart(level: Level, before: ActorDirectory, id: int, d: Direction, r: TurnOutcome, after: ActorDirectory)
    requires
        level.wf(),
        ActorDirectory::resolves(level, before, id, d, r, after),
        before.stands_on(level),
        before.apart(),
    ensures
        after.stands_on(level),
        after.apart(),
{
    if before.alive(id) && !level.blocks(before.destination(id, d)) {
        let dest = before.destination(id, d);
        if before.vacant(id, dest) {
            assert(dest.0 == cell_position(dest)@.0 && dest.1 == cell_position(dest)@.1);
            assert forall|i: int| #[trigger] after.alive(i) implies !level.blocks(after.actor(i).position@) by {
                if i != id {
                    assert(before.alive(i));
                }
            }
            assert forall|i: int, j: int| #[trigger] after.alive(i) && #[trigger] after.alive(j) && i != j implies after.actor(i).position != after.actor(j).position by {
                assert(before.alive(i) && before.alive(j));
                if i == id {
                    assert(!before.occupies(j, dest));
                } else if j == id {
                    assert(!before.occupies(i, dest));
                }
            }
        } else {
            assert forall|i: int| #[trigger] after.alive(i) implies !level.blocks(after.actor(i).position@) by {
                assert(before.alive(i));
            }
            assert forall|i: int, j: int| #[trigger] after.alive(i) && #[trigger] after.alive(j) && i != j implies after.actor(i).position != after.actor(j).position by {
                assert(before.alive(i) && before.alive(j));
            }
        }
    }
}

/// The removal step keeps every remaining actor where it was.
pub proof fn lemma_despawn_keeps_actors_apart(level: Level, before: ActorDirectory, after: ActorDirectory)
    requires
        ActorDirectory::despawns(before, after),
        before.stands_on(level),
        before.apart(),
    ensures
        after.stands_on(level),
        after.apart(),
{
    assert forall|i: int| #[trigger] after.alive(i) implies before.alive(i) && after.actor(i) == before.actor(i) by {
        assert(after.actors@[i] == if before.is_dead(i) {
            None::<Actor>
        } else {
            before.actors@[i]
        });
    }
}

} // verus!