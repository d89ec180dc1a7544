use grid_rogue::actors::{Actor, ActorDirectory, Direction, TurnOutcome, DAMAGE};
use grid_rogue::components::{Mob, MobType, Position};
use grid_rogue::health::Health;
use grid_rogue::map::Level;
use grid_rogue::player::{blank_pov, SIGHT_RANGE};

fn pos(x: i32, y: i32) -> Position {
    Position { x, y }
}

fn open_level(width: usize, height: usize, walls: &[(usize, usize)]) -> Level {
    let mut cells = Vec::new();
    for x in 0..width {
        for y in 0..height {
            cells.push((x, y, walls.contains(&(x, y))));
        }
    }
    match Level::from_layout(width, height, &cells, 11) {
        Ok(l) => l,
        Err(e) => panic!("layout refused: {:?}", e),
    }
}

fn actor(kind: MobType, x: i32, y: i32, health: i32) -> Option<Actor> {
    Some(Actor { mob: Mob(kind), position: pos(x, y), health: Health(health), pov: blank_pov(SIGHT_RANGE), moved: false })
}

#[test]
fn step_into_wall_is_blocked() {
    let level = open_level(5, 5, &[(2, 3)]);
    let mut dir = ActorDirectory { actors: vec![actor(MobType::PLAYER, 2, 2, 10)] };
    assert_eq!(dir.submit_move(&level, 0, Direction::Up), TurnOutcome::Blocked);
    assert_eq!(dir.actor_position(0), Some(pos(2, 2)));
    assert_eq!(dir.actor_health(0), Some(10));
    assert!(!dir.actors[0].as_ref().unwrap().moved);
}

#[test]
fn step_off_the_grid_is_blocked() {
    let level = open_level(5, 5, &[]);
    let mut dir = ActorDirectory { actors: vec![actor(MobType::PLAYER, 0, 4, 10)] };
    assert_eq!(dir.submit_move(&level, 0, Direction::Left), TurnOutcome::Blocked);
    assert_eq!(dir.submit_move(&level, 0, Direction::Up), TurnOutcome::Blocked);
    assert_eq!(dir.actor_position(0), Some(pos(0, 4)));
}

#[test]
fn each_direction_moves_one_cell() {
    let level = open_level(5, 5, &[]);
    let mut dir = ActorDirectory { actors: vec![actor(MobType::PLAYER, 2, 2, 10)] };
    assert_eq!(dir.submit_move(&level, 0, Direction::Up), TurnOutcome::Moved);
    assert_eq!(dir.actor_position(0), Some(pos(2, 3)));
    assert!(dir.actors[0].as_ref().unwrap().moved);
    assert_eq!(dir.submit_move(&level, 0, Direction::Right), TurnOutcome::Moved);
    assert_eq!(dir.actor_position(0), Some(pos(3, 3)));
    assert_eq!(dir.submit_move(&level, 0, Direction::Down), TurnOutcome::Moved);
    assert_eq!(dir.actor_position(0), Some(pos(3, 2)));
    assert_eq!(dir.submit_move(&level, 0, Direction::Left), TurnOutcome::Moved);
    assert_eq!(dir.actor_position(0), Some(pos(2, 2)));
}

#[test]
fn bump_hurts_target_and_mover_stays() {
    let level = open_level(5, 5, &[]);
    let mut dir = ActorDirectory { actors: vec![actor(MobType::PLAYER, 1, 1, 10), actor(MobType::ORC, 2, 1, 4)] };
    assert_eq!(dir.submit_move(&level, 0, Direction::Right), TurnOutcome::Attacked(1, 4 - DAMAGE));
    assert_eq!(dir.actor_position(0), Some(pos(1, 1)));
    assert_eq!(dir.actor_health(1), Some(3));
    assert_eq!(dir.actor_position(1), Some(pos(2, 1)));
    assert!(!dir.actors[0].as_ref().unwrap().moved);
}

#[test]
fn bump_hits_lowest_slot_first() {
    let level = open_level(5, 5, &[]);
    let mut dir = ActorDirectory {
        actors: vec![actor(MobType::GOBLIN, 3, 3, 3), actor(MobType::PLAYER, 2, 3, 10), actor(MobType::ORC, 3, 3, 4)],
    };
    assert_eq!(dir.submit_move(&level, 1, Direction::Right), TurnOutcome::Attacked(0, 2));
    assert_eq!(dir.actor_health(2), Some(4));
}

#[test]
fn lethal_bump_removes_target_and_frees_cell() {
    let level = open_level(5, 5, &[]);
    let mut dir = ActorDirectory { actors: vec![actor(MobType::PLAYER, 1, 2, 10), actor(MobType::GOBLIN, 2, 2, 1)] };
    assert_eq!(dir.submit_move(&level, 0, Direction::Right), TurnOutcome::Attacked(1, 0));
    // still present until the end of the turn
    assert!(dir.is_alive(1));
    dir.check_health_to_despawn();
    assert!(!dir.is_alive(1));
    assert_eq!(dir.actor_position(1), None);
    assert_eq!(dir.actor_health(1), None);
    // next turn the cell is free
    assert_eq!(dir.submit_move(&level, 0, Direction::Right), TurnOutcome::Moved);
    assert_eq!(dir.actor_position(0), Some(pos(2, 2)));
}

#[test]
fn despawn_keeps_living_and_removes_negative() {
    let mut dir = ActorDirectory {
        actors: vec![actor(MobType::PLAYER, 1, 1, 10), actor(MobType::ORC, 2, 1, -3), None, actor(MobType::GOBLIN, 3, 1, 1)],
    };
    dir.check_health_to_despawn();
    assert_eq!(dir.actors.len(), 4);
    assert!(dir.is_alive(0));
    assert!(!dir.is_alive(1));
    assert!(!dir.is_alive(2));
    assert!(dir.is_alive(3));
}

#[test]
fn requests_for_missing_actors_are_ignored() {
    let level = open_level(5, 5, &[]);
    let mut dir = ActorDirectory { actors: vec![actor(MobType::PLAYER, 1, 1, 10), None] };
    assert_eq!(dir.submit_move(&level, 1, Direction::Up), TurnOutcome::Ignored);
    assert_eq!(dir.submit_move(&level, 7, Direction::Up), TurnOutcome::Ignored);
    assert_eq!(dir.actor_position(0), Some(pos(1, 1)));
}

#[test]
fn health_saturates_at_the_least_value() {
    let level = open_level(5, 5, &[]);
    let mut dir = ActorDirectory { actors: vec![actor(MobType::PLAYER, 1, 1, 10), actor(MobType::ORC, 1, 2, i32::MIN)] };
    assert_eq!(dir.submit_move(&level, 0, Direction::Up), TurnOutcome::Attacked(1, i32::MIN));
}

#[test]
fn refresh_recomputes_sight_of_moved_actors_only() {
    let mut level = open_level(5, 5, &[]);
    let mut dir = ActorDirectory { actors: vec![actor(MobType::PLAYER, 0, 0, 10), actor(MobType::ORC, 4, 4, 4)] };
    assert_eq!(dir.submit_move(&level, 0, Direction::Up), TurnOutcome::Moved);
    dir.update_tile_vis_and_explore(&mut level);
    let a = dir.actors[0].as_ref().unwrap();
    assert!(!a.moved);
    // range 8 from (0, 1) on an open 5 by 5 grid sees everything
    assert_eq!(a.pov.visible_tiles.len(), 25);
    assert_eq!(a.pov.newly_revealed_tiles.len(), 25);
    assert!(dir.actors[1].as_ref().unwrap().pov.visible_tiles.is_empty());
    assert!(level.is_ever_revealed(pos(4, 4)));
    assert_eq!(dir.actor_visible_tiles(0).map(|v| v.len()), Some(25));
    // handed out once
    assert_eq!(dir.actor_newly_revealed(0).len(), 25);
    assert!(dir.actor_newly_revealed(0).is_empty());
    assert_eq!(dir.actor_visible_tiles(0).map(|v| v.len()), Some(25));
    assert!(dir.actor_visible_tiles(5).is_none());
}

#[test]
fn later_refresh_sees_only_new_cells_as_new() {
    let mut level = open_level(20, 3, &[]);
    let mut dir = ActorDirectory { actors: vec![actor(MobType::PLAYER, 2, 1, 10), actor(MobType::GOBLIN, 4, 1, 3)] };
    dir.actors[0].as_mut().unwrap().moved = true;
    dir.actors[1].as_mut().unwrap().moved = true;
    dir.update_tile_vis_and_explore(&mut level);
    let first = &dir.actors[0].as_ref().unwrap().pov;
    let second = &dir.actors[1].as_ref().unwrap().pov;
    // the player sees columns 0 to 9, the goblin columns 0 to 11
    assert_eq!(first.visible_tiles.len(), 30);
    assert_eq!(first.newly_revealed_tiles.len(), 30);
    assert_eq!(second.visible_tiles.len(), 36);
    assert_eq!(second.newly_revealed_tiles.len(), 6);
}
