use grid_rogue::actors::ActorDirectory;
use grid_rogue::components::{MobType, Position};
use grid_rogue::map::{ConfigurationError, Level};
use grid_rogue::tiles::TileType;

fn pos(x: i32, y: i32) -> Position {
    Position { x, y }
}

fn error_of(r: Result<Level, ConfigurationError>) -> Option<ConfigurationError> {
    match r {
        Ok(_) => None,
        Err(e) => Some(e),
    }
}

fn floors(level: &Level) -> Vec<(i32, i32)> {
    let mut out = Vec::new();
    for x in 0..level.size.0 as i32 {
        for y in 0..level.size.1 as i32 {
            if level.tile_kind(pos(x, y)) == Some(TileType::FLOOR) {
                out.push((x, y));
            }
        }
    }
    out
}

/// Floor cells reachable from the first one by steps along the axes.
fn reachable(level: &Level, cells: &[(i32, i32)]) -> usize {
    let mut seen = vec![cells[0]];
    let mut todo = vec![cells[0]];
    while let Some((x, y)) = todo.pop() {
        for (nx, ny) in [(x + 1, y), (x - 1, y), (x, y + 1), (x, y - 1)] {
            if level.tile_kind(pos(nx, ny)) == Some(TileType::FLOOR) && !seen.contains(&(nx, ny)) {
                seen.push((nx, ny));
                todo.push((nx, ny));
            }
        }
    }
    seen.len()
}

#[test]
fn game_level_is_fifty_square_with_floors() {
    let level = Level::new();
    assert_eq!(level.size, (50, 50));
    assert!(!floors(&level).is_empty());
    assert_eq!(level.tile_kind(pos(50, 3)), None);
    assert_eq!(level.tile_kind(pos(3, -1)), None);
    assert!(level.mobs.is_empty());
    assert!(!level.is_ever_revealed(pos(3, 3)));
}

#[test]
fn generation_is_deterministic() {
    let a = Level::new();
    let b = Level::new();
    for x in 0..50 {
        for y in 0..50 {
            assert_eq!(a.tile_kind(pos(x, y)), b.tile_kind(pos(x, y)));
        }
    }
    let c = Level::generate(40, 30, 99, (3, 4), (8, 9)).unwrap();
    let d = Level::generate(40, 30, 99, (3, 4), (8, 9)).unwrap();
    assert_eq!(c.size, (40, 30));
    assert_eq!(floors(&c), floors(&d));
    assert!(!floors(&c).is_empty());
}

#[test]
fn game_level_floor_is_connected() {
    let level = Level::new();
    let cells = floors(&level);
    assert_eq!(reachable(&level, &cells), cells.len());
}

#[test]
fn generated_floors_are_connected_for_several_seeds() {
    for seed in [1u64, 2, 3, 42, 1234] {
        let level = Level::generate(50, 50, seed, (3, 5), (10, 15)).unwrap();
        let cells = floors(&level);
        assert_eq!(reachable(&level, &cells), cells.len(), "seed {}", seed);
    }
}

#[test]
fn generation_refuses_bad_configurations() {
    let bad = Some(ConfigurationError::RoomsDoNotFit);
    assert_eq!(error_of(Level::generate(19, 50, 5, (3, 5), (10, 15))), bad);
    assert_eq!(error_of(Level::generate(50, 19, 5, (3, 5), (10, 15))), bad);
    assert_eq!(error_of(Level::generate(50, 50, 5, (10, 5), (10, 15))), bad);
    assert_eq!(error_of(Level::generate(50, 50, 5, (3, 15), (10, 15))), bad);
    assert_eq!(error_of(Level::generate(50, 50, 5, (3, 5), (50, 15))), bad);
    assert_eq!(error_of(Level::generate(50, 50, 5, (3, 5), (10, 50))), bad);
    assert_eq!(error_of(Level::generate(50, 50, 5, (0, 5), (10, 15))), bad);
    assert_eq!(error_of(Level::generate(50, 50, 5, (3, 0), (10, 15))), bad);
    assert_eq!(error_of(Level::generate(50, 50, 5, (12, 5), (14, 11))), bad);
    assert_eq!(error_of(Level::generate(2000, 50, 5, (3, 5), (10, 15))), bad);
    assert_eq!(error_of(Level::generate(20, 20, 5, (3, 5), (10, 15))), None);
}

#[test]
fn layout_marks_floors_and_ignores_cells_off_the_grid() {
    let cells = vec![(1, 1, false), (2, 1, true), (9, 9, false), (3, 0, false), (3, 0, true)];
    let level = Level::from_layout(4, 3, &cells, 1).unwrap();
    assert_eq!(level.size, (4, 3));
    assert_eq!(level.tile_kind(pos(1, 1)), Some(TileType::FLOOR));
    assert_eq!(level.tile_kind(pos(2, 1)), Some(TileType::WALL));
    assert_eq!(level.tile_kind(pos(3, 0)), Some(TileType::FLOOR));
    assert_eq!(level.tile_kind(pos(0, 0)), Some(TileType::WALL));
    assert_eq!(level.tile_kind(pos(4, 0)), None);
    assert_eq!(level.tile_kind(pos(0, 3)), None);
    assert_eq!(floors(&level).len(), 2);
}

#[test]
fn layout_of_empty_grid_is_refused() {
    let cells = Vec::new();
    assert_eq!(error_of(Level::from_layout(0, 3, &cells, 1)), Some(ConfigurationError::RoomsDoNotFit));
    assert_eq!(error_of(Level::from_layout(3, 0, &cells, 1)), Some(ConfigurationError::RoomsDoNotFit));
    assert_eq!(error_of(Level::from_layout(16385, 1, &cells, 1)), Some(ConfigurationError::RoomsDoNotFit));
}

#[test]
fn placement_finds_the_only_spawn_cell() {
    let cells = vec![(3, 2, false), (0, 1, false)];
    let mut level = Level::from_layout(6, 4, &cells, 3).unwrap();
    assert!(level.place_at_random_valid_point(MobType::ORC));
    assert_eq!(level.mobs, vec![(pos(3, 2), MobType::ORC)]);
    // the cell is taken now
    assert!(!level.place_at_random_valid_point(MobType::GOBLIN));
    assert_eq!(level.mobs.len(), 1);
}

#[test]
fn populate_is_all_or_nothing_when_cells_run_out() {
    let cells = vec![(3, 2, false), (4, 2, false)];
    let mut level = Level::from_layout(6, 4, &cells, 3).unwrap();
    assert!(!level.populate(&vec![(MobType::PLAYER, 1), (MobType::GOBLIN, 2)]));
    assert!(level.mobs.is_empty());
    assert!(level.populate(&vec![(MobType::PLAYER, 1), (MobType::GOBLIN, 1)]));
    assert_eq!(level.mobs.len(), 2);
    assert_ne!(level.mobs[0].0, level.mobs[1].0);
}

#[test]
fn placement_fails_without_spawn_cell() {
    // a floor on the first column is not a spawn cell
    let cells = vec![(0, 2, false)];
    let mut level = Level::from_layout(6, 4, &cells, 3).unwrap();
    assert!(!level.place_at_random_valid_point(MobType::PLAYER));
    assert!(level.mobs.is_empty());
    assert!(!level.populate(&vec![(MobType::PLAYER, 1)]));
    assert!(level.mobs.is_empty());
    assert!(level.populate(&vec![(MobType::GOBLIN, 0)]));
}

#[test]
fn placements_land_on_spawn_cells() {
    let mut level = Level::new();
    assert!(level.populate(&vec![(MobType::PLAYER, 1), (MobType::GOBLIN, 2), (MobType::ORC, 0), (MobType::ORC, 1)]));
    let kinds: Vec<MobType> = level.mobs.iter().map(|m| m.1).collect();
    assert_eq!(kinds, vec![MobType::PLAYER, MobType::GOBLIN, MobType::GOBLIN, MobType::ORC]);
    for (p, _) in level.mobs.iter() {
        assert!(p.x >= 1 && p.y >= 1);
        assert_eq!(level.tile_kind(*p), Some(TileType::FLOOR));
    }
}

#[test]
fn setup_places_player_goblins_and_orcs() {
    let level = Level::setup().unwrap();
    let kinds: Vec<MobType> = level.mobs.iter().map(|m| m.1).collect();
    assert_eq!(
        kinds,
        vec![
            MobType::PLAYER,
            MobType::GOBLIN,
            MobType::GOBLIN,
            MobType::GOBLIN,
            MobType::GOBLIN,
            MobType::ORC,
            MobType::ORC
        ]
    );
    for (i, (p, _)) in level.mobs.iter().enumerate() {
        assert_eq!(level.tile_kind(*p), Some(TileType::FLOOR));
        for (q, _) in level.mobs.iter().skip(i + 1) {
            assert_ne!(p, q);
        }
    }
    let dir = ActorDirectory::from_level(&level);
    assert_eq!(dir.actors.len(), 7);
    assert_eq!(dir.actor_health(0), Some(10));
    assert_eq!(dir.actor_health(1), Some(3));
    assert_eq!(dir.actor_health(6), Some(4));
    for i in 0..7 {
        let a = dir.actors[i].as_ref().unwrap();
        assert_eq!(a.position, level.mobs[i].0);
        assert_eq!(a.pov.range, 8);
        assert!(a.moved);
    }
}

#[test]
fn new_level_builds_and_places() {
    let requests = vec![(MobType::PLAYER, 1), (MobType::ORC, 3)];
    let level = Level::new_level(30, 25, 8, (3, 3), (6, 6), &requests).unwrap();
    assert_eq!(level.size, (30, 25));
    assert_eq!(level.mobs.len(), 4);
    assert_eq!(error_of(Level::new_level(10, 25, 8, (3, 3), (6, 6), &requests)), Some(ConfigurationError::RoomsDoNotFit));
}

#[test]
fn random_placements_spread_over_the_floor() {
    let mut cells = Vec::new();
    for x in 0..20 {
        for y in 0..20 {
            cells.push((x, y, false));
        }
    }
    let mut level = Level::from_layout(20, 20, &cells, 17).unwrap();
    assert!(level.populate(&vec![(MobType::GOBLIN, 20)]));
    for (i, m) in level.mobs.iter().enumerate() {
        for n in level.mobs.iter().skip(i + 1) {
            assert_ne!(m.0, n.0);
        }
    }
    // the draws do not walk the cells in order
    assert!(level.mobs.iter().any(|m| m.0.x != 1));
    for (p, _) in level.mobs.iter() {
        assert!(p.x >= 1 && p.x < 20 && p.y >= 1 && p.y < 20);
    }
}
