use grid_rogue::components::Position;
use grid_rogue::fov::bresenham_line_enhanced;
use grid_rogue::map::Level;

fn pos(x: i32, y: i32) -> Position {
    Position { x, y }
}

/// A width by height level of floor with walls at the given cells.
fn open_level(width: usize, height: usize, walls: &[(usize, usize)]) -> Level {
    let mut cells = Vec::new();
    for x in 0..width {
        for y in 0..height {
            cells.push((x, y, walls.contains(&(x, y))));
        }
    }
    match Level::from_layout(width, height, &cells, 7) {
        Ok(l) => l,
        Err(e) => panic!("layout refused: {:?}", e),
    }
}

fn light_of(tiles: &[(Position, i32)], p: Position) -> Option<i32> {
    tiles.iter().find(|t| t.0 == p).map(|t| t.1)
}

#[test]
fn wall_face_seen_and_cell_behind_hidden() {
    let mut level = open_level(5, 5, &[(2, 2)]);
    let pov = level.compute_visibility(pos(0, 2), 5);
    assert_eq!(light_of(&pov.visible_tiles, pos(2, 2)), Some(2));
    assert_eq!(light_of(&pov.visible_tiles, pos(4, 2)), None);
    assert_eq!(light_of(&pov.visible_tiles, pos(4, 4)), Some(6));
    assert_eq!(light_of(&pov.visible_tiles, pos(0, 2)), Some(0));
    assert_eq!(light_of(&pov.visible_tiles, pos(3, 2)), None);
}

#[test]
fn each_visible_cell_listed_once_with_manhattan_light() {
    let mut level = open_level(5, 5, &[(2, 2)]);
    let pov = level.compute_visibility(pos(0, 2), 5);
    for (i, (p, light)) in pov.visible_tiles.iter().enumerate() {
        assert!(p.x >= 0 && p.x < 5 && p.y >= 0 && p.y < 5);
        assert!(p.x >= -5 && p.x < 5 && p.y >= -3 && p.y < 7);
        assert_eq!(*light, p.x.abs() + (p.y - 2).abs());
        for (q, _) in pov.visible_tiles.iter().skip(i + 1) {
            assert_ne!(p, q);
        }
    }
    // every cell but (3, 2), (4, 1), (4, 2) and (4, 3), whose lines cross the wall
    assert_eq!(pov.visible_tiles.len(), 21);
    assert_eq!(light_of(&pov.visible_tiles, pos(4, 1)), None);
    assert_eq!(light_of(&pov.visible_tiles, pos(4, 3)), None);
    assert_eq!(light_of(&pov.visible_tiles, pos(3, 3)), Some(4));
    assert_eq!(pov.range, 5);
}

#[test]
fn second_computation_from_same_cell_reveals_nothing_new() {
    let mut level = open_level(5, 5, &[(2, 2)]);
    let first = level.compute_visibility(pos(0, 2), 5);
    assert_eq!(first.newly_revealed_tiles.len(), first.visible_tiles.len());
    let second = level.compute_visibility(pos(0, 2), 5);
    let mut a = first.visible_tiles.clone();
    let mut b = second.visible_tiles.clone();
    a.sort_by_key(|t| (t.0.x, t.0.y));
    b.sort_by_key(|t| (t.0.x, t.0.y));
    assert_eq!(a, b);
    assert!(second.newly_revealed_tiles.is_empty());
}

#[test]
fn revealed_cells_stay_revealed() {
    let mut level = open_level(9, 3, &[(4, 0), (4, 1), (4, 2)]);
    assert!(!level.is_ever_revealed(pos(0, 1)));
    let first = level.compute_visibility(pos(2, 1), 3);
    assert_eq!(first.newly_revealed_tiles.len(), 15);
    assert!(level.is_ever_revealed(pos(0, 1)));
    assert!(level.is_ever_revealed(pos(4, 1)));
    assert!(!level.is_ever_revealed(pos(6, 1)));
    let second = level.compute_visibility(pos(6, 1), 3);
    assert!(level.is_ever_revealed(pos(0, 1)));
    assert!(level.is_ever_revealed(pos(6, 1)));
    assert!(second.newly_revealed_tiles.contains(&pos(6, 1)));
    // the wall column was already in the ledger
    assert!(light_of(&second.visible_tiles, pos(4, 1)).is_some());
    assert!(!second.newly_revealed_tiles.contains(&pos(4, 1)));
    assert_eq!(second.newly_revealed_tiles.len(), 12);
    // the cells behind the wall are hidden from the second observer
    assert_eq!(light_of(&second.visible_tiles, pos(3, 1)), None);
}

#[test]
fn observer_off_grid_sees_nothing() {
    let mut level = open_level(5, 5, &[]);
    let pov = level.compute_visibility(pos(-1, 2), 5);
    assert!(pov.visible_tiles.is_empty());
    assert!(pov.newly_revealed_tiles.is_empty());
    assert!(!level.is_ever_revealed(pos(0, 2)));
    let pov = level.compute_visibility(pos(5, 2), 5);
    assert!(pov.visible_tiles.is_empty());
}

#[test]
fn zero_range_sees_nothing() {
    let mut level = open_level(5, 5, &[]);
    let pov = level.compute_visibility(pos(2, 2), 0);
    assert!(pov.visible_tiles.is_empty());
    let pov = level.compute_visibility(pos(2, 2), -3);
    assert!(pov.visible_tiles.is_empty());
}

#[test]
fn range_one_sees_the_square_below_and_left() {
    let mut level = open_level(5, 5, &[]);
    let pov = level.compute_visibility(pos(2, 2), 1);
    let mut cells: Vec<(i32, i32)> = pov.visible_tiles.iter().map(|t| (t.0.x, t.0.y)).collect();
    cells.sort();
    assert_eq!(cells, vec![(1, 1), (1, 2), (2, 1), (2, 2)]);
    assert_eq!(light_of(&pov.visible_tiles, pos(1, 1)), Some(2));
}

#[test]
fn observer_on_wall_sees_past_walls() {
    let mut level = open_level(5, 5, &[(0, 2), (2, 2)]);
    let pov = level.compute_visibility(pos(0, 2), 5);
    assert_eq!(light_of(&pov.visible_tiles, pos(4, 2)), Some(4));
}

#[test]
fn sightline_is_symmetric_in_its_endpoints() {
    let level = open_level(6, 6, &[(2, 1), (3, 4)]);
    for ax in 0..6 {
        for ay in 0..6 {
            for bx in 0..6 {
                for by in 0..6 {
                    assert_eq!(
                        bresenham_line_enhanced(&level, pos(ax, ay), pos(bx, by)),
                        bresenham_line_enhanced(&level, pos(bx, by), pos(ax, ay))
                    );
                }
            }
        }
    }
}

#[test]
fn steep_and_diagonal_lines_are_blocked_by_walls() {
    let level = open_level(6, 6, &[(2, 2), (1, 3)]);
    // diagonal through (2, 2)
    assert_eq!(bresenham_line_enhanced(&level, pos(0, 0), pos(4, 4)), None);
    // vertical line through (1, 3)
    assert_eq!(bresenham_line_enhanced(&level, pos(1, 0), pos(1, 5)), None);
    // steep line from (0, 0) to (1, 5) passes (0,1), (0,2), (1,3): blocked
    assert_eq!(bresenham_line_enhanced(&level, pos(0, 0), pos(1, 5)), None);
    // the wall itself and the open neighbour are seen
    assert_eq!(bresenham_line_enhanced(&level, pos(0, 0), pos(2, 2)), Some(4));
    assert_eq!(bresenham_line_enhanced(&level, pos(0, 0), pos(5, 0)), Some(5));
    assert_eq!(bresenham_line_enhanced(&level, pos(3, 3), pos(3, 3)), Some(0));
}

#[test]
fn cells_with_a_negative_coordinate_are_never_seen() {
    let level = open_level(5, 5, &[(0, 0)]);
    assert_eq!(bresenham_line_enhanced(&level, pos(1, 1), pos(-1, 1)), None);
    assert_eq!(bresenham_line_enhanced(&level, pos(1, -2), pos(1, 1)), None);
    assert_eq!(bresenham_line_enhanced(&level, pos(-3, -3), pos(0, 0)), None);
    assert_eq!(bresenham_line_enhanced(&level, pos(i32::MIN, 0), pos(1, 1)), None);
}

#[test]
fn cells_beyond_the_grid_count_as_open() {
    let level = open_level(5, 5, &[(2, 1)]);
    assert_eq!(bresenham_line_enhanced(&level, pos(1, 3), pos(9, 3)), Some(8));
    assert_eq!(bresenham_line_enhanced(&level, pos(7, 7), pos(20, 40)), Some(46));
    // a line leaving the grid through a wall is still blocked
    assert_eq!(bresenham_line_enhanced(&level, pos(0, 1), pos(8, 1)), None);
    // a wall endpoint is seen from beyond the grid
    assert_eq!(bresenham_line_enhanced(&level, pos(9, 1), pos(2, 1)), Some(7));
    let far = 1 << 29;
    assert_eq!(bresenham_line_enhanced(&level, pos(far, far), pos(far, far)), Some(0));
    assert_eq!(bresenham_line_enhanced(&level, pos(far, far - 3), pos(far - 1, far)), Some(4));
}

#[test]
fn sightline_symmetry_holds_off_the_grid_too() {
    let level = open_level(4, 4, &[(1, 1), (2, 3)]);
    for ax in 0..7 {
        for ay in 0..7 {
            for bx in 0..7 {
                for by in 0..7 {
                    assert_eq!(
                        bresenham_line_enhanced(&level, pos(ax, ay), pos(bx, by)),
                        bresenham_line_enhanced(&level, pos(bx, by), pos(ax, ay))
                    );
                }
            }
        }
    }
}
