use dungeon_core::grid::{Grid, Tile, ViewStatus, FLOOR_SPRITE, WALL_SPRITE};
use dungeon_core::position::{distance, CardinalDirection, Position, PositionDelta};

#[test]
fn get_returns_absent_iff_out_of_bounds() {
    let g = Grid::new(8, 6);
    assert!(g.get(0, 0).is_some());
    assert!(g.get(7, 5).is_some());
    assert!(g.get(8, 0).is_none());
    assert!(g.get(0, 6).is_none());
    assert!(g.get(8, 6).is_none());
    // Never panics, even for enormous coordinates.
    assert!(g.get(usize::MAX, 0).is_none());
    assert!(g.get(0, usize::MAX).is_none());
    assert!(g.get(usize::MAX, usize::MAX).is_none());
}

#[test]
fn new_grid_is_all_default_walls() {
    let g = Grid::new(4, 3);
    for x in 0..4 {
        for y in 0..3 {
            let t = g.get(x, y).unwrap();
            assert_eq!(t.sprite_index, WALL_SPRITE);
            assert!(!t.passable);
            assert!(t.view_status == ViewStatus::Unexplored);
        }
    }
    assert!(g.player_spawn_points.is_empty());
    assert!(g.enemy_spawn_points.is_empty());
}

#[test]
fn set_writes_one_tile_only() {
    let mut g = Grid::new(5, 5);
    let t = Tile { sprite_index: 7, passable: true, view_status: ViewStatus::Seen };
    g.set(2, 3, t);
    let read = g.get(2, 3).unwrap();
    assert_eq!(read.sprite_index, 7);
    assert!(read.passable);
    assert!(read.view_status == ViewStatus::Seen);
    let other = g.get(3, 2).unwrap();
    assert_eq!(other.sprite_index, WALL_SPRITE);
    assert!(!other.passable);
}

#[test]
fn reset_restores_default_tiles() {
    let mut g = Grid::new(5, 5);
    g.carve(1, 1);
    g.carve(2, 2);
    g.player_spawn_points.push((1, 1));
    g.enemy_spawn_points.push((2, 2));
    assert!(g.get(1, 1).unwrap().passable);
    g.reset();
    assert!(g.player_spawn_points.is_empty());
    assert!(g.enemy_spawn_points.is_empty());
    for x in 0..5 {
        for y in 0..5 {
            let t = g.get(x, y).unwrap();
            assert!(!t.passable);
            assert_eq!(t.sprite_index, WALL_SPRITE);
            assert!(t.view_status == ViewStatus::Unexplored);
        }
    }
}

#[test]
fn carve_marks_floor() {
    let mut g = Grid::new(5, 5);
    g.carve(4, 0);
    let t = g.get(4, 0).unwrap();
    assert!(t.passable);
    assert_eq!(t.sprite_index, FLOOR_SPRITE);
    assert!(t.view_status == ViewStatus::Unexplored);
}

#[test]
fn position_add_saturates_at_zero() {
    let p = Position::new(0, 0);
    let q = p.add(PositionDelta::new(-1, -1));
    assert_eq!(q.x, 0);
    assert_eq!(q.y, 0);
}

#[test]
fn position_add_saturates_at_max() {
    let p = Position::new(usize::MAX, 5);
    let q = p.add(PositionDelta::new(1, 0));
    assert_eq!(q.x, usize::MAX);
    assert_eq!(q.y, 5);
}

#[test]
fn position_add_plain_offsets() {
    let p = Position::new(2, 3);
    let q = p.add(PositionDelta::new(1, -1));
    assert_eq!(q.x, 3);
    assert_eq!(q.y, 2);
}

#[test]
fn chebyshev_distance_values() {
    assert_eq!(distance((0, 0), (0, 0)), 0);
    assert_eq!(distance((0, 0), (3, 1)), 3);
    assert_eq!(distance((5, 2), (1, 9)), 7);
    assert_eq!(distance((4, 4), (5, 5)), 1);
}

#[test]
fn direction_deltas() {
    assert_eq!(CardinalDirection::Up.delta().y, 1);
    assert_eq!(CardinalDirection::Up.delta().x, 0);
    assert_eq!(CardinalDirection::Down.delta().y, -1);
    assert_eq!(CardinalDirection::Left.delta().x, -1);
    assert_eq!(CardinalDirection::Right.delta().x, 1);
}

#[test]
fn default_tile_values() {
    let t = Tile::default();
    assert_eq!(t.sprite_index, 206);
    assert!(!t.passable);
    assert!(t.view_status == ViewStatus::Unexplored);
}
