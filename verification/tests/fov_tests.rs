use dungeon_core::grid::{Grid, Tile, ViewStatus};
use dungeon_core::position::Position;

fn open_grid(w: usize, h: usize) -> Grid {
    let mut g = Grid::new(w, h);
    for x in 0..w {
        for y in 0..h {
            g.carve(x, y);
        }
    }
    g
}

fn dist2(a: (usize, usize), b: (usize, usize)) -> i64 {
    let dx = a.0 as i64 - b.0 as i64;
    let dy = a.1 as i64 - b.1 as i64;
    dx * dx + dy * dy
}

#[test]
fn unobstructed_cast_lights_exactly_the_disk() {
    let mut g = open_grid(21, 21);
    let origin = (10, 10);
    let radius: i64 = 5;
    g.calculate_fov(Position::new(origin.0, origin.1), radius as usize);
    for x in 0..21 {
        for y in 0..21 {
            let seen = g.get(x, y).unwrap().view_status == ViewStatus::Seen;
            let inside = dist2((x, y), origin) < radius * radius;
            assert_eq!(
                seen, inside,
                "cell ({}, {}): seen={} but inside-disk={}",
                x, y, seen, inside
            );
        }
    }
}

#[test]
fn unobstructed_cast_is_octant_symmetric() {
    let mut g = open_grid(21, 21);
    g.calculate_fov(Position::new(10, 10), 5);
    for dx in 0..5i64 {
        for dy in 0..5i64 {
            let marks = [
                (10 + dx, 10 + dy),
                (10 - dx, 10 + dy),
                (10 + dx, 10 - dy),
                (10 - dx, 10 - dy),
                (10 + dy, 10 + dx),
                (10 - dy, 10 + dx),
                (10 + dy, 10 - dx),
                (10 - dy, 10 - dx),
            ];
            let statuses: Vec<bool> = marks
                .iter()
                .map(|&(x, y)| {
                    g.get(x as usize, y as usize).unwrap().view_status == ViewStatus::Seen
                })
                .collect();
            assert!(
                statuses.iter().all(|&s| s == statuses[0]),
                "octant asymmetry at offset ({}, {})",
                dx,
                dy
            );
        }
    }
}

#[test]
fn single_wall_shadows_cells_behind_it() {
    let mut g = open_grid(21, 21);
    // An impassable cell two steps east of the observer.
    let mut t = g.get(12, 10).unwrap();
    t.passable = false;
    g.set(12, 10, t);
    g.calculate_fov(Position::new(10, 10), 5);
    // The wall itself is lit, the cells straight behind it are not.
    assert!(g.get(12, 10).unwrap().view_status == ViewStatus::Seen);
    assert!(g.get(13, 10).unwrap().view_status != ViewStatus::Seen);
    assert!(g.get(14, 10).unwrap().view_status != ViewStatus::Seen);
    // Unobstructed neighbours stay visible.
    assert!(g.get(11, 10).unwrap().view_status == ViewStatus::Seen);
    assert!(g.get(10, 12).unwrap().view_status == ViewStatus::Seen);
}

#[test]
fn observer_tile_is_seen() {
    let mut g = open_grid(9, 9);
    g.calculate_fov(Position::new(4, 4), 3);
    assert!(g.get(4, 4).unwrap().view_status == ViewStatus::Seen);
}

#[test]
fn seen_decays_to_revealed_not_unexplored() {
    let mut g = open_grid(30, 9);
    g.calculate_fov(Position::new(4, 4), 3);
    assert!(g.get(4, 4).unwrap().view_status == ViewStatus::Seen);
    assert!(g.get(5, 4).unwrap().view_status == ViewStatus::Seen);
    // Recompute from far away: the old neighbourhood is no longer lit.
    g.calculate_fov(Position::new(25, 4), 3);
    assert!(g.get(4, 4).unwrap().view_status == ViewStatus::Revealed);
    assert!(g.get(5, 4).unwrap().view_status == ViewStatus::Revealed);
    // Never-seen distant cells stay unexplored.
    assert!(g.get(15, 8).unwrap().view_status == ViewStatus::Unexplored);
}

#[test]
fn reset_fov_decays_only_seen() {
    let mut g = Grid::new(4, 4);
    g.set(0, 0, Tile { sprite_index: 1, passable: true, view_status: ViewStatus::Seen });
    g.set(1, 0, Tile { sprite_index: 1, passable: true, view_status: ViewStatus::Revealed });
    g.set(2, 0, Tile { sprite_index: 1, passable: true, view_status: ViewStatus::Unexplored });
    g.reset_fov();
    assert!(g.get(0, 0).unwrap().view_status == ViewStatus::Revealed);
    assert!(g.get(1, 0).unwrap().view_status == ViewStatus::Revealed);
    assert!(g.get(2, 0).unwrap().view_status == ViewStatus::Unexplored);
}

#[test]
fn is_blocked_treats_off_grid_as_blocking() {
    let mut g = Grid::new(4, 4);
    g.carve(1, 1);
    assert!(g.is_blocked(-1, 0));
    assert!(g.is_blocked(0, -1));
    assert!(g.is_blocked(4, 0));
    assert!(g.is_blocked(0, 4));
    assert!(g.is_blocked(0, 0)); // wall tile
    assert!(!g.is_blocked(1, 1)); // carved floor
}

#[test]
fn walls_inside_radius_are_lit_but_preserve_passability() {
    let mut g = open_grid(11, 11);
    let mut t = g.get(6, 5).unwrap();
    t.passable = false;
    g.set(6, 5, t);
    g.calculate_fov(Position::new(5, 5), 4);
    let after = g.get(6, 5).unwrap();
    assert!(!after.passable);
    assert!(after.view_status == ViewStatus::Seen);
}
