use dungeon_core::grid::Grid;

fn open_grid(w: usize, h: usize) -> Grid {
    let mut g = Grid::new(w, h);
    for x in 0..w {
        for y in 0..h {
            g.carve(x, y);
        }
    }
    g
}

fn step_cost(a: (usize, usize), b: (usize, usize)) -> usize {
    if a.0 != b.0 && a.1 != b.1 {
        2
    } else {
        1
    }
}

fn total_cost(start: (usize, usize), path: &[(usize, usize)]) -> usize {
    let mut cost = 0;
    let mut prev = start;
    for &p in path {
        cost += step_cost(prev, p);
        prev = p;
    }
    cost
}

fn assert_path_valid(g: &Grid, start: (usize, usize), target: (usize, usize), path: &[(usize, usize)]) {
    assert!(!path.is_empty());
    assert_eq!(*path.last().unwrap(), target);
    let mut prev = start;
    for &p in path {
        let dx = prev.0.abs_diff(p.0);
        let dy = prev.1.abs_diff(p.1);
        assert_eq!(dx.max(dy), 1, "step {:?} -> {:?} is not adjacent", prev, p);
        assert!(g.get(p.0, p.1).unwrap().passable);
        prev = p;
    }
}

#[test]
fn path_to_self_is_empty() {
    let g = open_grid(5, 5);
    let p = g.get_path((2, 2), (2, 2)).unwrap();
    assert!(p.is_empty());
}

#[test]
fn straight_corridor_cost_is_minimal() {
    let g = open_grid(5, 5);
    let p = g.get_path((0, 0), (4, 0)).unwrap();
    assert_path_valid(&g, (0, 0), (4, 0), &p);
    assert_eq!(total_cost((0, 0), &p), 4);
}

#[test]
fn diagonal_route_cost_is_minimal() {
    let g = open_grid(6, 6);
    let p = g.get_path((0, 0), (3, 3)).unwrap();
    assert_path_valid(&g, (0, 0), (3, 3), &p);
    // Three diagonal steps at cost 2, or six cardinal steps at cost 1.
    assert_eq!(total_cost((0, 0), &p), 6);
}

#[test]
fn knight_like_target_cost_is_minimal() {
    let g = open_grid(6, 6);
    let p = g.get_path((0, 0), (3, 1)).unwrap();
    assert_path_valid(&g, (0, 0), (3, 1), &p);
    // One diagonal (2) plus two cardinal steps (2), or four cardinal steps.
    assert_eq!(total_cost((0, 0), &p), 4);
}

#[test]
fn wall_forces_detour() {
    let mut g = open_grid(5, 5);
    // A vertical wall at x == 2 with a gap at y == 4.
    for y in 0..4 {
        let mut t = g.get(2, y).unwrap();
        t.passable = false;
        g.set(2, y, t);
    }
    let p = g.get_path((0, 0), (4, 0)).unwrap();
    assert_path_valid(&g, (0, 0), (4, 0), &p);
    for &c in &p {
        assert!(!(c.0 == 2 && c.1 < 4), "path crosses the wall at {:?}", c);
    }
    // Detour through the gap at (2, 4): 4 diagonal-ish rows up and down.
    assert!(total_cost((0, 0), &p) > 4);
}

#[test]
fn no_path_when_disconnected() {
    let mut g = open_grid(5, 5);
    // A full vertical wall at x == 2 disconnects the halves.
    for y in 0..5 {
        let mut t = g.get(2, y).unwrap();
        t.passable = false;
        g.set(2, y, t);
    }
    assert!(g.get_path((0, 0), (4, 0)).is_none());
    assert!(g.get_path((0, 4), (4, 4)).is_none());
}

#[test]
fn impassable_target_is_unreachable() {
    let mut g = open_grid(5, 5);
    let mut t = g.get(3, 3).unwrap();
    t.passable = false;
    g.set(3, 3, t);
    assert!(g.get_path((0, 0), (3, 3)).is_none());
}

#[test]
fn path_excludes_start() {
    let g = open_grid(5, 5);
    let p = g.get_path((1, 1), (3, 1)).unwrap();
    assert!(!p.contains(&(1, 1)));
}
