use dungeon_core::generation::{CavernSettings, GenerationError, MapGeneratorSettings};
use dungeon_core::grid::{Grid, FLOOR_SPRITE};
use dungeon_core::rng::{RngSource, SeededRng};

#[test]
fn seeded_rng_stays_below_bound() {
    let mut rng = SeededRng::new(12345);
    for bound in 1..50 {
        for _ in 0..20 {
            assert!(rng.next_below(bound) < bound);
        }
    }
}

#[test]
fn seeded_rng_is_deterministic() {
    let mut a = SeededRng::new(7);
    let mut b = SeededRng::new(7);
    for _ in 0..100 {
        assert_eq!(a.next_below(1000), b.next_below(1000));
    }
}

#[test]
fn thread_random_stays_below_bound() {
    let mut rng = dungeon_core::rng::ThreadRandom::new();
    for bound in 1..20 {
        for _ in 0..10 {
            assert!(rng.next_below(bound) < bound);
        }
    }
}

#[test]
fn spawn_point_wrappers_carry_points() {
    let p = dungeon_core::grid::PlayerSpawnPoints { points: vec![(1, 2)] };
    let e = dungeon_core::grid::EnemySpawnPoints { points: vec![(3, 4), (5, 6)] };
    assert_eq!(p.points[0], (1, 2));
    assert_eq!(e.points.len(), 2);
}

#[test]
fn default_cavern_settings_values() {
    let s = CavernSettings::default();
    assert_eq!(s.cavern_count, 6);
    assert_eq!(s.max_cavern_dist, 70);
    assert_eq!(s.walk_count, 100);
    assert_eq!(s.walk_len, 50);
    let MapGeneratorSettings::Cavern(d) = MapGeneratorSettings::default();
    assert_eq!(d, s);
}

#[test]
fn random_walk_carves_in_bounds_floor() {
    let mut g = Grid::new(16, 16);
    let mut rng = SeededRng::new(3);
    let path = g.random_walk(8, 8, 40, &mut rng);
    assert_eq!(path.len(), 40);
    for &(x, y) in &path {
        assert!(x < 16 && y < 16);
        let t = g.get(x, y).unwrap();
        assert!(t.passable);
        assert_eq!(t.sprite_index, FLOOR_SPRITE);
    }
}

#[test]
fn tunnel_connects_two_pockets() {
    let mut g = Grid::new(32, 8);
    g.carve(2, 4);
    g.carve(29, 4);
    assert!(g.get_path((2, 4), (29, 4)).is_none());
    let mut rng = SeededRng::new(11);
    let carved = g.generate_connecting_tunnel((2, 4), (29, 4), &mut rng);
    assert!(carved.is_ok());
    assert!(g.get_path((2, 4), (29, 4)).is_some());
}

#[test]
fn single_cavern_map_is_connected() {
    let mut g = Grid::new(64, 64);
    let settings = CavernSettings {
        cavern_count: 1,
        max_cavern_dist: 10,
        walk_count: 30,
        walk_len: 30,
    };
    let mut rng = SeededRng::new(42);
    let r = g.generate_caverns(settings, &mut rng);
    assert!(r.is_ok());
    // Exactly one player spawn point, at the grid's center.
    assert_eq!(g.player_spawn_points.len(), 1);
    assert_eq!(g.player_spawn_points[0], (32, 32));
    assert!(g.get(32, 32).unwrap().passable);
    // Every enemy spawn point lies in the connected region of the center.
    for &p in &g.enemy_spawn_points {
        assert!(p.0 < 64 && p.1 < 64);
        assert!(g.get(p.0, p.1).unwrap().passable);
        assert!(g.get_path((32, 32), p).is_some());
        assert_ne!(p, (32, 32));
    }
    // Enemy spawn points are pairwise distinct.
    for i in 0..g.enemy_spawn_points.len() {
        for j in 0..i {
            assert_ne!(g.enemy_spawn_points[i], g.enemy_spawn_points[j]);
        }
    }
    // The passable cells form one region connected to the center.
    for x in 0..64 {
        for y in 0..64 {
            if g.get(x, y).unwrap().passable {
                assert!(g.get_path((32, 32), (x, y)).is_some());
            }
        }
    }
}

#[test]
fn multi_cavern_map_spawns_are_reachable() {
    let mut g = Grid::new(80, 80);
    let settings = CavernSettings {
        cavern_count: 3,
        max_cavern_dist: 16,
        walk_count: 20,
        walk_len: 25,
    };
    let mut rng = SeededRng::new(2024);
    let r = g.generate_caverns(settings, &mut rng);
    assert!(r.is_ok());
    let origin = g.player_spawn_points[0];
    assert_eq!(origin, (40, 40));
    for &p in &g.enemy_spawn_points {
        assert!(g.get_path(origin, p).is_some());
    }
}

#[test]
fn impossible_spacing_reports_generation_failed() {
    let mut g = Grid::new(16, 16);
    let settings = CavernSettings {
        cavern_count: 3,
        max_cavern_dist: 1000,
        walk_count: 5,
        walk_len: 5,
    };
    let mut rng = SeededRng::new(1);
    let r = g.generate_caverns(settings, &mut rng);
    assert!(r == Err(GenerationError::GenerationFailed));
    assert!(g.player_spawn_points.is_empty());
    assert!(g.enemy_spawn_points.is_empty());
}

#[test]
fn generation_is_deterministic_for_a_seed() {
    let settings = CavernSettings {
        cavern_count: 2,
        max_cavern_dist: 12,
        walk_count: 20,
        walk_len: 20,
    };
    let mut g1 = Grid::new(48, 48);
    let mut g2 = Grid::new(48, 48);
    let mut r1 = SeededRng::new(555);
    let mut r2 = SeededRng::new(555);
    assert!(g1.generate_caverns(settings, &mut r1).is_ok());
    assert!(g2.generate_caverns(settings, &mut r2).is_ok());
    assert_eq!(g1.player_spawn_points, g2.player_spawn_points);
    assert_eq!(g1.enemy_spawn_points, g2.enemy_spawn_points);
    for x in 0..48 {
        for y in 0..48 {
            assert!(g1.get(x, y).unwrap().passable == g2.get(x, y).unwrap().passable);
        }
    }
}

#[test]
fn generate_dispatches_to_caverns() {
    let mut g = Grid::new(48, 48);
    let settings = MapGeneratorSettings::Cavern(CavernSettings {
        cavern_count: 1,
        max_cavern_dist: 8,
        walk_count: 10,
        walk_len: 15,
    });
    let mut rng = SeededRng::new(9);
    assert!(g.generate(settings, &mut rng).is_ok());
    assert_eq!(g.player_spawn_points, vec![(24, 24)]);
}
