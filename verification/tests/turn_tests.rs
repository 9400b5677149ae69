use dungeon_core::grid::{Grid, Tile, ViewStatus};
use dungeon_core::position::{CardinalDirection, Position, PositionDelta};
use dungeon_core::rng::SeededRng;
use dungeon_core::turn::{play_turn, TurnEngine, TurnState};

fn open_grid(w: usize, h: usize) -> Grid {
    let mut g = Grid::new(w, h);
    for x in 0..w {
        for y in 0..h {
            g.carve(x, y);
        }
    }
    g
}

#[test]
fn valid_player_move_transitions_to_enemy() {
    let g = open_grid(5, 5);
    let mut t = TurnEngine::new(Position::new(2, 2), &Vec::new());
    assert!(t.current_state() == TurnState::Player);
    let accepted = t.submit_player_intent(CardinalDirection::Right, &g);
    assert!(accepted);
    assert_eq!(t.player_pos.x, 3);
    assert_eq!(t.player_pos.y, 2);
    assert!(t.current_state() == TurnState::Enemy);
    assert!(t.player_just_moved);
}

#[test]
fn move_into_wall_is_rejected() {
    let mut g = open_grid(5, 5);
    let mut w = g.get(3, 2).unwrap();
    w.passable = false;
    g.set(3, 2, w);
    let mut t = TurnEngine::new(Position::new(2, 2), &Vec::new());
    let accepted = t.submit_player_intent(CardinalDirection::Right, &g);
    assert!(!accepted);
    assert_eq!(t.player_pos.x, 2);
    assert_eq!(t.player_pos.y, 2);
    assert!(t.current_state() == TurnState::Player);
    assert!(!t.player_just_moved);
}

#[test]
fn move_off_grid_is_rejected() {
    let g = open_grid(5, 5);
    let mut t = TurnEngine::new(Position::new(4, 4), &Vec::new());
    let accepted = t.submit_player_intent(CardinalDirection::Right, &g);
    assert!(!accepted);
    assert_eq!(t.player_pos.x, 4);
    assert!(t.current_state() == TurnState::Player);
}

#[test]
fn move_into_enemy_is_rejected() {
    let g = open_grid(5, 5);
    let spawns = vec![(1, 0)];
    let mut t = TurnEngine::new(Position::new(0, 0), &spawns);
    let accepted = t.submit_player_intent(CardinalDirection::Right, &g);
    assert!(!accepted);
    assert_eq!(t.player_pos.x, 0);
    assert_eq!(t.player_pos.y, 0);
    assert!(t.current_state() == TurnState::Player);
}

#[test]
fn empty_enemy_phase_returns_to_player() {
    let g = open_grid(5, 5);
    let mut t = TurnEngine::new(Position::new(0, 0), &Vec::new());
    let accepted = t.submit_player_intent(CardinalDirection::Right, &g);
    assert!(accepted);
    assert_eq!(t.player_pos.x, 1);
    assert_eq!(t.player_pos.y, 0);
    assert!(t.current_state() == TurnState::Enemy);
    let mut rng = SeededRng::new(7);
    t.run_enemy_phase(&g, &mut rng);
    assert!(t.current_state() == TurnState::Player);
}

#[test]
fn full_turn_on_open_grid() {
    let mut g = open_grid(5, 5);
    let mut t = TurnEngine::new(Position::new(0, 0), &Vec::new());
    let mut rng = SeededRng::new(1);
    let accepted = play_turn(&mut t, &mut g, CardinalDirection::Right, 3, &mut rng);
    assert!(accepted);
    assert_eq!(t.player_pos.x, 1);
    assert_eq!(t.player_pos.y, 0);
    assert!(t.current_state() == TurnState::Player);
    // Visibility was recomputed from the new position.
    assert!(g.get(1, 0).unwrap().view_status == ViewStatus::Seen);
}

#[test]
fn rejected_turn_changes_nothing() {
    let g0 = open_grid(5, 5);
    let mut g = open_grid(5, 5);
    let spawns = vec![(1, 0)];
    let mut t = TurnEngine::new(Position::new(0, 0), &spawns);
    let mut rng = SeededRng::new(1);
    let accepted = play_turn(&mut t, &mut g, CardinalDirection::Right, 3, &mut rng);
    assert!(!accepted);
    assert_eq!(t.player_pos.x, 0);
    assert_eq!(t.player_pos.y, 0);
    assert!(t.current_state() == TurnState::Player);
    for x in 0..5 {
        for y in 0..5 {
            assert!(g.get(x, y).unwrap() == g0.get(x, y).unwrap());
        }
    }
}

#[test]
fn selected_enemy_moves_by_delta() {
    let g = open_grid(5, 5);
    let spawns = vec![(2, 2)];
    let mut t = TurnEngine::new(Position::new(0, 0), &spawns);
    t.state = TurnState::Enemy;
    t.enemies[0].dormant = false;
    t.select_next_enemy_to_move();
    assert_eq!(t.selected, Some(0));
    t.enemy_movement(&g, PositionDelta::new(1, 0));
    assert_eq!(t.enemies[0].pos.x, 3);
    assert_eq!(t.enemies[0].pos.y, 2);
    assert!(t.enemies[0].moved_this_turn);
    assert!(t.selected.is_none());
}

#[test]
fn enemy_move_blocked_by_player_or_wall() {
    let mut g = open_grid(5, 5);
    let mut w = g.get(2, 3).unwrap();
    w.passable = false;
    g.set(2, 3, w);
    let spawns = vec![(2, 2)];
    let mut t = TurnEngine::new(Position::new(3, 2), &spawns);
    t.state = TurnState::Enemy;
    t.enemies[0].dormant = false;
    // Into the player: stays put.
    t.selected = Some(0);
    t.enemy_movement(&g, PositionDelta::new(1, 0));
    assert_eq!(t.enemies[0].pos.x, 2);
    assert_eq!(t.enemies[0].pos.y, 2);
    // Into the wall: stays put.
    t.selected = Some(0);
    t.enemy_movement(&g, PositionDelta::new(0, 1));
    assert_eq!(t.enemies[0].pos.x, 2);
    assert_eq!(t.enemies[0].pos.y, 2);
}

#[test]
fn enemy_move_blocked_by_other_enemy() {
    let g = open_grid(5, 5);
    let spawns = vec![(2, 2), (3, 2)];
    let mut t = TurnEngine::new(Position::new(0, 0), &spawns);
    t.state = TurnState::Enemy;
    t.enemies[0].dormant = false;
    t.selected = Some(0);
    t.enemy_movement(&g, PositionDelta::new(1, 0));
    assert_eq!(t.enemies[0].pos.x, 2);
    assert_eq!(t.enemies[0].pos.y, 2);
    assert!(t.enemies[0].moved_this_turn);
}

#[test]
fn dormant_enemy_is_not_selected() {
    let g = open_grid(5, 5);
    let spawns = vec![(2, 2)];
    let mut t = TurnEngine::new(Position::new(0, 0), &spawns);
    t.state = TurnState::Enemy;
    assert!(t.enemies[0].dormant);
    t.select_next_enemy_to_move();
    assert!(t.selected.is_none());
    assert!(t.current_state() == TurnState::Player);
    let _ = g;
}

#[test]
fn dormant_enemy_wakes_when_tile_observed() {
    let mut g = open_grid(5, 5);
    let spawns = vec![(2, 2)];
    let mut t = TurnEngine::new(Position::new(0, 0), &spawns);
    t.update_dormant_enemies(&g);
    assert!(t.enemies[0].dormant);
    let mut tile = g.get(2, 2).unwrap();
    tile.view_status = ViewStatus::Revealed;
    g.set(2, 2, tile);
    t.update_dormant_enemies(&g);
    assert!(!t.enemies[0].dormant);
}

#[test]
fn enemy_phase_moves_each_awake_enemy_at_most_one_step() {
    let g = open_grid(9, 9);
    let spawns = vec![(2, 2), (6, 6), (2, 6)];
    let mut t = TurnEngine::new(Position::new(4, 4), &spawns);
    t.state = TurnState::Enemy;
    for e in t.enemies.iter_mut() {
        e.dormant = false;
    }
    let before: Vec<(usize, usize)> = t.enemies.iter().map(|e| (e.pos.x, e.pos.y)).collect();
    let mut rng = SeededRng::new(99);
    t.run_enemy_phase(&g, &mut rng);
    assert!(t.current_state() == TurnState::Player);
    for (i, e) in t.enemies.iter().enumerate() {
        let dx = before[i].0.abs_diff(e.pos.x);
        let dy = before[i].1.abs_diff(e.pos.y);
        assert!(dx.max(dy) <= 1);
        assert!(!e.moved_this_turn);
        assert!(g.get(e.pos.x, e.pos.y).unwrap().passable);
    }
}

#[test]
fn saturated_move_at_corner_is_accepted() {
    // At (0, 0) a westward intent saturates onto the same cell; the tile
    // is passable and unoccupied, so the move is accepted and control
    // passes to the enemies.
    let g = open_grid(5, 5);
    let mut t = TurnEngine::new(Position::new(0, 0), &Vec::new());
    let accepted = t.submit_player_intent(CardinalDirection::Left, &g);
    assert!(accepted);
    assert_eq!(t.player_pos.x, 0);
    assert_eq!(t.player_pos.y, 0);
    assert!(t.current_state() == TurnState::Enemy);
}

#[test]
fn default_turn_state_is_player() {
    assert!(TurnState::default() == TurnState::Player);
    let _ = Tile::default();
}
