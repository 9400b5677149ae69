use vstd::prelude::*;

use crate::fov::{fov_recompute_rel, MAX_RADIUS};
use crate::grid::{Grid, ViewStatus};
use crate::position::{chebyshev, sat_add, spec_direction_delta, CardinalDirection, Position, PositionDelta};
use crate::rng::RngSource;

verus! {

/// Whose turn it is. The session always alternates `Player -> Enemy ->
/// Player`.
#[derive(Clone, Copy, PartialEq, Eq, Structural, Hash, Debug)]
pub enum TurnState {
    Player,
    Enemy,
}

impl Default for TurnState {
    fn default() -> (s: TurnState)
        ensures
            s == TurnState::Player,
    {
        TurnState::Player
    }
}

/// One non-player agent: its position and its per-turn flags. A dormant
/// enemy has not been observed yet and is exempt from moving; the moved
/// flag prevents re-selection within one enemy phase.
#[derive(Clone, Copy, PartialEq, Eq, Structural, Debug)]
pub struct EnemyAgent {
    pub pos: Position,
    pub dormant: bool,
    pub moved_this_turn: bool,
}

/// The turn engine: the single player agent, the enemy registry, the
/// selection cursor of the enemy phase, and the phase state.
pub struct TurnEngine {
    pub state: TurnState,
    pub player_pos: Position,
    pub player_just_moved: bool,
    pub enemies: Vec<EnemyAgent>,
    pub selected: Option<usize>,
}

/// Some enemy stands on `(x, y)`.
pub open spec fn enemy_at(enemies: Seq<EnemyAgent>, x: int, y: int) -> bool {
    exists|i: int| 0 <= i < enemies.len() && enemies[i].pos.x == x && enemies[i].pos.y == y
}

/// Some enemy other than number `i` stands on `(x, y)`.
pub open spec fn other_enemy_at(enemies: Seq<EnemyAgent>, i: int, x: int, y: int) -> bool {
    exists|j: int|
        0 <= j < enemies.len() && j != i && enemies[j].pos.x == x && enemies[j].pos.y == y
}

/// Where a step by `(dx, dy)` from `p` lands, with saturation.
pub open spec fn spec_step(p: Position, dx: int, dy: int) -> (int, int) {
    (sat_add(p.x as int, dx), sat_add(p.y as int, dy))
}

/// What one enemy phase may do to one enemy: dormancy is untouched, and the
/// agent either stays put or takes one step onto a passable tile — a
/// dormant agent always stays put.
pub open spec fn enemy_step_ok(g: Grid, e0: EnemyAgent, e1: EnemyAgent) -> bool {
    &&& e1.dormant == e0.dormant
    &&& (e1.pos == e0.pos || {
        &&& !e0.dormant
        &&& chebyshev(
            (e0.pos.x as int, e0.pos.y as int),
            (e1.pos.x as int, e1.pos.y as int),
        ) <= 1
        &&& g.spec_passable(e1.pos.x as int, e1.pos.y as int)
    })
}

/// How many enemies have not moved yet this phase.
pub open spec fn count_unmoved(s: Seq<EnemyAgent>) -> nat
    decreases s.len(),
{
    if s.len() == 0 {
        0
    } else {
        (if s[0].moved_this_turn {
            0nat
        } else {
            1nat
        }) + count_unmoved(s.drop_first())
    }
}

/// Marking one unmoved enemy as moved lowers the unmoved count by one.
proof fn lemma_count_unmoved_update(s0: Seq<EnemyAgent>, s1: Seq<EnemyAgent>, i: int)
    requires
        0 <= i < s0.len(),
        s1.len() == s0.len(),
        forall|j: int| 0 <= j < s0.len() && j != i ==> s1[j] == s0[j],
        !s0[i].moved_this_turn,
        s1[i].moved_this_turn,
    ensures
        count_unmoved(s0) == count_unmoved(s1) + 1,
    decreases s0.len(),
{
    if i == 0 {
        assert(s1.drop_first() =~= s0.drop_first());
    } else {
        assert(s1[0] == s0[0]);
        lemma_count_unmoved_update(s0.drop_first(), s1.drop_first(), i - 1);
    }
}

impl TurnEngine {
    /// The selection cursor always points into the enemy registry.
    pub open spec fn wf(self) -> bool {
        self.selected is Some ==> self.selected->Some_0 < self.enemies@.len()
    }

    /// A fresh session: the player at their spawn point, one dormant enemy
    /// per enemy spawn point, and the player to move first.
    pub fn new(player_spawn: Position, enemy_spawns: &Vec<(usize, usize)>) -> (t: TurnEngine)
        ensures
            t.wf(),
            t.state == TurnState::Player,
            t.player_pos == player_spawn,
            t.player_just_moved == false,
            t.selected is None,
            t.enemies@.len() == enemy_spawns@.len(),
            forall|i: int|
                0 <= i < t.enemies@.len() ==> #[trigger] t.enemies@[i] == (EnemyAgent {
                    pos: Position { x: enemy_spawns@[i].0, y: enemy_spawns@[i].1 },
                    dormant: true,
                    moved_this_turn: false,
                }),
    {
        let mut enemies: Vec<EnemyAgent> = Vec::new();
        let mut i: usize = 0;
        while i < enemy_spawns.len()
            invariant
                i <= enemy_spawns@.len(),
                enemies@.len() == i,
                forall|k: int|
                    0 <= k < i ==> #[trigger] enemies@[k] == (EnemyAgent {
                        pos: Position { x: enemy_spawns@[k].0, y: enemy_spawns@[k].1 },
                        dormant: true,
                        moved_this_turn: false,
                    }),
            decreases enemy_spawns@.len() - i,
        {
            let p = enemy_spawns[i];
            enemies.push(
                EnemyAgent {
                    pos: Position { x: p.0, y: p.1 },
                    dormant: true,
                    moved_this_turn: false,
                },
            );
            i = i + 1;
        }
        TurnEngine {
            state: TurnState::Player,
            player_pos: player_spawn,
            player_just_moved: false,
            enemies,
            selected: None,
        }
    }

    pub fn current_state(&self) -> (s: TurnState)
        ensures
            s == self.state,
    {
        self.state
    }

    /// Whether any enemy occupies `p`.
    pub fn occupied_by_enemy(&self, p: Position) -> (r: bool)
        ensures
            r == enemy_at(self.enemies@, p.x as int, p.y as int),
    {
        let mut i: usize = 0;
        while i < self.enemies.len()
            invariant
                i <= self.enemies@.len(),
                forall|k: int|
                    0 <= k < i ==> !((#[trigger] self.enemies@[k]).pos.x == p.x
                        && self.enemies@[k].pos.y == p.y),
            decreases self.enemies@.len() - i,
        {
            let e = self.enemies[i];
            if e.pos.x == p.x && e.pos.y == p.y {
                return true;
            }
            i = i + 1;
        }
        false
    }

    /// Whether any enemy other than number `i` occupies `p`.
    fn occupied_by_other_enemy(&self, i: usize, p: Position) -> (r: bool)
        ensures
            r == other_enemy_at(self.enemies@, i as int, p.x as int, p.y as int),
    {
        let mut j: usize = 0;
        while j < self.enemies.len()
            invariant
                j <= self.enemies@.len(),
                forall|k: int|
                    0 <= k < j && k != i ==> !((#[trigger] self.enemies@[k]).pos.x == p.x
                        && self.enemies@[k].pos.y == p.y),
            decreases self.enemies@.len() - j,
        {
            if j != i {
                let e = self.enemies[j];
                if e.pos.x == p.x && e.pos.y == p.y {
                    return true;
                }
            }
            j = j + 1;
        }
        false
    }

    /// Resolve one directional player intent. The move is accepted exactly
    /// when the candidate tile is passable and no enemy occupies it; on
    /// acceptance the player moves there and the enemy phase begins, on
    /// rejection nothing at all changes.
    pub fn submit_player_intent(&mut self, dir: CardinalDirection, grid: &Grid) -> (accepted:
        bool)
        requires
            old(self).wf(),
            old(self).state == TurnState::Player,
            grid.wf(),
        ensures
            final(self).wf(),
            ({
                let d = spec_direction_delta(dir);
                let c = spec_step(old(self).player_pos, d.0, d.1);
                &&& accepted == (grid.spec_passable(c.0, c.1) && !enemy_at(
                    old(self).enemies@,
                    c.0,
                    c.1,
                ))
                &&& (!accepted ==> *final(self) == *old(self))
                &&& (accepted ==> {
                    &&& final(self).state == TurnState::Enemy
                    &&& final(self).player_pos.x as int == c.0
                    &&& final(self).player_pos.y as int == c.1
                    &&& final(self).player_just_moved == true
                    &&& final(self).enemies == old(self).enemies
                    &&& final(self).selected == old(self).selected
                })
            }),
    {
        let delta = dir.delta();
        let cand = self.player_pos.add(delta);
        if self.occupied_by_enemy(cand) {
            return false;
        }
        match grid.get(cand.x, cand.y) {
            Some(tile) => {
                if tile.passable {
                    self.player_pos = cand;
                    self.player_just_moved = true;
                    self.state = TurnState::Enemy;
                    true
                } else {
                    false
                }
            },
            None => false,
        }
    }

    /// Wake every dormant enemy whose tile has been observed (its visibility
    /// is no longer `Unexplored`); nothing else changes.
    pub fn update_dormant_enemies(&mut self, grid: &Grid)
        requires
            old(self).wf(),
            grid.wf(),
        ensures
            final(self).wf(),
            final(self).state == old(self).state,
            final(self).player_pos == old(self).player_pos,
            final(self).player_just_moved == old(self).player_just_moved,
            final(self).selected == old(self).selected,
            final(self).enemies@.len() == old(self).enemies@.len(),
            forall|i: int|
                0 <= i < old(self).enemies@.len() ==> {
                    let e0 = old(self).enemies@[i];
                    let e1 = #[trigger] final(self).enemies@[i];
                    &&& e1.pos == e0.pos
                    &&& e1.moved_this_turn == e0.moved_this_turn
                    &&& e1.dormant == (e0.dormant && !(grid.in_bounds(
                        e0.pos.x as int,
                        e0.pos.y as int,
                    ) && grid.spec_tile(e0.pos.x as int, e0.pos.y as int).view_status
                        != ViewStatus::Unexplored))
                },
    {
        let n = self.enemies.len();
        let mut i: usize = 0;
        while i < n
            invariant
                self.wf(),
                grid.wf(),
                n == self.enemies@.len(),
                i <= n,
                self.state == old(self).state,
                self.player_pos == old(self).player_pos,
                self.player_just_moved == old(self).player_just_moved,
                self.selected == old(self).selected,
                self.enemies@.len() == old(self).enemies@.len(),
                forall|k: int| i <= k < n ==> self.enemies@[k] == old(self).enemies@[k],
                forall|k: int|
                    0 <= k < i ==> {
                        let e0 = old(self).enemies@[k];
                        let e1 = #[trigger] self.enemies@[k];
                        &&& e1.pos == e0.pos
                        &&& e1.moved_this_turn == e0.moved_this_turn
                        &&& e1.dormant == (e0.dormant && !(grid.in_bounds(
                            e0.pos.x as int,
                            e0.pos.y as int,
                        ) && grid.spec_tile(e0.pos.x as int, e0.pos.y as int).view_status
                            != ViewStatus::Unexplored))
                    },
            decreases n - i,
        {
            let e = self.enemies[i];
            if e.dormant {
                match grid.get(e.pos.x, e.pos.y) {
                    Some(tile) => {
                        if !(tile.view_status == ViewStatus::Unexplored) {
                            self.enemies[i] = EnemyAgent {
                                pos: e.pos,
                                dormant: false,
                                moved_this_turn: e.moved_this_turn,
                            };
                        }
                    },
                    None => {},
                }
            }
            i = i + 1;
        }
    }

    /// Clear every enemy's moved-this-turn flag.
    pub fn clear_moved_markers(&mut self)
        requires
            old(self).wf(),
        ensures
            final(self).wf(),
            final(self).state == old(self).state,
            final(self).player_pos == old(self).player_pos,
            final(self).player_just_moved == old(self).player_just_moved,
            final(self).selected == old(self).selected,
            final(self).enemies@.len() == old(self).enemies@.len(),
            forall|i: int|
                0 <= i < old(self).enemies@.len() ==> #[trigger] final(self).enemies@[i]
                    == (EnemyAgent {
                    pos: old(self).enemies@[i].pos,
                    dormant: old(self).enemies@[i].dormant,
                    moved_this_turn: false,
                }),
    {
        let n = self.enemies.len();
        let mut i: usize = 0;
        while i < n
            invariant
                self.wf(),
                n == self.enemies@.len(),
                i <= n,
                self.state == old(self).state,
                self.player_pos == old(self).player_pos,
                self.player_just_moved == old(self).player_just_moved,
                self.selected == old(self).selected,
                self.enemies@.len() == old(self).enemies@.len(),
                forall|k: int| i <= k < n ==> self.enemies@[k] == old(self).enemies@[k],
                forall|k: int|
                    0 <= k < i ==> #[trigger] self.enemies@[k] == (EnemyAgent {
                        pos: old(self).enemies@[k].pos,
                        dormant: old(self).enemies@[k].dormant,
                        moved_this_turn: false,
                    }),
            decreases n - i,
        {
            let e = self.enemies[i];
            self.enemies[i] = EnemyAgent {
                pos: e.pos,
                dormant: e.dormant,
                moved_this_turn: false,
            };
            i = i + 1;
        }
    }

    /// The enemy-phase cursor: when nothing is selected, select the first
    /// enemy that is neither dormant nor already moved; when no such enemy
    /// remains, end the phase — clear every moved flag and hand control
    /// back to the player.
    pub fn select_next_enemy_to_move(&mut self)
        requires
            old(self).wf(),
            old(self).state == TurnState::Enemy,
        ensures
            final(self).wf(),
            final(self).player_pos == old(self).player_pos,
            final(self).player_just_moved == old(self).player_just_moved,
            final(self).enemies@.len() == old(self).enemies@.len(),
            old(self).selected is Some ==> *final(self) == *old(self),
            old(self).selected is None ==> {
                ||| {
                    &&& final(self).selected is Some
                    &&& final(self).state == TurnState::Enemy
                    &&& final(self).enemies == old(self).enemies
                    &&& {
                        let i = final(self).selected->Some_0 as int;
                        &&& !old(self).enemies@[i].dormant
                        &&& !old(self).enemies@[i].moved_this_turn
                        &&& forall|k: int|
                            0 <= k < i ==> ((#[trigger] old(self).enemies@[k]).dormant
                                || old(self).enemies@[k].moved_this_turn)
                    }
                }
                ||| {
                    &&& final(self).selected is None
                    &&& final(self).state == TurnState::Player
                    &&& forall|k: int|
                        0 <= k < old(self).enemies@.len()
                            ==> #[trigger] final(self).enemies@[k] == (EnemyAgent {
                            pos: old(self).enemies@[k].pos,
                            dormant: old(self).enemies@[k].dormant,
                            moved_this_turn: false,
                        })
                    &&& forall|k: int|
                        0 <= k < old(self).enemies@.len() ==> ((
                        #[trigger] old(self).enemies@[k]).dormant
                            || old(self).enemies@[k].moved_this_turn)
                }
            },
    {
        if self.selected.is_some() {
            return ;
        }
        let n = self.enemies.len();
        let mut i: usize = 0;
        while i < n
            invariant
                self.wf(),
                *self == *old(self),
                old(self).selected is None,
                old(self).state == TurnState::Enemy,
                n == self.enemies@.len(),
                i <= n,
                forall|k: int|
                    0 <= k < i ==> ((#[trigger] self.enemies@[k]).dormant
                        || self.enemies@[k].moved_this_turn),
            decreases n - i,
        {
            let e = self.enemies[i];
            if !e.dormant && !e.moved_this_turn {
                self.selected = Some(i);
                return ;
            }
            i = i + 1;
        }
        self.clear_moved_markers();
        self.state = TurnState::Player;
    }

    /// Move the selected enemy by `delta`: the step is committed only when
    /// its destination is not held by the player or another enemy and its
    /// tile is passable; either way the enemy is marked moved and the
    /// cursor is cleared. Without a selection, nothing changes.
    pub fn enemy_movement(&mut self, grid: &Grid, delta: PositionDelta)
        requires
            old(self).wf(),
            grid.wf(),
        ensures
            final(self).wf(),
            final(self).state == old(self).state,
            final(self).player_pos == old(self).player_pos,
            final(self).player_just_moved == old(self).player_just_moved,
            final(self).enemies@.len() == old(self).enemies@.len(),
            old(self).selected is None ==> *final(self) == *old(self),
            old(self).selected is Some ==> {
                let i = old(self).selected->Some_0 as int;
                let e0 = old(self).enemies@[i];
                let c = spec_step(e0.pos, delta.x as int, delta.y as int);
                let blocked = (old(self).player_pos.x as int == c.0 && old(self).player_pos.y as int
                    == c.1) || other_enemy_at(old(self).enemies@, i, c.0, c.1)
                    || !grid.spec_passable(c.0, c.1);
                &&& final(self).selected is None
                &&& forall|j: int|
                    0 <= j < old(self).enemies@.len() && j != i
                        ==> #[trigger] final(self).enemies@[j] == old(self).enemies@[j]
                &&& final(self).enemies@[i].dormant == e0.dormant
                &&& final(self).enemies@[i].moved_this_turn == true
                &&& (if blocked {
                    final(self).enemies@[i].pos == e0.pos
                } else {
                    final(self).enemies@[i].pos.x as int == c.0 && final(self).enemies@[i].pos.y
                        as int == c.1
                })
            },
    {
        let sel = self.selected;
        match sel {
            None => {},
            Some(i) => {
                self.selected = None;
                let e = self.enemies[i];
                let cand = e.pos.add(delta);
                let hits_player = self.player_pos.x == cand.x && self.player_pos.y == cand.y;
                let hits_enemy = self.occupied_by_other_enemy(i, cand);
                let open_tile = grid.is_passable(cand.x, cand.y);
                let new_pos = if !hits_player && !hits_enemy && open_tile {
                    cand
                } else {
                    e.pos
                };
                self.enemies[i] = EnemyAgent {
                    pos: new_pos,
                    dormant: e.dormant,
                    moved_this_turn: true,
                };
            },
        }
    }

    /// Move the selected enemy by a uniformly random single-step delta in
    /// each axis.
    pub fn enemy_movement_random<R: RngSource>(&mut self, grid: &Grid, rng: &mut R)
        requires
            old(self).wf(),
            grid.wf(),
        ensures
            final(self).wf(),
            final(self).state == old(self).state,
            final(self).player_pos == old(self).player_pos,
            final(self).player_just_moved == old(self).player_just_moved,
            final(self).enemies@.len() == old(self).enemies@.len(),
            old(self).selected is None ==> *final(self) == *old(self),
            old(self).selected is Some ==> {
                let i = old(self).selected->Some_0 as int;
                let e0 = old(self).enemies@[i];
                &&& final(self).selected is None
                &&& forall|j: int|
                    0 <= j < old(self).enemies@.len() && j != i
                        ==> #[trigger] final(self).enemies@[j] == old(self).enemies@[j]
                &&& final(self).enemies@[i].dormant == e0.dormant
                &&& final(self).enemies@[i].moved_this_turn == true
                &&& (final(self).enemies@[i].pos == e0.pos || {
                    &&& chebyshev(
                        (e0.pos.x as int, e0.pos.y as int),
                        (
                            final(self).enemies@[i].pos.x as int,
                            final(self).enemies@[i].pos.y as int,
                        ),
                    ) <= 1
                    &&& grid.spec_passable(
                        final(self).enemies@[i].pos.x as int,
                        final(self).enemies@[i].pos.y as int,
                    )
                })
            },
    {
        let dx = rng.next_below(3) as isize - 1;
        let dy = rng.next_below(3) as isize - 1;
        let delta = PositionDelta::new(dx, dy);
        self.enemy_movement(grid, delta);
    }

    /// Run the enemy phase to completion: select and move each awake,
    /// not-yet-moved enemy once, then clear the moved flags and hand
    /// control back to the player. Every enemy ends at most one step from
    /// where it began, on a passable tile if it moved, and dormant enemies
    /// do not move at all.
    pub fn run_enemy_phase<R: RngSource>(&mut self, grid: &Grid, rng: &mut R)
        requires
            old(self).wf(),
            old(self).state == TurnState::Enemy,
            old(self).selected is None,
            grid.wf(),
            forall|i: int|
                0 <= i < old(self).enemies@.len()
                    ==> !(#[trigger] old(self).enemies@[i]).moved_this_turn,
        ensures
            final(self).wf(),
            final(self).state == TurnState::Player,
            final(self).selected is None,
            final(self).player_pos == old(self).player_pos,
            final(self).player_just_moved == old(self).player_just_moved,
            final(self).enemies@.len() == old(self).enemies@.len(),
            forall|i: int|
                0 <= i < old(self).enemies@.len()
                    ==> !(#[trigger] final(self).enemies@[i]).moved_this_turn,
            forall|i: int|
                0 <= i < old(self).enemies@.len() ==> enemy_step_ok(
                    *grid,
                    old(self).enemies@[i],
                    #[trigger] final(self).enemies@[i],
                ),
    {
        while self.current_state() == TurnState::Enemy
            invariant
                self.wf(),
                grid.wf(),
                self.selected is None,
                self.player_pos == old(self).player_pos,
                self.player_just_moved == old(self).player_just_moved,
                self.enemies@.len() == old(self).enemies@.len(),
                self.state == TurnState::Enemy || self.state == TurnState::Player,
                forall|i: int|
                    0 <= i < old(self).enemies@.len() ==> enemy_step_ok(
                        *grid,
                        old(self).enemies@[i],
                        #[trigger] self.enemies@[i],
                    ),
                self.state == TurnState::Enemy ==> forall|i: int|
                    0 <= i < self.enemies@.len() ==> (!(
                    #[trigger] self.enemies@[i]).moved_this_turn ==> self.enemies@[i].pos == old(
                        self,
                    ).enemies@[i].pos),
                self.state == TurnState::Player ==> forall|i: int|
                    0 <= i < self.enemies@.len() ==> !(
                    #[trigger] self.enemies@[i]).moved_this_turn,
            decreases (if self.state == TurnState::Enemy {
                1int
            } else {
                0int
            }), count_unmoved(self.enemies@),
        {
            self.select_next_enemy_to_move();
            if self.current_state() == TurnState::Enemy {
                let ghost mid = *self;
                self.enemy_movement_random(grid, rng);
                proof {
                    if mid.selected is Some {
                        let i = mid.selected->Some_0 as int;
                        lemma_count_unmoved_update(mid.enemies@, self.enemies@, i);
                    }
                }
            }
        }
    }
}

/// One full game turn of the phase pipeline: resolve the player intent; on
/// acceptance, recompute visibility from the player's new position, wake
/// observed enemies, and run the enemy phase. A rejected intent changes
/// nothing at all.
pub fn play_turn<R: RngSource>(
    engine: &mut TurnEngine,
    grid: &mut Grid,
    dir: CardinalDirection,
    radius: usize,
    rng: &mut R,
) -> (accepted: bool)
    requires
        old(engine).wf(),
        old(engine).state == TurnState::Player,
        old(engine).selected is None,
        forall|i: int|
            0 <= i < old(engine).enemies@.len()
                ==> !(#[trigger] old(engine).enemies@[i]).moved_this_turn,
        old(grid).wf(),
        1 <= radius <= MAX_RADIUS,
    ensures
        final(engine).wf(),
        final(grid).wf(),
        final(engine).state == TurnState::Player,
        final(engine).selected is None,
        ({
            let d = spec_direction_delta(dir);
            let c = spec_step(old(engine).player_pos, d.0, d.1);
            &&& accepted == (old(grid).spec_passable(c.0, c.1) && !enemy_at(
                old(engine).enemies@,
                c.0,
                c.1,
            ))
            &&& (!accepted ==> *final(engine) == *old(engine) && *final(grid) == *old(grid))
            &&& (accepted ==> {
                &&& final(engine).player_pos.x as int == c.0
                &&& final(engine).player_pos.y as int == c.1
                &&& fov_recompute_rel(*old(grid), *final(grid), c.0, c.1, radius as int)
                &&& final(engine).enemies@.len() == old(engine).enemies@.len()
                &&& forall|i: int|
                    0 <= i < old(engine).enemies@.len()
                        ==> !(#[trigger] final(engine).enemies@[i]).moved_this_turn
                &&& forall|i: int|
                    0 <= i < old(engine).enemies@.len()
                        ==> (#[trigger] final(engine).enemies@[i]).pos == old(
                        engine,
                    ).enemies@[i].pos || (chebyshev(
                        (
                            old(engine).enemies@[i].pos.x as int,
                            old(engine).enemies@[i].pos.y as int,
                        ),
                        (
                            final(engine).enemies@[i].pos.x as int,
                            final(engine).enemies@[i].pos.y as int,
                        ),
                    ) <= 1 && final(grid).spec_passable(
                        final(engine).enemies@[i].pos.x as int,
                        final(engine).enemies@[i].pos.y as int,
                    ))
            })
        }),
{
    let accepted = engine.submit_player_intent(dir, grid);
    if accepted {
        grid.calculate_fov(engine.player_pos, radius);
        engine.update_dormant_enemies(grid);
        engine.run_enemy_phase(grid, rng);
    }
    accepted
}

} // verus!
