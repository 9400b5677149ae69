use vstd::prelude::*;

use crate::grid::{Grid, Tile, FLOOR_SPRITE};
use crate::position::{chebyshev, distance, CardinalDirection};
use crate::pathfinding::{lemma_reachable_step, reachable, valid_path};
use crate::rng::RngSource;

verus! {

/// Parameters of cavern generation: how many caverns to place, the minimum
/// Chebyshev separation between their centers, and the random-walk carving
/// budget per cavern.
#[derive(Clone, Copy, PartialEq, Eq, Structural, Debug)]
pub struct CavernSettings {
    pub cavern_count: usize,
    pub max_cavern_dist: usize,
    pub walk_count: usize,
    pub walk_len: usize,
}

/// The family of map generators; only cavern generation exists today.
#[derive(Clone, Copy, PartialEq, Eq, Structural, Debug)]
pub enum MapGeneratorSettings {
    Cavern(CavernSettings),
}

impl Default for CavernSettings {
    fn default() -> (s: CavernSettings)
        ensures
            s == (CavernSettings {
                cavern_count: 6,
                max_cavern_dist: 70,
                walk_count: 100,
                walk_len: 50,
            }),
    {
        CavernSettings { cavern_count: 6, max_cavern_dist: 70, walk_count: 100, walk_len: 50 }
    }
}

impl Default for MapGeneratorSettings {
    fn default() -> (s: MapGeneratorSettings)
        ensures
            s == MapGeneratorSettings::Cavern(
                CavernSettings {
                    cavern_count: 6,
                    max_cavern_dist: 70,
                    walk_count: 100,
                    walk_len: 50,
                },
            ),
    {
        MapGeneratorSettings::Cavern(CavernSettings::default())
    }
}

/// Generation gave up: a bounded retry budget (cavern placement or tunnel
/// carving) ran out before the goal was met.
#[derive(Clone, Copy, PartialEq, Eq, Structural, Debug)]
pub enum GenerationError {
    GenerationFailed,
}

/// How many placement samples the generator tries before reporting failure.
pub const PLACEMENT_ATTEMPT_LIMIT: usize = 1000000;

/// The grid changed only by carving: dimensions and every visibility mark
/// are untouched, no passable tile became impassable, and a tile that did
/// change is now a passable floor.
pub open spec fn carved_tiles_only(g0: Grid, g1: Grid) -> bool {
    &&& g1.width == g0.width
    &&& g1.height == g0.height
    &&& g1.tiles@.len() == g0.tiles@.len()
    &&& forall|x: int, y: int|
        #![trigger g1.spec_tile(x, y)]
        g0.in_bounds(x, y) ==> {
            let t0 = g0.spec_tile(x, y);
            let t1 = g1.spec_tile(x, y);
            &&& t1.view_status == t0.view_status
            &&& (t1 == t0 || (t1.passable && t1.sprite_index == FLOOR_SPRITE))
            &&& (t0.passable ==> t1.passable)
        }
}

/// Carving steps compose.
pub proof fn lemma_carved_trans(g0: Grid, g1: Grid, g2: Grid)
    requires
        carved_tiles_only(g0, g1),
        carved_tiles_only(g1, g2),
    ensures
        carved_tiles_only(g0, g2),
{
    assert forall|x: int, y: int|
        #![trigger g2.spec_tile(x, y)]
        g0.in_bounds(x, y) implies {
        let t0 = g0.spec_tile(x, y);
        let t2 = g2.spec_tile(x, y);
        &&& t2.view_status == t0.view_status
        &&& (t2 == t0 || (t2.passable && t2.sprite_index == FLOOR_SPRITE))
        &&& (t0.passable ==> t2.passable)
    } by {
        assert(g1.spec_tile(x, y).view_status == g0.spec_tile(x, y).view_status);
    }
}

/// A walk that is valid on a grid is valid on any grid with the same tiles,
/// whatever its spawn lists say.
pub proof fn lemma_valid_path_same_tiles(
    g0: Grid,
    g1: Grid,
    start: (usize, usize),
    target: (usize, usize),
    p: Seq<(usize, usize)>,
)
    requires
        g0.width == g1.width,
        g0.height == g1.height,
        g0.tiles@ == g1.tiles@,
        valid_path(g0, start, target, p),
    ensures
        valid_path(g1, start, target, p),
{
    if start != target {
        assert forall|i: int| #![trigger p[i]] 0 <= i < p.len() implies g1.spec_passable(
            p[i].0 as int,
            p[i].1 as int,
        ) by {
            assert(g0.spec_passable(p[i].0 as int, p[i].1 as int));
        }
    }
}

/// One step of a carving walk: at most one cardinal cell onward, and the
/// cell repeats only when the step was clamped at a grid border.
pub open spec fn walk_step_ok(g: Grid, a: (usize, usize), b: (usize, usize)) -> bool {
    &&& (a.0 == b.0 || a.1 == b.1)
    &&& chebyshev((a.0 as int, a.1 as int), (b.0 as int, b.1 as int)) <= 1
    &&& (a == b ==> (a.0 == 0 || a.0 as int + 1 == g.width || a.1 == 0 || a.1 as int + 1
        == g.height))
}

/// The trail a carving walk leaves: every cell is in bounds, one clamped
/// cardinal step from its predecessor (`from` for the first), and is a
/// passable floor afterwards.
pub open spec fn carved_walk(g: Grid, from: (usize, usize), path: Seq<(usize, usize)>) -> bool {
    forall|i: int|
        #![trigger path[i]]
        0 <= i < path.len() ==> {
            &&& g.in_bounds(path[i].0 as int, path[i].1 as int)
            &&& g.spec_tile(path[i].0 as int, path[i].1 as int).passable
            &&& g.spec_tile(path[i].0 as int, path[i].1 as int).sprite_index == FLOOR_SPRITE
            &&& walk_step_ok(
                g,
                if i == 0 {
                    from
                } else {
                    path[i - 1]
                },
                path[i],
            )
        }
}

/// Every change between the two grids lies on one of the listed cells.
pub open spec fn changes_within(g0: Grid, g1: Grid, path: Seq<(usize, usize)>) -> bool {
    forall|x: int, y: int|
        #![trigger g1.spec_tile(x, y)]
        g0.in_bounds(x, y) && g1.spec_tile(x, y) != g0.spec_tile(x, y) ==> exists|i: int|
            0 <= i < path.len() && (#[trigger] path[i]).0 == x && path[i].1 == y
}

/// Carving never disconnects anything: a walk valid before more carving is
/// valid after it.
pub proof fn lemma_reachable_after_carving(
    g0: Grid,
    g1: Grid,
    start: (usize, usize),
    target: (usize, usize),
)
    requires
        carved_tiles_only(g0, g1),
        reachable(g0, start, target),
    ensures
        reachable(g1, start, target),
{
    let p = choose|p: Seq<(usize, usize)>| valid_path(g0, start, target, p);
    if start != target {
        assert forall|i: int| #![trigger p[i]] 0 <= i < p.len() implies g1.spec_passable(
            p[i].0 as int,
            p[i].1 as int,
        ) by {
            assert(g0.spec_passable(p[i].0 as int, p[i].1 as int));
        }
    }
    assert(valid_path(g1, start, target, p));
}

/// How many cavern centers a run places: at least the origin, at most the
/// requested count.
pub open spec fn cavern_cap(count: usize) -> int {
    if count >= 1 {
        count as int
    } else {
        1
    }
}

/// Every cell on a carving trail is reachable from the trail's start,
/// provided the start cell itself is passable: the trail advances one
/// clamped cardinal step at a time.
pub proof fn lemma_walk_reachable(
    g: Grid,
    from: (usize, usize),
    path: Seq<(usize, usize)>,
    i: int,
)
    requires
        carved_walk(g, from, path),
        g.spec_passable(from.0 as int, from.1 as int),
        0 <= i < path.len(),
    ensures
        reachable(g, from, path[i]),
    decreases i,
{
    if i == 0 {
        let empty = Seq::<(usize, usize)>::empty();
        assert(valid_path(g, from, from, empty));
        assert(reachable(g, from, from));
        lemma_reachable_step(g, from, from, path[0]);
    } else {
        lemma_walk_reachable(g, from, path, i - 1);
        lemma_reachable_step(g, from, path[i - 1], path[i]);
    }
}

/// Carving one cell keeps every passable cell connected to `origin`, as
/// long as the carved cell is `origin` itself.
proof fn lemma_region_after_carve(gpre: Grid, g1: Grid, origin: (usize, usize))
    requires
        g1.width == gpre.width,
        g1.height == gpre.height,
        carved_tiles_only(gpre, g1),
        forall|a: int, b: int|
            gpre.in_bounds(a, b) && !(a == origin.0 && b == origin.1)
                ==> #[trigger] g1.spec_tile(a, b) == gpre.spec_tile(a, b),
        g1.spec_passable(origin.0 as int, origin.1 as int),
        forall|x: int, y: int|
            #![trigger gpre.spec_tile(x, y)]
            gpre.spec_passable(x, y) ==> reachable(gpre, origin, ((x as usize, y as usize))),
    ensures
        forall|x: int, y: int|
            #![trigger g1.spec_tile(x, y)]
            g1.spec_passable(x, y) ==> reachable(g1, origin, ((x as usize, y as usize))),
{
    assert forall|x: int, y: int|
        #![trigger g1.spec_tile(x, y)]
        g1.spec_passable(x, y) implies reachable(g1, origin, ((x as usize, y as usize))) by {
        if x == origin.0 && y == origin.1 {
            let empty = Seq::<(usize, usize)>::empty();
            assert(valid_path(g1, origin, ((x as usize, y as usize)), empty));
        } else {
            assert(gpre.spec_passable(x, y));
            lemma_reachable_after_carving(gpre, g1, origin, ((x as usize, y as usize)));
        }
    }
}

/// One random walk from `origin` keeps every passable cell connected to
/// `origin`: new floor lies on the walk's own trail.
proof fn lemma_region_after_walk(
    gpre: Grid,
    g1: Grid,
    origin: (usize, usize),
    trail: Seq<(usize, usize)>,
)
    requires
        carved_tiles_only(gpre, g1),
        carved_walk(g1, origin, trail),
        changes_within(gpre, g1, trail),
        gpre.spec_passable(origin.0 as int, origin.1 as int),
        forall|x: int, y: int|
            #![trigger gpre.spec_tile(x, y)]
            gpre.spec_passable(x, y) ==> reachable(gpre, origin, ((x as usize, y as usize))),
    ensures
        forall|x: int, y: int|
            #![trigger g1.spec_tile(x, y)]
            g1.spec_passable(x, y) ==> reachable(g1, origin, ((x as usize, y as usize))),
{
    assert forall|x: int, y: int|
        #![trigger g1.spec_tile(x, y)]
        g1.spec_passable(x, y) implies reachable(g1, origin, ((x as usize, y as usize))) by {
        if g1.spec_tile(x, y) == gpre.spec_tile(x, y) {
            assert(gpre.spec_passable(x, y));
            lemma_reachable_after_carving(gpre, g1, origin, ((x as usize, y as usize)));
        } else {
            let wi = choose|i: int|
                0 <= i < trail.len() && (#[trigger] trail[i]).0 == x && trail[i].1 == y;
            assert(g1.spec_passable(origin.0 as int, origin.1 as int));
            lemma_walk_reachable(g1, origin, trail, wi);
            assert(trail[wi] == ((x as usize, y as usize)));
        }
    }
}

/// Linear membership scan over a list of points.
pub fn contains_point(v: &Vec<(usize, usize)>, p: (usize, usize)) -> (r: bool)
    ensures
        r == v@.contains(p),
{
    let mut i: usize = 0;
    while i < v.len()
        invariant
            i <= v@.len(),
            forall|k: int| 0 <= k < i ==> v@[k] != p,
        decreases v@.len() - i,
    {
        if v[i].0 == p.0 && v[i].1 == p.1 {
            assert(v@[i as int] == p);
            return true;
        }
        i = i + 1;
    }
    false
}

/// A uniformly drawn cardinal direction.
pub fn random_direction<R: RngSource>(rng: &mut R) -> CardinalDirection {
    match rng.next_below(4) {
        0 => CardinalDirection::Up,
        1 => CardinalDirection::Down,
        2 => CardinalDirection::Left,
        _ => CardinalDirection::Right,
    }
}

/// Appending one carved cell extends a carving trail: structure, floor
/// tiles and confinement all carry over.
proof fn lemma_walk_extend(
    g0: Grid,
    gpre: Grid,
    g1: Grid,
    from: (usize, usize),
    prev: (usize, usize),
    cell: (usize, usize),
    path0: Seq<(usize, usize)>,
    path1: Seq<(usize, usize)>,
)
    requires
        gpre.width == g0.width,
        gpre.height == g0.height,
        g1.width == gpre.width,
        g1.height == gpre.height,
        carved_walk(gpre, from, path0),
        changes_within(g0, gpre, path0),
        path0.len() == 0 ==> prev == from,
        path0.len() > 0 ==> path0[path0.len() - 1] == prev,
        walk_step_ok(gpre, prev, cell),
        gpre.in_bounds(cell.0 as int, cell.1 as int),
        g1.spec_tile(cell.0 as int, cell.1 as int) == (Tile {
            sprite_index: FLOOR_SPRITE,
            passable: true,
            view_status: gpre.spec_tile(cell.0 as int, cell.1 as int).view_status,
        }),
        forall|a: int, b: int|
            gpre.in_bounds(a, b) && !(a == cell.0 && b == cell.1)
                ==> #[trigger] g1.spec_tile(a, b) == gpre.spec_tile(a, b),
        path1 == path0.push(cell),
    ensures
        carved_walk(g1, from, path1),
        changes_within(g0, g1, path1),
{
    assert forall|i: int|
        #![trigger path1[i]]
        0 <= i < path1.len() implies {
        &&& g1.in_bounds(path1[i].0 as int, path1[i].1 as int)
        &&& g1.spec_tile(path1[i].0 as int, path1[i].1 as int).passable
        &&& g1.spec_tile(path1[i].0 as int, path1[i].1 as int).sprite_index == FLOOR_SPRITE
        &&& walk_step_ok(
            g1,
            if i == 0 {
                from
            } else {
                path1[i - 1]
            },
            path1[i],
        )
    } by {
        if i < path1.len() - 1 {
            assert(path1[i] == path0[i]);
            assert(gpre.spec_tile(path0[i].0 as int, path0[i].1 as int).passable);
            if !(path0[i].0 == cell.0 && path0[i].1 == cell.1) {
                assert(g1.spec_tile(path0[i].0 as int, path0[i].1 as int) == gpre.spec_tile(
                    path0[i].0 as int,
                    path0[i].1 as int,
                ));
            }
        } else {
            assert(path1[i] == cell);
            if i > 0 {
                assert(path1[i - 1] == path0[i - 1]);
                assert(path0[i - 1] == prev);
            }
        }
    }
    assert forall|a: int, b: int|
        #![trigger g1.spec_tile(a, b)]
        g0.in_bounds(a, b) && g1.spec_tile(a, b) != g0.spec_tile(a, b) implies exists|i: int|
        0 <= i < path1.len() && (#[trigger] path1[i]).0 == a && path1[i].1 == b by {
        if g1.spec_tile(a, b) == gpre.spec_tile(a, b) {
            let wi = choose|i: int|
                0 <= i < path0.len() && (#[trigger] path0[i]).0 == a && path0[i].1 == b;
            assert(path1[wi].0 == a && path1[wi].1 == b);
        } else {
            assert(a == cell.0 && b == cell.1);
            assert(path1[path1.len() - 1].0 == a && path1[path1.len() - 1].1 == b);
        }
    }
}

impl Grid {
    /// Carve `(x, y)`: mark it a passable floor, leaving its visibility as
    /// it is.
    pub fn carve(&mut self, x: usize, y: usize)
        requires
            old(self).wf(),
            x < old(self).width,
            y < old(self).height,
        ensures
            final(self).wf(),
            final(self).player_spawn_points == old(self).player_spawn_points,
            final(self).enemy_spawn_points == old(self).enemy_spawn_points,
            carved_tiles_only(*old(self), *final(self)),
            final(self).spec_tile(x as int, y as int) == (Tile {
                sprite_index: FLOOR_SPRITE,
                passable: true,
                view_status: old(self).spec_tile(x as int, y as int).view_status,
            }),
            forall|a: int, b: int|
                old(self).in_bounds(a, b) && !(a == x && b == y)
                    ==> #[trigger] final(self).spec_tile(a, b) == old(self).spec_tile(a, b),
    {
        let t = match self.get(x, y) {
            Some(t) => t,
            None => Tile::default(),
        };
        self.set(
            x,
            y,
            Tile { sprite_index: FLOOR_SPRITE, passable: true, view_status: t.view_status },
        );
    }

    /// One random walk of `walk_len` cardinal steps from `(x0, y0)`, clamped
    /// to the grid, carving every visited cell. The visited cells are
    /// returned; all of them are in bounds and passable afterwards.
    #[verifier::rlimit(100)]
    pub fn random_walk<R: RngSource>(
        &mut self,
        x0: usize,
        y0: usize,
        walk_len: usize,
        rng: &mut R,
    ) -> (path: Vec<(usize, usize)>)
        requires
            old(self).wf(),
            x0 < old(self).width,
            y0 < old(self).height,
        ensures
            final(self).wf(),
            final(self).player_spawn_points == old(self).player_spawn_points,
            final(self).enemy_spawn_points == old(self).enemy_spawn_points,
            carved_tiles_only(*old(self), *final(self)),
            path@.len() == walk_len,
            carved_walk(*final(self), (x0, y0), path@),
            changes_within(*old(self), *final(self), path@),
    {
        let ghost g0 = *self;
        let mut x = x0;
        let mut y = y0;
        let mut path: Vec<(usize, usize)> = Vec::new();
        let mut step: usize = 0;
        while step < walk_len
            invariant
                g0 == *old(self),
                self.wf(),
                self.width == g0.width,
                self.height == g0.height,
                self.player_spawn_points == g0.player_spawn_points,
                self.enemy_spawn_points == g0.enemy_spawn_points,
                carved_tiles_only(g0, *self),
                x < self.width,
                y < self.height,
                x0 < self.width,
                y0 < self.height,
                step <= walk_len,
                path@.len() == step,
                path@.len() == 0 ==> (x, y) == ((x0, y0)),
                path@.len() > 0 ==> path@[path@.len() - 1] == ((x, y)),
                carved_walk(*self, (x0, y0), path@),
                changes_within(g0, *self, path@),
            decreases walk_len - step,
        {
            let ghost gpre = *self;
            let ghost prev = (x, y);
            match random_direction(rng) {
                CardinalDirection::Up => {
                    if y + 1 < self.height {
                        y = y + 1;
                    }
                },
                CardinalDirection::Down => {
                    if y > 0 {
                        y = y - 1;
                    }
                },
                CardinalDirection::Left => {
                    if x > 0 {
                        x = x - 1;
                    }
                },
                CardinalDirection::Right => {
                    if x + 1 < self.width {
                        x = x + 1;
                    }
                },
            }
            proof {
                assert(walk_step_ok(*self, prev, (x, y)));
            }
            let ghost path0 = path@;
            self.carve(x, y);
            path.push((x, y));
            proof {
                lemma_carved_trans(g0, gpre, *self);
                lemma_walk_extend(g0, gpre, *self, (x0, y0), prev, (x, y), path0, path@);
            }
            step = step + 1;
        }
        path
    }

    /// Carve a biased random tunnel from `start` toward `target`: steps that
    /// point away from the target are rerolled on a small alternating
    /// budget, and every 128 steps the pathfinder checks whether the two
    /// ends are connected. Gives up with `GenerationFailed` when a bounded
    /// step budget runs out.
    pub fn generate_connecting_tunnel<R: RngSource>(
        &mut self,
        start: (usize, usize),
        target: (usize, usize),
        rng: &mut R,
    ) -> (r: Result<Vec<(usize, usize)>, GenerationError>)
        requires
            old(self).wf(),
            old(self).in_bounds(start.0 as int, start.1 as int),
            old(self).in_bounds(target.0 as int, target.1 as int),
        ensures
            final(self).wf(),
            final(self).player_spawn_points == old(self).player_spawn_points,
            final(self).enemy_spawn_points == old(self).enemy_spawn_points,
            carved_tiles_only(*old(self), *final(self)),
            r is Ok ==> reachable(*final(self), start, target),
            r is Ok ==> carved_walk(*final(self), start, r->Ok_0@),
            r is Ok ==> changes_within(*old(self), *final(self), r->Ok_0@),
            reachable(*old(self), start, target) ==> r is Ok,
    {
        let ghost g0 = *self;
        let mut x = start.0;
        let mut y = start.1;
        let mut path: Vec<(usize, usize)> = Vec::new();
        let step_limit: usize = 256 * (self.width + self.height) + 256;
        let mut i: usize = 0;
        while i < step_limit
            invariant
                g0 == *old(self),
                self.wf(),
                self.width == g0.width,
                self.height == g0.height,
                self.player_spawn_points == g0.player_spawn_points,
                self.enemy_spawn_points == g0.enemy_spawn_points,
                carved_tiles_only(g0, *self),
                self.in_bounds(start.0 as int, start.1 as int),
                self.in_bounds(target.0 as int, target.1 as int),
                x < self.width,
                y < self.height,
                path@.len() == 0 ==> (x, y) == start,
                path@.len() > 0 ==> path@[path@.len() - 1] == ((x, y)),
                carved_walk(*self, start, path@),
                changes_within(g0, *self, path@),
                i >= 1 ==> !reachable(g0, start, target),
            decreases step_limit - i,
        {
            let ghost gpre = *self;
            let ghost prev = (x, y);
            let dir_x = if target.0 > x {
                CardinalDirection::Right
            } else {
                CardinalDirection::Left
            };
            let dir_y = if target.1 > y {
                CardinalDirection::Up
            } else {
                CardinalDirection::Down
            };

            let mut step_dir = random_direction(rng);
            let mut rerolls: usize = i % 2;
            while rerolls > 0 && step_dir != dir_x && step_dir != dir_y
                invariant
                    rerolls <= 1,
                decreases rerolls,
            {
                rerolls = rerolls - 1;
                step_dir = random_direction(rng);
            }

            match step_dir {
                CardinalDirection::Up => {
                    if y + 1 < self.height {
                        y = y + 1;
                    }
                },
                CardinalDirection::Down => {
                    if y > 0 {
                        y = y - 1;
                    }
                },
                CardinalDirection::Left => {
                    if x > 0 {
                        x = x - 1;
                    }
                },
                CardinalDirection::Right => {
                    if x + 1 < self.width {
                        x = x + 1;
                    }
                },
            }
            proof {
                assert(walk_step_ok(*self, prev, (x, y)));
            }
            let ghost path0 = path@;
            self.carve(x, y);
            path.push((x, y));
            proof {
                lemma_carved_trans(g0, gpre, *self);
                lemma_walk_extend(g0, gpre, *self, start, prev, (x, y), path0, path@);
            }

            if i % 128 == 0 {
                match self.get_path(start, target) {
                    Some(p) => {
                        proof {
                            assert(valid_path(*self, start, target, p@));
                        }
                        return Ok(path);
                    },
                    None => {
                        proof {
                            if reachable(g0, start, target) {
                                lemma_reachable_after_carving(g0, *self, start, target);
                                assert(false);
                            }
                        }
                    },
                }
            }
            i = i + 1;
        }
        proof {
            assert(step_limit >= 1);
            if reachable(g0, start, target) {
                assert(false);
            }
        }
        Err(GenerationError::GenerationFailed)
    }

    /// Carve a cavern map per `settings`: place cavern centers at least
    /// `max_cavern_dist` apart (the first at the grid's center), carve each
    /// with random walks, tunnel disconnected caverns together, then select
    /// the player spawn (the grid center) and enemy spawn points. Every
    /// selected enemy spawn point is connected to the player spawn by a
    /// passable walk.
    pub fn generate_caverns<R: RngSource>(
        &mut self,
        settings: CavernSettings,
        rng: &mut R,
    ) -> (r: Result<(), GenerationError>)
        requires
            old(self).wf(),
            old(self).player_spawn_points@.len() == 0,
            old(self).enemy_spawn_points@.len() == 0,
        ensures
            final(self).wf(),
            carved_tiles_only(*old(self), *final(self)),
            r is Err ==> final(self).player_spawn_points@.len() == 0
                && final(self).enemy_spawn_points@.len() == 0,
            settings.cavern_count <= 1 ==> r is Ok,
            (r is Ok && settings.cavern_count <= 1 && (forall|x: int, y: int|
                old(self).in_bounds(x, y) ==> !(#[trigger] old(self).spec_tile(
                    x,
                    y,
                )).passable)) ==> forall|x: int, y: int|
                #![trigger final(self).spec_tile(x, y)]
                final(self).spec_passable(x, y) ==> reachable(
                    *final(self),
                    final(self).player_spawn_points@[0],
                    ((x as usize, y as usize)),
                ),
            r is Ok ==> {
                &&& final(self).player_spawn_points@.len() == 1
                &&& final(self).player_spawn_points@[0].0 == old(self).width / 2
                &&& final(self).player_spawn_points@[0].1 == old(self).height / 2
                &&& final(self).spec_passable(
                    old(self).width as int / 2,
                    old(self).height as int / 2,
                )
                &&& final(self).enemy_spawn_points@.len() <= 4 * cavern_cap(
                    settings.cavern_count,
                )
                &&& forall|i: int, j: int|
                    #![trigger final(self).enemy_spawn_points@[i], final(self).enemy_spawn_points@[j]]
                    0 <= i < j < final(self).enemy_spawn_points@.len()
                        ==> final(self).enemy_spawn_points@[i]
                        != final(self).enemy_spawn_points@[j]
                &&& forall|i: int|
                    0 <= i < final(self).enemy_spawn_points@.len()
                        ==> #[trigger] final(self).enemy_spawn_points@[i]
                        != final(self).player_spawn_points@[0]
                &&& forall|i: int|
                    0 <= i < final(self).enemy_spawn_points@.len() ==> {
                        &&& final(self).in_bounds(
                            #[trigger] final(self).enemy_spawn_points@[i].0 as int,
                            final(self).enemy_spawn_points@[i].1 as int,
                        )
                        &&& reachable(
                            *final(self),
                            final(self).player_spawn_points@[0],
                            final(self).enemy_spawn_points@[i],
                        )
                    }
            },
    {
        let ghost g0 = *self;
        let w = self.width;
        let h = self.height;
        let origin: (usize, usize) = (w / 2, h / 2);
        let ghost fresh = settings.cavern_count <= 1 && (forall|x: int, y: int|
            g0.in_bounds(x, y) ==> !(#[trigger] g0.spec_tile(x, y)).passable);

        // Cavern placement: sample centers until enough lie far apart.
        let mut caverns: Vec<(usize, usize)> = Vec::new();
        caverns.push(origin);
        let mut attempts: usize = 0;
        while caverns.len() < settings.cavern_count && attempts < PLACEMENT_ATTEMPT_LIMIT
            invariant
                g0 == *old(self),
                self.wf(),
                *self == g0,
                w == self.width,
                h == self.height,
                caverns@.len() >= 1,
                caverns@.len() <= cavern_cap(settings.cavern_count),
                settings.cavern_count <= 1 ==> caverns@.len() == 1,
                caverns@[0] == ((w / 2, h / 2)),
                forall|k: int|
                    0 <= k < caverns@.len() ==> self.in_bounds(
                        #[trigger] caverns@[k].0 as int,
                        caverns@[k].1 as int,
                    ),
            decreases PLACEMENT_ATTEMPT_LIMIT - attempts,
        {
            attempts = attempts + 1;
            let cx = rng.next_below(w);
            let cy = rng.next_below(h);
            let mut far_enough = true;
            let mut k: usize = 0;
            while k < caverns.len()
                invariant
                    k <= caverns@.len(),
                decreases caverns@.len() - k,
            {
                if distance(caverns[k], (cx, cy)) < settings.max_cavern_dist {
                    far_enough = false;
                }
                k = k + 1;
            }
            if far_enough {
                caverns.push((cx, cy));
            }
        }
        if caverns.len() < settings.cavern_count {
            return Err(GenerationError::GenerationFailed);
        }

        // Carve each cavern with random walks from its center; remember the
        // visited cells as spawn candidates.
        let mut cavern_points: Vec<Vec<(usize, usize)>> = Vec::new();
        let mut ci: usize = 0;
        while ci < caverns.len()
            invariant
                g0 == *old(self),
                self.wf(),
                w == self.width,
                h == self.height,
                self.player_spawn_points == g0.player_spawn_points,
                self.enemy_spawn_points == g0.enemy_spawn_points,
                carved_tiles_only(g0, *self),
                ci <= caverns@.len(),
                caverns@.len() >= 1,
                caverns@.len() <= cavern_cap(settings.cavern_count),
                settings.cavern_count <= 1 ==> caverns@.len() == 1,
                caverns@[0] == ((w / 2, h / 2)),
                forall|k: int|
                    0 <= k < caverns@.len() ==> self.in_bounds(
                        #[trigger] caverns@[k].0 as int,
                        caverns@[k].1 as int,
                    ),
                cavern_points@.len() == ci,
                fresh == (settings.cavern_count <= 1 && (forall|x: int, y: int|
                    g0.in_bounds(x, y) ==> !(#[trigger] g0.spec_tile(x, y)).passable)),
                origin == ((w / 2, h / 2)),
                fresh && ci > 0 ==> self.spec_passable(origin.0 as int, origin.1 as int),
                fresh ==> forall|x: int, y: int|
                    #![trigger self.spec_tile(x, y)]
                    self.spec_passable(x, y) ==> reachable(
                        *self,
                        origin,
                        ((x as usize, y as usize)),
                    ),
                forall|k: int, j: int|
                    0 <= k < cavern_points@.len() && 0 <= j < cavern_points@[k].len()
                        ==> self.in_bounds(
                        (#[trigger] cavern_points@[k][j]).0 as int,
                        cavern_points@[k][j].1 as int,
                    ),
            decreases caverns@.len() - ci,
        {
            let ghost gpre = *self;
            let c = caverns[ci];
            self.carve(c.0, c.1);
            proof {
                lemma_carved_trans(g0, gpre, *self);
                if fresh {
                    assert(ci == 0);
                    assert(c == origin);
                    lemma_region_after_carve(gpre, *self, origin);
                }
            }
            let mut points: Vec<(usize, usize)> = Vec::new();
            points.push(c);
            let mut wk: usize = 0;
            while wk < settings.walk_count
                invariant
                    g0 == *old(self),
                    self.wf(),
                    w == self.width,
                    h == self.height,
                    self.player_spawn_points == g0.player_spawn_points,
                    self.enemy_spawn_points == g0.enemy_spawn_points,
                    carved_tiles_only(g0, *self),
                    c.0 < self.width,
                    c.1 < self.height,
                    wk <= settings.walk_count,
                    fresh == (settings.cavern_count <= 1 && (forall|x: int, y: int|
                    g0.in_bounds(x, y) ==> !(#[trigger] g0.spec_tile(x, y)).passable)),
                origin == ((w / 2, h / 2)),
                    fresh ==> forall|x: int, y: int|
                    #![trigger self.spec_tile(x, y)]
                    self.spec_passable(x, y) ==> reachable(
                        *self,
                        origin,
                        ((x as usize, y as usize)),
                    ),
                    fresh ==> c == origin,
                    fresh ==> self.spec_passable(origin.0 as int, origin.1 as int),
                    forall|j: int|
                        0 <= j < points@.len() ==> self.in_bounds(
                            (#[trigger] points@[j]).0 as int,
                            points@[j].1 as int,
                        ),
            decreases settings.walk_count - wk,
            {
                let ghost gw = *self;
                let walk = self.random_walk(c.0, c.1, settings.walk_len, rng);
                proof {
                    lemma_carved_trans(g0, gw, *self);
                    if fresh {
                        lemma_region_after_walk(gw, *self, origin, walk@);
                    }
                }
                let mut pi: usize = 0;
                while pi < walk.len()
                    invariant
                        self.wf(),
                        w == self.width,
                        h == self.height,
                        pi <= walk@.len(),
                        forall|i: int|
                            0 <= i < walk@.len() ==> self.spec_passable(
                                #[trigger] walk@[i].0 as int,
                                walk@[i].1 as int,
                            ),
                        forall|j: int|
                            0 <= j < points@.len() ==> self.in_bounds(
                                (#[trigger] points@[j]).0 as int,
                                points@[j].1 as int,
                            ),
                    decreases walk@.len() - pi,
                {
                    let p = walk[pi];
                    if !contains_point(&points, p) {
                        points.push(p);
                    }
                    pi = pi + 1;
                }
                wk = wk + 1;
            }
            cavern_points.push(points);
            ci = ci + 1;
        }

        // Connectivity repair: tunnel every cavern that the origin cannot
        // reach toward its nearest equally unreachable neighbour (or toward
        // the origin when no such neighbour exists).
        let mut ti: usize = 0;
        while ti < caverns.len()
            invariant
                g0 == *old(self),
                g0.player_spawn_points@.len() == 0,
                g0.enemy_spawn_points@.len() == 0,
                self.wf(),
                w == self.width,
                h == self.height,
                self.player_spawn_points == g0.player_spawn_points,
                self.enemy_spawn_points == g0.enemy_spawn_points,
                carved_tiles_only(g0, *self),
                ti <= caverns@.len(),
                caverns@.len() >= 1,
                caverns@.len() <= cavern_cap(settings.cavern_count),
                settings.cavern_count <= 1 ==> caverns@.len() == 1,
                caverns@[0] == ((w / 2, h / 2)),
                fresh == (settings.cavern_count <= 1 && (forall|x: int, y: int|
                    g0.in_bounds(x, y) ==> !(#[trigger] g0.spec_tile(x, y)).passable)),
                origin == ((w / 2, h / 2)),
                fresh ==> forall|x: int, y: int|
                    #![trigger self.spec_tile(x, y)]
                    self.spec_passable(x, y) ==> reachable(
                        *self,
                        origin,
                        ((x as usize, y as usize)),
                    ),
                fresh ==> self.spec_passable(origin.0 as int, origin.1 as int),
                forall|k: int|
                    0 <= k < caverns@.len() ==> self.in_bounds(
                        #[trigger] caverns@[k].0 as int,
                        caverns@[k].1 as int,
                    ),
            decreases caverns@.len() - ti,
        {
            let origin_c = caverns[0];
            let c = caverns[ti];
            let connected = match self.get_path(origin_c, c) {
                Some(_) => true,
                None => false,
            };
            if !connected {
                proof {
                    // A single-cavern run never reaches the tunnel stage:
                    // the only cavern is the origin, connected to itself.
                    if settings.cavern_count <= 1 {
                        assert(ti == 0);
                        assert(origin_c == c);
                        assert(false);
                    }
                }
                let mut best_j: usize = 0;
                let mut best_d: usize = 0;
                let mut found = false;
                let mut j: usize = 0;
                while j < caverns.len()
                    invariant
                        self.wf(),
                        w == self.width,
                        h == self.height,
                        j <= caverns@.len(),
                        found ==> best_j < caverns@.len(),
                        forall|k: int|
                            0 <= k < caverns@.len() ==> self.in_bounds(
                                #[trigger] caverns@[k].0 as int,
                                caverns@[k].1 as int,
                            ),
                        self.in_bounds(c.0 as int, c.1 as int),
                    decreases caverns@.len() - j,
                {
                    let o = caverns[j];
                    let linked = match self.get_path(c, o) {
                        Some(_) => true,
                        None => false,
                    };
                    if !linked {
                        let dd = distance(c, o);
                        if !found || dd < best_d {
                            found = true;
                            best_j = j;
                            best_d = dd;
                        }
                    }
                    j = j + 1;
                }
                let tgt = if found {
                    caverns[best_j]
                } else {
                    origin_c
                };
                let ghost gpre = *self;
                match self.generate_connecting_tunnel(c, tgt, rng) {
                    Ok(_) => {},
                    Err(e) => {
                        proof {
                            lemma_carved_trans(g0, gpre, *self);
                        }
                        return Err(e);
                    },
                }
                proof {
                    lemma_carved_trans(g0, gpre, *self);
                }
            }
            ti = ti + 1;
        }

        // Spawn selection: the origin cavern's center is the player spawn;
        // a few random cells of each cavern become enemy spawns, provided
        // they are fresh and the pathfinder connects them to the origin.
        let ghost gtiles = *self;
        self.carve(origin.0, origin.1);
        proof {
            lemma_carved_trans(g0, gtiles, *self);
            if fresh {
                lemma_region_after_carve(gtiles, *self, origin);
            }
        }
        let ghost gfix = *self;
        let mut enemy_list: Vec<(usize, usize)> = Vec::new();
        let mut si: usize = 0;
        while si < cavern_points.len()
            invariant
                g0 == *old(self),
                carved_tiles_only(g0, gfix),
                gfix.player_spawn_points@.len() == 0,
                gfix.enemy_spawn_points@.len() == 0,
                self.wf(),
                *self == gfix,
                w == self.width,
                h == self.height,
                si <= cavern_points@.len(),
                cavern_points@.len() <= cavern_cap(settings.cavern_count),
                enemy_list@.len() <= 4 * si,
                self.in_bounds(origin.0 as int, origin.1 as int),
                forall|k: int, j: int|
                    0 <= k < cavern_points@.len() && 0 <= j < cavern_points@[k].len()
                        ==> self.in_bounds(
                        (#[trigger] cavern_points@[k][j]).0 as int,
                        cavern_points@[k][j].1 as int,
                    ),
                forall|i: int, j: int|
                    #![trigger enemy_list@[i], enemy_list@[j]]
                    0 <= i < j < enemy_list@.len() ==> enemy_list@[i] != enemy_list@[j],
                forall|i: int| 0 <= i < enemy_list@.len() ==> #[trigger] enemy_list@[i] != origin,
                forall|i: int|
                    0 <= i < enemy_list@.len() ==> {
                        &&& self.in_bounds(
                            (#[trigger] enemy_list@[i]).0 as int,
                            enemy_list@[i].1 as int,
                        )
                        &&& reachable(*self, origin, enemy_list@[i])
                    },
            decreases cavern_points@.len() - si,
        {
            let spawn_attempts = rng.next_below(5);
            let mut a: usize = 0;
            while a < spawn_attempts
                invariant
                    g0 == *old(self),
                    carved_tiles_only(g0, gfix),
                    gfix.player_spawn_points@.len() == 0,
                    gfix.enemy_spawn_points@.len() == 0,
                    self.wf(),
                    *self == gfix,
                    w == self.width,
                    h == self.height,
                    a <= spawn_attempts,
                    spawn_attempts <= 4,
                    si < cavern_points@.len(),
                    enemy_list@.len() <= 4 * (si as int) + a,
                    self.in_bounds(origin.0 as int, origin.1 as int),
                    forall|k: int, j: int|
                        0 <= k < cavern_points@.len() && 0 <= j < cavern_points@[k].len()
                            ==> self.in_bounds(
                            (#[trigger] cavern_points@[k][j]).0 as int,
                            cavern_points@[k][j].1 as int,
                        ),
                    forall|i: int, j: int|
                        #![trigger enemy_list@[i], enemy_list@[j]]
                        0 <= i < j < enemy_list@.len() ==> enemy_list@[i] != enemy_list@[j],
                    forall|i: int|
                        0 <= i < enemy_list@.len() ==> #[trigger] enemy_list@[i] != origin,
                    forall|i: int|
                        0 <= i < enemy_list@.len() ==> {
                            &&& self.in_bounds(
                                (#[trigger] enemy_list@[i]).0 as int,
                                enemy_list@[i].1 as int,
                            )
                            &&& reachable(*self, origin, enemy_list@[i])
                        },
                decreases spawn_attempts - a,
            {
                let points = &cavern_points[si];
                if points.len() > 0 {
                    let idx = rng.next_below(points.len());
                    let cand = points[idx];
                    let fresh = !(cand.0 == origin.0 && cand.1 == origin.1) && !contains_point(
                        &enemy_list,
                        cand,
                    );
                    if fresh {
                        match self.get_path(origin, cand) {
                            Some(p) => {
                                proof {
                                    assert(valid_path(*self, origin, cand, p@));
                                    assert(reachable(*self, origin, cand));
                                }
                                enemy_list.push(cand);
                            },
                            None => {},
                        }
                    }
                }
                a = a + 1;
            }
            si = si + 1;
        }

        self.player_spawn_points.push(origin);
        self.enemy_spawn_points = enemy_list;
        proof {
            assert(self.tiles@ == gfix.tiles@);
            assert forall|x: int, y: int|
                #![trigger self.spec_tile(x, y)]
                g0.in_bounds(x, y) implies {
                let t0 = g0.spec_tile(x, y);
                let t1 = self.spec_tile(x, y);
                &&& t1.view_status == t0.view_status
                &&& (t1 == t0 || (t1.passable && t1.sprite_index == FLOOR_SPRITE))
                &&& (t0.passable ==> t1.passable)
            } by {
                assert(self.spec_tile(x, y) == gfix.spec_tile(x, y));
            }
            assert(carved_tiles_only(g0, *self));
            assert(self.spec_tile(g0.width as int / 2, g0.height as int / 2)
                == gfix.spec_tile(g0.width as int / 2, g0.height as int / 2));
            assert forall|i: int| 0 <= i < self.enemy_spawn_points@.len() implies {
                &&& self.in_bounds(
                    (#[trigger] self.enemy_spawn_points@[i]).0 as int,
                    self.enemy_spawn_points@[i].1 as int,
                )
                &&& reachable(*self, origin, self.enemy_spawn_points@[i])
            } by {
                assert(reachable(gfix, origin, self.enemy_spawn_points@[i]));
                let p = choose|p: Seq<(usize, usize)>|
                    valid_path(gfix, origin, self.enemy_spawn_points@[i], p);
                lemma_valid_path_same_tiles(gfix, *self, origin, self.enemy_spawn_points@[i], p);
            }
            assert(self.player_spawn_points@[0] == origin);
            assert(self.enemy_spawn_points@.len() <= 4 * cavern_cap(settings.cavern_count));
            if fresh {
                assert forall|x: int, y: int|
                    #![trigger self.spec_tile(x, y)]
                    self.spec_passable(x, y) implies reachable(
                    *self,
                    origin,
                    ((x as usize, y as usize)),
                ) by {
                    let cell = ((x as usize, y as usize));
                    assert(gfix.spec_tile(x, y) == self.spec_tile(x, y));
                    assert(gfix.spec_passable(x, y));
                    assert(reachable(gfix, origin, cell));
                    let p = choose|p: Seq<(usize, usize)>| valid_path(gfix, origin, cell, p);
                    lemma_valid_path_same_tiles(gfix, *self, origin, cell, p);
                }
            }
        }
        Ok(())
    }

    /// A freshly generated map of the default dimensions (500 x 250).
    pub fn new_generated<R: RngSource>(settings: MapGeneratorSettings, rng: &mut R) -> (r: Result<
        Grid,
        GenerationError,
    >)
        ensures
            settings->Cavern_0.cavern_count <= 1 ==> r is Ok,
            (r is Ok && settings->Cavern_0.cavern_count <= 1) ==> forall|x: int, y: int|
                #![trigger r->Ok_0.spec_tile(x, y)]
                r->Ok_0.spec_passable(x, y) ==> reachable(
                    r->Ok_0,
                    r->Ok_0.player_spawn_points@[0],
                    ((x as usize, y as usize)),
                ),
            r is Ok ==> {
                &&& r->Ok_0.wf()
                &&& r->Ok_0.width == crate::grid::DEFAULT_WIDTH
                &&& r->Ok_0.height == crate::grid::DEFAULT_HEIGHT
                &&& r->Ok_0.player_spawn_points@.len() == 1
                &&& r->Ok_0.enemy_spawn_points@.len() <= 4 * cavern_cap(
                    settings->Cavern_0.cavern_count,
                )
                &&& forall|i: int, j: int|
                    #![trigger r->Ok_0.enemy_spawn_points@[i], r->Ok_0.enemy_spawn_points@[j]]
                    0 <= i < j < r->Ok_0.enemy_spawn_points@.len()
                        ==> r->Ok_0.enemy_spawn_points@[i] != r->Ok_0.enemy_spawn_points@[j]
                &&& forall|i: int|
                    0 <= i < r->Ok_0.enemy_spawn_points@.len()
                        ==> #[trigger] r->Ok_0.enemy_spawn_points@[i]
                        != r->Ok_0.player_spawn_points@[0]
                &&& forall|i: int|
                    0 <= i < r->Ok_0.enemy_spawn_points@.len() ==> reachable(
                        r->Ok_0,
                        r->Ok_0.player_spawn_points@[0],
                        #[trigger] r->Ok_0.enemy_spawn_points@[i],
                    )
            },
    {
        let mut grid = Grid::new(crate::grid::DEFAULT_WIDTH, crate::grid::DEFAULT_HEIGHT);
        proof {
            assert forall|x: int, y: int|
                grid.in_bounds(x, y) implies !(#[trigger] grid.spec_tile(x, y)).passable by {
                crate::grid::lemma_index_bounds(x, y, grid.width as int, grid.height as int);
            }
        }
        match grid.generate(settings, rng) {
            Ok(_) => {
                proof {
                    assert forall|i: int|
                        0 <= i < grid.enemy_spawn_points@.len() implies reachable(
                        grid,
                        grid.player_spawn_points@[0],
                        #[trigger] grid.enemy_spawn_points@[i],
                    ) by {
                        assert(grid.in_bounds(
                            grid.enemy_spawn_points@[i].0 as int,
                            grid.enemy_spawn_points@[i].1 as int,
                        ));
                    }
                }
                Ok(grid)
            },
            Err(e) => Err(e),
        }
    }

    /// Generate a map per the chosen generator family.
    pub fn generate<R: RngSource>(
        &mut self,
        settings: MapGeneratorSettings,
        rng: &mut R,
    ) -> (r: Result<(), GenerationError>)
        requires
            old(self).wf(),
            old(self).player_spawn_points@.len() == 0,
            old(self).enemy_spawn_points@.len() == 0,
        ensures
            final(self).wf(),
            carved_tiles_only(*old(self), *final(self)),
            r is Err ==> final(self).player_spawn_points@.len() == 0
                && final(self).enemy_spawn_points@.len() == 0,
            settings->Cavern_0.cavern_count <= 1 ==> r is Ok,
            (r is Ok && settings->Cavern_0.cavern_count <= 1 && (forall|x: int, y: int|
                old(self).in_bounds(x, y) ==> !(#[trigger] old(self).spec_tile(
                    x,
                    y,
                )).passable)) ==> forall|x: int, y: int|
                #![trigger final(self).spec_tile(x, y)]
                final(self).spec_passable(x, y) ==> reachable(
                    *final(self),
                    final(self).player_spawn_points@[0],
                    ((x as usize, y as usize)),
                ),
            r is Ok ==> {
                &&& final(self).player_spawn_points@.len() == 1
                &&& final(self).player_spawn_points@[0].0 == old(self).width / 2
                &&& final(self).player_spawn_points@[0].1 == old(self).height / 2
                &&& final(self).spec_passable(
                    old(self).width as int / 2,
                    old(self).height as int / 2,
                )
                &&& final(self).enemy_spawn_points@.len() <= 4 * cavern_cap(
                    settings->Cavern_0.cavern_count,
                )
                &&& forall|i: int, j: int|
                    #![trigger final(self).enemy_spawn_points@[i], final(self).enemy_spawn_points@[j]]
                    0 <= i < j < final(self).enemy_spawn_points@.len()
                        ==> final(self).enemy_spawn_points@[i]
                        != final(self).enemy_spawn_points@[j]
                &&& forall|i: int|
                    0 <= i < final(self).enemy_spawn_points@.len()
                        ==> #[trigger] final(self).enemy_spawn_points@[i]
                        != final(self).player_spawn_points@[0]
                &&& forall|i: int|
                    0 <= i < final(self).enemy_spawn_points@.len() ==> {
                        &&& final(self).in_bounds(
                            #[trigger] final(self).enemy_spawn_points@[i].0 as int,
                            final(self).enemy_spawn_points@[i].1 as int,
                        )
                        &&& reachable(
                            *final(self),
                            final(self).player_spawn_points@[0],
                            final(self).enemy_spawn_points@[i],
                        )
                    }
            },
    {
        match settings {
            MapGeneratorSettings::Cavern(s) => self.generate_caverns(s, rng),
        }
    }
}

} // verus!
