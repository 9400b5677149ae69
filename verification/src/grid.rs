use vstd::prelude::*;

verus! {

/// Largest width or height a grid may have. Keeping the dimensions bounded
/// keeps every index and slope computation comfortably inside `i64`.
pub const MAX_DIM: usize = 4096;

/// Width of the default map.
pub const DEFAULT_WIDTH: usize = 500;

/// Height of the default map.
pub const DEFAULT_HEIGHT: usize = 250;

/// Sprite tag the renderer shows for an uncarved wall tile.
pub const WALL_SPRITE: usize = 206;

/// Sprite tag the renderer shows for a carved floor tile.
pub const FLOOR_SPRITE: usize = 520;

/// Fog-of-war memory of one tile: currently visible, remembered, or never
/// observed.
#[derive(Clone, Copy, PartialEq, Eq, Structural, Debug)]
pub enum ViewStatus {
    Seen,
    Revealed,
    Unexplored,
}

/// One grid cell's terrain state.
#[derive(Clone, Copy, PartialEq, Eq, Structural, Debug)]
pub struct Tile {
    pub sprite_index: usize,
    pub passable: bool,
    pub view_status: ViewStatus,
}

/// The tile every cell starts from: an unexplored, impassable wall.
pub open spec fn default_tile() -> Tile {
    Tile { sprite_index: WALL_SPRITE, passable: false, view_status: ViewStatus::Unexplored }
}

impl Default for Tile {
    fn default() -> (t: Tile)
        ensures
            t == default_tile(),
    {
        Tile { sprite_index: WALL_SPRITE, passable: false, view_status: ViewStatus::Unexplored }
    }
}

/// The player spawn points a generated map offers, as handed to session
/// setup.
pub struct PlayerSpawnPoints {
    pub points: Vec<(usize, usize)>,
}

/// The enemy spawn points a generated map offers, as handed to session
/// setup.
pub struct EnemySpawnPoints {
    pub points: Vec<(usize, usize)>,
}

/// The addressable 2D tile store, row-major in `tiles`, together with the
/// spawn points the generator selected.
pub struct Grid {
    pub tiles: Vec<Tile>,
    pub width: usize,
    pub height: usize,
    pub player_spawn_points: Vec<(usize, usize)>,
    pub enemy_spawn_points: Vec<(usize, usize)>,
}

impl Grid {
    /// Well-formedness: positive bounded dimensions and a fully allocated
    /// row-major tile store.
    pub open spec fn wf(self) -> bool {
        &&& 1 <= self.width <= MAX_DIM
        &&& 1 <= self.height <= MAX_DIM
        &&& self.tiles@.len() == self.width * self.height
    }

    pub open spec fn in_bounds(self, x: int, y: int) -> bool {
        0 <= x < self.width && 0 <= y < self.height
    }

    /// The tile stored at `(x, y)`; row-major index `y * width + x`.
    pub open spec fn spec_tile(self, x: int, y: int) -> Tile {
        self.tiles@[y * self.width + x]
    }

    /// Whether `(x, y)` is inside the grid and its tile can be walked on.
    pub open spec fn spec_passable(self, x: int, y: int) -> bool {
        self.in_bounds(x, y) && self.spec_tile(x, y).passable
    }
}

/// A row-major index of an in-bounds cell lies inside the tile store, and
/// for bounded dimensions the whole computation fits comfortably in `usize`.
pub proof fn lemma_index_bounds(x: int, y: int, w: int, h: int)
    requires
        0 <= x < w <= MAX_DIM,
        0 <= y < h <= MAX_DIM,
    ensures
        0 <= y * w + x < w * h,
        w * h <= MAX_DIM * MAX_DIM,
{
    assert(0 <= y * w + x < w * h && w * h <= MAX_DIM * MAX_DIM) by (nonlinear_arith)
        requires
            0 <= x < w <= MAX_DIM,
            0 <= y < h <= MAX_DIM,
    ;
}

/// Row-major indexing is injective on in-bounds cells.
pub proof fn lemma_index_injective(x1: int, y1: int, x2: int, y2: int, w: int)
    requires
        0 <= x1 < w,
        0 <= x2 < w,
        0 <= y1,
        0 <= y2,
        y1 * w + x1 == y2 * w + x2,
    ensures
        x1 == x2 && y1 == y2,
{
    assert(x1 == x2 && y1 == y2) by (nonlinear_arith)
        requires
            0 <= x1 < w,
            0 <= x2 < w,
            0 <= y1,
            0 <= y2,
            y1 * w + x1 == y2 * w + x2,
    ;
}

impl Grid {
    /// A fresh grid of the given dimensions in which every tile is the
    /// default wall and no spawn point has been selected yet.
    pub fn new(width: usize, height: usize) -> (g: Grid)
        requires
            1 <= width <= MAX_DIM,
            1 <= height <= MAX_DIM,
        ensures
            g.wf(),
            g.width == width,
            g.height == height,
            forall|i: int| 0 <= i < g.tiles@.len() ==> g.tiles@[i] == default_tile(),
            g.player_spawn_points@.len() == 0,
            g.enemy_spawn_points@.len() == 0,
    {
        proof {
            assert(width * height <= MAX_DIM * MAX_DIM) by (nonlinear_arith)
                requires
                    width <= MAX_DIM,
                    height <= MAX_DIM,
            ;
        }
        let n: usize = width * height;
        let mut tiles: Vec<Tile> = Vec::new();
        let mut i: usize = 0;
        while i < n
            invariant
                i <= n,
                tiles@.len() == i,
                forall|k: int| 0 <= k < i ==> tiles@[k] == default_tile(),
            decreases n - i,
        {
            tiles.push(Tile::default());
            i = i + 1;
        }
        Grid {
            tiles,
            width,
            height,
            player_spawn_points: Vec::new(),
            enemy_spawn_points: Vec::new(),
        }
    }

    /// Overwrite every tile with the default wall and clear the spawn
    /// points, so the grid is ready for a fresh generation pass.
    pub fn reset(&mut self)
        requires
            old(self).wf(),
        ensures
            final(self).wf(),
            final(self).width == old(self).width,
            final(self).height == old(self).height,
            final(self).player_spawn_points@.len() == 0,
            final(self).enemy_spawn_points@.len() == 0,
            forall|i: int|
                0 <= i < final(self).tiles@.len() ==> final(self).tiles@[i] == default_tile(),
    {
        self.player_spawn_points = Vec::new();
        self.enemy_spawn_points = Vec::new();
        let n: usize = self.tiles.len();
        let mut i: usize = 0;
        while i < n
            invariant
                i <= n,
                self.wf(),
                self.tiles@.len() == n,
                self.width == old(self).width,
                self.height == old(self).height,
                self.player_spawn_points@.len() == 0,
                self.enemy_spawn_points@.len() == 0,
                forall|k: int| 0 <= k < i ==> self.tiles@[k] == default_tile(),
            decreases n - i,
        {
            self.tiles[i] = Tile::default();
            i = i + 1;
        }
    }

    /// Bounds-checked read: `Some` exactly when `(x, y)` lies inside the
    /// grid, `None` otherwise; never panics.
    pub fn get(&self, x: usize, y: usize) -> (r: Option<Tile>)
        requires
            self.wf(),
        ensures
            r is Some <==> (x < self.width && y < self.height),
            r is Some ==> r->Some_0 == self.spec_tile(x as int, y as int),
    {
        if x < self.width && y < self.height {
            proof {
                lemma_index_bounds(x as int, y as int, self.width as int, self.height as int);
            }
            let idx: usize = y * self.width + x;
            Some(self.tiles[idx])
        } else {
            None
        }
    }

    /// Bounds-checked write of a whole tile; every other cell, the
    /// dimensions and the spawn points are untouched.
    pub fn set(&mut self, x: usize, y: usize, tile: Tile)
        requires
            old(self).wf(),
            x < old(self).width,
            y < old(self).height,
        ensures
            final(self).wf(),
            final(self).width == old(self).width,
            final(self).height == old(self).height,
            final(self).player_spawn_points == old(self).player_spawn_points,
            final(self).enemy_spawn_points == old(self).enemy_spawn_points,
            final(self).spec_tile(x as int, y as int) == tile,
            forall|a: int, b: int|
                old(self).in_bounds(a, b) && !(a == x && b == y) ==> final(self).spec_tile(a, b)
                    == old(self).spec_tile(a, b),
    {
        proof {
            lemma_index_bounds(x as int, y as int, self.width as int, self.height as int);
        }
        let idx: usize = y * self.width + x;
        self.tiles[idx] = tile;
        proof {
            assert forall|a: int, b: int|
                old(self).in_bounds(a, b) && !(a == x && b == y) implies self.spec_tile(a, b)
                == old(self).spec_tile(a, b) by {
                lemma_index_bounds(a, b, self.width as int, self.height as int);
                if b * self.width + a == y * self.width + x {
                    lemma_index_injective(a, b, x as int, y as int, self.width as int);
                }
            }
        }
    }

    /// Whether `(x, y)` is on the grid and passable, treating out-of-bounds
    /// coordinates as blocked.
    pub fn is_passable(&self, x: usize, y: usize) -> (r: bool)
        requires
            self.wf(),
        ensures
            r == self.spec_passable(x as int, y as int),
    {
        match self.get(x, y) {
            Some(tile) => tile.passable,
            None => false,
        }
    }
}

} // verus!
