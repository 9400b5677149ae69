use vstd::prelude::*;

use crate::grid::{Grid, Tile, ViewStatus, MAX_DIM};
use crate::position::Position;

verus! {

/// Default sight radius of the player.
pub const FOV_RADIUS: usize = 15;

/// Largest sight radius the engine accepts; keeps slope arithmetic within
/// comfortable `i64` bounds.
pub const MAX_RADIUS: usize = 2048;

/// Bound on slope numerators and denominators (see `slope_wf`).
pub const SLOPE_BOUND: i64 = 8192;

/// An exact rational slope with positive denominator. The shadowcasting
/// windows compare slopes by cross-multiplication, so no rounding ever
/// happens.
#[derive(Clone, Copy, PartialEq, Eq, Structural, Debug)]
pub struct Slope {
    pub num: i64,
    pub den: i64,
}

pub open spec fn slope_wf(s: Slope) -> bool {
    &&& 0 < s.den <= SLOPE_BOUND
    &&& -SLOPE_BOUND <= s.num <= SLOPE_BOUND
}

/// `a < b` as rationals.
pub open spec fn spec_slope_lt(a: Slope, b: Slope) -> bool {
    a.num * b.den < b.num * a.den
}

/// Bound on a product of two bounded factors.
proof fn lemma_mul_bound(a: int, b: int, m: int)
    requires
        -m <= a <= m,
        -m <= b <= m,
        0 <= m,
    ensures
        -(m * m) <= a * b <= m * m,
{
    assert(-(m * m) <= a * b <= m * m) by (nonlinear_arith)
        requires
            -m <= a <= m,
            -m <= b <= m,
            0 <= m,
    ;
}

pub fn slope_lt(a: Slope, b: Slope) -> (r: bool)
    requires
        slope_wf(a),
        slope_wf(b),
    ensures
        r == spec_slope_lt(a, b),
{
    proof {
        lemma_mul_bound(a.num as int, b.den as int, SLOPE_BOUND as int);
        lemma_mul_bound(b.num as int, a.den as int, SLOPE_BOUND as int);
    }
    a.num * b.den < b.num * a.den
}

/// What one recompute does to a remembered mark before relighting: `Seen`
/// fades to `Revealed`, everything else keeps its state.
pub open spec fn decay(v: ViewStatus) -> ViewStatus {
    if v is Seen {
        ViewStatus::Revealed
    } else {
        v
    }
}

/// The two grids agree on dimensions and spawn lists.
pub open spec fn same_shape(g0: Grid, g1: Grid) -> bool {
    &&& g1.width == g0.width
    &&& g1.height == g0.height
    &&& g1.tiles@.len() == g0.tiles@.len()
    &&& g1.player_spawn_points == g0.player_spawn_points
    &&& g1.enemy_spawn_points == g0.enemy_spawn_points
}

/// Passability and sprite tags are untouched; only visibility may move.
pub open spec fn terrain_preserved(g0: Grid, g1: Grid) -> bool {
    forall|x: int, y: int|
        #![trigger g1.spec_tile(x, y)]
        g0.in_bounds(x, y) ==> {
            &&& g1.spec_tile(x, y).passable == g0.spec_tile(x, y).passable
            &&& g1.spec_tile(x, y).sprite_index == g0.spec_tile(x, y).sprite_index
        }
}

/// `(x, y)` lies strictly inside the circle of `radius` around `(ox, oy)`.
pub open spec fn within_radius(ox: int, oy: int, x: int, y: int, radius: int) -> bool {
    (x - ox) * (x - ox) + (y - oy) * (y - oy) < radius * radius
}

/// One casting step only upgrades marks to `Seen`, and only inside the
/// sight circle; everything else about the grid stays as it was.
pub open spec fn lit_only_within(g0: Grid, g1: Grid, ox: int, oy: int, radius: int) -> bool {
    &&& same_shape(g0, g1)
    &&& terrain_preserved(g0, g1)
    &&& forall|x: int, y: int|
        #![trigger g1.spec_tile(x, y)]
        g0.in_bounds(x, y) ==> {
            let v0 = g0.spec_tile(x, y).view_status;
            let v1 = g1.spec_tile(x, y).view_status;
            v1 == v0 || (v1 == ViewStatus::Seen && within_radius(ox, oy, x, y, radius))
        }
}

/// Casting steps compose.
pub proof fn lemma_lit_trans(g0: Grid, g1: Grid, g2: Grid, ox: int, oy: int, radius: int)
    requires
        lit_only_within(g0, g1, ox, oy, radius),
        lit_only_within(g1, g2, ox, oy, radius),
    ensures
        lit_only_within(g0, g2, ox, oy, radius),
{
    assert forall|x: int, y: int|
        #![trigger g2.spec_tile(x, y)]
        g0.in_bounds(x, y) implies {
        let v0 = g0.spec_tile(x, y).view_status;
        let v2 = g2.spec_tile(x, y).view_status;
        v2 == v0 || (v2 == ViewStatus::Seen && within_radius(ox, oy, x, y, radius))
    } by {
        assert(g1.spec_tile(x, y).passable == g0.spec_tile(x, y).passable);
    }
}

/// The full effect of one visibility recompute from `(ox, oy)`: every tile
/// either carries the decayed version of its old mark or was relit `Seen`
/// inside the sight circle, and the observer's own tile is `Seen`.
pub open spec fn fov_recompute_rel(g0: Grid, g1: Grid, ox: int, oy: int, radius: int) -> bool {
    &&& same_shape(g0, g1)
    &&& terrain_preserved(g0, g1)
    &&& forall|x: int, y: int|
        #![trigger g1.spec_tile(x, y)]
        g0.in_bounds(x, y) ==> {
            let v0 = g0.spec_tile(x, y).view_status;
            let v1 = g1.spec_tile(x, y).view_status;
            &&& (v1 != ViewStatus::Seen ==> v1 == decay(v0))
            &&& (v1 == ViewStatus::Seen ==> within_radius(ox, oy, x, y, radius) || (x == ox && y
                == oy))
        }
    &&& (g0.in_bounds(ox, oy) ==> g1.spec_tile(ox, oy).view_status == ViewStatus::Seen)
}

/// Law: a tile `Seen` before a recompute is afterwards `Seen` or `Revealed`,
/// never `Unexplored` — remembered terrain is not forgotten.
pub proof fn lemma_visibility_decay(g0: Grid, g1: Grid, ox: int, oy: int, radius: int, x: int, y: int)
    requires
        fov_recompute_rel(g0, g1, ox, oy, radius),
        g0.in_bounds(x, y),
        g0.spec_tile(x, y).view_status == ViewStatus::Seen,
    ensures
        g1.spec_tile(x, y).view_status == ViewStatus::Seen || g1.spec_tile(x, y).view_status
            == ViewStatus::Revealed,
{
}

/// Law: an `Unexplored` tile can only become `Seen` by a recompute, never
/// skip straight to `Revealed`.
pub proof fn lemma_unexplored_only_to_seen(
    g0: Grid,
    g1: Grid,
    ox: int,
    oy: int,
    radius: int,
    x: int,
    y: int,
)
    requires
        fov_recompute_rel(g0, g1, ox, oy, radius),
        g0.in_bounds(x, y),
        g0.spec_tile(x, y).view_status == ViewStatus::Unexplored,
    ensures
        g1.spec_tile(x, y).view_status == ViewStatus::Unexplored || g1.spec_tile(x, y).view_status
            == ViewStatus::Seen,
{
}

/// Law: a recompute never lights a tile outside the sight circle (the
/// observer's own tile aside).
pub proof fn lemma_seen_within_radius(
    g0: Grid,
    g1: Grid,
    ox: int,
    oy: int,
    radius: int,
    x: int,
    y: int,
)
    requires
        fov_recompute_rel(g0, g1, ox, oy, radius),
        g0.in_bounds(x, y),
        g1.spec_tile(x, y).view_status == ViewStatus::Seen,
        !(x == ox && y == oy),
    ensures
        within_radius(ox, oy, x, y, radius),
{
}

/// The eight octant transforms are signed permutation matrices, so they
/// preserve squared distance.
pub open spec fn octant_ok(xx: int, xy: int, yx: int, yy: int) -> bool {
    &&& -1 <= xx <= 1
    &&& -1 <= xy <= 1
    &&& -1 <= yx <= 1
    &&& -1 <= yy <= 1
    &&& xx * xx + yx * yx == 1
    &&& xy * xy + yy * yy == 1
    &&& xx * xy + yx * yy == 0
}

/// All terrain within Chebyshev `radius` of the observer lies on the grid
/// and is passable: nothing can block a cast from there.
pub open spec fn clear_within(g: Grid, ox: int, oy: int, radius: int) -> bool {
    forall|x: int, y: int|
        #![trigger g.spec_tile(x, y)]
        crate::position::chebyshev((ox, oy), (x, y)) <= radius ==> g.spec_passable(x, y)
}

/// The map cell one octant scan touches at row `j`, column `dxv`.
pub open spec fn octant_cell(
    x0: int,
    y0: int,
    xx: int,
    xy: int,
    yx: int,
    yy: int,
    j: int,
    dxv: int,
) -> (int, int) {
    (x0 + dxv * xx + (-j) * xy, y0 + dxv * yx + (-j) * yy)
}

/// An octant transform is a signed permutation, so it moves a scan offset
/// no farther than its largest component.
proof fn lemma_octant_step_bound(xx: int, xy: int, yx: int, yy: int, dxv: int, dyv: int, m: int)
    requires
        octant_ok(xx, xy, yx, yy),
        -m <= dxv <= m,
        -m <= dyv <= m,
        0 <= m,
    ensures
        -m <= dxv * xx + dyv * xy <= m,
        -m <= dxv * yx + dyv * yy <= m,
{
    assert((xx == 0 || xy == 0) && (yx == 0 || yy == 0)) by (nonlinear_arith)
        requires
            -1 <= xx <= 1,
            -1 <= xy <= 1,
            -1 <= yx <= 1,
            -1 <= yy <= 1,
            xx * xx + yx * yx == 1,
            xy * xy + yy * yy == 1,
            xx * xy + yx * yy == 0,
    ;
    assert(-m <= dxv * xx + dyv * xy <= m && -m <= dxv * yx + dyv * yy <= m) by (nonlinear_arith)
        requires
            (xx == 0 || xy == 0),
            (yx == 0 || yy == 0),
            -1 <= xx <= 1,
            -1 <= xy <= 1,
            -1 <= yx <= 1,
            -1 <= yy <= 1,
            -m <= dxv <= m,
            -m <= dyv <= m,
            0 <= m,
    ;
}

/// Clear terrain stays clear across a pass that preserves terrain.
pub proof fn lemma_clear_preserved(g0: Grid, g1: Grid, ox: int, oy: int, radius: int)
    requires
        clear_within(g0, ox, oy, radius),
        g1.width == g0.width,
        g1.height == g0.height,
        terrain_preserved(g0, g1),
    ensures
        clear_within(g1, ox, oy, radius),
{
    assert forall|x: int, y: int|
        #![trigger g1.spec_tile(x, y)]
        crate::position::chebyshev((ox, oy), (x, y)) <= radius implies g1.spec_passable(x, y) by {
        assert(g0.spec_passable(x, y));
    }
}

/// A tile already `Seen` stays `Seen` across a casting step.
pub proof fn lemma_seen_persists(g0: Grid, g1: Grid, ox: int, oy: int, radius: int, x: int, y: int)
    requires
        lit_only_within(g0, g1, ox, oy, radius),
        g0.in_bounds(x, y),
        g0.spec_tile(x, y).view_status == ViewStatus::Seen,
    ensures
        g1.spec_tile(x, y).view_status == ViewStatus::Seen,
{
}

/// Square and bound facts for the absolute components of an in-circle
/// offset.
proof fn lemma_case_bounds(rx: int, ry: int, rad: int)
    requires
        rx * rx + ry * ry < rad * rad,
        1 <= rad,
    ensures
        (if rx >= 0 { rx } else { -rx }) < rad,
        (if ry >= 0 { ry } else { -ry }) < rad,
        (if rx >= 0 { rx } else { -rx }) * (if rx >= 0 { rx } else { -rx }) == rx * rx,
        (if ry >= 0 { ry } else { -ry }) * (if ry >= 0 { ry } else { -ry }) == ry * ry,
        (-rx) * (-rx) == rx * rx,
        (-ry) * (-ry) == ry * ry,
{
    assert((if rx >= 0 { rx } else { -rx }) < rad && (if ry >= 0 { ry } else { -ry }) < rad
        && (if rx >= 0 { rx } else { -rx }) * (if rx >= 0 { rx } else { -rx }) == rx * rx
        && (if ry >= 0 { ry } else { -ry }) * (if ry >= 0 { ry } else { -ry }) == ry * ry
        && (-rx) * (-rx) == rx * rx
        && (-ry) * (-ry) == ry * ry) by (nonlinear_arith)
        requires
            rx * rx + ry * ry < rad * rad,
            1 <= rad,
    ;
}

impl Grid {
    /// Decay pass before a recompute: every `Seen` tile becomes `Revealed`;
    /// `Revealed` and `Unexplored` tiles keep their mark.
    pub fn reset_fov(&mut self)
        requires
            old(self).wf(),
        ensures
            final(self).wf(),
            same_shape(*old(self), *final(self)),
            terrain_preserved(*old(self), *final(self)),
            forall|x: int, y: int|
                #![trigger final(self).spec_tile(x, y)]
                old(self).in_bounds(x, y) ==> final(self).spec_tile(x, y).view_status == decay(
                    old(self).spec_tile(x, y).view_status,
                ),
            forall|x: int, y: int|
                #![trigger final(self).spec_tile(x, y)]
                old(self).in_bounds(x, y) ==> final(self).spec_tile(x, y).view_status
                    != ViewStatus::Seen,
    {
        let n: usize = self.tiles.len();
        let mut i: usize = 0;
        while i < n
            invariant
                self.wf(),
                self.width == old(self).width,
                self.height == old(self).height,
                self.player_spawn_points == old(self).player_spawn_points,
                self.enemy_spawn_points == old(self).enemy_spawn_points,
                n == self.tiles@.len(),
                i <= n,
                forall|k: int|
                    0 <= k < i ==> (#[trigger] self.tiles@[k]) == (Tile {
                        sprite_index: old(self).tiles@[k].sprite_index,
                        passable: old(self).tiles@[k].passable,
                        view_status: decay(old(self).tiles@[k].view_status),
                    }),
                forall|k: int| i <= k < n ==> #[trigger] self.tiles@[k] == old(self).tiles@[k],
            decreases n - i,
        {
            let t = self.tiles[i];
            let v = match t.view_status {
                ViewStatus::Seen => ViewStatus::Revealed,
                ViewStatus::Revealed => ViewStatus::Revealed,
                ViewStatus::Unexplored => ViewStatus::Unexplored,
            };
            self.tiles[i] = Tile { sprite_index: t.sprite_index, passable: t.passable, view_status: v };
            i = i + 1;
        }
        proof {
            assert forall|x: int, y: int|
                #![trigger self.spec_tile(x, y)]
                old(self).in_bounds(x, y) implies {
                &&& self.spec_tile(x, y).view_status == decay(
                    old(self).spec_tile(x, y).view_status,
                )
                &&& self.spec_tile(x, y).view_status != ViewStatus::Seen
                &&& self.spec_tile(x, y).passable == old(self).spec_tile(x, y).passable
                &&& self.spec_tile(x, y).sprite_index == old(self).spec_tile(x, y).sprite_index
            } by {
                crate::grid::lemma_index_bounds(x, y, self.width as int, self.height as int);
            }
        }
    }

    /// Mark the tile at map coordinates `(x, y)` as `Seen`, if those
    /// coordinates are on the grid; out-of-grid coordinates are ignored.
    fn mark_seen(&mut self, x: i64, y: i64)
        requires
            old(self).wf(),
        ensures
            final(self).wf(),
            same_shape(*old(self), *final(self)),
            terrain_preserved(*old(self), *final(self)),
            forall|a: int, b: int|
                old(self).in_bounds(a, b) && !(a == x as int && b == y as int)
                    ==> #[trigger] final(self).spec_tile(a, b) == old(self).spec_tile(a, b),
            old(self).in_bounds(x as int, y as int) ==> final(self).spec_tile(
                x as int,
                y as int,
            ).view_status == ViewStatus::Seen,
    {
        let w64: i64 = self.width as i64;
        let h64: i64 = self.height as i64;
        if x >= 0 && y >= 0 && x < w64 && y < h64 {
            let xu = x as usize;
            let yu = y as usize;
            proof {
                assert(xu as int == x as int);
                assert(yu as int == y as int);
            }
            let t = match self.get(xu, yu) {
                Some(t) => t,
                None => Tile::default(),
            };
            self.set(
                xu,
                yu,
                Tile {
                    sprite_index: t.sprite_index,
                    passable: t.passable,
                    view_status: ViewStatus::Seen,
                },
            );
        }
    }

    /// A cell blocks light when it lies off the grid or its tile is
    /// impassable.
    pub fn is_blocked(&self, x: i64, y: i64) -> (r: bool)
        requires
            self.wf(),
        ensures
            r == !self.spec_passable(x as int, y as int),
    {
        let w64: i64 = self.width as i64;
        let h64: i64 = self.height as i64;
        if x >= 0 && y >= 0 && x < w64 && y < h64 {
            let xu = x as usize;
            let yu = y as usize;
            proof {
                assert(xu as int == x as int);
                assert(yu as int == y as int);
            }
            !self.is_passable(xu, yu)
        } else {
            true
        }
    }

    /// One octant of recursive shadowcasting: scan rows `row ..= radius`
    /// within the slope window `[end, start]`, lighting cells inside the
    /// sight circle and forking a narrower child scan past each blocking
    /// cell. Marks only upgrade to `Seen`, and only inside the circle.
    #[verifier::rlimit(80)]
    fn cast_light(
        &mut self,
        x0: i64,
        y0: i64,
        row: i64,
        start: Slope,
        end: Slope,
        radius: i64,
        xx: i64,
        xy: i64,
        yx: i64,
        yy: i64,
    )
        requires
            old(self).wf(),
            0 <= x0 <= MAX_DIM as int,
            0 <= y0 <= MAX_DIM as int,
            1 <= row <= radius + 1,
            1 <= radius <= MAX_RADIUS as int,
            slope_wf(start),
            slope_wf(end),
            octant_ok(xx as int, xy as int, yx as int, yy as int),
        ensures
            final(self).wf(),
            lit_only_within(*old(self), *final(self), x0 as int, y0 as int, radius as int),
            (clear_within(*old(self), x0 as int, y0 as int, radius as int) && start == (Slope {
                num: 1,
                den: 1,
            }) && end == (Slope { num: 0, den: 1 })) ==> forall|j: int, dxv: int|
                #![trigger octant_cell(x0 as int, y0 as int, xx as int, xy as int, yx as int, yy as int, j, dxv)]
                row <= j <= radius && -j <= dxv <= 0 && dxv * dxv + j * j < radius * radius
                    ==> final(self).spec_tile(
                    octant_cell(
                        x0 as int,
                        y0 as int,
                        xx as int,
                        xy as int,
                        yx as int,
                        yy as int,
                        j,
                        dxv,
                    ).0,
                    octant_cell(
                        x0 as int,
                        y0 as int,
                        xx as int,
                        xy as int,
                        yx as int,
                        yy as int,
                        j,
                        dxv,
                    ).1,
                ).view_status == ViewStatus::Seen,
        decreases radius + 1 - row,
    {
        let ghost g0 = *self;
        let ghost clr = clear_within(g0, x0 as int, y0 as int, radius as int) && start == (Slope {
            num: 1,
            den: 1,
        }) && end == (Slope { num: 0, den: 1 });
        if slope_lt(start, end) {
            proof {
                if clr {
                    assert(start.num == 1 && start.den == 1);
                    assert(end.num == 0 && end.den == 1);
                    assert(spec_slope_lt(start, end));
                    assert(false);
                }
            }
            return ;
        }
        proof {
            lemma_mul_bound(radius as int, radius as int, MAX_RADIUS as int);
        }
        let radius_squared = radius * radius;
        let mut start2 = start;
        let mut j = row;
        let mut done = false;
        while j <= radius && !done
            invariant
                g0 == *old(self),
                self.wf(),
                lit_only_within(g0, *self, x0 as int, y0 as int, radius as int),
                0 <= x0 <= MAX_DIM as int,
                0 <= y0 <= MAX_DIM as int,
                1 <= row <= j <= radius + 1,
                1 <= radius <= MAX_RADIUS as int,
                radius_squared == radius * radius,
                slope_wf(start2),
                slope_wf(end),
                octant_ok(xx as int, xy as int, yx as int, yy as int),
                clr == (clear_within(g0, x0 as int, y0 as int, radius as int) && start == (Slope {
                    num: 1,
                    den: 1,
                }) && end == (Slope { num: 0, den: 1 })),
                clr ==> start2 == (Slope { num: 1, den: 1 }),
                clr ==> !done,
                clr ==> forall|j2: int, dxv: int|
                    #![trigger octant_cell(x0 as int, y0 as int, xx as int, xy as int, yx as int, yy as int, j2, dxv)]
                    row <= j2 < j && -j2 <= dxv <= 0 && dxv * dxv + j2 * j2 < radius * radius
                        ==> self.spec_tile(
                        octant_cell(
                            x0 as int,
                            y0 as int,
                            xx as int,
                            xy as int,
                            yx as int,
                            yy as int,
                            j2,
                            dxv,
                        ).0,
                        octant_cell(
                            x0 as int,
                            y0 as int,
                            xx as int,
                            xy as int,
                            yx as int,
                            yy as int,
                            j2,
                            dxv,
                        ).1,
                    ).view_status == ViewStatus::Seen,
            decreases radius + 1 - j,
        {
            let dy: i64 = -j;
            let mut dx: i64 = -j - 1;
            let mut blocked_here = false;
            let mut new_start = Slope { num: 0, den: 1 };
            let mut row_done = false;
            while dx <= 0 && !row_done
                invariant
                    g0 == *old(self),
                    self.wf(),
                    lit_only_within(g0, *self, x0 as int, y0 as int, radius as int),
                    0 <= x0 <= MAX_DIM as int,
                    0 <= y0 <= MAX_DIM as int,
                    1 <= row <= j <= radius,
                    1 <= radius <= MAX_RADIUS as int,
                    radius_squared == radius * radius,
                    dy == -j,
                    -j - 1 <= dx <= 1,
                    slope_wf(start2),
                    slope_wf(end),
                    slope_wf(new_start),
                    octant_ok(xx as int, xy as int, yx as int, yy as int),
                    clr == (clear_within(g0, x0 as int, y0 as int, radius as int) && start
                        == (Slope { num: 1, den: 1 }) && end == (Slope { num: 0, den: 1 })),
                    clr ==> start2 == (Slope { num: 1, den: 1 }),
                    clr ==> !blocked_here,
                    clr ==> (row_done ==> dx >= 1),
                    clr ==> forall|j2: int, dxv: int|
                        #![trigger octant_cell(x0 as int, y0 as int, xx as int, xy as int, yx as int, yy as int, j2, dxv)]
                        row <= j2 < j && -j2 <= dxv <= 0 && dxv * dxv + j2 * j2 < radius * radius
                            ==> self.spec_tile(
                            octant_cell(
                                x0 as int,
                                y0 as int,
                                xx as int,
                                xy as int,
                                yx as int,
                                yy as int,
                                j2,
                                dxv,
                            ).0,
                            octant_cell(
                                x0 as int,
                                y0 as int,
                                xx as int,
                                xy as int,
                                yx as int,
                                yy as int,
                                j2,
                                dxv,
                            ).1,
                        ).view_status == ViewStatus::Seen,
                    clr ==> forall|dxv: int|
                        #![trigger octant_cell(x0 as int, y0 as int, xx as int, xy as int, yx as int, yy as int, j as int, dxv)]
                        -j <= dxv <= dx && dxv <= 0 && dxv * dxv + j * j < radius * radius
                            ==> self.spec_tile(
                            octant_cell(
                                x0 as int,
                                y0 as int,
                                xx as int,
                                xy as int,
                                yx as int,
                                yy as int,
                                j as int,
                                dxv,
                            ).0,
                            octant_cell(
                                x0 as int,
                                y0 as int,
                                xx as int,
                                xy as int,
                                yx as int,
                                yy as int,
                                j as int,
                                dxv,
                            ).1,
                        ).view_status == ViewStatus::Seen,
                decreases 1 - dx,
            {
                let ghost ghead = *self;
                dx = dx + 1;
                proof {
                    lemma_mul_bound(dx as int, xx as int, (MAX_RADIUS + 1) as int);
                    lemma_mul_bound(dy as int, xy as int, (MAX_RADIUS + 1) as int);
                    lemma_mul_bound(dx as int, yx as int, (MAX_RADIUS + 1) as int);
                    lemma_mul_bound(dy as int, yy as int, (MAX_RADIUS + 1) as int);
                    lemma_mul_bound(dx as int, dx as int, (MAX_RADIUS + 1) as int);
                    lemma_mul_bound(dy as int, dy as int, (MAX_RADIUS + 1) as int);
                }
                let x: i64 = x0 + dx * xx + dy * xy;
                let y: i64 = y0 + dx * yx + dy * yy;
                let two_dx: i64 = 2 * dx;
                let l_slope = Slope { num: 1 - two_dx, den: 2 * j - 1 };
                let r_slope = Slope { num: -two_dx - 1, den: 2 * j + 1 };
                if slope_lt(start2, r_slope) {
                    // This cell is still right of the window; keep scanning.
                    proof {
                        if clr {
                            assert(start2.num == 1 && start2.den == 1);
                            assert(spec_slope_lt(start2, r_slope));
                            assert(2 * j + 1 < -(2 * dx) - 1);
                            assert(false);
                        }
                    }
                } else if slope_lt(l_slope, end) {
                    row_done = true;
                } else {
                    if dx * dx + dy * dy < radius_squared {
                        let ghost gpre = *self;
                        self.mark_seen(x, y);
                        proof {
                            assert((x - x0) * (x - x0) + (y - y0) * (y - y0) == dx * dx + dy * dy)
                                by (nonlinear_arith)
                                requires
                                    octant_ok(xx as int, xy as int, yx as int, yy as int),
                                    x == x0 + dx * xx + dy * xy,
                                    y == y0 + dx * yx + dy * yy,
                            ;
                            assert(within_radius(
                                x0 as int,
                                y0 as int,
                                x as int,
                                y as int,
                                radius as int,
                            ));
                            assert(lit_only_within(
                                gpre,
                                *self,
                                x0 as int,
                                y0 as int,
                                radius as int,
                            ));
                            lemma_lit_trans(g0, gpre, *self, x0 as int, y0 as int, radius as int);
                            if clr {
                                lemma_octant_step_bound(
                                    xx as int,
                                    xy as int,
                                    yx as int,
                                    yy as int,
                                    dx as int,
                                    dy as int,
                                    j as int,
                                );
                                assert(crate::position::chebyshev(
                                    (x0 as int, y0 as int),
                                    (x as int, y as int),
                                ) <= radius);
                                assert(g0.spec_passable(x as int, y as int));
                                assert(gpre.in_bounds(x as int, y as int));
                                assert(self.spec_tile(x as int, y as int).view_status
                                    == ViewStatus::Seen);
                            }
                        }
                    }
                    if blocked_here {
                        if self.is_blocked(x, y) {
                            new_start = r_slope;
                        } else {
                            blocked_here = false;
                            start2 = new_start;
                        }
                    } else {
                        if self.is_blocked(x, y) && j < radius {
                            proof {
                                if clr {
                                    lemma_octant_step_bound(
                                        xx as int,
                                        xy as int,
                                        yx as int,
                                        yy as int,
                                        dx as int,
                                        dy as int,
                                        j as int,
                                    );
                                    assert(crate::position::chebyshev(
                                        (x0 as int, y0 as int),
                                        (x as int, y as int),
                                    ) <= radius);
                                    assert(g0.spec_passable(x as int, y as int));
                                    assert(self.spec_tile(x as int, y as int).passable == g0
                                        .spec_tile(x as int, y as int).passable);
                                    assert(false);
                                }
                            }
                            blocked_here = true;
                            let ghost gr = *self;
                            self.cast_light(
                                x0,
                                y0,
                                j + 1,
                                start2,
                                l_slope,
                                radius,
                                xx,
                                xy,
                                yx,
                                yy,
                            );
                            proof {
                                lemma_lit_trans(g0, gr, *self, x0 as int, y0 as int, radius as int);
                            }
                            new_start = r_slope;
                        }
                    }
                }
                proof {
                    if clr {
                        assert forall|j2: int, dxv: int|
                            #![trigger octant_cell(x0 as int, y0 as int, xx as int, xy as int, yx as int, yy as int, j2, dxv)]
                            row <= j2 < j && -j2 <= dxv <= 0 && dxv * dxv + j2 * j2 < radius
                                * radius implies self.spec_tile(
                            octant_cell(x0 as int, y0 as int, xx as int, xy as int, yx as int, yy as int, j2, dxv).0,
                            octant_cell(x0 as int, y0 as int, xx as int, xy as int, yx as int, yy as int, j2, dxv).1,
                        ).view_status == ViewStatus::Seen by {
                            let c = octant_cell(x0 as int, y0 as int, xx as int, xy as int, yx as int, yy as int, j2, dxv);
                            lemma_octant_step_bound(
                                xx as int,
                                xy as int,
                                yx as int,
                                yy as int,
                                dxv,
                                -j2,
                                j2,
                            );
                            assert(crate::position::chebyshev((x0 as int, y0 as int), c)
                                <= radius);
                            assert(g0.spec_passable(c.0, c.1));
                            assert(ghead.spec_tile(c.0, c.1).view_status == ViewStatus::Seen);
                            assert(self.spec_tile(c.0, c.1).view_status == ViewStatus::Seen);
                        }
                        assert forall|dxv: int|
                            #![trigger octant_cell(x0 as int, y0 as int, xx as int, xy as int, yx as int, yy as int, j as int, dxv)]
                            -j <= dxv <= dx && dxv <= 0 && dxv * dxv + j * j < radius
                                * radius implies self.spec_tile(
                            octant_cell(x0 as int, y0 as int, xx as int, xy as int, yx as int, yy as int, j as int, dxv).0,
                            octant_cell(x0 as int, y0 as int, xx as int, xy as int, yx as int, yy as int, j as int, dxv).1,
                        ).view_status == ViewStatus::Seen by {
                            let c = octant_cell(x0 as int, y0 as int, xx as int, xy as int, yx as int, yy as int, j as int, dxv);
                            lemma_octant_step_bound(
                                xx as int,
                                xy as int,
                                yx as int,
                                yy as int,
                                dxv,
                                -(j as int),
                                j as int,
                            );
                            assert(crate::position::chebyshev((x0 as int, y0 as int), c)
                                <= radius);
                            assert(g0.spec_passable(c.0, c.1));
                            if dxv <= dx - 1 {
                                assert(ghead.spec_tile(c.0, c.1).view_status == ViewStatus::Seen);
                                assert(self.spec_tile(c.0, c.1).view_status == ViewStatus::Seen);
                            } else {
                                assert(dxv == dx);
                                assert(c == (x as int, y as int));
                                assert(dy * dy == j * j) by (nonlinear_arith)
                                    requires
                                        dy == -j,
                                ;
                                assert(dx * dx + dy * dy < radius_squared);
                                assert(self.spec_tile(x as int, y as int).view_status
                                    == ViewStatus::Seen);
                            }
                        }
                    }
                }
            }
            proof {
                if clr {
                    assert(dx >= 1);
                    assert forall|j2: int, dxv: int|
                        #![trigger octant_cell(x0 as int, y0 as int, xx as int, xy as int, yx as int, yy as int, j2, dxv)]
                        row <= j2 < j + 1 && -j2 <= dxv <= 0 && dxv * dxv + j2 * j2 < radius
                            * radius implies self.spec_tile(
                        octant_cell(x0 as int, y0 as int, xx as int, xy as int, yx as int, yy as int, j2, dxv).0,
                        octant_cell(x0 as int, y0 as int, xx as int, xy as int, yx as int, yy as int, j2, dxv).1,
                    ).view_status == ViewStatus::Seen by {
                        if j2 == j {
                            assert(-j <= dxv <= dx && dxv <= 0);
                        }
                    }
                }
            }
            if blocked_here {
                done = true;
            }
            j = j + 1;
        }
    }

    /// Recompute the field of view from `origin`: decay last turn's marks,
    /// light the observer's own tile, then cast all eight octants out to
    /// `radius`.
    pub fn calculate_fov(&mut self, origin: Position, radius: usize)
        requires
            old(self).wf(),
            origin.x < old(self).width,
            origin.y < old(self).height,
            1 <= radius <= MAX_RADIUS,
        ensures
            final(self).wf(),
            fov_recompute_rel(
                *old(self),
                *final(self),
                origin.x as int,
                origin.y as int,
                radius as int,
            ),
            clear_within(*old(self), origin.x as int, origin.y as int, radius as int)
                ==> forall|x: int, y: int|
                #![trigger final(self).spec_tile(x, y)]
                within_radius(origin.x as int, origin.y as int, x, y, radius as int) && old(
                    self,
                ).in_bounds(x, y) ==> final(self).spec_tile(x, y).view_status == ViewStatus::Seen,
    {
        let ghost g0 = *self;
        self.reset_fov();
        let ghost g1 = *self;
        let x0: i64 = origin.x as i64;
        let y0: i64 = origin.y as i64;
        self.mark_seen(x0, y0);
        let ghost g2 = *self;
        let start = Slope { num: 1, den: 1 };
        let end = Slope { num: 0, den: 1 };
        let r: i64 = radius as i64;
        let ghost ox = origin.x as int;
        let ghost oy = origin.y as int;
        let ghost rad = radius as int;

        self.cast_light(x0, y0, 1, start, end, r, 1, 0, 0, 1);
        let ghost ga = *self;
        proof {
            lemma_lit_trans(g2, g2, ga, ox, oy, rad);
        }
        self.cast_light(x0, y0, 1, start, end, r, 0, 1, 1, 0);
        proof {
            lemma_lit_trans(g2, ga, *self, ox, oy, rad);
        }
        let ghost gb = *self;
        self.cast_light(x0, y0, 1, start, end, r, 0, -1, 1, 0);
        proof {
            lemma_lit_trans(g2, gb, *self, ox, oy, rad);
        }
        let ghost gc = *self;
        self.cast_light(x0, y0, 1, start, end, r, -1, 0, 0, 1);
        proof {
            lemma_lit_trans(g2, gc, *self, ox, oy, rad);
        }
        let ghost gd = *self;
        self.cast_light(x0, y0, 1, start, end, r, -1, 0, 0, -1);
        proof {
            lemma_lit_trans(g2, gd, *self, ox, oy, rad);
        }
        let ghost ge = *self;
        self.cast_light(x0, y0, 1, start, end, r, 0, -1, -1, 0);
        proof {
            lemma_lit_trans(g2, ge, *self, ox, oy, rad);
        }
        let ghost gf = *self;
        self.cast_light(x0, y0, 1, start, end, r, 0, 1, -1, 0);
        proof {
            lemma_lit_trans(g2, gf, *self, ox, oy, rad);
        }
        let ghost gg = *self;
        self.cast_light(x0, y0, 1, start, end, r, 1, 0, 0, -1);
        proof {
            lemma_lit_trans(g2, gg, *self, ox, oy, rad);
        }

        proof {
            // Compose: decay pass, observer mark, then the eight casts.
            assert(lit_only_within(g2, *self, ox, oy, rad));
            assert forall|x: int, y: int|
                #![trigger self.spec_tile(x, y)]
                g0.in_bounds(x, y) implies {
                let v0 = g0.spec_tile(x, y).view_status;
                let v1 = self.spec_tile(x, y).view_status;
                &&& (v1 != ViewStatus::Seen ==> v1 == decay(v0))
                &&& (v1 == ViewStatus::Seen ==> within_radius(ox, oy, x, y, rad) || (x == ox && y
                    == oy))
            } by {
                assert(g1.spec_tile(x, y).view_status == decay(g0.spec_tile(x, y).view_status));
                assert(g2.spec_tile(x, y).passable == g1.spec_tile(x, y).passable);
            }
            assert(g2.spec_tile(ox, oy).view_status == ViewStatus::Seen);
            assert(self.spec_tile(ox, oy).view_status == ViewStatus::Seen);

            // Completeness in clear terrain: with nothing to block a cast,
            // the eight octants together light every in-circle cell.
            if clear_within(g0, ox, oy, rad) {
                lemma_clear_preserved(g0, g1, ox, oy, rad);
                lemma_clear_preserved(g1, g2, ox, oy, rad);
                lemma_clear_preserved(g2, ga, ox, oy, rad);
                lemma_clear_preserved(ga, gb, ox, oy, rad);
                lemma_clear_preserved(gb, gc, ox, oy, rad);
                lemma_clear_preserved(gc, gd, ox, oy, rad);
                lemma_clear_preserved(gd, ge, ox, oy, rad);
                lemma_clear_preserved(ge, gf, ox, oy, rad);
                lemma_clear_preserved(gf, gg, ox, oy, rad);
                assert forall|j: int, dxv: int|
                    #![trigger octant_cell(ox, oy, 1, 0, 0, 1, j, dxv)]
                    1 <= j <= rad && -j <= dxv <= 0 && dxv * dxv + j * j < rad
                        * rad implies self.spec_tile(
                    octant_cell(ox, oy, 1, 0, 0, 1, j, dxv).0,
                    octant_cell(ox, oy, 1, 0, 0, 1, j, dxv).1,
                ).view_status == ViewStatus::Seen by {
                    let c = octant_cell(ox, oy, 1, 0, 0, 1, j, dxv);
                    lemma_octant_step_bound(1, 0, 0, 1, dxv, -j, j);
                    assert(crate::position::chebyshev((ox, oy), c) <= rad);
                    assert(g0.spec_passable(c.0, c.1));
                    assert(ga.spec_tile(c.0, c.1).view_status == ViewStatus::Seen);
                    lemma_seen_persists(ga, gb, ox, oy, rad, c.0, c.1);
                    lemma_seen_persists(gb, gc, ox, oy, rad, c.0, c.1);
                    lemma_seen_persists(gc, gd, ox, oy, rad, c.0, c.1);
                    lemma_seen_persists(gd, ge, ox, oy, rad, c.0, c.1);
                    lemma_seen_persists(ge, gf, ox, oy, rad, c.0, c.1);
                    lemma_seen_persists(gf, gg, ox, oy, rad, c.0, c.1);
                    lemma_seen_persists(gg, *self, ox, oy, rad, c.0, c.1);
                }
                assert forall|j: int, dxv: int|
                    #![trigger octant_cell(ox, oy, 0, 1, 1, 0, j, dxv)]
                    1 <= j <= rad && -j <= dxv <= 0 && dxv * dxv + j * j < rad
                        * rad implies self.spec_tile(
                    octant_cell(ox, oy, 0, 1, 1, 0, j, dxv).0,
                    octant_cell(ox, oy, 0, 1, 1, 0, j, dxv).1,
                ).view_status == ViewStatus::Seen by {
                    let c = octant_cell(ox, oy, 0, 1, 1, 0, j, dxv);
                    lemma_octant_step_bound(0, 1, 1, 0, dxv, -j, j);
                    assert(crate::position::chebyshev((ox, oy), c) <= rad);
                    assert(g0.spec_passable(c.0, c.1));
                    assert(gb.spec_tile(c.0, c.1).view_status == ViewStatus::Seen);
                    lemma_seen_persists(gb, gc, ox, oy, rad, c.0, c.1);
                    lemma_seen_persists(gc, gd, ox, oy, rad, c.0, c.1);
                    lemma_seen_persists(gd, ge, ox, oy, rad, c.0, c.1);
                    lemma_seen_persists(ge, gf, ox, oy, rad, c.0, c.1);
                    lemma_seen_persists(gf, gg, ox, oy, rad, c.0, c.1);
                    lemma_seen_persists(gg, *self, ox, oy, rad, c.0, c.1);
                }
                assert forall|j: int, dxv: int|
                    #![trigger octant_cell(ox, oy, 0, -1, 1, 0, j, dxv)]
                    1 <= j <= rad && -j <= dxv <= 0 && dxv * dxv + j * j < rad
                        * rad implies self.spec_tile(
                    octant_cell(ox, oy, 0, -1, 1, 0, j, dxv).0,
                    octant_cell(ox, oy, 0, -1, 1, 0, j, dxv).1,
                ).view_status == ViewStatus::Seen by {
                    let c = octant_cell(ox, oy, 0, -1, 1, 0, j, dxv);
                    lemma_octant_step_bound(0, -1, 1, 0, dxv, -j, j);
                    assert(crate::position::chebyshev((ox, oy), c) <= rad);
                    assert(g0.spec_passable(c.0, c.1));
                    assert(gc.spec_tile(c.0, c.1).view_status == ViewStatus::Seen);
                    lemma_seen_persists(gc, gd, ox, oy, rad, c.0, c.1);
                    lemma_seen_persists(gd, ge, ox, oy, rad, c.0, c.1);
                    lemma_seen_persists(ge, gf, ox, oy, rad, c.0, c.1);
                    lemma_seen_persists(gf, gg, ox, oy, rad, c.0, c.1);
                    lemma_seen_persists(gg, *self, ox, oy, rad, c.0, c.1);
                }
                assert forall|j: int, dxv: int|
                    #![trigger octant_cell(ox, oy, -1, 0, 0, 1, j, dxv)]
                    1 <= j <= rad && -j <= dxv <= 0 && dxv * dxv + j * j < rad
                        * rad implies self.spec_tile(
                    octant_cell(ox, oy, -1, 0, 0, 1, j, dxv).0,
                    octant_cell(ox, oy, -1, 0, 0, 1, j, dxv).1,
                ).view_status == ViewStatus::Seen by {
                    let c = octant_cell(ox, oy, -1, 0, 0, 1, j, dxv);
                    lemma_octant_step_bound(-1, 0, 0, 1, dxv, -j, j);
                    assert(crate::position::chebyshev((ox, oy), c) <= rad);
                    assert(g0.spec_passable(c.0, c.1));
                    assert(gd.spec_tile(c.0, c.1).view_status == ViewStatus::Seen);
                    lemma_seen_persists(gd, ge, ox, oy, rad, c.0, c.1);
                    lemma_seen_persists(ge, gf, ox, oy, rad, c.0, c.1);
                    lemma_seen_persists(gf, gg, ox, oy, rad, c.0, c.1);
                    lemma_seen_persists(gg, *self, ox, oy, rad, c.0, c.1);
                }
                assert forall|j: int, dxv: int|
                    #![trigger octant_cell(ox, oy, -1, 0, 0, -1, j, dxv)]
                    1 <= j <= rad && -j <= dxv <= 0 && dxv * dxv + j * j < rad
                        * rad implies self.spec_tile(
                    octant_cell(ox, oy, -1, 0, 0, -1, j, dxv).0,
                    octant_cell(ox, oy, -1, 0, 0, -1, j, dxv).1,
                ).view_status == ViewStatus::Seen by {
                    let c = octant_cell(ox, oy, -1, 0, 0, -1, j, dxv);
                    lemma_octant_step_bound(-1, 0, 0, -1, dxv, -j, j);
                    assert(crate::position::chebyshev((ox, oy), c) <= rad);
                    assert(g0.spec_passable(c.0, c.1));
                    assert(ge.spec_tile(c.0, c.1).view_status == ViewStatus::Seen);
                    lemma_seen_persists(ge, gf, ox, oy, rad, c.0, c.1);
                    lemma_seen_persists(gf, gg, ox, oy, rad, c.0, c.1);
                    lemma_seen_persists(gg, *self, ox, oy, rad, c.0, c.1);
                }
                assert forall|j: int, dxv: int|
                    #![trigger octant_cell(ox, oy, 0, -1, -1, 0, j, dxv)]
                    1 <= j <= rad && -j <= dxv <= 0 && dxv * dxv + j * j < rad
                        * rad implies self.spec_tile(
                    octant_cell(ox, oy, 0, -1, -1, 0, j, dxv).0,
                    octant_cell(ox, oy, 0, -1, -1, 0, j, dxv).1,
                ).view_status == ViewStatus::Seen by {
                    let c = octant_cell(ox, oy, 0, -1, -1, 0, j, dxv);
                    lemma_octant_step_bound(0, -1, -1, 0, dxv, -j, j);
                    assert(crate::position::chebyshev((ox, oy), c) <= rad);
                    assert(g0.spec_passable(c.0, c.1));
                    assert(gf.spec_tile(c.0, c.1).view_status == ViewStatus::Seen);
                    lemma_seen_persists(gf, gg, ox, oy, rad, c.0, c.1);
                    lemma_seen_persists(gg, *self, ox, oy, rad, c.0, c.1);
                }
                assert forall|j: int, dxv: int|
                    #![trigger octant_cell(ox, oy, 0, 1, -1, 0, j, dxv)]
                    1 <= j <= rad && -j <= dxv <= 0 && dxv * dxv + j * j < rad
                        * rad implies self.spec_tile(
                    octant_cell(ox, oy, 0, 1, -1, 0, j, dxv).0,
                    octant_cell(ox, oy, 0, 1, -1, 0, j, dxv).1,
                ).view_status == ViewStatus::Seen by {
                    let c = octant_cell(ox, oy, 0, 1, -1, 0, j, dxv);
                    lemma_octant_step_bound(0, 1, -1, 0, dxv, -j, j);
                    assert(crate::position::chebyshev((ox, oy), c) <= rad);
                    assert(g0.spec_passable(c.0, c.1));
                    assert(gg.spec_tile(c.0, c.1).view_status == ViewStatus::Seen);
                    lemma_seen_persists(gg, *self, ox, oy, rad, c.0, c.1);
                }
                assert forall|j: int, dxv: int|
                    #![trigger octant_cell(ox, oy, 1, 0, 0, -1, j, dxv)]
                    1 <= j <= rad && -j <= dxv <= 0 && dxv * dxv + j * j < rad
                        * rad implies self.spec_tile(
                    octant_cell(ox, oy, 1, 0, 0, -1, j, dxv).0,
                    octant_cell(ox, oy, 1, 0, 0, -1, j, dxv).1,
                ).view_status == ViewStatus::Seen by {
                    let c = octant_cell(ox, oy, 1, 0, 0, -1, j, dxv);
                    lemma_octant_step_bound(1, 0, 0, -1, dxv, -j, j);
                    assert(crate::position::chebyshev((ox, oy), c) <= rad);
                    assert(g0.spec_passable(c.0, c.1));
                    assert(self.spec_tile(c.0, c.1).view_status == ViewStatus::Seen);

                }
                assert forall|x: int, y: int|
                    #![trigger self.spec_tile(x, y)]
                    within_radius(ox, oy, x, y, rad) && g0.in_bounds(x, y) implies self.spec_tile(
                    x,
                    y,
                ).view_status == ViewStatus::Seen by {
                    let rx = x - ox;
                    let ry = y - oy;
                    if rx == 0 && ry == 0 {
                        assert(self.spec_tile(ox, oy).view_status == ViewStatus::Seen);
                    } else {
                        lemma_case_bounds(rx, ry, rad);
                        let arx: int = if rx >= 0 { rx } else { -rx };
                        let ary: int = if ry >= 0 { ry } else { -ry };
                        if ary >= arx {
                            if ry < 0 {
                                if rx <= 0 {
                                    assert(octant_cell(ox, oy, 1, 0, 0, 1, ary, rx) == (x, y));
                                } else {
                                    assert(octant_cell(ox, oy, -1, 0, 0, 1, ary, -rx) == (x, y));
                                }
                            } else {
                                if rx <= 0 {
                                    assert(octant_cell(ox, oy, 1, 0, 0, -1, ary, rx) == (x, y));
                                } else {
                                    assert(octant_cell(ox, oy, -1, 0, 0, -1, ary, -rx) == (x, y));
                                }
                            }
                        } else {
                            if rx > 0 {
                                if ry <= 0 {
                                    assert(octant_cell(ox, oy, 0, -1, 1, 0, arx, ry) == (x, y));
                                } else {
                                    assert(octant_cell(ox, oy, 0, -1, -1, 0, arx, -ry) == (x, y));
                                }
                            } else {
                                if ry <= 0 {
                                    assert(octant_cell(ox, oy, 0, 1, 1, 0, arx, ry) == (x, y));
                                } else {
                                    assert(octant_cell(ox, oy, 0, 1, -1, 0, arx, -ry) == (x, y));
                                }
                            }
                        }
                    }
                }
            }
        }
    }
}

} // verus!
