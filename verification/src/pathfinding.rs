use vstd::prelude::*;

use crate::grid::Grid;
use crate::position::{chebyshev, distance};

verus! {

/// Two cells touch orthogonally or diagonally.
pub open spec fn adjacent8(a: (int, int), b: (int, int)) -> bool {
    chebyshev(a, b) == 1
}

/// Cost of one step under the movement model: 2 for a diagonal step, 1 for a
/// cardinal step.
pub open spec fn step_cost(a: (int, int), b: (int, int)) -> int {
    if a.0 != b.0 && a.1 != b.1 {
        2
    } else {
        1
    }
}

pub open spec fn as_int(p: (usize, usize)) -> (int, int) {
    (p.0 as int, p.1 as int)
}

/// A walk from `start` to `target`, written without its starting cell: each
/// listed cell is passable, consecutive cells (and `start` with the first
/// cell) are 8-adjacent, and the walk ends at `target`. When `start` and
/// `target` coincide the walk is empty.
pub open spec fn valid_path(
    g: Grid,
    start: (usize, usize),
    target: (usize, usize),
    path: Seq<(usize, usize)>,
) -> bool {
    if start == target {
        path.len() == 0
    } else {
        &&& path.len() >= 1
        &&& path[path.len() - 1] == target
        &&& adjacent8(as_int(start), as_int(path[0]))
        &&& forall|i: int|
            #![trigger path[i]]
            0 <= i < path.len() - 1 ==> adjacent8(as_int(path[i]), as_int(path[i + 1]))
        &&& forall|i: int|
            #![trigger path[i]]
            0 <= i < path.len() ==> g.spec_passable(path[i].0 as int, path[i].1 as int)
    }
}

/// The total step cost of a walk that begins at `start`.
pub open spec fn path_cost(start: (usize, usize), path: Seq<(usize, usize)>) -> int
    decreases path.len(),
{
    if path.len() == 0 {
        0
    } else {
        step_cost(as_int(start), as_int(path[0])) + path_cost(path[0], path.drop_first())
    }
}

/// Some passable walk connects `start` to `target`.
pub open spec fn reachable(g: Grid, start: (usize, usize), target: (usize, usize)) -> bool {
    exists|p: Seq<(usize, usize)>| valid_path(g, start, target, p)
}

/// Reachability extends one adjacent passable cell at a time.
pub proof fn lemma_reachable_step(
    g: Grid,
    a: (usize, usize),
    b: (usize, usize),
    c: (usize, usize),
)
    requires
        reachable(g, a, b),
        g.spec_passable(c.0 as int, c.1 as int),
        chebyshev(as_int(b), as_int(c)) <= 1,
    ensures
        reachable(g, a, c),
{
    if c == a {
        let empty = Seq::<(usize, usize)>::empty();
        assert(valid_path(g, a, c, empty));
    } else if c == b {
    } else {
        let p = choose|p: Seq<(usize, usize)>| valid_path(g, a, b, p);
        let q = p.push(c);
        assert(chebyshev(as_int(b), as_int(c)) == 1);
        if a == b {
            assert(p.len() == 0);
            assert(q[0] == c);
            assert(adjacent8(as_int(a), as_int(q[0])));
        } else {
            assert(q[0] == p[0]);
            assert(p[p.len() - 1] == b);
        }
        assert forall|i: int| #![trigger q[i]] 0 <= i < q.len() - 1 implies adjacent8(
            as_int(q[i]),
            as_int(q[i + 1]),
        ) by {
            if i < q.len() - 2 {
                assert(q[i] == p[i] && q[i + 1] == p[i + 1]);
            } else {
                assert(q[i] == p[p.len() - 1] && q[i + 1] == c);
            }
        }
        assert forall|i: int| #![trigger q[i]] 0 <= i < q.len() implies g.spec_passable(
            q[i].0 as int,
            q[i].1 as int,
        ) by {
            if i < q.len() - 1 {
                assert(q[i] == p[i]);
            }
        }
        assert(valid_path(g, a, c, q));
    }
}

/// Every step costs at least nothing: walk costs are never negative.
pub proof fn lemma_path_cost_nonneg(start: (usize, usize), path: Seq<(usize, usize)>)
    ensures
        path_cost(start, path) >= 0,
    decreases path.len(),
{
    if path.len() > 0 {
        lemma_path_cost_nonneg(path[0], path.drop_first());
    }
}

/// Law: under the movement cost model (1 cardinal, 2 diagonal) no walk can
/// beat the Chebyshev distance — every valid walk from `start` to `target`
/// costs at least `chebyshev(start, target)`, so the pathfinder's heuristic
/// never overestimates the true cost.
pub proof fn lemma_path_cost_at_least_chebyshev(
    g: Grid,
    start: (usize, usize),
    target: (usize, usize),
    path: Seq<(usize, usize)>,
)
    requires
        valid_path(g, start, target, path),
    ensures
        path_cost(start, path) >= chebyshev(as_int(start), as_int(target)),
    decreases path.len(),
{
    if start == target {
    } else {
        let first = path[0];
        let tail = path.drop_first();
        assert(adjacent8(as_int(start), as_int(first)));
        assert(step_cost(as_int(start), as_int(first)) >= 1);
        assert(path_cost(start, path) == step_cost(as_int(start), as_int(first)) + path_cost(
            first,
            tail,
        ));
        if path.len() == 1 {
            assert(first == target);
            assert(path_cost(first, tail) == 0);
            assert(chebyshev(as_int(start), as_int(target)) == 1);
        } else if first == target {
            lemma_path_cost_nonneg(first, tail);
            assert(chebyshev(as_int(start), as_int(target)) == 1);
        } else {
            assert forall|i: int| #![trigger tail[i]] 0 <= i < tail.len() - 1 implies adjacent8(
                as_int(tail[i]),
                as_int(tail[i + 1]),
            ) by {
                assert(tail[i] == path[i + 1]);
                assert(tail[i + 1] == path[i + 2]);
            }
            assert forall|i: int| #![trigger tail[i]] 0 <= i < tail.len() implies g.spec_passable(
                tail[i].0 as int,
                tail[i].1 as int,
            ) by {
                assert(tail[i] == path[i + 1]);
            }
            assert(tail[0] == path[1]);
            assert(tail[tail.len() - 1] == path[path.len() - 1]);
            assert(valid_path(g, first, target, tail));
            lemma_path_cost_at_least_chebyshev(g, first, target, tail);
            assert(chebyshev(as_int(start), as_int(target)) <= chebyshev(
                as_int(start),
                as_int(first),
            ) + chebyshev(as_int(first), as_int(target)));
        }
    }
}

/// One queued node of the search frontier: estimated total cost, the cell,
/// the cell it was reached from, and the cost of the recorded route to it.
#[derive(Clone, Copy)]
pub struct OpenEntry {
    pub f: usize,
    pub point: (usize, usize),
    pub parent: (usize, usize),
    pub g: usize,
}

/// The mathematical view of the per-cell score board.
pub open spec fn board_of(best: Vec<Vec<Option<((usize, usize), usize)>>>) -> Seq<
    Seq<Option<((usize, usize), usize)>>,
> {
    best@.map_values(|r: Vec<Option<((usize, usize), usize)>>| r@)
}

/// The board has one properly sized row per grid row.
pub open spec fn board_wf(g: Grid, best: Seq<Seq<Option<((usize, usize), usize)>>>) -> bool {
    &&& best.len() == g.height
    &&& forall|y: int| 0 <= y < best.len() ==> (#[trigger] best[y]).len() == g.width
}

pub open spec fn cell_at(
    best: Seq<Seq<Option<((usize, usize), usize)>>>,
    x: int,
    y: int,
) -> Option<((usize, usize), usize)> {
    best[y][x]
}

/// Soundness invariant of the score board: every recorded cell is a passable
/// non-start cell whose predecessor is adjacent and either is `start` or is
/// itself recorded with a strictly smaller cost.
pub open spec fn board_inv(
    g: Grid,
    start: (usize, usize),
    best: Seq<Seq<Option<((usize, usize), usize)>>>,
) -> bool {
    forall|x: int, y: int|
        #![trigger cell_at(best, x, y)]
        g.in_bounds(x, y) && cell_at(best, x, y) is Some ==> {
            let e = cell_at(best, x, y)->Some_0;
            &&& !(x == start.0 && y == start.1)
            &&& g.spec_tile(x, y).passable
            &&& adjacent8((e.0.0 as int, e.0.1 as int), (x, y))
            &&& e.1 >= 1
            &&& (e.0 == start || {
                &&& g.in_bounds(e.0.0 as int, e.0.1 as int)
                &&& cell_at(best, e.0.0 as int, e.0.1 as int) is Some
                &&& cell_at(best, e.0.0 as int, e.0.1 as int)->Some_0.1 < e.1
            })
        }
}

/// Invariant of the frontier: every queued node is either the start node at
/// cost 0 or a recorded cell whose board cost is at most the queued cost, and
/// queued costs stay below `gcap`.
pub open spec fn frontier_inv(
    g: Grid,
    start: (usize, usize),
    best: Seq<Seq<Option<((usize, usize), usize)>>>,
    open: Seq<OpenEntry>,
    gcap: int,
) -> bool {
    forall|i: int|
        #![trigger open[i]]
        0 <= i < open.len() ==> {
            &&& open[i].g <= gcap
            &&& ((open[i].point == start && open[i].g == 0) || {
                &&& g.in_bounds(open[i].point.0 as int, open[i].point.1 as int)
                &&& cell_at(best, open[i].point.0 as int, open[i].point.1 as int) is Some
                &&& cell_at(best, open[i].point.0 as int, open[i].point.1 as int)->Some_0.1
                    <= open[i].g
            })
        }
}

/// The mathematical view of the closed-cell board.
pub open spec fn flags_of(v: Vec<Vec<bool>>) -> Seq<Seq<bool>> {
    v@.map_values(|r: Vec<bool>| r@)
}

pub open spec fn closed_wf(g: Grid, cl: Seq<Seq<bool>>) -> bool {
    &&& cl.len() == g.height
    &&& forall|y: int| 0 <= y < cl.len() ==> (#[trigger] cl[y]).len() == g.width
}

pub open spec fn closed_at(cl: Seq<Seq<bool>>, x: int, y: int) -> bool {
    cl[y][x]
}

/// How many cells of one row are still unexpanded.
pub open spec fn count_row_open(r: Seq<bool>) -> nat
    decreases r.len(),
{
    if r.len() == 0 {
        0
    } else {
        (if r[0] {
            0nat
        } else {
            1nat
        }) + count_row_open(r.drop_first())
    }
}

/// How many cells of the whole board are still unexpanded.
pub open spec fn count_unclosed(cl: Seq<Seq<bool>>) -> nat
    decreases cl.len(),
{
    if cl.len() == 0 {
        0
    } else {
        count_row_open(cl[0]) + count_unclosed(cl.drop_first())
    }
}

proof fn lemma_count_row_set(r0: Seq<bool>, r1: Seq<bool>, x: int)
    requires
        0 <= x < r0.len(),
        r1.len() == r0.len(),
        forall|j: int| 0 <= j < r0.len() && j != x ==> r1[j] == r0[j],
        !r0[x],
        r1[x],
    ensures
        count_row_open(r0) == count_row_open(r1) + 1,
    decreases r0.len(),
{
    if x == 0 {
        assert(r1.drop_first() =~= r0.drop_first());
    } else {
        assert(r1[0] == r0[0]);
        lemma_count_row_set(r0.drop_first(), r1.drop_first(), x - 1);
    }
}

/// Closing one open cell lowers the unexpanded count by one.
proof fn lemma_count_unclosed_set(cl0: Seq<Seq<bool>>, cl1: Seq<Seq<bool>>, x: int, y: int)
    requires
        0 <= y < cl0.len(),
        0 <= x < cl0[y].len(),
        cl1.len() == cl0.len(),
        forall|k: int| 0 <= k < cl0.len() && k != y ==> cl1[k] == cl0[k],
        cl1[y].len() == cl0[y].len(),
        forall|j: int| 0 <= j < cl0[y].len() && j != x ==> cl1[y][j] == cl0[y][j],
        !cl0[y][x],
        cl1[y][x],
    ensures
        count_unclosed(cl0) == count_unclosed(cl1) + 1,
    decreases cl0.len(),
{
    if y == 0 {
        lemma_count_row_set(cl0[0], cl1[0], x);
        assert(cl1.drop_first() =~= cl0.drop_first());
    } else {
        assert(cl1[0] == cl0[0]);
        lemma_count_unclosed_set(cl0.drop_first(), cl1.drop_first(), x, y - 1);
    }
}

/// The whole board holds at most `rows * w` unexpanded cells.
proof fn lemma_count_unclosed_le(cl: Seq<Seq<bool>>, w: int)
    requires
        0 <= w,
        forall|y: int| 0 <= y < cl.len() ==> (#[trigger] cl[y]).len() == w,
    ensures
        count_unclosed(cl) <= cl.len() * w,
    decreases cl.len(),
{
    if cl.len() > 0 {
        lemma_count_row_le(cl[0]);
        lemma_count_unclosed_le(cl.drop_first(), w);
        assert(cl.len() * w == w + (cl.len() - 1) * w) by (nonlinear_arith);
    }
}

proof fn lemma_count_row_le(r: Seq<bool>)
    ensures
        count_row_open(r) <= r.len(),
    decreases r.len(),
{
    if r.len() > 0 {
        lemma_count_row_le(r.drop_first());
    }
}

/// Where one saturating step lands, as the relaxer computes it.
pub open spec fn step_sat(p: (usize, usize), dx: int, dy: int) -> (int, int) {
    (
        (if p.0 + dx < 0 {
            0int
        } else {
            p.0 + dx
        }),
        (if p.1 + dy < 0 {
            0int
        } else {
            p.1 + dy
        }),
    )
}

/// The eight single-step displacements, in the order the relaxer tries them.
pub open spec fn delta_of(d: int) -> (int, int) {
    if d == 0 {
        (-1, -1)
    } else if d == 1 {
        (-1, 0)
    } else if d == 2 {
        (-1, 1)
    } else if d == 3 {
        (0, -1)
    } else if d == 4 {
        (0, 1)
    } else if d == 5 {
        (1, -1)
    } else if d == 6 {
        (1, 0)
    } else {
        (1, 1)
    }
}

/// Completeness invariant, part one: every expanded (closed) cell is the
/// start or a recorded cell, and all of its passable non-start neighbours
/// are recorded.
pub open spec fn expanded_closure(
    g: Grid,
    start: (usize, usize),
    bb: Seq<Seq<Option<((usize, usize), usize)>>>,
    cb: Seq<Seq<bool>>,
) -> bool {
    forall|x: int, y: int|
        #![trigger closed_at(cb, x, y)]
        g.in_bounds(x, y) && closed_at(cb, x, y) ==> {
            &&& ((x == start.0 && y == start.1) || cell_at(bb, x, y) is Some)
            &&& forall|a: int, b: int|
                #![trigger cell_at(bb, a, b)]
                g.in_bounds(a, b) && g.spec_tile(a, b).passable && chebyshev((x, y), (a, b)) == 1
                    && !(a == start.0 && b == start.1) ==> cell_at(bb, a, b) is Some
        }
}

/// Completeness invariant, part two: every recorded cell other than the
/// exempted one is expanded or still queued.
pub open spec fn frontier_covers(
    g: Grid,
    bb: Seq<Seq<Option<((usize, usize), usize)>>>,
    cb: Seq<Seq<bool>>,
    open: Seq<OpenEntry>,
    exempt: (usize, usize),
) -> bool {
    forall|x: int, y: int|
        #![trigger cell_at(bb, x, y)]
        g.in_bounds(x, y) && cell_at(bb, x, y) is Some && !(x == exempt.0 && y == exempt.1)
            ==> (closed_at(cb, x, y) || exists|i: int|
            0 <= i < open.len() && (#[trigger] open[i]).point.0 == x && open[i].point.1 == y)
}

/// Dequeuing one entry keeps every other entry in the queue.
proof fn lemma_swap_remove_keeps(
    open0: Seq<OpenEntry>,
    open1: Seq<OpenEntry>,
    mi: int,
    w: int,
)
    requires
        0 <= mi < open0.len(),
        0 <= w < open0.len(),
        w != mi,
        open1 == open0.update(mi, open0.last()).drop_last(),
    ensures
        exists|j: int| 0 <= j < open1.len() && open1[j] == open0[w],
{
    if w == open0.len() - 1 {
        assert(open1[mi] == open0[w]);
    } else {
        assert(open1[w] == open0[w]);
    }
}

/// Someness of board cells only grows under relaxation, so closure survives.
proof fn lemma_closure_monotone(
    g: Grid,
    start: (usize, usize),
    bb0: Seq<Seq<Option<((usize, usize), usize)>>>,
    bb1: Seq<Seq<Option<((usize, usize), usize)>>>,
    cb: Seq<Seq<bool>>,
)
    requires
        expanded_closure(g, start, bb0, cb),
        forall|x: int, y: int|
            g.in_bounds(x, y) && #[trigger] cell_at(bb0, x, y) is Some ==> cell_at(bb1, x, y)
                is Some,
    ensures
        expanded_closure(g, start, bb1, cb),
{
    assert forall|x: int, y: int|
        #![trigger closed_at(cb, x, y)]
        g.in_bounds(x, y) && closed_at(cb, x, y) implies {
        &&& ((x == start.0 && y == start.1) || cell_at(bb1, x, y) is Some)
        &&& forall|a: int, b: int|
            #![trigger cell_at(bb1, a, b)]
            g.in_bounds(a, b) && g.spec_tile(a, b).passable && chebyshev((x, y), (a, b)) == 1 && !(
            a == start.0 && b == start.1) ==> cell_at(bb1, a, b) is Some
    } by {
        assert((x == start.0 && y == start.1) || cell_at(bb0, x, y) is Some);
        assert forall|a: int, b: int|
            #![trigger cell_at(bb1, a, b)]
            g.in_bounds(a, b) && g.spec_tile(a, b).passable && chebyshev((x, y), (a, b)) == 1 && !(
            a == start.0 && b == start.1) implies cell_at(bb1, a, b) is Some by {
            assert(cell_at(bb0, a, b) is Some);
        }
    }
}

/// If the start is expanded, every recorded cell is expanded, and expansion
/// recorded all passable neighbours, then the target of any valid walk from
/// the start is recorded.
proof fn lemma_reachable_target_recorded(
    g: Grid,
    orig: (usize, usize),
    cur: (usize, usize),
    target: (usize, usize),
    bb: Seq<Seq<Option<((usize, usize), usize)>>>,
    cb: Seq<Seq<bool>>,
    p: Seq<(usize, usize)>,
)
    requires
        g.wf(),
        g.in_bounds(orig.0 as int, orig.1 as int),
        g.in_bounds(cur.0 as int, cur.1 as int),
        cur != target,
        orig != target,
        closed_wf(g, cb),
        expanded_closure(g, orig, bb, cb),
        closed_at(cb, orig.0 as int, orig.1 as int),
        closed_at(cb, cur.0 as int, cur.1 as int),
        forall|x: int, y: int|
            g.in_bounds(x, y) && #[trigger] cell_at(bb, x, y) is Some ==> closed_at(cb, x, y),
        valid_path(g, cur, target, p),
    ensures
        cell_at(bb, target.0 as int, target.1 as int) is Some,
    decreases p.len(),
{
    let first = p[0];
    assert(g.spec_passable(first.0 as int, first.1 as int));
    assert(adjacent8(as_int(cur), as_int(first)));
    assert(first != cur);
    if first == orig {
        assert(closed_at(cb, first.0 as int, first.1 as int));
    } else {
        assert(cell_at(bb, first.0 as int, first.1 as int) is Some);
        assert(closed_at(cb, first.0 as int, first.1 as int));
    }
    if p.len() == 1 {
        assert(first == target);
        assert(first != orig);
    } else if first == target {
        assert(first != orig);
    } else {
        let tail = p.drop_first();
        assert forall|i: int| #![trigger tail[i]] 0 <= i < tail.len() - 1 implies adjacent8(
            as_int(tail[i]),
            as_int(tail[i + 1]),
        ) by {
            assert(tail[i] == p[i + 1]);
            assert(tail[i + 1] == p[i + 2]);
        }
        assert forall|i: int| #![trigger tail[i]] 0 <= i < tail.len() implies g.spec_passable(
            tail[i].0 as int,
            tail[i].1 as int,
        ) by {
            assert(tail[i] == p[i + 1]);
        }
        assert(tail[0] == p[1]);
        assert(tail[tail.len() - 1] == p[p.len() - 1]);
        assert(valid_path(g, first, target, tail));
        lemma_reachable_target_recorded(g, orig, first, target, bb, cb, tail);
    }
}

/// Updating one board cell with a cheaper route keeps the board invariant.
proof fn lemma_board_update(
    g: Grid,
    start: (usize, usize),
    best0: Seq<Seq<Option<((usize, usize), usize)>>>,
    best1: Seq<Seq<Option<((usize, usize), usize)>>>,
    np: (usize, usize),
    parent: (usize, usize),
    tentative: usize,
)
    requires
        board_wf(g, best0),
        board_inv(g, start, best0),
        g.in_bounds(np.0 as int, np.1 as int),
        g.spec_tile(np.0 as int, np.1 as int).passable,
        np != start,
        np != parent,
        adjacent8((parent.0 as int, parent.1 as int), (np.0 as int, np.1 as int)),
        tentative >= 1,
        parent == start || {
            &&& g.in_bounds(parent.0 as int, parent.1 as int)
            &&& cell_at(best0, parent.0 as int, parent.1 as int) is Some
            &&& cell_at(best0, parent.0 as int, parent.1 as int)->Some_0.1 < tentative
        },
        cell_at(best0, np.0 as int, np.1 as int) is Some ==> tentative < cell_at(
            best0,
            np.0 as int,
            np.1 as int,
        )->Some_0.1,
        best1 == best0.update(
            np.1 as int,
            best0[np.1 as int].update(np.0 as int, Some((parent, tentative))),
        ),
    ensures
        board_wf(g, best1),
        board_inv(g, start, best1),
        cell_at(best1, np.0 as int, np.1 as int) == Some((parent, tentative)),
        forall|x: int, y: int|
            g.in_bounds(x, y) && !(x == np.0 && y == np.1) ==> #[trigger] cell_at(best1, x, y)
                == cell_at(best0, x, y),
        forall|x: int, y: int|
            g.in_bounds(x, y) && #[trigger] cell_at(best0, x, y) is Some ==> cell_at(best1, x, y)
                is Some && cell_at(best1, x, y)->Some_0.1 <= cell_at(best0, x, y)->Some_0.1,
{
    assert forall|x: int, y: int|
        g.in_bounds(x, y) && !(x == np.0 && y == np.1) implies #[trigger] cell_at(best1, x, y)
        == cell_at(best0, x, y) by {
        if y == np.1 {
            assert(best1[y] == best0[y].update(np.0 as int, Some((parent, tentative))));
        }
    }
    assert forall|x: int, y: int|
        #![trigger cell_at(best1, x, y)]
        g.in_bounds(x, y) && cell_at(best1, x, y) is Some implies {
        let e = cell_at(best1, x, y)->Some_0;
        &&& !(x == start.0 && y == start.1)
        &&& g.spec_tile(x, y).passable
        &&& adjacent8((e.0.0 as int, e.0.1 as int), (x, y))
        &&& e.1 >= 1
        &&& (e.0 == start || {
            &&& g.in_bounds(e.0.0 as int, e.0.1 as int)
            &&& cell_at(best1, e.0.0 as int, e.0.1 as int) is Some
            &&& cell_at(best1, e.0.0 as int, e.0.1 as int)->Some_0.1 < e.1
        })
    } by {
        let e = cell_at(best1, x, y)->Some_0;
        if x == np.0 && y == np.1 {
            assert(cell_at(best1, x, y) == Some((parent, tentative)));
            if parent != start {
                assert(cell_at(best1, parent.0 as int, parent.1 as int) == cell_at(
                    best0,
                    parent.0 as int,
                    parent.1 as int,
                ));
            }
        } else {
            assert(cell_at(best1, x, y) == cell_at(best0, x, y));
            if e.0 != start {
                if e.0.0 == np.0 && e.0.1 == np.1 {
                    assert(cell_at(best0, np.0 as int, np.1 as int) is Some);
                    assert(tentative < cell_at(best0, np.0 as int, np.1 as int)->Some_0.1);
                } else {
                    assert(cell_at(best1, e.0.0 as int, e.0.1 as int) == cell_at(
                        best0,
                        e.0.0 as int,
                        e.0.1 as int,
                    ));
                }
            }
        }
    }
}

/// Which frontier node is dequeued first: ordered by estimated total cost,
/// then cell coordinate, then predecessor coordinate, for determinism.
fn entry_lt(a: &OpenEntry, b: &OpenEntry) -> bool {
    if a.f != b.f {
        a.f < b.f
    } else if a.point.0 != b.point.0 {
        a.point.0 < b.point.0
    } else if a.point.1 != b.point.1 {
        a.point.1 < b.point.1
    } else if a.parent.0 != b.parent.0 {
        a.parent.0 < b.parent.0
    } else {
        a.parent.1 < b.parent.1
    }
}

impl Grid {
    /// Relax one neighbor of a dequeued frontier node: if stepping `(dx, dy)`
    /// from `e.point` reaches a passable non-start cell by a route cheaper
    /// than any recorded one, record the route and enqueue the cell. Only
    /// that one cell can change, the queue only grows at its end, and
    /// afterwards the stepped-to cell is recorded whenever it qualifies.
    #[verifier::rlimit(80)]
    fn relax_neighbor(
        &self,
        start: (usize, usize),
        target: (usize, usize),
        e: OpenEntry,
        dx: i32,
        dy: i32,
        best: &mut Vec<Vec<Option<((usize, usize), usize)>>>,
        open: &mut Vec<OpenEntry>,
        Ghost(gcap): Ghost<int>,
    )
        requires
            self.wf(),
            self.in_bounds(start.0 as int, start.1 as int),
            self.in_bounds(target.0 as int, target.1 as int),
            start != target,
            self.in_bounds(e.point.0 as int, e.point.1 as int),
            -1 <= dx <= 1,
            -1 <= dy <= 1,
            board_wf(*self, board_of(*old(best))),
            board_inv(*self, start, board_of(*old(best))),
            frontier_inv(*self, start, board_of(*old(best)), old(open)@, gcap),
            e.point == start || {
                &&& cell_at(board_of(*old(best)), e.point.0 as int, e.point.1 as int) is Some
                &&& cell_at(board_of(*old(best)), e.point.0 as int, e.point.1 as int)->Some_0.1
                    <= e.g
            },
            e.g + 2 <= gcap,
            gcap <= 2 * (16 * 4096 * 4096 + 64),
        ensures
            board_wf(*self, board_of(*final(best))),
            board_inv(*self, start, board_of(*final(best))),
            frontier_inv(*self, start, board_of(*final(best)), final(open)@, gcap),
            forall|x: int, y: int|
                self.in_bounds(x, y) && #[trigger] cell_at(board_of(*old(best)), x, y) is Some
                    ==> cell_at(board_of(*final(best)), x, y) is Some && cell_at(
                    board_of(*final(best)),
                    x,
                    y,
                )->Some_0.1 <= cell_at(board_of(*old(best)), x, y)->Some_0.1,
            final(open)@.len() >= old(open)@.len(),
            forall|i: int|
                0 <= i < old(open)@.len() ==> #[trigger] final(open)@[i] == old(open)@[i],
            ({
                let c = step_sat(e.point, dx as int, dy as int);
                &&& ((self.in_bounds(c.0, c.1) && self.spec_tile(c.0, c.1).passable && !(c.0
                    == start.0 && c.1 == start.1) && !(c.0 == e.point.0 && c.1 == e.point.1))
                    ==> cell_at(board_of(*final(best)), c.0, c.1) is Some)
                &&& forall|x: int, y: int|
                    self.in_bounds(x, y) && !(x == c.0 && y == c.1)
                        ==> #[trigger] cell_at(board_of(*final(best)), x, y) == cell_at(
                        board_of(*old(best)),
                        x,
                        y,
                    )
                &&& (cell_at(board_of(*final(best)), c.0, c.1) != cell_at(
                    board_of(*old(best)),
                    c.0,
                    c.1,
                ) ==> exists|i: int|
                    0 <= i < final(open)@.len() && (#[trigger] final(open)@[i]).point.0 as int
                        == c.0 && final(open)@[i].point.1 as int == c.1)
            }),
    {
        let px = e.point.0;
        let py = e.point.1;
        let nx: usize = if dx < 0 {
            if px == 0 {
                0
            } else {
                px - 1
            }
        } else if dx > 0 {
            px + 1
        } else {
            px
        };
        let ny: usize = if dy < 0 {
            if py == 0 {
                0
            } else {
                py - 1
            }
        } else if dy > 0 {
            py + 1
        } else {
            py
        };
        proof {
            assert((nx as int, ny as int) == step_sat(e.point, dx as int, dy as int));
        }
        let np = (nx, ny);
        let skip = (nx == px && ny == py) || (nx == start.0 && ny == start.1);
        if !skip && self.is_passable(nx, ny) {
            let delta_cost: usize = if dx != 0 && dy != 0 {
                2
            } else {
                1
            };
            let tentative: usize = e.g + delta_cost;
            let ghost best0 = board_of(*best);
            proof {
                assert(best0.len() == best@.len());
                assert(best0[ny as int] == best@[ny as int]@);
                assert(best0[ny as int].len() == self.width);
            }
            let cur: Option<((usize, usize), usize)> = best[ny][nx];
            let update = match cur {
                Some(pg) => tentative < pg.1,
                None => true,
            };
            if update {
                let row: &mut Vec<Option<((usize, usize), usize)>> = &mut best[ny];
                row[nx] = Some((e.point, tentative));
                proof {
                    let best1 = board_of(*best);
                    assert(best1 =~= best0.update(
                        ny as int,
                        best0[ny as int].update(nx as int, Some((e.point, tentative))),
                    ));
                    lemma_board_update(*self, start, best0, best1, np, e.point, tentative);
                }
                let hh = distance(np, target);
                proof {
                    assert(chebyshev(as_int(np), as_int(target)) < 4096);
                }
                open.push(OpenEntry { f: tentative + hh, point: np, parent: e.point, g: tentative });
                proof {
                    assert(open@[open@.len() - 1].point == np);
                }
            }
        }
    }

    /// Expand one dequeued, not-yet-expanded cell: relax all eight of its
    /// neighbors, then mark it closed. Exactly one cell leaves the
    /// unexpanded count, and all completeness invariants are maintained.
    #[verifier::rlimit(100)]
    fn expand_cell(
        &self,
        start: (usize, usize),
        target: (usize, usize),
        e: OpenEntry,
        best: &mut Vec<Vec<Option<((usize, usize), usize)>>>,
        open: &mut Vec<OpenEntry>,
        closed: &mut Vec<Vec<bool>>,
        Ghost(n): Ghost<int>,
    )
        requires
            self.wf(),
            self.in_bounds(start.0 as int, start.1 as int),
            self.in_bounds(target.0 as int, target.1 as int),
            start != target,
            e.point != target,
            n == self.width * self.height,
            n <= 4096 * 4096,
            self.in_bounds(e.point.0 as int, e.point.1 as int),
            board_wf(*self, board_of(*old(best))),
            board_inv(*self, start, board_of(*old(best))),
            closed_wf(*self, flags_of(*old(closed))),
            count_unclosed(flags_of(*old(closed))) <= n,
            e.g + 2 <= 2 * (n - count_unclosed(flags_of(*old(closed))) + 2),
            frontier_inv(
                *self,
                start,
                board_of(*old(best)),
                old(open)@,
                2 * (n - count_unclosed(flags_of(*old(closed))) + 2),
            ),
            expanded_closure(*self, start, board_of(*old(best)), flags_of(*old(closed))),
            frontier_covers(
                *self,
                board_of(*old(best)),
                flags_of(*old(closed)),
                old(open)@,
                e.point,
            ),
            closed_at(flags_of(*old(closed)), start.0 as int, start.1 as int) || e.point == start
                || exists|i: int|
                0 <= i < old(open)@.len() && (#[trigger] old(open)@[i]).point == start,
            !closed_at(flags_of(*old(closed)), target.0 as int, target.1 as int),
            !closed_at(flags_of(*old(closed)), e.point.0 as int, e.point.1 as int),
            e.point == start || (cell_at(
                board_of(*old(best)),
                e.point.0 as int,
                e.point.1 as int,
            ) is Some && cell_at(board_of(*old(best)), e.point.0 as int, e.point.1 as int)
                ->Some_0.1 <= e.g),
        ensures
            board_wf(*self, board_of(*final(best))),
            board_inv(*self, start, board_of(*final(best))),
            closed_wf(*self, flags_of(*final(closed))),
            count_unclosed(flags_of(*old(closed))) == count_unclosed(flags_of(*final(closed)))
                + 1,
            frontier_inv(
                *self,
                start,
                board_of(*final(best)),
                final(open)@,
                2 * (n - count_unclosed(flags_of(*final(closed))) + 1),
            ),
            expanded_closure(*self, start, board_of(*final(best)), flags_of(*final(closed))),
            frontier_covers(
                *self,
                board_of(*final(best)),
                flags_of(*final(closed)),
                final(open)@,
                (self.width, self.height),
            ),
            closed_at(flags_of(*final(closed)), start.0 as int, start.1 as int) || exists|i: int|
                0 <= i < final(open)@.len() && (#[trigger] final(open)@[i]).point == start,
            !closed_at(flags_of(*final(closed)), target.0 as int, target.1 as int),
    {
        let w = self.width;
        let h = self.height;
        let ghost cb0 = flags_of(*closed);
        let ghost count0 = count_unclosed(cb0);
        let mut d: usize = 0;
        while d < 8
            invariant
                self.wf(),
                self.in_bounds(start.0 as int, start.1 as int),
                self.in_bounds(target.0 as int, target.1 as int),
                start != target,
                w == self.width,
                h == self.height,
                n == w * h,
                n <= 4096 * 4096,
                self.in_bounds(e.point.0 as int, e.point.1 as int),
                cb0 == flags_of(*closed),
                count0 == count_unclosed(cb0),
                count0 <= n,
                e.g + 2 <= 2 * (n - count0 + 2),
                board_wf(*self, board_of(*best)),
                board_inv(*self, start, board_of(*best)),
                closed_wf(*self, cb0),
                frontier_inv(*self, start, board_of(*best), open@, 2 * (n - count0 + 2)),
                expanded_closure(*self, start, board_of(*best), cb0),
                frontier_covers(*self, board_of(*best), cb0, open@, e.point),
                closed_at(cb0, start.0 as int, start.1 as int) || e.point == start
                    || exists|i: int|
                    0 <= i < open@.len() && (#[trigger] open@[i]).point == start,
                !closed_at(cb0, target.0 as int, target.1 as int),
                !closed_at(cb0, e.point.0 as int, e.point.1 as int),
                e.point == start || (cell_at(
                    board_of(*best),
                    e.point.0 as int,
                    e.point.1 as int,
                ) is Some && cell_at(board_of(*best), e.point.0 as int, e.point.1 as int)
                    ->Some_0.1 <= e.g),
                forall|dd: int|
                    0 <= dd < d ==> {
                        let del = #[trigger] delta_of(dd);
                        let c = step_sat(e.point, del.0, del.1);
                        (self.in_bounds(c.0, c.1) && self.spec_tile(c.0, c.1).passable
                            && !(c.0 == start.0 && c.1 == start.1) && !(c.0 == e.point.0
                            && c.1 == e.point.1)) ==> cell_at(board_of(*best), c.0, c.1)
                            is Some
                    },
            decreases 8 - d,
        {
            let (dx, dy): (i32, i32) = match d {
                0 => (-1, -1),
                1 => (-1, 0),
                2 => (-1, 1),
                3 => (0, -1),
                4 => (0, 1),
                5 => (1, -1),
                6 => (1, 0),
                _ => (1, 1),
            };
            proof {
                assert((dx as int, dy as int) == delta_of(d as int));
            }
            let ghost pre_best = board_of(*best);
            let ghost pre_open = open@;
            self.relax_neighbor(
                start,
                target,
                e,
                dx,
                dy,
                best,
                open,
                Ghost(2 * (n - count0 + 2)),
            );
            proof {
                lemma_closure_monotone(*self, start, pre_best, board_of(*best), cb0);
                let c = step_sat(e.point, dx as int, dy as int);
                assert forall|x: int, y: int|
                    self.in_bounds(x, y) && cell_at(board_of(*best), x, y) is Some
                        && !closed_at(cb0, x, y) && !(x == e.point.0 && y
                        == e.point.1) implies exists|i: int|
                    0 <= i < open@.len() && (#[trigger] open@[i]).point.0 == x
                        && open@[i].point.1 == y by {
                    if cell_at(board_of(*best), x, y) == cell_at(pre_best, x, y) {
                        assert(cell_at(pre_best, x, y) is Some && !(x == e.point.0 && y
                            == e.point.1));
                        let wi = choose|i: int|
                            0 <= i < pre_open.len() && (#[trigger] pre_open[i]).point.0
                                == x && pre_open[i].point.1 == y;
                        assert(open@[wi] == pre_open[wi]);
                    } else {
                        assert(x == c.0 && y == c.1);
                    }
                }
                assert(closed_at(cb0, start.0 as int, start.1 as int) || e.point == start
                    || exists|i: int|
                    0 <= i < open@.len() && (#[trigger] open@[i]).point == start) by {
                    if !closed_at(cb0, start.0 as int, start.1 as int) && e.point
                        != start {
                        let wi = choose|i: int|
                            0 <= i < pre_open.len() && (#[trigger] pre_open[i]).point
                                == start;
                        assert(open@[wi] == pre_open[wi]);
                    }
                }
                assert forall|dd: int| 0 <= dd < d + 1 implies {
                    let del = #[trigger] delta_of(dd);
                    let cc = step_sat(e.point, del.0, del.1);
                    (self.in_bounds(cc.0, cc.1) && self.spec_tile(cc.0, cc.1).passable
                        && !(cc.0 == start.0 && cc.1 == start.1) && !(cc.0 == e.point.0
                        && cc.1 == e.point.1)) ==> cell_at(board_of(*best), cc.0, cc.1)
                        is Some
                } by {
                    let del = delta_of(dd);
                    let cc = step_sat(e.point, del.0, del.1);
                    if dd < d {
                        if self.in_bounds(cc.0, cc.1) && self.spec_tile(
                            cc.0,
                            cc.1,
                        ).passable && !(cc.0 == start.0 && cc.1 == start.1) && !(cc.0
                            == e.point.0 && cc.1 == e.point.1) {
                            assert(cell_at(pre_best, cc.0, cc.1) is Some);
                        }
                    }
                }
            }
            d = d + 1;
        }
        // Mark the cell expanded: all its neighbours are recorded now.
        let py = e.point.1;
        let px = e.point.0;
        proof {
            assert(cb0[py as int] == closed@[py as int]@);
            assert(cb0[py as int].len() == w);
        }
        let crow: &mut Vec<bool> = &mut closed[py];
        crow[px] = true;
        proof {
            let cb1 = flags_of(*closed);
            assert(cb1 =~= cb0.update(py as int, cb0[py as int].update(px as int, true)));
            assert forall|x: int, y: int|
                self.in_bounds(x, y) && !(x == px && y == py) implies #[trigger] closed_at(
                cb1,
                x,
                y,
            ) == closed_at(cb0, x, y) by {
                if y == py {
                    assert(cb1[y] == cb0[y].update(px as int, true));
                }
            }
            assert(closed_at(cb1, px as int, py as int));
            lemma_count_unclosed_set(cb0, cb1, px as int, py as int);
            // The freshly closed cell has all qualifying neighbours
            // recorded: each one is one of the eight deltas away.
            assert forall|x: int, y: int|
                #![trigger closed_at(cb1, x, y)]
                self.in_bounds(x, y) && closed_at(cb1, x, y) implies {
                &&& ((x == start.0 && y == start.1) || cell_at(board_of(*best), x, y)
                    is Some)
                &&& forall|a: int, b: int|
                    #![trigger cell_at(board_of(*best), a, b)]
                    self.in_bounds(a, b) && self.spec_tile(a, b).passable && chebyshev(
                        (x, y),
                        (a, b),
                    ) == 1 && !(a == start.0 && b == start.1) ==> cell_at(
                        board_of(*best),
                        a,
                        b,
                    ) is Some
            } by {
                if x == px && y == py {
                    assert forall|a: int, b: int|
                        #![trigger cell_at(board_of(*best), a, b)]
                        self.in_bounds(a, b) && self.spec_tile(a, b).passable
                            && chebyshev((x, y), (a, b)) == 1 && !(a == start.0 && b
                            == start.1) implies cell_at(board_of(*best), a, b) is Some by {
                        let dxv = a - px;
                        let dyv = b - py;
                        assert(-1 <= dxv <= 1 && -1 <= dyv <= 1 && !(dxv == 0 && dyv
                            == 0));
                        let dd: int = if dxv == -1 && dyv == -1 {
                            0
                        } else if dxv == -1 && dyv == 0 {
                            1
                        } else if dxv == -1 && dyv == 1 {
                            2
                        } else if dxv == 0 && dyv == -1 {
                            3
                        } else if dxv == 0 && dyv == 1 {
                            4
                        } else if dxv == 1 && dyv == -1 {
                            5
                        } else if dxv == 1 && dyv == 0 {
                            6
                        } else {
                            7
                        };
                        assert(delta_of(dd) == (dxv, dyv));
                        assert(step_sat(e.point, dxv, dyv) == (a, b));
                    }
                } else {
                    assert(closed_at(cb0, x, y));
                }
            }
            assert(expanded_closure(*self, start, board_of(*best), cb1));
        }
        proof {
            let cb1 = flags_of(*closed);
            assert(frontier_covers(*self, board_of(*best), cb1, open@, (w, h)));
            assert(closed_at(cb1, start.0 as int, start.1 as int) || exists|i: int|
                0 <= i < open@.len() && (#[trigger] open@[i]).point == start) by {
                if e.point == start {
                    assert(closed_at(cb1, start.0 as int, start.1 as int));
                }
            }
        }
    }

    /// Dequeue the least frontier entry; every other entry survives, so
    /// queue-based coverage of the recorded cells is kept (with the popped
    /// cell exempted), as is the start node's presence.
    #[verifier::rlimit(80)]
    fn dequeue_least(
        &self,
        start: (usize, usize),
        best: &Vec<Vec<Option<((usize, usize), usize)>>>,
        closed: &Vec<Vec<bool>>,
        open: &mut Vec<OpenEntry>,
        Ghost(gcap): Ghost<int>,
    ) -> (e: OpenEntry)
        requires
            self.wf(),
            old(open)@.len() > 0,
            frontier_inv(*self, start, board_of(*best), old(open)@, gcap),
            frontier_covers(
                *self,
                board_of(*best),
                flags_of(*closed),
                old(open)@,
                (self.width, self.height),
            ),
            closed_at(flags_of(*closed), start.0 as int, start.1 as int) || exists|i: int|
                0 <= i < old(open)@.len() && (#[trigger] old(open)@[i]).point == start,
        ensures
            final(open)@.len() == old(open)@.len() - 1,
            e.g <= gcap,
            (e.point == start && e.g == 0) || {
                &&& self.in_bounds(e.point.0 as int, e.point.1 as int)
                &&& cell_at(board_of(*best), e.point.0 as int, e.point.1 as int) is Some
                &&& cell_at(board_of(*best), e.point.0 as int, e.point.1 as int)->Some_0.1 <= e.g
            },
            frontier_inv(*self, start, board_of(*best), final(open)@, gcap),
            frontier_covers(*self, board_of(*best), flags_of(*closed), final(open)@, e.point),
            closed_at(flags_of(*closed), start.0 as int, start.1 as int) || e.point == start
                || exists|i: int|
                0 <= i < final(open)@.len() && (#[trigger] final(open)@[i]).point == start,
    {
        let mut mi: usize = 0;
        let mut k: usize = 1;
        while k < open.len()
            invariant
                open@.len() > 0,
                mi < open@.len(),
                k <= open@.len(),
            decreases open@.len() - k,
        {
            if entry_lt(&open[k], &open[mi]) {
                mi = k;
            }
            k = k + 1;
        }
        let ghost open0 = open@;
        let e = open.swap_remove(mi);
        proof {
            // Every other queued entry survives the dequeue.
            assert forall|x: int, y: int|
                self.in_bounds(x, y) && cell_at(board_of(*best), x, y) is Some && !closed_at(
                    flags_of(*closed),
                    x,
                    y,
                ) && !(x == e.point.0 && y == e.point.1) implies exists|i: int|
                0 <= i < open@.len() && (#[trigger] open@[i]).point.0 == x && open@[i].point.1
                    == y by {
                assert(cell_at(board_of(*best), x, y) is Some && !(x == self.width && y
                    == self.height));
                let wi = choose|i: int|
                    0 <= i < open0.len() && (#[trigger] open0[i]).point.0 == x
                        && open0[i].point.1 == y;
                assert(open0[wi].point != e.point);
                assert(wi != mi);
                lemma_swap_remove_keeps(open0, open@, mi as int, wi);
            }
            assert(closed_at(flags_of(*closed), start.0 as int, start.1 as int) || e.point
                == start || exists|i: int|
                0 <= i < open@.len() && (#[trigger] open@[i]).point == start) by {
                if !closed_at(flags_of(*closed), start.0 as int, start.1 as int) && e.point
                    != start {
                    let wi = choose|i: int|
                        0 <= i < open0.len() && (#[trigger] open0[i]).point == start;
                    assert(wi != mi);
                    lemma_swap_remove_keeps(open0, open@, mi as int, wi);
                }
            }
        }
        e
    }

    /// Weighted A* over 8-directional movement, with a closed set so that
    /// the search provably terminates once every reachable cell has been
    /// expanded. A returned route is a valid passable walk from `start` to
    /// `target` (exclusive of `start`); `None` comes back exactly when no
    /// passable walk connects the two.
    #[verifier::rlimit(100)]
    pub fn get_path(&self, start: (usize, usize), target: (usize, usize)) -> (r: Option<
        Vec<(usize, usize)>,
    >)
        requires
            self.wf(),
            self.in_bounds(start.0 as int, start.1 as int),
            self.in_bounds(target.0 as int, target.1 as int),
        ensures
            r is Some ==> valid_path(*self, start, target, r->Some_0@),
            r is Some <==> reachable(*self, start, target),
            start == target ==> r is Some,
    {
        if start.0 == target.0 && start.1 == target.1 {
            proof {
                let empty = Seq::<(usize, usize)>::empty();
                assert(valid_path(*self, start, target, empty));
            }
            return Some(Vec::new());
        }
        let w = self.width;
        let h = self.height;
        proof {
            crate::grid::lemma_index_bounds(0, 0, w as int, h as int);
        }
        let n: usize = w * h;

        // Score board: best[y][x] = Some((predecessor, route cost)).
        let mut best: Vec<Vec<Option<((usize, usize), usize)>>> = Vec::new();
        // Closed board: closed[y][x] holds once (x, y) has been expanded.
        let mut closed: Vec<Vec<bool>> = Vec::new();
        let mut y: usize = 0;
        while y < h
            invariant
                y <= h,
                best@.len() == y,
                closed@.len() == y,
                forall|k: int| 0 <= k < y ==> (#[trigger] best@[k]).len() == w,
                forall|k: int, j: int| 0 <= k < y && 0 <= j < w ==> #[trigger] best@[k]@[j] is None,
                forall|k: int| 0 <= k < y ==> (#[trigger] closed@[k]).len() == w,
                forall|k: int, j: int|
                    0 <= k < y && 0 <= j < w ==> #[trigger] closed@[k]@[j] == false,
            decreases h - y,
        {
            let mut row: Vec<Option<((usize, usize), usize)>> = Vec::new();
            let mut crow: Vec<bool> = Vec::new();
            let mut x: usize = 0;
            while x < w
                invariant
                    x <= w,
                    row@.len() == x,
                    crow@.len() == x,
                    forall|j: int| 0 <= j < x ==> #[trigger] row@[j] is None,
                    forall|j: int| 0 <= j < x ==> #[trigger] crow@[j] == false,
                decreases w - x,
            {
                row.push(None);
                crow.push(false);
                x = x + 1;
            }
            best.push(row);
            closed.push(crow);
            y = y + 1;
        }
        proof {
            assert forall|xx: int, yy: int|
                self.in_bounds(xx, yy) implies !(#[trigger] cell_at(board_of(best), xx, yy)
                is Some) by {
                assert(board_of(best)[yy] == best@[yy]@);
            }
            assert forall|xx: int, yy: int|
                self.in_bounds(xx, yy) implies !(#[trigger] closed_at(flags_of(closed), xx, yy)) by {
                assert(flags_of(closed)[yy] == closed@[yy]@);
            }
            assert(flags_of(closed).len() == h);
            assert forall|yy: int| 0 <= yy < h implies (#[trigger] flags_of(closed)[yy]).len()
                == w by {
                assert(flags_of(closed)[yy] == closed@[yy]@);
            }
            lemma_count_unclosed_le(flags_of(closed), w as int);
            assert(h * w == n) by (nonlinear_arith)
                requires
                    n == w * h,
            ;
        }

        let mut open: Vec<OpenEntry> = Vec::new();
        let h0 = distance(start, target);
        open.push(OpenEntry { f: h0, point: start, parent: start, g: 0 });
        proof {
            assert(open@[0].point == start);
        }

        while open.len() > 0
            invariant
                self.wf(),
                self.in_bounds(start.0 as int, start.1 as int),
                self.in_bounds(target.0 as int, target.1 as int),
                start != target,
                w == self.width,
                h == self.height,
                n == w * h,
                n <= 4096 * 4096,
                board_wf(*self, board_of(best)),
                board_inv(*self, start, board_of(best)),
                closed_wf(*self, flags_of(closed)),
                count_unclosed(flags_of(closed)) <= n,
                frontier_inv(
                    *self,
                    start,
                    board_of(best),
                    open@,
                    2 * (n - count_unclosed(flags_of(closed)) + 1),
                ),
                expanded_closure(*self, start, board_of(best), flags_of(closed)),
                frontier_covers(*self, board_of(best), flags_of(closed), open@, (w, h)),
                closed_at(flags_of(closed), start.0 as int, start.1 as int) || exists|i: int|
                    0 <= i < open@.len() && (#[trigger] open@[i]).point == start,
                !closed_at(flags_of(closed), target.0 as int, target.1 as int),
            decreases count_unclosed(flags_of(closed)), open@.len(),
        {
            let e = self.dequeue_least(
                start,
                &best,
                &closed,
                &mut open,
                Ghost(2 * (n - count_unclosed(flags_of(closed)) + 1)),
            );

            if e.point.0 == target.0 && e.point.1 == target.1 {
                let r = self.reconstruct(start, target, &best);
                proof {
                    assert(valid_path(*self, start, target, r@));
                }
                return Some(r);
            }
            proof {
                assert(e.point == start || (self.in_bounds(e.point.0 as int, e.point.1 as int)
                    && cell_at(board_of(best), e.point.0 as int, e.point.1 as int) is Some
                    && cell_at(board_of(best), e.point.0 as int, e.point.1 as int)->Some_0.1
                    <= e.g));
                assert(flags_of(closed)[e.point.1 as int] == closed@[e.point.1 as int]@);
            }
            let already = closed[e.point.1][e.point.0];
            if already {
                // A stale duplicate of an expanded cell: drop it. The queue
                // shrank, so the search still makes progress.
                proof {
                    assert(closed_at(flags_of(closed), e.point.0 as int, e.point.1 as int));
                }
            } else {
                self.expand_cell(
                    start,
                    target,
                    e,
                    &mut best,
                    &mut open,
                    &mut closed,
                    Ghost(n as int),
                );
            }
        }
        proof {
            // The queue is empty: the start and every recorded cell have
            // been expanded, and expansion recorded every passable
            // neighbour, so no passable walk can leave the recorded region.
            // The target was never recorded (it would have been dequeued
            // and returned), hence no walk reaches it.
            let bb = board_of(best);
            let cb = flags_of(closed);
            assert(closed_at(cb, start.0 as int, start.1 as int));
            assert forall|x: int, y: int|
                self.in_bounds(x, y) && #[trigger] cell_at(bb, x, y) is Some implies closed_at(
                cb,
                x,
                y,
            ) by {
                assert(!(x == w && y == h));
            }
            assert forall|p: Seq<(usize, usize)>| !valid_path(*self, start, target, p) by {
                if valid_path(*self, start, target, p) {
                    lemma_reachable_target_recorded(*self, start, start, target, bb, cb, p);
                    assert(closed_at(cb, target.0 as int, target.1 as int));
                }
            }
            assert(!reachable(*self, start, target));
        }
        None
    }


    fn reconstruct(
        &self,
        start: (usize, usize),
        target: (usize, usize),
        best: &Vec<Vec<Option<((usize, usize), usize)>>>,
    ) -> (r: Vec<(usize, usize)>)
        requires
            self.wf(),
            self.in_bounds(start.0 as int, start.1 as int),
            self.in_bounds(target.0 as int, target.1 as int),
            start != target,
            board_wf(*self, board_of(*best)),
            board_inv(*self, start, board_of(*best)),
            cell_at(board_of(*best), target.0 as int, target.1 as int) is Some,
        ensures
            valid_path(*self, start, target, r@),
    {
        let ghost board = board_of(*best);
        let mut rev: Vec<(usize, usize)> = Vec::new();
        let mut cur: (usize, usize) = target;
        while !(cur.0 == start.0 && cur.1 == start.1)
            invariant
                self.wf(),
                self.in_bounds(start.0 as int, start.1 as int),
                start != target,
                board == board_of(*best),
                board_wf(*self, board),
                board_inv(*self, start, board),
                cur == start || (self.in_bounds(cur.0 as int, cur.1 as int) && cell_at(
                    board,
                    cur.0 as int,
                    cur.1 as int,
                ) is Some),
                rev@.len() == 0 ==> cur == target,
                rev@.len() > 0 ==> rev@[0] == target,
                forall|i: int|
                    #![trigger rev@[i]]
                    0 <= i < rev@.len() - 1 ==> adjacent8(as_int(rev@[i + 1]), as_int(rev@[i])),
                forall|i: int|
                    #![trigger rev@[i]]
                    0 <= i < rev@.len() ==> self.spec_passable(rev@[i].0 as int, rev@[i].1 as int),
                rev@.len() > 0 ==> adjacent8(as_int(cur), as_int(rev@[rev@.len() - 1])),
                cur == target || rev@.len() > 0,
            decreases (if cur == start {
                0int
            } else {
                cell_at(board, cur.0 as int, cur.1 as int)->Some_0.1 as int
            }),
        {
            proof {
                assert(board[cur.1 as int] == best@[cur.1 as int]@);
            }
            let entry: Option<((usize, usize), usize)> = best[cur.1][cur.0];
            let pg: ((usize, usize), usize) = match entry {
                Some(p) => p,
                None => {
                    proof {
                        assert(false);
                    }
                    (start, 0)
                },
            };
            rev.push(cur);
            cur = pg.0;
        }
        let m = rev.len();
        let mut path: Vec<(usize, usize)> = Vec::new();
        let mut i: usize = 0;
        while i < m
            invariant
                m == rev@.len(),
                i <= m,
                path@.len() == i,
                forall|k: int| 0 <= k < i ==> #[trigger] path@[k] == rev@[m - 1 - k],
            decreases m - i,
        {
            path.push(rev[m - 1 - i]);
            i = i + 1;
        }
        proof {
            assert(rev@.len() > 0);
            assert(path@[path@.len() - 1] == rev@[0]);
            assert(adjacent8(as_int(start), as_int(path@[0])));
            assert forall|j: int| #![trigger path@[j]] 0 <= j < path@.len() - 1 implies adjacent8(
                as_int(path@[j]),
                as_int(path@[j + 1]),
            ) by {
                assert(path@[j] == rev@[m - 1 - j]);
                assert(path@[j + 1] == rev@[m - 1 - (j + 1)]);
                assert(adjacent8(as_int(rev@[m - 2 - j + 1]), as_int(rev@[m - 2 - j])));
            }
        }
        path
    }
}

} // verus!
