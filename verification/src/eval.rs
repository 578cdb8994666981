//! The static position evaluator: a dual-source flood fill from both
//! heads races over the passable cells to split the territory, and
//! length and low-health terms are added on top.
use vstd::prelude::*;
use crate::board::{CellContent, CellV, GameBoard, cell_idx, snake_shape_ok};

verus! {

/// Grid side of the evaluator's fixed arena.
pub const GRID_SIDE: usize = 11;

/// Cell count of the evaluator's fixed arena.
pub const GRID_CELLS: usize = 121;

/// The sentinel distance of a cell the flood fill never reached.
pub const UNREACHED: i32 = 9999;

/// Whether a cell may be walked through: empty or food.
pub open spec fn passable_cell(c: CellV) -> bool {
    c is Empty || c is Food
}

/// Number of entries among the first `n` that still hold the
/// unreached sentinel.
pub open spec fn count_unset(d: Seq<i32>, n: int) -> int
    decreases n,
{
    if n <= 0 {
        0
    } else {
        count_unset(d, n - 1) + if d[n - 1] == UNREACHED {
            1int
        } else {
            0int
        }
    }
}

/// Entries a distance grid may hold mid-fill: the sentinel, or a step
/// count no larger than the number of cells already claimed.
pub open spec fn dist_grid_ok(d: Seq<i32>) -> bool {
    &&& d.len() == GRID_CELLS
    &&& forall|i: int|
        0 <= i < d.len() ==> (#[trigger] d[i] == UNREACHED || (0 <= d[i] && d[i] <= GRID_CELLS
            - count_unset(d, GRID_CELLS as int)))
}

/// Every queue entry is an on-grid cell whose distance is set.
pub open spec fn queue_ok(q: Seq<(usize, usize)>, d: Seq<i32>) -> bool {
    forall|i: int|
        0 <= i < q.len() ==> {
            let c = #[trigger] q[i];
            &&& c.0 < GRID_SIDE
            &&& c.1 < GRID_SIDE
            &&& d[c.0 * GRID_SIDE + c.1] != UNREACHED
        }
}

proof fn lemma_count_unset_congruent(d1: Seq<i32>, d2: Seq<i32>, n: int)
    requires
        forall|j: int| 0 <= j < n ==> d1[j] == d2[j],
    ensures
        count_unset(d1, n) == count_unset(d2, n),
    decreases n,
{
    if n > 0 {
        lemma_count_unset_congruent(d1, d2, n - 1);
    }
}

proof fn lemma_count_unset_update(d: Seq<i32>, n: int, i: int, v: i32)
    requires
        0 <= i < n <= d.len(),
    ensures
        count_unset(d.update(i, v), n) == count_unset(d, n) - (if d[i] == UNREACHED {
            1int
        } else {
            0int
        }) + (if v == UNREACHED {
            1int
        } else {
            0int
        }),
    decreases n,
{
    if i < n - 1 {
        lemma_count_unset_update(d, n - 1, i, v);
    } else {
        lemma_count_unset_congruent(d.update(i, v), d, n - 1);
    }
}

proof fn lemma_count_unset_bounds(d: Seq<i32>, n: int)
    requires
        n <= d.len(),
    ensures
        0 <= count_unset(d, n),
        n >= 0 ==> count_unset(d, n) <= n,
    decreases n,
{
    if n > 0 {
        lemma_count_unset_bounds(d, n - 1);
    }
}

/// A sentinel-filled distance grid with one claimed start cell.
fn fresh_distances(sx: usize, sy: usize) -> (d: Vec<i32>)
    requires
        sx < GRID_SIDE,
        sy < GRID_SIDE,
    ensures
        dist_grid_ok(d@),
        d@[sx as int * GRID_SIDE as int + sy as int] == 0,
        forall|i: int|
            0 <= i < d@.len() && i != sx as int * GRID_SIDE as int + sy as int ==> #[trigger] d@[i]
                == UNREACHED,
        count_unset(d@, GRID_CELLS as int) == GRID_CELLS - 1,
{
    let mut d: Vec<i32> = Vec::new();
    while d.len() < GRID_CELLS
        invariant
            d@.len() <= GRID_CELLS,
            forall|i: int| 0 <= i < d@.len() ==> #[trigger] d@[i] == UNREACHED,
        decreases GRID_CELLS - d.len(),
    {
        d.push(UNREACHED);
    }
    proof {
        lemma_count_unset_full(d@, GRID_CELLS as int);
    }
    let si = sx * GRID_SIDE + sy;
    let ghost d0 = d@;
    d[si] = 0;
    proof {
        lemma_count_unset_update(d0, GRID_CELLS as int, si as int, 0);
        lemma_count_unset_bounds(d@, GRID_CELLS as int);
    }
    d
}

proof fn lemma_count_unset_full(d: Seq<i32>, n: int)
    requires
        n <= d.len(),
        forall|j: int| 0 <= j < d.len() ==> #[trigger] d[j] == UNREACHED,
    ensures
        n >= 0 ==> count_unset(d, n) == n,
    decreases n,
{
    if n > 0 {
        lemma_count_unset_full(d, n - 1);
    }
}

/// A claimed cell one step above some cardinal neighbour: the fill's
/// distances descend back toward their source.
pub open spec fn gradient_back(d: Seq<i32>, x: int, y: int) -> bool {
    let v = d[cell_idx(GRID_SIDE as int, x, y)];
    ||| (x + 1 < GRID_SIDE && d[cell_idx(GRID_SIDE as int, x + 1, y)] == v - 1)
    ||| (0 <= x - 1 && d[cell_idx(GRID_SIDE as int, x - 1, y)] == v - 1)
    ||| (y + 1 < GRID_SIDE && d[cell_idx(GRID_SIDE as int, x, y + 1)] == v - 1)
    ||| (0 <= y - 1 && d[cell_idx(GRID_SIDE as int, x, y - 1)] == v - 1)
}

/// The four probe directions, in the order the fill tries them.
pub open spec fn dir_of(t: int) -> (int, int) {
    if t == 0 {
        (0int, 1int)
    } else if t == 1 {
        (0int, -1int)
    } else if t == 2 {
        (1int, 0int)
    } else {
        (-1int, 0int)
    }
}

/// The running state of the fill: both distance grids and both
/// frontiers with their read cursors.
#[verifier::ext_equal]
pub ghost struct FillState {
    pub d1: Seq<i32>,
    pub d2: Seq<i32>,
    pub q1: Seq<(usize, usize)>,
    pub qh1: int,
    pub q2: Seq<(usize, usize)>,
    pub qh2: int,
}

/// One probe, as a function: claims the in-bounds passable unclaimed
/// neighbour of `(x, y)` at one more step, and enqueues it only if the
/// other side has not claimed it strictly sooner.
pub open spec fn spec_probe(
    pass: Seq<bool>,
    dmine: Seq<i32>,
    dother: Seq<i32>,
    q: Seq<(usize, usize)>,
    x: int,
    y: int,
    dx: int,
    dy: int,
) -> (Seq<i32>, Seq<(usize, usize)>) {
    let nx = x + dx;
    let ny = y + dy;
    if 0 <= nx && nx < GRID_SIDE && 0 <= ny && ny < GRID_SIDE {
        let ni = nx * GRID_SIDE as int + ny;
        let ci = x * GRID_SIDE as int + y;
        if pass[ni] && dmine[ni] == UNREACHED {
            let dnew = dmine.update(ni, (dmine[ci] + 1) as i32);
            if dnew[ni] <= dother[ni] {
                (dnew, q.push((nx as usize, ny as usize)))
            } else {
                (dnew, q)
            }
        } else {
            (dmine, q)
        }
    } else {
        (dmine, q)
    }
}

/// Four probes of one node, in direction order.
pub open spec fn spec_probes4(
    pass: Seq<bool>,
    dmine: Seq<i32>,
    dother: Seq<i32>,
    q: Seq<(usize, usize)>,
    x: int,
    y: int,
    t: int,
) -> (Seq<i32>, Seq<(usize, usize)>)
    decreases 4 - t,
{
    if t >= 4 {
        (dmine, q)
    } else {
        let r = spec_probe(pass, dmine, dother, q, x, y, dir_of(t).0, dir_of(t).1);
        spec_probes4(pass, r.0, dother, r.1, x, y, t + 1)
    }
}

/// One probe of the first side, followed — as the loop interleaves
/// them — by a full expansion of one node of the second side's
/// frontier, if one is waiting.
pub open spec fn spec_side1_probe(pass: Seq<bool>, st: FillState, x: int, y: int, t: int) -> FillState {
    let r1 = spec_probe(pass, st.d1, st.d2, st.q1, x, y, dir_of(t).0, dir_of(t).1);
    let st1 = FillState { d1: r1.0, q1: r1.1, ..st };
    if st1.qh2 < st1.q2.len() {
        let node = st1.q2[st1.qh2];
        let r2 = spec_probes4(pass, st1.d2, st1.d1, st1.q2, node.0 as int, node.1 as int, 0);
        FillState { d2: r2.0, q2: r2.1, qh2: st1.qh2 + 1, ..st1 }
    } else {
        st1
    }
}

/// The four interleaved probes of one first-side node.
pub open spec fn spec_side1_dirs(pass: Seq<bool>, st: FillState, x: int, y: int, t: int) -> FillState
    decreases 4 - t,
{
    if t >= 4 {
        st
    } else {
        spec_side1_dirs(pass, spec_side1_probe(pass, st, x, y, t), x, y, t + 1)
    }
}

/// One iteration of the fill's main loop: pop a first-side node and
/// work through its four directions.
pub open spec fn spec_outer(pass: Seq<bool>, st: FillState) -> FillState {
    let node = st.q1[st.qh1];
    spec_side1_dirs(
        pass,
        FillState { qh1: st.qh1 + 1, ..st },
        node.0 as int,
        node.1 as int,
        0,
    )
}

/// The main loop, run to quiescence of the first frontier (the fuel is
/// generous: the loop pops one node per step and at most 122 nodes are
/// ever enqueued per side).
pub open spec fn spec_fill_loop(pass: Seq<bool>, st: FillState, fuel: nat) -> FillState
    decreases fuel,
{
    if fuel == 0 || st.qh1 >= st.q1.len() {
        st
    } else {
        spec_fill_loop(pass, spec_outer(pass, st), (fuel - 1) as nat)
    }
}

/// One iteration of the drain: the second side finishes its frontier.
pub open spec fn spec_drain_step(pass: Seq<bool>, st: FillState) -> FillState {
    let node = st.q2[st.qh2];
    let r2 = spec_probes4(pass, st.d2, st.d1, st.q2, node.0 as int, node.1 as int, 0);
    FillState { d2: r2.0, q2: r2.1, qh2: st.qh2 + 1, ..st }
}

/// The drain loop, run to quiescence of the second frontier.
pub open spec fn spec_drain_loop(pass: Seq<bool>, st: FillState, fuel: nat) -> FillState
    decreases fuel,
{
    if fuel == 0 || st.qh2 >= st.q2.len() {
        st
    } else {
        spec_drain_loop(pass, spec_drain_step(pass, st), (fuel - 1) as nat)
    }
}

/// A sentinel-filled grid with one zero source cell.
pub open spec fn fresh_grid(sx: int, sy: int) -> Seq<i32> {
    Seq::new(
        GRID_CELLS as nat,
        |i: int|
            if i == sx * GRID_SIDE as int + sy {
                0i32
            } else {
                UNREACHED
            },
    )
}

/// The whole dual-source fill as a function of the passability mask
/// and the two source cells: exactly what `bfs` computes.
pub open spec fn fill_model(pass: Seq<bool>, s1x: int, s1y: int, s2x: int, s2y: int) -> (
    Seq<i32>,
    Seq<i32>,
) {
    let st0 = FillState {
        d1: fresh_grid(s1x, s1y),
        d2: fresh_grid(s2x, s2y),
        q1: seq![(s1x as usize, s1y as usize)],
        qh1: 0,
        q2: seq![(s2x as usize, s2y as usize)],
        qh2: 0,
    };
    let st1 = spec_fill_loop(pass, st0, 1000);
    let st2 = spec_drain_loop(pass, st1, 1000);
    (st2.d1, st2.d2)
}

/// The evaluator, as a function of the board alone: the territory
/// split of the fill the code runs — from the two heads over the
/// board's passability — plus the health and length terms.
pub open spec fn eval_spec(b: crate::board::BoardV, si: int, ei: int) -> int {
    let p = passable_seq(b);
    let grids = fill_model(
        p,
        b.snakes[si].head.x as int,
        b.snakes[si].head.y as int,
        b.snakes[ei].head.x as int,
        b.snakes[ei].head.y as int,
    );
    territory_sum(p, grids.0, grids.1, b.snakes[si].length, b.snakes[ei].length, GRID_CELLS as int)
        + health_term(b.snakes[si].health) + length_term(
        b.snakes[si].length,
        b.snakes[ei].length,
    )
}

/// The two territory counts of the recorder, as a function of the
/// board alone: the same fill, counted instead of summed.
pub open spec fn round_counts_spec(b: crate::board::BoardV, si: int, ei: int) -> (int, int) {
    let p = passable_seq(b);
    let grids = fill_model(
        p,
        b.snakes[si].head.x as int,
        b.snakes[si].head.y as int,
        b.snakes[ei].head.x as int,
        b.snakes[ei].head.y as int,
    );
    territory_counts_spec(
        p,
        grids.0,
        grids.1,
        b.snakes[si].length,
        b.snakes[ei].length,
        GRID_CELLS as int,
    )
}

/// Once every claimed cell descends to a neighbour, claiming more
/// cells (each itself descending) keeps it so: claimed values never
/// change, so old witnesses stand.
proof fn lemma_gradient_preserved(dpre: Seq<i32>, dpost: Seq<i32>, src: int)
    requires
        dist_grid_ok(dpre),
        dist_grid_ok(dpost),
        forall|i: int|
            0 <= i < GRID_CELLS && dpre[i] != UNREACHED ==> #[trigger] dpost[i] == dpre[i],
        forall|x: int, y: int|
            0 <= x < GRID_SIDE && 0 <= y < GRID_SIDE && #[trigger] dpost[cell_idx(
                GRID_SIDE as int,
                x,
                y,
            )] != dpre[cell_idx(GRID_SIDE as int, x, y)] ==> gradient_back(dpost, x, y),
        forall|x: int, y: int|
            0 <= x < GRID_SIDE && 0 <= y < GRID_SIDE && cell_idx(GRID_SIDE as int, x, y) != src
                && #[trigger] dpre[cell_idx(GRID_SIDE as int, x, y)] != UNREACHED
                ==> gradient_back(dpre, x, y),
    ensures
        forall|x: int, y: int|
            0 <= x < GRID_SIDE && 0 <= y < GRID_SIDE && cell_idx(GRID_SIDE as int, x, y) != src
                && #[trigger] dpost[cell_idx(GRID_SIDE as int, x, y)] != UNREACHED
                ==> gradient_back(dpost, x, y),
{
    lemma_count_unset_bounds(dpre, GRID_CELLS as int);
    assert forall|x: int, y: int|
        0 <= x < GRID_SIDE && 0 <= y < GRID_SIDE && cell_idx(GRID_SIDE as int, x, y) != src
            && #[trigger] dpost[cell_idx(GRID_SIDE as int, x, y)] != UNREACHED implies gradient_back(
        dpost,
        x,
        y,
    ) by {
        let ci = cell_idx(GRID_SIDE as int, x, y);
        if dpost[ci] == dpre[ci] {
            assert(gradient_back(dpre, x, y));
            let v: i32 = dpre[ci];
            assert(v != UNREACHED && v <= GRID_CELLS);
            if x + 1 < GRID_SIDE && dpre[cell_idx(GRID_SIDE as int, x + 1, y)] == v - 1 {
                assert(dpost[cell_idx(GRID_SIDE as int, x + 1, y)] == dpre[cell_idx(
                    GRID_SIDE as int,
                    x + 1,
                    y,
                )]);
            } else if 0 <= x - 1 && dpre[cell_idx(GRID_SIDE as int, x - 1, y)] == v - 1 {
                assert(dpost[cell_idx(GRID_SIDE as int, x - 1, y)] == dpre[cell_idx(
                    GRID_SIDE as int,
                    x - 1,
                    y,
                )]);
            } else if y + 1 < GRID_SIDE && dpre[cell_idx(GRID_SIDE as int, x, y + 1)] == v - 1 {
                assert(dpost[cell_idx(GRID_SIDE as int, x, y + 1)] == dpre[cell_idx(
                    GRID_SIDE as int,
                    x,
                    y + 1,
                )]);
            } else {
                assert(0 <= y - 1 && dpre[cell_idx(GRID_SIDE as int, x, y - 1)] == v - 1);
                assert(dpost[cell_idx(GRID_SIDE as int, x, y - 1)] == dpre[cell_idx(
                    GRID_SIDE as int,
                    x,
                    y - 1,
                )]);
            }
            assert(gradient_back(dpost, x, y));
        }
    }
}

/// One probe of the flood fill: claims the single neighbour of
/// `(x, y)` in direction `(dx, dy)` if it is on the grid, passable and
/// unclaimed, at one more step than `(x, y)`; the claimed cell joins
/// this side's frontier only if the other side has not claimed it
/// strictly sooner.
fn bfs_step(
    pass: &Vec<bool>,
    dmine: &mut Vec<i32>,
    dother: &Vec<i32>,
    q: &mut Vec<(usize, usize)>,
    x: usize,
    y: usize,
    dx: i32,
    dy: i32,
) -> (grown: usize)
    requires
        pass@.len() == GRID_CELLS,
        dist_grid_ok(old(dmine)@),
        dother@.len() == GRID_CELLS,
        queue_ok(old(q)@, old(dmine)@),
        x < GRID_SIDE,
        y < GRID_SIDE,
        -1 <= dx as int <= 1,
        -1 <= dy as int <= 1,
        (dx as int) * (dx as int) + (dy as int) * (dy as int) == 1,
        old(dmine)@[x as int * GRID_SIDE as int + y as int] != UNREACHED,
    ensures
        dist_grid_ok(final(dmine)@),
        queue_ok(final(q)@, final(dmine)@),
        final(q)@.len() == old(q)@.len() + grown,
        grown <= count_unset(old(dmine)@, GRID_CELLS as int) - count_unset(
            final(dmine)@,
            GRID_CELLS as int,
        ),
        count_unset(final(dmine)@, GRID_CELLS as int) <= count_unset(
            old(dmine)@,
            GRID_CELLS as int,
        ),
        final(q)@.take(old(q)@.len() as int) == old(q)@,
        forall|i: int|
            0 <= i < old(dmine)@.len() && old(dmine)@[i] != UNREACHED
                ==> #[trigger] final(dmine)@[i] == old(dmine)@[i],
        forall|i: int|
            0 <= i < old(dmine)@.len() && !pass@[i]
                ==> #[trigger] final(dmine)@[i] == old(dmine)@[i],
        forall|i: int|
            0 <= i < old(dmine)@.len() ==> (#[trigger] final(dmine)@[i] == old(dmine)@[i]
                || final(dmine)@[i] >= 1),
        forall|x2: int, y2: int|
            0 <= x2 < GRID_SIDE && 0 <= y2 < GRID_SIDE && #[trigger] final(dmine)@[cell_idx(
                GRID_SIDE as int,
                x2,
                y2,
            )] != old(dmine)@[cell_idx(GRID_SIDE as int, x2, y2)] ==> gradient_back(
                final(dmine)@,
                x2,
                y2,
            ),
        (final(dmine)@, final(q)@) == spec_probe(
            pass@,
            old(dmine)@,
            dother@,
            old(q)@,
            x as int,
            y as int,
            dx as int,
            dy as int,
        ),
{
    let ghost dm0 = dmine@;
    let ghost q0 = q@;
    let nx = x as i32 + dx;
    let ny = y as i32 + dy;
    let mut grown: usize = 0;
    if 0 <= nx && nx < GRID_SIDE as i32 && 0 <= ny && ny < GRID_SIDE as i32 {
        let nxu = nx as usize;
        let nyu = ny as usize;
        let ni = nxu * GRID_SIDE + nyu;
        let ci = x * GRID_SIDE + y;
        if pass[ni] && dmine[ni] == UNREACHED {
            let ghost dprev = dmine@;
            let base = dmine[ci];
            proof {
                lemma_count_unset_bounds(dprev, GRID_CELLS as int);
                lemma_count_unset_update(dprev, GRID_CELLS as int, ni as int, (base + 1) as i32);
            }
            dmine[ni] = base + 1;
            proof {
                lemma_count_unset_bounds(dmine@, GRID_CELLS as int);
                assert forall|i: int|
                    0 <= i < dm0.len() && dm0[i] != UNREACHED implies #[trigger] dmine@[i]
                    == dm0[i] by {
                    if i != ni as int {
                        assert(dmine@[i] == dprev[i]);
                    }
                }
                assert forall|i: int|
                    0 <= i < dm0.len() && !pass@[i] implies #[trigger] dmine@[i] == dm0[i] by {
                    if i != ni as int {
                        assert(dmine@[i] == dprev[i]);
                    }
                }
            }
            proof {
                let nxi: int = nxu as int;
                let nyi: int = nyu as int;
                assert forall|x2: int, y2: int|
                    0 <= x2 < GRID_SIDE && 0 <= y2 < GRID_SIDE && #[trigger] dmine@[cell_idx(
                        GRID_SIDE as int,
                        x2,
                        y2,
                    )] != dm0[cell_idx(GRID_SIDE as int, x2, y2)] implies gradient_back(
                    dmine@,
                    x2,
                    y2,
                ) by {
                    if cell_idx(GRID_SIDE as int, x2, y2) != ni as int {
                        assert(dmine@[cell_idx(GRID_SIDE as int, x2, y2)] == dprev[cell_idx(
                            GRID_SIDE as int,
                            x2,
                            y2,
                        )]);
                    } else {
                        assert(x2 * 11 + y2 == nxi * 11 + nyi);
                        assert(x2 == nxi && y2 == nyi) by (nonlinear_arith)
                            requires
                                x2 * 11 + y2 == nxi * 11 + nyi,
                                0 <= y2 < 11,
                                0 <= nyi < 11,
                        ;
                        let ci_i: int = x as int * GRID_SIDE as int + y as int;
                        assert(ci_i != ni as int);
                        assert(dmine@[ci_i] == dprev[ci_i]);
                        assert(dmine@[cell_idx(GRID_SIDE as int, x2, y2)] == base + 1);
                        if dx == 1 || dx == -1 {
                            let dxi: int = dx as int;
                            let dyi: int = dy as int;
                            assert(dyi == 0) by (nonlinear_arith)
                                requires
                                    dxi * dxi + dyi * dyi == 1,
                                    dxi == 1 || dxi == -1,
                                    -1 <= dyi <= 1,
                            ;
                        }
                        if dx == 1 {
                            assert(0 <= x2 - 1 && dmine@[cell_idx(GRID_SIDE as int, x2 - 1, y2)]
                                == base);
                        } else if dx == -1 {
                            assert(x2 + 1 < GRID_SIDE && dmine@[cell_idx(
                                GRID_SIDE as int,
                                x2 + 1,
                                y2,
                            )] == base);
                        } else if dy == 1 {
                            assert(0 <= y2 - 1 && dmine@[cell_idx(GRID_SIDE as int, x2, y2 - 1)]
                                == base);
                        } else {
                            assert(dy == -1);
                            assert(y2 + 1 < GRID_SIDE && dmine@[cell_idx(
                                GRID_SIDE as int,
                                x2,
                                y2 + 1,
                            )] == base);
                        }
                        assert(gradient_back(dmine@, x2, y2));
                    }
                }
            }
            if dmine[ni] <= dother[ni] {
                q.push((nxu, nyu));
                grown = 1;
                proof {
                    assert(q@.take(q0.len() as int) =~= q0);
                }
            }
        }
    }
    proof {
        assert(q@.take(q0.len() as int) =~= q0);
        let r = spec_probe(pass@, dm0, dother@, q0, x as int, y as int, dx as int, dy as int);
        assert(dmine@ =~= r.0);
        assert(q@ =~= r.1);
    }
    grown
}

/// The running size of both frontiers and both unclaimed-cell counts:
/// the fill's fuel.
pub open spec fn bfs_measure(
    q1: Seq<(usize, usize)>,
    qh1: int,
    q2: Seq<(usize, usize)>,
    qh2: int,
    d1: Seq<i32>,
    d2: Seq<i32>,
) -> int {
    (q1.len() - qh1) + (q2.len() - qh2) + count_unset(d1, GRID_CELLS as int) + count_unset(
        d2,
        GRID_CELLS as int,
    )
}

/// The dual-source flood fill: both heads race over the passable
/// cells, each side expanding only into cells the other has not
/// already claimed at a strictly better distance, with the second
/// side's frontier advanced in step with the first's probes. Every
/// cell ends at the sentinel or at a step count of at most the arena
/// size; cells that are not passable are never claimed (beyond the
/// start cells themselves).
pub fn bfs(pass: &Vec<bool>, start_x_1: usize, start_y_1: usize, start_x_2: usize, start_y_2: usize) -> (r: (
    Vec<i32>,
    Vec<i32>,
))
    requires
        pass@.len() == GRID_CELLS,
        start_x_1 < GRID_SIDE,
        start_y_1 < GRID_SIDE,
        start_x_2 < GRID_SIDE,
        start_y_2 < GRID_SIDE,
    ensures
        (r.0@, r.1@) == fill_model(
            pass@,
            start_x_1 as int,
            start_y_1 as int,
            start_x_2 as int,
            start_y_2 as int,
        ),
        r.0@.len() == GRID_CELLS,
        r.1@.len() == GRID_CELLS,
        r.0@[start_x_1 as int * GRID_SIDE as int + start_y_1 as int] == 0,
        r.1@[start_x_2 as int * GRID_SIDE as int + start_y_2 as int] == 0,
        forall|i: int|
            0 <= i < GRID_CELLS && i != start_x_1 as int * GRID_SIDE as int + start_y_1 as int ==> (
            #[trigger] r.0@[i] == UNREACHED || (1 <= r.0@[i] && r.0@[i] <= GRID_CELLS)),
        forall|i: int|
            0 <= i < GRID_CELLS && i != start_x_2 as int * GRID_SIDE as int + start_y_2 as int ==> (
            #[trigger] r.1@[i] == UNREACHED || (1 <= r.1@[i] && r.1@[i] <= GRID_CELLS)),
        forall|i: int|
            0 <= i < GRID_CELLS && !pass@[i] && i != start_x_1 as int * GRID_SIDE as int
                + start_y_1 as int ==> #[trigger] r.0@[i] == UNREACHED,
        forall|i: int|
            0 <= i < GRID_CELLS && !pass@[i] && i != start_x_2 as int * GRID_SIDE as int
                + start_y_2 as int ==> #[trigger] r.1@[i] == UNREACHED,
        forall|x: int, y: int|
            0 <= x < GRID_SIDE && 0 <= y < GRID_SIDE && cell_idx(GRID_SIDE as int, x, y)
                != start_x_1 as int * GRID_SIDE as int + start_y_1 as int && #[trigger] r.0@[cell_idx(
                GRID_SIDE as int,
                x,
                y,
            )] != UNREACHED ==> gradient_back(r.0@, x, y),
        forall|x: int, y: int|
            0 <= x < GRID_SIDE && 0 <= y < GRID_SIDE && cell_idx(GRID_SIDE as int, x, y)
                != start_x_2 as int * GRID_SIDE as int + start_y_2 as int && #[trigger] r.1@[cell_idx(
                GRID_SIDE as int,
                x,
                y,
            )] != UNREACHED ==> gradient_back(r.1@, x, y),
{
    let ghost i1: int = start_x_1 as int * GRID_SIDE as int + start_y_1 as int;
    let ghost i2: int = start_x_2 as int * GRID_SIDE as int + start_y_2 as int;
    let mut d1 = fresh_distances(start_x_1, start_y_1);
    let mut d2 = fresh_distances(start_x_2, start_y_2);
    let mut q1: Vec<(usize, usize)> = Vec::new();
    let mut q2: Vec<(usize, usize)> = Vec::new();
    q1.push((start_x_1, start_y_1));
    q2.push((start_x_2, start_y_2));
    let mut qh1: usize = 0;
    let mut qh2: usize = 0;
    let ghost st0: FillState = FillState {
        d1: fresh_grid(start_x_1 as int, start_y_1 as int),
        d2: fresh_grid(start_x_2 as int, start_y_2 as int),
        q1: seq![(start_x_1, start_y_1)],
        qh1: 0,
        q2: seq![(start_x_2, start_y_2)],
        qh2: 0,
    };
    proof {
        assert(d1@ =~= st0.d1);
        assert(d2@ =~= st0.d2);
        assert(q1@ =~= st0.q1);
        assert(q2@ =~= st0.q2);
    }
    let ghost mut fl: nat = 1000;
    while qh1 < q1.len()
        invariant
            pass@.len() == GRID_CELLS,
            i1 == start_x_1 as int * GRID_SIDE as int + start_y_1 as int,
            i2 == start_x_2 as int * GRID_SIDE as int + start_y_2 as int,
            0 <= i1 < GRID_CELLS,
            0 <= i2 < GRID_CELLS,
            dist_grid_ok(d1@),
            dist_grid_ok(d2@),
            queue_ok(q1@, d1@),
            queue_ok(q2@, d2@),
            qh1 <= q1@.len(),
            qh2 <= q2@.len(),
            q1@.len() + count_unset(d1@, GRID_CELLS as int) <= 121,
            q2@.len() + count_unset(d2@, GRID_CELLS as int) <= 121,
            d1@[i1] == 0,
            d2@[i2] == 0,
            forall|i: int|
                0 <= i < GRID_CELLS && i != i1 ==> (#[trigger] d1@[i] == UNREACHED || d1@[i] >= 1),
            forall|i: int|
                0 <= i < GRID_CELLS && i != i2 ==> (#[trigger] d2@[i] == UNREACHED || d2@[i] >= 1),
            forall|i: int|
                0 <= i < GRID_CELLS && !pass@[i] && i != i1 ==> #[trigger] d1@[i] == UNREACHED,
            forall|i: int|
                0 <= i < GRID_CELLS && !pass@[i] && i != i2 ==> #[trigger] d2@[i] == UNREACHED,
            forall|x: int, y: int|
                0 <= x < GRID_SIDE && 0 <= y < GRID_SIDE && cell_idx(GRID_SIDE as int, x, y) != i1
                    && #[trigger] d1@[cell_idx(GRID_SIDE as int, x, y)] != UNREACHED
                    ==> gradient_back(d1@, x, y),
            forall|x: int, y: int|
                0 <= x < GRID_SIDE && 0 <= y < GRID_SIDE && cell_idx(GRID_SIDE as int, x, y) != i2
                    && #[trigger] d2@[cell_idx(GRID_SIDE as int, x, y)] != UNREACHED
                    ==> gradient_back(d2@, x, y),
            fl <= 1000,
            fl >= bfs_measure(q1@, qh1 as int, q2@, qh2 as int, d1@, d2@) + 1,
            spec_fill_loop(
                pass@,
                FillState {
                    d1: d1@,
                    d2: d2@,
                    q1: q1@,
                    qh1: qh1 as int,
                    q2: q2@,
                    qh2: qh2 as int,
                },
                fl,
            ) == spec_fill_loop(pass@, st0, 1000),
        decreases bfs_measure(q1@, qh1 as int, q2@, qh2 as int, d1@, d2@),
    {
        proof {
            lemma_count_unset_bounds(d1@, GRID_CELLS as int);
            lemma_count_unset_bounds(d2@, GRID_CELLS as int);
        }
        let ghost stb: FillState = FillState {
            d1: d1@,
            d2: d2@,
            q1: q1@,
            qh1: qh1 as int,
            q2: q2@,
            qh2: qh2 as int,
        };
        let ghost flb: nat = fl;
        let ghost m0: int = bfs_measure(q1@, qh1 as int + 1, q2@, qh2 as int, d1@, d2@);
        let (x1, y1) = q1[qh1];
        qh1 = qh1 + 1;
        let ghost stp: FillState = FillState { qh1: qh1 as int, ..stb };
        let mut dirs: Vec<(i32, i32)> = Vec::new();
        dirs.push((0, 1));
        dirs.push((0, -1));
        dirs.push((1, 0));
        dirs.push((-1, 0));
        proof {
            assert(dirs@ =~= seq![(0i32, 1i32), (0i32, -1i32), (1i32, 0i32), (-1i32, 0i32)]);
        }
        let mut t: usize = 0;
        while t < 4
            invariant
                pass@.len() == GRID_CELLS,
                i1 == start_x_1 as int * GRID_SIDE as int + start_y_1 as int,
                i2 == start_x_2 as int * GRID_SIDE as int + start_y_2 as int,
                0 <= i1 < GRID_CELLS,
                0 <= i2 < GRID_CELLS,
                dirs@.len() == 4,
                dirs@ == seq![(0i32, 1i32), (0i32, -1i32), (1i32, 0i32), (-1i32, 0i32)],
                x1 < GRID_SIDE,
                y1 < GRID_SIDE,
                t <= 4,
                dist_grid_ok(d1@),
                dist_grid_ok(d2@),
                queue_ok(q1@, d1@),
                queue_ok(q2@, d2@),
                qh1 <= q1@.len(),
                qh2 <= q2@.len(),
                q1@.len() + count_unset(d1@, GRID_CELLS as int) <= 121,
                q2@.len() + count_unset(d2@, GRID_CELLS as int) <= 121,
                d1@[x1 as int * GRID_SIDE as int + y1 as int] != UNREACHED,
                d1@[i1] == 0,
                d2@[i2] == 0,
                forall|i: int|
                    0 <= i < GRID_CELLS && i != i1 ==> (#[trigger] d1@[i] == UNREACHED || d1@[i] >= 1),
                forall|i: int|
                    0 <= i < GRID_CELLS && i != i2 ==> (#[trigger] d2@[i] == UNREACHED || d2@[i] >= 1),
                forall|i: int|
                    0 <= i < GRID_CELLS && !pass@[i] && i != i1 ==> #[trigger] d1@[i] == UNREACHED,
                forall|i: int|
                    0 <= i < GRID_CELLS && !pass@[i] && i != i2 ==> #[trigger] d2@[i] == UNREACHED,
                forall|x: int, y: int|
                    0 <= x < GRID_SIDE && 0 <= y < GRID_SIDE && cell_idx(GRID_SIDE as int, x, y) != i1
                        && #[trigger] d1@[cell_idx(GRID_SIDE as int, x, y)] != UNREACHED
                        ==> gradient_back(d1@, x, y),
                forall|x: int, y: int|
                    0 <= x < GRID_SIDE && 0 <= y < GRID_SIDE && cell_idx(GRID_SIDE as int, x, y) != i2
                        && #[trigger] d2@[cell_idx(GRID_SIDE as int, x, y)] != UNREACHED
                        ==> gradient_back(d2@, x, y),
                bfs_measure(q1@, qh1 as int, q2@, qh2 as int, d1@, d2@) <= m0,
                spec_side1_dirs(
                    pass@,
                    FillState {
                        d1: d1@,
                        d2: d2@,
                        q1: q1@,
                        qh1: qh1 as int,
                        q2: q2@,
                        qh2: qh2 as int,
                    },
                    x1 as int,
                    y1 as int,
                    t as int,
                ) == spec_side1_dirs(pass@, stp, x1 as int, y1 as int, 0),
            decreases 4 - t,
        {
            let ghost stt: FillState = FillState {
                d1: d1@,
                d2: d2@,
                q1: q1@,
                qh1: qh1 as int,
                q2: q2@,
                qh2: qh2 as int,
            };
            let (dx, dy) = dirs[t];
            proof {
                if t == 0 {
                } else if t == 1 {
                } else if t == 2 {
                } else {
                    assert(t == 3);
                }
                assert((dx as int, dy as int) == dir_of(t as int));
            }
            let ghost mpre: int = bfs_measure(q1@, qh1 as int, q2@, qh2 as int, d1@, d2@);
            let ghost dpre1: Seq<i32> = d1@;
            let g1 = bfs_step(pass, &mut d1, &d2, &mut q1, x1, y1, dx, dy);
            proof {
                assert(bfs_measure(q1@, qh1 as int, q2@, qh2 as int, d1@, d2@) <= mpre);
                lemma_gradient_preserved(dpre1, d1@, i1);
            }
            let ghost st1: FillState = FillState { d1: d1@, q1: q1@, ..stt };
            if qh2 < q2.len() {
                let (x2, y2) = q2[qh2];
                qh2 = qh2 + 1;
                let ghost d2s: Seq<i32> = d2@;
                let ghost q2s: Seq<(usize, usize)> = q2@;
                let mut t2: usize = 0;
                while t2 < 4
                    invariant
                        pass@.len() == GRID_CELLS,
                        i1 == start_x_1 as int * GRID_SIDE as int + start_y_1 as int,
                        i2 == start_x_2 as int * GRID_SIDE as int + start_y_2 as int,
                        0 <= i1 < GRID_CELLS,
                        0 <= i2 < GRID_CELLS,
                        dirs@.len() == 4,
                        dirs@ == seq![(0i32, 1i32), (0i32, -1i32), (1i32, 0i32), (-1i32, 0i32)],
                        x2 < GRID_SIDE,
                        y2 < GRID_SIDE,
                        x1 < GRID_SIDE,
                        y1 < GRID_SIDE,
                        t2 <= 4,
                        dist_grid_ok(d1@),
                        dist_grid_ok(d2@),
                        queue_ok(q1@, d1@),
                        queue_ok(q2@, d2@),
                        qh1 <= q1@.len(),
                        qh2 <= q2@.len(),
                        q1@.len() + count_unset(d1@, GRID_CELLS as int) <= 121,
                        q2@.len() + count_unset(d2@, GRID_CELLS as int) <= 121,
                        d2@[x2 as int * GRID_SIDE as int + y2 as int] != UNREACHED,
                        d1@[x1 as int * GRID_SIDE as int + y1 as int] != UNREACHED,
                        d1@[i1] == 0,
                        d2@[i2] == 0,
                        forall|i: int|
                            0 <= i < GRID_CELLS && i != i1 ==> (#[trigger] d1@[i] == UNREACHED
                                || d1@[i] >= 1),
                        forall|i: int|
                            0 <= i < GRID_CELLS && i != i2 ==> (#[trigger] d2@[i] == UNREACHED
                                || d2@[i] >= 1),
                        forall|i: int|
                            0 <= i < GRID_CELLS && !pass@[i] && i != i1 ==> #[trigger] d1@[i]
                                == UNREACHED,
                        forall|i: int|
                            0 <= i < GRID_CELLS && !pass@[i] && i != i2 ==> #[trigger] d2@[i]
                                == UNREACHED,
                        forall|x: int, y: int|
                            0 <= x < GRID_SIDE && 0 <= y < GRID_SIDE && cell_idx(GRID_SIDE as int, x, y) != i1
                                && #[trigger] d1@[cell_idx(GRID_SIDE as int, x, y)] != UNREACHED
                                ==> gradient_back(d1@, x, y),
                        forall|x: int, y: int|
                            0 <= x < GRID_SIDE && 0 <= y < GRID_SIDE && cell_idx(GRID_SIDE as int, x, y) != i2
                                && #[trigger] d2@[cell_idx(GRID_SIDE as int, x, y)] != UNREACHED
                                ==> gradient_back(d2@, x, y),
                        bfs_measure(q1@, qh1 as int, q2@, qh2 as int, d1@, d2@) <= m0,
                        d1@ == st1.d1,
                        q1@ == st1.q1,
                        spec_probes4(
                            pass@,
                            d2@,
                            d1@,
                            q2@,
                            x2 as int,
                            y2 as int,
                            t2 as int,
                        ) == spec_probes4(pass@, d2s, st1.d1, q2s, x2 as int, y2 as int, 0),
                    decreases 4 - t2,
                {
                    let (dx2, dy2) = dirs[t2];
                    proof {
                        if t2 == 0 {
                        } else if t2 == 1 {
                        } else if t2 == 2 {
                        } else {
                            assert(t2 == 3);
                        }
                        assert((dx2 as int, dy2 as int) == dir_of(t2 as int));
                    }
                    let ghost mpre2: int = bfs_measure(q1@, qh1 as int, q2@, qh2 as int, d1@, d2@);
                    let ghost dpre2: Seq<i32> = d2@;
                    let g2 = bfs_step(pass, &mut d2, &d1, &mut q2, x2, y2, dx2, dy2);
                    proof {
                        assert(bfs_measure(q1@, qh1 as int, q2@, qh2 as int, d1@, d2@) <= mpre2);
                        lemma_gradient_preserved(dpre2, d2@, i2);
                    }
                    t2 = t2 + 1;
                }
            }
            proof {
                assert(FillState {
                    d1: d1@,
                    d2: d2@,
                    q1: q1@,
                    qh1: qh1 as int,
                    q2: q2@,
                    qh2: qh2 as int,
                } =~= spec_side1_probe(pass@, stt, x1 as int, y1 as int, t as int));
            }
            t = t + 1;
        }
        proof {
            lemma_count_unset_bounds(d1@, GRID_CELLS as int);
            lemma_count_unset_bounds(d2@, GRID_CELLS as int);
            assert(stp =~= (FillState { qh1: stb.qh1 + 1, ..stb }));
            assert(stb.q1[stb.qh1] == (x1, y1));
            assert(FillState {
                d1: d1@,
                d2: d2@,
                q1: q1@,
                qh1: qh1 as int,
                q2: q2@,
                qh2: qh2 as int,
            } == spec_outer(pass@, stb));
            assert(spec_fill_loop(pass@, stb, flb) == spec_fill_loop(
                pass@,
                spec_outer(pass@, stb),
                (flb - 1) as nat,
            ));
            fl = (fl - 1) as nat;
        }
    }
    let ghost st_mid: FillState = FillState {
        d1: d1@,
        d2: d2@,
        q1: q1@,
        qh1: qh1 as int,
        q2: q2@,
        qh2: qh2 as int,
    };
    proof {
        assert(spec_fill_loop(pass@, st_mid, fl) == st_mid);
        assert(st_mid == spec_fill_loop(pass@, st0, 1000));
        lemma_count_unset_bounds(d1@, GRID_CELLS as int);
        lemma_count_unset_bounds(d2@, GRID_CELLS as int);
    }
    let ghost mut fl2: nat = 1000;
    while qh2 < q2.len()
        invariant
            pass@.len() == GRID_CELLS,
            i1 == start_x_1 as int * GRID_SIDE as int + start_y_1 as int,
            i2 == start_x_2 as int * GRID_SIDE as int + start_y_2 as int,
            0 <= i1 < GRID_CELLS,
            0 <= i2 < GRID_CELLS,
            dist_grid_ok(d1@),
            dist_grid_ok(d2@),
            queue_ok(q1@, d1@),
            queue_ok(q2@, d2@),
            qh1 <= q1@.len(),
            qh2 <= q2@.len(),
            q1@.len() + count_unset(d1@, GRID_CELLS as int) <= 121,
            q2@.len() + count_unset(d2@, GRID_CELLS as int) <= 121,
            d1@[i1] == 0,
            d2@[i2] == 0,
            forall|i: int|
                0 <= i < GRID_CELLS && i != i1 ==> (#[trigger] d1@[i] == UNREACHED || d1@[i] >= 1),
            forall|i: int|
                0 <= i < GRID_CELLS && i != i2 ==> (#[trigger] d2@[i] == UNREACHED || d2@[i] >= 1),
            forall|i: int|
                0 <= i < GRID_CELLS && !pass@[i] && i != i1 ==> #[trigger] d1@[i] == UNREACHED,
            forall|i: int|
                0 <= i < GRID_CELLS && !pass@[i] && i != i2 ==> #[trigger] d2@[i] == UNREACHED,
            forall|x: int, y: int|
                0 <= x < GRID_SIDE && 0 <= y < GRID_SIDE && cell_idx(GRID_SIDE as int, x, y) != i1
                    && #[trigger] d1@[cell_idx(GRID_SIDE as int, x, y)] != UNREACHED
                    ==> gradient_back(d1@, x, y),
            forall|x: int, y: int|
                0 <= x < GRID_SIDE && 0 <= y < GRID_SIDE && cell_idx(GRID_SIDE as int, x, y) != i2
                    && #[trigger] d2@[cell_idx(GRID_SIDE as int, x, y)] != UNREACHED
                    ==> gradient_back(d2@, x, y),
            fl2 <= 1000,
            fl2 >= bfs_measure(q1@, 0, q2@, qh2 as int, d1@, d2@) + 1,
            spec_drain_loop(
                pass@,
                FillState {
                    d1: d1@,
                    d2: d2@,
                    q1: q1@,
                    qh1: qh1 as int,
                    q2: q2@,
                    qh2: qh2 as int,
                },
                fl2,
            ) == spec_drain_loop(pass@, st_mid, 1000),
            qh1 as int == st_mid.qh1,
        decreases bfs_measure(q1@, 0, q2@, qh2 as int, d1@, d2@),
    {
        proof {
            lemma_count_unset_bounds(d1@, GRID_CELLS as int);
            lemma_count_unset_bounds(d2@, GRID_CELLS as int);
        }
        let ghost stb: FillState = FillState {
            d1: d1@,
            d2: d2@,
            q1: q1@,
            qh1: qh1 as int,
            q2: q2@,
            qh2: qh2 as int,
        };
        let ghost flb: nat = fl2;
        let ghost m0: int = bfs_measure(q1@, 0, q2@, qh2 as int + 1, d1@, d2@);
        let (x2, y2) = q2[qh2];
        qh2 = qh2 + 1;
        let ghost d2s: Seq<i32> = d2@;
        let ghost q2s: Seq<(usize, usize)> = q2@;
        let mut dirs: Vec<(i32, i32)> = Vec::new();
        dirs.push((0, 1));
        dirs.push((0, -1));
        dirs.push((1, 0));
        dirs.push((-1, 0));
        proof {
            assert(dirs@ =~= seq![(0i32, 1i32), (0i32, -1i32), (1i32, 0i32), (-1i32, 0i32)]);
        }
        let mut t2: usize = 0;
        while t2 < 4
            invariant
                pass@.len() == GRID_CELLS,
                i1 == start_x_1 as int * GRID_SIDE as int + start_y_1 as int,
                i2 == start_x_2 as int * GRID_SIDE as int + start_y_2 as int,
                0 <= i1 < GRID_CELLS,
                0 <= i2 < GRID_CELLS,
                dirs@.len() == 4,
                dirs@ == seq![(0i32, 1i32), (0i32, -1i32), (1i32, 0i32), (-1i32, 0i32)],
                x2 < GRID_SIDE,
                y2 < GRID_SIDE,
                t2 <= 4,
                dist_grid_ok(d1@),
                dist_grid_ok(d2@),
                queue_ok(q1@, d1@),
                queue_ok(q2@, d2@),
                qh2 <= q2@.len(),
                q1@.len() + count_unset(d1@, GRID_CELLS as int) <= 121,
                q2@.len() + count_unset(d2@, GRID_CELLS as int) <= 121,
                d2@[x2 as int * GRID_SIDE as int + y2 as int] != UNREACHED,
                d1@[i1] == 0,
                d2@[i2] == 0,
                forall|i: int|
                    0 <= i < GRID_CELLS && i != i1 ==> (#[trigger] d1@[i] == UNREACHED || d1@[i] >= 1),
                forall|i: int|
                    0 <= i < GRID_CELLS && i != i2 ==> (#[trigger] d2@[i] == UNREACHED || d2@[i] >= 1),
                forall|i: int|
                    0 <= i < GRID_CELLS && !pass@[i] && i != i1 ==> #[trigger] d1@[i] == UNREACHED,
                forall|i: int|
                    0 <= i < GRID_CELLS && !pass@[i] && i != i2 ==> #[trigger] d2@[i] == UNREACHED,
                forall|x: int, y: int|
                    0 <= x < GRID_SIDE && 0 <= y < GRID_SIDE && cell_idx(GRID_SIDE as int, x, y) != i1
                        && #[trigger] d1@[cell_idx(GRID_SIDE as int, x, y)] != UNREACHED
                        ==> gradient_back(d1@, x, y),
                forall|x: int, y: int|
                    0 <= x < GRID_SIDE && 0 <= y < GRID_SIDE && cell_idx(GRID_SIDE as int, x, y) != i2
                        && #[trigger] d2@[cell_idx(GRID_SIDE as int, x, y)] != UNREACHED
                        ==> gradient_back(d2@, x, y),
                bfs_measure(q1@, 0, q2@, qh2 as int, d1@, d2@) <= m0,
                d1@ == stb.d1,
                q1@ == stb.q1,
                qh1 as int == stb.qh1,
                spec_probes4(
                    pass@,
                    d2@,
                    d1@,
                    q2@,
                    x2 as int,
                    y2 as int,
                    t2 as int,
                ) == spec_probes4(pass@, d2s, stb.d1, q2s, x2 as int, y2 as int, 0),
            decreases 4 - t2,
        {
            let (dx2, dy2) = dirs[t2];
            proof {
                if t2 == 0 {
                } else if t2 == 1 {
                } else if t2 == 2 {
                } else {
                    assert(t2 == 3);
                }
                assert((dx2 as int, dy2 as int) == dir_of(t2 as int));
            }
            let ghost mpre2: int = bfs_measure(q1@, 0, q2@, qh2 as int, d1@, d2@);
            let ghost dpre2: Seq<i32> = d2@;
            let g2 = bfs_step(pass, &mut d2, &d1, &mut q2, x2, y2, dx2, dy2);
            proof {
                assert(bfs_measure(q1@, 0, q2@, qh2 as int, d1@, d2@) <= mpre2);
                lemma_gradient_preserved(dpre2, d2@, i2);
            }
            t2 = t2 + 1;
        }
        proof {
            lemma_count_unset_bounds(d1@, GRID_CELLS as int);
            lemma_count_unset_bounds(d2@, GRID_CELLS as int);
            assert(stb.q2[stb.qh2] == (x2, y2));
            assert(FillState {
                d1: d1@,
                d2: d2@,
                q1: q1@,
                qh1: qh1 as int,
                q2: q2@,
                qh2: qh2 as int,
            } =~= spec_drain_step(pass@, stb));
            assert(spec_drain_loop(pass@, stb, flb) == spec_drain_loop(
                pass@,
                spec_drain_step(pass@, stb),
                (flb - 1) as nat,
            ));
            fl2 = (fl2 - 1) as nat;
        }
    }
    proof {
        let st_end: FillState = FillState {
            d1: d1@,
            d2: d2@,
            q1: q1@,
            qh1: qh1 as int,
            q2: q2@,
            qh2: qh2 as int,
        };
        assert(spec_drain_loop(pass@, st_end, fl2) == st_end);
        assert(st_end == spec_drain_loop(pass@, st_mid, 1000));
        assert((d1@, d2@) == fill_model(
            pass@,
            start_x_1 as int,
            start_y_1 as int,
            start_x_2 as int,
            start_y_2 as int,
        ));
        lemma_count_unset_bounds(d1@, GRID_CELLS as int);
        lemma_count_unset_bounds(d2@, GRID_CELLS as int);
    }
    (d1, d2)
}

/// The passability mask of a board's grid, as a sequence.
pub open spec fn passable_seq(b: crate::board::BoardV) -> Seq<bool> {
    Seq::new(b.grid.len(), |i: int| passable_cell(b.grid[i]))
}

/// What the dual-source fill guarantees of its two distance grids for
/// the heads of snakes `si` and `ei` on board `b`: full-size grids,
/// zero at each side's own source, every other claimed cell a step
/// count in `[1, GRID_CELLS]`, and no claimed cell that is impassable
/// (the sources themselves excepted).
pub open spec fn fill_grids_ok(
    b: crate::board::BoardV,
    si: int,
    ei: int,
    d1: Seq<i32>,
    d2: Seq<i32>,
) -> bool {
    let p = passable_seq(b);
    let s1 = cell_idx(GRID_SIDE as int, b.snakes[si].head.x as int, b.snakes[si].head.y as int);
    let s2 = cell_idx(GRID_SIDE as int, b.snakes[ei].head.x as int, b.snakes[ei].head.y as int);
    &&& d1.len() == GRID_CELLS
    &&& d2.len() == GRID_CELLS
    &&& d1[s1] == 0
    &&& d2[s2] == 0
    &&& forall|i: int|
        0 <= i < GRID_CELLS && i != s1 ==> (#[trigger] d1[i] == UNREACHED || (1 <= d1[i] && d1[i]
            <= GRID_CELLS))
    &&& forall|i: int|
        0 <= i < GRID_CELLS && i != s2 ==> (#[trigger] d2[i] == UNREACHED || (1 <= d2[i] && d2[i]
            <= GRID_CELLS))
    &&& forall|i: int|
        0 <= i < GRID_CELLS && !p[i] && i != s1 ==> #[trigger] d1[i] == UNREACHED
    &&& forall|i: int|
        0 <= i < GRID_CELLS && !p[i] && i != s2 ==> #[trigger] d2[i] == UNREACHED
    &&& forall|x: int, y: int|
        0 <= x < GRID_SIDE && 0 <= y < GRID_SIDE && cell_idx(GRID_SIDE as int, x, y) != s1
            && #[trigger] d1[cell_idx(GRID_SIDE as int, x, y)] != UNREACHED ==> gradient_back(
            d1,
            x,
            y,
        )
    &&& forall|x: int, y: int|
        0 <= x < GRID_SIDE && 0 <= y < GRID_SIDE && cell_idx(GRID_SIDE as int, x, y) != s2
            && #[trigger] d2[cell_idx(GRID_SIDE as int, x, y)] != UNREACHED ==> gradient_back(
            d2,
            x,
            y,
        )
}

/// The walking distance between two cells.
pub open spec fn manhattan_dist(x1: int, y1: int, x2: int, y2: int) -> int {
    (if x1 >= x2 {
        x1 - x2
    } else {
        x2 - x1
    }) + (if y1 >= y2 {
        y1 - y2
    } else {
        y2 - y1
    })
}

/// Descending the gradient one step at a time reaches the zero cell —
/// the source — in exactly as many steps as the cell's value, so no
/// claimed cell sits closer to the source than its value says.
proof fn lemma_descent(d: Seq<i32>, sx: int, sy: int, x: int, y: int)
    requires
        d.len() == GRID_CELLS,
        0 <= sx < GRID_SIDE,
        0 <= sy < GRID_SIDE,
        0 <= x < GRID_SIDE,
        0 <= y < GRID_SIDE,
        d[cell_idx(GRID_SIDE as int, sx, sy)] == 0,
        forall|i: int|
            0 <= i < GRID_CELLS && i != cell_idx(GRID_SIDE as int, sx, sy) ==> (#[trigger] d[i]
                == UNREACHED || (1 <= d[i] && d[i] <= GRID_CELLS)),
        forall|x2: int, y2: int|
            0 <= x2 < GRID_SIDE && 0 <= y2 < GRID_SIDE && cell_idx(GRID_SIDE as int, x2, y2)
                != cell_idx(GRID_SIDE as int, sx, sy) && #[trigger] d[cell_idx(
                GRID_SIDE as int,
                x2,
                y2,
            )] != UNREACHED ==> gradient_back(d, x2, y2),
        d[cell_idx(GRID_SIDE as int, x, y)] != UNREACHED,
    ensures
        d[cell_idx(GRID_SIDE as int, x, y)] >= manhattan_dist(x, y, sx, sy),
    decreases d[cell_idx(GRID_SIDE as int, x, y)],
{
    let ci = cell_idx(GRID_SIDE as int, x, y);
    let si = cell_idx(GRID_SIDE as int, sx, sy);
    if ci == si {
        assert(x == sx && y == sy) by (nonlinear_arith)
            requires
                x * 11 + y == sx * 11 + sy,
                0 <= y < 11,
                0 <= sy < 11,
        ;
    } else {
        let v = d[ci];
        assert(1 <= v && v <= GRID_CELLS);
        assert(gradient_back(d, x, y));
        if x + 1 < GRID_SIDE && d[cell_idx(GRID_SIDE as int, x + 1, y)] == v - 1 {
            lemma_descent(d, sx, sy, x + 1, y);
        } else if 0 <= x - 1 && d[cell_idx(GRID_SIDE as int, x - 1, y)] == v - 1 {
            lemma_descent(d, sx, sy, x - 1, y);
        } else if y + 1 < GRID_SIDE && d[cell_idx(GRID_SIDE as int, x, y + 1)] == v - 1 {
            lemma_descent(d, sx, sy, x, y + 1);
        } else {
            assert(0 <= y - 1 && d[cell_idx(GRID_SIDE as int, x, y - 1)] == v - 1);
            lemma_descent(d, sx, sy, x, y - 1);
        }
    }
}

/// The fill never undercuts the straight-line walk: in any pair of
/// grids the fill contract admits, every claimed cell's step count is
/// at least its Manhattan distance from that side's source head.
pub proof fn lemma_fill_dominates_manhattan(
    b: crate::board::BoardV,
    si: int,
    ei: int,
    d1: Seq<i32>,
    d2: Seq<i32>,
    x: int,
    y: int,
)
    requires
        fill_grids_ok(b, si, ei, d1, d2),
        0 <= si < b.snakes.len(),
        0 <= ei < b.snakes.len(),
        0 <= b.snakes[si].head.x as int && (b.snakes[si].head.x as int) < GRID_SIDE,
        0 <= b.snakes[si].head.y as int && (b.snakes[si].head.y as int) < GRID_SIDE,
        0 <= b.snakes[ei].head.x as int && (b.snakes[ei].head.x as int) < GRID_SIDE,
        0 <= b.snakes[ei].head.y as int && (b.snakes[ei].head.y as int) < GRID_SIDE,
        0 <= x < GRID_SIDE,
        0 <= y < GRID_SIDE,
    ensures
        d1[cell_idx(GRID_SIDE as int, x, y)] != UNREACHED ==> d1[cell_idx(GRID_SIDE as int, x, y)]
            >= manhattan_dist(x, y, b.snakes[si].head.x as int, b.snakes[si].head.y as int),
        d2[cell_idx(GRID_SIDE as int, x, y)] != UNREACHED ==> d2[cell_idx(GRID_SIDE as int, x, y)]
            >= manhattan_dist(x, y, b.snakes[ei].head.x as int, b.snakes[ei].head.y as int),
{
    if d1[cell_idx(GRID_SIDE as int, x, y)] != UNREACHED {
        lemma_descent(d1, b.snakes[si].head.x as int, b.snakes[si].head.y as int, x, y);
    }
    if d2[cell_idx(GRID_SIDE as int, x, y)] != UNREACHED {
        lemma_descent(d2, b.snakes[ei].head.x as int, b.snakes[ei].head.y as int, x, y);
    }
}

/// Whether each cell of the grid may be walked through.
pub fn passability(board: &GameBoard) -> (pass: Vec<bool>)
    requires
        board@.width == GRID_SIDE,
        board@.height == GRID_SIDE,
        board@.grid.len() == GRID_CELLS,
    ensures
        pass@.len() == GRID_CELLS,
        forall|i: int| 0 <= i < GRID_CELLS ==> #[trigger] pass@[i] == passable_cell(board@.grid[i]),
        pass@ == passable_seq(board@),
{
    let mut pass: Vec<bool> = Vec::new();
    let mut i: usize = 0;
    while i < GRID_CELLS
        invariant
            board@.grid.len() == GRID_CELLS,
            i <= GRID_CELLS,
            pass@.len() == i,
            forall|j: int| 0 <= j < i ==> #[trigger] pass@[j] == passable_cell(board@.grid[j]),
        decreases GRID_CELLS - i,
    {
        let p = match &board.matrix[i] {
            CellContent::Empty => true,
            CellContent::Food => true,
            _ => false,
        };
        pass.push(p);
        i = i + 1;
    }
    proof {
        assert(pass@ =~= passable_seq(board@));
    }
    pass
}

/// The fixed award one cell contributes to the territory split: the
/// side that reaches it strictly sooner takes it; a tie goes to the
/// longer snake; an impassable cell counts for nobody.
pub open spec fn territory_cell(
    pass: Seq<bool>,
    d1: Seq<i32>,
    d2: Seq<i32>,
    ls: int,
    le: int,
    i: int,
) -> int {
    if pass[i] {
        if d1[i] < d2[i] {
            100
        } else if d2[i] < d1[i] {
            -100
        } else if ls > le {
            100
        } else if le > ls {
            -100
        } else {
            0
        }
    } else {
        0
    }
}

/// Sum of the first `n` cells' territory awards.
pub open spec fn territory_sum(
    pass: Seq<bool>,
    d1: Seq<i32>,
    d2: Seq<i32>,
    ls: int,
    le: int,
    n: int,
) -> int
    decreases n,
{
    if n <= 0 {
        0
    } else {
        territory_sum(pass, d1, d2, ls, le, n - 1) + territory_cell(pass, d1, d2, ls, le, n - 1)
    }
}

/// The flood-fill term of the evaluation: every passable cell awards a
/// fixed magnitude to whichever side reaches it sooner, ties going to
/// the longer snake.
pub fn territory_score(
    pass: &Vec<bool>,
    d1: &Vec<i32>,
    d2: &Vec<i32>,
    snake_length: i32,
    enemy_length: i32,
) -> (r: i32)
    requires
        pass@.len() == GRID_CELLS,
        d1@.len() == GRID_CELLS,
        d2@.len() == GRID_CELLS,
    ensures
        r as int == territory_sum(
            pass@,
            d1@,
            d2@,
            snake_length as int,
            enemy_length as int,
            GRID_CELLS as int,
        ),
        -12100 <= r <= 12100,
{
    let mut score: i32 = 0;
    let mut i: usize = 0;
    while i < GRID_CELLS
        invariant
            pass@.len() == GRID_CELLS,
            d1@.len() == GRID_CELLS,
            d2@.len() == GRID_CELLS,
            i <= GRID_CELLS,
            score as int == territory_sum(
                pass@,
                d1@,
                d2@,
                snake_length as int,
                enemy_length as int,
                i as int,
            ),
            -100 * i <= score as int <= 100 * i,
        decreases GRID_CELLS - i,
    {
        if pass[i] {
            if d1[i] < d2[i] {
                score = score + 100;
            } else if d2[i] < d1[i] {
                score = score - 100;
            } else if snake_length > enemy_length {
                score = score + 100;
            } else if enemy_length > snake_length {
                score = score - 100;
            }
        }
        i = i + 1;
    }
    score
}

/// Cells won outright by each side, in the recorder's terms: the same
/// split as `territory_cell`, counted instead of summed.
pub open spec fn territory_counts_spec(
    pass: Seq<bool>,
    d1: Seq<i32>,
    d2: Seq<i32>,
    ls: int,
    le: int,
    n: int,
) -> (int, int)
    decreases n,
{
    if n <= 0 {
        (0, 0)
    } else {
        let prev = territory_counts_spec(pass, d1, d2, ls, le, n - 1);
        let c = territory_cell(pass, d1, d2, ls, le, n - 1);
        if c > 0 {
            (prev.0 + 1, prev.1)
        } else if c < 0 {
            (prev.0, prev.1 + 1)
        } else {
            prev
        }
    }
}

/// Counts the cells each side wins in the territory race.
pub fn territory_counts(
    pass: &Vec<bool>,
    d1: &Vec<i32>,
    d2: &Vec<i32>,
    snake_length: i32,
    enemy_length: i32,
) -> (r: (i32, i32))
    requires
        pass@.len() == GRID_CELLS,
        d1@.len() == GRID_CELLS,
        d2@.len() == GRID_CELLS,
    ensures
        (r.0 as int, r.1 as int) == territory_counts_spec(
            pass@,
            d1@,
            d2@,
            snake_length as int,
            enemy_length as int,
            GRID_CELLS as int,
        ),
        0 <= r.0 <= 121,
        0 <= r.1 <= 121,
{
    let mut mine: i32 = 0;
    let mut theirs: i32 = 0;
    let mut i: usize = 0;
    while i < GRID_CELLS
        invariant
            pass@.len() == GRID_CELLS,
            d1@.len() == GRID_CELLS,
            d2@.len() == GRID_CELLS,
            i <= GRID_CELLS,
            (mine as int, theirs as int) == territory_counts_spec(
                pass@,
                d1@,
                d2@,
                snake_length as int,
                enemy_length as int,
                i as int,
            ),
            0 <= mine as int <= i,
            0 <= theirs as int <= i,
        decreases GRID_CELLS - i,
    {
        if pass[i] {
            if d1[i] < d2[i] {
                mine = mine + 1;
            } else if d2[i] < d1[i] {
                theirs = theirs + 1;
            } else if snake_length > enemy_length {
                mine = mine + 1;
            } else if enemy_length > snake_length {
                theirs = theirs + 1;
            }
        }
        i = i + 1;
    }
    (mine, theirs)
}

/// The quadratic low-health penalty: it wakes below 70 health and
/// deepens toward starvation.
pub open spec fn health_term(h: int) -> int {
    if h < 70 {
        100 * (h / 12) * (h / 12) - 2000
    } else {
        0
    }
}

/// The heavily weighted length-differential term.
pub open spec fn length_term(ls: int, le: int) -> int {
    (ls - le) * 300
}

/// The static score of the position for snake `si` against opponent
/// `ei`: the territory split of the flood fill, plus the low-health
/// penalty and the length differential. The health and length terms
/// are pinned exactly; the territory term is whatever the fill's race
/// yields, within its fixed bounds.
pub fn eval(board: &GameBoard, si: usize, ei: usize) -> (score: i32)
    requires
        crate::board::board_dims_ok(board@),
        board@.width == GRID_SIDE,
        board@.height == GRID_SIDE,
        si < board@.snakes.len(),
        ei < board@.snakes.len(),
        snake_shape_ok(board@, si as int),
        snake_shape_ok(board@, ei as int),
    ensures
        score as int == eval_spec(board@, si as int, ei as int),
        fill_grids_ok(
            board@,
            si as int,
            ei as int,
            fill_model(
                passable_seq(board@),
                board@.snakes[si as int].head.x as int,
                board@.snakes[si as int].head.y as int,
                board@.snakes[ei as int].head.x as int,
                board@.snakes[ei as int].head.y as int,
            ).0,
            fill_model(
                passable_seq(board@),
                board@.snakes[si as int].head.x as int,
                board@.snakes[si as int].head.y as int,
                board@.snakes[ei as int].head.x as int,
                board@.snakes[ei as int].head.y as int,
            ).1,
        ),
        -12100 <= score as int - health_term(board@.snakes[si as int].health) - length_term(
            board@.snakes[si as int].length,
            board@.snakes[ei as int].length,
        ) <= 12100,
        -51000 <= score <= 51000,
{
    proof {
        crate::board::lemma_body_len_bound(board@, si as int);
        crate::board::lemma_body_len_bound(board@, ei as int);
        let w: int = board@.width;
        let h: int = board@.height;
        assert(w * h == 121) by (nonlinear_arith)
            requires
                w == 11,
                h == 11,
        ;
    }
    let snake_x = board.snakes[si].head.x;
    let snake_y = board.snakes[si].head.y;
    let enemy_x = board.snakes[ei].head.x;
    let enemy_y = board.snakes[ei].head.y;
    let snake_length = board.snakes[si].length;
    let enemy_length = board.snakes[ei].length;

    proof {
        assert(board@.snakes[si as int].head == board@.snakes[si as int].body[0]);
        assert(board@.snakes[ei as int].head == board@.snakes[ei as int].body[0]);
    }
    let pass = passability(board);
    let bfs_pair = bfs(
        &pass,
        snake_x as usize,
        snake_y as usize,
        enemy_x as usize,
        enemy_y as usize,
    );
    let snake_bfs = bfs_pair.0;
    let enemy_bfs = bfs_pair.1;

    let mut score = territory_score(&pass, &snake_bfs, &enemy_bfs, snake_length, enemy_length);
    let ghost t: int = score as int;

    let health = board.snakes[si].health;
    if health < 70 {
        let q = ((health as u32) / 12) as i32;
        proof {
            let qi: int = q as int;
            assert(0 <= qi <= 5) by (nonlinear_arith)
                requires
                    qi == (health as int) / 12,
                    0 <= health as int <= 69,
            ;
            assert(0 <= 100 * qi * qi <= 2500) by (nonlinear_arith)
                requires
                    0 <= qi <= 5,
            ;
        }
        score = score + 100 * q * q - 2000;
    }
    score = score + (snake_length - enemy_length) * 300;
    proof {
        assert(score as int == t + health_term(board@.snakes[si as int].health) + length_term(
            board@.snakes[si as int].length,
            board@.snakes[ei as int].length,
        ));
        assert(fill_grids_ok(board@, si as int, ei as int, snake_bfs@, enemy_bfs@));
        assert((snake_bfs@, enemy_bfs@) == fill_model(
            passable_seq(board@),
            board@.snakes[si as int].head.x as int,
            board@.snakes[si as int].head.y as int,
            board@.snakes[ei as int].head.x as int,
            board@.snakes[ei as int].head.y as int,
        ));
        assert(t == territory_sum(
            passable_seq(board@),
            snake_bfs@,
            enemy_bfs@,
            board@.snakes[si as int].length,
            board@.snakes[ei as int].length,
            GRID_CELLS as int,
        ));
        assert(score as int == eval_spec(board@, si as int, ei as int));
    }
    score
}

} // verus!
