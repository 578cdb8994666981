//! The search engine: an iterative-deepening negamax with alpha-beta
//! pruning over the board simulator, accelerated by the transposition
//! table, killer and history move ordering, null-move pruning and
//! late-move reductions.
use vstd::prelude::*;
use crate::board::{
    BoardV, CellContent, Direction, GameBoard, board_dims_ok, board_measure, board_wf, legal_moves,
    move_base_ok, move_result, snake_shape_ok, step_xy,
};
use crate::eval::{GRID_SIDE, eval};
use crate::game::Coord;
use crate::recorder::{GameRecorder, Outcome, record_round};
use crate::ttable::{TTEntry, TT_SIZE, new_transposition_table, tt_entry_matches, tt_index};

verus! {

/// Scores the search hands back stay within this magnitude; the
/// transposition table only ever stores such scores.
pub const SCORE_LIMIT: i32 = 101000;

/// The cap on one accumulated history-heuristic counter, so that the
/// ordering weight it is multiplied into stays within range.
pub const HISTORY_CAP: i32 = 1000000;

/// Side of the killer-move table: one slot per search ply.
pub const KILLER_SLOTS: usize = 1000;

/// Size of the flat history table, indexed by a packed (from, to)
/// coordinate pair.
pub const HISTORY_SLOTS: usize = 14641;

/// Everything the recursive search threads along besides the board:
/// the transposition table, the killer and history tables, the path of
/// moves above the current node, the root's best move, and counters.
#[derive(Debug)]
pub struct SearchCtx {
    pub transposition_table: Vec<TTEntry>,
    pub killers: Vec<(Coord, Coord)>,
    pub history: Vec<i32>,
    pub past_moves: Vec<Option<Direction>>,
    pub best_move: Option<Direction>,
    pub nodes_searched: i64,
    pub singular: i64,
    pub not_singular: i64,
}

/// Everything in the context except the node counter is unchanged:
/// what a terminal node leaves behind.
pub open spec fn ctx_tables_unchanged(a: SearchCtx, b: SearchCtx) -> bool {
    &&& a.transposition_table@ == b.transposition_table@
    &&& a.killers@ == b.killers@
    &&& a.history@ == b.history@
    &&& a.past_moves@ == b.past_moves@
    &&& a.best_move == b.best_move
    &&& a.singular == b.singular
    &&& a.not_singular == b.not_singular
}

/// The context's own invariant: full-size tables, bounded cached
/// scores, bounded history counters.
pub open spec fn ctx_wf(c: SearchCtx) -> bool {
    &&& c.transposition_table@.len() == TT_SIZE
    &&& forall|i: int|
        0 <= i < c.transposition_table@.len() ==> -SCORE_LIMIT <= (
        #[trigger] c.transposition_table@[i]).score <= SCORE_LIMIT
    &&& c.killers@.len() == KILLER_SLOTS
    &&& c.history@.len() == HISTORY_SLOTS
    &&& forall|i: int| 0 <= i < c.history@.len() ==> 0 <= #[trigger] c.history@[i] <= HISTORY_CAP
}

impl SearchCtx {
    /// Fresh per-game search state: an untouched transposition table,
    /// cleared killer and history tables, and zeroed counters.
    pub fn new() -> (c: SearchCtx)
        ensures
            ctx_wf(c),
            c.past_moves@.len() == 0,
            c.best_move is None,
    {
        let transposition_table = new_transposition_table();
        let mut killers: Vec<(Coord, Coord)> = Vec::new();
        while killers.len() < KILLER_SLOTS
            invariant
                killers@.len() <= KILLER_SLOTS,
            decreases KILLER_SLOTS - killers.len(),
        {
            killers.push((Coord { x: -1, y: -1 }, Coord { x: -1, y: -1 }));
        }
        let mut history: Vec<i32> = Vec::new();
        while history.len() < HISTORY_SLOTS
            invariant
                history@.len() <= HISTORY_SLOTS,
                forall|i: int| 0 <= i < history@.len() ==> #[trigger] history@[i] == 0,
            decreases HISTORY_SLOTS - history.len(),
        {
            history.push(0);
        }
        SearchCtx {
            transposition_table,
            killers,
            history,
            past_moves: Vec::new(),
            best_move: None,
            nodes_searched: 0,
            singular: 0,
            not_singular: 0,
        }
    }
}

/// The coordinate one step from `coord` in direction `dir`.
pub fn move_coord(coord: &Coord, dir: Direction) -> (r: Coord)
    requires
        -1000000 <= coord.x as int <= 1000000,
        -1000000 <= coord.y as int <= 1000000,
    ensures
        r.x as int == step_xy(coord.x as int, coord.y as int, dir).0,
        r.y as int == step_xy(coord.x as int, coord.y as int, dir).1,
{
    match dir {
        Direction::Up => Coord { x: coord.x, y: coord.y + 1 },
        Direction::Down => Coord { x: coord.x, y: coord.y - 1 },
        Direction::Left => Coord { x: coord.x - 1, y: coord.y },
        Direction::Right => Coord { x: coord.x + 1, y: coord.y },
    }
}

/// Whether two optional directions are the same.
fn opt_dir_eq(a: Option<Direction>, b: Option<Direction>) -> (r: bool)
    ensures
        r == (a == b),
{
    match (a, b) {
        (Option::None, Option::None) => true,
        (Option::Some(x), Option::Some(y)) => x == y,
        _ => false,
    }
}

/// A counter bump that stops at the top instead of wrapping.
fn inc64(x: i64) -> (r: i64)
    ensures
        x < i64::MAX ==> r == x + 1,
        x == i64::MAX ==> r == x,
{
    if x < i64::MAX {
        x + 1
    } else {
        x
    }
}

/// Puts two scored moves in descending score order.
fn sort_2(arr: &mut Vec<(Direction, i32)>)
    requires
        old(arr)@.len() == 2,
    ensures
        final(arr)@.len() == 2,
        final(arr)@[0].1 >= final(arr)@[1].1,
        old(arr)@[1].1 > old(arr)@[0].1 ==> final(arr)@ =~= seq![old(arr)@[1], old(arr)@[0]],
        old(arr)@[1].1 <= old(arr)@[0].1 ==> final(arr)@ =~= old(arr)@,
        forall|k: int|
            0 <= k < 2 ==> exists|j: int| 0 <= j < 2 && #[trigger] final(arr)@[k] == old(arr)@[j],
{
    if arr[1].1 > arr[0].1 {
        let a = arr[0];
        let b = arr[1];
        arr[0] = b;
        arr[1] = a;
    }
}

/// The first exchange of the three-element sorting network: a strictly
/// greater second element moves in front; ties keep their order.
pub open spec fn swap_first_two(s: Seq<(Direction, i32)>) -> Seq<(Direction, i32)> {
    if s[1].1 > s[0].1 {
        seq![s[1], s[0], s[2]]
    } else {
        s
    }
}

/// The second exchange of the network, on the last two elements.
pub open spec fn swap_last_two(s: Seq<(Direction, i32)>) -> Seq<(Direction, i32)> {
    if s[2].1 > s[1].1 {
        seq![s[0], s[2], s[1]]
    } else {
        s
    }
}

/// Puts three scored moves in descending score order: the exact
/// three-exchange network, each exchange swapping only on a strictly
/// greater score, so equal scores keep their order.
fn sort_3(arr: &mut Vec<(Direction, i32)>)
    requires
        old(arr)@.len() == 3,
    ensures
        final(arr)@.len() == 3,
        final(arr)@[0].1 >= final(arr)@[1].1 >= final(arr)@[2].1,
        final(arr)@ =~= swap_first_two(swap_last_two(swap_first_two(old(arr)@))),
        forall|k: int|
            0 <= k < 3 ==> exists|j: int| 0 <= j < 3 && #[trigger] final(arr)@[k] == old(arr)@[j],
{
    let ghost a0 = arr@;
    if arr[1].1 > arr[0].1 {
        let a = arr[0];
        let b = arr[1];
        arr[0] = b;
        arr[1] = a;
    }
    if arr[2].1 > arr[1].1 {
        let a = arr[1];
        let b = arr[2];
        arr[1] = b;
        arr[2] = a;
    }
    if arr[1].1 > arr[0].1 {
        let a = arr[0];
        let b = arr[1];
        arr[0] = b;
        arr[1] = a;
    }
}

/// The absolute difference of two small integers.
fn abs_diff(a: i32, b: i32) -> (r: i32)
    requires
        -1000000 <= a as int <= 1000000,
        -1000000 <= b as int <= 1000000,
    ensures
        r as int == if a as int >= b as int {
            a as int - b as int
        } else {
            b as int - a as int
        },
{
    if a >= b {
        a - b
    } else {
        b - a
    }
}

/// Flat slot of the history table for a move from `from` to `to`.
fn history_index(from: &Coord, to: &Coord) -> (i: usize)
    requires
        0 <= from.x as int && (from.x as int) < GRID_SIDE,
        0 <= from.y as int && (from.y as int) < GRID_SIDE,
        0 <= to.x as int && (to.x as int) < GRID_SIDE,
        0 <= to.y as int && (to.y as int) < GRID_SIDE,
    ensures
        i < HISTORY_SLOTS,
{
    (((from.x as usize) * GRID_SIDE + (from.y as usize)) * GRID_SIDE + (to.x as usize)) * GRID_SIDE
        + (to.y as usize)
}

/// Orders the legal moves for the loop, highest confidence first: the
/// table's remembered best and second-best moves, a strong bias away
/// from its remembered worst, the ply's killer move, the history
/// heuristic, a small tempo bonus for repeating the move of two and
/// four plies ago, and otherwise a static shape: food is attractive,
/// crowded or wall-adjacent destinations are not, and gaining
/// centrality on the opponent helps. The directions themselves are
/// handed through unchanged, in their given order.
#[verifier::rlimit(60)]
fn score_moves(
    board: &GameBoard,
    ctx: &SearchCtx,
    moves: &Vec<Direction>,
    si: usize,
    ply: i32,
    enemy_head: Coord,
    tt_hit: bool,
    entry: &TTEntry,
) -> (r: Vec<(Direction, i32)>)
    requires
        board_dims_ok(board@),
        board@.width == GRID_SIDE,
        board@.height == GRID_SIDE,
        si < board@.snakes.len(),
        snake_shape_ok(board@, si as int),
        ctx_wf(*ctx),
        0 <= ply < KILLER_SLOTS,
        -1000000 <= enemy_head.x as int <= 1000000,
        -1000000 <= enemy_head.y as int <= 1000000,
        forall|k: int| 0 <= k < moves@.len() ==> move_base_ok(board@, si as int, #[trigger] moves@[k]),
    ensures
        r@.len() == moves@.len(),
        forall|k: int| 0 <= k < r@.len() ==> (#[trigger] r@[k]).0 == moves@[k],
        forall|k: int|
            0 <= k < r@.len() && tt_hit && Some(moves@[k]) == entry.best_move ==> (
            #[trigger] r@[k]).1 == 100000000,
        forall|k: int|
            0 <= k < r@.len() && tt_hit && Some(moves@[k]) != entry.best_move && Some(moves@[k])
                == entry.second_best_move ==> (#[trigger] r@[k]).1 == 90000000,
        forall|k: int|
            0 <= k < r@.len() && tt_hit && Some(moves@[k]) != entry.best_move && Some(moves@[k])
                != entry.second_best_move && Some(moves@[k]) == entry.worst_move ==> (
            #[trigger] r@[k]).1 == -100000000,
        forall|k: int| 0 <= k < r@.len() ==> -100000000 <= (#[trigger] r@[k]).1 <= 1000000000,
{
    let ghost bv = board@;
    let snake_head = board.snakes[si].head;
    proof {
        assert(snake_shape_ok(bv, si as int));
        assert(bv.snakes[si as int].head == bv.snakes[si as int].body[0]);
    }
    let mut r: Vec<(Direction, i32)> = Vec::new();
    let mut k: usize = 0;
    while k < moves.len()
        invariant
            bv == board@,
            board_dims_ok(bv),
            bv.width == GRID_SIDE,
            bv.height == GRID_SIDE,
            si < bv.snakes.len(),
            snake_shape_ok(bv, si as int),
            snake_head == bv.snakes[si as int].head,
            xy_in_bounds_head(bv, si as int),
            ctx_wf(*ctx),
            0 <= ply < KILLER_SLOTS,
            -1000000 <= enemy_head.x as int <= 1000000,
            -1000000 <= enemy_head.y as int <= 1000000,
            forall|t: int|
                0 <= t < moves@.len() ==> move_base_ok(bv, si as int, #[trigger] moves@[t]),
            k <= moves@.len(),
            r@.len() == k,
            forall|t: int| 0 <= t < k ==> (#[trigger] r@[t]).0 == moves@[t],
            forall|t: int|
                0 <= t < k && tt_hit && Some(moves@[t]) == entry.best_move ==> (#[trigger] r@[t]).1
                    == 100000000,
            forall|t: int|
                0 <= t < k && tt_hit && Some(moves@[t]) != entry.best_move && Some(moves@[t])
                    == entry.second_best_move ==> (#[trigger] r@[t]).1 == 90000000,
            forall|t: int|
                0 <= t < k && tt_hit && Some(moves@[t]) != entry.best_move && Some(moves@[t])
                    != entry.second_best_move && Some(moves@[t]) == entry.worst_move ==> (
                #[trigger] r@[t]).1 == -100000000,
            forall|t: int| 0 <= t < k ==> -100000000 <= (#[trigger] r@[t]).1 <= 1000000000,
        decreases moves@.len() - k,
    {
        let dir = moves[k];
        let score: i32;
        if tt_hit && opt_dir_eq(Some(dir), entry.best_move) {
            score = 100000000;
        } else if tt_hit && opt_dir_eq(Some(dir), entry.second_best_move) {
            score = 90000000;
        } else if tt_hit && opt_dir_eq(Some(dir), entry.worst_move) {
            score = -100000000;
        } else {
            proof {
                assert(move_base_ok(bv, si as int, dir));
            }
            let new_head = move_coord(&snake_head, dir);
            let killer = ctx.killers[ply as usize];
            let hidx = history_index(&snake_head, &new_head);
            let hist = ctx.history[hidx];
            let n_past = ctx.past_moves.len();
            if killer.0 == snake_head && killer.1 == new_head {
                score = 10000000;
            } else if hist > 0 {
                score = hist * 1000;
            } else if n_past >= 4 && opt_dir_eq(Some(dir), ctx.past_moves[n_past - 2])
                && opt_dir_eq(Some(dir), ctx.past_moves[n_past - 4]) {
                // tempo bonus: repeat the move of two and four plies ago
                score = 1000;
            } else {
                let center_distance = abs_diff(new_head.x, 5) + abs_diff(new_head.y, 5);
                let center_distance_enemy = abs_diff(enemy_head.x, 5) + abs_diff(enemy_head.y, 5);
                let mut num_adj_occupied: i32 = 0;
                if new_head.x == GRID_SIDE as i32 - 1 || !matches!(
                    &board.matrix[((new_head.x + 1) as usize) * GRID_SIDE + (new_head.y as usize)],
                    CellContent::Empty,
                ) {
                    num_adj_occupied = num_adj_occupied + 100;
                }
                if new_head.y == GRID_SIDE as i32 - 1 || !matches!(
                    &board.matrix[(new_head.x as usize) * GRID_SIDE + ((new_head.y + 1) as usize)],
                    CellContent::Empty,
                ) {
                    num_adj_occupied = num_adj_occupied + 100;
                }
                if new_head.x == 0 || !matches!(
                    &board.matrix[((new_head.x - 1) as usize) * GRID_SIDE + (new_head.y as usize)],
                    CellContent::Empty,
                ) {
                    num_adj_occupied = num_adj_occupied + 100;
                }
                if new_head.y == 0 || !matches!(
                    &board.matrix[(new_head.x as usize) * GRID_SIDE + ((new_head.y - 1) as usize)],
                    CellContent::Empty,
                ) {
                    num_adj_occupied = num_adj_occupied + 100;
                }
                let on_food = matches!(
                    &board.matrix[(new_head.x as usize) * GRID_SIDE + (new_head.y as usize)],
                    CellContent::Food,
                );
                if on_food {
                    score = -1000000 + 50000 - num_adj_occupied + (center_distance_enemy
                        - center_distance);
                } else {
                    score = -1000000 - num_adj_occupied + (center_distance_enemy - center_distance);
                }
            }
        }
        r.push((dir, score));
        k = k + 1;
    }
    r
}

/// Whether the head of snake `si` lies on the board.
pub open spec fn xy_in_bounds_head(b: BoardV, si: int) -> bool {
    crate::board::xy_in_bounds(b.width, b.height, b.snakes[si].head.x as int, b.snakes[si].head.y as int)
}

/// Whether the two snakes together already crowd a quarter of the
/// board — a late-game signal.
pub fn before_endgame(board: &GameBoard, si: usize, ei: usize) -> (r: bool)
    requires
        board_dims_ok(board@),
        si < board@.snakes.len(),
        ei < board@.snakes.len(),
        snake_shape_ok(board@, si as int),
        snake_shape_ok(board@, ei as int),
    ensures
        r == (board@.snakes[si as int].length + board@.snakes[ei as int].length > (board@.width
            * board@.height) / 4),
{
    proof {
        crate::board::lemma_body_len_bound(board@, si as int);
        crate::board::lemma_body_len_bound(board@, ei as int);
        let w: int = board@.width;
        let h: int = board@.height;
        assert(1 <= w * h <= 1000000) by (nonlinear_arith)
            requires
                1 <= w <= 1000,
                1 <= h <= 1000,
        ;
    }
    let quarter = ((board.width as u32 * board.height as u32) / 4) as i32;
    board.snakes[si].length + board.snakes[ei].length > quarter
}


/// The table slot a position's hash selects.
pub open spec fn tt_slot(c: SearchCtx, zobrist: u64) -> TTEntry {
    c.transposition_table@[zobrist as int % TT_SIZE as int]
}

/// The depth a node is searched to, after the forced-move extension.
pub open spec fn ext_depth(b: BoardV, si: int, depth: int) -> int {
    if legal_moves(b, si).len() == 1 {
        depth + 1
    } else {
        depth
    }
}

/// The node is live and deep enough to search: it has a legal move and
/// health, depth remains after the extension, and the ply cap is away.
pub open spec fn searchable(b: BoardV, si: int, depth: int, ply: int) -> bool {
    &&& legal_moves(b, si).len() > 0
    &&& b.snakes[si].health >= 1
    &&& ext_depth(b, si, depth) >= 1
    &&& 0 <= ply <= 998
}

/// Whether the probed slot matches the position's hash and all six
/// identity fields — the guard of `tt_entry_matches`, phrased over the
/// board's view.
pub open spec fn probe_hit(b: BoardV, si: int, ei: int, c: SearchCtx) -> bool {
    let e = tt_slot(c, b.hash);
    &&& e.zobrist == b.hash
    &&& e.friendly_health as int == b.snakes[si].health
    &&& e.enemy_health as int == b.snakes[ei].health
    &&& e.snake_head_x == b.snakes[si].head.x
    &&& e.snake_head_y == b.snakes[si].head.y
    &&& e.enemy_head_x == b.snakes[ei].head.x
    &&& e.enemy_head_y == b.snakes[ei].head.y
}

/// Whether the probe answers the node outright: a full-identity match
/// of sufficient depth whose bound, applied to the window, either is
/// exact or already causes a cutoff.
pub open spec fn tt_probe_returns(
    b: BoardV,
    si: int,
    ei: int,
    c: SearchCtx,
    depth: int,
    ply: int,
    alpha: int,
    beta: int,
) -> bool {
    let e = tt_slot(c, b.hash);
    &&& ply > 0
    &&& probe_hit(b, si, ei, c)
    &&& e.depth as int >= ext_depth(b, si, depth)
    &&& {
        ||| (e.flag != 1 && e.flag != 2)
        ||| (e.flag == 1 && (if alpha >= e.score as int {
            alpha
        } else {
            e.score as int
        }) >= beta)
        ||| (e.flag == 2 && alpha >= (if beta <= e.score as int {
            beta
        } else {
            e.score as int
        }))
    }
}

/// What the slot holds after a searched node stores itself: the
/// position's hash and identity fields, the extended depth, the
/// returned score, a bound flag, and a legal recorded best move.
pub open spec fn stored_slot_ok(
    b: BoardV,
    si: int,
    ei: int,
    c: SearchCtx,
    depth_stored: int,
    score: int,
) -> bool {
    let e2 = tt_slot(c, b.hash);
    &&& e2.zobrist == b.hash
    &&& e2.friendly_health as int == b.snakes[si].health
    &&& e2.enemy_health as int == b.snakes[ei].health
    &&& e2.snake_head_x == b.snakes[si].head.x
    &&& e2.snake_head_y == b.snakes[si].head.y
    &&& e2.enemy_head_x == b.snakes[ei].head.x
    &&& e2.enemy_head_y == b.snakes[ei].head.y
    &&& e2.depth as int == depth_stored
    &&& e2.score as int == score
    &&& (e2.flag == 1 || e2.flag == 2 || e2.flag == 3)
    &&& (e2.best_move matches Some(d) && legal_moves(b, si).contains(d))
}

/// The core negamax search for the mover `si` against `ei`, with
/// alpha-beta pruning, transposition probes and stores, null-move
/// pruning, and late-move reductions. Whatever it explores, it puts
/// back: the board leaves exactly as it came, every cached score stays
/// within `SCORE_LIMIT`, and the root's recorded best move — when it
/// is (re)written at all — is one of the legal moves of the position.
/// A shallow root search over a live position always records one.
#[verifier::rlimit(100)]
pub fn minimax(
    board: &mut GameBoard,
    si: usize,
    ei: usize,
    depth: i32,
    ply: i32,
    alpha: i32,
    beta: i32,
    should_nmp: bool,
    ctx: &mut SearchCtx,
) -> (score: i32)
    requires
        board_wf(old(board)@),
        old(board)@.width == GRID_SIDE,
        old(board)@.height == GRID_SIDE,
        si < old(board)@.snakes.len(),
        ei < old(board)@.snakes.len(),
        si != ei,
        0 <= ply <= 999,
        -100 <= depth <= 1000,
        -10000000 <= alpha as int <= SCORE_LIMIT,
        -SCORE_LIMIT <= beta as int <= 10000000,
        alpha < beta,
        ctx_wf(*old(ctx)),
    ensures
        final(board)@ == old(board)@,
        ctx_wf(*final(ctx)),
        final(ctx).past_moves@ == old(ctx).past_moves@,
        -SCORE_LIMIT <= score as int <= SCORE_LIMIT,
        ply != 0 ==> final(ctx).best_move == old(ctx).best_move,
        ply == 0 ==> (final(ctx).best_move == old(ctx).best_move
            || (final(ctx).best_move matches Some(d)
            && legal_moves(old(board)@, si as int).contains(d))),
        (ply == 0 && 1 <= depth <= 4 && legal_moves(old(board)@, si as int).len() > 0
            && old(board)@.snakes[si as int].health >= 1)
            ==> (final(ctx).best_move matches Some(d)
            && legal_moves(old(board)@, si as int).contains(d)),
        (legal_moves(old(board)@, si as int).len() == 0 || old(board)@.snakes[si as int].health
            <= 0) ==> (score as int == -100000 + ply && ctx_tables_unchanged(
            *final(ctx),
            *old(ctx),
        )),
        (ply == 0 && 1 <= depth <= 4 && legal_moves(old(board)@, si as int).len() == 1 && old(
            board,
        )@.snakes[si as int].health >= 1) ==> final(ctx).best_move == Some(
            legal_moves(old(board)@, si as int)[0],
        ),
        (searchable(old(board)@, si as int, depth as int, ply as int) && tt_probe_returns(
            old(board)@,
            si as int,
            ei as int,
            *old(ctx),
            depth as int,
            ply as int,
            alpha as int,
            beta as int,
        )) ==> (score == tt_slot(*old(ctx), old(board)@.hash).score && ctx_tables_unchanged(
            *final(ctx),
            *old(ctx),
        )),
        (searchable(old(board)@, si as int, depth as int, ply as int) && !tt_probe_returns(
            old(board)@,
            si as int,
            ei as int,
            *old(ctx),
            depth as int,
            ply as int,
            alpha as int,
            beta as int,
        ) && (ext_depth(old(board)@, si as int, depth as int) <= 5 || !should_nmp))
            ==> stored_slot_ok(
            old(board)@,
            si as int,
            ei as int,
            *final(ctx),
            ext_depth(old(board)@, si as int, depth as int),
            score as int,
        ),
        (legal_moves(old(board)@, si as int).len() >= 2 && old(board)@.snakes[si as int].health
            >= 1 && depth <= 0) ==> (ctx_tables_unchanged(*final(ctx), *old(ctx)) && score as int
            == -crate::eval::eval_spec(old(board)@, ei as int, si as int)),
    decreases board_measure(old(board)@), (if should_nmp {
        1int
    } else {
        0int
    }),
{
    let ghost b0: BoardV = board@;
    let ghost pm0: Seq<Option<Direction>> = ctx.past_moves@;
    let ghost bm0: Option<Direction> = ctx.best_move;
    let ghost c0: SearchCtx = *ctx;
    ctx.nodes_searched = inc64(ctx.nodes_searched);

    proof {
        assert forall|j: int| 0 <= j < b0.snakes.len() implies snake_shape_ok(b0, j) by {}
    }
    let possible_moves = board.generate_possible_moves(si);
    let health = board.snakes[si].health;

    // dead: no move, or starved
    if possible_moves.len() == 0 || health <= 0 {
        return -100000 + ply;
    }

    // forced-move extension: look deeper into forced sequences
    let ghost depth0: int = depth as int;
    let mut depth = depth;
    if possible_moves.len() == 1 {
        depth = depth + 1;
    }

    // leaf: out of depth (the ply cap keeps the killer table in range
    // on absurdly long forced chains)
    if depth <= 0 || ply >= 999 {
        let e = eval(board, ei, si);
        return -e;
    }

    let snake_head = board.snakes[si].head;
    let enemy_head = board.snakes[ei].head;
    let enemy_health = board.snakes[ei].health;
    proof {
        assert(snake_shape_ok(b0, si as int));
        assert(snake_shape_ok(b0, ei as int));
        assert(b0.snakes[si as int].head == b0.snakes[si as int].body[0]);
        assert(b0.snakes[ei as int].head == b0.snakes[ei as int].body[0]);
    }

    let ti = tt_index(board.zobrist_hash);
    let entry = ctx.transposition_table[ti];
    let tt_hit = tt_entry_matches(
        &entry,
        board.zobrist_hash,
        health,
        enemy_health,
        snake_head.x,
        snake_head.y,
        enemy_head.x,
        enemy_head.y,
    );

    proof {
        assert(ctx.transposition_table@ == c0.transposition_table@);
        assert(entry == tt_slot(c0, b0.hash));
        assert(tt_hit == probe_hit(b0, si as int, ei as int, c0));
        assert(possible_moves@ == legal_moves(b0, si as int));
        assert(depth as int == ext_depth(b0, si as int, depth0));
    }
    let mut alpha = alpha;
    let mut beta = beta;
    if ply > 0 && tt_hit && entry.depth >= depth {
        if entry.flag == 1 {
            if entry.score > alpha {
                alpha = entry.score;
            }
        } else if entry.flag == 2 {
            if entry.score < beta {
                beta = entry.score;
            }
        } else {
            return entry.score;
        }
        if alpha >= beta {
            return entry.score;
        }
    }

    let mut tt_flag: i32 = 1;

    let mut scored_moves = score_moves(board, ctx, &possible_moves, si, ply, enemy_head, tt_hit, &entry);

    // null-move pruning: grant the opponent a free move at reduced
    // depth; if this position still clears beta, cut off here
    if depth > 5 && should_nmp {
        ctx.past_moves.push(None);
        let nmp_inner = minimax(board, ei, si, 3, ply + 1, -beta, -alpha, false, ctx);
        let nmp = -nmp_inner;
        ctx.past_moves.pop();
        proof {
            assert(ctx.past_moves@ =~= pm0);
        }
        if nmp >= beta {
            return beta;
        }
    }

    if scored_moves.len() == 2 {
        sort_2(&mut scored_moves);
    } else if scored_moves.len() == 3 {
        sort_3(&mut scored_moves);
    }
    proof {
        assert forall|t: int| 0 <= t < scored_moves@.len() implies legal_moves(
            b0,
            si as int,
        ).contains((#[trigger] scored_moves@[t]).0) && move_base_ok(
            b0,
            si as int,
            scored_moves@[t].0,
        ) by {
            let j = choose|j: int|
                0 <= j < possible_moves@.len() && #[trigger] scored_moves@[t] == (
                possible_moves@[j],
                scored_moves@[t].1,
                );
            if scored_moves@.len() == 2 || scored_moves@.len() == 3 {
                assert(possible_moves@.contains(scored_moves@[t].0));
            } else {
                assert(scored_moves@[t].0 == possible_moves@[t]);
                assert(possible_moves@.contains(scored_moves@[t].0));
            }
        }
    }

    let mut best_score: i32 = -999999;
    let mut local_best_move: Option<Direction> = None;
    let mut second_local_best_move: Option<Direction> = None;
    let mut worst_local_move: Option<Direction> = None;
    let mut worst_score: i32 = 999999;
    let mut done = false;
    let mut i: usize = 0;
    let n_moves = scored_moves.len();
    while i < n_moves && !done
        invariant
            board_wf(b0),
            b0.width == GRID_SIDE,
            b0.height == GRID_SIDE,
            si < b0.snakes.len(),
            ei < b0.snakes.len(),
            si != ei,
            0 <= ply <= 998,
            1 <= depth <= 1001,
            b0 == old(board)@,
            pm0 == old(ctx).past_moves@,
            bm0 == old(ctx).best_move,
            board@ == b0,
            ctx_wf(*ctx),
            ctx.past_moves@ == pm0,
            ply != 0 ==> ctx.best_move == bm0,
            ply == 0 ==> (ctx.best_move == bm0 || (ctx.best_move matches Some(d) && legal_moves(
                b0,
                si as int,
            ).contains(d))),
            ply == 0 && (i >= 1 || done) ==> (ctx.best_move matches Some(d) && legal_moves(
                b0,
                si as int,
            ).contains(d)),
            (ply == 0 && n_moves == 1 && (i >= 1 || done)) ==> ctx.best_move == Some(
                scored_moves@[0].0,
            ),
            (i >= 1 || done) ==> (local_best_move matches Some(d) && legal_moves(
                b0,
                si as int,
            ).contains(d)),
            1 <= b0.snakes[si as int].health <= 100,
            n_moves == scored_moves@.len(),
            1 <= n_moves,
            i <= n_moves,
            forall|t: int|
                0 <= t < scored_moves@.len() ==> legal_moves(b0, si as int).contains(
                    (#[trigger] scored_moves@[t]).0,
                ) && move_base_ok(b0, si as int, scored_moves@[t].0),
            -10000000 <= alpha as int <= SCORE_LIMIT,
            -SCORE_LIMIT <= beta as int <= 10000000,
            !done ==> alpha < beta,
            i >= 1 || done ==> -SCORE_LIMIT <= best_score as int <= SCORE_LIMIT,
            i >= 1 || done ==> -SCORE_LIMIT <= alpha as int,
            i == 0 && !done ==> best_score == -999999,
            tt_flag == 1 || tt_flag == 2 || tt_flag == 3,
            snake_head == b0.snakes[si as int].head,
            crate::board::xy_in_bounds(
                b0.width,
                b0.height,
                snake_head.x as int,
                snake_head.y as int,
            ),
        decreases n_moves - i,
    {
        let dir = scored_moves[i].0;
        proof {
            crate::board::lemma_legal_move_undoes(b0, si as int, dir);
        }
        let ghost b1: BoardV = move_result(b0, si as int, dir);
        board.move_snake(si, dir);
        ctx.past_moves.push(Some(dir));

        let new_score: i32;
        if i <= 1 {
            let inner = minimax(board, ei, si, depth - 1, ply + 1, -beta, -alpha, should_nmp, ctx);
            new_score = -inner;
        } else {
            let inner = minimax(
                board,
                ei,
                si,
                depth - 1 - 2,
                ply + 1,
                -alpha - 1,
                -alpha,
                should_nmp,
                ctx,
            );
            let temp_score = -inner;
            if temp_score > alpha {
                let inner2 = minimax(
                    board,
                    ei,
                    si,
                    depth - 1,
                    ply + 1,
                    -beta,
                    -alpha,
                    should_nmp,
                    ctx,
                );
                new_score = -inner2;
            } else {
                new_score = temp_score;
            }
        }

        board.undo_move();
        ctx.past_moves.pop();
        proof {
            assert(board@ == b0);
            assert(ctx.past_moves@ =~= pm0);
        }

        if new_score > best_score {
            best_score = new_score;
            second_local_best_move = local_best_move;
            local_best_move = Some(dir);
            if ply == 0 {
                ctx.best_move = Some(dir);
            }
        }
        if new_score > alpha {
            alpha = new_score;
            tt_flag = 3;
            if alpha >= beta {
                // a cutoff: remember the refutation for siblings
                let new_head = move_coord(&snake_head, dir);
                proof {
                    assert(move_base_ok(b0, si as int, dir));
                }
                let hidx = history_index(&snake_head, &new_head);
                let dd: i32;
                proof {
                    let di: int = depth as int;
                    assert(0 <= di * di <= 1002001) by (nonlinear_arith)
                        requires
                            1 <= di <= 1001,
                    ;
                }
                dd = depth * depth;
                let cur = ctx.history[hidx];
                let bumped = if cur > HISTORY_CAP - dd {
                    HISTORY_CAP
                } else {
                    cur + dd
                };
                let ghost h0 = ctx.history@;
                ctx.history[hidx] = bumped;
                proof {
                    assert forall|t: int| 0 <= t < ctx.history@.len() implies 0
                        <= #[trigger] ctx.history@[t] <= HISTORY_CAP by {
                        if t != hidx as int {
                            assert(ctx.history@[t] == h0[t]);
                        }
                    }
                }
                ctx.killers[ply as usize] = (snake_head, new_head);
                tt_flag = 2;
                done = true;
            }
        }
        if new_score < worst_score {
            worst_score = new_score;
            worst_local_move = Some(dir);
        }
        i = i + 1;
    }

    if n_moves == 1 {
        ctx.singular = inc64(ctx.singular);
    } else {
        ctx.not_singular = inc64(ctx.not_singular);
    }

    let ti2 = tt_index(board.zobrist_hash);
    let ghost tt0 = ctx.transposition_table@;
    ctx.transposition_table[ti2] = TTEntry {
        zobrist: board.zobrist_hash,
        best_move: local_best_move,
        second_best_move: second_local_best_move,
        worst_move: worst_local_move,
        friendly_health: health,
        enemy_health,
        depth,
        score: best_score,
        flag: tt_flag,
        snake_head_x: snake_head.x,
        snake_head_y: snake_head.y,
        enemy_head_x: enemy_head.x,
        enemy_head_y: enemy_head.y,
    };
    proof {
        assert forall|t: int| 0 <= t < ctx.transposition_table@.len() implies -SCORE_LIMIT <= (
        #[trigger] ctx.transposition_table@[t]).score <= SCORE_LIMIT by {
            if t != ti2 as int {
                assert(ctx.transposition_table@[t] == tt0[t]);
            }
        }
        // the freshly written slot matches the stored-slot description
        assert(board@.hash == b0.hash);
        assert(ti2 as int == b0.hash as int % TT_SIZE as int);
        assert(depth as int == ext_depth(b0, si as int, depth0));
        assert(stored_slot_ok(
            b0,
            si as int,
            ei as int,
            *ctx,
            ext_depth(b0, si as int, depth0),
            best_score as int,
        ));
    }

    best_score
}


/// One full turn's decision: pick the nearest opponent by head
/// Manhattan distance, run the negamax to increasing depths, and adopt
/// each iteration's concrete answer — an iteration that produced no
/// move never overwrites a previously good one. The returned move,
/// whenever there is one, is legal for the acting snake on the given
/// position; with no opponent on the board the first legal move is
/// returned directly. The board leaves exactly as it came, and the
/// final iteration's score and territory features go to the recorder.
pub fn think(
    game_recorder: &mut GameRecorder,
    board: &mut GameBoard,
    you: usize,
    ctx: &mut SearchCtx,
) -> (best: Option<Direction>)
    requires
        board_wf(old(board)@),
        old(board)@.width == GRID_SIDE,
        old(board)@.height == GRID_SIDE,
        you < old(board)@.snakes.len(),
        ctx_wf(*old(ctx)),
    ensures
        final(board)@ == old(board)@,
        ctx_wf(*final(ctx)),
        best matches Some(d) ==> legal_moves(old(board)@, you as int).contains(d),
        (legal_moves(old(board)@, you as int).len() > 0 && (old(board)@.snakes.len() == 1 || old(
            board,
        )@.snakes[you as int].health >= 1)) ==> best is Some,
        (legal_moves(old(board)@, you as int).len() == 1 && (old(board)@.snakes.len() == 1 || old(
            board,
        )@.snakes[you as int].health >= 1)) ==> best == Some(
            legal_moves(old(board)@, you as int)[0],
        ),
        old(board)@.snakes.len() == 1 ==> {
            &&& final(game_recorder).rounds@ == old(game_recorder).rounds@
            &&& final(game_recorder).ending == old(game_recorder).ending
            &&& (legal_moves(old(board)@, you as int).len() > 0 ==> best == Some(
                legal_moves(old(board)@, you as int)[0],
            ))
            &&& (legal_moves(old(board)@, you as int).len() == 0 ==> best is None)
        },
        old(board)@.snakes.len() > 1 ==> ({
            let r0 = *old(game_recorder);
            let r1 = *final(game_recorder);
            ||| (r1.rounds@ == r0.rounds@ && (r1.ending == Outcome::Win || r1.ending
                == Outcome::Loss))
            ||| (r1.ending == r0.ending && r1.rounds@.len() == r0.rounds@.len() + 1
                && r1.rounds@.take(r0.rounds@.len() as int) == r0.rounds@
                && r1.rounds@.last().health == old(board)@.snakes[you as int].health
                && 0 <= r1.rounds@.last().snake_bfs <= 121 && 0 <= r1.rounds@.last().enemy_bfs
                <= 121)
        }),
{
    let ghost b0: BoardV = board@;
    let n = board.snakes.len();
    let you_head = board.snakes[you].head;
    proof {
        assert(snake_shape_ok(b0, you as int));
        assert(b0.snakes[you as int].head == b0.snakes[you as int].body[0]);
    }

    // the single nearest opponent, by head Manhattan distance
    let mut nearest: Option<usize> = None;
    let mut nearest_dist: i32 = 0;
    let mut j: usize = 0;
    while j < n
        invariant
            b0 == old(board)@,
            board@ == b0,
            board_wf(b0),
            n == b0.snakes.len(),
            you < n,
            you_head == b0.snakes[you as int].head,
            crate::board::xy_in_bounds(b0.width, b0.height, you_head.x as int, you_head.y as int),
            j <= n,
            match nearest {
                Some(e) => e < n && b0.snakes[e as int].id != b0.snakes[you as int].id,
                None => true,
            },
            n > 1 && j == n ==> nearest is Some,
            nearest is None ==> forall|t: int|
                0 <= t < j ==> #[trigger] b0.snakes[t].id == b0.snakes[you as int].id,
        decreases n - j,
    {
        let same = board.snakes[j].id == board.snakes[you].id;
        if !same {
            proof {
                assert(snake_shape_ok(b0, j as int));
                assert(b0.snakes[j as int].head == b0.snakes[j as int].body[0]);
            }
            let d = abs_diff(board.snakes[j].head.x, you_head.x) + abs_diff(
                board.snakes[j].head.y,
                you_head.y,
            );
            match nearest {
                Option::None => {
                    nearest = Some(j);
                    nearest_dist = d;
                },
                Option::Some(_) => {
                    if d < nearest_dist {
                        nearest = Some(j);
                        nearest_dist = d;
                    }
                },
            }
        }
        j = j + 1;
        proof {
            if j == n && n > 1 && nearest is None {
                if you as int == 0 {
                    assert(b0.snakes[1].id == b0.snakes[you as int].id);
                } else {
                    assert(b0.snakes[0].id == b0.snakes[you as int].id);
                }
                assert(false);
            }
        }
    }

    match nearest {
        Option::None => {
            // alone on the board: the first legal move, or none at all
            proof {
                assert forall|t: int| 0 <= t < b0.snakes.len() implies snake_shape_ok(b0, t) by {}
            }
            let possible_moves = board.generate_possible_moves(you);
            if possible_moves.len() > 0 {
                proof {
                    assert(legal_moves(b0, you as int).contains(legal_moves(b0, you as int)[0]));
                }
                Some(possible_moves[0])
            } else {
                None
            }
        },
        Option::Some(ei) => {
            proof {
                if ei as int != you as int {
                } else {
                    assert(false);
                }
            }
            let mut best: Option<Direction> = None;
            let mut score: i32 = 0;
            let mut depth: i32 = 0;
            // iterative deepening
            while depth <= 9
                invariant
                    b0 == old(board)@,
                    board@ == b0,
                    board_wf(b0),
                    b0.width == GRID_SIDE,
                    b0.height == GRID_SIDE,
                    you < b0.snakes.len(),
                    ei < b0.snakes.len(),
                    ei != you,
                    ctx_wf(*ctx),
                    0 <= depth <= 10,
                    best matches Some(d) ==> legal_moves(b0, you as int).contains(d),
                    (depth >= 1 && legal_moves(b0, you as int).len() > 0 && b0.snakes[you as int].health
                        >= 1) ==> best is Some,
                decreases 10 - depth,
            {
                depth = depth + 1;
                ctx.best_move = None;
                let s = minimax(board, you, ei, depth, 0, -9999999, 9999999, true, ctx);
                score = s;
                match ctx.best_move {
                    Option::Some(d) => {
                        best = Some(d);
                    },
                    Option::None => {},
                }
            }
            record_round(score, board, you, ei, game_recorder);
            best
        },
    }
}

} // verus!
