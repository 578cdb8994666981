//! The canonical mutable game state: a flat occupancy grid, the snake
//! arena, food, an incremental position hash, and a LIFO history of
//! actions that lets one move be applied and rolled back exactly.
use vstd::prelude::*;
use crate::game::{Battlesnake, Coord, SnakeV};

verus! {

/// What a single grid cell holds. Exactly one value per cell.
#[derive(Debug, PartialEq, Eq)]
pub enum CellContent {
    Food,
    Snake(String),
    Hazard,
    Empty,
}

/// Spec-level image of a cell; a snake occupant is its identity.
#[verifier::ext_equal]
pub ghost enum CellV {
    Food,
    Snake(Seq<char>),
    Hazard,
    Empty,
}

impl View for CellContent {
    type V = CellV;

    open spec fn view(&self) -> CellV {
        match self {
            CellContent::Food => CellV::Food,
            CellContent::Snake(id) => CellV::Snake(id@),
            CellContent::Hazard => CellV::Hazard,
            CellContent::Empty => CellV::Empty,
        }
    }
}

/// The four cardinal single-step moves.
#[derive(Debug, Clone, Copy, PartialEq, Eq, Structural)]
pub enum Direction {
    Up,
    Down,
    Left,
    Right,
}

/// The undo record for one move attempt: the minimum information needed
/// to reverse one ply without recomputing the whole board. A failed
/// attempt (out-of-bounds step) records only the failure marker.
#[derive(Debug, PartialEq, Eq)]
pub struct Action {
    pub snake_id: String,
    pub direction: Direction,
    pub old_tail: Coord,
    pub new_head: Coord,
    pub old_head: Coord,
    pub ate_food: bool,
    pub was_hazard: bool,
    pub old_health: i32,
    pub fail: bool,
}

/// Spec-level image of an action.
#[verifier::ext_equal]
pub ghost struct ActionV {
    pub snake_id: Seq<char>,
    pub direction: Direction,
    pub old_tail: Coord,
    pub new_head: Coord,
    pub old_head: Coord,
    pub ate_food: bool,
    pub was_hazard: bool,
    pub old_health: int,
    pub fail: bool,
}

impl View for Action {
    type V = ActionV;

    open spec fn view(&self) -> ActionV {
        ActionV {
            snake_id: self.snake_id@,
            direction: self.direction,
            old_tail: self.old_tail,
            new_head: self.new_head,
            old_head: self.old_head,
            ate_food: self.ate_food,
            was_hazard: self.was_hazard,
            old_health: self.old_health as int,
            fail: self.fail,
        }
    }
}

/// The board: grid dimensions, a flat occupancy grid indexed by
/// `x * height + y`, the snake arena, the food list from the snapshot,
/// the move history, and the incremental position hash together with
/// the random tables it is built from.
#[derive(Debug, PartialEq, Eq)]
pub struct GameBoard {
    pub width: i32,
    pub height: i32,
    pub matrix: Vec<CellContent>,
    pub snakes: Vec<Battlesnake>,
    pub food: Vec<Coord>,
    pub history: Vec<Action>,
    pub zobrist_hash: u64,
    pub zobrist_table: Vec<u64>,
    pub health_zobrist_table: Vec<u64>,
}

/// Spec-level image of the whole board.
#[verifier::ext_equal]
pub ghost struct BoardV {
    pub width: int,
    pub height: int,
    pub grid: Seq<CellV>,
    pub snakes: Seq<SnakeV>,
    pub food: Seq<Coord>,
    pub history: Seq<ActionV>,
    pub hash: u64,
    pub ztable: Seq<u64>,
    pub htable: Seq<u64>,
}

impl View for GameBoard {
    type V = BoardV;

    open spec fn view(&self) -> BoardV {
        BoardV {
            width: self.width as int,
            height: self.height as int,
            grid: Seq::new(self.matrix@.len(), |i: int| self.matrix@[i]@),
            snakes: Seq::new(self.snakes@.len(), |i: int| self.snakes@[i]@),
            food: self.food@,
            history: Seq::new(self.history@.len(), |i: int| self.history@[i]@),
            hash: self.zobrist_hash,
            ztable: self.zobrist_table@,
            htable: self.health_zobrist_table@,
        }
    }
}

// ---------------------------------------------------------------------
// Geometry
// ---------------------------------------------------------------------

/// Flat index of the cell at `(x, y)` in a grid of the given height.
pub open spec fn cell_idx(height: int, x: int, y: int) -> int {
    x * height + y
}

/// The coordinate one step in direction `d` from `(x, y)`, as a pair of
/// unbounded integers so that stepping off the grid is representable.
pub open spec fn step_xy(x: int, y: int, d: Direction) -> (int, int) {
    match d {
        Direction::Up => (x, y + 1),
        Direction::Down => (x, y - 1),
        Direction::Left => (x - 1, y),
        Direction::Right => (x + 1, y),
    }
}

/// Whether `(x, y)` lies on a `w` by `h` grid.
pub open spec fn xy_in_bounds(w: int, h: int, x: int, y: int) -> bool {
    0 <= x < w && 0 <= y < h
}

/// Whether some body segment of `s` lies on `(x, y)`.
pub open spec fn covers(s: SnakeV, x: int, y: int) -> bool {
    exists|k: int| 0 <= k < s.body.len() && s.body[k].x == x && s.body[k].y == y
}

// ---------------------------------------------------------------------
// Hashing
// ---------------------------------------------------------------------

/// The occupancy parity of a cell: 1 when a snake holds it, 0 otherwise.
pub open spec fn occ_bit(c: CellV) -> int {
    match c {
        CellV::Snake(_) => 1,
        _ => 0,
    }
}

/// XOR of the random values of the first `n` cells, each keyed by
/// (coordinate, occupancy parity).
pub open spec fn xor_cells(zt: Seq<u64>, grid: Seq<CellV>, n: int) -> u64
    decreases n,
{
    if n <= 0 {
        0u64
    } else {
        xor_cells(zt, grid, n - 1) ^ zt[2 * (n - 1) + occ_bit(grid[n - 1])]
    }
}

/// XOR of the random values keyed by the first `n` snakes' health.
pub open spec fn xor_healths(ht: Seq<u64>, snakes: Seq<SnakeV>, n: int) -> u64
    decreases n,
{
    if n <= 0 {
        0u64
    } else {
        xor_healths(ht, snakes, n - 1) ^ ht[snakes[n - 1].health]
    }
}

/// The position hash of a freshly built board.
pub open spec fn initial_hash(b: BoardV) -> u64 {
    xor_cells(b.ztable, b.grid, b.grid.len() as int) ^ xor_healths(
        b.htable,
        b.snakes,
        b.snakes.len() as int,
    )
}

/// The contribution a single cell's occupancy toggle makes to the hash.
pub open spec fn cell_toggle(zt: Seq<u64>, height: int, x: int, y: int) -> u64 {
    zt[2 * cell_idx(height, x, y)] ^ zt[2 * cell_idx(height, x, y) + 1]
}

/// The XOR delta a successful move contributes to the position hash:
/// the toggled cells (the vacated tail and the new head when the tail
/// actually moves; only the new head when food keeps the tail in place)
/// and the mover's old and new health keys.
pub open spec fn move_hash_delta(
    zt: Seq<u64>,
    ht: Seq<u64>,
    height: int,
    a: ActionV,
    new_health: int,
) -> u64 {
    let head_part = cell_toggle(zt, height, a.new_head.x as int, a.new_head.y as int) ^ ht[
        a.old_health
    ] ^ ht[new_health];
    if a.ate_food {
        head_part
    } else {
        head_part ^ cell_toggle(zt, height, a.old_tail.x as int, a.old_tail.y as int)
    }
}

// ---------------------------------------------------------------------
// Well-formedness
// ---------------------------------------------------------------------

/// Structural facts about the board's containers: modest grid bounds
/// and the table lengths the hash update relies on.
pub open spec fn board_dims_ok(b: BoardV) -> bool {
    &&& 1 <= b.width <= 1000
    &&& 1 <= b.height <= 1000
    &&& b.grid.len() == b.width * b.height
    &&& b.ztable.len() == 2 * b.width * b.height
    &&& b.htable.len() == 101
}

/// Shape of one snake on a `w` by `h` grid: a nonempty body of
/// in-bounds, pairwise-distinct coordinates, the head at the front, a
/// length counter equal to the body length, and health within
/// `[0, 100]`.
pub open spec fn snake_ok(w: int, h: int, s: SnakeV) -> bool {
    &&& s.body.len() >= 1
    &&& s.head == s.body[0]
    &&& s.length == s.body.len()
    &&& 0 <= s.health <= 100
    &&& forall|k: int|
        0 <= k < s.body.len() ==> xy_in_bounds(w, h, #[trigger] s.body[k].x as int, s.body[k].y as int)
    &&& forall|k1: int, k2: int|
        0 <= k1 < k2 < s.body.len() ==> #[trigger] s.body[k1] != #[trigger] s.body[k2]
}

/// `snake_ok` for the `i`-th snake of a board.
pub open spec fn snake_shape_ok(b: BoardV, i: int) -> bool {
    snake_ok(b.width, b.height, b.snakes[i])
}

/// The grid agrees with the snake arena: a cell holds a snake identity
/// exactly when some snake's body covers it.
pub open spec fn occupancy_ok(b: BoardV) -> bool {
    forall|x: int, y: int|
        xy_in_bounds(b.width, b.height, x, y) ==> {
            let c = #[trigger] b.grid[cell_idx(b.height, x, y)];
            &&& (forall|i: int|
                0 <= i < b.snakes.len() && covers(#[trigger] b.snakes[i], x, y) ==> c
                    == CellV::Snake(b.snakes[i].id))
            &&& (c is Snake ==> exists|i: int|
                0 <= i < b.snakes.len() && covers(#[trigger] b.snakes[i], x, y))
        }
}

/// The full board invariant: dimensions, snake shapes, unique
/// identities, pairwise-disjoint bodies, and grid agreement.
pub open spec fn board_wf(b: BoardV) -> bool {
    &&& board_dims_ok(b)
    &&& forall|i: int| 0 <= i < b.snakes.len() ==> snake_shape_ok(b, i)
    &&& forall|i: int, j: int|
        0 <= i < j < b.snakes.len() ==> #[trigger] b.snakes[i].id != #[trigger] b.snakes[j].id
    &&& forall|i: int, j: int, x: int, y: int|
        0 <= i < b.snakes.len() && 0 <= j < b.snakes.len() && i != j && #[trigger] covers(
            b.snakes[i],
            x,
            y,
        ) ==> !#[trigger] covers(b.snakes[j], x, y)
    &&& occupancy_ok(b)
}

// ---------------------------------------------------------------------
// Construction, at the spec level
// ---------------------------------------------------------------------

/// Whether the coordinate list holds `(x, y)`.
pub open spec fn coord_listed(coords: Seq<Coord>, x: int, y: int) -> bool {
    exists|k: int| 0 <= k < coords.len() && coords[k].x == x && coords[k].y == y
}

/// No cell of the grid is a hazard.
pub open spec fn no_hazards(b: BoardV) -> bool {
    forall|i: int| 0 <= i < b.grid.len() ==> !(#[trigger] b.grid[i] is Hazard)
}

/// The grid a fresh board carries: hazards everywhere they are listed;
/// elsewhere each snake-covered cell holds that snake's identity, and
/// every remaining cell holds food where food is listed and is empty
/// otherwise.
pub open spec fn built_grid_ok(b: BoardV, food: Seq<Coord>, hazards: Seq<Coord>) -> bool {
    forall|x: int, y: int|
        xy_in_bounds(b.width, b.height, x, y) ==> {
            let c = #[trigger] b.grid[cell_idx(b.height, x, y)];
            if coord_listed(hazards, x, y) {
                c == CellV::Hazard
            } else {
                &&& (forall|i: int|
                    0 <= i < b.snakes.len() && covers(#[trigger] b.snakes[i], x, y) ==> c
                        == CellV::Snake(b.snakes[i].id))
                &&& ((forall|i: int| 0 <= i < b.snakes.len() ==> !covers(#[trigger] b.snakes[i], x, y))
                    ==> c == (if coord_listed(food, x, y) {
                    CellV::Food
                } else {
                    CellV::Empty
                }))
            }
        }
}

/// Distinct in-bounds coordinates have distinct flat indices.
pub proof fn lemma_cell_idx_injective(h: int, x1: int, y1: int, x2: int, y2: int)
    requires
        0 <= y1 < h,
        0 <= y2 < h,
        x1 != x2 || y1 != y2,
    ensures
        cell_idx(h, x1, y1) != cell_idx(h, x2, y2),
{
    assert(x1 * h + y1 != x2 * h + y2) by (nonlinear_arith)
        requires
            0 <= y1 < h,
            0 <= y2 < h,
            x1 != x2 || y1 != y2,
    ;
}

/// The flat index of an in-bounds coordinate lies within the grid.
pub proof fn lemma_cell_idx_range(w: int, h: int, x: int, y: int)
    requires
        xy_in_bounds(w, h, x, y),
    ensures
        0 <= cell_idx(h, x, y) < w * h,
{
    assert(0 <= x * h + y < w * h) by (nonlinear_arith)
        requires
            0 <= x < w,
            0 <= y < h,
    ;
}

// ---------------------------------------------------------------------
// The move itself, at the spec level
// ---------------------------------------------------------------------

/// The undo record that a move attempt by snake `si` in direction `d`
/// produces. An out-of-bounds step yields a failure marker and touches
/// nothing else.
pub open spec fn move_action(b: BoardV, si: int, d: Direction) -> ActionV {
    let s = b.snakes[si];
    let nxy = step_xy(s.head.x as int, s.head.y as int, d);
    if !xy_in_bounds(b.width, b.height, nxy.0, nxy.1) {
        ActionV {
            snake_id: s.id,
            direction: d,
            old_tail: (Coord { x: 0, y: 0 }),
            new_head: (Coord { x: 0, y: 0 }),
            old_head: s.head,
            ate_food: false,
            was_hazard: false,
            old_health: s.health,
            fail: true,
        }
    } else {
        ActionV {
            snake_id: s.id,
            direction: d,
            old_tail: s.body.last(),
            new_head: (Coord { x: nxy.0 as i32, y: nxy.1 as i32 }),
            old_head: s.head,
            ate_food: b.grid[cell_idx(b.height, nxy.0, nxy.1)] is Food,
            was_hazard: b.grid[cell_idx(b.height, nxy.0, nxy.1)] is Hazard,
            old_health: s.health,
            fail: false,
        }
    }
}

/// The board after a move attempt by snake `si` in direction `d`.
/// On success the new head is prepended and the tail removed; food
/// refills health to 100 and keeps the tail in place (net length +1),
/// in which case the tail cell stays occupied. The vacated tail cell
/// is cleared before the new head cell is written, so a snake may step
/// into the cell its own tail is vacating.
pub open spec fn move_result(b: BoardV, si: int, d: Direction) -> BoardV {
    let a = move_action(b, si, d);
    if a.fail {
        BoardV { history: b.history.push(a), ..b }
    } else {
        let s = b.snakes[si];
        let inh = cell_idx(b.height, a.new_head.x as int, a.new_head.y as int);
        let iot = cell_idx(b.height, a.old_tail.x as int, a.old_tail.y as int);
        let new_health: int = if a.ate_food {
            100
        } else {
            s.health - 1
        };
        let s2 = SnakeV {
            id: s.id,
            health: new_health,
            body: if a.ate_food {
                seq![a.new_head] + s.body
            } else {
                seq![a.new_head] + s.body.drop_last()
            },
            head: a.new_head,
            length: if a.ate_food {
                s.length + 1
            } else {
                s.length
            },
        };
        let grid2 = if a.ate_food {
            b.grid.update(inh, CellV::Snake(s.id))
        } else {
            b.grid.update(iot, CellV::Empty).update(inh, CellV::Snake(s.id))
        };
        BoardV {
            grid: grid2,
            snakes: b.snakes.update(si, s2),
            history: b.history.push(a),
            hash: b.hash ^ move_hash_delta(b.ztable, b.htable, b.height, a, new_health),
            ..b
        }
    }
}

/// Every flat grid index is the image of an in-bounds coordinate.
pub proof fn lemma_flat_to_xy(w: int, h: int, i: int)
    requires
        1 <= w,
        1 <= h,
        0 <= i < w * h,
    ensures
        exists|x: int, y: int| xy_in_bounds(w, h, x, y) && cell_idx(h, x, y) == i,
{
    let x: int = i / h;
    let y: int = i % h;
    assert(0 <= x < w && 0 <= y < h && x * h + y == i) by (nonlinear_arith)
        requires
            1 <= h,
            0 <= i < w * h,
            x == i / h,
            y == i % h,
    ;
    assert(xy_in_bounds(w, h, x, y) && cell_idx(h, x, y) == i);
}

/// Folds the whole grid and every snake's health key into the
/// position hash, as `initial_hash` states it.
fn seed_hash(board: GameBoard) -> (r: GameBoard)
    requires
        board_dims_ok(board@),
        forall|i: int|
            0 <= i < board@.snakes.len() ==> 0 <= (#[trigger] board@.snakes[i]).health <= 100,
    ensures
        r@ == (BoardV { hash: initial_hash(board@), ..board@ }),
{
    let mut board = board;
    let ghost bv: BoardV = board@;
    proof {
        let w: int = bv.width;
        let h: int = bv.height;
        assert(w * h <= 1000000) by (nonlinear_arith)
            requires
                1 <= w <= 1000,
                1 <= h <= 1000,
        ;
        assert(2 * w * h == 2 * (w * h)) by (nonlinear_arith);
    }
    let total = board.matrix.len();
    let mut acc: u64 = 0;
    let mut k: usize = 0;
    while k < total
        invariant
            bv == board@,
            board_dims_ok(bv),
            total == bv.grid.len(),
            bv.ztable.len() == 2 * (bv.width * bv.height),
            total <= 1000000,
            k <= total,
            acc == xor_cells(bv.ztable, bv.grid, k as int),
        decreases total - k,
    {
        let occ: usize = match &board.matrix[k] {
            CellContent::Snake(_) => 1,
            _ => 0,
        };
        acc = acc ^ board.zobrist_table[2 * k + occ];
        proof {
            assert(occ == occ_bit(bv.grid[k as int]));
            assert(xor_cells(bv.ztable, bv.grid, k as int + 1) == xor_cells(
                bv.ztable,
                bv.grid,
                k as int,
            ) ^ bv.ztable[2 * (k as int) + occ_bit(bv.grid[k as int])]);
        }
        k = k + 1;
    }
    let n = board.snakes.len();
    let mut hacc: u64 = 0;
    let mut j: usize = 0;
    while j < n
        invariant
            bv == board@,
            board_dims_ok(bv),
            n == bv.snakes.len(),
            forall|i: int| 0 <= i < bv.snakes.len() ==> 0 <= (#[trigger] bv.snakes[i]).health <= 100,
            j <= n,
            hacc == xor_healths(bv.htable, bv.snakes, j as int),
        decreases n - j,
    {
        proof {
            assert(0 <= bv.snakes[j as int].health <= 100);
        }
        hacc = hacc ^ board.health_zobrist_table[board.snakes[j].health as usize];
        proof {
            assert(xor_healths(bv.htable, bv.snakes, j as int + 1) == xor_healths(
                bv.htable,
                bv.snakes,
                j as int,
            ) ^ bv.htable[bv.snakes[j as int].health]);
        }
        j = j + 1;
    }
    board.zobrist_hash = acc ^ hacc;
    proof {
        assert(board@ =~= (BoardV { hash: initial_hash(bv), ..bv }));
    }
    board
}

/// Flat index of the in-bounds cell `(x, y)` on a `width` by `height`
/// grid.
fn flat_index(width: i32, height: i32, x: i32, y: i32) -> (i: usize)
    requires
        1 <= width as int <= 1000,
        1 <= height as int <= 1000,
        xy_in_bounds(width as int, height as int, x as int, y as int),
    ensures
        i == cell_idx(height as int, x as int, y as int),
        i < (width as int) * (height as int),
{
    proof {
        let xi: int = x as int;
        let yi: int = y as int;
        let w: int = width as int;
        let h: int = height as int;
        assert(xi * h + yi < w * h && 0 <= xi * h && w * h <= 1000000) by (nonlinear_arith)
            requires
                0 <= xi < w,
                0 <= yi < h,
                w <= 1000,
                h <= 1000,
        ;
    }
    (x as usize) * (height as usize) + (y as usize)
}

impl GameBoard {
    /// Builds the board for one turn: paints food, then every snake's
    /// body, then hazards onto an empty grid (in that order, later
    /// writes winning), and seeds the incremental position hash from
    /// the supplied random tables.
    pub fn new(
        width: i32,
        height: i32,
        food: Vec<Coord>,
        snakes: Vec<Battlesnake>,
        hazards: Vec<Coord>,
        zobrist_table: Vec<u64>,
        health_zobrist_table: Vec<u64>,
    ) -> (board: GameBoard)
        requires
            1 <= width as int <= 1000,
            1 <= height as int <= 1000,
            zobrist_table@.len() == 2 * (width as int) * (height as int),
            health_zobrist_table@.len() == 101,
            forall|k: int|
                0 <= k < food@.len() ==> xy_in_bounds(
                    width as int,
                    height as int,
                    (#[trigger] food@[k]).x as int,
                    food@[k].y as int,
                ),
            forall|k: int|
                0 <= k < hazards@.len() ==> xy_in_bounds(
                    width as int,
                    height as int,
                    (#[trigger] hazards@[k]).x as int,
                    hazards@[k].y as int,
                ),
            forall|i: int|
                0 <= i < snakes@.len() ==> snake_ok(
                    width as int,
                    height as int,
                    (#[trigger] snakes@[i])@,
                ),
            forall|i: int, j: int|
                0 <= i < j < snakes@.len() ==> (#[trigger] snakes@[i])@.id != (#[trigger] snakes@[j])@.id,
            forall|i: int, j: int, x: int, y: int|
                0 <= i < snakes@.len() && 0 <= j < snakes@.len() && i != j && #[trigger] covers(
                    snakes@[i]@,
                    x,
                    y,
                ) ==> !#[trigger] covers(snakes@[j]@, x, y),
            forall|i: int, x: int, y: int|
                0 <= i < snakes@.len() && #[trigger] covers(snakes@[i]@, x, y) ==> !coord_listed(
                    hazards@,
                    x,
                    y,
                ),
        ensures
            board@.width == width as int,
            board@.height == height as int,
            board_dims_ok(board@),
            board@.snakes.len() == snakes@.len(),
            forall|i: int| 0 <= i < snakes@.len() ==> board@.snakes[i] == (#[trigger] snakes@[i])@,
            board@.food == food@,
            board@.history.len() == 0,
            board@.ztable == zobrist_table@,
            board@.htable == health_zobrist_table@,
            built_grid_ok(board@, food@, hazards@),
            board@.hash == initial_hash(board@),
            board_wf(board@),
            hazards@.len() == 0 ==> no_hazards(board@),
    {
        let ghost wi: int = width as int;
        let ghost hi: int = height as int;
        let ghost foodv: Seq<Coord> = food@;
        let ghost hazv: Seq<Coord> = hazards@;
        proof {
            assert(1 <= wi * hi <= 1000000) by (nonlinear_arith)
                requires
                    1 <= wi <= 1000,
                    1 <= hi <= 1000,
            ;
        }
        let total: usize = (width as usize) * (height as usize);

        let mut matrix: Vec<CellContent> = Vec::new();
        while matrix.len() < total
            invariant
                total == wi * hi,
                matrix@.len() <= total,
                forall|j: int| 0 <= j < matrix@.len() ==> (#[trigger] matrix@[j])@ == CellV::Empty,
            decreases total - matrix.len(),
        {
            matrix.push(CellContent::Empty);
        }
        proof {
            assert forall|x: int, y: int| xy_in_bounds(wi, hi, x, y) implies (#[trigger] matrix@[cell_idx(
                hi,
                x,
                y,
            )])@ == CellV::Empty by {
                lemma_cell_idx_range(wi, hi, x, y);
            }
        }

        // food first
        let mut t: usize = 0;
        while t < food.len()
            invariant
                total == wi * hi,
                1 <= wi <= 1000,
                1 <= hi <= 1000,
                wi == width as int,
                hi == height as int,
                matrix@.len() == total,
                t <= food@.len(),
                forall|k: int|
                    0 <= k < food@.len() ==> xy_in_bounds(
                        wi,
                        hi,
                        (#[trigger] food@[k]).x as int,
                        food@[k].y as int,
                    ),
                forall|x: int, y: int|
                    xy_in_bounds(wi, hi, x, y) ==> {
                        let c = (#[trigger] matrix@[cell_idx(hi, x, y)])@;
                        if coord_listed(food@.take(t as int), x, y) {
                            c == CellV::Food
                        } else {
                            c == CellV::Empty
                        }
                    },
            decreases food.len() - t,
        {
            let ghost m0 = matrix@;
            let c = food[t];
            let i = flat_index(width, height, c.x, c.y);
            matrix[i] = CellContent::Food;
            proof {
                lemma_cell_idx_range(wi, hi, c.x as int, c.y as int);
                assert forall|x: int, y: int| xy_in_bounds(wi, hi, x, y) implies {
                    let cc = (#[trigger] matrix@[cell_idx(hi, x, y)])@;
                    if coord_listed(food@.take(t as int + 1), x, y) {
                        cc == CellV::Food
                    } else {
                        cc == CellV::Empty
                    }
                } by {
                    if x == c.x as int && y == c.y as int {
                        assert(food@.take(t as int + 1)[t as int] == c);
                        assert(coord_listed(food@.take(t as int + 1), x, y));
                    } else {
                        lemma_cell_idx_range(wi, hi, x, y);
                        lemma_cell_idx_injective(hi, x, y, c.x as int, c.y as int);
                        assert(matrix@[cell_idx(hi, x, y)] == m0[cell_idx(hi, x, y)]);
                        assert(coord_listed(food@.take(t as int + 1), x, y) == coord_listed(
                            food@.take(t as int),
                            x,
                            y,
                        )) by {
                            if coord_listed(food@.take(t as int + 1), x, y) {
                                let k = choose|k: int|
                                    0 <= k < food@.take(t as int + 1).len() && (#[trigger] food@.take(
                                        t as int + 1,
                                    )[k]).x == x && food@.take(t as int + 1)[k].y == y;
                                assert(k < t as int);
                                assert(food@.take(t as int)[k] == food@[k]);
                            }
                            if coord_listed(food@.take(t as int), x, y) {
                                let k = choose|k: int|
                                    0 <= k < food@.take(t as int).len() && (#[trigger] food@.take(
                                        t as int,
                                    )[k]).x == x && food@.take(t as int)[k].y == y;
                                assert(food@.take(t as int + 1)[k] == food@[k]);
                            }
                        }
                    }
                }
            }
            t = t + 1;
        }
        proof {
            assert(food@.take(food@.len() as int) =~= food@);
        }

        // snake bodies next, each overwriting whatever was beneath it
        let n_snakes = snakes.len();
        let mut si: usize = 0;
        while si < n_snakes
            invariant
                total == wi * hi,
                1 <= wi <= 1000,
                1 <= hi <= 1000,
                wi == width as int,
                hi == height as int,
                matrix@.len() == total,
                n_snakes == snakes@.len(),
                si <= n_snakes,
                forall|i: int|
                    0 <= i < snakes@.len() ==> snake_ok(wi, hi, (#[trigger] snakes@[i])@),
                forall|i: int, j: int, x: int, y: int|
                    0 <= i < snakes@.len() && 0 <= j < snakes@.len() && i != j && #[trigger] covers(
                        snakes@[i]@,
                        x,
                        y,
                    ) ==> !#[trigger] covers(snakes@[j]@, x, y),
                forall|ii: int, x: int, y: int|
                    0 <= ii < si && #[trigger] covers(snakes@[ii]@, x, y) ==> matrix@[cell_idx(
                        hi,
                        x,
                        y,
                    )]@ == CellV::Snake(snakes@[ii]@.id),
                forall|x: int, y: int|
                    xy_in_bounds(wi, hi, x, y) && (forall|ii: int|
                        0 <= ii < si ==> !covers(#[trigger] snakes@[ii]@, x, y)) ==> {
                        let c = (#[trigger] matrix@[cell_idx(hi, x, y)])@;
                        if coord_listed(food@, x, y) {
                            c == CellV::Food
                        } else {
                            c == CellV::Empty
                        }
                    },
            decreases n_snakes - si,
        {
            let body_len = snakes[si].body.len();
            let mut k: usize = 0;
            while k < body_len
                invariant
                    total == wi * hi,
                    1 <= wi <= 1000,
                    1 <= hi <= 1000,
                    wi == width as int,
                    hi == height as int,
                    matrix@.len() == total,
                    n_snakes == snakes@.len(),
                    si < n_snakes,
                    body_len == snakes@[si as int]@.body.len(),
                    k <= body_len,
                    forall|i: int|
                        0 <= i < snakes@.len() ==> snake_ok(wi, hi, (#[trigger] snakes@[i])@),
                    forall|i: int, j: int, x: int, y: int|
                        0 <= i < snakes@.len() && 0 <= j < snakes@.len() && i != j
                            && #[trigger] covers(snakes@[i]@, x, y) ==> !#[trigger] covers(
                            snakes@[j]@,
                            x,
                            y,
                        ),
                    forall|ii: int, x: int, y: int|
                        0 <= ii < si && #[trigger] covers(snakes@[ii]@, x, y) ==> matrix@[cell_idx(
                            hi,
                            x,
                            y,
                        )]@ == CellV::Snake(snakes@[ii]@.id),
                    forall|k2: int|
                        0 <= k2 < k ==> matrix@[cell_idx(
                            hi,
                            (#[trigger] snakes@[si as int]@.body[k2]).x as int,
                            snakes@[si as int]@.body[k2].y as int,
                        )]@ == CellV::Snake(snakes@[si as int]@.id),
                    forall|x: int, y: int|
                        xy_in_bounds(wi, hi, x, y) && (forall|ii: int|
                            0 <= ii < si ==> !covers(#[trigger] snakes@[ii]@, x, y)) && (forall|
                            k2: int,
                        |
                            0 <= k2 < k ==> !((#[trigger] snakes@[si as int]@.body[k2]).x as int
                                == x && snakes@[si as int]@.body[k2].y as int == y)) ==> {
                            let c = (#[trigger] matrix@[cell_idx(hi, x, y)])@;
                            if coord_listed(food@, x, y) {
                                c == CellV::Food
                            } else {
                                c == CellV::Empty
                            }
                        },
                decreases body_len - k,
            {
                let ghost m0 = matrix@;
                let ghost sv = snakes@[si as int]@;
                let c = snakes[si].body[k];
                proof {
                    assert(snake_ok(wi, hi, sv));
                    assert(xy_in_bounds(wi, hi, sv.body[k as int].x as int, sv.body[k as int].y as int));
                }
                let i = flat_index(width, height, c.x, c.y);
                let id = snakes[si].id.clone();
                matrix[i] = CellContent::Snake(id);
                proof {
                    lemma_cell_idx_range(wi, hi, c.x as int, c.y as int);
                    let cx: int = c.x as int;
                    let cy: int = c.y as int;
                    // other snakes' cells are untouched: the writer covers this one
                    assert(covers(sv, cx, cy));
                    assert forall|ii: int, x: int, y: int|
                        0 <= ii < si && #[trigger] covers(snakes@[ii]@, x, y) implies matrix@[cell_idx(
                        hi,
                        x,
                        y,
                    )]@ == CellV::Snake(snakes@[ii]@.id) by {
                        let kw = choose|kk: int|
                            0 <= kk < snakes@[ii]@.body.len() && (#[trigger] snakes@[ii]@.body[kk]).x
                                == x && snakes@[ii]@.body[kk].y == y;
                        assert(snake_ok(wi, hi, snakes@[ii]@));
                        assert(xy_in_bounds(wi, hi, x, y));
                        lemma_cell_idx_range(wi, hi, x, y);
                        if x == cx && y == cy {
                            assert(covers(snakes@[ii]@, x, y) && covers(snakes@[si as int]@, x, y));
                            assert(false);
                        } else {
                            lemma_cell_idx_injective(hi, x, y, cx, cy);
                        }
                    }
                    // earlier segments of this snake keep their cells
                    assert forall|k2: int| 0 <= k2 < k + 1 implies matrix@[cell_idx(
                        hi,
                        (#[trigger] sv.body[k2]).x as int,
                        sv.body[k2].y as int,
                    )]@ == CellV::Snake(sv.id) by {
                        if k2 < k {
                            let bx: int = sv.body[k2].x as int;
                            let by: int = sv.body[k2].y as int;
                            assert(xy_in_bounds(wi, hi, bx, by));
                            lemma_cell_idx_range(wi, hi, bx, by);
                            if bx == cx && by == cy {
                            } else {
                                lemma_cell_idx_injective(hi, bx, by, cx, cy);
                            }
                        }
                    }
                    // untouched cells keep the food formula
                    assert forall|x: int, y: int|
                        xy_in_bounds(wi, hi, x, y) && (forall|ii: int|
                            0 <= ii < si ==> !covers(#[trigger] snakes@[ii]@, x, y)) && (forall|
                            k2: int,
                        |
                            0 <= k2 < k + 1 ==> !((#[trigger] sv.body[k2]).x as int == x
                                && sv.body[k2].y as int == y)) implies {
                        let cc = (#[trigger] matrix@[cell_idx(hi, x, y)])@;
                        if coord_listed(food@, x, y) {
                            cc == CellV::Food
                        } else {
                            cc == CellV::Empty
                        }
                    } by {
                        assert(!(sv.body[k as int].x as int == x && sv.body[k as int].y as int == y));
                        lemma_cell_idx_range(wi, hi, x, y);
                        lemma_cell_idx_injective(hi, x, y, cx, cy);
                        assert(matrix@[cell_idx(hi, x, y)] == m0[cell_idx(hi, x, y)]);
                    }
                }
                k = k + 1;
            }
            proof {
                let sv = snakes@[si as int]@;
                assert forall|x: int, y: int| #[trigger] covers(sv, x, y) implies matrix@[cell_idx(
                    hi,
                    x,
                    y,
                )]@ == CellV::Snake(sv.id) by {
                    let k2 = choose|k2: int|
                        0 <= k2 < sv.body.len() && (#[trigger] sv.body[k2]).x == x && sv.body[k2].y
                            == y;
                    assert(matrix@[cell_idx(hi, sv.body[k2].x as int, sv.body[k2].y as int)]@
                        == CellV::Snake(sv.id));
                }
            }
            si = si + 1;
        }

        // hazards last
        let mut t: usize = 0;
        while t < hazards.len()
            invariant
                total == wi * hi,
                1 <= wi <= 1000,
                1 <= hi <= 1000,
                wi == width as int,
                hi == height as int,
                matrix@.len() == total,
                t <= hazards@.len(),
                n_snakes == snakes@.len(),
                forall|i: int|
                    0 <= i < snakes@.len() ==> snake_ok(wi, hi, (#[trigger] snakes@[i])@),
                forall|k: int|
                    0 <= k < hazards@.len() ==> xy_in_bounds(
                        wi,
                        hi,
                        (#[trigger] hazards@[k]).x as int,
                        hazards@[k].y as int,
                    ),
                forall|i: int, x: int, y: int|
                    0 <= i < snakes@.len() && #[trigger] covers(snakes@[i]@, x, y)
                        ==> !coord_listed(hazards@, x, y),
                forall|x: int, y: int|
                    xy_in_bounds(wi, hi, x, y) && coord_listed(hazards@.take(t as int), x, y)
                        ==> (#[trigger] matrix@[cell_idx(hi, x, y)])@ == CellV::Hazard,
                forall|ii: int, x: int, y: int|
                    0 <= ii < n_snakes && #[trigger] covers(snakes@[ii]@, x, y) ==> matrix@[cell_idx(
                        hi,
                        x,
                        y,
                    )]@ == CellV::Snake(snakes@[ii]@.id),
                forall|x: int, y: int|
                    xy_in_bounds(wi, hi, x, y) && (forall|ii: int|
                        0 <= ii < n_snakes ==> !covers(#[trigger] snakes@[ii]@, x, y))
                        && !coord_listed(hazards@.take(t as int), x, y) ==> {
                        let c = (#[trigger] matrix@[cell_idx(hi, x, y)])@;
                        if coord_listed(food@, x, y) {
                            c == CellV::Food
                        } else {
                            c == CellV::Empty
                        }
                    },
            decreases hazards.len() - t,
        {
            let ghost m0 = matrix@;
            let c = hazards[t];
            let i = flat_index(width, height, c.x, c.y);
            matrix[i] = CellContent::Hazard;
            proof {
                lemma_cell_idx_range(wi, hi, c.x as int, c.y as int);
                let cx: int = c.x as int;
                let cy: int = c.y as int;
                assert(hazards@.take(t as int + 1)[t as int] == hazards@[t as int]);
                assert(coord_listed(hazards@.take(t as int + 1), cx, cy));
                assert forall|x: int, y: int|
                    xy_in_bounds(wi, hi, x, y) && coord_listed(
                        hazards@.take(t as int + 1),
                        x,
                        y,
                    ) implies (#[trigger] matrix@[cell_idx(hi, x, y)])@ == CellV::Hazard by {
                    lemma_cell_idx_range(wi, hi, x, y);
                    if x == cx && y == cy {
                    } else {
                        lemma_cell_idx_injective(hi, x, y, cx, cy);
                        let k = choose|k: int|
                            0 <= k < hazards@.take(t as int + 1).len() && (#[trigger] hazards@.take(
                                t as int + 1,
                            )[k]).x == x && hazards@.take(t as int + 1)[k].y == y;
                        assert(k < t as int);
                        assert(hazards@.take(t as int)[k] == hazards@[k]);
                        assert(coord_listed(hazards@.take(t as int), x, y));
                    }
                }
                assert forall|ii: int, x: int, y: int|
                    0 <= ii < n_snakes && #[trigger] covers(snakes@[ii]@, x, y) implies matrix@[cell_idx(
                    hi,
                    x,
                    y,
                )]@ == CellV::Snake(snakes@[ii]@.id) by {
                    let kw = choose|kk: int|
                        0 <= kk < snakes@[ii]@.body.len() && (#[trigger] snakes@[ii]@.body[kk]).x
                            == x && snakes@[ii]@.body[kk].y == y;
                    assert(snake_ok(wi, hi, snakes@[ii]@));
                    assert(xy_in_bounds(wi, hi, x, y));
                    lemma_cell_idx_range(wi, hi, x, y);
                    assert(!coord_listed(hazards@, x, y));
                    if x == cx && y == cy {
                        assert(hazards@[t as int] == c);
                        assert(coord_listed(hazards@, x, y));
                        assert(false);
                    } else {
                        lemma_cell_idx_injective(hi, x, y, cx, cy);
                    }
                }
                assert forall|x: int, y: int|
                    xy_in_bounds(wi, hi, x, y) && (forall|ii: int|
                        0 <= ii < n_snakes ==> !covers(#[trigger] snakes@[ii]@, x, y))
                        && !coord_listed(hazards@.take(t as int + 1), x, y) implies {
                    let cc = (#[trigger] matrix@[cell_idx(hi, x, y)])@;
                    if coord_listed(food@, x, y) {
                        cc == CellV::Food
                    } else {
                        cc == CellV::Empty
                    }
                } by {
                    if x == cx && y == cy {
                        assert(coord_listed(hazards@.take(t as int + 1), x, y));
                        assert(false);
                    } else {
                        lemma_cell_idx_range(wi, hi, x, y);
                        lemma_cell_idx_injective(hi, x, y, cx, cy);
                        assert(matrix@[cell_idx(hi, x, y)] == m0[cell_idx(hi, x, y)]);
                        if coord_listed(hazards@.take(t as int), x, y) {
                            let k = choose|k: int|
                                0 <= k < hazards@.take(t as int).len() && (#[trigger] hazards@.take(
                                    t as int,
                                )[k]).x == x && hazards@.take(t as int)[k].y == y;
                            assert(hazards@.take(t as int + 1)[k] == hazards@[k]);
                            assert(coord_listed(hazards@.take(t as int + 1), x, y));
                            assert(false);
                        }
                    }
                }
            }
            t = t + 1;
        }
        proof {
            assert(hazards@.take(hazards@.len() as int) =~= hazards@);
        }

        let ghost gridv: Seq<CellV> = Seq::new(matrix@.len(), |i: int| matrix@[i]@);
        let ghost snakesv: Seq<SnakeV> = Seq::new(snakes@.len(), |i: int| snakes@[i]@);
        proof {
            assert(hazards@.take(hazards@.len() as int) == hazards@);
            // the paint-loop results, restated over the ghost images
            assert forall|i: int| 0 <= i < snakesv.len() implies snake_ok(
                wi,
                hi,
                #[trigger] snakesv[i],
            ) by {
                assert(snakesv[i] == snakes@[i]@);
            }
            assert forall|ii: int, x: int, y: int|
                0 <= ii < snakesv.len() && #[trigger] covers(snakesv[ii], x, y) implies gridv[cell_idx(
                hi,
                x,
                y,
            )] == CellV::Snake(snakesv[ii].id) by {
                assert(snakesv[ii] == snakes@[ii]@);
                let kw = choose|kk: int|
                    0 <= kk < snakes@[ii]@.body.len() && (#[trigger] snakes@[ii]@.body[kk]).x == x
                        && snakes@[ii]@.body[kk].y == y;
                assert(snake_ok(wi, hi, snakes@[ii]@));
                assert(xy_in_bounds(wi, hi, x, y));
                lemma_cell_idx_range(wi, hi, x, y);
                assert(covers(snakes@[ii]@, x, y));
            }
            assert forall|x: int, y: int|
                xy_in_bounds(wi, hi, x, y) && coord_listed(hazv, x, y) implies gridv[cell_idx(
                hi,
                x,
                y,
            )] == CellV::Hazard by {
                lemma_cell_idx_range(wi, hi, x, y);
            }
            assert forall|x: int, y: int|
                xy_in_bounds(wi, hi, x, y) && (forall|ii: int|
                    0 <= ii < snakesv.len() ==> !covers(#[trigger] snakesv[ii], x, y))
                    && !coord_listed(hazv, x, y) implies gridv[cell_idx(hi, x, y)] == (
            if coord_listed(foodv, x, y) {
                CellV::Food
            } else {
                CellV::Empty
            }) by {
                lemma_cell_idx_range(wi, hi, x, y);
                assert forall|ii: int| 0 <= ii < snakes@.len() implies !covers(
                    #[trigger] snakes@[ii]@,
                    x,
                    y,
                ) by {
                    assert(snakesv[ii] == snakes@[ii]@);
                }
            }
            assert forall|i: int, j: int| 0 <= i < j < snakesv.len() implies (
            #[trigger] snakesv[i]).id != (#[trigger] snakesv[j]).id by {
                assert(snakesv[i] == snakes@[i]@ && snakesv[j] == snakes@[j]@);
            }
            assert forall|i: int, j: int, x: int, y: int|
                0 <= i < snakesv.len() && 0 <= j < snakesv.len() && i != j && #[trigger] covers(
                    snakesv[i],
                    x,
                    y,
                ) implies !#[trigger] covers(snakesv[j], x, y) by {
                assert(snakesv[i] == snakes@[i]@ && snakesv[j] == snakes@[j]@);
                assert(covers(snakes@[i]@, x, y));
            }
            assert forall|i: int, x: int, y: int|
                0 <= i < snakesv.len() && #[trigger] covers(snakesv[i], x, y)
                    implies !coord_listed(hazv, x, y) by {
                assert(snakesv[i] == snakes@[i]@);
                assert(covers(snakes@[i]@, x, y));
            }
        }

        let board = GameBoard {
            width,
            height,
            matrix,
            snakes,
            food,
            history: Vec::new(),
            zobrist_hash: 0,
            zobrist_table,
            health_zobrist_table,
        };
        let board = seed_hash(board);
        proof {
            let bv = board@;
            assert(bv.grid =~= gridv);
            assert(bv.snakes =~= snakesv);
            assert(bv.food =~= foodv);
            assert(bv.history =~= Seq::<ActionV>::empty());
            // grid agreement and the full invariant
            assert forall|x: int, y: int| xy_in_bounds(bv.width, bv.height, x, y) implies {
                let c = #[trigger] bv.grid[cell_idx(bv.height, x, y)];
                if coord_listed(hazv, x, y) {
                    c == CellV::Hazard
                } else {
                    &&& (forall|i: int|
                        0 <= i < bv.snakes.len() && covers(#[trigger] bv.snakes[i], x, y) ==> c
                            == CellV::Snake(bv.snakes[i].id))
                    &&& ((forall|i: int|
                        0 <= i < bv.snakes.len() ==> !covers(#[trigger] bv.snakes[i], x, y)) ==> c
                        == (if coord_listed(foodv, x, y) {
                        CellV::Food
                    } else {
                        CellV::Empty
                    }))
                    &&& (c is Snake ==> exists|i: int|
                        0 <= i < bv.snakes.len() && covers(#[trigger] bv.snakes[i], x, y))
                }
            } by {
                lemma_cell_idx_range(wi, hi, x, y);
                assert(bv.grid[cell_idx(bv.height, x, y)] == gridv[cell_idx(hi, x, y)]);
                if !coord_listed(hazv, x, y) {
                    assert forall|i: int|
                        0 <= i < bv.snakes.len() && covers(#[trigger] bv.snakes[i], x, y) implies gridv[cell_idx(
                        hi,
                        x,
                        y,
                    )] == CellV::Snake(bv.snakes[i].id) by {
                        assert(bv.snakes[i] == snakesv[i]);
                        assert(covers(snakesv[i], x, y));
                    }
                    if exists|i: int|
                        0 <= i < bv.snakes.len() && covers(#[trigger] bv.snakes[i], x, y) {
                    } else {
                        assert forall|ii: int| 0 <= ii < snakesv.len() implies !covers(
                            #[trigger] snakesv[ii],
                            x,
                            y,
                        ) by {
                            assert(bv.snakes[ii] == snakesv[ii]);
                        }
                        assert(gridv[cell_idx(hi, x, y)] == (if coord_listed(foodv, x, y) {
                            CellV::Food
                        } else {
                            CellV::Empty
                        }));
                    }
                }
            }
            assert(built_grid_ok(bv, foodv, hazv));
            assert(occupancy_ok(bv));
            assert forall|i: int| 0 <= i < bv.snakes.len() implies snake_shape_ok(bv, i) by {
                assert(bv.snakes[i] == snakesv[i]);
                assert(snake_ok(wi, hi, snakesv[i]));
            }
            assert forall|i: int, j: int| 0 <= i < j < bv.snakes.len() implies (
            #[trigger] bv.snakes[i]).id != (#[trigger] bv.snakes[j]).id by {
                assert(bv.snakes[i] == snakesv[i] && bv.snakes[j] == snakesv[j]);
            }
            assert forall|i: int, j: int, x: int, y: int|
                0 <= i < bv.snakes.len() && 0 <= j < bv.snakes.len() && i != j && #[trigger] covers(
                    bv.snakes[i],
                    x,
                    y,
                ) implies !#[trigger] covers(bv.snakes[j], x, y) by {
                assert(bv.snakes[i] == snakesv[i] && bv.snakes[j] == snakesv[j]);
                assert(covers(snakesv[i], x, y));
            }
            assert(board_wf(bv));
            assert forall|i: int| 0 <= i < bv.snakes.len() implies bv.snakes[i] == (
            #[trigger] snakes@[i])@ by {
                assert(bv.snakes[i] == snakesv[i]);
            }
            if hazv.len() == 0 {
                assert forall|i: int| 0 <= i < bv.grid.len() implies !(#[trigger] bv.grid[i]
                    is Hazard) by {
                    lemma_flat_to_xy(bv.width, bv.height, i);
                    let (x, y) = choose|x: int, y: int|
                        xy_in_bounds(bv.width, bv.height, x, y) && cell_idx(bv.height, x, y) == i;
                    assert(!coord_listed(hazv, x, y));
                    assert(bv.grid[cell_idx(bv.height, x, y)] is Hazard ==> coord_listed(
                        hazv,
                        x,
                        y,
                    ));
                }
            }
        }
        board
    }

    /// Flat index of the in-bounds cell `(x, y)`.
    fn grid_index(&self, x: i32, y: i32) -> (i: usize)
        requires
            board_dims_ok(self@),
            xy_in_bounds(self@.width, self@.height, x as int, y as int),
        ensures
            i == cell_idx(self@.height, x as int, y as int),
            i < self@.grid.len(),
    {
        proof {
            let xi: int = x as int;
            let yi: int = y as int;
            let w: int = self@.width;
            let h: int = self@.height;
            assert(xi * h + yi < w * h && 0 <= xi * h && w * h <= 1000000) by (nonlinear_arith)
                requires
                    0 <= xi < w,
                    0 <= yi < h,
                    w <= 1000,
                    h <= 1000,
            ;
        }
        (x as usize) * (self.height as usize) + (y as usize)
    }

    /// Applies one single-step move for snake `si`. Fails — recording
    /// only a failure marker — exactly when the step leaves the grid;
    /// otherwise mutates the board as `move_result` describes and
    /// folds `move_hash_delta` into the position hash.
    pub fn move_snake(&mut self, si: usize, direction: Direction) -> (ok: bool)
        requires
            board_dims_ok(old(self)@),
            si < old(self)@.snakes.len(),
            snake_shape_ok(old(self)@, si as int),
            old(self)@.snakes[si as int].health >= 1,
        ensures
            ok == !move_action(old(self)@, si as int, direction).fail,
            final(self)@ == move_result(old(self)@, si as int, direction),
    {
        let ghost b0: BoardV = self@;
        let old_head = self.snakes[si].head;
        let snake_id = self.snakes[si].id.clone();
        let old_health = self.snakes[si].health;

        let new_head = match direction {
            Direction::Up => Coord { x: old_head.x, y: old_head.y + 1 },
            Direction::Down => Coord { x: old_head.x, y: old_head.y - 1 },
            Direction::Left => Coord { x: old_head.x - 1, y: old_head.y },
            Direction::Right => Coord { x: old_head.x + 1, y: old_head.y },
        };

        if new_head.x >= self.width || new_head.x < 0 || new_head.y >= self.height || new_head.y
            < 0 {
            let action = Action {
                snake_id,
                direction,
                old_tail: Coord { x: 0, y: 0 },
                new_head: Coord { x: 0, y: 0 },
                old_head,
                ate_food: false,
                was_hazard: false,
                old_health,
                fail: true,
            };
            self.history.push(action);
            proof {
                assert(self@ =~= move_result(b0, si as int, direction));
            }
            return false;
        }

        let inh = self.grid_index(new_head.x, new_head.y);
        let ate_food = matches!(self.matrix[inh], CellContent::Food);
        let was_hazard = matches!(self.matrix[inh], CellContent::Hazard);

        proof {
            lemma_body_len_bound(b0, si as int);
            let w: int = b0.width;
            let h: int = b0.height;
            assert(w * h <= 1000000) by (nonlinear_arith)
                requires
                    1 <= w <= 1000,
                    1 <= h <= 1000,
            ;
            assert(2 * w * h == 2 * (w * h)) by (nonlinear_arith);
        }

        let s = &mut self.snakes[si];
        s.body.insert(0, new_head);
        s.head = new_head;
        let old_tail = s.body.pop().unwrap();
        s.health = old_health - 1;
        if ate_food {
            s.health = 100;
            s.body.push(old_tail);
            s.length = s.length + 1;
        }

        let iot = self.grid_index(old_tail.x, old_tail.y);
        if !ate_food {
            self.matrix[iot] = CellContent::Empty;
        }
        self.matrix[inh] = CellContent::Snake(snake_id.clone());

        let new_health = self.snakes[si].health;
        let delta = self.zobrist_table[2 * inh] ^ self.zobrist_table[2 * inh + 1] ^ self
            .health_zobrist_table[old_health as usize] ^ self.health_zobrist_table[new_health
            as usize];
        let tail_toggle = self.zobrist_table[2 * iot] ^ self.zobrist_table[2 * iot + 1];
        let delta = if ate_food {
            delta
        } else {
            delta ^ tail_toggle
        };
        self.zobrist_hash = self.zobrist_hash ^ delta;

        let action = Action {
            snake_id,
            direction,
            old_tail,
            new_head,
            old_head,
            ate_food,
            was_hazard,
            old_health,
            fail: false,
        };
        self.history.push(action);

        proof {
            let a = move_action(b0, si as int, direction);
            assert(self@.grid =~= move_result(b0, si as int, direction).grid);
            assert(self@.snakes[si as int].body =~= move_result(
                b0,
                si as int,
                direction,
            ).snakes[si as int].body);
            assert(self@.snakes =~= move_result(b0, si as int, direction).snakes);
            assert(self@.history =~= move_result(b0, si as int, direction).history);
            assert(self@ =~= move_result(b0, si as int, direction));
        }
        true
    }
}

// ---------------------------------------------------------------------
// Undo, at the spec level
// ---------------------------------------------------------------------

/// `i` is the position of the first snake whose identity is `id`.
pub open spec fn is_first_match(snakes: Seq<SnakeV>, id: Seq<char>, i: int) -> bool {
    &&& 0 <= i < snakes.len()
    &&& snakes[i].id == id
    &&& forall|j: int| 0 <= j < i ==> #[trigger] snakes[j].id != id
}

/// Position of the first snake whose identity is `id` (meaningful only
/// when one exists).
pub open spec fn find_snake(snakes: Seq<SnakeV>, id: Seq<char>) -> int {
    choose|i: int| is_first_match(snakes, id, i)
}

/// What popping the last history entry must be able to rely on: for a
/// recorded non-failure the snake is still present, the recorded cells
/// are on the grid, and the health values index the health key table.
pub open spec fn undo_safe(b: BoardV) -> bool {
    b.history.len() > 0 ==> {
        let a = b.history.last();
        a.fail || {
            let si = find_snake(b.snakes, a.snake_id);
            &&& exists|i: int| is_first_match(b.snakes, a.snake_id, i)
            &&& b.snakes[si].body.len() >= 1
            &&& xy_in_bounds(b.width, b.height, a.new_head.x as int, a.new_head.y as int)
            &&& xy_in_bounds(b.width, b.height, a.old_tail.x as int, a.old_tail.y as int)
            &&& 0 <= a.old_health <= 100
            &&& 0 <= b.snakes[si].health <= 100
            &&& b.snakes[si].length > i32::MIN
        }
    }
}

/// The board after rolling back the most recent recorded action: the
/// exact inverse of the mutation `move_result` describes, including the
/// hash (the same XOR delta is folded in again).
pub open spec fn undo_result(b: BoardV) -> BoardV {
    let a = b.history.last();
    let popped = BoardV { history: b.history.drop_last(), ..b };
    if a.fail {
        popped
    } else {
        let si = find_snake(b.snakes, a.snake_id);
        let s = b.snakes[si];
        let inh = cell_idx(b.height, a.new_head.x as int, a.new_head.y as int);
        let iot = cell_idx(b.height, a.old_tail.x as int, a.old_tail.y as int);
        let s2 = SnakeV {
            id: s.id,
            health: a.old_health,
            body: if a.ate_food {
                s.body.remove(0)
            } else {
                s.body.push(a.old_tail).remove(0)
            },
            head: a.old_head,
            length: if a.ate_food {
                s.length - 1
            } else {
                s.length
            },
        };
        let grid2 = if a.ate_food {
            b.grid.update(inh, CellV::Food)
        } else if a.was_hazard {
            b.grid.update(inh, CellV::Hazard).update(iot, CellV::Snake(s.id))
        } else {
            b.grid.update(inh, CellV::Empty).update(iot, CellV::Snake(s.id))
        };
        BoardV {
            grid: grid2,
            snakes: b.snakes.update(si, s2),
            history: b.history.drop_last(),
            hash: b.hash ^ move_hash_delta(b.ztable, b.htable, b.height, a, s.health),
            ..b
        }
    }
}

impl GameBoard {
    /// Resolves a snake identity to its arena position. The identity
    /// must be present; callers that are unsure test `has_snake` first.
    pub fn get_snake(&self, snake_id: &String) -> (i: usize)
        requires
            exists|j: int| is_first_match(self@.snakes, snake_id@, j),
        ensures
            is_first_match(self@.snakes, snake_id@, i as int),
            i as int == find_snake(self@.snakes, snake_id@),
    {
        let n = self.snakes.len();
        let mut i: usize = 0;
        while i < n
            invariant
                n == self@.snakes.len(),
                0 <= i <= n,
                exists|j: int| is_first_match(self@.snakes, snake_id@, j),
                forall|j: int| 0 <= j < i ==> #[trigger] self@.snakes[j].id != snake_id@,
            decreases n - i,
        {
            if self.snakes[i].id == *snake_id {
                proof {
                    let w = choose|j: int| is_first_match(self@.snakes, snake_id@, j);
                    assert(is_first_match(self@.snakes, snake_id@, i as int));
                }
                return i;
            }
            i = i + 1;
        }
        proof {
            let w = choose|j: int| is_first_match(self@.snakes, snake_id@, j);
            assert(self@.snakes[w].id != snake_id@);
            assert(false);
        }
        0
    }

    /// Whether a snake with the given identity is on the board.
    pub fn has_snake(&self, snake_id: &String) -> (r: bool)
        ensures
            r == exists|j: int| is_first_match(self@.snakes, snake_id@, j),
    {
        let n = self.snakes.len();
        let mut i: usize = 0;
        while i < n
            invariant
                n == self@.snakes.len(),
                0 <= i <= n,
                forall|j: int| 0 <= j < i ==> #[trigger] self@.snakes[j].id != snake_id@,
            decreases n - i,
        {
            if self.snakes[i].id == *snake_id {
                proof {
                    assert(is_first_match(self@.snakes, snake_id@, i as int));
                }
                return true;
            }
            i = i + 1;
        }
        false
    }

    /// Rolls back the most recent move attempt. Popping a failure
    /// marker restores nothing (the failed attempt changed nothing);
    /// popping a recorded move restores the mover's head, body, health
    /// and length, the two touched cells — food or a hazard the head
    /// had covered included — and the position hash.
    pub fn undo_move(&mut self)
        requires
            board_dims_ok(old(self)@),
            undo_safe(old(self)@),
        ensures
            old(self)@.history.len() == 0 ==> final(self)@ == old(self)@,
            old(self)@.history.len() > 0 ==> final(self)@ == undo_result(old(self)@),
    {
        let ghost b0: BoardV = self@;
        if self.history.len() == 0 {
            proof {
                assert(self@ =~= b0);
            }
            return;
        }
        let action = self.history.pop().unwrap();
        if action.fail {
            proof {
                assert(self@ =~= undo_result(b0));
            }
            return;
        }

        proof {
            assert(action@ == b0.history.last());
            assert(self@.snakes =~= b0.snakes);
        }
        let si = self.get_snake(&action.snake_id);
        proof {
            assert(find_snake(b0.snakes, action@.snake_id) == si as int);
        }
        let cur_health = self.snakes[si].health;

        let inh = self.grid_index(action.new_head.x, action.new_head.y);
        let iot = self.grid_index(action.old_tail.x, action.old_tail.y);

        let snake_id = self.snakes[si].id.clone();
        let s = &mut self.snakes[si];
        if action.ate_food {
            s.length = s.length - 1;
        } else {
            s.body.push(action.old_tail);
        }
        s.health = action.old_health;
        s.body.remove(0);
        s.head = action.old_head;

        if action.ate_food {
            self.matrix[inh] = CellContent::Food;
        } else if action.was_hazard {
            self.matrix[inh] = CellContent::Hazard;
            self.matrix[iot] = CellContent::Snake(snake_id);
        } else {
            self.matrix[inh] = CellContent::Empty;
            self.matrix[iot] = CellContent::Snake(snake_id);
        }

        proof {
            let w: int = b0.width;
            let h: int = b0.height;
            assert(2 * w * h == 2 * (w * h)) by (nonlinear_arith);
            assert(w * h <= 1000000) by (nonlinear_arith)
                requires
                    1 <= w <= 1000,
                    1 <= h <= 1000,
            ;
        }
        let delta = self.zobrist_table[2 * inh] ^ self.zobrist_table[2 * inh + 1] ^ self
            .health_zobrist_table[action.old_health as usize] ^ self.health_zobrist_table[cur_health
            as usize];
        let tail_toggle = self.zobrist_table[2 * iot] ^ self.zobrist_table[2 * iot + 1];
        let delta = if action.ate_food {
            delta
        } else {
            delta ^ tail_toggle
        };
        self.zobrist_hash = self.zobrist_hash ^ delta;

        proof {
            assert(self@.grid =~= undo_result(b0).grid);
            assert(self@.snakes[si as int].body =~= undo_result(b0).snakes[si as int].body);
            assert(self@.snakes =~= undo_result(b0).snakes);
            assert(self@.history =~= undo_result(b0).history);
            assert(self@ =~= undo_result(b0));
        }
    }
}

/// The destination of a move either leaves the grid, or is a cell a
/// snake may step into without losing information: empty, food, a
/// hazard (the action records it for the rollback), or the cell the
/// mover's own tail is vacating this turn. (Another snake's body is
/// excluded: the grid rewrite would erase it.)
pub open spec fn move_dest_clear(b: BoardV, si: int, d: Direction) -> bool {
    let s = b.snakes[si];
    let nxy = step_xy(s.head.x as int, s.head.y as int, d);
    xy_in_bounds(b.width, b.height, nxy.0, nxy.1) ==> match b.grid[cell_idx(
        b.height,
        nxy.0,
        nxy.1,
    )] {
        CellV::Empty => true,
        CellV::Food => true,
        CellV::Snake(id) => id == s.id && nxy.0 == s.body.last().x as int && nxy.1
            == s.body.last().y as int,
        CellV::Hazard => true,
    }
}

/// Move/undo round trip: applying any legal move and then rolling it
/// back restores the whole board — grid, every snake's head, body,
/// health and length, the history, and the position hash — exactly.
pub proof fn lemma_move_undo_roundtrip(b: BoardV, si: int, d: Direction)
    requires
        board_wf(b),
        0 <= si < b.snakes.len(),
        1 <= b.snakes[si].health <= 100,
        move_dest_clear(b, si, d),
    ensures
        undo_result(move_result(b, si, d)) == b,
{
    let a = move_action(b, si, d);
    let b2 = move_result(b, si, d);
    let s = b.snakes[si];
    assert(b2.history.last() == a);
    assert(b2.history.drop_last() =~= b.history);
    if a.fail {
        assert(undo_result(b2) =~= b);
    } else {
        let nxy = step_xy(s.head.x as int, s.head.y as int, d);
        let inh = cell_idx(b.height, a.new_head.x as int, a.new_head.y as int);
        let iot = cell_idx(b.height, a.old_tail.x as int, a.old_tail.y as int);
        let s2 = b2.snakes[si];
        assert(snake_shape_ok(b, si));
        assert(0 <= inh < b.grid.len() && 0 <= iot < b.grid.len()) by {
            let w: int = b.width;
            let hh: int = b.height;
            let nhx: int = a.new_head.x as int;
            let nhy: int = a.new_head.y as int;
            let otx: int = a.old_tail.x as int;
            let oty: int = a.old_tail.y as int;
            assert(s.body.last() == s.body[s.body.len() - 1]);
            assert(0 <= nhx * hh + nhy < w * hh && 0 <= otx * hh + oty < w * hh) by (
            nonlinear_arith)
                requires
                    0 <= nhx < w,
                    0 <= nhy < hh,
                    0 <= otx < w,
                    0 <= oty < hh,
            ;
        }

        // the mover is still the first snake carrying its identity
        assert(is_first_match(b2.snakes, a.snake_id, si));
        assert forall|i: int| is_first_match(b2.snakes, a.snake_id, i) implies i == si by {
            if i != si {
                assert(b2.snakes[i].id == b.snakes[i].id);
            }
        }
        assert(find_snake(b2.snakes, a.snake_id) == si);

        let b3 = undo_result(b2);

        // the body round trip
        assert(s.body.drop_last().push(s.body.last()) =~= s.body);
        if a.ate_food {
            assert((seq![a.new_head] + s.body).remove(0) =~= s.body);
        } else {
            assert((seq![a.new_head] + s.body.drop_last()).push(a.old_tail).remove(0) =~= s.body);
        }
        assert(b3.snakes[si] =~= s);
        assert(b3.snakes =~= b.snakes);

        // the grid round trip
        assert(s.body.last() == s.body[s.body.len() - 1]);
        assert(covers(s, s.body.last().x as int, s.body.last().y as int));
        assert(xy_in_bounds(b.width, b.height, s.body.last().x as int, s.body.last().y as int));
        assert(b.grid[cell_idx(b.height, s.body.last().x as int, s.body.last().y as int)]
            == CellV::Snake(s.id));
        assert(b.grid[iot] == CellV::Snake(s.id));
        if a.ate_food {
            assert(b.grid[inh] == CellV::Food);
            assert(b2.grid =~= b.grid.update(inh, CellV::Snake(s.id)));
            assert(b3.grid =~= b2.grid.update(inh, CellV::Food));
            assert(b3.grid =~= b.grid);
        } else if a.was_hazard {
            assert(b.grid[inh] == CellV::Hazard);
            assert(inh != iot);
            assert(b3.grid =~= b.grid);
        } else {
            if a.new_head == a.old_tail {
                assert(b3.grid =~= b.grid);
            } else {
                let hh: int = b.height;
                let nhx: int = a.new_head.x as int;
                let nhy: int = a.new_head.y as int;
                let otx: int = a.old_tail.x as int;
                let oty: int = a.old_tail.y as int;
                assert(inh != iot) by (nonlinear_arith)
                    requires
                        0 <= nhy < hh,
                        0 <= oty < hh,
                        nhx != otx || nhy != oty,
                        inh == nhx * hh + nhy,
                        iot == otx * hh + oty,
                ;
                assert(b.grid[inh] == CellV::Empty);
                assert(b3.grid =~= b.grid);
            }
        }

        // the hash round trip
        let delta: u64 = move_hash_delta(b.ztable, b.htable, b.height, a, s2.health);
        let h0: u64 = b.hash;
        assert((h0 ^ delta) ^ delta == h0) by (bit_vector);

        assert(b3 =~= b);
    }
}

// ---------------------------------------------------------------------
// Legal moves, at the spec level
// ---------------------------------------------------------------------

/// The four directions in the order the generator examines them.
pub open spec fn dirs_in_order() -> Seq<Direction> {
    seq![Direction::Up, Direction::Down, Direction::Left, Direction::Right]
}

/// Whether `(x, y)` lies on one of the first `length - 1` body segments
/// of `s` — the segments that will still be there after this turn. The
/// very last segment is exempt: the tail vacates its cell.
pub open spec fn hits_front_of_own_body(s: SnakeV, x: int, y: int) -> bool {
    exists|t: int|
        0 <= t < s.length - 1 && t < s.body.len() && s.body[t].x == x && s.body[t].y == y
}

/// The body-collision rule for snake `si` stepping onto `(x, y)`: any
/// snake-occupied cell is barred, except the mover's own cell outside
/// the first `length - 1` segments.
pub open spec fn body_collision_free(b: BoardV, si: int, x: int, y: int) -> bool {
    match b.grid[cell_idx(b.height, x, y)] {
        CellV::Snake(id) => id == b.snakes[si].id && !hits_front_of_own_body(b.snakes[si], x, y),
        _ => true,
    }
}

/// Whether snake `j` threatens the cell `(x, y)` for mover `si`: it is
/// another snake, its head is on or orthogonally adjacent to the cell,
/// and it is at least as long as the mover.
pub open spec fn threatens(b: BoardV, si: int, j: int, x: int, y: int) -> bool {
    let e = b.snakes[j];
    let s = b.snakes[si];
    &&& e.id != s.id
    &&& (e.head.x as int - x) * (e.head.x as int - x) + (e.head.y as int - y) * (e.head.y as int
        - y) <= 1
    &&& s.length <= e.length
}

/// Whether any snake threatens the cell `(x, y)` for mover `si`.
pub open spec fn any_threat(b: BoardV, si: int, x: int, y: int) -> bool {
    exists|j: int| 0 <= j < b.snakes.len() && threatens(b, si, j, x, y)
}

/// Whether a strictly longer snake threatens `(x, y)` for mover `si`.
pub open spec fn any_longer_threat(b: BoardV, si: int, x: int, y: int) -> bool {
    exists|j: int|
        0 <= j < b.snakes.len() && threatens(b, si, j, x, y) && b.snakes[j].length
            > b.snakes[si].length
}

/// In-bounds and clear of the body-collision rule: the two filters
/// every generated move passes, last-ditch ones included.
pub open spec fn move_base_ok(b: BoardV, si: int, d: Direction) -> bool {
    let s = b.snakes[si];
    let nxy = step_xy(s.head.x as int, s.head.y as int, d);
    &&& xy_in_bounds(b.width, b.height, nxy.0, nxy.1)
    &&& body_collision_free(b, si, nxy.0, nxy.1)
}

/// A move the generator reports unconditionally: base-legal and not
/// under head-to-head threat.
pub open spec fn normal_ok(b: BoardV, si: int, d: Direction) -> bool {
    let s = b.snakes[si];
    let nxy = step_xy(s.head.x as int, s.head.y as int, d);
    &&& move_base_ok(b, si, d)
    &&& !any_threat(b, si, nxy.0, nxy.1)
}

/// A move kept only as a last resort: base-legal and threatened, but
/// by no snake that is strictly longer — every threatening head
/// belongs to a snake of exactly the mover's length (a losing
/// head-to-head only on a tie). A strictly longer threat anywhere
/// discards the move outright.
pub open spec fn last_ditch_ok(b: BoardV, si: int, d: Direction) -> bool {
    let s = b.snakes[si];
    let nxy = step_xy(s.head.x as int, s.head.y as int, d);
    &&& move_base_ok(b, si, d)
    &&& any_threat(b, si, nxy.0, nxy.1)
    &&& !any_longer_threat(b, si, nxy.0, nxy.1)
}

/// What the generator returns: the threat-free moves, or — when none
/// exist — the last-ditch moves, so that an empty answer really means
/// a forced loss.
pub open spec fn legal_moves(b: BoardV, si: int) -> Seq<Direction> {
    let normals = dirs_in_order().filter(|d: Direction| normal_ok(b, si, d));
    if normals.len() == 0 {
        dirs_in_order().filter(|d: Direction| last_ditch_ok(b, si, d))
    } else {
        normals
    }
}

/// Last-ditch fallback: when every threat-free move is gone, the
/// generator's answer is exactly the set of squares threatened only by
/// equal-length heads — never an empty answer while one of those
/// remains — and otherwise it is exactly the threat-free set.
pub proof fn lemma_last_ditch_fallback(b: BoardV, si: int)
    ensures
        dirs_in_order().filter(|d: Direction| normal_ok(b, si, d)).len() == 0 ==> legal_moves(
            b,
            si,
        ) == dirs_in_order().filter(|d: Direction| last_ditch_ok(b, si, d)),
        dirs_in_order().filter(|d: Direction| normal_ok(b, si, d)).len() > 0 ==> legal_moves(
            b,
            si,
        ) == dirs_in_order().filter(|d: Direction| normal_ok(b, si, d)),
{
}

/// One unfolding step of `filter` along a growing prefix.
proof fn lemma_filter_take_step<A>(s: Seq<A>, p: spec_fn(A) -> bool, k: int)
    requires
        0 <= k < s.len(),
    ensures
        s.take(k + 1).filter(p) == if p(s[k]) {
            s.take(k).filter(p).push(s[k])
        } else {
            s.take(k).filter(p)
        },
{
    assert(s.take(k + 1).drop_last() =~= s.take(k));
    assert(s.take(k + 1).last() == s[k]);
    reveal_with_fuel(Seq::filter, 2);
}

impl GameBoard {
    /// Scans the whole arena for heads that threaten the cell `nh`
    /// for mover `si` (head within one step, length at least the
    /// mover's), and reports whether any threat exists and whether any
    /// threatening snake is strictly longer.
    fn classify_threats(&self, si: usize, nh: Coord) -> (r: (bool, bool))
        requires
            board_dims_ok(self@),
            si < self@.snakes.len(),
            forall|j: int| 0 <= j < self@.snakes.len() ==> snake_shape_ok(self@, j),
            xy_in_bounds(self@.width, self@.height, nh.x as int, nh.y as int),
        ensures
            r.0 == any_threat(self@, si as int, nh.x as int, nh.y as int),
            r.1 == any_longer_threat(self@, si as int, nh.x as int, nh.y as int),
    {
        let ghost bv: BoardV = self@;
        let ghost sii: int = si as int;
        let own_length = self.snakes[si].length;
        let n_snakes = self.snakes.len();
        let mut threatened = false;
        let mut longer = false;
        let mut j: usize = 0;
        while j < n_snakes
            invariant
                bv == self@,
                sii == si as int,
                board_dims_ok(bv),
                si < bv.snakes.len(),
                n_snakes == bv.snakes.len(),
                forall|t: int| 0 <= t < bv.snakes.len() ==> snake_shape_ok(bv, t),
                own_length == bv.snakes[sii].length,
                xy_in_bounds(bv.width, bv.height, nh.x as int, nh.y as int),
                0 <= j <= n_snakes,
                threatened == exists|t: int|
                    0 <= t < j && threatens(bv, sii, t, nh.x as int, nh.y as int),
                longer == exists|t: int|
                    0 <= t < j && threatens(bv, sii, t, nh.x as int, nh.y as int)
                        && bv.snakes[t].length > bv.snakes[sii].length,
            decreases n_snakes - j,
        {
            let same_id = self.snakes[j].id == self.snakes[si].id;
            if !same_id {
                proof {
                    assert(snake_shape_ok(bv, j as int));
                    assert(bv.snakes[j as int].head == bv.snakes[j as int].body[0]);
                    assert(xy_in_bounds(
                        bv.width,
                        bv.height,
                        bv.snakes[j as int].body[0].x as int,
                        bv.snakes[j as int].body[0].y as int,
                    ));
                }
                let enemy_head = self.snakes[j].head;
                let dx = enemy_head.x - nh.x;
                let dy = enemy_head.y - nh.y;
                proof {
                    let dxi: int = dx as int;
                    let dyi: int = dy as int;
                    assert(0 <= dxi * dxi <= 4000000 && 0 <= dyi * dyi <= 4000000) by (
                    nonlinear_arith)
                        requires
                            -2000 <= dxi <= 2000,
                            -2000 <= dyi <= 2000,
                    ;
                }
                if dx * dx + dy * dy <= 1 && own_length <= self.snakes[j].length {
                    threatened = true;
                    proof {
                        assert(threatens(bv, sii, j as int, nh.x as int, nh.y as int));
                    }
                    if own_length < self.snakes[j].length {
                        longer = true;
                        proof {
                            assert(threatens(bv, sii, j as int, nh.x as int, nh.y as int)
                                && bv.snakes[j as int].length > bv.snakes[sii].length);
                        }
                    }
                }
            }
            proof {
                if !threatened {
                    assert(!threatens(bv, sii, j as int, nh.x as int, nh.y as int));
                }
            }
            j = j + 1;
        }
        (threatened, longer)
    }

    /// Enumerates the single-step moves snake `si` may take, in the
    /// fixed order Up, Down, Left, Right: each is on the grid and
    /// clear of snake bodies (its own vacating tail excepted), and
    /// threat-free moves are preferred. A square threatened by any
    /// strictly longer head is discarded outright; when every
    /// base-legal move is threatened, those threatened only by
    /// equal-length heads come back as a last resort instead of an
    /// empty answer.
    pub fn generate_possible_moves(&self, si: usize) -> (moves: Vec<Direction>)
        requires
            board_dims_ok(self@),
            si < self@.snakes.len(),
            forall|j: int| 0 <= j < self@.snakes.len() ==> snake_shape_ok(self@, j),
        ensures
            moves@ == legal_moves(self@, si as int),
            forall|k: int| 0 <= k < moves@.len() ==> move_base_ok(self@, si as int, moves@[k]),
    {
        let ghost bv: BoardV = self@;
        let ghost sii: int = si as int;
        let old_head = self.snakes[si].head;
        let own_length = self.snakes[si].length;
        let n_snakes = self.snakes.len();

        let mut dirs: Vec<Direction> = Vec::new();
        dirs.push(Direction::Up);
        dirs.push(Direction::Down);
        dirs.push(Direction::Left);
        dirs.push(Direction::Right);
        proof {
            assert(dirs@ =~= dirs_in_order());
        }

        let mut possible: Vec<Direction> = Vec::new();
        let mut last_ditch: Vec<Direction> = Vec::new();

        let mut k: usize = 0;
        while k < 4
            invariant
                bv == self@,
                sii == si as int,
                board_dims_ok(bv),
                si < bv.snakes.len(),
                n_snakes == bv.snakes.len(),
                forall|j: int| 0 <= j < bv.snakes.len() ==> snake_shape_ok(bv, j),
                old_head == bv.snakes[sii].head,
                own_length == bv.snakes[sii].length,
                dirs@ == dirs_in_order(),
                0 <= k <= 4,
                possible@ == dirs_in_order().take(k as int).filter(
                    |d: Direction| normal_ok(bv, sii, d),
                ),
                last_ditch@ == dirs_in_order().take(k as int).filter(
                    |d: Direction| last_ditch_ok(bv, sii, d),
                ),
                forall|t: int| 0 <= t < possible@.len() ==> move_base_ok(bv, sii, possible@[t]),
                forall|t: int|
                    0 <= t < last_ditch@.len() ==> move_base_ok(bv, sii, last_ditch@[t]),
            decreases 4 - k,
        {
            let dir = dirs[k];
            let ghost nxy = step_xy(old_head.x as int, old_head.y as int, dir);
            proof {
                assert(snake_shape_ok(bv, sii));
                assert(bv.snakes[sii].body[0] == old_head);
                assert(xy_in_bounds(bv.width, bv.height, old_head.x as int, old_head.y as int));
            }
            let new_head = match dir {
                Direction::Up => Coord { x: old_head.x, y: old_head.y + 1 },
                Direction::Down => Coord { x: old_head.x, y: old_head.y - 1 },
                Direction::Left => Coord { x: old_head.x - 1, y: old_head.y },
                Direction::Right => Coord { x: old_head.x + 1, y: old_head.y },
            };

            let in_bounds = !(new_head.x < 0 || new_head.x >= self.width || new_head.y < 0
                || new_head.y >= self.height);

            if in_bounds {
                // the body-collision rule
                let inh = self.grid_index(new_head.x, new_head.y);
                let blocked: bool;
                match &self.matrix[inh] {
                    CellContent::Snake(cell_id) => {
                        if *cell_id == self.snakes[si].id {
                            let body_len = self.snakes[si].body.len();
                            let lim = (own_length - 1) as usize;
                            let mut hit = false;
                            let mut t: usize = 0;
                            while t < body_len && t < lim
                                invariant
                                    bv == self@,
                                    sii == si as int,
                                    si < bv.snakes.len(),
                                    body_len == bv.snakes[sii].body.len(),
                                    own_length == bv.snakes[sii].length,
                                    1 <= own_length,
                                    lim == own_length - 1,
                                    0 <= t <= body_len,
                                    hit == exists|u: int|
                                        0 <= u < t && u < bv.snakes[sii].length - 1
                                            && bv.snakes[sii].body[u] == new_head,
                                decreases body_len - t,
                            {
                                if !hit && self.snakes[si].body[t] == new_head {
                                    hit = true;
                                    proof {
                                        let u: int = t as int;
                                        assert(0 <= u < t + 1 && u < bv.snakes[sii].length - 1
                                            && bv.snakes[sii].body[u] == new_head);
                                    }
                                }
                                t = t + 1;
                            }
                            proof {
                                assert(hit == hits_front_of_own_body(
                                    bv.snakes[sii],
                                    new_head.x as int,
                                    new_head.y as int,
                                ));
                            }
                            blocked = hit;
                        } else {
                            blocked = true;
                        }
                    },
                    _ => {
                        blocked = false;
                    },
                }
                proof {
                    assert(blocked == !body_collision_free(
                        bv,
                        sii,
                        new_head.x as int,
                        new_head.y as int,
                    ));
                }

                if !blocked {
                    // head-to-head avoidance, after body-collision checks:
                    // a strictly longer threat discards the move outright;
                    // an equal-length threat leaves it as a last resort
                    let threats = self.classify_threats(si, new_head);
                    if threats.0 {
                        if !threats.1 {
                            proof {
                                assert(last_ditch_ok(bv, sii, dir));
                            }
                            last_ditch.push(dir);
                        }
                    } else {
                        proof {
                            assert(normal_ok(bv, sii, dir));
                        }
                        possible.push(dir);
                    }
                }
            }

            proof {
                lemma_filter_take_step(
                    dirs_in_order(),
                    |d: Direction| normal_ok(bv, sii, d),
                    k as int,
                );
                lemma_filter_take_step(
                    dirs_in_order(),
                    |d: Direction| last_ditch_ok(bv, sii, d),
                    k as int,
                );
            }
            k = k + 1;
        }

        proof {
            assert(dirs_in_order().take(4) =~= dirs_in_order());
        }
        if possible.len() == 0 {
            last_ditch
        } else {
            possible
        }
    }
}

impl Clone for CellContent {
    fn clone(&self) -> (r: Self)
        ensures
            r@ == self@,
    {
        match self {
            CellContent::Food => CellContent::Food,
            CellContent::Snake(id) => CellContent::Snake(id.clone()),
            CellContent::Hazard => CellContent::Hazard,
            CellContent::Empty => CellContent::Empty,
        }
    }
}

impl Clone for Action {
    fn clone(&self) -> (r: Self)
        ensures
            r@ == self@,
    {
        Action {
            snake_id: self.snake_id.clone(),
            direction: self.direction,
            old_tail: self.old_tail,
            new_head: self.new_head,
            old_head: self.old_head,
            ate_food: self.ate_food,
            was_hazard: self.was_hazard,
            old_health: self.old_health,
            fail: self.fail,
        }
    }
}

impl Clone for GameBoard {
    /// Deep copy: every snake's body and every cell is duplicated, so
    /// mutating the copy cannot touch the original.
    fn clone(&self) -> (r: Self)
        ensures
            r@ == self@,
    {
        let mut matrix: Vec<CellContent> = Vec::new();
        let mut i: usize = 0;
        while i < self.matrix.len()
            invariant
                i <= self.matrix@.len(),
                matrix@.len() == i,
                forall|j: int| 0 <= j < i ==> (#[trigger] matrix@[j])@ == self.matrix@[j]@,
            decreases self.matrix@.len() - i,
        {
            let c = self.matrix[i].clone();
            matrix.push(c);
            i = i + 1;
        }
        let mut snakes: Vec<Battlesnake> = Vec::new();
        let mut i: usize = 0;
        while i < self.snakes.len()
            invariant
                i <= self.snakes@.len(),
                snakes@.len() == i,
                forall|j: int| 0 <= j < i ==> (#[trigger] snakes@[j])@ == self.snakes@[j]@,
            decreases self.snakes@.len() - i,
        {
            let s = self.snakes[i].clone();
            snakes.push(s);
            i = i + 1;
        }
        let mut food: Vec<Coord> = Vec::new();
        let mut i: usize = 0;
        while i < self.food.len()
            invariant
                i <= self.food@.len(),
                food@ == self.food@.take(i as int),
            decreases self.food@.len() - i,
        {
            food.push(self.food[i]);
            proof {
                assert(food@ =~= self.food@.take(i as int + 1));
            }
            i = i + 1;
        }
        let mut history: Vec<Action> = Vec::new();
        let mut i: usize = 0;
        while i < self.history.len()
            invariant
                i <= self.history@.len(),
                history@.len() == i,
                forall|j: int| 0 <= j < i ==> (#[trigger] history@[j])@ == self.history@[j]@,
            decreases self.history@.len() - i,
        {
            let a = self.history[i].clone();
            history.push(a);
            i = i + 1;
        }
        let mut zobrist_table: Vec<u64> = Vec::new();
        let mut i: usize = 0;
        while i < self.zobrist_table.len()
            invariant
                i <= self.zobrist_table@.len(),
                zobrist_table@ == self.zobrist_table@.take(i as int),
            decreases self.zobrist_table@.len() - i,
        {
            zobrist_table.push(self.zobrist_table[i]);
            proof {
                assert(zobrist_table@ =~= self.zobrist_table@.take(i as int + 1));
            }
            i = i + 1;
        }
        let mut health_zobrist_table: Vec<u64> = Vec::new();
        let mut i: usize = 0;
        while i < self.health_zobrist_table.len()
            invariant
                i <= self.health_zobrist_table@.len(),
                health_zobrist_table@ == self.health_zobrist_table@.take(i as int),
            decreases self.health_zobrist_table@.len() - i,
        {
            health_zobrist_table.push(self.health_zobrist_table[i]);
            proof {
                assert(health_zobrist_table@ =~= self.health_zobrist_table@.take(i as int + 1));
            }
            i = i + 1;
        }
        proof {
            assert(self.food@.take(self.food@.len() as int) =~= self.food@);
            assert(self.zobrist_table@.take(self.zobrist_table@.len() as int)
                =~= self.zobrist_table@);
            assert(self.health_zobrist_table@.take(self.health_zobrist_table@.len() as int)
                =~= self.health_zobrist_table@);
        }
        let r = GameBoard {
            width: self.width,
            height: self.height,
            matrix,
            snakes,
            food,
            history,
            zobrist_hash: self.zobrist_hash,
            zobrist_table,
            health_zobrist_table,
        };
        proof {
            assert(r@.grid =~= self@.grid);
            assert(r@.snakes =~= self@.snakes);
            assert(r@.history =~= self@.history);
            assert(r@ =~= self@);
        }
        r
    }
}

// ---------------------------------------------------------------------
// What a legal move guarantees, and what it does to the invariant
// ---------------------------------------------------------------------

/// Legal-move soundness: a move that passes the generator's base
/// filters keeps the head on the grid and off every other snake's
/// body, and — on a hazard-free destination — lands only on a cell
/// whose information one action record can restore.
pub proof fn lemma_legal_move_soundness(b: BoardV, si: int, d: Direction)
    requires
        board_wf(b),
        0 <= si < b.snakes.len(),
        move_base_ok(b, si, d),
    ensures
        xy_in_bounds(
            b.width,
            b.height,
            step_xy(b.snakes[si].head.x as int, b.snakes[si].head.y as int, d).0,
            step_xy(b.snakes[si].head.x as int, b.snakes[si].head.y as int, d).1,
        ),
        forall|j: int|
            0 <= j < b.snakes.len() && j != si ==> !covers(
                #[trigger] b.snakes[j],
                step_xy(b.snakes[si].head.x as int, b.snakes[si].head.y as int, d).0,
                step_xy(b.snakes[si].head.x as int, b.snakes[si].head.y as int, d).1,
            ),
        move_dest_clear(b, si, d),
{
    let s = b.snakes[si];
    let nxy = step_xy(s.head.x as int, s.head.y as int, d);
    let nx = nxy.0;
    let ny = nxy.1;
    let c = b.grid[cell_idx(b.height, nx, ny)];
    assert(snake_shape_ok(b, si));
    assert forall|j: int| 0 <= j < b.snakes.len() && j != si implies !covers(
        #[trigger] b.snakes[j],
        nx,
        ny,
    ) by {
        if covers(b.snakes[j], nx, ny) {
            assert(c == CellV::Snake(b.snakes[j].id));
            assert(c == CellV::Snake(s.id));
            if j < si {
                assert(b.snakes[j].id != b.snakes[si].id);
            } else {
                assert(b.snakes[si].id != b.snakes[j].id);
            }
            assert(false);
        }
    }
    {
        match c {
            CellV::Snake(id) => {
                let i = choose|i: int| 0 <= i < b.snakes.len() && covers(#[trigger] b.snakes[i], nx, ny);
                assert(0 <= i < b.snakes.len() && covers(b.snakes[i], nx, ny));
                assert(i == si);
                let k = choose|k: int|
                    0 <= k < s.body.len() && (#[trigger] s.body[k]).x == nx && s.body[k].y == ny;
                assert(!hits_front_of_own_body(s, nx, ny));
                assert(k >= s.length - 1);
                assert(k == s.body.len() - 1);
                assert(s.body.last() == s.body[s.body.len() - 1]);
            },
            _ => {},
        }
    }
}

/// Applying a base-legal move keeps the whole board invariant, and
/// never introduces a hazard cell.
pub proof fn lemma_move_preserves_wf(b: BoardV, si: int, d: Direction)
    requires
        board_wf(b),
        0 <= si < b.snakes.len(),
        1 <= b.snakes[si].health <= 100,
        move_base_ok(b, si, d),
    ensures
        board_wf(move_result(b, si, d)),
        no_hazards(b) ==> no_hazards(move_result(b, si, d)),
{
    let s = b.snakes[si];
    let a = move_action(b, si, d);
    let b2 = move_result(b, si, d);
    let nxy = step_xy(s.head.x as int, s.head.y as int, d);
    let nx = nxy.0;
    let ny = nxy.1;
    let inh = cell_idx(b.height, nx, ny);
    let iot = cell_idx(b.height, a.old_tail.x as int, a.old_tail.y as int);
    let s2 = b2.snakes[si];
    assert(snake_shape_ok(b, si));
    assert(!a.fail);
    assert(a.new_head.x as int == nx && a.new_head.y as int == ny);
    lemma_legal_move_soundness(b, si, d);
    lemma_cell_idx_range(b.width, b.height, nx, ny);
    assert(s.body.last() == s.body[s.body.len() - 1]);
    assert(covers(s, s.body.last().x as int, s.body.last().y as int));
    assert(xy_in_bounds(b.width, b.height, a.old_tail.x as int, a.old_tail.y as int));
    lemma_cell_idx_range(b.width, b.height, a.old_tail.x as int, a.old_tail.y as int);
    assert(b.grid[iot] == CellV::Snake(s.id));

    // the mover never lands on one of its own retained segments
    assert(!covers_front(s, a, nx, ny)) by {
        if a.ate_food {
            if covers(s, nx, ny) {
                assert(b.grid[inh] == CellV::Snake(s.id));
                assert(false);
            }
        }
    }

    // the new body: in bounds, distinct, head first, counted right
    assert forall|k: int| 0 <= k < s2.body.len() implies xy_in_bounds(
        b2.width,
        b2.height,
        (#[trigger] s2.body[k]).x as int,
        s2.body[k].y as int,
    ) by {
        if k > 0 {
            assert(s2.body[k] == s.body[k - 1]);
        }
    }
    assert forall|k1: int, k2: int| 0 <= k1 < k2 < s2.body.len() implies #[trigger] s2.body[k1]
        != #[trigger] s2.body[k2] by {
        if k1 == 0 {
            assert(s2.body[k2] == s.body[k2 - 1]);
            if a.ate_food {
                if s.body[k2 - 1] == a.new_head {
                    assert(covers(s, nx, ny));
                    assert(b.grid[inh] == CellV::Snake(s.id));
                    assert(false);
                }
            } else {
                assert(k2 - 1 < s.body.len() - 1);
                assert(k2 - 1 < s.length - 1);
                if s.body[k2 - 1] == a.new_head {
                    assert(hits_front_of_own_body(s, nx, ny));
                    assert(b.grid[inh] == CellV::Snake(s.id));
                    assert(false);
                }
            }
        } else {
            assert(s2.body[k1] == s.body[k1 - 1] && s2.body[k2] == s.body[k2 - 1]);
        }
    }
    assert(snake_shape_ok(b2, si));
    assert forall|i: int| 0 <= i < b2.snakes.len() implies snake_shape_ok(b2, i) by {
        if i != si {
            assert(b2.snakes[i] == b.snakes[i]);
            assert(snake_shape_ok(b, i));
        }
    }

    // bodies stay pairwise disjoint
    assert forall|i: int, j: int, x: int, y: int|
        0 <= i < b2.snakes.len() && 0 <= j < b2.snakes.len() && i != j && #[trigger] covers(
            b2.snakes[i],
            x,
            y,
        ) implies !#[trigger] covers(b2.snakes[j], x, y) by {
        if i == si {
            if covers(b2.snakes[j], x, y) {
                assert(covers(b.snakes[j], x, y));
                lemma_new_body_covers(b, si, d, x, y);
                assert(covers(s, x, y) || (x == nx && y == ny));
                if x == nx && y == ny {
                    assert(!covers(b.snakes[j], nx, ny));
                } else {
                    assert(!covers(b.snakes[j], x, y));
                }
                assert(false);
            }
        } else if j == si {
            assert(covers(b.snakes[i], x, y));
            if covers(b2.snakes[si], x, y) {
                lemma_new_body_covers(b, si, d, x, y);
                if x == nx && y == ny {
                    assert(!covers(b.snakes[i], nx, ny));
                } else {
                    assert(covers(s, x, y));
                }
                assert(false);
            }
        } else {
            assert(covers(b.snakes[i], x, y));
        }
    }

    // the grid still mirrors the bodies
    assert forall|x: int, y: int| xy_in_bounds(b2.width, b2.height, x, y) implies {
        let c = #[trigger] b2.grid[cell_idx(b2.height, x, y)];
        &&& (forall|i: int|
            0 <= i < b2.snakes.len() && covers(#[trigger] b2.snakes[i], x, y) ==> c
                == CellV::Snake(b2.snakes[i].id))
        &&& (c is Snake ==> exists|i: int|
            0 <= i < b2.snakes.len() && covers(#[trigger] b2.snakes[i], x, y))
    } by {
        lemma_cell_idx_range(b.width, b.height, x, y);
        let ci = cell_idx(b.height, x, y);
        if ci == inh && (x != nx || y != ny) {
            lemma_cell_idx_injective(b.height, x, y, nx, ny);
            assert(false);
        }
        if ci == iot && (x != a.old_tail.x as int || y != a.old_tail.y as int) {
            lemma_cell_idx_injective(b.height, x, y, a.old_tail.x as int, a.old_tail.y as int);
            assert(false);
        }
        assert forall|i: int|
            0 <= i < b2.snakes.len() && covers(#[trigger] b2.snakes[i], x, y) implies b2.grid[ci]
            == CellV::Snake(b2.snakes[i].id) by {
            if i == si {
                lemma_new_body_covers(b, si, d, x, y);
                if x == nx && y == ny {
                } else {
                    assert(covers(s, x, y));
                    assert(b.grid[ci] == CellV::Snake(s.id));
                    if !a.ate_food && ci == iot {
                        // the tail cell is out of the new body
                        assert(s2.body[0] == a.new_head);
                        let k = choose|k: int|
                            0 <= k < s2.body.len() && (#[trigger] s2.body[k]).x == x
                                && s2.body[k].y == y;
                        assert(k > 0);
                        assert(s2.body[k] == s.body[k - 1]);
                        assert(s.body[k - 1] != s.body[s.body.len() - 1]);
                        lemma_cell_idx_injective(
                            b.height,
                            s.body[k - 1].x as int,
                            s.body[k - 1].y as int,
                            a.old_tail.x as int,
                            a.old_tail.y as int,
                        );
                        assert(false);
                    }
                }
            } else {
                assert(covers(b.snakes[i], x, y));
                assert(b.grid[ci] == CellV::Snake(b.snakes[i].id));
                if ci == inh {
                    assert(!covers(b.snakes[i], nx, ny));
                    assert(false);
                }
                if ci == iot {
                    assert(covers(s, x, y) ==> false);
                    assert(covers(b.snakes[i], a.old_tail.x as int, a.old_tail.y as int));
                    assert(covers(s, a.old_tail.x as int, a.old_tail.y as int));
                    assert(false);
                }
            }
        }
        if b2.grid[ci] is Snake {
            if ci == inh {
                assert(covers_new_head(b2, si, nx, ny));
            } else if !a.ate_food && ci == iot {
                assert(b2.grid[ci] == CellV::Empty);
                assert(false);
            } else {
                assert(b2.grid[ci] == b.grid[ci]);
                let i = choose|i: int|
                    0 <= i < b.snakes.len() && covers(#[trigger] b.snakes[i], x, y);
                if i == si {
                    let k = choose|k: int|
                        0 <= k < s.body.len() && (#[trigger] s.body[k]).x == x && s.body[k].y == y;
                    if a.ate_food {
                        assert(s2.body[k + 1] == s.body[k]);
                        assert(covers(b2.snakes[si], x, y));
                    } else {
                        if k == s.body.len() - 1 {
                            lemma_cell_idx_injective(
                                b.height,
                                x,
                                y,
                                a.old_tail.x as int,
                                a.old_tail.y as int,
                            );
                            assert(false);
                        } else {
                            assert(s2.body[k + 1] == s.body[k]);
                            assert(covers(b2.snakes[si], x, y));
                        }
                    }
                } else {
                    assert(covers(b2.snakes[i], x, y));
                }
            }
        }
    }
    assert(board_wf(b2));

    if no_hazards(b) {
        assert forall|i: int| 0 <= i < b2.grid.len() implies !(#[trigger] b2.grid[i] is Hazard) by {
            if i != inh && i != iot {
                assert(b2.grid[i] == b.grid[i]);
            }
        }
    }
}

/// The new head covers its own cell after the move.
spec fn covers_new_head(b2: BoardV, si: int, nx: int, ny: int) -> bool {
    covers(b2.snakes[si], nx, ny)
}

/// Whether the destination hits a segment the move keeps.
spec fn covers_front(s: SnakeV, a: ActionV, nx: int, ny: int) -> bool {
    if a.ate_food {
        covers(s, nx, ny)
    } else {
        hits_front_of_own_body(s, nx, ny)
    }
}

/// What the moved body is expected to cover: the new head plus —
/// except for the dropped tail when no food was eaten — whatever the
/// old body covered.
spec fn moved_covers(b: BoardV, si: int, d: Direction, x: int, y: int) -> bool {
    let s = b.snakes[si];
    let a = move_action(b, si, d);
    ||| (x == a.new_head.x as int && y == a.new_head.y as int)
    ||| if a.ate_food {
        covers(s, x, y)
    } else {
        exists|k: int|
            0 <= k < s.body.len() - 1 && (#[trigger] s.body[k]).x == x && s.body[k].y == y
    }
}

/// What the moved snake's body covers: the new head plus — except for
/// the dropped tail when no food was eaten — whatever it covered
/// before.
proof fn lemma_new_body_covers(b: BoardV, si: int, d: Direction, x: int, y: int)
    requires
        0 <= si < b.snakes.len(),
        snake_shape_ok(b, si),
        !move_action(b, si, d).fail,
    ensures
        covers(move_result(b, si, d).snakes[si], x, y) <==> moved_covers(b, si, d, x, y),
{
    let s = b.snakes[si];
    let a = move_action(b, si, d);
    let s2 = move_result(b, si, d).snakes[si];
    assert(s2.body[0] == a.new_head);
    if covers(s2, x, y) {
        let k = choose|k: int|
            0 <= k < s2.body.len() && (#[trigger] s2.body[k]).x == x && s2.body[k].y == y;
        if k > 0 {
            assert(s2.body[k] == s.body[k - 1]);
        }
    }
    if a.ate_food {
        if covers(s, x, y) {
            let k = choose|k: int|
                0 <= k < s.body.len() && (#[trigger] s.body[k]).x == x && s.body[k].y == y;
            assert(s2.body[k + 1] == s.body[k]);
        }
    } else {
        if exists|k: int|
            0 <= k < s.body.len() - 1 && (#[trigger] s.body[k]).x == x && s.body[k].y == y {
            let k = choose|k: int|
                0 <= k < s.body.len() - 1 && (#[trigger] s.body[k]).x == x && s.body[k].y == y;
            assert(s2.body[k + 1] == s.body[k]);
        }
    }
}

/// Everything the search needs of one base-legal move on a hazard-free
/// board: it succeeds, it keeps the invariant and the absence of
/// hazards, its record can be rolled back, rolling back restores the
/// board exactly, and it burns fuel.
pub proof fn lemma_legal_move_undoes(b: BoardV, si: int, d: Direction)
    requires
        board_wf(b),
        0 <= si < b.snakes.len(),
        1 <= b.snakes[si].health <= 100,
        move_base_ok(b, si, d),
    ensures
        !move_action(b, si, d).fail,
        board_wf(move_result(b, si, d)),
        undo_safe(move_result(b, si, d)),
        undo_result(move_result(b, si, d)) == b,
        0 <= board_measure(move_result(b, si, d)) < board_measure(b),
{
    let s = b.snakes[si];
    let a = move_action(b, si, d);
    let b2 = move_result(b, si, d);
    let nxy = step_xy(s.head.x as int, s.head.y as int, d);
    assert(snake_shape_ok(b, si));
    lemma_cell_idx_range(b.width, b.height, nxy.0, nxy.1);
    lemma_legal_move_soundness(b, si, d);
    lemma_move_undo_roundtrip(b, si, d);
    lemma_move_preserves_wf(b, si, d);
    lemma_move_decreases_measure(b, si, d);

    // the popped record finds its snake and can be replayed backwards
    assert(b2.history.last() == a);
    assert(is_first_match(b2.snakes, a.snake_id, si)) by {
        assert forall|j: int| 0 <= j < si implies #[trigger] b2.snakes[j].id != a.snake_id by {
            assert(b2.snakes[j].id == b.snakes[j].id);
            assert(b.snakes[j].id != b.snakes[si].id);
        }
    }
    assert forall|i: int| is_first_match(b2.snakes, a.snake_id, i) implies i == si by {
        if i != si {
            assert(b2.snakes[i].id == b.snakes[i].id);
            if i < si {
                assert(b.snakes[i].id != b.snakes[si].id);
            } else {
                assert(b.snakes[si].id != b.snakes[i].id);
            }
        }
    }
    assert(find_snake(b2.snakes, a.snake_id) == si);
    assert(snake_shape_ok(b2, si));
    assert(s.body.last() == s.body[s.body.len() - 1]);
    assert(xy_in_bounds(b.width, b.height, a.old_tail.x as int, a.old_tail.y as int));
    assert(undo_safe(b2));
}

// ---------------------------------------------------------------------
// The incremental hash tracks the position
// ---------------------------------------------------------------------

proof fn lemma_xor_cells_congruent(zt: Seq<u64>, g1: Seq<CellV>, g2: Seq<CellV>, n: int)
    requires
        forall|j: int| 0 <= j < n ==> g1[j] == g2[j],
    ensures
        xor_cells(zt, g1, n) == xor_cells(zt, g2, n),
    decreases n,
{
    if n > 0 {
        lemma_xor_cells_congruent(zt, g1, g2, n - 1);
    }
}

proof fn lemma_xor_cells_update(zt: Seq<u64>, grid: Seq<CellV>, n: int, i: int, c: CellV)
    requires
        0 <= i < n <= grid.len(),
    ensures
        xor_cells(zt, grid.update(i, c), n) == xor_cells(zt, grid, n) ^ zt[2 * i + occ_bit(
            grid[i],
        )] ^ zt[2 * i + occ_bit(c)],
    decreases n,
{
    let a: u64 = zt[2 * i + occ_bit(grid[i])];
    let bb: u64 = zt[2 * i + occ_bit(c)];
    if i < n - 1 {
        lemma_xor_cells_update(zt, grid, n - 1, i, c);
        let x: u64 = xor_cells(zt, grid, n - 1);
        let t: u64 = zt[2 * (n - 1) + occ_bit(grid[n - 1])];
        assert(((x ^ a) ^ bb) ^ t == ((x ^ t) ^ a) ^ bb) by (bit_vector);
    } else {
        lemma_xor_cells_congruent(zt, grid.update(i, c), grid, n - 1);
        let x: u64 = xor_cells(zt, grid, n - 1);
        assert((x ^ bb) == ((x ^ a) ^ a) ^ bb) by (bit_vector);
    }
}

proof fn lemma_xor_healths_congruent(ht: Seq<u64>, s1: Seq<SnakeV>, s2: Seq<SnakeV>, n: int)
    requires
        forall|j: int| 0 <= j < n ==> s1[j] == s2[j],
    ensures
        xor_healths(ht, s1, n) == xor_healths(ht, s2, n),
    decreases n,
{
    if n > 0 {
        lemma_xor_healths_congruent(ht, s1, s2, n - 1);
    }
}

proof fn lemma_xor_healths_update(ht: Seq<u64>, snakes: Seq<SnakeV>, n: int, i: int, s2: SnakeV)
    requires
        0 <= i < n <= snakes.len(),
    ensures
        xor_healths(ht, snakes.update(i, s2), n) == xor_healths(ht, snakes, n) ^ ht[snakes[i].health]
            ^ ht[s2.health],
    decreases n,
{
    let a: u64 = ht[snakes[i].health];
    let bb: u64 = ht[s2.health];
    if i < n - 1 {
        lemma_xor_healths_update(ht, snakes, n - 1, i, s2);
        let x: u64 = xor_healths(ht, snakes, n - 1);
        let t: u64 = ht[snakes[n - 1].health];
        assert(((x ^ a) ^ bb) ^ t == ((x ^ t) ^ a) ^ bb) by (bit_vector);
    } else {
        lemma_xor_healths_congruent(ht, snakes.update(i, s2), snakes, n - 1);
        let x: u64 = xor_healths(ht, snakes, n - 1);
        assert((x ^ bb) == ((x ^ a) ^ a) ^ bb) by (bit_vector);
    }
}

/// The incremental hash tracks the position: when a board's hash
/// equals the full fold over its grid and healths, then after any
/// base-legal move the O(1) XOR update still equals that full fold
/// over the moved board. Together with the round trip, the hash can
/// be maintained move by move and never recomputed.
pub proof fn lemma_hash_tracks_position(b: BoardV, si: int, d: Direction)
    requires
        board_wf(b),
        0 <= si < b.snakes.len(),
        1 <= b.snakes[si].health <= 100,
        move_base_ok(b, si, d),
        b.hash == initial_hash(b),
    ensures
        move_result(b, si, d).hash == initial_hash(move_result(b, si, d)),
{
    let s = b.snakes[si];
    let a = move_action(b, si, d);
    let b2 = move_result(b, si, d);
    let n: int = b.grid.len() as int;
    let m: int = b.snakes.len() as int;
    let nxy = step_xy(s.head.x as int, s.head.y as int, d);
    let inh = cell_idx(b.height, nxy.0, nxy.1);
    let iot = cell_idx(b.height, a.old_tail.x as int, a.old_tail.y as int);
    assert(snake_shape_ok(b, si));
    assert(!a.fail);
    lemma_cell_idx_range(b.width, b.height, nxy.0, nxy.1);
    assert(s.body.last() == s.body[s.body.len() - 1]);
    assert(covers(s, s.body.last().x as int, s.body.last().y as int));
    assert(xy_in_bounds(b.width, b.height, a.old_tail.x as int, a.old_tail.y as int));
    lemma_cell_idx_range(b.width, b.height, a.old_tail.x as int, a.old_tail.y as int);
    assert(b.grid[iot] == CellV::Snake(s.id));

    let xc: u64 = xor_cells(b.ztable, b.grid, n);
    let xh: u64 = xor_healths(b.htable, b.snakes, m);
    let ho: u64 = b.htable[a.old_health];
    let hn: u64 = b.htable[b2.snakes[si].health];

    // the health fold changes by exactly the two health keys
    assert(b2.snakes =~= b.snakes.update(si, b2.snakes[si]));
    lemma_xor_healths_update(b.htable, b.snakes, m, si, b2.snakes[si]);
    assert(xor_healths(b.htable, b2.snakes, m) == xh ^ ho ^ hn);

    // the cell fold changes by exactly the toggled cells
    let tn: u64 = cell_toggle(b.ztable, b.height, nxy.0, nxy.1);
    let tt: u64 = cell_toggle(b.ztable, b.height, a.old_tail.x as int, a.old_tail.y as int);
    if a.ate_food {
        // food to snake: parity flips on the new head cell alone
        lemma_xor_cells_update(b.ztable, b.grid, n, inh, CellV::Snake(s.id));
        assert(occ_bit(b.grid[inh]) == 0 && occ_bit(CellV::Snake(s.id)) == 1);
        assert(xor_cells(b.ztable, b2.grid, n) == xc ^ b.ztable[2 * inh] ^ b.ztable[2 * inh + 1]);
        let z0: u64 = b.ztable[2 * inh];
        let z1: u64 = b.ztable[2 * inh + 1];
        assert((xc ^ xh) ^ ((z0 ^ z1) ^ ho ^ hn) == ((xc ^ z0) ^ z1) ^ ((xh ^ ho) ^ hn))
            by (bit_vector);
    } else {
        let g1 = b.grid.update(iot, CellV::Empty);
        lemma_xor_cells_update(b.ztable, b.grid, n, iot, CellV::Empty);
        lemma_xor_cells_update(b.ztable, g1, n, inh, CellV::Snake(s.id));
        if inh == iot {
            // stepping into the vacating tail cell: the two toggles
            // cancel at the fold just as they do in the delta
            assert(g1[inh] == CellV::Empty);
            let z0: u64 = b.ztable[2 * inh];
            let z1: u64 = b.ztable[2 * inh + 1];
            assert(xor_cells(b.ztable, b2.grid, n) == ((xc ^ z1) ^ z0) ^ z0 ^ z1);
            assert((((xc ^ z1) ^ z0) ^ z0) ^ z1 == xc) by (bit_vector);
            assert((xc ^ xh) ^ (((z0 ^ z1) ^ ho ^ hn) ^ (z0 ^ z1)) == xc ^ ((xh ^ ho) ^ hn))
                by (bit_vector);
        } else {
            assert(g1[inh] == b.grid[inh]);
            assert(occ_bit(b.grid[inh]) == 0) by {
                if b.grid[inh] is Snake {
                    let w = choose|i: int|
                        0 <= i < b.snakes.len() && covers(#[trigger] b.snakes[i], nxy.0, nxy.1);
                    assert(b.grid[inh] == CellV::Snake(b.snakes[w].id));
                    if w == si {
                        let k = choose|k: int|
                            0 <= k < s.body.len() && (#[trigger] s.body[k]).x == nxy.0
                                && s.body[k].y == nxy.1;
                        assert(k >= s.length - 1);
                        assert(nxy.0 == a.old_tail.x as int && nxy.1 == a.old_tail.y as int);
                        lemma_cell_idx_injective(
                            b.height,
                            nxy.0,
                            nxy.1,
                            a.old_tail.x as int,
                            a.old_tail.y as int,
                        );
                        assert(false);
                    } else {
                        assert(b.grid[inh] == CellV::Snake(s.id));
                        assert(b.snakes[w].id != s.id || w == si) by {
                            if w < si {
                                assert(b.snakes[w].id != b.snakes[si].id);
                            } else if w > si {
                                assert(b.snakes[si].id != b.snakes[w].id);
                            }
                        }
                        assert(false);
                    }
                }
            }
            let z0: u64 = b.ztable[2 * inh];
            let z1: u64 = b.ztable[2 * inh + 1];
            let w0: u64 = b.ztable[2 * iot];
            let w1: u64 = b.ztable[2 * iot + 1];
            assert(xor_cells(b.ztable, b2.grid, n) == ((xc ^ w1) ^ w0) ^ z0 ^ z1);
            assert((xc ^ xh) ^ (((z0 ^ z1) ^ ho ^ hn) ^ (w0 ^ w1)) == ((((xc ^ w1) ^ w0) ^ z0)
                ^ z1) ^ ((xh ^ ho) ^ hn)) by (bit_vector);
        }
    }
}

// ---------------------------------------------------------------------
// A measure that every legal move shrinks
// ---------------------------------------------------------------------

/// Number of food cells among the first `n` grid cells.
pub open spec fn count_food(grid: Seq<CellV>, n: int) -> int
    decreases n,
{
    if n <= 0 {
        0
    } else {
        count_food(grid, n - 1) + if grid[n - 1] is Food {
            1int
        } else {
            0int
        }
    }
}

/// Total health of the first `n` snakes.
pub open spec fn sum_healths(snakes: Seq<SnakeV>, n: int) -> int
    decreases n,
{
    if n <= 0 {
        0
    } else {
        sum_healths(snakes, n - 1) + snakes[n - 1].health
    }
}

/// A fuel for the search: each food cell is worth more than a full
/// refill of health, so every legal move strictly shrinks it — plain
/// moves burn one health, eating burns one food cell.
pub open spec fn board_measure(b: BoardV) -> int {
    101 * count_food(b.grid, b.grid.len() as int) + sum_healths(b.snakes, b.snakes.len() as int)
}

proof fn lemma_count_food_congruent(g1: Seq<CellV>, g2: Seq<CellV>, n: int)
    requires
        forall|j: int| 0 <= j < n ==> g1[j] == g2[j],
    ensures
        count_food(g1, n) == count_food(g2, n),
    decreases n,
{
    if n > 0 {
        lemma_count_food_congruent(g1, g2, n - 1);
    }
}

proof fn lemma_sum_healths_congruent(s1: Seq<SnakeV>, s2: Seq<SnakeV>, n: int)
    requires
        forall|j: int| 0 <= j < n ==> s1[j] == s2[j],
    ensures
        sum_healths(s1, n) == sum_healths(s2, n),
    decreases n,
{
    if n > 0 {
        lemma_sum_healths_congruent(s1, s2, n - 1);
    }
}

proof fn lemma_count_food_update(grid: Seq<CellV>, n: int, i: int, c: CellV)
    requires
        0 <= i < n <= grid.len(),
    ensures
        count_food(grid.update(i, c), n) == count_food(grid, n) - (if grid[i] is Food {
            1int
        } else {
            0int
        }) + (if c is Food {
            1int
        } else {
            0int
        }),
    decreases n,
{
    if i < n - 1 {
        lemma_count_food_update(grid, n - 1, i, c);
    } else {
        lemma_count_food_congruent(grid.update(i, c), grid, n - 1);
    }
}

proof fn lemma_count_food_nonneg(grid: Seq<CellV>, n: int)
    requires
        n <= grid.len(),
    ensures
        0 <= count_food(grid, n) <= if n >= 0 {
            n
        } else {
            0
        },
    decreases n,
{
    if n > 0 {
        lemma_count_food_nonneg(grid, n - 1);
    }
}

proof fn lemma_sum_healths_update(snakes: Seq<SnakeV>, n: int, i: int, s2: SnakeV)
    requires
        0 <= i < n <= snakes.len(),
    ensures
        sum_healths(snakes.update(i, s2), n) == sum_healths(snakes, n) - snakes[i].health
            + s2.health,
    decreases n,
{
    if i < n - 1 {
        lemma_sum_healths_update(snakes, n - 1, i, s2);
    } else {
        lemma_sum_healths_congruent(snakes.update(i, s2), snakes, n - 1);
    }
}

proof fn lemma_sum_healths_nonneg(snakes: Seq<SnakeV>, n: int)
    requires
        n <= snakes.len(),
        forall|i: int| 0 <= i < snakes.len() ==> 0 <= (#[trigger] snakes[i]).health,
    ensures
        0 <= sum_healths(snakes, n),
    decreases n,
{
    if n > 0 {
        lemma_sum_healths_nonneg(snakes, n - 1);
    }
}

/// Every base-legal move strictly shrinks the board measure, which
/// stays non-negative: the fuel of the game-tree search.
pub proof fn lemma_move_decreases_measure(b: BoardV, si: int, d: Direction)
    requires
        board_wf(b),
        0 <= si < b.snakes.len(),
        1 <= b.snakes[si].health <= 100,
        move_base_ok(b, si, d),
    ensures
        0 <= board_measure(move_result(b, si, d)) < board_measure(b),
        0 <= board_measure(b),
{
    let s = b.snakes[si];
    let a = move_action(b, si, d);
    let b2 = move_result(b, si, d);
    let n: int = b.grid.len() as int;
    let nxy = step_xy(s.head.x as int, s.head.y as int, d);
    let inh = cell_idx(b.height, nxy.0, nxy.1);
    let iot = cell_idx(b.height, a.old_tail.x as int, a.old_tail.y as int);
    assert(snake_shape_ok(b, si));
    assert(!a.fail);
    lemma_cell_idx_range(b.width, b.height, nxy.0, nxy.1);
    assert(s.body.last() == s.body[s.body.len() - 1]);
    assert(covers(s, s.body.last().x as int, s.body.last().y as int));
    assert(xy_in_bounds(b.width, b.height, a.old_tail.x as int, a.old_tail.y as int));
    lemma_cell_idx_range(b.width, b.height, a.old_tail.x as int, a.old_tail.y as int);
    assert(b.grid[iot] == CellV::Snake(s.id));
    lemma_count_food_nonneg(b.grid, n);
    assert forall|i: int| 0 <= i < b.snakes.len() implies 0 <= (#[trigger] b.snakes[i]).health by {
        assert(snake_shape_ok(b, i));
    }
    lemma_move_preserves_wf(b, si, d);
    assert forall|i: int| 0 <= i < b2.snakes.len() implies 0 <= (#[trigger] b2.snakes[i]).health by {
        assert(snake_shape_ok(b2, i));
    }
    lemma_sum_healths_nonneg(b.snakes, b.snakes.len() as int);
    lemma_sum_healths_nonneg(b2.snakes, b2.snakes.len() as int);
    lemma_sum_healths_update(b.snakes, b.snakes.len() as int, si, b2.snakes[si]);
    assert(b2.snakes =~= b.snakes.update(si, b2.snakes[si]));
    assert(sum_healths(b2.snakes, b2.snakes.len() as int) == sum_healths(
        b.snakes,
        b.snakes.len() as int,
    ) - s.health + b2.snakes[si].health);
    if a.ate_food {
        assert(b2.grid =~= b.grid.update(inh, CellV::Snake(s.id)));
        lemma_count_food_update(b.grid, n, inh, CellV::Snake(s.id));
        assert(count_food(b2.grid, n) == count_food(b.grid, n) - 1);
        lemma_count_food_nonneg(b2.grid, n);
    } else {
        let g1 = b.grid.update(iot, CellV::Empty);
        lemma_count_food_update(b.grid, n, iot, CellV::Empty);
        assert(count_food(g1, n) == count_food(b.grid, n));
        lemma_count_food_update(g1, n, inh, CellV::Snake(s.id));
        assert(g1[inh] is Food ==> false) by {
            if inh != iot {
                assert(g1[inh] == b.grid[inh]);
            }
        }
        assert(count_food(b2.grid, n) == count_food(b.grid, n));
        lemma_count_food_nonneg(b2.grid, n);
    }
}

/// A well-shaped snake's body fits on the grid: its coordinates are
/// pairwise distinct and in bounds, so there are at most `width *
/// height` of them.
pub proof fn lemma_body_len_bound(b: BoardV, i: int)
    requires
        board_dims_ok(b),
        0 <= i < b.snakes.len(),
        snake_shape_ok(b, i),
    ensures
        b.snakes[i].body.len() <= b.width * b.height,
{
    let s = b.snakes[i];
    let idxs = s.body.map_values(|c: Coord| cell_idx(b.height, c.x as int, c.y as int));
    assert(idxs.no_duplicates()) by {
        assert forall|k1: int, k2: int|
            0 <= k1 < idxs.len() && 0 <= k2 < idxs.len() && k1 != k2 implies idxs[k1]
            != idxs[k2] by {
            let c1 = s.body[k1];
            let c2 = s.body[k2];
            assert(c1.x != c2.x || c1.y != c2.y);
            let x1: int = c1.x as int;
            let y1: int = c1.y as int;
            let x2: int = c2.x as int;
            let y2: int = c2.y as int;
            let h: int = b.height;
            assert(x1 * h + y1 != x2 * h + y2) by (nonlinear_arith)
                requires
                    0 <= y1 < h,
                    0 <= y2 < h,
                    x1 != x2 || y1 != y2,
            ;
        }
    }
    idxs.unique_seq_to_set();
    let rng = vstd::set_lib::set_int_range(0, b.width * b.height);
    vstd::set_lib::lemma_int_range(0, b.width * b.height);
    assert(idxs.to_set().subset_of(rng)) by {
        assert forall|e: int| idxs.to_set().contains(e) implies rng.contains(e) by {
            let k = choose|k: int| 0 <= k < idxs.len() && idxs[k] == e;
            let c = s.body[k];
            let cx: int = c.x as int;
            let cy: int = c.y as int;
            let w: int = b.width;
            let h: int = b.height;
            assert(0 <= cx * h + cy < w * h) by (nonlinear_arith)
                requires
                    0 <= cx < w,
                    0 <= cy < h,
            ;
        }
    }
    vstd::set_lib::lemma_len_subset(idxs.to_set(), rng);
}

} // verus!
