//! The transposition table: a direct-mapped cache of searched
//! positions, keyed by the incremental hash and guarded against
//! collisions by auxiliary identity fields.
use vstd::prelude::*;
use crate::board::Direction;

verus! {

/// Number of slots in the table; a power of two, so a hash picks its
/// slot by masking.
pub const TT_SIZE: usize = 0x80000;

/// One cached position: the full hash, the best, second-best and worst
/// child moves seen here (for ordering only), both snakes' health and
/// head cells (the collision guard), the depth searched, the score,
/// and the bound flag the score carries.
#[derive(Debug, Clone, Copy, PartialEq, Eq, Structural)]
pub struct TTEntry {
    pub zobrist: u64,
    pub best_move: Option<Direction>,
    pub second_best_move: Option<Direction>,
    pub worst_move: Option<Direction>,
    pub friendly_health: i32,
    pub enemy_health: i32,
    pub snake_head_x: i32,
    pub snake_head_y: i32,
    pub enemy_head_x: i32,
    pub enemy_head_y: i32,
    pub depth: i32,
    pub score: i32,
    pub flag: i32,
}

/// The entry every slot starts from: impossible identity fields, so it
/// can never be mistaken for a real position.
pub open spec fn initial_tt_entry() -> TTEntry {
    TTEntry {
        zobrist: 0u64,
        best_move: None,
        second_best_move: None,
        worst_move: None,
        friendly_health: -1i32,
        enemy_health: -1i32,
        snake_head_x: -1i32,
        snake_head_y: -1i32,
        enemy_head_x: -1i32,
        enemy_head_y: -1i32,
        depth: -1i32,
        score: -1i32,
        flag: -1i32,
    }
}

/// An entry is trusted only when the hash and every identity field —
/// both snakes' health and head cells — agree with the probing
/// position.
pub open spec fn tt_match(
    e: TTEntry,
    zobrist: u64,
    friendly_health: i32,
    enemy_health: i32,
    snake_head_x: i32,
    snake_head_y: i32,
    enemy_head_x: i32,
    enemy_head_y: i32,
) -> bool {
    &&& e.zobrist == zobrist
    &&& e.friendly_health == friendly_health
    &&& e.enemy_health == enemy_health
    &&& e.snake_head_x == snake_head_x
    &&& e.snake_head_y == snake_head_y
    &&& e.enemy_head_x == enemy_head_x
    &&& e.enemy_head_y == enemy_head_y
}

/// The slot a hash maps to.
pub fn tt_index(zobrist: u64) -> (i: usize)
    ensures
        i < TT_SIZE,
        i as int == zobrist as int % TT_SIZE as int,
{
    proof {
        let z: u64 = zobrist;
        assert(z & 0x7FFFF == z % 0x80000 && z % 0x80000 < 0x80000) by (bit_vector);
    }
    (zobrist & 0x7FFFF) as usize
}

/// A table of `TT_SIZE` untouched slots.
pub fn new_transposition_table() -> (tt: Vec<TTEntry>)
    ensures
        tt@.len() == TT_SIZE,
        forall|i: int| 0 <= i < tt@.len() ==> #[trigger] tt@[i] == initial_tt_entry(),
{
    let mut tt: Vec<TTEntry> = Vec::new();
    while tt.len() < TT_SIZE
        invariant
            tt@.len() <= TT_SIZE,
            forall|i: int| 0 <= i < tt@.len() ==> #[trigger] tt@[i] == initial_tt_entry(),
        decreases TT_SIZE - tt.len(),
    {
        tt.push(
            TTEntry {
                zobrist: 0,
                best_move: None,
                second_best_move: None,
                worst_move: None,
                friendly_health: -1,
                enemy_health: -1,
                snake_head_x: -1,
                snake_head_y: -1,
                enemy_head_x: -1,
                enemy_head_y: -1,
                depth: -1,
                score: -1,
                flag: -1,
            },
        );
    }
    tt
}

/// The probe's guard, exactly: the hash and all six identity fields
/// must match, or the entry is rejected.
pub fn tt_entry_matches(
    entry: &TTEntry,
    zobrist: u64,
    friendly_health: i32,
    enemy_health: i32,
    snake_head_x: i32,
    snake_head_y: i32,
    enemy_head_x: i32,
    enemy_head_y: i32,
) -> (r: bool)
    ensures
        r == tt_match(
            *entry,
            zobrist,
            friendly_health,
            enemy_health,
            snake_head_x,
            snake_head_y,
            enemy_head_x,
            enemy_head_y,
        ),
{
    entry.zobrist == zobrist && entry.friendly_health == friendly_health && entry.enemy_health
        == enemy_health && entry.snake_head_x == snake_head_x && entry.snake_head_y == snake_head_y
        && entry.enemy_head_x == enemy_head_x && entry.enemy_head_y == enemy_head_y
}

/// Transposition soundness: a slot whose hash or any identity field
/// disagrees with the probing position is never trusted, so a cached
/// score is never returned for the wrong position — a table collision
/// can overwrite, but not mislead.
pub proof fn lemma_tt_identity_guard(
    e: TTEntry,
    zobrist: u64,
    friendly_health: i32,
    enemy_health: i32,
    snake_head_x: i32,
    snake_head_y: i32,
    enemy_head_x: i32,
    enemy_head_y: i32,
)
    requires
        e.zobrist != zobrist || e.friendly_health != friendly_health || e.enemy_health
            != enemy_health || e.snake_head_x != snake_head_x || e.snake_head_y != snake_head_y
            || e.enemy_head_x != enemy_head_x || e.enemy_head_y != enemy_head_y,
    ensures
        !tt_match(
            e,
            zobrist,
            friendly_health,
            enemy_health,
            snake_head_x,
            snake_head_y,
            enemy_head_x,
            enemy_head_y,
        ),
{
}

} // verus!
