//! The random key tables the incremental position hash is built from:
//! two values per cell (one per occupancy parity) and one per health
//! value, drawn once per game.
use vstd::prelude::*;

verus! {

/// Relies on rand::random::<u64>: a fresh pseudorandom value from the
/// thread-local generator; nothing is assumed about which value comes
/// back.
#[verifier::external_body]
fn random_u64() -> u64 {
    rand::random::<u64>()
}

/// Draws the two key tables for a game on a `width` by `height` grid:
/// two cell keys per coordinate, and one health key per health value
/// in `[0, 100]`.
pub fn fresh_zobrist_tables(width: i32, height: i32) -> (r: (Vec<u64>, Vec<u64>))
    requires
        1 <= width as int <= 1000,
        1 <= height as int <= 1000,
    ensures
        r.0@.len() == 2 * (width as int) * (height as int),
        r.1@.len() == 101,
{
    let ghost wi: int = width as int;
    let ghost hi: int = height as int;
    proof {
        assert(2 * wi * hi == 2 * (wi * hi) && wi * hi <= 1000000) by (nonlinear_arith)
            requires
                1 <= wi <= 1000,
                1 <= hi <= 1000,
        ;
    }
    let total: usize = 2 * (width as usize) * (height as usize);
    let mut zobrist_table: Vec<u64> = Vec::new();
    while zobrist_table.len() < total
        invariant
            zobrist_table@.len() <= total,
        decreases total - zobrist_table.len(),
    {
        zobrist_table.push(random_u64());
    }
    let mut health_zobrist_table: Vec<u64> = Vec::new();
    while health_zobrist_table.len() < 101
        invariant
            health_zobrist_table@.len() <= 101,
        decreases 101 - health_zobrist_table.len(),
    {
        health_zobrist_table.push(random_u64());
    }
    (zobrist_table, health_zobrist_table)
}

} // verus!
