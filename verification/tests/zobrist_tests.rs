use snake_engine::recorder::{GameRecorder, Outcome};
use snake_engine::search::SearchCtx;
use snake_engine::ttable::{new_transposition_table, TT_SIZE};
use snake_engine::zobrist::fresh_zobrist_tables;

#[test]
fn fresh_tables_have_one_key_per_cell_parity_and_health() {
    let (zt, ht) = fresh_zobrist_tables(11, 11);
    assert_eq!(zt.len(), 2 * 11 * 11);
    assert_eq!(ht.len(), 101);
    let (zt2, ht2) = fresh_zobrist_tables(5, 7);
    assert_eq!(zt2.len(), 2 * 5 * 7);
    assert_eq!(ht2.len(), 101);
}

#[test]
fn fresh_search_state_is_sized_and_empty() {
    let ctx = SearchCtx::new();
    assert_eq!(ctx.transposition_table.len(), TT_SIZE);
    assert_eq!(ctx.killers.len(), 1000);
    assert_eq!(ctx.history.len(), 14641);
    assert!(ctx.past_moves.is_empty());
    assert_eq!(ctx.best_move, None);
    let rec = GameRecorder::new();
    assert!(rec.rounds.is_empty());
    assert_eq!(rec.ending, Outcome::Undetermined);
}

#[test]
fn fresh_transposition_table_never_matches_a_live_position() {
    let tt = new_transposition_table();
    // impossible identity fields: health is never negative in play
    assert_eq!(tt[0].friendly_health, -1);
    assert_eq!(tt[TT_SIZE - 1].friendly_health, -1);
    assert_eq!(tt[0].best_move, None);
}
