use snake_engine::board::{CellContent, Direction, GameBoard};
use snake_engine::game::{Battlesnake, Coord};

fn c(x: i32, y: i32) -> Coord {
    Coord { x, y }
}

fn snake(id: &str, body: &[(i32, i32)], health: i32) -> Battlesnake {
    let body: Vec<Coord> = body.iter().map(|&(x, y)| c(x, y)).collect();
    Battlesnake {
        id: id.to_string(),
        name: id.to_string(),
        health,
        head: body[0],
        length: body.len() as i32,
        body,
    }
}

/// Deterministic stand-ins for the random key tables, so that hash
/// behaviour is reproducible across test runs.
fn test_tables(width: i32, height: i32) -> (Vec<u64>, Vec<u64>) {
    let cells = (2 * width * height) as usize;
    let zt: Vec<u64> = (0..cells)
        .map(|i| (i as u64).wrapping_mul(0x9E3779B97F4A7C15).rotate_left((i % 63) as u32) | 1)
        .collect();
    let ht: Vec<u64> = (0..101)
        .map(|i| (i as u64).wrapping_mul(0xBF58476D1CE4E5B9).rotate_left((i % 61) as u32) | 1)
        .collect();
    (zt, ht)
}

fn board_11(food: &[(i32, i32)], snakes: Vec<Battlesnake>) -> GameBoard {
    let (zt, ht) = test_tables(11, 11);
    let food: Vec<Coord> = food.iter().map(|&(x, y)| c(x, y)).collect();
    GameBoard::new(11, 11, food, snakes, Vec::new(), zt, ht)
}

#[test]
fn new_paints_food_snakes_and_empty() {
    let b = board_11(&[(0, 0)], vec![snake("a", &[(5, 5), (5, 4)], 100)]);
    assert_eq!(b.matrix[0 * 11 + 0], CellContent::Food);
    assert_eq!(b.matrix[5 * 11 + 5], CellContent::Snake("a".to_string()));
    assert_eq!(b.matrix[5 * 11 + 4], CellContent::Snake("a".to_string()));
    assert_eq!(b.matrix[3 * 11 + 3], CellContent::Empty);
    assert_eq!(b.width, 11);
    assert_eq!(b.height, 11);
    assert!(b.history.is_empty());
}

#[test]
fn move_and_undo_restore_board_exactly() {
    // the move/undo round trip restores the grid, the snake and the
    // hash bit for bit
    let b0 = board_11(
        &[(9, 9)],
        vec![snake("a", &[(5, 5), (5, 4), (5, 3)], 80), snake("b", &[(0, 0), (0, 1)], 55)],
    );
    for dir in [Direction::Up, Direction::Down, Direction::Left, Direction::Right] {
        let mut b = b0.clone();
        let legal = b.generate_possible_moves(0);
        if !legal.contains(&dir) {
            continue;
        }
        let ok = b.move_snake(0, dir);
        assert!(ok);
        assert_ne!(b0, b);
        b.undo_move();
        assert_eq!(b0, b);
    }
}

#[test]
fn move_and_undo_restore_after_eating() {
    let b0 = board_11(&[(5, 6)], vec![snake("a", &[(5, 5), (5, 4), (5, 3)], 80)]);
    let mut b = b0.clone();
    let ok = b.move_snake(0, Direction::Up);
    assert!(ok);
    assert_eq!(b.snakes[0].health, 100);
    assert_eq!(b.snakes[0].length, 4);
    assert_eq!(b.snakes[0].body.len(), 4);
    assert_eq!(b.snakes[0].head, c(5, 6));
    // the retained tail keeps its cell
    assert_eq!(b.matrix[5 * 11 + 3], CellContent::Snake("a".to_string()));
    b.undo_move();
    assert_eq!(b0, b);
}

#[test]
fn failed_move_records_marker_and_undo_is_noop() {
    let b0 = board_11(&[], vec![snake("a", &[(0, 5), (1, 5)], 70)]);
    let mut b = b0.clone();
    let ok = b.move_snake(0, Direction::Left);
    assert!(!ok);
    assert_eq!(b.history.len(), 1);
    assert!(b.history[0].fail);
    assert_eq!(b.snakes[0].head, c(0, 5));
    b.undo_move();
    assert_eq!(b0, b);
}

#[test]
fn moving_decrements_health_and_shifts_body() {
    let b0 = board_11(&[], vec![snake("a", &[(5, 5), (5, 4)], 70)]);
    let mut b = b0.clone();
    assert!(b.move_snake(0, Direction::Right));
    assert_eq!(b.snakes[0].health, 69);
    assert_eq!(b.snakes[0].head, c(6, 5));
    assert_eq!(b.snakes[0].body, vec![c(6, 5), c(5, 5)]);
    assert_eq!(b.matrix[5 * 11 + 4], CellContent::Empty);
    assert_eq!(b.matrix[6 * 11 + 5], CellContent::Snake("a".to_string()));
}

#[test]
fn hash_changes_on_move_and_is_restored_by_undo() {
    let b0 = board_11(&[], vec![snake("a", &[(5, 5), (5, 4)], 70)]);
    let mut b = b0.clone();
    assert!(b.move_snake(0, Direction::Right));
    assert_ne!(b0.zobrist_hash, b.zobrist_hash);
    b.undo_move();
    assert_eq!(b0.zobrist_hash, b.zobrist_hash);
}

#[test]
fn generator_respects_bounds_and_bodies() {
    // head in the corner: only the two inward steps, one of which is
    // blocked by its own front segment
    let b = board_11(&[], vec![snake("a", &[(0, 0), (0, 1), (1, 1)], 100)]);
    let moves = b.generate_possible_moves(0);
    assert_eq!(moves, vec![Direction::Right]);
}

#[test]
fn generator_allows_stepping_onto_own_vacating_tail() {
    // the body rings a 2x2 block: the only square is the tail's
    let b = board_11(&[], vec![snake("a", &[(0, 0), (0, 1), (1, 1), (1, 0)], 100)]);
    let moves = b.generate_possible_moves(0);
    assert_eq!(moves, vec![Direction::Right]);
    let mut b = b;
    assert!(b.move_snake(0, Direction::Right));
    assert_eq!(b.snakes[0].head, c(1, 0));
}

#[test]
fn generator_blocks_other_snake_bodies() {
    let b = board_11(
        &[],
        vec![snake("a", &[(5, 5), (5, 4)], 100), snake("b", &[(5, 6), (6, 6), (7, 7)], 100)],
    );
    let moves = b.generate_possible_moves(0);
    // Up runs into b's body; the sideways and backward squares are
    // clear of it and outside its head's reach
    assert!(!moves.contains(&Direction::Up));
    assert!(moves.contains(&Direction::Down));
    assert!(moves.contains(&Direction::Left));
    assert!(moves.contains(&Direction::Right));
}

#[test]
fn last_ditch_fallback_returns_tied_head_to_head_square() {
    // boxed in except for one square under an equal-length opponent's
    // head: that square comes back as the sole move rather than none
    let a = snake("a", &[(0, 0), (0, 1), (0, 2)], 100);
    let b = snake("b", &[(2, 0), (2, 1), (2, 2)], 100);
    let board = board_11(&[], vec![a, b]);
    let moves = board.generate_possible_moves(0);
    // Up hits a's own front segment; Left/Down leave the grid; Right
    // to (1,0) is adjacent to b's head with equal length
    assert_eq!(moves, vec![Direction::Right]);
}

#[test]
fn longer_threat_discards_move_outright() {
    let a = snake("a", &[(0, 0), (0, 1), (0, 2)], 100);
    let b = snake("b", &[(2, 0), (2, 1), (2, 2), (3, 2)], 100);
    let board = board_11(&[], vec![a, b]);
    let moves = board.generate_possible_moves(0);
    // the only escape square is under a strictly longer head: no move
    // survives, not even as a last resort
    assert!(moves.is_empty());
}

#[test]
fn generated_moves_apply_safely() {
    // legal-move soundness, exercised: every generated move applies,
    // keeps the head in bounds and off other snakes' bodies
    let b0 = board_11(
        &[(4, 4)],
        vec![snake("a", &[(5, 5), (5, 4), (5, 3)], 90), snake("b", &[(7, 5), (7, 6)], 90)],
    );
    for si in 0..2 {
        let moves = b0.generate_possible_moves(si);
        for dir in moves {
            let mut b = b0.clone();
            assert!(b.move_snake(si, dir));
            let head = b.snakes[si].head;
            assert!(head.x >= 0 && head.x < 11 && head.y >= 0 && head.y < 11);
            let other = 1 - si;
            assert!(!b.snakes[other].body.contains(&head));
        }
    }
}

#[test]
fn get_snake_resolves_identities() {
    let b = board_11(&[], vec![snake("a", &[(5, 5)], 100), snake("b", &[(7, 7)], 100)]);
    assert_eq!(b.get_snake(&"a".to_string()), 0);
    assert_eq!(b.get_snake(&"b".to_string()), 1);
    assert!(b.has_snake(&"a".to_string()));
    assert!(!b.has_snake(&"c".to_string()));
}

#[test]
fn clone_is_deep() {
    let b0 = board_11(&[(1, 1)], vec![snake("a", &[(5, 5), (5, 4)], 100)]);
    let mut b = b0.clone();
    assert_eq!(b0, b);
    assert!(b.move_snake(0, Direction::Up));
    assert_ne!(b0, b);
    assert_eq!(b0.snakes[0].head, c(5, 5));
}

#[test]
fn longer_threat_discards_even_with_an_equal_tie_available() {
    // the escape square is threatened by an equal-length head that
    // comes first in arena order AND by a strictly longer head later:
    // the strictly longer threat discards the move outright, so no
    // last-ditch answer comes back
    let a = snake("a", &[(0, 0), (0, 1), (0, 2)], 100);
    let tie = snake("tie", &[(2, 0), (3, 0), (4, 0)], 100);
    let long = snake("long", &[(1, 1), (1, 2), (2, 2), (3, 2)], 100);
    let board = board_11(&[], vec![a, tie, long]);
    let moves = board.generate_possible_moves(0);
    assert!(moves.is_empty());
}

#[test]
fn equal_threats_alone_still_come_back_as_last_ditch() {
    // the same square threatened only by equal-length heads stays a
    // last-ditch answer
    let a = snake("a", &[(0, 0), (0, 1), (0, 2)], 100);
    let tie = snake("tie", &[(2, 0), (3, 0), (4, 0)], 100);
    let tie2 = snake("tie2", &[(1, 1), (1, 2), (2, 2)], 100);
    let board = board_11(&[], vec![a, tie, tie2]);
    let moves = board.generate_possible_moves(0);
    assert_eq!(moves, vec![Direction::Right]);
}

#[test]
fn hazard_cells_survive_the_move_undo_round_trip() {
    // stepping onto a hazard is legal; the action records it, the
    // rollback restores it, hash included
    let (zt, ht) = test_tables(11, 11);
    let a = snake("a", &[(5, 5), (5, 4), (5, 3)], 80);
    let b0 = GameBoard::new(
        11,
        11,
        vec![c(9, 9)],
        vec![a],
        vec![c(5, 6), c(0, 0)],
        zt,
        ht,
    );
    assert_eq!(b0.matrix[5 * 11 + 6], CellContent::Hazard);
    let mut b = b0.clone();
    let moves = b.generate_possible_moves(0);
    assert!(moves.contains(&Direction::Up), "hazards do not block movement");
    assert!(b.move_snake(0, Direction::Up));
    assert_eq!(b.matrix[5 * 11 + 6], CellContent::Snake("a".to_string()));
    assert_eq!(b.snakes[0].health, 79);
    b.undo_move();
    assert_eq!(b0, b);
}
