use snake_engine::board::{Direction, GameBoard};
use snake_engine::eval::eval;
use snake_engine::game::{Battlesnake, Coord};
use snake_engine::recorder::{GameRecorder, Outcome, record_round};
use snake_engine::search::{SearchCtx, before_endgame, minimax, move_coord, think};
use snake_engine::ttable::{TTEntry, tt_entry_matches, tt_index};

fn c(x: i32, y: i32) -> Coord {
    Coord { x, y }
}

fn snake(id: &str, body: &[(i32, i32)], health: i32) -> Battlesnake {
    let body: Vec<Coord> = body.iter().map(|&(x, y)| c(x, y)).collect();
    Battlesnake {
        id: id.to_string(),
        name: id.to_string(),
        health,
        head: body[0],
        length: body.len() as i32,
        body,
    }
}

fn test_tables() -> (Vec<u64>, Vec<u64>) {
    let zt: Vec<u64> = (0..242).map(|i| (i as u64).wrapping_mul(0x9E3779B97F4A7C15) | 1).collect();
    let ht: Vec<u64> = (0..101).map(|i| (i as u64).wrapping_mul(0xBF58476D1CE4E5B9) | 1).collect();
    (zt, ht)
}

fn board_11(food: &[(i32, i32)], snakes: Vec<Battlesnake>) -> GameBoard {
    let (zt, ht) = test_tables();
    let food: Vec<Coord> = food.iter().map(|&(x, y)| c(x, y)).collect();
    GameBoard::new(11, 11, food, snakes, Vec::new(), zt, ht)
}

/// A plain, unpruned negamax over the same board primitives, with the
/// same terminal rules, forced-move extension and sign convention as
/// the engine — but no transposition table, ordering, null-move
/// pruning or reductions.
fn plain_negamax(board: &mut GameBoard, si: usize, ei: usize, depth: i32, ply: i32) -> i32 {
    let moves = board.generate_possible_moves(si);
    if moves.is_empty() || board.snakes[si].health <= 0 {
        return -100000 + ply;
    }
    let depth = if moves.len() == 1 { depth + 1 } else { depth };
    if depth <= 0 {
        return -eval(board, ei, si);
    }
    let mut best = -999999;
    for dir in moves {
        board.move_snake(si, dir);
        let s = -plain_negamax(board, ei, si, depth - 1, ply + 1);
        board.undo_move();
        if s > best {
            best = s;
        }
    }
    best
}

#[test]
fn alpha_beta_matches_plain_negamax_on_small_positions() {
    // pruning must not change the root score: compare the engine's
    // search against an unpruned negamax at shallow depths
    let positions = vec![
        vec![snake("a", &[(2, 2), (2, 1)], 100), snake("b", &[(4, 4), (4, 5)], 100)],
        vec![snake("a", &[(1, 1), (1, 2), (1, 3)], 60), snake("b", &[(3, 3), (3, 2)], 80)],
        vec![snake("a", &[(0, 0), (0, 1)], 100), snake("b", &[(2, 2), (2, 3), (2, 4)], 100)],
    ];
    for (pos, snakes) in positions.iter().enumerate() {
        // at depth two the late-move reduction only stays inert when the
        // root has at most two moves: the corner position
        let depths: &[i32] = if pos == 2 { &[1, 2] } else { &[1] };
        for &depth in depths {
            let mut b1 = board_11(&[], snakes.clone());
            let expected = plain_negamax(&mut b1, 0, 1, depth, 0);
            let mut b2 = board_11(&[], snakes.clone());
            let mut ctx = SearchCtx::new();
            let got = minimax(&mut b2, 0, 1, depth, 0, -9999999, 9999999, true, &mut ctx);
            assert_eq!(expected, got, "position {} depth {}", pos, depth);
        }
    }
}

#[test]
fn search_restores_the_board_it_explored() {
    let b0 = board_11(
        &[(3, 3)],
        vec![snake("a", &[(5, 5), (5, 4), (5, 3)], 90), snake("b", &[(5, 7), (5, 8)], 90)],
    );
    let mut b = b0.clone();
    let mut ctx = SearchCtx::new();
    let _ = minimax(&mut b, 0, 1, 6, 0, -9999999, 9999999, true, &mut ctx);
    assert_eq!(b0, b);
}

#[test]
fn transposition_probe_rejects_identity_mismatches() {
    // two distinct positions landing in the same slot never share a
    // score: any disagreeing identity field rejects the entry
    let entry = TTEntry {
        zobrist: 12345,
        best_move: Some(Direction::Up),
        second_best_move: None,
        worst_move: None,
        friendly_health: 90,
        enemy_health: 80,
        snake_head_x: 5,
        snake_head_y: 5,
        enemy_head_x: 5,
        enemy_head_y: 7,
        depth: 4,
        score: 700,
        flag: 3,
    };
    assert!(tt_entry_matches(&entry, 12345, 90, 80, 5, 5, 5, 7));
    // same slot (same masked hash), different full hash
    assert!(!tt_entry_matches(&entry, 12345 + (1 << 19), 90, 80, 5, 5, 5, 7));
    // same hash, different health or heads
    assert!(!tt_entry_matches(&entry, 12345, 89, 80, 5, 5, 5, 7));
    assert!(!tt_entry_matches(&entry, 12345, 90, 79, 5, 5, 5, 7));
    assert!(!tt_entry_matches(&entry, 12345, 90, 80, 6, 5, 5, 7));
    assert!(!tt_entry_matches(&entry, 12345, 90, 80, 5, 6, 5, 7));
    assert!(!tt_entry_matches(&entry, 12345, 90, 80, 5, 5, 6, 7));
    assert!(!tt_entry_matches(&entry, 12345, 90, 80, 5, 5, 5, 6));
}

#[test]
fn colliding_hashes_share_a_slot() {
    assert_eq!(tt_index(42), tt_index(42 + (1u64 << 19)));
    assert_ne!(tt_index(42), tt_index(43));
}

#[test]
fn engine_avoids_equal_length_head_to_head() {
    // two length-3 snakes two rows apart, full health, no food: the
    // engine must not step adjacent to the opponent's head when normal
    // escape squares exist
    let a = snake("a", &[(5, 5), (5, 4), (5, 3)], 100);
    let b = snake("b", &[(5, 7), (5, 8), (5, 9)], 100);
    let board0 = board_11(&[], vec![a, b]);

    let mut board = board0.clone();
    let mut ctx = SearchCtx::new();
    let mut rec = GameRecorder::new();
    let best = think(&mut rec, &mut board, 0, &mut ctx);
    let dir = best.expect("a live position must yield a move");
    assert_ne!(dir, Direction::Up, "Up steps next to the opposing head");
    let dest = move_coord(&c(5, 5), dir);
    let dd = (dest.x - 5) * (dest.x - 5) + (dest.y - 7) * (dest.y - 7);
    assert!(dd > 1, "chose a square under the opposing head");
    assert_eq!(board0, board);
}

#[test]
fn engine_is_deterministic_from_identical_state() {
    let mk = || {
        board_11(
            &[],
            vec![
                snake("a", &[(5, 5), (5, 4), (5, 3)], 100),
                snake("b", &[(5, 7), (5, 8), (5, 9)], 100),
            ],
        )
    };
    let mut b1 = mk();
    let mut ctx1 = SearchCtx::new();
    let mut rec1 = GameRecorder::new();
    let m1 = think(&mut rec1, &mut b1, 0, &mut ctx1);
    let mut b2 = mk();
    let mut ctx2 = SearchCtx::new();
    let mut rec2 = GameRecorder::new();
    let m2 = think(&mut rec2, &mut b2, 0, &mut ctx2);
    assert_eq!(m1, m2);
}

#[test]
fn starving_snake_advances_toward_food() {
    // food two cells away along a clear corridor, and only enough
    // health left to walk straight there: the chosen move closes the
    // distance; anything else starves before the refill
    let a = snake("a", &[(5, 5), (4, 5)], 2);
    let b = snake("b", &[(0, 10)], 100);
    let board0 = board_11(&[(7, 5)], vec![a, b]);
    let mut board = board0.clone();
    let mut ctx = SearchCtx::new();
    let mut rec = GameRecorder::new();
    let best = think(&mut rec, &mut board, 0, &mut ctx);
    let dir = best.expect("a live position must yield a move");
    assert_eq!(dir, Direction::Right, "must advance toward the food");
}

#[test]
fn think_without_opponent_returns_first_legal_move() {
    let a = snake("a", &[(5, 5), (5, 4)], 100);
    let mut board = board_11(&[], vec![a]);
    let mut ctx = SearchCtx::new();
    let mut rec = GameRecorder::new();
    let best = think(&mut rec, &mut board, 0, &mut ctx);
    // the generator reports Up first from an open square
    assert_eq!(best, Some(Direction::Up));
}

#[test]
fn boxed_in_snake_yields_no_move() {
    // total immobilisation: the engine reports no move at all, the
    // caller's forced-loss signal
    let a = snake("a", &[(0, 0), (0, 1), (1, 1)], 100);
    let blocker = snake("b", &[(1, 0), (2, 0), (2, 1), (2, 2), (1, 2), (0, 2)], 100);
    let mut board = board_11(&[], vec![a, blocker]);
    assert!(board.generate_possible_moves(0).is_empty());
    let mut ctx = SearchCtx::new();
    let mut rec = GameRecorder::new();
    let best = think(&mut rec, &mut board, 0, &mut ctx);
    assert_eq!(best, None);
}

#[test]
fn recorder_keeps_features_and_outcome_labels() {
    let board = board_11(
        &[],
        vec![snake("a", &[(2, 5), (1, 5)], 77), snake("b", &[(8, 5), (9, 5)], 100)],
    );
    let mut rec = GameRecorder::new();
    assert_eq!(rec.ending, Outcome::Undetermined);

    record_round(0, &board, 0, 1, &mut rec);
    assert_eq!(rec.rounds.len(), 1);
    assert_eq!(rec.rounds[0].health, 77);
    assert_eq!(rec.rounds[0].snake_length, 2);
    assert_eq!(rec.rounds[0].enemy_length, 2);
    assert_eq!(rec.ending, Outcome::Undetermined);

    record_round(60000, &board, 0, 1, &mut rec);
    assert_eq!(rec.rounds.len(), 1, "a decided score records no features");
    assert_eq!(rec.ending, Outcome::Win);

    record_round(-60000, &board, 0, 1, &mut rec);
    assert_eq!(rec.ending, Outcome::Loss);
}

#[test]
fn before_endgame_tracks_the_quarter_board_threshold() {
    let a = snake("a", &[(5, 5), (5, 4)], 100);
    let b = snake("b", &[(7, 7), (7, 8)], 100);
    let board = board_11(&[], vec![a, b]);
    // 2 + 2 = 4 <= 121 / 4 = 30
    assert!(!before_endgame(&board, 0, 1));
    let long_body: Vec<(i32, i32)> = (0..11).flat_map(|x| (0..2).map(move |y| (x, y))).collect();
    let long = snake("a", &long_body, 100);
    let b2 = snake("b", &[(0, 10), (1, 10), (2, 10), (3, 10), (4, 10), (5, 10), (6, 10), (7, 10), (8, 10)], 100);
    let board2 = board_11(&[], vec![long, b2]);
    // 22 + 9 = 31 > 30
    assert!(before_endgame(&board2, 0, 1));
}

#[test]
fn dead_positions_score_the_forced_loss_value() {
    // no legal move at all: the search reports the forced-loss score,
    // offset by the ply so that sooner losses score worse
    let a = snake("a", &[(0, 0), (0, 1), (1, 1)], 100);
    let blocker = snake("b", &[(1, 0), (2, 0), (2, 1), (2, 2), (1, 2), (0, 2)], 100);
    let mut board = board_11(&[], vec![a, blocker]);
    assert!(board.generate_possible_moves(0).is_empty());
    let mut ctx = SearchCtx::new();
    let got = minimax(&mut board, 0, 1, 4, 0, -9999999, 9999999, true, &mut ctx);
    assert_eq!(got, -100000);
}

#[test]
fn exhausted_depth_returns_the_negated_opponent_evaluation() {
    let a = snake("a", &[(5, 5), (5, 4)], 90);
    let b = snake("b", &[(2, 2), (2, 3)], 80);
    let mut board = board_11(&[], vec![a, b]);
    let expected = -eval(&board, 1, 0);
    let mut ctx = SearchCtx::new();
    let got = minimax(&mut board, 0, 1, 0, 0, -9999999, 9999999, true, &mut ctx);
    assert_eq!(got, expected);
}

#[test]
fn a_single_legal_move_is_the_recorded_answer() {
    // boxed in except for one square: the engine must report exactly
    // that move
    let a = snake("a", &[(0, 0), (0, 1), (1, 1)], 100);
    let blocker = snake("b", &[(3, 0), (2, 0), (2, 1), (2, 2), (1, 2), (0, 2)], 100);
    let mut board = board_11(&[], vec![a, blocker]);
    assert_eq!(board.generate_possible_moves(0), vec![Direction::Right]);
    let mut ctx = SearchCtx::new();
    let mut rec = GameRecorder::new();
    let best = think(&mut rec, &mut board, 0, &mut ctx);
    assert_eq!(best, Some(Direction::Right));
}

#[test]
fn hazard_games_are_searched_not_defaulted() {
    // a board carrying hazards is a normal position for the engine:
    // the search runs and returns a legal move
    let (zt, ht) = test_tables();
    let a = snake("a", &[(5, 5), (5, 4), (5, 3)], 90);
    let b = snake("b", &[(5, 8), (5, 9)], 90);
    let mut board = GameBoard::new(
        11,
        11,
        vec![c(2, 2)],
        vec![a, b],
        vec![c(6, 5), c(0, 10)],
        zt,
        ht,
    );
    let legal = board.generate_possible_moves(0);
    let mut ctx = SearchCtx::new();
    let mut rec = GameRecorder::new();
    let best = think(&mut rec, &mut board, 0, &mut ctx);
    let dir = best.expect("a live hazard position must yield a move");
    assert!(legal.contains(&dir));
}
