use snake_engine::board::GameBoard;
use snake_engine::eval::{bfs, eval, passability, territory_counts, territory_score};
use snake_engine::game::{Battlesnake, Coord};

fn c(x: i32, y: i32) -> Coord {
    Coord { x, y }
}

fn snake(id: &str, body: &[(i32, i32)], health: i32) -> Battlesnake {
    let body: Vec<Coord> = body.iter().map(|&(x, y)| c(x, y)).collect();
    Battlesnake {
        id: id.to_string(),
        name: id.to_string(),
        health,
        head: body[0],
        length: body.len() as i32,
        body,
    }
}

fn test_tables() -> (Vec<u64>, Vec<u64>) {
    let zt: Vec<u64> = (0..242).map(|i| (i as u64).wrapping_mul(0x9E3779B97F4A7C15) | 1).collect();
    let ht: Vec<u64> = (0..101).map(|i| (i as u64).wrapping_mul(0xBF58476D1CE4E5B9) | 1).collect();
    (zt, ht)
}

fn board_11(food: &[(i32, i32)], snakes: Vec<Battlesnake>) -> GameBoard {
    let (zt, ht) = test_tables();
    let food: Vec<Coord> = food.iter().map(|&(x, y)| c(x, y)).collect();
    GameBoard::new(11, 11, food, snakes, Vec::new(), zt, ht)
}

#[test]
fn passability_marks_snakes_impassable_and_food_passable() {
    let b = board_11(&[(0, 0)], vec![snake("a", &[(5, 5), (5, 4)], 100)]);
    let pass = passability(&b);
    assert_eq!(pass.len(), 121);
    assert!(pass[0]);
    assert!(!pass[5 * 11 + 5]);
    assert!(!pass[5 * 11 + 4]);
    assert!(pass[3 * 11 + 3]);
}

#[test]
fn bfs_claims_neighbours_at_one_step() {
    let pass = vec![true; 121];
    let (d1, d2) = bfs(&pass, 0, 0, 10, 10);
    assert_eq!(d1[0], 0);
    assert_eq!(d2[10 * 11 + 10], 0);
    assert_eq!(d1[0 * 11 + 1], 1);
    assert_eq!(d1[1 * 11 + 0], 1);
    assert_eq!(d2[10 * 11 + 9], 1);
}

#[test]
fn bfs_never_claims_impassable_cells() {
    let mut pass = vec![true; 121];
    // a full wall at x == 5 splits the board
    for y in 0..11 {
        pass[5 * 11 + y] = false;
    }
    let (d1, d2) = bfs(&pass, 0, 0, 10, 10);
    for y in 0..11 {
        assert_eq!(d1[5 * 11 + y], 9999);
        assert_eq!(d2[5 * 11 + y], 9999);
    }
    // neither side crosses the wall
    assert_eq!(d1[10 * 11 + 10], 9999);
    assert_eq!(d2[0], 9999);
}

#[test]
fn territory_score_awards_cells_and_ties_by_length() {
    // three passable cells: one clearly mine, one clearly theirs, one
    // tied — the tie goes with the longer snake
    let mut pass = vec![false; 121];
    pass[0] = true;
    pass[1] = true;
    pass[2] = true;
    let mut d1 = vec![9999; 121];
    let mut d2 = vec![9999; 121];
    d1[0] = 1;
    d2[0] = 5;
    d1[1] = 7;
    d2[1] = 2;
    d1[2] = 3;
    d2[2] = 3;
    assert_eq!(territory_score(&pass, &d1, &d2, 4, 4), 0);
    assert_eq!(territory_score(&pass, &d1, &d2, 5, 4), 100);
    assert_eq!(territory_score(&pass, &d1, &d2, 4, 5), -100);
    let counts = territory_counts(&pass, &d1, &d2, 5, 4);
    assert_eq!(counts, (2, 1));
}

#[test]
fn evaluator_territory_nets_to_zero_on_symmetric_board() {
    // empty 11x11 board, two heads mirrored about the centre, equal
    // length and health: the flood-fill term cancels out, and with no
    // health penalty or length edge the whole score is zero
    let b = board_11(
        &[],
        vec![snake("a", &[(2, 5), (1, 5)], 100), snake("b", &[(8, 5), (9, 5)], 100)],
    );
    assert_eq!(eval(&b, 0, 1), 0);
}

#[test]
fn evaluator_low_health_penalty_is_quadratic() {
    // same symmetric board, but the acting snake is starving: the
    // territory term still cancels, leaving 100 * (h/12)^2 - 2000
    let b = board_11(
        &[],
        vec![snake("a", &[(2, 5), (1, 5)], 10), snake("b", &[(8, 5), (9, 5)], 100)],
    );
    assert_eq!(eval(&b, 0, 1), -2000);
    let b = board_11(
        &[],
        vec![snake("a", &[(2, 5), (1, 5)], 69), snake("b", &[(8, 5), (9, 5)], 100)],
    );
    assert_eq!(eval(&b, 0, 1), 100 * 5 * 5 - 2000);
}

#[test]
fn evaluator_length_advantage_dominates() {
    // a longer snake with equal territory scores the length bonus plus
    // whatever extra cells its length wins on ties
    let short = snake("b", &[(8, 5), (9, 5)], 100);
    let long = snake("a", &[(2, 5), (1, 5), (0, 5)], 100);
    let b = board_11(&[], vec![long, short]);
    let score = eval(&b, 0, 1);
    // one extra body segment: 300 per length point, plus tied cells
    assert!(score >= 300, "score = {}", score);
}
