//! Per-turn telemetry for offline tuning: one record of derived
//! features per searched turn, and a single outcome label per game.
//! Nothing here is read back by the decision path.
use vstd::prelude::*;
use crate::board::{GameBoard, board_dims_ok, snake_shape_ok};
use crate::eval::{GRID_SIDE, bfs, fill_model, passability, passable_seq, round_counts_spec,
    territory_counts};

verus! {

/// The features of one turn: cells won by each side in the territory
/// race, both lengths, and the acting snake's health.
#[derive(Debug, Clone, Copy, PartialEq, Eq, Structural)]
pub struct RoundInfo {
    pub snake_bfs: i32,
    pub enemy_bfs: i32,
    pub snake_length: i32,
    pub enemy_length: i32,
    pub health: i32,
}

/// The game's outcome label, set once a searched score leaves all
/// doubt; undetermined until then.
#[derive(Debug, Clone, Copy, PartialEq, Eq, Structural)]
pub enum Outcome {
    Win,
    Loss,
    Undetermined,
}

/// The per-game telemetry store: the turn records, and the running
/// outcome label.
#[derive(Debug)]
pub struct GameRecorder {
    pub rounds: Vec<RoundInfo>,
    pub ending: Outcome,
}

impl GameRecorder {
    /// A fresh recorder: no rounds yet, outcome undetermined.
    pub fn new() -> (r: GameRecorder)
        ensures
            r.rounds@.len() == 0,
            r.ending == Outcome::Undetermined,
    {
        GameRecorder { rounds: Vec::new(), ending: Outcome::Undetermined }
    }
}

/// Records one turn. A score beyond the decided threshold sets the
/// outcome label instead of recording features: a win above, a loss
/// below. Otherwise one record is appended, carrying the two
/// territory counts, both lengths, and the acting snake's health,
/// and the label is left alone.
pub fn record_round(
    target_score: i32,
    board: &GameBoard,
    si: usize,
    ei: usize,
    game_recorder: &mut GameRecorder,
)
    requires
        -50000 <= target_score <= 50000 ==> {
            &&& board_dims_ok(board@)
            &&& board@.width == GRID_SIDE
            &&& board@.height == GRID_SIDE
            &&& si < board@.snakes.len()
            &&& ei < board@.snakes.len()
            &&& snake_shape_ok(board@, si as int)
            &&& snake_shape_ok(board@, ei as int)
        },
    ensures
        target_score > 50000 ==> final(game_recorder).ending == Outcome::Win
            && final(game_recorder).rounds@ == old(game_recorder).rounds@,
        target_score < -50000 ==> final(game_recorder).ending == Outcome::Loss
            && final(game_recorder).rounds@ == old(game_recorder).rounds@,
        -50000 <= target_score <= 50000 ==> {
            &&& final(game_recorder).ending == old(game_recorder).ending
            &&& final(game_recorder).rounds@.len() == old(game_recorder).rounds@.len() + 1
            &&& final(game_recorder).rounds@.take(old(game_recorder).rounds@.len() as int)
                == old(game_recorder).rounds@
            &&& ({
                let r = final(game_recorder).rounds@.last();
                &&& r.snake_length == board@.snakes[si as int].length
                &&& r.enemy_length == board@.snakes[ei as int].length
                &&& r.health == board@.snakes[si as int].health
                &&& 0 <= r.snake_bfs <= 121
                &&& 0 <= r.enemy_bfs <= 121
                &&& (r.snake_bfs as int, r.enemy_bfs as int) == round_counts_spec(
                    board@,
                    si as int,
                    ei as int,
                )
            })
        },
{
    if target_score > 50000 {
        game_recorder.ending = Outcome::Win;
        return ;
    } else if target_score < -50000 {
        game_recorder.ending = Outcome::Loss;
        return ;
    }

    let snake_x = board.snakes[si].head.x;
    let snake_y = board.snakes[si].head.y;
    let enemy_x = board.snakes[ei].head.x;
    let enemy_y = board.snakes[ei].head.y;
    let snake_length = board.snakes[si].length;
    let enemy_length = board.snakes[ei].length;
    let health = board.snakes[si].health;

    proof {
        assert(board@.snakes[si as int].head == board@.snakes[si as int].body[0]);
        assert(board@.snakes[ei as int].head == board@.snakes[ei as int].body[0]);
    }
    let pass = passability(board);
    let bfs_pair = bfs(
        &pass,
        snake_x as usize,
        snake_y as usize,
        enemy_x as usize,
        enemy_y as usize,
    );
    let counts = territory_counts(&pass, &bfs_pair.0, &bfs_pair.1, snake_length, enemy_length);

    let ghost rounds0 = game_recorder.rounds@;
    game_recorder.rounds.push(
        RoundInfo {
            snake_bfs: counts.0,
            enemy_bfs: counts.1,
            snake_length,
            enemy_length,
            health,
        },
    );
    proof {
        assert(game_recorder.rounds@.take(rounds0.len() as int) =~= rounds0);
        assert((bfs_pair.0@, bfs_pair.1@) == fill_model(
            passable_seq(board@),
            board@.snakes[si as int].head.x as int,
            board@.snakes[si as int].head.y as int,
            board@.snakes[ei as int].head.x as int,
            board@.snakes[ei as int].head.y as int,
        ));
        assert((counts.0 as int, counts.1 as int) == round_counts_spec(
            board@,
            si as int,
            ei as int,
        ));
    }
}

} // verus!
