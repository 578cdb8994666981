//! Plain data carried between the caller and the engine: grid coordinates,
//! snake records, and the per-turn board snapshot.
use vstd::prelude::*;

verus! {

/// A grid coordinate. The playable area is `[0, width) x [0, height)`;
/// values outside that range denote off-board positions.
#[derive(Debug, Clone, Copy, PartialEq, Eq, Structural)]
pub struct Coord {
    pub x: i32,
    pub y: i32,
}

/// One competitor: a stable identity, an ordered body (head first, tail
/// last), the head coordinate (always `body[0]`), health in `[0, 100]`,
/// and a length counter equal to the body length.
#[derive(Debug, PartialEq, Eq)]
pub struct Battlesnake {
    pub id: String,
    pub name: String,
    pub health: i32,
    pub body: Vec<Coord>,
    pub head: Coord,
    pub length: i32,
}

impl Battlesnake {
    /// Mathematical view: identity as a character sequence, body as a
    /// coordinate sequence, and the scalar fields.
    pub open spec fn view(&self) -> SnakeV {
        SnakeV {
            id: self.id@,
            health: self.health as int,
            body: self.body@,
            head: self.head,
            length: self.length as int,
        }
    }
}

/// Spec-level image of a snake.
#[verifier::ext_equal]
pub ghost struct SnakeV {
    pub id: Seq<char>,
    pub health: int,
    pub body: Seq<Coord>,
    pub head: Coord,
    pub length: int,
}

/// A full per-turn snapshot as the caller supplies it: grid dimensions,
/// food and hazard coordinates, and all snakes.
#[derive(Debug)]
pub struct Board {
    pub height: i32,
    pub width: i32,
    pub food: Vec<Coord>,
    pub snakes: Vec<Battlesnake>,
    pub hazards: Vec<Coord>,
}

impl Clone for Battlesnake {
    /// Deep copy: the body sequence is duplicated so that no two board
    /// copies alias one snake's body.
    fn clone(&self) -> (r: Self)
        ensures
            r@ == self@,
    {
        let mut body: Vec<Coord> = Vec::new();
        let mut i: usize = 0;
        while i < self.body.len()
            invariant
                i <= self.body@.len(),
                body@ == self.body@.take(i as int),
            decreases self.body@.len() - i,
        {
            body.push(self.body[i]);
            proof {
                assert(body@ =~= self.body@.take(i as int + 1));
            }
            i = i + 1;
        }
        proof {
            assert(self.body@.take(self.body@.len() as int) =~= self.body@);
        }
        Battlesnake {
            id: self.id.clone(),
            name: self.name.clone(),
            health: self.health,
            body,
            head: self.head,
            length: self.length,
        }
    }
}

} // verus!
