//! The greedy move selector: enumerate legal moves by simulating each
//! direction on a snapshot, then pick the direction with the strictly
//! highest simulated score, first-seen winning ties.

use crate::game::{
    down_target, grid_double_safe, left_target, lemma_terminal_targets, right_target, up_target,
    Game,
};
use vstd::prelude::*;

verus! {

/// The four move directions; the selector's output and the move parameter.
#[derive(Clone, Copy, Debug, PartialEq, Eq)]
pub enum Direction {
    Up,
    Down,
    Left,
    Right,
}

/// The grid a move in the given direction drives toward, before any spawn.
pub open spec fn dir_target(g: Seq<Seq<Option<u32>>>, d: Direction) -> Seq<Seq<Option<u32>>> {
    match d {
        Direction::Left => left_target(g),
        Direction::Right => right_target(g),
        Direction::Up => up_target(g),
        Direction::Down => down_target(g),
    }
}

/// A direction is legal when its move would change the grid.
pub open spec fn legal(g: Seq<Seq<Option<u32>>>, d: Direction) -> bool {
    dir_target(g, d) != g
}

/// The legal directions in the fixed enumeration order: Left, Right, Up,
/// Down.
pub open spec fn legal_seq(g: Seq<Seq<Option<u32>>>) -> Seq<Direction> {
    (if legal(g, Direction::Left) {
        seq![Direction::Left]
    } else {
        Seq::<Direction>::empty()
    }) + (if legal(g, Direction::Right) {
        seq![Direction::Right]
    } else {
        Seq::<Direction>::empty()
    }) + (if legal(g, Direction::Up) {
        seq![Direction::Up]
    } else {
        Seq::<Direction>::empty()
    }) + (if legal(g, Direction::Down) {
        seq![Direction::Down]
    } else {
        Seq::<Direction>::empty()
    })
}

/// Every direction the enumeration lists is legal.
pub proof fn lemma_legal_seq_elems(g: Seq<Seq<Option<u32>>>)
    ensures
        forall|k: int| 0 <= k < legal_seq(g).len() ==> legal(g, #[trigger] legal_seq(g)[k]),
{
}

/// A full grid with no two adjacent equal tiles in any row or column admits
/// no legal move: the selector's enumeration is empty, and every direction
/// applied on its own reports no change.
pub proof fn lemma_terminal_no_moves(g: Seq<Seq<Option<u32>>>, n: nat)
    requires
        g.len() == n,
        forall|i: int| 0 <= i < n ==> (#[trigger] g[i]).len() == n,
        forall|i: int, j: int| 0 <= i < n && 0 <= j < n ==> (#[trigger] g[i][j]) is Some,
        forall|i: int, j: int| 0 <= i < n && 0 <= j < n - 1 ==> g[i][j] != #[trigger] g[i][j + 1],
        forall|i: int, j: int| 0 <= i < n - 1 && 0 <= j < n ==> g[i][j] != #[trigger] g[i + 1][j],
    ensures
        legal_seq(g) == Seq::<Direction>::empty(),
        forall|d: Direction| !legal(g, d),
{
    lemma_terminal_targets(g, n);
    assert forall|d: Direction| !legal(g, d) by {
        match d {
            Direction::Left => {},
            Direction::Right => {},
            Direction::Up => {},
            Direction::Down => {},
        }
    }
    assert(legal_seq(g) =~= Seq::<Direction>::empty());
}

impl Game {
    /// The legal directions from the current state, found by simulating each
    /// move on a snapshot, in the fixed order Left, Right, Up, Down.
    pub fn get_possible_moves(&self) -> (moves: Vec<Direction>)
        requires
            self.wf(),
            grid_double_safe(self.rows()),
            self.score < u32::MAX,
        ensures
            moves@ == legal_seq(self.rows()),
    {
        let ghost g = self.rows();
        let mut moves: Vec<Direction> = Vec::new();
        let mut game_copy = self.snapshot();

        if game_copy.move_left() {
            moves.push(Direction::Left);
        }
        let ghost m1 = moves@;

        game_copy = self.snapshot();
        if game_copy.move_right() {
            moves.push(Direction::Right);
        }
        let ghost m2 = moves@;

        game_copy = self.snapshot();
        if game_copy.move_up() {
            moves.push(Direction::Up);
        }
        let ghost m3 = moves@;

        game_copy = self.snapshot();
        if game_copy.move_down() {
            moves.push(Direction::Down);
        }

        proof {
            assert(moves@ =~= legal_seq(g));
        }
        moves
    }

    /// Choose the move to make: the legal direction whose simulated outcome
    /// scores strictly highest, ties kept by enumeration order. Under the
    /// fixed-increment scoring rule every legal move scores alike, so the
    /// first legal direction wins. With no legal move, mark the game over
    /// and choose nothing. The live state's grid and score are untouched.
    pub fn ai_make_move(&mut self) -> (r: Option<Direction>)
        requires
            old(self).wf(),
            grid_double_safe(old(self).rows()),
            old(self).score < u32::MAX,
        ensures
            final(self).wf(),
            final(self).size == old(self).size,
            final(self).score == old(self).score,
            final(self).rows() == old(self).rows(),
            legal_seq(old(self).rows()).len() == 0 ==> r is None && final(self).game_over,
            legal_seq(old(self).rows()).len() > 0 ==> r == Some(legal_seq(old(self).rows())[0])
                && final(self).game_over == old(self).game_over,
    {
        let ghost g = old(self).rows();
        let possible = self.get_possible_moves();
        if possible.len() == 0 {
            self.game_over = true;
            return None;
        }

        let mut best: Option<(Direction, u32)> = None;
        let mut k: usize = 0;
        while k < possible.len()
            invariant
                self == old(self),
                self.wf(),
                grid_double_safe(self.rows()),
                self.score < u32::MAX,
                possible@ == legal_seq(self.rows()),
                possible@.len() > 0,
                k <= possible@.len(),
                k == 0 ==> best is None,
                k > 0 ==> best == Some((possible@[0], (self.score + 1) as u32)),
            decreases possible@.len() - k,
        {
            let direction = possible[k];
            proof {
                lemma_legal_seq_elems(self.rows());
                assert(legal(self.rows(), direction));
            }
            let mut game_copy = self.snapshot();
            let moved = match direction {
                Direction::Left => game_copy.move_left(),
                Direction::Right => game_copy.move_right(),
                Direction::Up => game_copy.move_up(),
                Direction::Down => game_copy.move_down(),
            };
            proof {
                assert(moved);
                assert(game_copy.score == self.score + 1);
            }
            if moved {
                let replace = match best {
                    Some((_, best_score)) => game_copy.score > best_score,
                    None => true,
                };
                if replace {
                    best = Some((direction, game_copy.score));
                }
            }
            k += 1;
        }

        match best {
            Some((dir, _)) => Some(dir),
            None => None,
        }
    }
}

/// Apply the chosen direction to the live state, exactly once.
pub fn apply_move(game: &mut Game, direction: Direction)
    requires
        old(game).wf(),
        grid_double_safe(old(game).rows()),
        old(game).score < u32::MAX,
    ensures
        final(game).wf(),
        Game::move_rel(
            *old(game),
            *final(game),
            dir_target(old(game).rows(), direction),
            legal(old(game).rows(), direction),
        ),
{
    match direction {
        Direction::Left => {
            game.move_left();
        },
        Direction::Right => {
            game.move_right();
        },
        Direction::Up => {
            game.move_up();
        },
        Direction::Down => {
            game.move_down();
        },
    }
}

} // verus!
