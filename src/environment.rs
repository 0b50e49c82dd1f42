use vstd::prelude::*;
use chess_engine::Board;
use crate::board::{
    Side, checkmated, is_mate, is_over, side_to_move, starting_board, successors, successors_of,
    terminated, turn_of,
};
use crate::chance::random_below;

verus! {

/// How a finished game ended for one side.
#[derive(Clone, Copy, Debug, PartialEq, Eq, Structural)]
pub enum TerminalState {
    Win,
    Loss,
    Draw,
}

/// The outcome of a finished game for `perspective`: checkmate is a loss for
/// the side to move and a win for the other; any other end is a draw.
pub open spec fn outcome(b: Board, perspective: Side) -> TerminalState {
    if checkmated(b) {
        if turn_of(b) == perspective {
            TerminalState::Loss
        } else {
            TerminalState::Win
        }
    } else {
        TerminalState::Draw
    }
}

/// The current position of one game; it keeps no history.
pub struct ChessEnvironment {
    pub state: Board,
}

impl ChessEnvironment {
    /// A game at the standard starting position.
    pub fn new() -> (r: ChessEnvironment) {
        ChessEnvironment { state: starting_board() }
    }

    /// Moves the game to `state`, which the caller has taken from
    /// `available_decisions`; nothing checks that it is legal.
    pub fn apply_change(&mut self, state: Board)
        ensures
            final(self).state == state,
    {
        self.state = state;
    }

    /// Moves the game to its successor at `index` in the engine's order. A
    /// finished game, or an index with no successor, stays as it is.
    pub fn apply_change_at(&mut self, index: u64)
        ensures
            final(self).state == if !terminated(old(self).state) && index < successors_of(
                old(self).state,
            ).len() {
                successors_of(old(self).state)[index as int]
            } else {
                old(self).state
            },
    {
        if !self.is_terminated() {
            let decisions = self.available_decisions();
            if index < decisions.len() as u64 {
                self.state = decisions[index as usize];
            }
        }
    }

    /// Moves the game to a successor drawn at random; a finished game stays
    /// as it is.
    pub fn apply_change_randomly(&mut self)
        ensures
            terminated(old(self).state) ==> final(self).state == old(self).state,
            !terminated(old(self).state) ==> exists|i: int|
                0 <= i < successors_of(old(self).state).len() && final(self).state
                    == #[trigger] successors_of(old(self).state)[i],
    {
        if !self.is_terminated() {
            let n = self.available_decisions().len();
            let i = random_below(n as u64);
            self.apply_change_at(i);
            assert(self.state == successors_of(old(self).state)[i as int]);
        }
    }

    /// Plays `decision` and then the reply at `reply` among its successors;
    /// where the game is over after `decision`, or `reply` names no successor,
    /// the game stays at `decision`.
    pub fn apply_with_reply(&mut self, decision: Board, reply: u64)
        ensures
            final(self).state == if !terminated(decision) && reply < successors_of(decision).len() {
                successors_of(decision)[reply as int]
            } else {
                decision
            },
    {
        self.apply_change(decision);
        self.apply_change_at(reply);
    }

    /// Plays `decision` and then, unless the game is over, a random reply.
    pub fn apply(&mut self, decision: Board)
        ensures
            terminated(decision) ==> final(self).state == decision,
            !terminated(decision) ==> exists|i: int|
                0 <= i < successors_of(decision).len() && final(self).state
                    == #[trigger] successors_of(decision)[i],
    {
        self.apply_change(decision);
        self.apply_change_randomly();
    }

    /// The positions reachable in one legal move.
    pub fn available_decisions(&self) -> (r: Vec<Board>)
        ensures
            r@ == successors_of(self.state),
            !terminated(self.state) ==> r@.len() > 0,
    {
        successors(&self.state)
    }

    /// Whether the game is over: checkmate or stalemate.
    pub fn is_terminated(&self) -> (r: bool)
        ensures
            r == terminated(self.state),
    {
        is_over(&self.state)
    }

    /// The outcome for `perspective` of a finished game.
    pub fn terminal_state(&self, perspective: Side) -> (r: TerminalState)
        ensures
            r == outcome(self.state, perspective),
    {
        if is_mate(&self.state) {
            if side_to_move(&self.state) == perspective {
                TerminalState::Loss
            } else {
                TerminalState::Win
            }
        } else {
            TerminalState::Draw
        }
    }
}

} // verus!
