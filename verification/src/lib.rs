//! A Monte Carlo Tree Search (MCTS) engine, generic over a pluggable notion
//! of game state, together with a tic-tac-toe implementation of that notion
//! and a pair of plain tree-search routines.
//!
//! The engine builds one search tree per decision, runs a fixed number of
//! selection / expansion / simulation / backpropagation iterations over it,
//! and returns the root child with the best observed score. The whole tree is
//! owned by a single arena and discarded when the decision has been made.

use vstd::prelude::*;

pub mod basic_search;
pub mod engine;
mod rng;
pub mod tic_tac_toe;
pub mod uct;

pub use engine::find_next_move;

verus! {

/// Outcome classification of a game position: still being played, ended with
/// no winner, or won by a specific player.
#[derive(Debug, Clone, Copy, PartialEq, Eq)]
pub enum Status<P> {
    InProgress,
    Draw,
    Winner(P),
}

impl<P> Status<P> {
    /// Whether the game this status classifies is still being played.
    pub fn is_in_progress(&self) -> (r: bool)
        ensures
            r == (*self is InProgress),
    {
        matches!(self, Status::InProgress)
    }
}

/// A player identity in an alternating-turn two-player game.
pub trait PlayerState: Eq + Copy + Sized {
    /// The opposing player, as a mathematical value.
    spec fn other(self) -> Self;

    /// Turn alternation: the opposing player.
    fn next(self) -> (r: Self)
        ensures
            r == self.other(),
    ;

    /// Equality test on player identities.
    fn eq_player(self, other: Self) -> (r: bool)
        ensures
            r == (self == other),
    ;
}

/// The capability contract a two-player, perfect-information, turn-based game
/// must implement for the search engine to explore it.
pub trait GameState: Sized {
    type Player: PlayerState;

    /// The outcome classification of this position, as a mathematical value.
    spec fn spec_status(self) -> Status<Self::Player>;

    /// The positions reachable by exactly one legal move, as a mathematical
    /// sequence.
    spec fn spec_next_states(self) -> Seq<Self>;

    /// An upper bound on the number of moves that can still be played from
    /// this position. Random play strictly decreases it, which bounds the
    /// length of every playout.
    spec fn moves_left(self) -> nat;

    /// This position with the turn passed to the other player, as a
    /// mathematical value.
    spec fn spec_toggled(self) -> Self;

    /// The positions one random play can produce from this position, as a
    /// mathematical sequence.
    spec fn spec_plays(self) -> Seq<Self>;

    /// A structural copy of this position.
    fn clone_state(&self) -> (r: Self)
        ensures
            r == *self,
    ;

    /// All states reachable by exactly one legal move from this position.
    fn next_states(&self) -> (r: Vec<Self>)
        ensures
            r@ == self.spec_next_states(),
    ;

    /// The outcome classification of this position.
    fn status(&self) -> (r: Status<Self::Player>)
        ensures
            r == self.spec_status(),
    ;

    /// Hand the turn to the other player: the new value is exactly the old
    /// position with the turn passed, so the outcome and the remaining
    /// moves are unchanged.
    fn toggle_player(&mut self)
        ensures
            *final(self) == old(self).spec_toggled(),
            final(self).spec_status() == old(self).spec_status(),
            final(self).moves_left() == old(self).moves_left(),
    ;

    /// Replace this position by one reached through a uniformly-random legal
    /// move of the player whose turn it is. Must not be called on a finished
    /// position. Which play comes back is random; every outcome is one of
    /// this position's own plays, and brings the game closer to its end.
    fn next_random_play(&mut self)
        requires
            old(self).spec_status() is InProgress,
        ensures
            old(self).spec_plays().contains(*final(self)),
            final(self).moves_left() < old(self).moves_left(),
    ;

    /// A position still in progress has at least one legal continuation.
    proof fn lemma_in_progress_has_moves(self)
        requires
            self.spec_status() is InProgress,
        ensures
            self.spec_next_states().len() > 0,
    ;

    /// A finished position has no legal continuation.
    proof fn lemma_finished_has_no_moves(self)
        requires
            !(self.spec_status() is InProgress),
        ensures
            self.spec_next_states().len() == 0,
    ;

    /// Passing the turn and playing one random move lands on one of the
    /// position's own legal continuations.
    proof fn lemma_toggled_play_is_continuation(self)
        requires
            self.spec_status() is InProgress,
        ensures
            forall|t: Self|
                self.spec_toggled().spec_plays().contains(t)
                    ==> self.spec_next_states().contains(t),
    ;
}

/// Whether `outcome` is the terminal status of some position reachable from
/// `from` by a (possibly empty) chain of alternating-turn random plays, each
/// of which brings the game closer to its end.
pub open spec fn playout_reaches<S: GameState>(
    from: S,
    outcome: Status<<S as GameState>::Player>,
) -> bool
    decreases from.moves_left(),
{
    if from.spec_status() is InProgress {
        exists|t: S|
            (#[trigger] from.spec_toggled().spec_plays().contains(t)) && t.moves_left()
                < from.moves_left() && playout_reaches(t, outcome)
    } else {
        outcome == from.spec_status()
    }
}

/// Round-trip consistency: a position's status says the game is still being
/// played exactly when the position has a legal continuation.
pub proof fn lemma_status_matches_continuations<S: GameState>(state: S)
    ensures
        state.spec_status() is InProgress <==> state.spec_next_states().len() > 0,
{
    if state.spec_status() is InProgress {
        state.lemma_in_progress_has_moves();
    } else {
        state.lemma_finished_has_no_moves();
    }
}

} // verus!
