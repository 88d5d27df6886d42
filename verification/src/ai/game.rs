//! The contract between the search engine and the game it plays.

use std::hash::Hash;
use vstd::laws_eq::obeys_concrete_eq;
use vstd::prelude::*;

verus! {

/// A position of a two-player game with alternating moves and perfect information.
///
/// The engine reads a game only through this trait. Besides the executable
/// methods, an implementation names the mathematical notions that the methods'
/// contracts speak of, and shows that every game comes to an end.
pub trait Game: Clone + Send {
    type Move: Hash + Eq + Send;

    type Player: Hash + Eq + Clone + Send;

    /// The moves open in this position, in the order in which `available_moves` lists them.
    spec fn moves(&self) -> Seq<Self::Move>;

    /// Whether `m` may be played in this position.
    spec fn allows(&self, m: Self::Move) -> bool;

    /// Whether `next` is the position that playing `m` here leads to.
    spec fn leads_to(&self, m: Self::Move, next: &Self) -> bool;

    /// The player whose turn it is; once the game is won, the winner.
    spec fn to_move(&self) -> Self::Player;

    /// The winner, once the game is decided.
    spec fn winner(&self) -> Option<Self::Player>;

    /// A bound on the number of moves that can still be played from here.
    spec fn horizon(&self) -> nat;

    /// Executable equality on moves and on players is equality of values.
    proof fn equality_laws()
        ensures
            obeys_concrete_eq::<Self::Move>(),
            obeys_concrete_eq::<Self::Player>(),
    ;

    /// Lists every move that may be played, each once. Empty where nothing can be played.
    fn available_moves(&self) -> (moves: Vec<Self::Move>)
        ensures
            moves@ == self.moves(),
            moves@.no_duplicates(),
            forall|m: Self::Move| moves@.contains(m) <==> self.allows(m),
    ;

    /// The position after `m`, or `None` where `m` may not be played.
    fn make_move(&self, m: &Self::Move) -> (next: Option<Box<Self>>)
        ensures
            next is Some <==> self.allows(*m),
            next matches Some(n) ==> self.leads_to(*m, &*n) && n.horizon() < self.horizon(),
    ;

    /// Plays `m` in place and reports whether it was allowed. A move that is not
    /// allowed leaves the position as it was.
    fn make_move_mut(&mut self, m: &Self::Move) -> (ok: bool)
        ensures
            ok == old(self).allows(*m),
            ok ==> old(self).leads_to(*m, final(self)) && final(self).horizon() < old(self).horizon(),
            !ok ==> *final(self) == *old(self),
    ;

    /// The player whose turn it is.
    fn get_cur_player(&self) -> (p: Self::Player)
        ensures
            p == self.to_move(),
    ;

    /// The winner, once the game is decided.
    fn get_winner(&self) -> (w: Option<Self::Player>)
        ensures
            w == self.winner(),
    ;

    /// A rendering of the position for people to read. Empty unless a game provides one.
    fn to_str(&self) -> (s: String)
        default_ensures
            s@ == Seq::<char>::empty(),
    {
        String::new()
    }
}

} // verus!
