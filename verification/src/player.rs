//! The two sides.
use vstd::prelude::*;

verus! {

/// One of the two players. Both move in the same rotational direction around
/// the board, each from their own head toward their own home.
#[derive(Clone, Copy, PartialEq, Eq, Debug, Hash, Structural)]
pub enum Player {
    White,
    Black,
}

impl Player {
    /// The other side, as a mathematical function.
    pub open spec fn spec_opponent(self) -> Player {
        match self {
            Player::White => Player::Black,
            Player::Black => Player::White,
        }
    }

    /// Stable 0/1 index, as a mathematical function.
    pub open spec fn spec_index(self) -> usize {
        match self {
            Player::White => 0,
            Player::Black => 1,
        }
    }

    /// The other side.
    #[inline]
    #[verifier::when_used_as_spec(spec_opponent)]
    pub fn opponent(self) -> (r: Player)
        ensures
            r == self.spec_opponent(),
    {
        match self {
            Player::White => Player::Black,
            Player::Black => Player::White,
        }
    }

    /// Stable 0/1 index for array storage (`off[..]`, ratings, etc.).
    #[inline]
    #[verifier::when_used_as_spec(spec_index)]
    pub fn index(self) -> (r: usize)
        ensures
            r == self.spec_index(),
            r < 2,
    {
        match self {
            Player::White => 0,
            Player::Black => 1,
        }
    }
}

/// Taking the opponent twice gives the same player back; the two sides have
/// distinct indices.
pub proof fn lemma_opponent_involution(p: Player)
    ensures
        p.spec_opponent().spec_opponent() == p,
        p.spec_opponent() != p,
        p.spec_opponent().spec_index() != p.spec_index(),
        p.spec_index() + p.spec_opponent().spec_index() == 1,
{
}

} // verus!
