//! Game-phase detection: is blocking interaction still possible?
//!
//! There is no hitting, so the only interaction between the sides is
//! blocking. Once every checker of both sides has passed every opposing
//! checker, the game is a pure race.
use vstd::prelude::*;
use crate::board::{Board, BoardView, lemma_phys_round_trip};
use crate::player::Player;

verus! {

/// Some opponent checker stands on a cell that one of `p`'s checkers still
/// has to cross.
pub open spec fn contact_spec(b: BoardView, p: Player) -> bool {
    exists|q: int| 1 <= q < b.highest_spec(p) && #[trigger] b.opp(p, q) > 0
}

/// True while an opponent checker stands on a cell some checker of `player`
/// has yet to cross (i.e. blocking interaction is still possible for them).
pub fn contact_for(board: &Board, player: Player) -> (r: bool)
    requires
        board@.readable_for(player),
        board@.readable_for(player.spec_opponent()),
    ensures
        r == contact_spec(board@, player),
{
    let highest = board.highest_occupied(player);
    proof { board@.lemma_highest_range(player, 24); }
    let mut q: u8 = 1;
    while q < highest
        invariant
            1 <= q,
            highest as int == board@.highest_spec(player),
            highest <= 24,
            board@.readable_for(player.spec_opponent()),
            forall|x: int| 1 <= x < q ==> board@.opp(player, x) == 0,
        decreases highest - q,
    {
        proof { lemma_phys_round_trip(player, q as int, 0); }
        if board.opp_at(player, q) > 0 {
            assert(board@.opp(player, q as int) > 0);
            return true;
        }
        q += 1;
    }
    false
}

/// Whether any blocking interaction remains possible for either side.
pub fn has_contact(board: &Board) -> (r: bool)
    requires
        board@.readable_for(Player::White),
        board@.readable_for(Player::Black),
    ensures
        r == (contact_spec(board@, Player::White) || contact_spec(board@, Player::Black)),
{
    contact_for(board, Player::White) || contact_for(board, Player::Black)
}

} // verus!
