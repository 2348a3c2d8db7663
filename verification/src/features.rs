//! Integer geometry behind the contact features of the position encoder:
//! the strongest block a side builds in front of the opponent.
use vstd::prelude::*;
use crate::board::{Board, BoardView, HEAD_POS, lemma_phys_round_trip, phys_spec};
use crate::player::Player;

verus! {

/// `player` has checkers on the opponent's path position `f`.
pub open spec fn blocks_at(b: BoardView, player: Player, f: int) -> bool {
    b.opp(player.spec_opponent(), f) > 0
}

/// Length of the run of consecutive opponent-frame positions held by
/// `player` that ends at `f`.
pub open spec fn run_ending(b: BoardView, player: Player, f: int) -> int
    decreases f,
{
    if f < 1 || !blocks_at(b, player, f) {
        0
    } else {
        1 + run_ending(b, player, f - 1)
    }
}

/// Strongest block among opponent-frame positions `1..=n`: its length and
/// front (highest) position; among equally long runs the latest one wins,
/// `(0, 0)` when `player` holds nothing there.
pub open spec fn best_block(b: BoardView, player: Player, n: int) -> (int, int)
    decreases n,
{
    if n < 1 {
        (0, 0)
    } else {
        let prev = best_block(b, player, n - 1);
        if blocks_at(b, player, n) && run_ending(b, player, n) >= prev.0 {
            (run_ending(b, player, n), n)
        } else {
            prev
        }
    }
}

proof fn lemma_run_bound(b: BoardView, player: Player, f: int)
    ensures
        0 <= run_ending(b, player, f) <= if f < 0 { 0 } else { f },
    decreases f,
{
    if f >= 1 {
        lemma_run_bound(b, player, f - 1);
    }
}

proof fn lemma_best_bound(b: BoardView, player: Player, n: int)
    ensures
        0 <= best_block(b, player, n).0 <= if n < 0 { 0 } else { n },
        0 <= best_block(b, player, n).1 <= if n < 0 { 0 } else { n },
    decreases n,
{
    if n >= 1 {
        lemma_best_bound(b, player, n - 1);
        lemma_run_bound(b, player, n);
    }
}

/// `player`'s strongest block measured in the opponent's frame (where it
/// actually blocks): `(length, front position)`, the front being the
/// highest opponent-frame position of the run.
pub fn max_block(board: &Board, player: Player) -> (r: (u8, u8))
    requires
        board@.readable_for(Player::Black),
    ensures
        (r.0 as int, r.1 as int) == best_block(board@, player, 24),
{
    let enemy = player.opponent();
    let mut best_len: u8 = 0;
    let mut best_hi: u8 = 0;
    let mut run: u8 = 0;
    let mut f: u8 = 1;
    while f <= HEAD_POS
        invariant
            1 <= f <= 25,
            enemy == player.spec_opponent(),
            board@.readable_for(Player::Black),
            run as int == run_ending(board@, player, f - 1),
            (best_len as int, best_hi as int) == best_block(board@, player, f - 1),
        decreases 25 - f,
    {
        proof {
            lemma_phys_round_trip(enemy, f as int, 0);
            let cell = phys_spec(enemy, f as int);
            assert(board@.points[cell] == board.points@[cell]);
            lemma_run_bound(board@, player, f - 1);
            lemma_best_bound(board@, player, f - 1);
        }
        if board.opp_at(enemy, f) > 0 {
            run += 1;
            if run >= best_len {
                best_len = run;
                best_hi = f;
            }
        } else {
            run = 0;
        }
        f += 1;
    }
    (best_len, best_hi)
}

} // verus!
