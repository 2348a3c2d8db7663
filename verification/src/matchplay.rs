//! Match play and money game.
//!
//! A session is either a **money game** (no target score; the cube, the
//! Jacoby rule and beavers are in play) or a **match** to a target number of
//! points (7/9/11/13/15/17 are the standard lengths) governed by the
//! **Crawford rule**.
use vstd::prelude::*;
use crate::player::Player;

verus! {

/// Standard competitive match lengths.
pub const STANDARD_MATCH_LENGTHS: [u16; 6] = [7, 9, 11, 13, 15, 17];

/// Money-game settings.
#[derive(Clone, Copy, PartialEq, Eq, Debug, Structural)]
pub struct MoneyGame {
    /// Jacoby rule: gammons/mars count only after the cube has been turned.
    pub jacoby: bool,
    /// Beavers (and raccoons) are allowed.
    pub beaver: bool,
}

impl Default for MoneyGame {
    fn default() -> (m: Self)
        ensures
            m.jacoby && m.beaver,
    {
        MoneyGame { jacoby: true, beaver: true }
    }
}

/// Match state: target length, running score and whether the Crawford game
/// has been played.
#[derive(Clone, Copy, PartialEq, Eq, Debug)]
pub struct MatchState {
    pub length: u16,
    /// Points scored, indexed by [`Player::index`].
    pub score: [u16; 2],
    /// Whether the Crawford game has already been completed.
    pub crawford_played: bool,
}

impl MatchState {
    /// Points `p` has scored.
    pub open spec fn score_of(self, p: Player) -> int {
        self.score@[p.spec_index() as int] as int
    }

    /// Points `p` still needs (never below zero).
    pub open spec fn away_spec(self, p: Player) -> int {
        if self.length >= self.score_of(p) { self.length - self.score_of(p) } else { 0 }
    }

    /// Someone has reached the target.
    pub open spec fn is_over_spec(self) -> bool {
        self.score@[0] >= self.length || self.score@[1] >= self.length
    }

    /// Either player is exactly one point from winning.
    pub open spec fn one_away_spec(self) -> bool {
        self.away_spec(Player::White) == 1 || self.away_spec(Player::Black) == 1
    }

    /// The upcoming game is the Crawford game.
    pub open spec fn is_crawford_spec(self) -> bool {
        !self.is_over_spec() && !self.crawford_played && self.one_away_spec()
    }

    /// A new match to `length` points, 0–0.
    pub fn new(length: u16) -> (m: Self)
        ensures
            m.length == length,
            m.score@ == seq![0u16, 0u16],
            !m.crawford_played,
    {
        let m = MatchState { length, score: [0, 0], crawford_played: false };
        assert(m.score@ =~= seq![0u16, 0u16]);
        m
    }

    /// Points `player` still needs to win the match.
    pub fn away(&self, player: Player) -> (r: u16)
        ensures
            r as int == self.away_spec(player),
    {
        self.length.saturating_sub(self.score[player.index()])
    }

    /// Whether the match has been decided.
    pub fn is_over(&self) -> (r: bool)
        ensures
            r == self.is_over_spec(),
    {
        self.score[0] >= self.length || self.score[1] >= self.length
    }

    /// Whether either player is exactly one point from winning.
    pub fn someone_is_one_away(&self) -> (r: bool)
        ensures
            r == self.one_away_spec(),
    {
        self.away(Player::White) == 1 || self.away(Player::Black) == 1
    }

    /// Whether the upcoming game is the Crawford game (a player just reached
    /// 1-away and the Crawford game has not yet been played). No doubling is
    /// permitted in the Crawford game.
    pub fn is_crawford_game(&self) -> (r: bool)
        ensures
            r == self.is_crawford_spec(),
    {
        !self.is_over() && !self.crawford_played && self.someone_is_one_away()
    }

    /// Whether the cube may be used in the upcoming game (always, except the
    /// Crawford game).
    pub fn cube_allowed(&self) -> (r: bool)
        ensures
            r == !self.is_crawford_spec(),
    {
        !self.is_crawford_game()
    }

    /// Record a finished game's result, advancing the score and the Crawford
    /// flag.
    pub fn record(&mut self, winner: Player, points: u16)
        requires
            old(self).score_of(winner) + points <= u16::MAX,
        ensures
            final(self).length == old(self).length,
            final(self).score@ == old(self).score@.update(winner.spec_index() as int,
                (old(self).score_of(winner) + points) as u16),
            final(self).crawford_played == (old(self).crawford_played || old(self).is_crawford_spec()),
    {
        if self.is_crawford_game() {
            self.crawford_played = true;
        }
        let i = winner.index();
        self.score[i] = self.score[i] + points;
    }
}

/// The match with the two scores swapped.
pub open spec fn colours_swapped(m: MatchState) -> MatchState {
    MatchState { score: [m.score[1], m.score[0]], ..m }
}

/// The Crawford rule, score by score: while the match is not over (both
/// scores below the length) and no Crawford game has been played, the
/// upcoming game is the Crawford game exactly when either side, White or
/// Black, is one point short of the length; and it does not matter which
/// side that is: swapping the two scores changes nothing.
pub proof fn lemma_crawford_rule(m: MatchState)
    ensures
        m.is_crawford_spec() <==> (m.score[0] < m.length && m.score[1] < m.length && !m.crawford_played
            && (m.score[0] + 1 == m.length || m.score[1] + 1 == m.length)),
        colours_swapped(m).is_crawford_spec() == m.is_crawford_spec(),
{
}

/// The cube is barred exactly in the Crawford game: with both scores below
/// the length and no Crawford game played yet, a side one point short bars
/// the cube, whichever side it is.
pub proof fn lemma_one_away_bars_cube(m: MatchState, p: Player)
    requires
        m.score[0] < m.length,
        m.score[1] < m.length,
        !m.crawford_played,
        m.score_of(p) + 1 == m.length,
    ensures
        m.is_crawford_spec(),
{
}

/// At most one Crawford game is played: once it has been played, no later
/// game is the Crawford game, however the scores go on.
pub proof fn lemma_crawford_once(m: MatchState)
    requires
        m.crawford_played,
    ensures
        !m.is_crawford_spec(),
{
}

/// Recording a game only ever raises the winner's score and never unsets the
/// Crawford flag.
pub proof fn lemma_record_monotone(before: MatchState, after: MatchState, winner: Player, points: u16)
    requires
        before.score_of(winner) + points <= u16::MAX,
        after.length == before.length,
        after.score@ == before.score@.update(winner.spec_index() as int, (before.score_of(winner) + points) as u16),
        after.crawford_played == (before.crawford_played || before.is_crawford_spec()),
    ensures
        after.score_of(winner) == before.score_of(winner) + points,
        after.score_of(winner.spec_opponent()) == before.score_of(winner.spec_opponent()),
        before.crawford_played ==> after.crawford_played,
{
}

} // verus!
