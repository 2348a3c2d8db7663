//! Game state, rule variants and outcomes.
use vstd::prelude::*;
use crate::board::{Board, BoardView, N_CHECKERS};
use crate::cube::{Cube, CubeError};
use crate::moves::{generate_turns_cfg, generated, head_budget_spec, legal_sequences, sequences_spec, turns_spec,
    turns_view, Turn};
use crate::player::Player;

verus! {

/// Long-nardy rule variant.
#[derive(Clone, Copy, PartialEq, Eq, Debug, Structural)]
pub enum Variant {
    /// Традиционные — match to N points, no cube.
    Traditional,
    /// Nardegammon — match play with a doubling cube + Crawford.
    Nardegammon,
    /// Classic — the second player gets a last roll, so a game can be drawn.
    Classic,
    /// Хачапури — 4 on the head, 11 on point 6, head rule disabled (money game).
    Hachapuri,
}

/// Tunable rule flags. Build with [`Rules::for_variant`] or the named
/// constructors, then override individual fields as needed.
#[derive(Clone, Copy, Debug)]
pub struct Rules {
    pub variant: Variant,
    /// Max checkers that may leave the head per turn. `Some(1)` = standard;
    /// `None` = no head rule (хачапури).
    pub head_limit: Option<u8>,
    /// First-turn 6-6/4-4/3-3 may take two off the head (only at head limit 1).
    pub head_doubles_exception: bool,
    /// Doubling cube in play (money game / Nardegammon).
    pub cube_enabled: bool,
    /// Jacoby rule (money game): mars counts only after the cube is turned.
    pub jacoby: bool,
    /// Beavers allowed (money game).
    pub beaver: bool,
    /// Classic/modern-tournament last-roll equalisation can produce a draw.
    pub allow_final_draw: bool,
}

impl Rules {
    /// The default rules of a variant, as a value.
    pub open spec fn for_variant_spec(variant: Variant) -> Rules {
        match variant {
            Variant::Traditional => Rules {
                variant,
                head_limit: Some(1),
                head_doubles_exception: true,
                cube_enabled: false,
                jacoby: false,
                beaver: false,
                allow_final_draw: false,
            },
            Variant::Nardegammon => Rules {
                variant,
                head_limit: Some(1),
                head_doubles_exception: true,
                cube_enabled: true,
                jacoby: false,
                beaver: false,
                allow_final_draw: false,
            },
            Variant::Classic => Rules {
                variant,
                head_limit: Some(1),
                head_doubles_exception: true,
                cube_enabled: false,
                jacoby: false,
                beaver: false,
                allow_final_draw: true,
            },
            Variant::Hachapuri => Rules {
                variant,
                head_limit: None,
                head_doubles_exception: false,
                cube_enabled: true,
                jacoby: true,
                beaver: true,
                allow_final_draw: false,
            },
        }
    }

    /// Default rules for a variant.
    pub fn for_variant(variant: Variant) -> (r: Self)
        ensures
            r == Rules::for_variant_spec(variant),
    {
        match variant {
            Variant::Traditional => Rules {
                variant,
                head_limit: Some(1),
                head_doubles_exception: true,
                cube_enabled: false,
                jacoby: false,
                beaver: false,
                allow_final_draw: false,
            },
            Variant::Nardegammon => Rules {
                variant,
                head_limit: Some(1),
                head_doubles_exception: true,
                cube_enabled: true,
                jacoby: false,
                beaver: false,
                allow_final_draw: false,
            },
            Variant::Classic => Rules {
                variant,
                head_limit: Some(1),
                head_doubles_exception: true,
                cube_enabled: false,
                jacoby: false,
                beaver: false,
                allow_final_draw: true,
            },
            Variant::Hachapuri => Rules {
                variant,
                head_limit: None,
                head_doubles_exception: false,
                cube_enabled: true,
                jacoby: true,
                beaver: true,
                allow_final_draw: false,
            },
        }
    }

    /// Money-game rules (cube + Jacoby + beavers) over the Traditional ruleset.
    pub fn money_game() -> (r: Self)
        ensures
            r == (Rules {
                cube_enabled: true,
                jacoby: true,
                beaver: true,
                ..Rules::for_variant_spec(Variant::Traditional)
            }),
    {
        Rules {
            cube_enabled: true,
            jacoby: true,
            beaver: true,
            ..Rules::for_variant(Variant::Traditional)
        }
    }

    /// The starting position of these rules, as a value.
    pub open spec fn starting_spec(self) -> BoardView {
        match self.variant {
            Variant::Hachapuri => BoardView::hachapuri_spec(),
            _ => BoardView::starting_spec(),
        }
    }

    /// The starting board for these rules.
    pub fn starting_board(&self) -> (b: Board)
        ensures
            b@ == self.starting_spec(),
    {
        match self.variant {
            Variant::Hachapuri => Board::starting_hachapuri(),
            _ => Board::starting(),
        }
    }
}

impl Default for Rules {
    fn default() -> (r: Self)
        ensures
            r == Rules::for_variant_spec(Variant::Traditional),
    {
        Rules::for_variant(Variant::Traditional)
    }
}

/// Result of a finished (or ongoing) game.
#[derive(Clone, Copy, PartialEq, Eq, Debug, Structural)]
pub enum Outcome {
    Ongoing,
    /// Someone has borne off all 15 checkers.
    Win {
        winner: Player,
        /// `true` if the loser bore off zero checkers (марс).
        mars: bool,
        /// Points awarded: 1 for оин, 2 for марс.
        points: u8,
    },
    /// A drawn game (Classic last-roll equalisation); the board alone never
    /// shows one.
    Draw,
}

/// The win of `p` read off the board: марс (2 points) when the opponent has
/// borne off nothing, оин (1 point) otherwise.
pub open spec fn win_of(b: BoardView, p: Player) -> Outcome {
    let mars = b.off_of(p.spec_opponent()) == 0;
    Outcome::Win { winner: p, mars, points: if mars { 2 } else { 1 } }
}

/// Scoring of a board: whoever has borne off all 15 checkers has won
/// (White is looked at first), otherwise the game goes on.
pub open spec fn outcome_spec(b: BoardView) -> Outcome {
    if b.off_of(Player::White) == 15 {
        win_of(b, Player::White)
    } else if b.off_of(Player::Black) == 15 {
        win_of(b, Player::Black)
    } else {
        Outcome::Ongoing
    }
}

/// The board with the colours swapped: each side's checkers stand where the
/// other side's stood, position for position, and the borne-off counts are
/// exchanged.
pub open spec fn colours_swapped(b: BoardView) -> BoardView {
    BoardView {
        points: Seq::new(24, |c: int| (-(b.points[(c + 12) % 24] as int)) as i8),
        off: seq![b.off[1], b.off[0]],
    }
}

/// The same outcome with the other side as winner.
pub open spec fn outcome_swapped(o: Outcome) -> Outcome {
    match o {
        Outcome::Win { winner, mars, points } => Outcome::Win { winner: winner.spec_opponent(), mars, points },
        _ => o,
    }
}

/// Scoring does not depend on colour: the outcome of the colour-swapped
/// board is the outcome of the board with the winner swapped. (It is left
/// out only when both sides show fifteen checkers off, which no game
/// reaches; White is looked at first there.)
pub proof fn lemma_outcome_colour_symmetric(b: BoardView)
    requires
        b.off.len() == 2,
        !(b.off[0] == 15 && b.off[1] == 15),
    ensures
        outcome_spec(colours_swapped(b)) == outcome_swapped(outcome_spec(b)),
{
}

/// How a win is scored: the winner has borne off all fifteen checkers; it
/// is a марс worth 2 exactly when the loser has borne off nothing, and an
/// оин worth 1 otherwise. A side with all fifteen off has won, unless the
/// other side has too.
pub proof fn lemma_win_scoring(b: BoardView, p: Player)
    ensures
        (outcome_spec(b) matches Outcome::Win { winner, mars, points } ==> {
            &&& b.off_of(winner) == 15
            &&& mars == (b.off_of(winner.spec_opponent()) == 0)
            &&& points == (if mars { 2u8 } else { 1u8 })
        }),
        (b.off_of(p) == 15 && b.off_of(p.spec_opponent()) != 15 ==> outcome_spec(b) == (Outcome::Win {
            winner: p,
            mars: b.off_of(p.spec_opponent()) == 0,
            points: if b.off_of(p.spec_opponent()) == 0 { 2u8 } else { 1u8 },
        })),
        b.off_of(Player::White) != 15 && b.off_of(Player::Black) != 15 ==> outcome_spec(b) == Outcome::Ongoing,
{
}

/// Static scoring of a board, independent of whose turn it is.
pub fn outcome(board: &Board) -> (r: Outcome)
    ensures
        r == outcome_spec(board@),
{
    if board.off[Player::White.index()] == N_CHECKERS {
        let mars = board.off[Player::Black.index()] == 0;
        return Outcome::Win { winner: Player::White, mars, points: if mars { 2 } else { 1 } };
    }
    if board.off[Player::Black.index()] == N_CHECKERS {
        let mars = board.off[Player::White.index()] == 0;
        return Outcome::Win { winner: Player::Black, mars, points: if mars { 2 } else { 1 } };
    }
    Outcome::Ongoing
}

/// Full game state. Dice are set externally (the core stays RNG-free and
/// deterministic).
#[derive(Clone, Copy, Debug)]
pub struct GameState {
    pub board: Board,
    pub turn: Player,
    pub dice: Option<[u8; 2]>,
    /// Whether each player has already completed their first turn.
    pub first_turn_done: [bool; 2],
    /// Number of completed half-moves (turns) so far.
    pub turn_number: u32,
    pub rules: Rules,
    /// The doubling cube (value 1, centered for a fresh game).
    pub cube: Cube,
    /// Whether the current game is the Crawford game (no doubling).
    pub crawford: bool,
}

impl GameState {
    /// The side to move is taking its first turn.
    pub open spec fn is_first_turn_spec(self) -> bool {
        !self.first_turn_done@[self.turn.spec_index() as int]
    }

    /// A fresh game in the variant's starting position, White to move.
    pub fn new(rules: Rules) -> (g: Self)
        ensures
            g.board@ == rules.starting_spec(),
            g.turn == Player::White,
            g.dice is None,
            g.first_turn_done@ == seq![false, false],
            g.turn_number == 0,
            g.rules == rules,
            g.cube == Cube::centered_spec(),
            !g.crawford,
    {
        let g = GameState {
            board: rules.starting_board(),
            turn: Player::White,
            dice: None,
            first_turn_done: [false, false],
            turn_number: 0,
            rules,
            cube: Cube::centered(),
            crawford: false,
        };
        assert(g.first_turn_done@ =~= seq![false, false]);
        g
    }

    /// Whether `player` may offer a double now (cube enabled, not Crawford,
    /// and the cube is centered or owned by `player`, below its maximum).
    pub fn can_double(&self, player: Player) -> (r: bool)
        ensures
            r == (self.rules.cube_enabled && !self.crawford && self.cube.value < 64
                && self.cube.available_spec(player)),
    {
        self.rules.cube_enabled && !self.crawford && self.cube.may_double(player)
    }

    /// `player` offers (and the opponent accepts) a double.
    pub fn double(&mut self, player: Player) -> (r: Result<(), CubeError>)
        ensures
            *final(self) == (GameState { cube: final(self).cube, ..*old(self) }),
            !old(self).rules.cube_enabled || old(self).crawford ==> r == Err::<(), CubeError>(CubeError::NotAvailable)
                && final(self).cube == old(self).cube,
            old(self).rules.cube_enabled && !old(self).crawford ==> {
                &&& !old(self).cube.available_spec(player) ==> r == Err::<(), CubeError>(CubeError::NotAvailable)
                    && final(self).cube == old(self).cube
                &&& old(self).cube.available_spec(player) && old(self).cube.value >= 64
                    ==> r == Err::<(), CubeError>(CubeError::AtMaximum) && final(self).cube == old(self).cube
                &&& old(self).cube.available_spec(player) && old(self).cube.value < 64 ==> r is Ok
                    && final(self).cube == (Cube {
                        value: (old(self).cube.value * 2) as u16,
                        owner: Some(player.spec_opponent()),
                        turned: true,
                    })
            },
    {
        if !self.rules.cube_enabled || self.crawford {
            return Err(CubeError::NotAvailable);
        }
        self.cube.double(player)
    }

    /// `player` beavers in response to a double (money game).
    pub fn beaver(&mut self, player: Player) -> (r: Result<(), CubeError>)
        ensures
            *final(self) == (GameState { cube: final(self).cube, ..*old(self) }),
            !old(self).rules.cube_enabled || old(self).crawford ==> r == Err::<(), CubeError>(CubeError::NotAvailable)
                && final(self).cube == old(self).cube,
            old(self).rules.cube_enabled && !old(self).crawford ==> {
                &&& old(self).cube.value >= 64
                    ==> r == Err::<(), CubeError>(CubeError::AtMaximum) && final(self).cube == old(self).cube
                &&& old(self).cube.value < 64 ==> r is Ok && final(self).cube == (Cube {
                    value: (old(self).cube.value * 2) as u16,
                    owner: Some(player),
                    turned: true,
                })
            },
    {
        if !self.rules.cube_enabled || self.crawford {
            return Err(CubeError::NotAvailable);
        }
        self.cube.beaver(player)
    }

    /// Whether the side to move is taking its first turn (for the head
    /// exception).
    pub fn is_first_turn(&self) -> (r: bool)
        ensures
            r == self.is_first_turn_spec(),
    {
        !self.first_turn_done[self.turn.index()]
    }

    /// Set the dice for the upcoming turn.
    pub fn set_dice(&mut self, d1: u8, d2: u8)
        ensures
            *final(self) == (GameState { dice: Some([d1, d2]), ..*old(self) }),
    {
        self.dice = Some([d1, d2]);
    }

    /// Legal turns for the side to move with the currently set dice; empty if
    /// no dice are set.
    pub fn legal_turns(&self) -> (turns: Vec<Turn>)
        requires
            self.board@.wf(),
            self.dice matches Some(d) ==> d[0] <= 6 && d[1] <= 6,
        ensures
            self.dice is None ==> turns@.len() == 0,
            self.dice matches Some(d) ==> turns_spec(self.board@, self.turn, d,
                head_budget_spec(self.board@, self.turn, d,
                    self.is_first_turn_spec() && self.rules.head_doubles_exception, self.rules.head_limit), turns@),
            self.dice matches Some(d) ==> turns_view(turns@) == generated(self.board@, self.turn, d,
                self.is_first_turn_spec() && self.rules.head_doubles_exception, self.rules.head_limit),
    {
        match self.dice {
            Some(dice) => {
                let first = self.is_first_turn() && self.rules.head_doubles_exception;
                generate_turns_cfg(&self.board, self.turn, dice, first, self.rules.head_limit)
            },
            None => Vec::new(),
        }
    }

    /// Every legal ordered sub-move sequence for the side to move with the
    /// currently set dice (see [`legal_sequences`]); empty if no dice are set.
    pub fn legal_sequences(&self) -> (seqs: Vec<Turn>)
        requires
            self.board@.wf(),
            self.dice matches Some(d) ==> d[0] <= 6 && d[1] <= 6,
        ensures
            self.dice is None ==> seqs@.len() == 0,
            self.dice matches Some(d) ==> sequences_spec(self.board@, self.turn, d,
                head_budget_spec(self.board@, self.turn, d,
                    self.is_first_turn_spec() && self.rules.head_doubles_exception, self.rules.head_limit), seqs@),
    {
        match self.dice {
            Some(dice) => {
                let first = self.is_first_turn() && self.rules.head_doubles_exception;
                legal_sequences(&self.board, self.turn, dice, first, self.rules.head_limit)
            },
            None => Vec::new(),
        }
    }

    /// Apply a chosen turn: advances the board, marks the first turn done,
    /// clears the dice and passes the move to the opponent.
    pub fn apply_turn(&mut self, turn: &Turn)
        requires
            old(self).turn_number < u32::MAX,
        ensures
            final(self).board == turn.board,
            final(self).first_turn_done@ == old(self).first_turn_done@.update(old(self).turn.spec_index() as int, true),
            final(self).turn_number == old(self).turn_number + 1,
            final(self).dice is None,
            final(self).turn == old(self).turn.spec_opponent(),
            final(self).rules == old(self).rules,
            final(self).cube == old(self).cube,
            final(self).crawford == old(self).crawford,
    {
        self.board = turn.board;
        let i = self.turn.index();
        self.first_turn_done[i] = true;
        self.turn_number += 1;
        self.dice = None;
        self.turn = self.turn.opponent();
    }

    /// Current outcome.
    pub fn outcome(&self) -> (r: Outcome)
        ensures
            r == outcome_spec(self.board@),
    {
        outcome(&self.board)
    }

    /// Whether the game is over.
    pub fn is_over(&self) -> (r: bool)
        ensures
            r == !(outcome_spec(self.board@) is Ongoing),
    {
        match self.outcome() {
            Outcome::Ongoing => false,
            _ => true,
        }
    }
}

} // verus!
