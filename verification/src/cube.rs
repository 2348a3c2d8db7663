//! The doubling cube.
//!
//! When a player **doubles**, the cube value doubles and ownership passes to
//! the *opponent* (the taker now holds it). A **beaver** is the taker's
//! immediate redouble in response: the value doubles again but the taker
//! keeps ownership.
use vstd::prelude::*;
use crate::player::Player;

verus! {

/// Maximum cube value (1 → 2 → 4 → … → 64).
pub const MAX_CUBE: u16 = 64;

/// Why a cube action was rejected.
#[derive(Clone, Copy, PartialEq, Eq, Debug, Structural)]
pub enum CubeError {
    /// This player may not double now (cube owned by the opponent).
    NotAvailable,
    /// The cube is already at its maximum value.
    AtMaximum,
}

/// Doubling cube state.
#[derive(Clone, Copy, PartialEq, Eq, Debug, Structural)]
pub struct Cube {
    /// Current value (a power of two, 1..=64).
    pub value: u16,
    /// Owner, or `None` when centered (either side may double).
    pub owner: Option<Player>,
    /// Whether the cube has ever been turned (used by the Jacoby rule).
    pub turned: bool,
}

/// `v` is one of the cube's values 1, 2, 4, …, 64.
pub open spec fn cube_value_ok(v: int) -> bool {
    v == 1 || v == 2 || v == 4 || v == 8 || v == 16 || v == 32 || v == 64
}

impl Default for Cube {
    fn default() -> (c: Self)
        ensures
            c == Cube::centered_spec(),
    {
        Cube::centered()
    }
}

impl Cube {
    /// The fresh centered cube at value 1, as a value.
    pub open spec fn centered_spec() -> Cube {
        Cube { value: 1, owner: None, turned: false }
    }

    /// The cube is centered or owned by `player`.
    pub open spec fn available_spec(self, player: Player) -> bool {
        match self.owner {
            None => true,
            Some(o) => o == player,
        }
    }

    /// A fresh centered cube at value 1.
    pub fn centered() -> (c: Self)
        ensures
            c == Cube::centered_spec(),
    {
        Cube { value: 1, owner: None, turned: false }
    }

    /// Whether `player` owns the cube or it is centered.
    fn available_to(&self, player: Player) -> (r: bool)
        ensures
            r == self.available_spec(player),
    {
        match self.owner {
            None => true,
            Some(o) => o == player,
        }
    }

    /// Whether `player` may offer a double right now: the cube must be
    /// centered or owned by `player`, and below the maximum value.
    pub fn may_double(&self, player: Player) -> (r: bool)
        ensures
            r == (self.value < MAX_CUBE && self.available_spec(player)),
    {
        self.value < MAX_CUBE && self.available_to(player)
    }

    /// `player` doubles: value doubles and the opponent becomes the owner.
    pub fn double(&mut self, player: Player) -> (r: Result<(), CubeError>)
        ensures
            !old(self).available_spec(player) ==> r == Err::<(), CubeError>(CubeError::NotAvailable)
                && *final(self) == *old(self),
            old(self).available_spec(player) && old(self).value >= MAX_CUBE
                ==> r == Err::<(), CubeError>(CubeError::AtMaximum) && *final(self) == *old(self),
            old(self).available_spec(player) && old(self).value < MAX_CUBE ==> r is Ok && *final(self) == (Cube {
                value: (old(self).value * 2) as u16,
                owner: Some(player.spec_opponent()),
                turned: true,
            }),
    {
        if !self.available_to(player) {
            return Err(CubeError::NotAvailable);
        }
        if self.value >= MAX_CUBE {
            return Err(CubeError::AtMaximum);
        }
        self.value = self.value * 2;
        self.owner = Some(player.opponent());
        self.turned = true;
        Ok(())
    }

    /// `player` beavers (an immediate redouble by the taker): value doubles
    /// again and the taker *keeps* ownership.
    pub fn beaver(&mut self, player: Player) -> (r: Result<(), CubeError>)
        ensures
            old(self).value >= MAX_CUBE ==> r == Err::<(), CubeError>(CubeError::AtMaximum)
                && *final(self) == *old(self),
            old(self).value < MAX_CUBE ==> r is Ok && *final(self) == (Cube {
                value: (old(self).value * 2) as u16,
                owner: Some(player),
                turned: true,
            }),
    {
        if self.value >= MAX_CUBE {
            return Err(CubeError::AtMaximum);
        }
        self.value = self.value * 2;
        self.owner = Some(player);
        self.turned = true;
        Ok(())
    }
}

/// The cube's value stays one of 1, 2, 4, …, 64 whatever doubles and beavers
/// are played, and every successful action doubles it.
pub proof fn lemma_cube_value_stays_valid(v: int)
    requires
        cube_value_ok(v),
        v < MAX_CUBE,
    ensures
        cube_value_ok(v * 2),
{
}

} // verus!
