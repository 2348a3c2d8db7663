//! Types of the cube-decision analysis: the recommended action and the
//! context a decision is made in.
use vstd::prelude::*;
use crate::cube::{Cube, MAX_CUBE};
use crate::player::Player;

verus! {

/// Recommended cube action for the player on roll.
#[derive(Clone, Copy, PartialEq, Eq, Debug, Structural)]
pub enum CubeAction {
    /// Not good enough to double: play on.
    NoDouble,
    /// Double; the opponent has a correct take (тайк).
    DoubleTake,
    /// Double; the opponent must pass (пас), i.e. cash the point.
    DoublePass,
    /// Too good to double (тугуд): play on for the mars instead of cashing.
    TooGood,
}

/// Context for a cube decision.
#[derive(Clone, Copy, Debug)]
pub struct CubeContext {
    /// Money game (vs match play).
    pub money: bool,
    /// Jacoby rule active (money game).
    pub jacoby: bool,
    /// Beavers allowed (money game).
    pub beaver: bool,
    /// The upcoming game is the Crawford game (no doubling).
    pub crawford: bool,
    pub cube: Cube,
    pub on_roll: Player,
}

/// Why the player on roll may not double.
#[derive(Clone, Copy, PartialEq, Eq, Debug, Structural)]
pub enum CubeBar {
    /// The Crawford game: no doubling at all.
    Crawford,
    /// The cube is owned by the opponent, or already at its maximum.
    Unavailable,
}

/// What stops the player on roll from doubling, if anything: the Crawford
/// game first, then a cube they may not turn.
pub fn cube_bar(ctx: &CubeContext) -> (r: Option<CubeBar>)
    ensures
        ctx.crawford ==> r == Some(CubeBar::Crawford),
        !ctx.crawford && !(ctx.cube.value < MAX_CUBE && ctx.cube.available_spec(ctx.on_roll))
            ==> r == Some(CubeBar::Unavailable),
        !ctx.crawford && ctx.cube.value < MAX_CUBE && ctx.cube.available_spec(ctx.on_roll) ==> r is None,
{
    if ctx.crawford {
        return Some(CubeBar::Crawford);
    }
    if !ctx.cube.may_double(ctx.on_roll) {
        return Some(CubeBar::Unavailable);
    }
    None
}

/// Whether the decision is judged on single-game equity: a money game under
/// the Jacoby rule before the cube has been turned, when a mars does not
/// count.
pub fn singles_only(ctx: &CubeContext) -> (r: bool)
    ensures
        r == (ctx.money && ctx.jacoby && !ctx.cube.turned),
{
    ctx.money && ctx.jacoby && !ctx.cube.turned
}

/// Whether a beaver can be recommended at all: a money game with beavers.
pub fn beaver_allowed(ctx: &CubeContext) -> (r: bool)
    ensures
        r == (ctx.money && ctx.beaver),
{
    ctx.money && ctx.beaver
}

/// The note shown when doubling is barred.
pub open spec fn bar_note_text(bar: CubeBar) -> Seq<char> {
    match bar {
        CubeBar::Crawford => "Кроуфорд: удвоение запрещено"@,
        CubeBar::Unavailable => "Куб недоступен (у соперника)"@,
    }
}

pub fn bar_note(bar: CubeBar) -> (n: &'static str)
    ensures
        n@ == bar_note_text(bar),
{
    match bar {
        CubeBar::Crawford => "Кроуфорд: удвоение запрещено",
        CubeBar::Unavailable => "Куб недоступен (у соперника)",
    }
}

/// The note shown with a recommended action (`beaver`: the double would be
/// beavered).
pub open spec fn action_note_text(action: CubeAction, beaver: bool) -> Seq<char> {
    match action {
        CubeAction::NoDouble => if beaver { "Не удваивать (иначе бивер)"@ } else { "Не удваивать"@ },
        CubeAction::DoubleTake => "Удвоение, соперник берёт (тайк)"@,
        CubeAction::DoublePass => "Удвоение, соперник пасует (пас)"@,
        CubeAction::TooGood => "Слишком хорошо — играть на марс (тугуд)"@,
    }
}

pub fn action_note(action: CubeAction, beaver: bool) -> (n: &'static str)
    ensures
        n@ == action_note_text(action, beaver),
{
    match action {
        CubeAction::NoDouble => if beaver { "Не удваивать (иначе бивер)" } else { "Не удваивать" },
        CubeAction::DoubleTake => "Удвоение, соперник берёт (тайк)",
        CubeAction::DoublePass => "Удвоение, соперник пасует (пас)",
        CubeAction::TooGood => "Слишком хорошо — играть на марс (тугуд)",
    }
}

} // verus!
