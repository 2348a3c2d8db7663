//! Command-line plumbing of the training tool: flag lookup and the
//! position lines that must carry a roll.
use vstd::prelude::*;
use crate::board::Board;
use crate::notation::{line_placeable, scan_line, scan_pos_line};
use crate::player::Player;
use crate::text::{chars_of, eq_chars};

verus! {

/// The texts of a list of arguments.
pub open spec fn args_view(args: Seq<String>) -> Seq<Seq<char>> {
    args.map_values(|a: String| a@)
}

/// `i` is the first position of `flag` among `args`.
pub open spec fn is_first_flag(args: Seq<Seq<char>>, flag: Seq<char>, i: int) -> bool {
    &&& 0 <= i < args.len()
    &&& args[i] == flag
    &&& forall|j: int| 0 <= j < i ==> #[trigger] args[j] != flag
}

/// The argument after the first occurrence of `flag`, if both exist.
pub open spec fn flag_value_spec(args: Seq<Seq<char>>, flag: Seq<char>) -> Option<int> {
    if exists|i: int| is_first_flag(args, flag, i) {
        let i = choose|i: int| is_first_flag(args, flag, i);
        if i + 1 < args.len() { Some(i + 1) } else { None }
    } else {
        None
    }
}

/// Position of the value given to `flag`: the argument right after the
/// first occurrence of `flag`, if there is one.
pub fn flag_value(args: &[String], flag: &str) -> (r: Option<usize>)
    ensures
        match flag_value_spec(args_view(args@), flag@) {
            Some(i) => r == Some(i as usize),
            None => r is None,
        },
{
    let f = chars_of(flag);
    let ghost av = args_view(args@);
    let mut i: usize = 0;
    while i < args.len()
        invariant
            i <= args.len(),
            f@ == flag@,
            av == args_view(args@),
            forall|j: int| 0 <= j < i ==> #[trigger] av[j] != flag@,
        decreases args.len() - i,
    {
        let a = chars_of(args[i].as_str());
        if eq_chars(&a, &f) {
            proof {
                assert(av[i as int] == args@[i as int]@);
                assert(is_first_flag(av, flag@, i as int));
                let k = choose|k: int| is_first_flag(av, flag@, k);
                if k < i {
                    assert(av[k] != flag@);
                }
                if k > i {
                    assert(av[i as int] != flag@);
                }
            }
            if i + 1 < args.len() {
                return Some(i + 1);
            }
            return None;
        }
        proof { assert(av[i as int] == args@[i as int]@); }
        i += 1;
    }
    proof {
        if exists|k: int| is_first_flag(av, flag@, k) {
            let k = choose|k: int| is_first_flag(av, flag@, k);
            assert(av[k] != flag@);
        }
    }
    None
}

/// The string given to `flag`, or `default`.
pub fn str_arg(args: &[String], flag: &str, default: &str) -> (r: String)
    ensures
        match flag_value_spec(args_view(args@), flag@) {
            Some(i) => r@ == args@[i]@,
            None => r@ == default@,
        },
{
    match flag_value(args, flag) {
        Some(i) => args[i].clone(),
        None => default.to_owned(),
    }
}

/// Parse a position line that must carry a roll (relay and agreement
/// input): `None` exactly when no `dice=` token with two numbers is given.
pub fn parse_pos_line(spec: &str) -> (r: Option<(Board, Player, [u8; 2], bool)>)
    requires
        line_placeable(spec@),
    ensures
        scan_line(spec@).dice is None ==> r is None,
        scan_line(spec@).dice matches Some((x, y)) ==> (r matches Some((b, t, d, f))
            && b@ == scan_line(spec@).board && t == scan_line(spec@).turn && d == [x, y]
            && f == scan_line(spec@).first),
{
    let v = chars_of(spec);
    let (board, turn, dice, first, _saw) = scan_pos_line(&v);
    match dice {
        Some(d) => Some((board, turn, d, first)),
        None => None,
    }
}

} // verus!
