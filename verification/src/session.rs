//! Driving a game: a whole action script at once, or one key press at a time.
use vstd::prelude::*;
use crate::actions::{ActionParseError, parse_actions, parse_actions_spec};
use crate::game::{Game, apply_action, play};
use crate::level::Level;
use crate::types::{Action, ActionResult, Direction};

verus! {

/// The game after the actions that `input` spells, played from the start of
/// `level`, or the error of the first character that spells no action.
pub fn run_script<'a>(level: &'a Level, input: &str) -> (r: Result<Game<'a>, ActionParseError>)
    requires
        level@.wf(),
    ensures
        match r {
            Ok(game) => {
                &&& parse_actions_spec(input@) is Ok
                &&& game@ == play(level@, parse_actions_spec(input@)->Ok_0)
                &&& game.wf()
                &&& game.lv() == level@
            },
            Err(e) => parse_actions_spec(input@) == Err::<Seq<Action>, ActionParseError>(e),
        },
{
    let actions = match parse_actions(input) {
        Ok(a) => a,
        Err(e) => return Err(e),
    };
    let mut game = Game::new(level);
    for i in 0..actions.len()
        invariant
            game.wf(),
            game.lv() == level@,
            game@ == play(level@, actions@.take(i as int)),
    {
        game.apply(actions[i]);
        proof {
            assert(actions@.take(i + 1).drop_last() =~= actions@.take(i as int));
        }
    }
    proof {
        assert(actions@.take(actions.len() as int) =~= actions@);
    }
    Ok(game)
}

/// A key of the keyboard, as far as the game tells keys apart.
#[derive(Debug, Clone, Copy, PartialEq, Eq, Structural)]
pub enum Key {
    Up,
    Down,
    Left,
    Right,
    Esc,
    Char(char),
    Other,
}

/// A key press: the key, and whether the control key was held.
#[derive(Debug, Clone, Copy, PartialEq, Eq, Structural)]
pub struct KeyPress {
    pub key: Key,
    pub control: bool,
}

/// The action that a key asks for: arrows and `WASD` move, `Z` undoes, `R`
/// resets, `X` triggers, `C` switches actor, in either case.
pub open spec fn key_action(key: Key) -> Option<Action> {
    match key {
        Key::Up => Some(Action::Move(Direction::Up)),
        Key::Down => Some(Action::Move(Direction::Down)),
        Key::Left => Some(Action::Move(Direction::Left)),
        Key::Right => Some(Action::Move(Direction::Right)),
        Key::Char(c) => if c == 'w' || c == 'W' {
            Some(Action::Move(Direction::Up))
        } else if c == 's' || c == 'S' {
            Some(Action::Move(Direction::Down))
        } else if c == 'a' || c == 'A' {
            Some(Action::Move(Direction::Left))
        } else if c == 'd' || c == 'D' {
            Some(Action::Move(Direction::Right))
        } else if c == 'z' || c == 'Z' {
            Some(Action::Undo)
        } else if c == 'r' || c == 'R' {
            Some(Action::Reset)
        } else if c == 'x' || c == 'X' {
            Some(Action::Trigger)
        } else if c == 'c' || c == 'C' {
            Some(Action::SwitchActor)
        } else {
            None
        },
        _ => None,
    }
}

/// The key press ends the game: escape, `Q`, or control and `C`.
pub open spec fn quits(press: KeyPress) -> bool {
    ||| press.key == Key::Esc
    ||| press.key == Key::Char('q')
    ||| press.key == Key::Char('Q')
    ||| (press.control && (press.key == Key::Char('c') || press.key == Key::Char('C')))
}

pub fn key_to_action(key: Key) -> (r: Option<Action>)
    ensures
        r == key_action(key),
{
    match key {
        Key::Up => Some(Action::Move(Direction::Up)),
        Key::Down => Some(Action::Move(Direction::Down)),
        Key::Left => Some(Action::Move(Direction::Left)),
        Key::Right => Some(Action::Move(Direction::Right)),
        Key::Char(c) => if c == 'w' || c == 'W' {
            Some(Action::Move(Direction::Up))
        } else if c == 's' || c == 'S' {
            Some(Action::Move(Direction::Down))
        } else if c == 'a' || c == 'A' {
            Some(Action::Move(Direction::Left))
        } else if c == 'd' || c == 'D' {
            Some(Action::Move(Direction::Right))
        } else if c == 'z' || c == 'Z' {
            Some(Action::Undo)
        } else if c == 'r' || c == 'R' {
            Some(Action::Reset)
        } else if c == 'x' || c == 'X' {
            Some(Action::Trigger)
        } else if c == 'c' || c == 'C' {
            Some(Action::SwitchActor)
        } else {
            None
        },
        _ => None,
    }
}

pub fn is_quit(press: KeyPress) -> (r: bool)
    ensures
        r == quits(press),
{
    match press.key {
        Key::Esc => true,
        Key::Char(c) => c == 'q' || c == 'Q' || (press.control && (c == 'c' || c == 'C')),
        _ => false,
    }
}

/// What a key press did.
#[derive(Debug, Clone, Copy, PartialEq, Eq, Structural)]
pub enum KeyOutcome {
    Quit,
    Acted(ActionResult),
    Ignored,
}

/// Handles one key press of an interactive game.
pub fn handle_key(game: &mut Game, press: KeyPress) -> (r: KeyOutcome)
    requires
        old(game).wf(),
    ensures
        final(game).wf(),
        final(game).lv() == old(game).lv(),
        quits(press) ==> r == KeyOutcome::Quit && final(game)@ == old(game)@,
        !quits(press) ==> match key_action(press.key) {
            Some(a) => {
                &&& r == KeyOutcome::Acted(apply_action(old(game).lv(), old(game)@, a).1)
                &&& final(game)@ == apply_action(old(game).lv(), old(game)@, a).0
            },
            None => r == KeyOutcome::Ignored && final(game)@ == old(game)@,
        },
{
    if is_quit(press) {
        return KeyOutcome::Quit;
    }
    match key_to_action(press.key) {
        Some(action) => KeyOutcome::Acted(game.apply(action)),
        None => KeyOutcome::Ignored,
    }
}

} // verus!
