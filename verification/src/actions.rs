//! The text form of action sequences.
use vstd::prelude::*;
use crate::text::{chars_of, is_space, is_space_char};
use crate::types::{Action, Direction};

verus! {

/// What a character of an action sequence stands for.
pub enum CharMeaning {
    Act(Action),
    Skip,
    Invalid,
}

/// Letters and arrows for moves, `Z`, `R`, `X`, `C` for the other actions,
/// either case; white space and commas separate; anything else is invalid.
pub open spec fn char_meaning(c: char) -> CharMeaning {
    if c == 'w' || c == 'W' || c == '↑' {
        CharMeaning::Act(Action::Move(Direction::Up))
    } else if c == 's' || c == 'S' || c == '↓' {
        CharMeaning::Act(Action::Move(Direction::Down))
    } else if c == 'a' || c == 'A' || c == '←' {
        CharMeaning::Act(Action::Move(Direction::Left))
    } else if c == 'd' || c == 'D' || c == '→' {
        CharMeaning::Act(Action::Move(Direction::Right))
    } else if c == 'z' || c == 'Z' {
        CharMeaning::Act(Action::Undo)
    } else if c == 'r' || c == 'R' {
        CharMeaning::Act(Action::Reset)
    } else if c == 'x' || c == 'X' {
        CharMeaning::Act(Action::Trigger)
    } else if c == 'c' || c == 'C' {
        CharMeaning::Act(Action::SwitchActor)
    } else if is_space(c) || c == ',' {
        CharMeaning::Skip
    } else {
        CharMeaning::Invalid
    }
}

/// An action sequence held a character that stands for nothing.
#[derive(Debug, Clone, Copy, PartialEq, Eq, Structural)]
pub struct ActionParseError {
    /// Where the character stands, counting characters from 1.
    pub index: usize,
    pub character: char,
}

/// The actions of the first `n` characters of `s`, or the first invalid one.
pub open spec fn parse_actions_upto(s: Seq<char>, n: int) -> Result<Seq<Action>, ActionParseError>
    decreases n,
{
    if n <= 0 {
        Ok(seq![])
    } else {
        match parse_actions_upto(s, n - 1) {
            Err(e) => Err(e),
            Ok(v) => match char_meaning(s[n - 1]) {
                CharMeaning::Act(a) => Ok(v.push(a)),
                CharMeaning::Skip => Ok(v),
                CharMeaning::Invalid => Err(ActionParseError { index: n as usize, character: s[n - 1] }),
            },
        }
    }
}

/// The actions that the text `s` spells.
pub open spec fn parse_actions_spec(s: Seq<char>) -> Result<Seq<Action>, ActionParseError> {
    parse_actions_upto(s, s.len() as int)
}

proof fn lemma_error_stays(s: Seq<char>, k: int, n: int)
    requires
        0 <= k <= n,
        parse_actions_upto(s, k) is Err,
    ensures
        parse_actions_upto(s, n) == parse_actions_upto(s, k),
    decreases n - k,
{
    if k < n {
        lemma_error_stays(s, k, n - 1);
    }
}

fn char_meaning_of(c: char) -> (r: CharMeaning)
    ensures
        r == char_meaning(c),
{
    if c == 'w' || c == 'W' || c == '↑' {
        CharMeaning::Act(Action::Move(Direction::Up))
    } else if c == 's' || c == 'S' || c == '↓' {
        CharMeaning::Act(Action::Move(Direction::Down))
    } else if c == 'a' || c == 'A' || c == '←' {
        CharMeaning::Act(Action::Move(Direction::Left))
    } else if c == 'd' || c == 'D' || c == '→' {
        CharMeaning::Act(Action::Move(Direction::Right))
    } else if c == 'z' || c == 'Z' {
        CharMeaning::Act(Action::Undo)
    } else if c == 'r' || c == 'R' {
        CharMeaning::Act(Action::Reset)
    } else if c == 'x' || c == 'X' {
        CharMeaning::Act(Action::Trigger)
    } else if c == 'c' || c == 'C' {
        CharMeaning::Act(Action::SwitchActor)
    } else if is_space_char(c) || c == ',' {
        CharMeaning::Skip
    } else {
        CharMeaning::Invalid
    }
}

/// Reads an action sequence.
pub fn parse_actions(input: &str) -> (r: Result<Vec<Action>, ActionParseError>)
    ensures
        match r {
            Ok(actions) => parse_actions_spec(input@) == Ok::<Seq<Action>, ActionParseError>(actions@),
            Err(e) => parse_actions_spec(input@) == Err::<Seq<Action>, ActionParseError>(e),
        },
{
    let chars = chars_of(input);
    let mut actions: Vec<Action> = Vec::new();
    let n = chars.len();
    let mut i: usize = 0;
    while i < n
        invariant
            n == chars@.len(),
            chars@ == input@,
            i <= n,
            parse_actions_upto(chars@, i as int) == Ok::<Seq<Action>, ActionParseError>(actions@),
        decreases n - i,
    {
        let c = chars[i];
        match char_meaning_of(c) {
            CharMeaning::Act(a) => {
                actions.push(a);
            },
            CharMeaning::Skip => {},
            CharMeaning::Invalid => {
                proof {
                    lemma_error_stays(chars@, i + 1, n as int);
                }
                return Err(ActionParseError { index: i + 1, character: c });
            },
        }
        i = i + 1;
    }
    Ok(actions)
}

} // verus!
