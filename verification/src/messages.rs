//! The texts by which errors and failed look-ups are reported.
use vstd::prelude::*;
use crate::actions::ActionParseError;
use crate::level::{Level, LevelError, LevelErrorView};
use crate::text::{decimal, push_decimal, push_text};

verus! {

/// What `{:?}` writes for the text `s`: the text quoted, with escapes.
pub uninterp spec fn str_debug(s: Seq<char>) -> Seq<char>;

/// What `{:?}` writes for the character `c`: the character quoted, with escapes.
pub uninterp spec fn char_debug(c: char) -> Seq<char>;

/// The text quoted as `Debug` formatting of `str` writes it (`format!("{:?}")`).
/// Trusted: the contract names the result and claims only that it depends on
/// the text alone.
#[verifier::external_body]
fn debug_str(s: &str) -> (r: String)
    ensures
        r@ == str_debug(s@),
{
    format!("{:?}", s)
}

/// The character quoted as `Debug` formatting of `char` writes it
/// (`format!("{:?}")`). Trusted: the contract names the result and claims only
/// that it depends on the character alone.
#[verifier::external_body]
fn debug_char(c: char) -> (r: String)
    ensures
        r@ == char_debug(c),
{
    format!("{:?}", c)
}

/// The texts of `names` with `sep` between each two.
pub open spec fn joined(names: Seq<Seq<char>>, sep: Seq<char>) -> Seq<char>
    decreases names.len(),
{
    if names.len() == 0 {
        seq![]
    } else if names.len() == 1 {
        names[0]
    } else {
        joined(names.drop_last(), sep) + sep + names.last()
    }
}

/// The names of `levels`, in order.
pub open spec fn level_names(levels: Seq<Level>) -> Seq<Seq<char>> {
    levels.map_values(|l: Level| l@.name)
}

/// The report of a level name that no level has: the quoted name, then all
/// the names there are.
pub open spec fn not_found_text(quoted: Seq<char>, levels: Seq<Level>) -> Seq<char> {
    "no level "@ + quoted + "; available: "@ + joined(level_names(levels), ", "@)
}

/// The report of a missing level, given the quoted name.
pub fn not_found_message(quoted: &str, levels: &[Level]) -> (s: String)
    ensures
        s@ == not_found_text(quoted@, levels@),
{
    broadcast use Level::lemma_fields;

    let mut s = String::new();
    push_text(&mut s, "no level ");
    push_text(&mut s, quoted);
    push_text(&mut s, "; available: ");
    let ghost start = s@;
    let ghost names = level_names(levels@);
    for i in 0..levels.len()
        invariant
            names == level_names(levels@),
            s@ == start + joined(names.take(i as int), ", "@),
    {
        if i > 0 {
            push_text(&mut s, ", ");
        }
        push_text(&mut s, levels[i].name.as_str());
        proof {
            assert(names.take(i + 1).drop_last() =~= names.take(i as int));
            assert(names[i as int] == levels@[i as int]@.name);
            levels@[i as int].lemma_fields();
            assert(names.take(i + 1).last() == names[i as int]);
            if i == 0 {
                assert(names.take(1) =~= seq![names[0]]);
                assert(joined(names.take(1), ", "@) == names[0]);
                assert(s@ =~= start + joined(names.take(i + 1), ", "@));
            } else {
                assert(joined(names.take(i + 1), ", "@) == joined(names.take(i as int), ", "@) + ", "@ + names[i as int]);
                assert(s@ =~= start + joined(names.take(i + 1), ", "@));
            }
        }
    }
    proof {
        assert(names.take(levels@.len() as int) =~= names);
    }
    s
}

/// The first level of `levels` with the name `name`; where there is none, the
/// report that quotes the name and lists the names there are.
pub fn find_level<'a>(levels: &'a [Level], name: &str) -> (r: Result<&'a Level, String>)
    ensures
        match r {
            Ok(level) => exists|i: int|
                0 <= i < levels@.len() && levels@[i] == *level && level@.name == name@ && forall|j: int|
                    0 <= j < i ==> (#[trigger] levels@[j])@.name != name@,
            Err(message) => {
                &&& forall|j: int| 0 <= j < levels@.len() ==> (#[trigger] levels@[j])@.name != name@
                &&& message@ == not_found_text(str_debug(name@), levels@)
            },
        },
{
    match crate::level::first_level_named(levels, name) {
        Some(level) => Ok(level),
        None => {
            let quoted = debug_str(name);
            Err(not_found_message(quoted.as_str(), levels))
        },
    }
}

/// The text of a level collection error, given the quoted character that an
/// unknown-character error names.
pub open spec fn level_error_text(e: LevelErrorView, quoted: Seq<char>) -> Seq<char> {
    match e {
        LevelErrorView::NoLevels => "未找到任何关卡"@,
        LevelErrorView::DuplicateName { line, name } => "第 "@ + decimal(line) + " 行的关卡名重复："@ + name,
        LevelErrorView::EmptyMap { name } => "关卡 "@ + name + " 没有地图"@,
        LevelErrorView::UnevenWidth { name, line, actual, expected } => "关卡 "@ + name + " 第 "@
            + decimal(line) + " 行宽度为 "@ + decimal(actual) + "，应为 "@ + decimal(expected),
        LevelErrorView::InvalidTile { name, line, character } => "关卡 "@ + name + " 第 "@ + decimal(
            line,
        ) + " 行包含未知字符 "@ + quoted,
        LevelErrorView::NoActors { name } => "关卡 "@ + name + " 中没有角色"@,
    }
}

/// The text of an action sequence error, given the quoted character.
pub open spec fn action_error_text(e: ActionParseError, quoted: Seq<char>) -> Seq<char> {
    "输入序列第 "@ + decimal(e.index as nat) + " 个字符 "@ + quoted + " 无效；可用 WASD、方向箭头、Z、R、X、C"@
}

impl LevelError {
    /// The error's text, with `quoted` standing for the unknown character.
    pub fn message_with(&self, quoted: &str) -> (s: String)
        ensures
            s@ == level_error_text(self@, quoted@),
    {
        let mut s = String::new();
        match self {
            LevelError::NoLevels => {
                push_text(&mut s, "未找到任何关卡");
            },
            LevelError::DuplicateName { line, name } => {
                push_text(&mut s, "第 ");
                push_decimal(&mut s, *line);
                push_text(&mut s, " 行的关卡名重复：");
                push_text(&mut s, name.as_str());
            },
            LevelError::EmptyMap { name } => {
                push_text(&mut s, "关卡 ");
                push_text(&mut s, name.as_str());
                push_text(&mut s, " 没有地图");
            },
            LevelError::UnevenWidth { name, line, actual, expected } => {
                push_text(&mut s, "关卡 ");
                push_text(&mut s, name.as_str());
                push_text(&mut s, " 第 ");
                push_decimal(&mut s, *line);
                push_text(&mut s, " 行宽度为 ");
                push_decimal(&mut s, *actual);
                push_text(&mut s, "，应为 ");
                push_decimal(&mut s, *expected);
            },
            LevelError::InvalidTile { name, line, character: _ } => {
                push_text(&mut s, "关卡 ");
                push_text(&mut s, name.as_str());
                push_text(&mut s, " 第 ");
                push_decimal(&mut s, *line);
                push_text(&mut s, " 行包含未知字符 ");
                push_text(&mut s, quoted);
            },
            LevelError::NoActors { name } => {
                push_text(&mut s, "关卡 ");
                push_text(&mut s, name.as_str());
                push_text(&mut s, " 中没有角色");
            },
        }
        proof {
            assert(s@ =~= level_error_text(self@, quoted@));
        }
        s
    }

    /// The error's text, as the player reads it.
    pub fn message(&self) -> (s: String)
        ensures
            s@ == level_error_text(
                self@,
                match self@ {
                    LevelErrorView::InvalidTile { character, .. } => char_debug(character),
                    _ => seq![],
                },
            ),
    {
        match self {
            LevelError::InvalidTile { character, .. } => {
                let quoted = debug_char(*character);
                self.message_with(quoted.as_str())
            },
            _ => self.message_with(""),
        }
    }
}

impl ActionParseError {
    /// The error's text, with `quoted` standing for the character.
    pub fn message_with(&self, quoted: &str) -> (s: String)
        ensures
            s@ == action_error_text(*self, quoted@),
    {
        let mut s = String::new();
        push_text(&mut s, "输入序列第 ");
        push_decimal(&mut s, self.index);
        push_text(&mut s, " 个字符 ");
        push_text(&mut s, quoted);
        push_text(&mut s, " 无效；可用 WASD、方向箭头、Z、R、X、C");
        proof {
            assert(s@ =~= action_error_text(*self, quoted@));
        }
        s
    }

    /// The error's text, as the player reads it.
    pub fn message(&self) -> (s: String)
        ensures
            s@ == action_error_text(*self, char_debug(self.character)),
    {
        let quoted = debug_char(self.character);
        self.message_with(quoted.as_str())
    }
}

} // verus!
