//! The board's vocabulary: positions, directions, tiles, actors and the
//! player's actions, with the small total functions over them.
use vstd::prelude::*;

verus! {

/// A cell of the map, `x` counting columns from the left and `y` rows from the top.
#[derive(Debug, Clone, Copy, PartialEq, Eq, Hash, Structural)]
pub struct Pos {
    pub x: usize,
    pub y: usize,
}

/// The three characters a level can hold.
#[derive(Debug, Clone, Copy, PartialEq, Eq, Structural)]
pub enum ActorKind {
    Warrior,
    Thief,
    Wizard,
}

/// The fixed part of a cell.
#[derive(Debug, Clone, Copy, PartialEq, Eq, Structural)]
pub enum Tile {
    Floor,
    Wall,
    Switch,
    Door,
    Goal,
}

/// A character of the level and where it stands.
#[derive(Debug, Clone, Copy, PartialEq, Eq, Structural)]
pub struct Actor {
    pub kind: ActorKind,
    pub pos: Pos,
}

/// One of the four directions of movement.
#[derive(Debug, Clone, Copy, PartialEq, Eq, Structural)]
pub enum Direction {
    Up,
    Down,
    Left,
    Right,
}

/// What the player can ask the game to do.
#[derive(Debug, Clone, Copy, PartialEq, Eq, Structural)]
pub enum Action {
    Move(Direction),
    Undo,
    Reset,
    Trigger,
    SwitchActor,
}

/// What an action did to the game.
#[derive(Debug, Clone, Copy, PartialEq, Eq, Structural)]
pub enum ActionResult {
    Moved,
    Undone,
    Reset,
    ActorSwitched,
    NoEffect,
}

/// The letter that shows an actor of this kind on the map.
pub open spec fn actor_symbol(kind: ActorKind) -> char {
    match kind {
        ActorKind::Warrior => 'A',
        ActorKind::Thief => 'B',
        ActorKind::Wizard => 'C',
    }
}

/// The name by which an actor of this kind is shown to the player.
pub open spec fn actor_label(kind: ActorKind) -> Seq<char> {
    match kind {
        ActorKind::Warrior => "战士"@,
        ActorKind::Thief => "盗贼"@,
        ActorKind::Wizard => "巫师"@,
    }
}

impl ActorKind {
    pub fn symbol(self) -> (c: char)
        ensures
            c == actor_symbol(self),
    {
        match self {
            ActorKind::Warrior => 'A',
            ActorKind::Thief => 'B',
            ActorKind::Wizard => 'C',
        }
    }

    /// The kind's name as the player reads it.
    pub fn label(self) -> (s: &'static str)
        ensures
            s@ == actor_label(self),
    {
        match self {
            ActorKind::Warrior => "战士",
            ActorKind::Thief => "盗贼",
            ActorKind::Wizard => "巫师",
        }
    }
}

/// The character that shows a bare tile on the map.
pub open spec fn tile_symbol(tile: Tile) -> char {
    match tile {
        Tile::Floor => '-',
        Tile::Wall => '#',
        Tile::Switch => '_',
        Tile::Door => '|',
        Tile::Goal => '.',
    }
}

impl Tile {
    pub fn symbol(self) -> (c: char)
        ensures
            c == tile_symbol(self),
    {
        match self {
            Tile::Floor => '-',
            Tile::Wall => '#',
            Tile::Switch => '_',
            Tile::Door => '|',
            Tile::Goal => '.',
        }
    }
}

/// The change of `(x, y)` that one step in `d` makes.
pub open spec fn delta_spec(d: Direction) -> (int, int) {
    match d {
        Direction::Up => (0, -1),
        Direction::Down => (0, 1),
        Direction::Left => (-1, 0),
        Direction::Right => (1, 0),
    }
}

/// The direction that takes a step in `d` back.
pub open spec fn opposite_spec(d: Direction) -> Direction {
    match d {
        Direction::Up => Direction::Down,
        Direction::Down => Direction::Up,
        Direction::Left => Direction::Right,
        Direction::Right => Direction::Left,
    }
}

/// The cell one step from `p` in `d`, where both coordinates stay within `usize`.
pub open spec fn step_spec(p: Pos, d: Direction) -> Option<Pos> {
    let nx = p.x + delta_spec(d).0;
    let ny = p.y + delta_spec(d).1;
    if 0 <= nx <= usize::MAX && 0 <= ny <= usize::MAX {
        Some(Pos { x: nx as usize, y: ny as usize })
    } else {
        None
    }
}

impl Direction {
    pub fn delta(self) -> (r: (isize, isize))
        ensures
            r.0 == delta_spec(self).0,
            r.1 == delta_spec(self).1,
    {
        match self {
            Direction::Up => (0, -1),
            Direction::Down => (0, 1),
            Direction::Left => (-1, 0),
            Direction::Right => (1, 0),
        }
    }

    pub fn opposite(self) -> (r: Direction)
        ensures
            r == opposite_spec(self),
    {
        match self {
            Direction::Up => Direction::Down,
            Direction::Down => Direction::Up,
            Direction::Left => Direction::Right,
            Direction::Right => Direction::Left,
        }
    }
}

/// `value + delta` where it stays within `usize`.
fn offset_coordinate(value: usize, delta: isize) -> (r: Option<usize>)
    requires
        -1 <= delta <= 1,
    ensures
        0 <= value + delta <= usize::MAX ==> r == Some((value + delta) as usize),
        !(0 <= value + delta <= usize::MAX) ==> r is None,
{
    if delta < 0 {
        if value == 0 {
            None
        } else {
            Some(value - 1)
        }
    } else if delta > 0 {
        if value == usize::MAX {
            None
        } else {
            Some(value + 1)
        }
    } else {
        Some(value)
    }
}

impl Pos {
    pub fn step(self, direction: Direction) -> (r: Option<Pos>)
        ensures
            r == step_spec(self, direction),
    {
        let (dx, dy) = direction.delta();
        let x = match offset_coordinate(self.x, dx) {
            Some(x) => x,
            None => return None,
        };
        let y = match offset_coordinate(self.y, dy) {
            Some(y) => y,
            None => return None,
        };
        Some(Pos { x, y })
    }
}

/// The letter by which an action is recorded in the action sequence.
pub open spec fn action_symbol(a: Action) -> char {
    match a {
        Action::Move(Direction::Up) => 'W',
        Action::Move(Direction::Down) => 'S',
        Action::Move(Direction::Left) => 'A',
        Action::Move(Direction::Right) => 'D',
        Action::Undo => 'Z',
        Action::Reset => 'R',
        Action::Trigger => 'X',
        Action::SwitchActor => 'C',
    }
}

impl Action {
    pub fn symbol(self) -> (c: char)
        ensures
            c == action_symbol(self),
    {
        match self {
            Action::Move(Direction::Up) => 'W',
            Action::Move(Direction::Down) => 'S',
            Action::Move(Direction::Left) => 'A',
            Action::Move(Direction::Right) => 'D',
            Action::Undo => 'Z',
            Action::Reset => 'R',
            Action::Trigger => 'X',
            Action::SwitchActor => 'C',
        }
    }
}

impl ActionResult {
    pub fn changed(self) -> (r: bool)
        ensures
            r == !(self is NoEffect),
    {
        match self {
            ActionResult::NoEffect => false,
            _ => true,
        }
    }
}

/// Row-major order on cells: by row, then by column.
pub open spec fn pos_before(a: Pos, b: Pos) -> bool {
    a.y < b.y || (a.y == b.y && a.x < b.x)
}

/// `s` lists distinct cells in row-major order.
pub open spec fn strictly_sorted(s: Seq<Pos>) -> bool {
    forall|i: int, j: int| 0 <= i < j < s.len() ==> pos_before(#[trigger] s[i], #[trigger] s[j])
}

pub fn pos_less(a: Pos, b: Pos) -> (r: bool)
    ensures
        r == pos_before(a, b),
{
    a.y < b.y || (a.y == b.y && a.x < b.x)
}

} // verus!
