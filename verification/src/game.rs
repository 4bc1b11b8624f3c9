//! A game in progress: the state of one level, the actions that change it, and
//! the history that undo goes back through.
use vstd::prelude::*;
use crate::board::{
    Board, Occupant, actor_index_from, chain_end, contains_pos, doors_open, edge_distance,
    first_object_ahead, in_segment, insert_pos, lemma_sorted_same_set, lemma_step_nearer_edge,
    move_occupant, occupant, occupied, passable, pushed, push_segment, remove_pos, with_actor_at,
};
use crate::laws::{game_invariant, law_action_keeps_invariant, law_start_keeps_invariant};
use crate::level::{Level, LevelView, in_bounds};
use crate::types::{
    Action, ActionResult, Actor, ActorKind, Direction, Pos, Tile, action_symbol, opposite_spec,
    pos_before, step_spec, strictly_sorted,
};

verus! {

/// A saved state: the board, the selected actor and how long the action
/// sequence was.
#[verifier::ext_equal]
pub struct SnapshotView {
    pub board: Board,
    pub selected: nat,
    pub action_len: nat,
}

/// The state of a game.
#[verifier::ext_equal]
pub struct GameView {
    pub board: Board,
    pub selected: nat,
    /// The states before each recorded action, oldest first.
    pub history: Seq<SnapshotView>,
    /// The recorded actions, by their letters.
    pub actions: Seq<char>,
}

/// What stands on the map when a level starts.
pub open spec fn initial_board(lv: LevelView) -> Board {
    Board { actors: lv.actors, stones: lv.stones.to_set() }
}

/// A game that has just started on `lv`.
pub open spec fn new_game(lv: LevelView) -> GameView {
    GameView { board: initial_board(lv), selected: 0, history: seq![], actions: seq![] }
}

/// Actor `i` stands on a door that is closed, so it cannot move on its own.
pub open spec fn trapped(lv: LevelView, b: Board, i: int) -> bool {
    &&& 0 <= i < b.actors.len()
    &&& lv.tile_at(b.actors[i].pos) == Tile::Door
    &&& !doors_open(lv, b)
}

/// Some actor stands at `p`.
pub open spec fn has_actor_at(b: Board, p: Pos) -> bool {
    exists|i: int| 0 <= i < b.actors.len() && (#[trigger] b.actors[i]).pos == p
}

/// The level is won: it has goals, and the cells of the actors are exactly the
/// goals: every actor stands on a goal, and on every goal stands an actor.
pub open spec fn won(lv: LevelView, b: Board) -> bool {
    &&& exists|p: Pos| lv.tile_at(p) == Tile::Goal
    &&& forall|i: int| 0 <= i < b.actors.len() ==> lv.tile_at((#[trigger] b.actors[i]).pos) == Tile::Goal
    &&& forall|p: Pos| lv.tile_at(p) == Tile::Goal ==> has_actor_at(b, p)
}

/// `g` after an action that changed the board to `b` and the selection to `sel`:
/// the state before it is saved and its letter recorded.
pub open spec fn commit(g: GameView, b: Board, sel: nat, a: Action) -> GameView {
    GameView {
        board: b,
        selected: sel,
        history: g.history.push(SnapshotView { board: g.board, selected: g.selected, action_len: g.actions.len() }),
        actions: g.actions.push(action_symbol(a)),
    }
}

/// A warrior at `sel` moving in `d`: it steps into an empty cell, or pushes the
/// unbroken run of objects in front of it one cell on, if the cell after the
/// run may be entered and is empty.
pub open spec fn warrior_move(lv: LevelView, b: Board, sel: int, d: Direction) -> Option<Board> {
    match step_spec(b.actors[sel].pos, d) {
        None => None,
        Some(next) => if !passable(lv, b, next) {
            None
        } else if !occupied(b, next) {
            Some(with_actor_at(b, sel, next))
        } else {
            match chain_end(lv, b, d, next) {
                None => None,
                Some(last) => Some(with_actor_at(push_segment(b, next, last, d), sel, next)),
            }
        },
    }
}

/// A thief at `sel` moving in `d`: it steps into an empty cell, and whatever
/// stood right behind it follows into the cell it left.
pub open spec fn thief_move(lv: LevelView, b: Board, sel: int, d: Direction) -> Option<Board> {
    let old = b.actors[sel].pos;
    match step_spec(old, d) {
        None => None,
        Some(next) => if !passable(lv, b, next) || occupied(b, next) {
            None
        } else {
            let moved = with_actor_at(b, sel, next);
            match step_spec(old, opposite_spec(d)) {
                Some(behind) => if occupied(moved, behind) {
                    Some(move_occupant(moved, behind, old))
                } else {
                    Some(moved)
                },
                None => Some(moved),
            }
        },
    }
}

/// A wizard at `sel` moving in `d`: it trades places with the first object
/// ahead of it before a wall or a closed door; with none, it steps into an
/// empty cell.
pub open spec fn wizard_move(lv: LevelView, b: Board, sel: int, d: Direction) -> Option<Board> {
    let old = b.actors[sel].pos;
    match first_object_ahead(lv, b, d, old) {
        Some(target) => Some(with_actor_at(move_occupant(b, target, old), sel, target)),
        None => match step_spec(old, d) {
            Some(next) => if passable(lv, b, next) && !occupied(b, next) {
                Some(with_actor_at(b, sel, next))
            } else {
                None
            },
            None => None,
        },
    }
}

/// The move of the actor at `sel` in `d`, by its kind.
pub open spec fn actor_move(lv: LevelView, b: Board, sel: int, d: Direction) -> Option<Board> {
    match b.actors[sel].kind {
        ActorKind::Warrior => warrior_move(lv, b, sel, d),
        ActorKind::Thief => thief_move(lv, b, sel, d),
        ActorKind::Wizard => wizard_move(lv, b, sel, d),
    }
}

/// After a move: where open doors have closed, the stones on doors are crushed.
pub open spec fn close_doors(lv: LevelView, doors_were_open: bool, b: Board) -> Board {
    if doors_were_open && !doors_open(lv, b) {
        Board { actors: b.actors, stones: b.stones.filter(|p: Pos| lv.tile_at(p) != Tile::Door) }
    } else {
        b
    }
}

/// Moving the selected actor: nothing where it is trapped or cannot move;
/// else the move, the doors' consequences, and the record of it.
pub open spec fn move_selected(lv: LevelView, g: GameView, d: Direction) -> (GameView, ActionResult) {
    if trapped(lv, g.board, g.selected as int) {
        (g, ActionResult::NoEffect)
    } else {
        match actor_move(lv, g.board, g.selected as int, d) {
            None => (g, ActionResult::NoEffect),
            Some(b) => (
                commit(g, close_doors(lv, doors_open(lv, g.board), b), g.selected, Action::Move(d)),
                ActionResult::Moved,
            ),
        }
    }
}

/// Undo: back to the state before the last recorded action, which is forgotten.
pub open spec fn undo(g: GameView) -> (GameView, ActionResult) {
    if g.history.len() == 0 {
        (g, ActionResult::NoEffect)
    } else {
        let s = g.history.last();
        (
            GameView {
                board: s.board,
                selected: s.selected,
                history: g.history.drop_last(),
                actions: if s.action_len <= g.actions.len() {
                    g.actions.take(s.action_len as int)
                } else {
                    g.actions
                },
            },
            ActionResult::Undone,
        )
    }
}

/// Reset: back to the start of the level, as a recorded action, unless the
/// game is there already.
pub open spec fn reset(lv: LevelView, g: GameView) -> (GameView, ActionResult) {
    if g.board == initial_board(lv) && g.selected == 0 {
        (g, ActionResult::NoEffect)
    } else {
        (commit(g, initial_board(lv), 0, Action::Reset), ActionResult::Reset)
    }
}

/// Switching actor: the next actor in order is selected, where there are two or more.
pub open spec fn switch_actor(g: GameView) -> (GameView, ActionResult) {
    if g.board.actors.len() < 2 {
        (g, ActionResult::NoEffect)
    } else {
        (
            commit(g, g.board, ((g.selected + 1) % g.board.actors.len()) as nat, Action::SwitchActor),
            ActionResult::ActorSwitched,
        )
    }
}

/// What an action does to a game on `lv`, and what it reports.
pub open spec fn apply_action(lv: LevelView, g: GameView, a: Action) -> (GameView, ActionResult) {
    match a {
        Action::Undo => undo(g),
        Action::Reset => reset(lv, g),
        Action::SwitchActor => switch_actor(g),
        Action::Trigger => (g, ActionResult::NoEffect),
        Action::Move(d) => move_selected(lv, g, d),
    }
}


/// The game after `acts`, one after another, from the start of `lv`.
pub open spec fn play(lv: LevelView, acts: Seq<Action>) -> GameView
    decreases acts.len(),
{
    if acts.len() == 0 {
        new_game(lv)
    } else {
        apply_action(lv, play(lv, acts.drop_last()), acts.last()).0
    }
}

// ---------------------------------------------------------------------------
// The executable game.

pub open spec fn board_of(actors: Seq<Actor>, stones: Seq<Pos>) -> Board {
    Board { actors, stones: stones.to_set() }
}

/// A saved state.
#[derive(Debug, Clone)]
pub(crate) struct Snapshot {
    pub(crate) actors: Vec<Actor>,
    pub(crate) stones: Vec<Pos>,
    pub(crate) selected: usize,
    pub(crate) action_len: usize,
}

impl Snapshot {
    pub(crate) open spec fn view(&self) -> SnapshotView {
        SnapshotView {
            board: board_of(self.actors@, self.stones@),
            selected: self.selected as nat,
            action_len: self.action_len as nat,
        }
    }
}

/// A game in progress on a level.
#[derive(Debug, Clone)]
pub struct Game<'a> {
    pub(crate) level: &'a Level,
    pub(crate) actors: Vec<Actor>,
    pub(crate) stones: Vec<Pos>,
    pub(crate) selected: usize,
    pub(crate) history: Vec<Snapshot>,
    pub(crate) actions: Vec<char>,
}

/// What stands in a cell.
#[derive(Debug, Clone, Copy)]
enum Object {
    Stone,
    Actor(usize),
}

/// A state the game can be in on a level that has `lv` as its start.
pub open spec fn state_ok(lv: LevelView, actors: Seq<Actor>, stones: Seq<Pos>, selected: nat) -> bool {
    &&& actors.len() == lv.actors.len()
    &&& selected < actors.len()
    &&& strictly_sorted(stones)
}

impl<'a> View for Game<'a> {
    type V = GameView;

    closed spec fn view(&self) -> GameView {
        GameView {
            board: board_of(self.actors@, self.stones@),
            selected: self.selected as nat,
            history: self.history@.map_values(|s: Snapshot| s.view()),
            actions: self.actions@,
        }
    }
}

impl<'a> Game<'a> {
    /// The level the game is played on.
    pub closed spec fn lv(&self) -> LevelView {
        self.level@
    }

    /// The game's state is one that its actions can produce: its fields fit
    /// together, and its view keeps the invariant of every game.
    pub closed spec fn wf(&self) -> bool {
        &&& self.wf_state()
        &&& game_invariant(self.level@, self@)
    }

    /// The fields of the game fit together: the level is well formed, the
    /// state and every saved state are states of that level, and each
    /// recorded action has its saved state.
    pub(crate) closed spec fn wf_state(&self) -> bool {
        &&& self.level@.wf()
        &&& state_ok(self.level@, self.actors@, self.stones@, self.selected as nat)
        &&& self.actions@.len() == self.history@.len()
        &&& forall|i: int|
            0 <= i < self.history@.len() ==> (#[trigger] self.history@[i]).action_len == i && state_ok(
                self.level@,
                self.history@[i].actors@,
                self.history@[i].stones@,
                self.history@[i].selected as nat,
            )
    }

    pub(crate) proof fn lemma_wf(&self)
        requires
            self.wf(),
        ensures
            self.wf_state(),
            self.level@.wf(),
            state_ok(self.level@, self.actors@, self.stones@, self.selected as nat),
    {
    }

    /// What a well-formed game promises of its state: the selected actor is
    /// one of the level's actors, and each recorded action has its saved state.
    pub proof fn lemma_state(&self)
        requires
            self.wf(),
        ensures
            self.lv().wf(),
            self@.board.actors.len() == self.lv().actors.len(),
            self@.selected < self@.board.actors.len(),
            self@.actions.len() == self@.history.len(),
            forall|i: int|
                0 <= i < self@.history.len() ==> (#[trigger] self@.history[i]).action_len == i
                    && self@.history[i].board.actors.len() == self.lv().actors.len()
                    && self@.history[i].selected < self@.history[i].board.actors.len(),
    {
        assert forall|i: int| 0 <= i < self@.history.len() implies (#[trigger] self@.history[i]).action_len == i
            && self@.history[i].board.actors.len() == self.lv().actors.len()
            && self@.history[i].selected < self@.history[i].board.actors.len() by {
            assert(self@.history[i] == self.history@[i].view());
        }
    }

    /// A well-formed game keeps the invariant of every game: the level's
    /// actors and kinds, a selected actor among them, one object per cell,
    /// every object on a cell that is no wall, a stone on a door only while the
    /// doors are open, and no more stones than at the start.
    pub proof fn lemma_invariant(&self)
        requires
            self.wf(),
        ensures
            game_invariant(self.lv(), self@),
    {
    }

    pub(crate) proof fn lemma_view(&self)
        ensures
            self@.board == board_of(self.actors@, self.stones@),
            self@.selected == self.selected,
            self@.actions == self.actions@,
            self@.history == self.history@.map_values(|s: Snapshot| s.view()),
            self.lv() == self.level@,
    {
    }
}

/// A copy of `v`.
pub(crate) fn copy_vec<T: Copy>(v: &Vec<T>) -> (r: Vec<T>)
    ensures
        r@ == v@,
{
    let mut r: Vec<T> = Vec::new();
    for i in 0..v.len()
        invariant
            r@ == v@.take(i as int),
    {
        r.push(v[i]);
        assert(v@.take(i + 1) == v@.take(i as int).push(v@[i as int]));
    }
    assert(v@.take(v.len() as int) == v@);
    r
}

fn same_actors(a: &Vec<Actor>, b: &[Actor]) -> (r: bool)
    ensures
        r == (a@ == b@),
{
    if a.len() != b.len() {
        return false;
    }
    for i in 0..a.len()
        invariant
            a.len() == b.len(),
            forall|j: int| 0 <= j < i ==> a@[j] == b@[j],
    {
        if a[i] != b[i] {
            return false;
        }
    }
    assert(a@ =~= b@);
    true
}

fn same_positions(a: &Vec<Pos>, b: &Vec<Pos>) -> (r: bool)
    ensures
        r == (a@ == b@),
{
    if a.len() != b.len() {
        return false;
    }
    for i in 0..a.len()
        invariant
            a.len() == b.len(),
            forall|j: int| 0 <= j < i ==> a@[j] == b@[j],
    {
        if a[i] != b[i] {
            return false;
        }
    }
    assert(a@ =~= b@);
    true
}

impl<'a> Game<'a> {
    /// A game at the start of `level`.
    pub fn new(level: &'a Level) -> (g: Game<'a>)
        requires
            level@.wf(),
        ensures
            g.wf(),
            g.lv() == level@,
            g@ == new_game(level@),
    {
        proof {
            level.lemma_fields();
        }
        let g = Game {
            level,
            actors: copy_vec(&level.initial_actors),
            stones: copy_vec(&level.initial_stones),
            selected: 0,
            history: Vec::new(),
            actions: Vec::new(),
        };
        assert(g@.history =~= seq![]);
        proof {
            law_start_keeps_invariant(level@);
        }
        g
    }

    pub fn level(&self) -> (l: &'a Level)
        ensures
            l@ == self.lv(),
    {
        self.level
    }

    pub fn actors(&self) -> (r: &[Actor])
        ensures
            r@ == self@.board.actors,
    {
        self.actors.as_slice()
    }

    /// The stones, in reading order.
    pub fn stones(&self) -> (r: &[Pos])
        requires
            self.wf(),
        ensures
            r@.to_set() == self@.board.stones,
            strictly_sorted(r@),
    {
        self.stones.as_slice()
    }

    pub fn selected(&self) -> (r: usize)
        ensures
            r == self@.selected,
    {
        self.selected
    }

    pub fn selected_actor(&self) -> (r: &Actor)
        requires
            self.wf(),
        ensures
            *r == self@.board.actors[self@.selected as int],
    {
        &self.actors[self.selected]
    }

    /// The letters of the recorded actions.
    pub fn action_sequence(&self) -> (r: String)
        ensures
            r@ == self@.actions,
    {
        let mut s = String::new();
        for i in 0..self.actions.len()
            invariant
                s@ == self.actions@.take(i as int),
        {
            crate::text::push_char(&mut s, self.actions[i]);
            assert(self.actions@.take(i + 1) == self.actions@.take(i as int).push(self.actions@[i as int]));
        }
        assert(self.actions@.take(self.actions.len() as int) == self.actions@);
        s
    }

    fn object_at(&self, pos: Pos) -> (r: Option<Object>)
        ensures
            match r {
                Some(Object::Stone) => occupant(self@.board, pos) == Some(Occupant::Stone),
                Some(Object::Actor(i)) => occupant(self@.board, pos) == Some(Occupant::Actor(i as nat)) && i < self.actors@.len(),
                None => occupant(self@.board, pos) is None,
            },
    {
        proof {
            self.lemma_view();
        }
        if contains_pos(&self.stones, pos) {
            return Some(Object::Stone);
        }
        let n = self.actors.len();
        let mut i: usize = 0;
        while i < n
            invariant
                n == self.actors@.len(),
                i <= n,
                self@.board == board_of(self.actors@, self.stones@),
                !self.stones@.to_set().contains(pos),
                actor_index_from(self.actors@, pos, 0) == actor_index_from(self.actors@, pos, i as int),
            decreases n - i,
        {
            if self.actors[i].pos == pos {
                return Some(Object::Actor(i));
            }
            i = i + 1;
        }
        None
    }

    /// The doors are open: the map has switches, and something stands on each.
    pub fn doors_open(&self) -> (r: bool)
        requires
            self.wf(),
        ensures
            r == doors_open(self.lv(), self@.board),
    {
        self.doors_open_now()
    }

    fn doors_open_now(&self) -> (r: bool)
        requires
            self.wf_state(),
        ensures
            r == doors_open(self.lv(), self@.board),
    {
        let level: &Level = self.level;
        let ghost lv = level@;
        proof {
            level.lemma_fields();
            self.lemma_view();
        }
        let mut found = false;
        let mut y: usize = 0;
        while y < level.height
            invariant
                lv == level@,
                lv == self.lv(),
                self@.board == board_of(self.actors@, self.stones@),
                lv.wf(),
                lv.width == level.width,
                lv.height == level.height,
                y <= level.height,
                found ==> exists|p: Pos| lv.tile_at(p) == Tile::Switch,
                !found ==> forall|p: Pos| p.y < y ==> lv.tile_at(p) != Tile::Switch,
                forall|p: Pos| p.y < y && lv.tile_at(p) == Tile::Switch ==> occupied(self@.board, p),
            decreases level.height - y,
        {
            let mut x: usize = 0;
            while x < level.width
                invariant
                    lv == level@,
                    lv == self.lv(),
                    self@.board == board_of(self.actors@, self.stones@),
                    lv.wf(),
                    lv.width == level.width,
                    lv.height == level.height,
                    y < level.height,
                    x <= level.width,
                    found ==> exists|p: Pos| lv.tile_at(p) == Tile::Switch,
                    !found ==> forall|p: Pos| (p.y < y || (p.y == y && p.x < x)) ==> lv.tile_at(p) != Tile::Switch,
                    forall|p: Pos|
                        (p.y < y || (p.y == y && p.x < x)) && lv.tile_at(p) == Tile::Switch ==> occupied(self@.board, p),
                decreases level.width - x,
            {
                let pos = Pos { x, y };
                if level.tile(pos) == Tile::Switch {
                    found = true;
                    if self.object_at(pos).is_none() {
                        assert(!occupied(self@.board, pos));
                        assert(lv.tile_at(pos) == Tile::Switch);
                        return false;
                    }
                }
                x = x + 1;
            }
            y = y + 1;
        }
        found
    }

    fn passable(&self, pos: Pos) -> (r: bool)
        requires
            self.wf_state(),
        ensures
            r == passable(self.lv(), self@.board, pos),
    {
        match self.level.tile(pos) {
            Tile::Wall => false,
            Tile::Door => self.doors_open_now(),
            _ => true,
        }
    }

    /// The actor at `index` stands on a door that is closed: it cannot move on its own.
    pub fn actor_trapped(&self, index: usize) -> (r: bool)
        requires
            self.wf(),
        ensures
            r == trapped(self.lv(), self@.board, index as int),
    {
        self.actor_trapped_now(index)
    }

    fn actor_trapped_now(&self, index: usize) -> (r: bool)
        requires
            self.wf_state(),
        ensures
            r == trapped(self.lv(), self@.board, index as int),
    {
        if index < self.actors.len() {
            self.level.tile(self.actors[index].pos) == Tile::Door && !self.doors_open_now()
        } else {
            false
        }
    }

    /// Some actor stands at `pos`.
    fn actor_stands_at(&self, pos: Pos) -> (r: bool)
        ensures
            r == has_actor_at(self@.board, pos),
    {
        proof {
            self.lemma_view();
        }
        let n = self.actors.len();
        let mut j: usize = 0;
        while j < n
            invariant
                n == self.actors@.len(),
                self@.board.actors == self.actors@,
                j <= n,
                forall|t: int| 0 <= t < j ==> (#[trigger] self.actors@[t]).pos != pos,
            decreases n - j,
        {
            if self.actors[j].pos == pos {
                return true;
            }
            j = j + 1;
        }
        false
    }

    /// Every actor stands on a goal.
    fn actors_on_goals(&self) -> (r: bool)
        requires
            self.wf_state(),
        ensures
            r == forall|j: int| 0 <= j < self@.board.actors.len() ==> self.lv().tile_at((#[trigger] self@.board.actors[j]).pos) == Tile::Goal,
    {
        proof {
            self.lemma_view();
        }
        let n = self.actors.len();
        let mut i: usize = 0;
        while i < n
            invariant
                n == self.actors@.len(),
                self@.board.actors == self.actors@,
                self.lv() == self.level@,
                self.level@.wf(),
                i <= n,
                forall|j: int| 0 <= j < i ==> self.lv().tile_at((#[trigger] self.actors@[j]).pos) == Tile::Goal,
            decreases n - i,
        {
            if self.level.tile(self.actors[i].pos) != Tile::Goal {
                return false;
            }
            i = i + 1;
        }
        true
    }

    /// The level is won: the actors stand exactly on the goals, and there are goals.
    #[verifier::rlimit(40)]
    pub fn won(&self) -> (r: bool)
        requires
            self.wf(),
        ensures
            r == won(self.lv(), self@.board),
    {
        let level: &Level = self.level;
        let ghost lv = level@;
        let ghost b = self@.board;
        proof {
            level.lemma_fields();
            self.lemma_view();
        }
        if !self.actors_on_goals() {
            return false;
        }
        let mut found = false;
        let mut y: usize = 0;
        while y < level.height
            invariant
                lv == level@,
                lv == self.lv(),
                b == self@.board,
                lv.wf(),
                lv.width == level.width,
                lv.height == level.height,
                y <= level.height,
                found ==> exists|p: Pos| lv.tile_at(p) == Tile::Goal,
                !found ==> forall|p: Pos| p.y < y ==> lv.tile_at(p) != Tile::Goal,
                forall|p: Pos| p.y < y && lv.tile_at(p) == Tile::Goal ==> has_actor_at(b, p),
                forall|j: int| 0 <= j < b.actors.len() ==> lv.tile_at((#[trigger] b.actors[j]).pos) == Tile::Goal,
            decreases level.height - y,
        {
            let mut x: usize = 0;
            while x < level.width
                invariant
                    lv == level@,
                    lv == self.lv(),
                    b == self@.board,
                    lv.wf(),
                    lv.width == level.width,
                    lv.height == level.height,
                    y < level.height,
                    x <= level.width,
                    found ==> exists|p: Pos| lv.tile_at(p) == Tile::Goal,
                    !found ==> forall|p: Pos| (p.y < y || (p.y == y && p.x < x)) ==> lv.tile_at(p) != Tile::Goal,
                    forall|p: Pos|
                        (p.y < y || (p.y == y && p.x < x)) && lv.tile_at(p) == Tile::Goal ==> has_actor_at(b, p),
                    forall|j: int| 0 <= j < b.actors.len() ==> lv.tile_at((#[trigger] b.actors[j]).pos) == Tile::Goal,
                decreases level.width - x,
            {
                let pos = Pos { x, y };
                if level.tile(pos) == Tile::Goal {
                    found = true;
                    if !self.actor_stands_at(pos) {
                        return false;
                    }
                }
                x = x + 1;
            }
            y = y + 1;
        }
        proof {
            assert forall|p: Pos| lv.tile_at(p) == Tile::Goal implies has_actor_at(b, p) by {
                assert(in_bounds(lv.width, lv.height, p));
            }
        }
        found
    }
}


// ---------------------------------------------------------------------------
// Moves.

proof fn lemma_take_to_set(s: Seq<Pos>, i: int)
    requires
        0 <= i < s.len(),
    ensures
        s.take(i + 1).to_set() == s.take(i).to_set().insert(s[i]),
{
    assert(s.take(i + 1) =~= s.take(i).push(s[i]));
    s.take(i).lemma_push_to_set_commute(s[i]);
}

proof fn lemma_filter_map_insert(a: Set<Pos>, x: Pos, keep: spec_fn(Pos) -> bool, f: spec_fn(Pos) -> Pos)
    ensures
        keep(x) ==> a.insert(x).filter(keep).map(f) == a.filter(keep).map(f).insert(f(x)),
        !keep(x) ==> a.insert(x).filter(keep).map(f) == a.filter(keep).map(f),
        keep(x) ==> a.insert(x).filter(keep) == a.filter(keep).insert(x),
        !keep(x) ==> a.insert(x).filter(keep) == a.filter(keep),
{
    if keep(x) {
        assert forall|q: Pos| #[trigger] a.insert(x).filter(keep).map(f).contains(q) <==> a.filter(keep).map(f).insert(f(x)).contains(q) by {
            if a.insert(x).filter(keep).map(f).contains(q) {
                let w = choose|w: Pos| a.insert(x).filter(keep).contains(w) && f(w) == q;
                if w != x {
                    assert(a.filter(keep).contains(w));
                }
            }
            if a.filter(keep).map(f).contains(q) {
                let w = choose|w: Pos| a.filter(keep).contains(w) && f(w) == q;
                assert(a.insert(x).filter(keep).contains(w));
            }
            if q == f(x) {
                assert(a.insert(x).filter(keep).contains(x));
            }
        }
        assert(a.insert(x).filter(keep).map(f) =~= a.filter(keep).map(f).insert(f(x)));
        assert(a.insert(x).filter(keep) =~= a.filter(keep).insert(x));
    } else {
        assert forall|q: Pos| #[trigger] a.insert(x).filter(keep).map(f).contains(q) <==> a.filter(keep).map(f).contains(q) by {
            if a.insert(x).filter(keep).map(f).contains(q) {
                let w = choose|w: Pos| a.insert(x).filter(keep).contains(w) && f(w) == q;
                assert(a.filter(keep).contains(w));
            }
            if a.filter(keep).map(f).contains(q) {
                let w = choose|w: Pos| a.filter(keep).contains(w) && f(w) == q;
                assert(a.insert(x).filter(keep).contains(w));
            }
        }
        assert(a.insert(x).filter(keep).map(f) =~= a.filter(keep).map(f));
        assert(a.insert(x).filter(keep) =~= a.filter(keep));
    }
}

fn in_segment_exec(a: Pos, b: Pos, p: Pos) -> (r: bool)
    ensures
        r == in_segment(a, b, p),
{
    (a.y == b.y && p.y == a.y && ((a.x <= p.x && p.x <= b.x) || (b.x <= p.x && p.x <= a.x))) || (a.x
        == b.x && p.x == a.x && ((a.y <= p.y && p.y <= b.y) || (b.y <= p.y && p.y <= a.y)))
}

fn pushed_exec(a: Pos, b: Pos, d: Direction, p: Pos) -> (r: Pos)
    ensures
        r == pushed(a, b, d, p),
{
    if in_segment_exec(a, b, p) {
        match p.step(d) {
            Some(q) => q,
            None => p,
        }
    } else {
        p
    }
}

#[verifier::loop_isolation(false)]
/// The stones of the sorted list `v` after the push of the run from `a` to `b`.
fn push_stones(v: &Vec<Pos>, a: Pos, b: Pos, d: Direction) -> (r: Vec<Pos>)
    requires
        strictly_sorted(v@),
    ensures
        strictly_sorted(r@),
        r@.to_set() == v@.to_set().filter(|p: Pos| !in_segment(a, b, p)).union(
            v@.to_set().filter(|p: Pos| in_segment(a, b, p)).map(|p: Pos| pushed(a, b, d, p)),
        ),
{
    let ghost outside = |p: Pos| !in_segment(a, b, p);
    let ghost inside = |p: Pos| in_segment(a, b, p);
    let ghost f = |p: Pos| pushed(a, b, d, p);
    let mut kept: Vec<Pos> = Vec::new();
    let mut moved: Vec<Pos> = Vec::new();
    let n = v.len();
    let mut i: usize = 0;
    while i < n
        invariant
            n == v@.len(),
            i <= n,
            strictly_sorted(v@),
            strictly_sorted(kept@),
            forall|u: int, t: int| 0 <= u < kept@.len() && i <= t < n ==> pos_before(kept@[u], v@[t]),
            kept@.to_set() == v@.take(i as int).to_set().filter(outside),
            moved@.to_set() == v@.take(i as int).to_set().filter(inside).map(f),
        decreases n - i,
    {
        let p = v[i];
        proof {
            lemma_take_to_set(v@, i as int);
            lemma_filter_map_insert(v@.take(i as int).to_set(), p, inside, f);
            lemma_filter_map_insert(v@.take(i as int).to_set(), p, outside, f);
        }
        if in_segment_exec(a, b, p) {
            let q = pushed_exec(a, b, d, p);
            let ghost m0 = moved@;
            moved.push(q);
            proof {
                m0.lemma_push_to_set_commute(q);
            }
        } else {
            let ghost k0 = kept@;
            kept.push(p);
            proof {
                k0.lemma_push_to_set_commute(p);
                assert forall|x: int, y: int| 0 <= x < y < kept@.len() implies pos_before(
                    #[trigger] kept@[x],
                    #[trigger] kept@[y],
                ) by {
                    if y < k0.len() {
                        assert(k0[x] == kept@[x] && k0[y] == kept@[y]);
                    } else {
                        assert(k0[x] == kept@[x]);
                        assert(pos_before(k0[x], v@[i as int]));
                    }
                }
                assert forall|u: int, t: int| 0 <= u < kept@.len() && i + 1 <= t < n implies pos_before(
                    kept@[u],
                    v@[t],
                ) by {
                    if u < k0.len() {
                        assert(k0[u] == kept@[u]);
                    } else {
                        assert(pos_before(v@[i as int], v@[t]));
                    }
                }
            }
        }
        i = i + 1;
    }
    proof {
        assert(v@.take(n as int) == v@);
    }
    let ghost base = kept@.to_set();
    let m = moved.len();
    let mut j: usize = 0;
    while j < m
        invariant
            m == moved@.len(),
            j <= m,
            strictly_sorted(kept@),
            kept@.to_set() == base.union(moved@.take(j as int).to_set()),
        decreases m - j,
    {
        let ghost k0 = kept@.to_set();
        insert_pos(&mut kept, moved[j]);
        proof {
            assert(moved@.take(j + 1) =~= moved@.take(j as int).push(moved@[j as int]));
            moved@.take(j as int).lemma_push_to_set_commute(moved@[j as int]);
            assert(kept@.to_set() =~= base.union(moved@.take(j + 1).to_set()));
        }
        j = j + 1;
    }
    proof {
        assert(moved@.take(m as int) == moved@);
        assert(kept@.to_set() =~= v@.to_set().filter(outside).union(v@.to_set().filter(inside).map(f)));
    }
    kept
}


#[verifier::loop_isolation(false)]
/// The stones of the sorted list `v` that do not stand on a door of `level`.
fn crush_stones(level: &Level, v: &Vec<Pos>) -> (r: Vec<Pos>)
    requires
        level@.wf(),
        strictly_sorted(v@),
    ensures
        strictly_sorted(r@),
        r@.to_set() == v@.to_set().filter(|p: Pos| level@.tile_at(p) != Tile::Door),
{
    let ghost keep = |p: Pos| level@.tile_at(p) != Tile::Door;
    let ghost f = |p: Pos| p;
    let mut kept: Vec<Pos> = Vec::new();
    let n = v.len();
    let mut i: usize = 0;
    while i < n
        invariant
            n == v@.len(),
            i <= n,
            level@.wf(),
            strictly_sorted(v@),
            strictly_sorted(kept@),
            forall|u: int, t: int| 0 <= u < kept@.len() && i <= t < n ==> pos_before(kept@[u], v@[t]),
            kept@.to_set() == v@.take(i as int).to_set().filter(keep),
        decreases n - i,
    {
        let p = v[i];
        proof {
            lemma_take_to_set(v@, i as int);
            lemma_filter_map_insert(v@.take(i as int).to_set(), p, keep, f);
        }
        if level.tile(p) != Tile::Door {
            let ghost k0 = kept@;
            kept.push(p);
            proof {
                k0.lemma_push_to_set_commute(p);
                assert forall|x: int, y: int| 0 <= x < y < kept@.len() implies pos_before(
                    #[trigger] kept@[x],
                    #[trigger] kept@[y],
                ) by {
                    if y < k0.len() {
                        assert(k0[x] == kept@[x] && k0[y] == kept@[y]);
                    } else {
                        assert(k0[x] == kept@[x]);
                        assert(pos_before(k0[x], v@[i as int]));
                    }
                }
                assert forall|u: int, t: int| 0 <= u < kept@.len() && i + 1 <= t < n implies pos_before(
                    kept@[u],
                    v@[t],
                ) by {
                    if u < k0.len() {
                        assert(k0[u] == kept@[u]);
                    } else {
                        assert(pos_before(v@[i as int], v@[t]));
                    }
                }
            }
        }
        i = i + 1;
    }
    proof {
        assert(v@.take(n as int) == v@);
    }
    kept
}


impl<'a> Game<'a> {
    /// Everything but the board is as in `old`, and the board is a valid one.
    pub(crate) open spec fn same_but_board(&self, old: &Game<'a>) -> bool {
        &&& self.level == old.level
        &&& self.selected == old.selected
        &&& self.history == old.history
        &&& self.actions == old.actions
        &&& self.actors@.len() == old.actors@.len()
        &&& strictly_sorted(self.stones@)
    }

    fn set_actor_pos(&mut self, i: usize, p: Pos)
        requires
            i < old(self).actors@.len(),
            strictly_sorted(old(self).stones@),
        ensures
            final(self).same_but_board(old(self)),
            final(self)@.board == with_actor_at(old(self)@.board, i as int, p),
    {
        let kind = self.actors[i].kind;
        self.actors.set(i, Actor { kind, pos: p });
        proof {
            assert(self@.board =~= with_actor_at(old(self)@.board, i as int, p));
        }
    }

    fn move_object(&mut self, from: Pos, to: Pos)
        requires
            strictly_sorted(old(self).stones@),
            occupied(old(self)@.board, from),
        ensures
            final(self).same_but_board(old(self)),
            final(self)@.board == move_occupant(old(self)@.board, from, to),
    {
        match self.object_at(from) {
            Some(Object::Stone) => {
                remove_pos(&mut self.stones, from);
                insert_pos(&mut self.stones, to);
                proof {
                    assert(self@.board =~= move_occupant(old(self)@.board, from, to));
                }
            },
            Some(Object::Actor(index)) => {
                self.set_actor_pos(index, to);
            },
            None => {},
        }
    }

    fn push_run(&mut self, a: Pos, b: Pos, d: Direction)
        requires
            strictly_sorted(old(self).stones@),
        ensures
            final(self).same_but_board(old(self)),
            final(self)@.board == push_segment(old(self)@.board, a, b, d),
    {
        let n = self.actors.len();
        let mut i: usize = 0;
        while i < n
            invariant
                n == self.actors@.len() == old(self).actors@.len(),
                i <= n,
                self.level == old(self).level,
                self.selected == old(self).selected,
                self.history == old(self).history,
                self.actions == old(self).actions,
                self.stones == old(self).stones,
                forall|t: int| 0 <= t < i ==> #[trigger] self.actors@[t] == (Actor {
                    kind: old(self).actors@[t].kind,
                    pos: pushed(a, b, d, old(self).actors@[t].pos),
                }),
                forall|t: int| i <= t < n ==> #[trigger] self.actors@[t] == old(self).actors@[t],
            decreases n - i,
        {
            let actor = self.actors[i];
            let q = pushed_exec(a, b, d, actor.pos);
            self.actors.set(i, Actor { kind: actor.kind, pos: q });
            i = i + 1;
        }
        self.stones = push_stones(&self.stones, a, b, d);
        proof {
            assert(self@.board.actors =~= push_segment(old(self)@.board, a, b, d).actors);
            assert(self@.board =~= push_segment(old(self)@.board, a, b, d));
        }
    }

    /// The last cell of the run of objects that starts at `first`.
    fn chain_last(&self, first: Pos, d: Direction) -> (r: Option<Pos>)
        requires
            self.wf_state(),
        ensures
            r == chain_end(self.lv(), self@.board, d, first),
    {
        let mut last = first;
        loop
            invariant
                self.wf_state(),
                chain_end(self.lv(), self@.board, d, first) == chain_end(self.lv(), self@.board, d, last),
            decreases edge_distance(last, d),
        {
            let after = match last.step(d) {
                Some(p) => p,
                None => return None,
            };
            proof {
                lemma_step_nearer_edge(last, d);
            }
            if !self.passable(after) {
                return None;
            }
            if self.object_at(after).is_none() {
                return Some(last);
            }
            last = after;
        }
    }

    /// The warrior's move; `false` where it cannot move.
    fn move_warrior(&mut self, d: Direction) -> (moved: bool)
        requires
            old(self).wf_state(),
        ensures
            final(self).same_but_board(old(self)),
            moved == warrior_move(old(self).lv(), old(self)@.board, old(self).selected as int, d) is Some,
            moved ==> final(self)@.board == warrior_move(old(self).lv(), old(self)@.board, old(self).selected as int, d)->0,
            !moved ==> final(self)@.board == old(self)@.board,
    {
        proof {
            self.lemma_view();
        }
        let sel = self.selected;
        let next = match self.actors[sel].pos.step(d) {
            Some(p) => p,
            None => return false,
        };
        if !self.passable(next) {
            return false;
        }
        if self.object_at(next).is_none() {
            self.set_actor_pos(sel, next);
            return true;
        }
        let last = match self.chain_last(next, d) {
            Some(p) => p,
            None => return false,
        };
        self.push_run(next, last, d);
        self.set_actor_pos(sel, next);
        true
    }

    /// The thief's move; `false` where it cannot move.
    fn move_thief(&mut self, d: Direction) -> (moved: bool)
        requires
            old(self).wf_state(),
        ensures
            final(self).same_but_board(old(self)),
            moved == thief_move(old(self).lv(), old(self)@.board, old(self).selected as int, d) is Some,
            moved ==> final(self)@.board == thief_move(old(self).lv(), old(self)@.board, old(self).selected as int, d)->0,
            !moved ==> final(self)@.board == old(self)@.board,
    {
        let sel = self.selected;
        let old_pos = self.actors[sel].pos;
        let next = match old_pos.step(d) {
            Some(p) => p,
            None => return false,
        };
        if !self.passable(next) || self.object_at(next).is_some() {
            return false;
        }
        let behind = old_pos.step(d.opposite());
        self.set_actor_pos(sel, next);
        match behind {
            Some(bh) => {
                if self.object_at(bh).is_some() {
                    self.move_object(bh, old_pos);
                }
            },
            None => {},
        }
        true
    }

    /// The first cell ahead of `from` in `d` that holds an object.
    fn object_ahead(&self, from: Pos, d: Direction) -> (r: Option<Pos>)
        requires
            self.wf_state(),
        ensures
            r == first_object_ahead(self.lv(), self@.board, d, from),
            r matches Some(t) ==> occupied(self@.board, t),
    {
        let mut cursor = from;
        loop
            invariant
                self.wf_state(),
                first_object_ahead(self.lv(), self@.board, d, from) == first_object_ahead(self.lv(), self@.board, d, cursor),
            decreases edge_distance(cursor, d),
        {
            let next = match cursor.step(d) {
                Some(p) => p,
                None => return None,
            };
            proof {
                lemma_step_nearer_edge(cursor, d);
            }
            if !self.passable(next) {
                return None;
            }
            if self.object_at(next).is_some() {
                return Some(next);
            }
            cursor = next;
        }
    }

    /// The wizard's move; `false` where it cannot move.
    fn move_wizard(&mut self, d: Direction) -> (moved: bool)
        requires
            old(self).wf_state(),
        ensures
            final(self).same_but_board(old(self)),
            moved == wizard_move(old(self).lv(), old(self)@.board, old(self).selected as int, d) is Some,
            moved ==> final(self)@.board == wizard_move(old(self).lv(), old(self)@.board, old(self).selected as int, d)->0,
            !moved ==> final(self)@.board == old(self)@.board,
    {
        proof {
            self.lemma_view();
        }
        let sel = self.selected;
        let old_pos = self.actors[sel].pos;
        match self.object_ahead(old_pos, d) {
            Some(target) => {
                self.move_object(target, old_pos);
                self.set_actor_pos(sel, target);
                return true;
            },
            None => {},
        }
        let next = match old_pos.step(d) {
            Some(p) => p,
            None => return false,
        };
        if self.passable(next) && self.object_at(next).is_none() {
            self.set_actor_pos(sel, next);
            true
        } else {
            false
        }
    }

    fn resolve_door_closure(&mut self, doors_were_open: bool)
        requires
            old(self).wf_state(),
        ensures
            final(self).same_but_board(old(self)),
            final(self)@.board == close_doors(old(self).lv(), doors_were_open, old(self)@.board),
    {
        if !doors_were_open || self.doors_open_now() {
            return;
        }
        self.stones = crush_stones(self.level, &self.stones);
        proof {
            assert(self@.board =~= close_doors(old(self).lv(), doors_were_open, old(self)@.board));
        }
    }
}


impl<'a> Game<'a> {
    fn snapshot(&self) -> (snap: Snapshot)
        requires
            self.wf_state(),
        ensures
            snap.view() == (SnapshotView { board: self@.board, selected: self@.selected, action_len: self@.actions.len() }),
            state_ok(self.level@, snap.actors@, snap.stones@, snap.selected as nat),
            snap.action_len == self.history@.len(),
    {
        proof {
            self.lemma_view();
        }
        Snapshot {
            actors: copy_vec(&self.actors),
            stones: copy_vec(&self.stones),
            selected: self.selected,
            action_len: self.actions.len(),
        }
    }

    fn commit(&mut self, before: Snapshot, action: Action)
        requires
            old(self).level@.wf(),
            state_ok(old(self).level@, old(self).actors@, old(self).stones@, old(self).selected as nat),
            old(self).actions@.len() == old(self).history@.len(),
            forall|i: int|
                0 <= i < old(self).history@.len() ==> (#[trigger] old(self).history@[i]).action_len == i && state_ok(
                    old(self).level@,
                    old(self).history@[i].actors@,
                    old(self).history@[i].stones@,
                    old(self).history@[i].selected as nat,
                ),
            state_ok(old(self).level@, before.actors@, before.stones@, before.selected as nat),
            before.action_len == old(self).history@.len(),
        ensures
            final(self).wf_state(),
            final(self).level == old(self).level,
            final(self)@ == (GameView {
                board: old(self)@.board,
                selected: old(self)@.selected,
                history: old(self)@.history.push(before.view()),
                actions: old(self)@.actions.push(action_symbol(action)),
            }),
    {
        let ghost h0 = self.history@;
        self.history.push(before);
        self.actions.push(action.symbol());
        proof {
            assert(self.history@.map_values(|s: Snapshot| s.view()) =~= h0.map_values(|s: Snapshot| s.view()).push(
                before.view(),
            ));
            assert forall|i: int| 0 <= i < self.history@.len() implies (#[trigger] self.history@[i]).action_len == i
                && state_ok(
                self.level@,
                self.history@[i].actors@,
                self.history@[i].stones@,
                self.history@[i].selected as nat,
            ) by {
                if i < h0.len() {
                    assert(self.history@[i] == h0[i]);
                }
            }
        }
    }

    fn undo(&mut self) -> (r: ActionResult)
        requires
            old(self).wf_state(),
        ensures
            final(self).wf_state(),
            final(self).level == old(self).level,
            (final(self)@, r) == undo(old(self)@),
    {
        proof {
            self.lemma_view();
        }
        let ghost h0 = self.history@;
        let snapshot = match self.history.pop() {
            Some(s) => s,
            None => return ActionResult::NoEffect,
        };
        proof {
            assert(h0.map_values(|s: Snapshot| s.view()).last() == snapshot.view());
            assert(self.history@.map_values(|s: Snapshot| s.view()) =~= h0.map_values(|s: Snapshot| s.view()).drop_last());
            assert(snapshot == h0[h0.len() - 1]);
        }
        self.actors = snapshot.actors;
        self.stones = snapshot.stones;
        self.selected = snapshot.selected;
        self.actions.truncate(snapshot.action_len);
        proof {
            assert forall|i: int| 0 <= i < self.history@.len() implies (#[trigger] self.history@[i]).action_len == i
                && state_ok(
                self.level@,
                self.history@[i].actors@,
                self.history@[i].stones@,
                self.history@[i].selected as nat,
            ) by {
                assert(self.history@[i] == h0[i]);
            }
        }
        ActionResult::Undone
    }

    fn reset(&mut self) -> (r: ActionResult)
        requires
            old(self).wf_state(),
        ensures
            final(self).wf_state(),
            final(self).level == old(self).level,
            (final(self)@, r) == reset(old(self).lv(), old(self)@),
    {
        proof {
            self.lemma_view();
            self.level.lemma_fields();
        }
        let level: &Level = self.level;
        let same_actors = same_actors(&self.actors, level.actors());
        let same_stones = same_positions(&self.stones, level.stones());
        proof {
            if self@.board == crate::game::initial_board(level@) {
                assert(self.stones@.to_set() == level@.stones.to_set());
                lemma_sorted_same_set(self.stones@, level@.stones);
            }
        }
        if same_actors && same_stones && self.selected == 0 {
            return ActionResult::NoEffect;
        }
        let before = self.snapshot();
        self.actors = copy_vec(&level.initial_actors);
        self.stones = copy_vec(&level.initial_stones);
        self.selected = 0;
        self.commit(before, Action::Reset);
        proof {
            assert(self@.board =~= crate::game::initial_board(level@));
        }
        ActionResult::Reset
    }

    fn switch_actor(&mut self) -> (r: ActionResult)
        requires
            old(self).wf_state(),
        ensures
            final(self).wf_state(),
            final(self).level == old(self).level,
            (final(self)@, r) == switch_actor(old(self)@),
    {
        proof {
            self.lemma_view();
        }
        if self.actors.len() < 2 {
            return ActionResult::NoEffect;
        }
        let before = self.snapshot();
        self.selected = (self.selected + 1) % self.actors.len();
        self.commit(before, Action::SwitchActor);
        ActionResult::ActorSwitched
    }

    fn move_selected(&mut self, direction: Direction) -> (r: ActionResult)
        requires
            old(self).wf_state(),
        ensures
            final(self).wf_state(),
            final(self).level == old(self).level,
            (final(self)@, r) == move_selected(old(self).lv(), old(self)@, direction),
    {
        proof {
            self.lemma_view();
        }
        if self.actor_trapped_now(self.selected) {
            return ActionResult::NoEffect;
        }
        let before = self.snapshot();
        let doors_were_open = self.doors_open_now();
        let ghost g0 = *self;
        let moved = match self.actors[self.selected].kind {
            ActorKind::Warrior => self.move_warrior(direction),
            ActorKind::Thief => self.move_thief(direction),
            ActorKind::Wizard => self.move_wizard(direction),
        };
        if moved {
            self.resolve_door_closure(doors_were_open);
            self.commit(before, Action::Move(direction));
            ActionResult::Moved
        } else {
            proof {
                assert(self@ =~= g0@);
            }
            ActionResult::NoEffect
        }
    }

    /// Carries out `action` and says what it did.
    pub fn apply(&mut self, action: Action) -> (r: ActionResult)
        requires
            old(self).wf(),
        ensures
            final(self).wf(),
            final(self).lv() == old(self).lv(),
            (final(self)@, r) == apply_action(old(self).lv(), old(self)@, action),
    {
        proof {
            law_action_keeps_invariant(self.level@, self@, action);
        }
        match action {
            Action::Undo => self.undo(),
            Action::Reset => self.reset(),
            Action::SwitchActor => self.switch_actor(),
            Action::Trigger => ActionResult::NoEffect,
            Action::Move(direction) => self.move_selected(direction),
        }
    }
}

} // verus!
