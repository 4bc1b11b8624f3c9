//! Properties of the game and of its text formats that hold for every input.
use vstd::prelude::*;
use crate::actions::{ActionParseError, parse_actions_spec, parse_actions_upto};
use crate::board::{
    Board, Occupant, actor_index_from, chain_end, doors_open, edge_distance, first_object_ahead,
    in_segment, lemma_step_nearer_edge, move_occupant, occupant, occupied, passable, push_segment,
    pushed, with_actor_at,
};
use crate::game::{
    GameView, SnapshotView, actor_move, apply_action, close_doors, has_actor_at, initial_board,
    new_game, play, trapped, won,
};
use crate::level::{
    LevelErrorView, LevelView, all_digits, cell_actor, cell_tile, first_invalid_from, grid_actors,
    grid_stones, grid_tiles, header_indices, in_bounds, is_blank, is_digit, is_level_name,
    lemma_line_end, line_end, lines_from, row_actors, row_stones, rows_error, section_rows,
    strip_cr, strip_crs, trim_end, trim_start, levels_from, objects_apart, parse_levels_spec,
    section_level, text_lines, trim,
};
use crate::render::{cell_char, render_text, row_text, rows_text};
use crate::text::is_space;
use crate::types::{
    Action, ActionResult, Actor, ActorKind, Direction, Pos, Tile, action_symbol, opposite_spec,
    step_spec,
};

verus! {

/// An action that changed the game is taken back by one undo: the game is
/// again exactly as it was, history and action sequence included.
pub proof fn law_undo_reverts(lv: LevelView, g: GameView, a: Action)
    requires
        a != Action::Undo,
        apply_action(lv, g, a).1 != ActionResult::NoEffect,
    ensures
        apply_action(lv, apply_action(lv, g, a).0, Action::Undo) == (g, ActionResult::Undone),
{
    let g1 = apply_action(lv, g, a).0;
    assert(g1.history.drop_last() =~= g.history);
    assert(g1.actions.take(g.actions.len() as int) =~= g.actions);
    assert(apply_action(lv, g1, Action::Undo).0 =~= g);
}

/// An action that reports no effect leaves the game as it was.
pub proof fn law_no_effect_changes_nothing(lv: LevelView, g: GameView, a: Action)
    requires
        apply_action(lv, g, a).1 == ActionResult::NoEffect,
    ensures
        apply_action(lv, g, a).0 == g,
{
}

/// An action that reports an effect records one more step in the history,
/// except undo, which takes one away.
pub proof fn law_history_length(lv: LevelView, g: GameView, a: Action)
    ensures
        apply_action(lv, g, a).1 == ActionResult::Undone ==> apply_action(lv, g, a).0.history.len() + 1 == g.history.len(),
        apply_action(lv, g, a).1 != ActionResult::Undone && apply_action(lv, g, a).1 != ActionResult::NoEffect
            ==> apply_action(lv, g, a).0.history.len() == g.history.len() + 1,
{
}

/// A trapped actor cannot move: moving it has no effect in any direction.
pub proof fn law_trapped_actor_cannot_move(lv: LevelView, g: GameView, d: Direction)
    requires
        trapped(lv, g.board, g.selected as int),
    ensures
        apply_action(lv, g, Action::Move(d)) == (g, ActionResult::NoEffect),
{
}

/// The trigger action never has an effect.
pub proof fn law_trigger_has_no_effect(lv: LevelView, g: GameView)
    ensures
        apply_action(lv, g, Action::Trigger) == (g, ActionResult::NoEffect),
{
}

/// Undo with nothing to undo has no effect.
pub proof fn law_undo_at_start_has_no_effect(lv: LevelView)
    ensures
        apply_action(lv, new_game(lv), Action::Undo) == (new_game(lv), ActionResult::NoEffect),
{
}

/// The letter by which an action is recorded reads back as that action.
pub proof fn law_symbol_reads_back(a: Action)
    ensures
        parse_actions_spec(seq![action_symbol(a)]) == Ok::<Seq<Action>, ActionParseError>(seq![a]),
{
    let s = seq![action_symbol(a)];
    assert(parse_actions_upto(s, 0) == Ok::<Seq<Action>, ActionParseError>(seq![]));
    assert(seq![].push(a) =~= seq![a]);
}


// ---------------------------------------------------------------------------
// Replaying the action sequence.

/// The action that a recorded letter stands for.
pub open spec fn recorded_action(c: char) -> Action {
    if c == 'W' {
        Action::Move(Direction::Up)
    } else if c == 'S' {
        Action::Move(Direction::Down)
    } else if c == 'A' {
        Action::Move(Direction::Left)
    } else if c == 'D' {
        Action::Move(Direction::Right)
    } else if c == 'R' {
        Action::Reset
    } else {
        Action::SwitchActor
    }
}

/// A letter that an effective action other than undo leaves in the sequence.
pub open spec fn is_recorded_letter(c: char) -> bool {
    c == 'W' || c == 'S' || c == 'A' || c == 'D' || c == 'R' || c == 'C'
}

/// The board and selection saved at step `i`, or the current ones at the end.
pub open spec fn board_at(g: GameView, i: int) -> (Board, nat) {
    if i < g.history.len() {
        (g.history[i].board, g.history[i].selected)
    } else {
        (g.board, g.selected)
    }
}

/// The game as it stood before its `i`-th recorded action.
pub open spec fn game_at(g: GameView, i: int) -> GameView {
    GameView {
        board: board_at(g, i).0,
        selected: board_at(g, i).1,
        history: g.history.take(i),
        actions: g.actions.take(i),
    }
}

/// The history of `g` is the path that its recorded actions take from the start.
pub open spec fn consistent(lv: LevelView, g: GameView) -> bool {
    &&& g.actions.len() == g.history.len()
    &&& forall|i: int| 0 <= i < g.history.len() ==> (#[trigger] g.history[i]).action_len == i
    &&& forall|i: int| 0 <= i < g.actions.len() ==> is_recorded_letter(#[trigger] g.actions[i])
    &&& board_at(g, 0) == (initial_board(lv), 0nat)
    &&& forall|i: int|
        0 <= i < g.history.len() ==> apply_action(lv, game_at(g, i), recorded_action(g.actions[i])).0 == game_at(g, i + 1)
            && #[trigger] apply_action(lv, game_at(g, i), recorded_action(g.actions[i])).1 != ActionResult::NoEffect
}

proof fn lemma_game_at_end(g: GameView)
    requires
        g.actions.len() == g.history.len(),
    ensures
        game_at(g, g.history.len() as int) == g,
{
    assert(g.history.take(g.history.len() as int) =~= g.history);
    assert(g.actions.take(g.actions.len() as int) =~= g.actions);
}

proof fn lemma_recorded_roundtrip(a: Action)
    requires
        a is Move || a is Reset || a is SwitchActor,
    ensures
        is_recorded_letter(action_symbol(a)),
        recorded_action(action_symbol(a)) == a,
{
}

/// Applying an action keeps the history consistent.
proof fn lemma_apply_consistent(lv: LevelView, g: GameView, a: Action)
    requires
        consistent(lv, g),
    ensures
        consistent(lv, apply_action(lv, g, a).0),
{
    let (g1, r) = apply_action(lv, g, a);
    let n = g.history.len() as int;
    if r == ActionResult::NoEffect {
        assert(g1 == g);
    } else if a == Action::Undo {
        assert(n > 0);
        assert(g1.history =~= g.history.take(n - 1));
        assert(g1.actions =~= g.actions.take(n - 1));
        assert forall|i: int| 0 <= i < g1.history.len() implies #[trigger] game_at(g1, i) == game_at(g, i) by {
            assert(g1.history.take(i) =~= g.history.take(i));
            assert(g1.actions.take(i) =~= g.actions.take(i));
        }
        assert(game_at(g1, n - 1) =~= game_at(g, n - 1)) by {
            assert(g1.history.take(n - 1) =~= g.history.take(n - 1));
            assert(g1.actions.take(n - 1) =~= g.actions.take(n - 1));
        }
        assert forall|i: int| 0 <= i < g1.history.len() implies apply_action(lv, game_at(g1, i), recorded_action(g1.actions[i])).0
            == game_at(g1, i + 1) && #[trigger] apply_action(lv, game_at(g1, i), recorded_action(g1.actions[i])).1
            != ActionResult::NoEffect by {
            assert(game_at(g1, i) == game_at(g, i));
            assert(game_at(g1, i + 1) == game_at(g, i + 1));
            assert(g1.actions[i] == g.actions[i]);
        }
        if n - 1 == 0 {
            assert(board_at(g1, 0) == board_at(g, 0));
        } else {
            assert(board_at(g1, 0) == board_at(g, 0));
        }
    } else {
        lemma_recorded_roundtrip(a);
        assert(a is Move || a is Reset || a is SwitchActor);
        assert(g1.history =~= g.history.push(SnapshotView { board: g.board, selected: g.selected, action_len: g.actions.len() }));
        assert(g1.actions =~= g.actions.push(action_symbol(a)));
        lemma_game_at_end(g);
        lemma_game_at_end(g1);
        assert forall|i: int| 0 <= i <= n implies #[trigger] game_at(g1, i) == game_at(g, i) by {
            assert(g1.history.take(i) =~= g.history.take(i));
            assert(g1.actions.take(i) =~= g.actions.take(i));
        }
        assert forall|i: int| 0 <= i < g1.history.len() implies apply_action(lv, game_at(g1, i), recorded_action(g1.actions[i])).0
            == game_at(g1, i + 1) && #[trigger] apply_action(lv, game_at(g1, i), recorded_action(g1.actions[i])).1
            != ActionResult::NoEffect by {
            if i < n {
                assert(game_at(g1, i) == game_at(g, i));
                assert(game_at(g1, i + 1) == game_at(g, i + 1));
                assert(g1.actions[i] == g.actions[i]);
            } else {
                assert(game_at(g1, i) == g);
                assert(g1.actions[i] == action_symbol(a));
            }
        }
        assert forall|i: int| 0 <= i < g1.actions.len() implies is_recorded_letter(#[trigger] g1.actions[i]) by {
            if i < n {
                assert(g1.actions[i] == g.actions[i]);
            }
        }
        assert forall|i: int| 0 <= i < g1.history.len() implies (#[trigger] g1.history[i]).action_len == i by {
            if i < n {
                assert(g1.history[i] == g.history[i]);
            }
        }
        assert(board_at(g1, 0) == board_at(g, 0));
    }
}

proof fn lemma_play_consistent(lv: LevelView, acts: Seq<Action>)
    ensures
        consistent(lv, play(lv, acts)),
    decreases acts.len(),
{
    if acts.len() == 0 {
    } else {
        lemma_play_consistent(lv, acts.drop_last());
        lemma_apply_consistent(lv, play(lv, acts.drop_last()), acts.last());
    }
}

/// The actions that a consistent history recorded.
pub open spec fn recorded_actions(g: GameView) -> Seq<Action> {
    g.actions.map_values(|c: char| recorded_action(c))
}

proof fn lemma_replay_prefix(lv: LevelView, g: GameView, k: int)
    requires
        consistent(lv, g),
        0 <= k <= g.history.len(),
    ensures
        play(lv, recorded_actions(g).take(k)) == game_at(g, k),
    decreases k,
{
    if k == 0 {
        assert(recorded_actions(g).take(0) =~= seq![]);
        assert(game_at(g, 0) =~= new_game(lv));
    } else {
        lemma_replay_prefix(lv, g, k - 1);
        assert(recorded_actions(g).take(k).drop_last() =~= recorded_actions(g).take(k - 1));
        assert(recorded_actions(g).take(k).last() == recorded_action(g.actions[k - 1]));
        assert(apply_action(lv, game_at(g, k - 1), recorded_action(g.actions[k - 1])).1 != ActionResult::NoEffect);
    }
}

proof fn lemma_recorded_letters_parse(s: Seq<char>, n: int)
    requires
        0 <= n <= s.len(),
        forall|i: int| 0 <= i < s.len() ==> is_recorded_letter(#[trigger] s[i]),
    ensures
        parse_actions_upto(s, n) == Ok::<Seq<Action>, ActionParseError>(s.take(n).map_values(|c: char| recorded_action(c))),
    decreases n,
{
    if n > 0 {
        lemma_recorded_letters_parse(s, n - 1);
        assert(is_recorded_letter(s[n - 1]));
        assert(s.take(n).map_values(|c: char| recorded_action(c)) =~= s.take(n - 1).map_values(
            |c: char| recorded_action(c),
        ).push(recorded_action(s[n - 1])));
    } else {
        assert(s.take(0).map_values(|c: char| recorded_action(c)) =~= seq![]);
    }
}

/// The action sequence of a game replays it: read back and played from the
/// start of the level, it leads to the very same game.
pub proof fn law_action_sequence_replays(lv: LevelView, acts: Seq<Action>)
    ensures
        ({
            let g = play(lv, acts);
            &&& parse_actions_spec(g.actions) == Ok::<Seq<Action>, ActionParseError>(recorded_actions(g))
            &&& play(lv, recorded_actions(g)) == g
        }),
{
    let g = play(lv, acts);
    lemma_play_consistent(lv, acts);
    lemma_replay_prefix(lv, g, g.history.len() as int);
    lemma_game_at_end(g);
    assert(recorded_actions(g).take(g.history.len() as int) =~= recorded_actions(g));
    lemma_recorded_letters_parse(g.actions, g.actions.len() as int);
    assert(g.actions.take(g.actions.len() as int) =~= g.actions);
}


// ---------------------------------------------------------------------------
// The cast of a level.

/// `actors` are the level's actors, in the same order and of the same kinds.
pub open spec fn same_cast(lv: LevelView, actors: Seq<Actor>) -> bool {
    &&& actors.len() == lv.actors.len()
    &&& forall|i: int| 0 <= i < actors.len() ==> (#[trigger] actors[i]).kind == lv.actors[i].kind
}

pub open spec fn cast_kept(lv: LevelView, g: GameView) -> bool {
    &&& same_cast(lv, g.board.actors)
    &&& forall|i: int| 0 <= i < g.history.len() ==> same_cast(lv, (#[trigger] g.history[i]).board.actors)
}

proof fn lemma_with_actor_at_cast(lv: LevelView, b: Board, i: int, p: Pos)
    requires
        same_cast(lv, b.actors),
        0 <= i < b.actors.len(),
    ensures
        same_cast(lv, with_actor_at(b, i, p).actors),
{
}

proof fn lemma_move_occupant_cast(lv: LevelView, b: Board, from: Pos, to: Pos)
    requires
        same_cast(lv, b.actors),
    ensures
        same_cast(lv, move_occupant(b, from, to).actors),
{
    match occupant(b, from) {
        Some(Occupant::Actor(i)) => {
            crate::board::lemma_actor_index_bound(b.actors, from, 0);
        },
        _ => {},
    }
}

proof fn lemma_actor_move_cast(lv: LevelView, b: Board, sel: int, d: Direction)
    requires
        same_cast(lv, b.actors),
        0 <= sel < b.actors.len(),
        actor_move(lv, b, sel, d) is Some,
    ensures
        same_cast(lv, actor_move(lv, b, sel, d)->0.actors),
{
    let r = actor_move(lv, b, sel, d)->0;
    match b.actors[sel].kind {
        ActorKind::Warrior => {
            let next = step_spec(b.actors[sel].pos, d)->0;
            if crate::board::occupied(b, next) {
                let last = crate::board::chain_end(lv, b, d, next)->0;
                let pb = push_segment(b, next, last, d);
                assert(same_cast(lv, pb.actors));
                lemma_with_actor_at_cast(lv, pb, sel, next);
            }
        },
        ActorKind::Thief => {
            let old = b.actors[sel].pos;
            let next = step_spec(old, d)->0;
            let moved = with_actor_at(b, sel, next);
            lemma_with_actor_at_cast(lv, b, sel, next);
            match step_spec(old, opposite_spec(d)) {
                Some(behind) => {
                    lemma_move_occupant_cast(lv, moved, behind, old);
                },
                None => {},
            }
        },
        ActorKind::Wizard => {
            let old = b.actors[sel].pos;
            match first_object_ahead(lv, b, d, old) {
                Some(t) => {
                    lemma_move_occupant_cast(lv, b, t, old);
                    lemma_with_actor_at_cast(lv, move_occupant(b, t, old), sel, t);
                },
                None => {},
            }
        },
    }
}

/// The selected actor is one of the level's actors.
pub open spec fn selection_ok(g: GameView) -> bool {
    &&& g.selected < g.board.actors.len()
    &&& forall|i: int| 0 <= i < g.history.len() ==> (#[trigger] g.history[i]).selected < g.history[i].board.actors.len()
}

proof fn lemma_apply_cast(lv: LevelView, g: GameView, a: Action)
    requires
        cast_kept(lv, g),
        selection_ok(g),
        lv.actors.len() > 0,
    ensures
        cast_kept(lv, apply_action(lv, g, a).0),
        selection_ok(apply_action(lv, g, a).0),
{
    let (g1, r) = apply_action(lv, g, a);
    if r == ActionResult::NoEffect {
    } else {
        match a {
            Action::Undo => {
                assert forall|i: int| 0 <= i < g1.history.len() implies same_cast(lv, (#[trigger] g1.history[i]).board.actors) by {
                    assert(g1.history[i] == g.history[i]);
                }
                assert forall|i: int| 0 <= i < g1.history.len() implies (#[trigger] g1.history[i]).selected < g1.history[i].board.actors.len() by {
                    assert(g1.history[i] == g.history[i]);
                }
                assert(same_cast(lv, g.history[g.history.len() - 1].board.actors));
            },
            Action::Move(d) => {
                let b = actor_move(lv, g.board, g.selected as int, d)->0;
                lemma_actor_move_cast(lv, g.board, g.selected as int, d);
                assert(same_cast(lv, close_doors(lv, crate::board::doors_open(lv, g.board), b).actors));
                assert forall|i: int| 0 <= i < g1.history.len() implies same_cast(lv, (#[trigger] g1.history[i]).board.actors) by {
                    if i < g.history.len() {
                        assert(g1.history[i] == g.history[i]);
                    }
                }
                assert forall|i: int| 0 <= i < g1.history.len() implies (#[trigger] g1.history[i]).selected < g1.history[i].board.actors.len() by {
                    if i < g.history.len() {
                        assert(g1.history[i] == g.history[i]);
                    }
                }
            },
            _ => {
                assert forall|i: int| 0 <= i < g1.history.len() implies same_cast(lv, (#[trigger] g1.history[i]).board.actors) by {
                    if i < g.history.len() {
                        assert(g1.history[i] == g.history[i]);
                    }
                }
                assert forall|i: int| 0 <= i < g1.history.len() implies (#[trigger] g1.history[i]).selected < g1.history[i].board.actors.len() by {
                    if i < g.history.len() {
                        assert(g1.history[i] == g.history[i]);
                    }
                }
            },
        }
    }
}

/// Whatever is played, the level keeps its actors: as many, of the same kinds,
/// in the same order, and the selected one is one of them.
pub proof fn law_cast_is_kept(lv: LevelView, acts: Seq<Action>)
    requires
        lv.wf(),
    ensures
        same_cast(lv, play(lv, acts).board.actors),
        play(lv, acts).selected < lv.actors.len(),
{
    lemma_play_cast(lv, acts);
}

proof fn lemma_play_cast(lv: LevelView, acts: Seq<Action>)
    requires
        lv.wf(),
    ensures
        cast_kept(lv, play(lv, acts)),
        selection_ok(play(lv, acts)),
    decreases acts.len(),
{
    if acts.len() > 0 {
        lemma_play_cast(lv, acts.drop_last());
        lemma_apply_cast(lv, play(lv, acts.drop_last()), acts.last());
    }
}


// ---------------------------------------------------------------------------
// Level collections.

proof fn lemma_levels_from_items(lines: Seq<Seq<char>>, starts: Seq<int>, k: int, ls: Seq<LevelView>)
    requires
        0 <= k <= starts.len(),
        levels_from(lines, starts, k) == Ok::<Seq<LevelView>, LevelErrorView>(ls),
    ensures
        ls.len() == starts.len() - k,
        forall|i: int| 0 <= i < ls.len() ==> section_level(lines, starts, k + i) == Ok::<LevelView, LevelErrorView>(#[trigger] ls[i]),
    decreases starts.len() - k,
{
    if k < starts.len() {
        let l = section_level(lines, starts, k)->Ok_0;
        let rest = levels_from(lines, starts, k + 1)->Ok_0;
        lemma_levels_from_items(lines, starts, k + 1, rest);
        assert(ls == seq![l] + rest);
        assert forall|i: int| 0 <= i < ls.len() implies section_level(lines, starts, k + i) == Ok::<LevelView, LevelErrorView>(#[trigger] ls[i]) by {
            if i > 0 {
                assert(ls[i] == rest[i - 1]);
                assert(section_level(lines, starts, (k + 1) + (i - 1)) == Ok::<LevelView, LevelErrorView>(rest[i - 1]));
            }
        }
    }
}

/// The levels of a collection that reads without error have distinct names.
pub proof fn law_level_names_distinct(input: Seq<char>)
    requires
        parse_levels_spec(input) is Ok,
    ensures
        ({
            let ls = parse_levels_spec(input)->Ok_0;
            forall|i: int, j: int| 0 <= i < j < ls.len() ==> (#[trigger] ls[i]).name != (#[trigger] ls[j]).name
        }),
{
    let lines = text_lines(input);
    let starts = header_indices(lines, lines.len() as int);
    let ls = parse_levels_spec(input)->Ok_0;
    lemma_levels_from_items(lines, starts, 0, ls);
    assert forall|i: int, j: int| 0 <= i < j < ls.len() implies (#[trigger] ls[i]).name != (#[trigger] ls[j]).name by {
        assert(section_level(lines, starts, 0 + i) == Ok::<LevelView, LevelErrorView>(ls[i]));
        assert(section_level(lines, starts, 0 + j) == Ok::<LevelView, LevelErrorView>(ls[j]));
        assert(ls[i].name == trim(lines[starts[i]]));
        assert(ls[j].name == trim(lines[starts[j]]));
        if ls[i].name == ls[j].name {
            assert(exists|t: int| 0 <= t < j && trim(lines[#[trigger] starts[t]]) == trim(lines[starts[j]]));
        }
    }
}


// ---------------------------------------------------------------------------
// One object per cell.

/// No two objects of the board share a cell.
pub open spec fn apart(b: Board) -> bool {
    objects_apart(b.actors, b.stones)
}

proof fn lemma_actor_index_none(actors: Seq<Actor>, p: Pos, i: int)
    requires
        0 <= i,
    ensures
        (actor_index_from(actors, p, i) is None) <==> (forall|j: int| i <= j < actors.len() ==> (#[trigger] actors[j]).pos != p),
    decreases actors.len() - i,
{
    if i < actors.len() {
        lemma_actor_index_none(actors, p, i + 1);
    }
}

proof fn lemma_occupied(b: Board, p: Pos)
    ensures
        occupied(b, p) <==> (b.stones.contains(p) || has_actor_at(b, p)),
{
    lemma_actor_index_none(b.actors, p, 0);
}

proof fn lemma_step_into_empty(b: Board, i: int, p: Pos)
    requires
        apart(b),
        0 <= i < b.actors.len(),
        !occupied(b, p),
    ensures
        apart(with_actor_at(b, i, p)),
        !occupied(with_actor_at(b, i, p), b.actors[i].pos),
{
    lemma_occupied(b, p);
    let b1 = with_actor_at(b, i, p);
    let old = b.actors[i].pos;
    assert forall|x: int, y: int|
        0 <= x < b1.actors.len() && 0 <= y < b1.actors.len() && x != y implies (#[trigger] b1.actors[x]).pos
            != (#[trigger] b1.actors[y]).pos by {
        if x == i {
            assert(b.actors[y].pos != p);
        } else if y == i {
            assert(b.actors[x].pos != p);
        } else {
            assert(b.actors[x].pos != b.actors[y].pos);
        }
    }
    assert forall|x: int| 0 <= x < b1.actors.len() implies !b1.stones.contains((#[trigger] b1.actors[x]).pos) by {
        if x != i {
            assert(!b.stones.contains(b.actors[x].pos));
        }
    }
    lemma_occupied(b1, old);
    assert(!b.stones.contains(old));
    assert forall|x: int| 0 <= x < b1.actors.len() implies (#[trigger] b1.actors[x]).pos != old by {
        if x != i {
            assert(b.actors[x].pos != b.actors[i].pos);
        } else {
            assert(b.actors[i].pos != p) by {
                assert(has_actor_at(b, b.actors[i].pos));
            }
        }
    }
}

proof fn lemma_move_to_empty(b: Board, from: Pos, to: Pos)
    requires
        apart(b),
        occupied(b, from),
        !occupied(b, to),
    ensures
        apart(move_occupant(b, from, to)),
{
    lemma_occupied(b, to);
    match occupant(b, from) {
        Some(Occupant::Stone) => {
            let b1 = move_occupant(b, from, to);
            assert forall|x: int| 0 <= x < b1.actors.len() implies !b1.stones.contains((#[trigger] b1.actors[x]).pos) by {
                assert(!b.stones.contains(b.actors[x].pos));
                assert(b.actors[x].pos != to);
            }
        },
        Some(Occupant::Actor(i)) => {
            crate::board::lemma_actor_index_bound(b.actors, from, 0);
            lemma_step_into_empty(b, i as int, to);
        },
        None => {},
    }
}

proof fn lemma_wizard_swap_apart(b: Board, sel: int, t: Pos)
    requires
        apart(b),
        0 <= sel < b.actors.len(),
        occupied(b, t),
        t != b.actors[sel].pos,
    ensures
        apart(with_actor_at(move_occupant(b, t, b.actors[sel].pos), sel, t)),
{
    let old = b.actors[sel].pos;
    let b1 = move_occupant(b, t, old);
    let b2 = with_actor_at(b1, sel, t);
    match occupant(b, t) {
        Some(Occupant::Stone) => {
            lemma_actor_index_none(b.actors, t, 0);
            assert forall|x: int, y: int|
                0 <= x < b2.actors.len() && 0 <= y < b2.actors.len() && x != y implies (#[trigger] b2.actors[x]).pos
                    != (#[trigger] b2.actors[y]).pos by {
                if x == sel {
                    assert(b.actors[y].pos != t);
                } else if y == sel {
                    assert(b.actors[x].pos != t);
                } else {
                    assert(b.actors[x].pos != b.actors[y].pos);
                }
            }
            assert forall|x: int| 0 <= x < b2.actors.len() implies !b2.stones.contains((#[trigger] b2.actors[x]).pos) by {
                if x != sel {
                    assert(!b.stones.contains(b.actors[x].pos));
                    assert(b.actors[x].pos != old);
                }
            }
        },
        Some(Occupant::Actor(j)) => {
            crate::board::lemma_actor_index_bound(b.actors, t, 0);
            let j = j as int;
            assert(j != sel);
            assert forall|x: int, y: int|
                0 <= x < b2.actors.len() && 0 <= y < b2.actors.len() && x != y implies (#[trigger] b2.actors[x]).pos
                    != (#[trigger] b2.actors[y]).pos by {
                if x != sel && x != j && y != sel && y != j {
                    assert(b.actors[x].pos != b.actors[y].pos);
                } else if x == sel || x == j {
                    if y != sel && y != j {
                        assert(b.actors[y].pos != b.actors[sel].pos);
                        assert(b.actors[y].pos != b.actors[j].pos);
                    }
                } else {
                    assert(b.actors[x].pos != b.actors[sel].pos);
                    assert(b.actors[x].pos != b.actors[j].pos);
                }
            }
            assert forall|x: int| 0 <= x < b2.actors.len() implies !b2.stones.contains((#[trigger] b2.actors[x]).pos) by {
                if x == sel {
                    assert(!b.stones.contains(b.actors[j].pos));
                } else if x == j {
                    assert(!b.stones.contains(b.actors[sel].pos));
                } else {
                    assert(!b.stones.contains(b.actors[x].pos));
                }
            }
        },
        None => {},
    }
}

/// `l` lies ahead of `a` in `d`, on the same row or column.
pub open spec fn ahead(a: Pos, l: Pos, d: Direction) -> bool {
    match d {
        Direction::Right => a.y == l.y && a.x <= l.x,
        Direction::Left => a.y == l.y && l.x <= a.x,
        Direction::Down => a.x == l.x && a.y <= l.y,
        Direction::Up => a.x == l.x && l.y <= a.y,
    }
}

proof fn lemma_chain_end_shape(lv: LevelView, b: Board, d: Direction, c: Pos)
    requires
        chain_end(lv, b, d, c) is Some,
    ensures
        ahead(c, chain_end(lv, b, d, c)->0, d),
        step_spec(chain_end(lv, b, d, c)->0, d) is Some,
        !occupied(b, step_spec(chain_end(lv, b, d, c)->0, d)->0),
    decreases edge_distance(c, d),
{
    let after = step_spec(c, d)->0;
    lemma_step_nearer_edge(c, d);
    if occupied(b, after) {
        lemma_chain_end_shape(lv, b, d, after);
    }
}

proof fn lemma_push_injective(b: Board, a: Pos, l: Pos, d: Direction, p: Pos, q: Pos)
    requires
        ahead(a, l, d),
        step_spec(l, d) is Some,
        !occupied(b, step_spec(l, d)->0),
        occupied(b, p),
        occupied(b, q),
        p != q,
    ensures
        pushed(a, l, d, p) != pushed(a, l, d, q),
{
    let after = step_spec(l, d)->0;
    if in_segment(a, l, p) && !in_segment(a, l, q) {
        assert(pushed(a, l, d, p) == step_spec(p, d)->0);
        if step_spec(p, d)->0 == q {
            if p == l {
                assert(q == after);
            } else {
                assert(in_segment(a, l, q));
            }
        }
    } else if in_segment(a, l, q) && !in_segment(a, l, p) {
        if step_spec(q, d)->0 == p {
            if q == l {
                assert(p == after);
            } else {
                assert(in_segment(a, l, p));
            }
        }
    }
}

proof fn lemma_push_apart(b: Board, a: Pos, l: Pos, d: Direction, sel: int)
    requires
        apart(b),
        ahead(a, l, d),
        step_spec(l, d) is Some,
        !occupied(b, step_spec(l, d)->0),
        0 <= sel < b.actors.len(),
        step_spec(b.actors[sel].pos, d) == Some(a),
    ensures
        apart(with_actor_at(push_segment(b, a, l, d), sel, a)),
{
    let pb = push_segment(b, a, l, d);
    let b2 = with_actor_at(pb, sel, a);
    let f = |p: Pos| pushed(a, l, d, p);
    assert forall|x: int| 0 <= x < b.actors.len() implies occupied(b, (#[trigger] b.actors[x]).pos) by {
        lemma_occupied(b, b.actors[x].pos);
    }
    assert forall|p: Pos| b.stones.contains(p) implies #[trigger] occupied(b, p) by {
        lemma_occupied(b, p);
    }
    // Nothing lands on `a`.
    assert forall|p: Pos| pushed(a, l, d, p) == a implies !in_segment(a, l, p) && p != a by {
        if in_segment(a, l, p) {
            assert(step_spec(p, d)->0 == a);
        }
    }
    assert(!in_segment(a, l, b.actors[sel].pos));
    assert forall|x: int, y: int|
        0 <= x < b2.actors.len() && 0 <= y < b2.actors.len() && x != y implies (#[trigger] b2.actors[x]).pos
            != (#[trigger] b2.actors[y]).pos by {
        if x == sel {
            assert(pushed(a, l, d, b.actors[y].pos) != a);
        } else if y == sel {
            assert(pushed(a, l, d, b.actors[x].pos) != a);
        } else {
            lemma_push_injective(b, a, l, d, b.actors[x].pos, b.actors[y].pos);
        }
    }
    assert forall|x: int| 0 <= x < b2.actors.len() implies !b2.stones.contains((#[trigger] b2.actors[x]).pos) by {
        let q = b2.actors[x].pos;
        if b2.stones.contains(q) {
            if b.stones.filter(|p: Pos| !in_segment(a, l, p)).contains(q) {
                if x == sel {
                    assert(q == a);
                } else {
                    assert(q == pushed(a, l, d, b.actors[x].pos));
                    assert(pushed(a, l, d, q) == q);
                    assert(b.actors[x].pos != q);
                    lemma_push_injective(b, a, l, d, q, b.actors[x].pos);
                }
            } else {
                assert(b.stones.filter(|p: Pos| in_segment(a, l, p)).map(f).contains(q));
                let inside = b.stones.filter(|p: Pos| in_segment(a, l, p));
                let s0 = choose|s0: Pos| #[trigger] inside.contains(s0) && f(s0) == q;
                if x == sel {
                    assert(pushed(a, l, d, s0) == a);
                } else {
                    assert(s0 != b.actors[x].pos);
                    lemma_push_injective(b, a, l, d, s0, b.actors[x].pos);
                }
            }
        }
    }
}

proof fn lemma_actor_move_apart(lv: LevelView, b: Board, sel: int, d: Direction)
    requires
        apart(b),
        0 <= sel < b.actors.len(),
        actor_move(lv, b, sel, d) is Some,
    ensures
        apart(actor_move(lv, b, sel, d)->0),
{
    let old = b.actors[sel].pos;
    match b.actors[sel].kind {
        ActorKind::Warrior => {
            let next = step_spec(old, d)->0;
            if occupied(b, next) {
                lemma_chain_end_shape(lv, b, d, next);
                let last = chain_end(lv, b, d, next)->0;
                lemma_push_apart(b, next, last, d, sel);
            } else {
                lemma_step_into_empty(b, sel, next);
            }
        },
        ActorKind::Thief => {
            let next = step_spec(old, d)->0;
            let moved = with_actor_at(b, sel, next);
            lemma_step_into_empty(b, sel, next);
            match step_spec(old, opposite_spec(d)) {
                Some(behind) => {
                    if occupied(moved, behind) {
                        lemma_move_to_empty(moved, behind, old);
                    }
                },
                None => {},
            }
        },
        ActorKind::Wizard => {
            match first_object_ahead(lv, b, d, old) {
                Some(t) => {
                    lemma_first_object_ahead(lv, b, d, old);
                    lemma_wizard_swap_apart(b, sel, t);
                },
                None => {
                    let next = step_spec(old, d)->0;
                    lemma_step_into_empty(b, sel, next);
                },
            }
        },
    }
}

proof fn lemma_first_object_ahead(lv: LevelView, b: Board, d: Direction, c: Pos)
    requires
        first_object_ahead(lv, b, d, c) is Some,
    ensures
        occupied(b, first_object_ahead(lv, b, d, c)->0),
        first_object_ahead(lv, b, d, c)->0 != c,
        ahead(c, first_object_ahead(lv, b, d, c)->0, d),
    decreases edge_distance(c, d),
{
    let next = step_spec(c, d)->0;
    lemma_step_nearer_edge(c, d);
    if !occupied(b, next) {
        lemma_first_object_ahead(lv, b, d, next);
    }
}


pub open spec fn apart_kept(g: GameView) -> bool {
    &&& apart(g.board)
    &&& forall|i: int| 0 <= i < g.history.len() ==> apart((#[trigger] g.history[i]).board)
}

proof fn lemma_apply_apart(lv: LevelView, g: GameView, a: Action)
    requires
        lv.wf(),
        apart_kept(g),
        selection_ok(g),
    ensures
        apart_kept(apply_action(lv, g, a).0),
{
    let (g1, r) = apply_action(lv, g, a);
    if r == ActionResult::NoEffect {
    } else {
        match a {
            Action::Undo => {
                assert forall|i: int| 0 <= i < g1.history.len() implies apart((#[trigger] g1.history[i]).board) by {
                    assert(g1.history[i] == g.history[i]);
                }
                assert(apart(g.history[g.history.len() - 1].board));
            },
            Action::Move(d) => {
                let b = actor_move(lv, g.board, g.selected as int, d)->0;
                lemma_actor_move_apart(lv, g.board, g.selected as int, d);
                let c = close_doors(lv, crate::board::doors_open(lv, g.board), b);
                assert(apart(c));
                assert forall|i: int| 0 <= i < g1.history.len() implies apart((#[trigger] g1.history[i]).board) by {
                    if i < g.history.len() {
                        assert(g1.history[i] == g.history[i]);
                    }
                }
            },
            _ => {
                assert forall|i: int| 0 <= i < g1.history.len() implies apart((#[trigger] g1.history[i]).board) by {
                    if i < g.history.len() {
                        assert(g1.history[i] == g.history[i]);
                    }
                }
            },
        }
    }
}

proof fn lemma_play_apart(lv: LevelView, acts: Seq<Action>)
    requires
        lv.wf(),
    ensures
        apart_kept(play(lv, acts)),
        selection_ok(play(lv, acts)),
    decreases acts.len(),
{
    if acts.len() > 0 {
        lemma_play_apart(lv, acts.drop_last());
        lemma_play_cast(lv, acts.drop_last());
        lemma_apply_apart(lv, play(lv, acts.drop_last()), acts.last());
        lemma_apply_cast(lv, play(lv, acts.drop_last()), acts.last());
    } else {
        lemma_play_cast(lv, acts);
    }
}

/// Whatever is played, no two objects ever share a cell: no two actors, and
/// no actor and a stone.
pub proof fn law_one_object_per_cell(lv: LevelView, acts: Seq<Action>)
    requires
        lv.wf(),
    ensures
        apart(play(lv, acts).board),
{
    lemma_play_apart(lv, acts);
}


// ---------------------------------------------------------------------------
// Where objects stand.

/// Every actor stands on a cell that is no wall; every stone on a cell that an
/// object may enter (no wall, and a door only while the doors are open); and
/// there are no more stones than the level starts with.
pub open spec fn placed(lv: LevelView, b: Board) -> bool {
    &&& forall|i: int| 0 <= i < b.actors.len() ==> lv.tile_at((#[trigger] b.actors[i]).pos) != Tile::Wall
    &&& forall|p: Pos| #[trigger] b.stones.contains(p) ==> passable(lv, b, p)
    &&& b.stones.finite()
    &&& b.stones.len() <= lv.stones.len()
}

pub open spec fn placed_kept(lv: LevelView, g: GameView) -> bool {
    &&& placed(lv, g.board)
    &&& forall|i: int| 0 <= i < g.history.len() ==> placed(lv, (#[trigger] g.history[i]).board)
}

/// `b1`, a board that a move made from `b0`: as many actors, none on a wall,
/// each stone on a cell that could be entered on `b0`, and no more stones.
pub open spec fn moved_within(lv: LevelView, b0: Board, b1: Board) -> bool {
    &&& b1.actors.len() == b0.actors.len()
    &&& forall|i: int| 0 <= i < b1.actors.len() ==> lv.tile_at((#[trigger] b1.actors[i]).pos) != Tile::Wall
    &&& forall|p: Pos| #[trigger] b1.stones.contains(p) ==> passable(lv, b0, p)
    &&& b1.stones.finite()
    &&& b1.stones.len() <= b0.stones.len()
}

proof fn lemma_chain_passable(lv: LevelView, b: Board, d: Direction, c: Pos)
    requires
        chain_end(lv, b, d, c) is Some,
    ensures
        forall|p: Pos| #[trigger] in_segment(c, chain_end(lv, b, d, c)->0, p) ==> step_spec(p, d) is Some
            && passable(lv, b, step_spec(p, d)->0),
    decreases edge_distance(c, d),
{
    let after = step_spec(c, d)->0;
    lemma_step_nearer_edge(c, d);
    let l = chain_end(lv, b, d, c)->0;
    if occupied(b, after) {
        lemma_chain_passable(lv, b, d, after);
        lemma_chain_end_shape(lv, b, d, after);
        assert forall|p: Pos| #[trigger] in_segment(c, l, p) implies step_spec(p, d) is Some && passable(
            lv,
            b,
            step_spec(p, d)->0,
        ) by {
            if p != c {
                assert(in_segment(after, l, p));
            }
        }
    } else {
        assert forall|p: Pos| #[trigger] in_segment(c, l, p) implies step_spec(p, d) is Some && passable(
            lv,
            b,
            step_spec(p, d)->0,
        ) by {
            assert(p == c);
        }
    }
}

proof fn lemma_first_object_passable(lv: LevelView, b: Board, d: Direction, c: Pos)
    requires
        first_object_ahead(lv, b, d, c) is Some,
    ensures
        passable(lv, b, first_object_ahead(lv, b, d, c)->0),
    decreases edge_distance(c, d),
{
    let next = step_spec(c, d)->0;
    lemma_step_nearer_edge(c, d);
    if !occupied(b, next) {
        lemma_first_object_passable(lv, b, d, next);
    }
}

proof fn lemma_with_actor_within(lv: LevelView, b0: Board, b: Board, i: int, p: Pos)
    requires
        moved_within(lv, b0, b),
        0 <= i < b.actors.len(),
        lv.tile_at(p) != Tile::Wall,
    ensures
        moved_within(lv, b0, with_actor_at(b, i, p)),
{
    let b1 = with_actor_at(b, i, p);
    assert forall|j: int| 0 <= j < b1.actors.len() implies lv.tile_at((#[trigger] b1.actors[j]).pos) != Tile::Wall by {
        if j != i {
            assert(b1.actors[j] == b.actors[j]);
        }
    }
}

proof fn lemma_move_occupant_within(lv: LevelView, b0: Board, b: Board, from: Pos, to: Pos)
    requires
        moved_within(lv, b0, b),
        passable(lv, b0, to),
    ensures
        moved_within(lv, b0, move_occupant(b, from, to)),
{
    match occupant(b, from) {
        Some(Occupant::Stone) => {
            let s = b.stones.remove(from).insert(to);
            assert forall|p: Pos| #[trigger] s.contains(p) implies passable(lv, b0, p) by {
                if p != to {
                    assert(b.stones.contains(p));
                }
            }
            assert(b.stones.remove(from).len() == b.stones.len() - 1);
        },
        Some(Occupant::Actor(i)) => {
            crate::board::lemma_actor_index_bound(b.actors, from, 0);
            lemma_with_actor_within(lv, b0, b, i as int, to);
        },
        None => {},
    }
}

proof fn lemma_push_within(lv: LevelView, b: Board, a: Pos, l: Pos, d: Direction)
    requires
        placed(lv, b),
        forall|p: Pos| #[trigger] in_segment(a, l, p) ==> step_spec(p, d) is Some && passable(
            lv,
            b,
            step_spec(p, d)->0,
        ),
    ensures
        moved_within(lv, b, push_segment(b, a, l, d)),
{
    let pb = push_segment(b, a, l, d);
    let f = |p: Pos| pushed(a, l, d, p);
    let outside = b.stones.filter(|p: Pos| !in_segment(a, l, p));
    let inside = b.stones.filter(|p: Pos| in_segment(a, l, p));
    assert forall|j: int| 0 <= j < pb.actors.len() implies lv.tile_at((#[trigger] pb.actors[j]).pos) != Tile::Wall by {
        let q = b.actors[j].pos;
        if in_segment(a, l, q) {
            assert(pb.actors[j].pos == step_spec(q, d)->0);
        } else {
            assert(pb.actors[j].pos == q);
        }
    }
    assert forall|p: Pos| #[trigger] pb.stones.contains(p) implies passable(lv, b, p) by {
        if !outside.contains(p) {
            assert(inside.map(f).contains(p));
            let s0 = choose|s0: Pos| #[trigger] inside.contains(s0) && f(s0) == p;
            assert(p == step_spec(s0, d)->0);
        }
    }
    b.stones.lemma_len_filter(|p: Pos| !in_segment(a, l, p));
    b.stones.lemma_len_filter(|p: Pos| in_segment(a, l, p));
    vstd::set_lib::lemma_map_size_bound(inside, inside.map(f), f);
    vstd::set_lib::lemma_len_union(outside, inside.map(f));
    assert(outside + inside =~= b.stones);
    vstd::set_lib::lemma_set_disjoint_lens(outside, inside);
}

proof fn lemma_actor_move_within(lv: LevelView, b: Board, sel: int, d: Direction)
    requires
        placed(lv, b),
        0 <= sel < b.actors.len(),
        !trapped(lv, b, sel),
        actor_move(lv, b, sel, d) is Some,
    ensures
        moved_within(lv, b, actor_move(lv, b, sel, d)->0),
{
    let old = b.actors[sel].pos;
    assert(moved_within(lv, b, b));
    assert(passable(lv, b, old));
    match b.actors[sel].kind {
        ActorKind::Warrior => {
            let next = step_spec(old, d)->0;
            if occupied(b, next) {
                lemma_chain_passable(lv, b, d, next);
                let last = chain_end(lv, b, d, next)->0;
                lemma_push_within(lv, b, next, last, d);
                lemma_with_actor_within(lv, b, push_segment(b, next, last, d), sel, next);
            } else {
                lemma_with_actor_within(lv, b, b, sel, next);
            }
        },
        ActorKind::Thief => {
            let next = step_spec(old, d)->0;
            let moved = with_actor_at(b, sel, next);
            lemma_with_actor_within(lv, b, b, sel, next);
            match step_spec(old, opposite_spec(d)) {
                Some(behind) => {
                    if occupied(moved, behind) {
                        lemma_move_occupant_within(lv, b, moved, behind, old);
                    }
                },
                None => {},
            }
        },
        ActorKind::Wizard => {
            match first_object_ahead(lv, b, d, old) {
                Some(t) => {
                    lemma_first_object_passable(lv, b, d, old);
                    lemma_move_occupant_within(lv, b, b, t, old);
                    lemma_with_actor_within(lv, b, move_occupant(b, t, old), sel, t);
                },
                None => {
                    let next = step_spec(old, d)->0;
                    lemma_with_actor_within(lv, b, b, sel, next);
                },
            }
        },
    }
}

proof fn lemma_close_doors_placed(lv: LevelView, b: Board, b1: Board)
    requires
        placed(lv, b),
        moved_within(lv, b, b1),
    ensures
        placed(lv, close_doors(lv, doors_open(lv, b), b1)),
{
    let c = close_doors(lv, doors_open(lv, b), b1);
    if doors_open(lv, b) && !doors_open(lv, b1) {
        b1.stones.lemma_len_filter(|p: Pos| lv.tile_at(p) != Tile::Door);
        assert forall|p: Pos| #[trigger] c.stones.contains(p) implies passable(lv, c, p) by {
            assert(b1.stones.contains(p));
        }
    } else {
        assert forall|p: Pos| #[trigger] c.stones.contains(p) implies passable(lv, c, p) by {
            assert(passable(lv, b, p));
        }
    }
}

proof fn lemma_start_placed(lv: LevelView)
    requires
        lv.wf(),
    ensures
        placed(lv, initial_board(lv)),
{
    let b = initial_board(lv);
    assert forall|p: Pos| #[trigger] b.stones.contains(p) implies passable(lv, b, p) by {
        let i = choose|i: int| 0 <= i < lv.stones.len() && lv.stones[i] == p;
        assert(lv.tile_at(lv.stones[i]) == Tile::Floor);
    }
    vstd::seq_lib::seq_to_set_is_finite(lv.stones);
    lv.stones.lemma_cardinality_of_set();
}

proof fn lemma_apply_placed(lv: LevelView, g: GameView, a: Action)
    requires
        lv.wf(),
        placed_kept(lv, g),
        selection_ok(g),
    ensures
        placed_kept(lv, apply_action(lv, g, a).0),
{
    let (g1, r) = apply_action(lv, g, a);
    if r == ActionResult::NoEffect {
    } else {
        match a {
            Action::Undo => {
                assert forall|i: int| 0 <= i < g1.history.len() implies placed(lv, (#[trigger] g1.history[i]).board) by {
                    assert(g1.history[i] == g.history[i]);
                }
                assert(placed(lv, g.history[g.history.len() - 1].board));
            },
            _ => {
                match a {
                    Action::Move(d) => {
                        lemma_actor_move_within(lv, g.board, g.selected as int, d);
                        lemma_close_doors_placed(lv, g.board, actor_move(lv, g.board, g.selected as int, d)->0);
                    },
                    Action::Reset => {
                        lemma_start_placed(lv);
                    },
                    _ => {},
                }
                assert forall|i: int| 0 <= i < g1.history.len() implies placed(lv, (#[trigger] g1.history[i]).board) by {
                    if i < g.history.len() {
                        assert(g1.history[i] == g.history[i]);
                    }
                }
            },
        }
    }
}

proof fn lemma_play_placed(lv: LevelView, acts: Seq<Action>)
    requires
        lv.wf(),
    ensures
        placed_kept(lv, play(lv, acts)),
    decreases acts.len(),
{
    if acts.len() > 0 {
        lemma_play_placed(lv, acts.drop_last());
        lemma_play_cast(lv, acts.drop_last());
        lemma_apply_placed(lv, play(lv, acts.drop_last()), acts.last());
    } else {
        lemma_start_placed(lv);
    }
}

/// Whatever is played, every actor and every stone stays on a cell of the map
/// that is no wall; a stone stands on a door only while the doors are open;
/// and there are never more stones than the level starts with.
pub proof fn law_objects_stay_placed(lv: LevelView, acts: Seq<Action>)
    requires
        lv.wf(),
    ensures
        ({
            let b = play(lv, acts).board;
            &&& forall|i: int| 0 <= i < b.actors.len() ==> in_bounds(lv.width, lv.height, (#[trigger] b.actors[i]).pos)
                && lv.tile_at(b.actors[i].pos) != Tile::Wall
            &&& forall|p: Pos| #[trigger] b.stones.contains(p) ==> in_bounds(lv.width, lv.height, p)
                && lv.tile_at(p) != Tile::Wall
            &&& forall|p: Pos| #[trigger] b.stones.contains(p) && lv.tile_at(p) == Tile::Door ==> doors_open(lv, b)
            &&& b.stones.finite()
            &&& b.stones.len() <= lv.stones.len()
        }),
{
    lemma_play_placed(lv, acts);
    let b = play(lv, acts).board;
    assert forall|p: Pos| #[trigger] b.stones.contains(p) implies in_bounds(lv.width, lv.height, p)
        && lv.tile_at(p) != Tile::Wall by {
        assert(passable(lv, b, p));
    }
}


// ---------------------------------------------------------------------------
// The invariant of a game, step by step.

/// What holds of every game on `lv`, and of every state its history keeps:
/// the level's actors, as many and of the same kinds, in the same order; the
/// selected one among them; no two objects in one cell; every object on a cell
/// of the map that is no wall, a stone on a door only while the doors are
/// open; and no more stones than the level starts with.
pub open spec fn game_invariant(lv: LevelView, g: GameView) -> bool {
    &&& cast_kept(lv, g)
    &&& selection_ok(g)
    &&& apart_kept(g)
    &&& placed_kept(lv, g)
}

/// A game starts in a state that keeps the invariant.
pub proof fn law_start_keeps_invariant(lv: LevelView)
    requires
        lv.wf(),
    ensures
        game_invariant(lv, new_game(lv)),
{
    lemma_play_cast(lv, seq![]);
    lemma_play_apart(lv, seq![]);
    lemma_play_placed(lv, seq![]);
}

/// Any action, from any state that keeps the invariant, leads to a state that
/// keeps it.
pub proof fn law_action_keeps_invariant(lv: LevelView, g: GameView, a: Action)
    requires
        lv.wf(),
        game_invariant(lv, g),
    ensures
        game_invariant(lv, apply_action(lv, g, a).0),
{
    lemma_apply_cast(lv, g, a);
    lemma_apply_apart(lv, g, a);
    lemma_apply_placed(lv, g, a);
}


// ---------------------------------------------------------------------------
// Doors, reset and winning.

/// A move after which the doors are closed, where they were open before it,
/// leaves no stone on a door.
pub proof fn law_closing_doors_crush_stones(lv: LevelView, g: GameView, d: Direction, p: Pos)
    requires
        crate::board::doors_open(lv, g.board),
        apply_action(lv, g, Action::Move(d)).1 == ActionResult::Moved,
        !crate::board::doors_open(lv, apply_action(lv, g, Action::Move(d)).0.board),
        lv.tile_at(p) == Tile::Door,
    ensures
        !apply_action(lv, g, Action::Move(d)).0.board.stones.contains(p),
{
    let b = actor_move(lv, g.board, g.selected as int, d)->0;
    if crate::board::doors_open(lv, b) {
        assert(close_doors(lv, true, b) == b);
    }
}

/// Reset, where it has an effect, puts the level back as it started, with
/// the first actor selected.
pub proof fn law_reset_restores_start(lv: LevelView, g: GameView)
    requires
        apply_action(lv, g, Action::Reset).1 != ActionResult::NoEffect,
    ensures
        apply_action(lv, g, Action::Reset).0.board == initial_board(lv),
        apply_action(lv, g, Action::Reset).0.selected == 0,
{
}

/// A level is won exactly when it has goals and the set of cells of the
/// actors is the set of goals.
pub proof fn law_won_is_same_cells(lv: LevelView, b: Board)
    ensures
        won(lv, b) <==> ({
            let goals = Set::new(|p: Pos| lv.tile_at(p) == Tile::Goal);
            let cells = Set::new(|p: Pos| has_actor_at(b, p));
            !goals.is_empty() && goals == cells
        }),
{
    let goals = Set::new(|p: Pos| lv.tile_at(p) == Tile::Goal);
    let cells = Set::new(|p: Pos| has_actor_at(b, p));
    if won(lv, b) {
        let p0 = choose|p: Pos| lv.tile_at(p) == Tile::Goal;
        assert(goals.contains(p0));
        assert forall|p: Pos| goals.contains(p) <==> cells.contains(p) by {
            if has_actor_at(b, p) {
                let i = choose|i: int| 0 <= i < b.actors.len() && (#[trigger] b.actors[i]).pos == p;
                assert(lv.tile_at(b.actors[i].pos) == Tile::Goal);
            }
        }
        assert(goals =~= cells);
    }
    if !goals.is_empty() && goals == cells {
        let p0 = goals.choose();
        assert(goals.contains(p0));
        assert forall|i: int| 0 <= i < b.actors.len() implies lv.tile_at((#[trigger] b.actors[i]).pos) == Tile::Goal by {
            assert(has_actor_at(b, b.actors[i].pos));
            assert(cells.contains(b.actors[i].pos));
        }
        assert forall|p: Pos| lv.tile_at(p) == Tile::Goal implies has_actor_at(b, p) by {
            assert(goals.contains(p));
        }
    }
}


// ---------------------------------------------------------------------------
// Undoing all the way.

/// The game after `k` undos.
pub open spec fn undo_times(lv: LevelView, g: GameView, k: nat) -> GameView
    decreases k,
{
    if k == 0 {
        g
    } else {
        undo_times(lv, apply_action(lv, g, Action::Undo).0, (k - 1) as nat)
    }
}

proof fn lemma_undo_game_at(lv: LevelView, g: GameView, i: int)
    requires
        consistent(lv, g),
        0 < i <= g.history.len(),
    ensures
        apply_action(lv, game_at(g, i), Action::Undo) == (game_at(g, i - 1), ActionResult::Undone),
{
    let gi = game_at(g, i);
    assert(gi.history.last() == g.history[i - 1]);
    assert(gi.history.drop_last() =~= g.history.take(i - 1));
    assert(gi.actions.take(i - 1) =~= g.actions.take(i - 1));
    assert(apply_action(lv, gi, Action::Undo).0 =~= game_at(g, i - 1));
}

proof fn lemma_undo_times_game_at(lv: LevelView, g: GameView, i: int)
    requires
        consistent(lv, g),
        0 <= i <= g.history.len(),
    ensures
        undo_times(lv, game_at(g, i), i as nat) == game_at(g, 0),
    decreases i,
{
    if i > 0 {
        lemma_undo_game_at(lv, g, i);
        lemma_undo_times_game_at(lv, g, i - 1);
    }
}

/// In every game, undo has an effect exactly when the action sequence is not
/// empty, and as many undos as the sequence has letters lead back to the
/// start of the level, with an empty sequence.
pub proof fn law_undo_steps_back_to_start(lv: LevelView, acts: Seq<Action>)
    ensures
        ({
            let g = play(lv, acts);
            &&& (apply_action(lv, g, Action::Undo).1 == ActionResult::NoEffect <==> g.actions.len() == 0)
            &&& undo_times(lv, g, g.actions.len()) == new_game(lv)
        }),
{
    let g = play(lv, acts);
    lemma_play_consistent(lv, acts);
    lemma_game_at_end(g);
    lemma_undo_times_game_at(lv, g, g.history.len() as int);
    assert(game_at(g, 0) =~= new_game(lv));
}

// ---------------------------------------------------------------------------
// A map read and shown again.

/// A map character that shows as itself: any but the space, which is read as
/// floor and shown as `-`.
pub open spec fn shown_as_read(c: char) -> bool {
    ||| c == '-' || c == '#' || c == '_' || c == '|' || c == '.'
    ||| c == '$' || c == 'A' || c == 'B' || c == 'C'
}

/// Numbered rows of a map `w` wide, of characters that show as themselves.
pub open spec fn grid_rows(srows: Seq<(nat, Seq<char>)>, w: nat) -> bool {
    &&& w <= usize::MAX
    &&& srows.len() <= usize::MAX
    &&& forall|y: int| 0 <= y < srows.len() ==> (#[trigger] srows[y]).1.len() == w
    &&& forall|y: int, x: int| 0 <= y < srows.len() && 0 <= x < w ==> shown_as_read(#[trigger] srows[y].1[x])
}

/// The rows, each but the last followed by a line break.
pub open spec fn joined_rows(rows: Seq<Seq<char>>) -> Seq<char>
    decreases rows.len(),
{
    if rows.len() == 0 {
        seq![]
    } else if rows.len() == 1 {
        rows[0]
    } else {
        joined_rows(rows.drop_last()) + seq!['\n'] + rows.last()
    }
}

proof fn lemma_grid_tiles_len(srows: Seq<(nat, Seq<char>)>, w: nat)
    requires
        forall|y: int| 0 <= y < srows.len() ==> (#[trigger] srows[y]).1.len() == w,
    ensures
        grid_tiles(srows).len() == srows.len() * w,
    decreases srows.len(),
{
    if srows.len() > 0 {
        let pre = srows.drop_last();
        assert forall|y: int| 0 <= y < pre.len() implies (#[trigger] pre[y]).1.len() == w by {
            assert(pre[y] == srows[y]);
        }
        lemma_grid_tiles_len(pre, w);
        assert(pre.len() * w + w == srows.len() * w) by (nonlinear_arith)
            requires
                pre.len() + 1 == srows.len(),
        ;
    }
}

proof fn lemma_grid_tile(srows: Seq<(nat, Seq<char>)>, w: nat, y: int, x: int)
    requires
        forall|k: int| 0 <= k < srows.len() ==> (#[trigger] srows[k]).1.len() == w,
        0 <= y < srows.len(),
        0 <= x < w,
    ensures
        0 <= y * w + x < grid_tiles(srows).len(),
        grid_tiles(srows)[y * w + x] == cell_tile(srows[y].1[x]).unwrap(),
    decreases srows.len(),
{
    let pre = srows.drop_last();
    assert forall|k: int| 0 <= k < pre.len() implies (#[trigger] pre[k]).1.len() == w by {
        assert(pre[k] == srows[k]);
    }
    lemma_grid_tiles_len(pre, w);
    lemma_grid_tiles_len(srows, w);
    if y < pre.len() {
        lemma_grid_tile(pre, w, y, x);
        assert(pre[y] == srows[y]);
    } else {
        assert(y * w == pre.len() * w);
    }
    assert(0 <= y * w + x < srows.len() * w) by (nonlinear_arith)
        requires
            0 <= y < srows.len(),
            0 <= x < w,
    ;
}

/// The cell at column `x` of row `y`.
pub open spec fn cell_at(x: int, y: int) -> Pos {
    Pos { x: x as usize, y: y as usize }
}

/// Some actor of `s` stands at `p`.
pub open spec fn actor_listed(s: Seq<Actor>, p: Pos) -> bool {
    exists|i: int| 0 <= i < s.len() && (#[trigger] s[i]).pos == p
}

/// `a` is an actor that the character under it in row `row` (at height `y`,
/// read up to column `n`) places.
pub open spec fn read_actor(row: Seq<char>, y: int, n: int, a: Actor) -> bool {
    &&& a.pos.y == y
    &&& a.pos.x < n
    &&& cell_actor(row[a.pos.x as int]) == Some(a.kind)
}

/// `p` is a stone cell that the character under it in row `row` places.
pub open spec fn read_stone(row: Seq<char>, y: int, n: int, p: Pos) -> bool {
    &&& p.y == y
    &&& p.x < n
    &&& row[p.x as int] == '$'
}

proof fn lemma_row_actors(row: Seq<char>, y: int, n: int)
    requires
        0 <= n <= row.len() <= usize::MAX,
        0 <= y <= usize::MAX,
    ensures
        forall|i: int| 0 <= i < row_actors(row, y, n).len() ==> read_actor(row, y, n, #[trigger] row_actors(row, y, n)[i]),
        forall|x: int| 0 <= x < n && (#[trigger] cell_actor(row[x])) is Some ==> actor_listed(row_actors(row, y, n), cell_at(x, y)),
    decreases n,
{
    if n > 0 {
        lemma_row_actors(row, y, n - 1);
        let pre = row_actors(row, y, n - 1);
        let ra = row_actors(row, y, n);
        assert forall|i: int| 0 <= i < ra.len() implies read_actor(row, y, n, #[trigger] ra[i]) by {
            if i < pre.len() {
                assert(ra[i] == pre[i]);
                assert(read_actor(row, y, n - 1, pre[i]));
            }
        }
        assert forall|x: int| 0 <= x < n && (#[trigger] cell_actor(row[x])) is Some implies actor_listed(ra, cell_at(x, y)) by {
            if x < n - 1 {
                assert(actor_listed(pre, cell_at(x, y)));
                let i = choose|i: int| 0 <= i < pre.len() && (#[trigger] pre[i]).pos == cell_at(x, y);
                assert(ra[i] == pre[i]);
            } else {
                assert(ra[pre.len() as int].pos == cell_at(x, y));
            }
        }
    }
}

proof fn lemma_row_stones(row: Seq<char>, y: int, n: int)
    requires
        0 <= n <= row.len() <= usize::MAX,
        0 <= y <= usize::MAX,
    ensures
        forall|i: int| 0 <= i < row_stones(row, y, n).len() ==> read_stone(row, y, n, #[trigger] row_stones(row, y, n)[i]),
        forall|x: int| 0 <= x < n && #[trigger] row[x] == '$' ==> row_stones(row, y, n).contains(cell_at(x, y)),
    decreases n,
{
    if n > 0 {
        lemma_row_stones(row, y, n - 1);
        let pre = row_stones(row, y, n - 1);
        let rs = row_stones(row, y, n);
        assert forall|i: int| 0 <= i < rs.len() implies read_stone(row, y, n, #[trigger] rs[i]) by {
            if i < pre.len() {
                assert(rs[i] == pre[i]);
                assert(read_stone(row, y, n - 1, pre[i]));
            }
        }
        assert forall|x: int| 0 <= x < n && #[trigger] row[x] == '$' implies rs.contains(cell_at(x, y)) by {
            if x < n - 1 {
                assert(pre.contains(cell_at(x, y)));
                let i = choose|i: int| 0 <= i < pre.len() && pre[i] == cell_at(x, y);
                assert(rs[i] == pre[i]);
            } else {
                assert(rs[pre.len() as int] == cell_at(x, y));
            }
        }
    }
}

/// `a` is an actor that the character under it in the first `h` rows places.
pub open spec fn grid_actor(srows: Seq<(nat, Seq<char>)>, w: nat, h: int, a: Actor) -> bool {
    &&& a.pos.y < h
    &&& a.pos.x < w
    &&& cell_actor(srows[a.pos.y as int].1[a.pos.x as int]) == Some(a.kind)
}

/// `p` is a stone cell that the character under it in the first `h` rows places.
pub open spec fn grid_stone(srows: Seq<(nat, Seq<char>)>, w: nat, h: int, p: Pos) -> bool {
    &&& p.y < h
    &&& p.x < w
    &&& srows[p.y as int].1[p.x as int] == '$'
}

proof fn lemma_grid_actors(srows: Seq<(nat, Seq<char>)>, w: nat, h: int)
    requires
        grid_rows(srows, w),
        0 <= h <= srows.len(),
    ensures
        forall|i: int| 0 <= i < grid_actors(srows, h).len() ==> grid_actor(srows, w, h, #[trigger] grid_actors(srows, h)[i]),
        forall|y: int, x: int|
            0 <= y < h && 0 <= x < w && (#[trigger] cell_actor(srows[y].1[x])) is Some ==> actor_listed(
                grid_actors(srows, h),
                cell_at(x, y),
            ),
    decreases h,
{
    if h > 0 {
        lemma_grid_actors(srows, w, h - 1);
        let pre = grid_actors(srows, h - 1);
        let row = srows[h - 1].1;
        lemma_row_actors(row, h - 1, row.len() as int);
        let ra = row_actors(row, h - 1, row.len() as int);
        let ga = grid_actors(srows, h);
        assert(ga == pre + ra);
        assert forall|i: int| 0 <= i < ga.len() implies grid_actor(srows, w, h, #[trigger] ga[i]) by {
            if i < pre.len() {
                assert(ga[i] == pre[i]);
                assert(grid_actor(srows, w, h - 1, pre[i]));
            } else {
                assert(ga[i] == ra[i - pre.len()]);
                assert(read_actor(row, h - 1, row.len() as int, ra[i - pre.len()]));
            }
        }
        assert forall|y: int, x: int|
            0 <= y < h && 0 <= x < w && (#[trigger] cell_actor(srows[y].1[x])) is Some implies actor_listed(ga, cell_at(x, y)) by {
            if y < h - 1 {
                assert(actor_listed(pre, cell_at(x, y)));
                let i = choose|i: int| 0 <= i < pre.len() && (#[trigger] pre[i]).pos == cell_at(x, y);
                assert(ga[i] == pre[i]);
            } else {
                assert(cell_actor(row[x]) is Some);
                assert(actor_listed(ra, cell_at(x, y)));
                let j = choose|j: int| 0 <= j < ra.len() && (#[trigger] ra[j]).pos == cell_at(x, y);
                assert(ga[pre.len() + j] == ra[j]);
            }
        }
    }
}

proof fn lemma_grid_stones(srows: Seq<(nat, Seq<char>)>, w: nat, h: int)
    requires
        grid_rows(srows, w),
        0 <= h <= srows.len(),
    ensures
        forall|i: int| 0 <= i < grid_stones(srows, h).len() ==> grid_stone(srows, w, h, #[trigger] grid_stones(srows, h)[i]),
        forall|y: int, x: int|
            0 <= y < h && 0 <= x < w && #[trigger] srows[y].1[x] == '$' ==> grid_stones(srows, h).contains(cell_at(x, y)),
    decreases h,
{
    if h > 0 {
        lemma_grid_stones(srows, w, h - 1);
        let pre = grid_stones(srows, h - 1);
        let row = srows[h - 1].1;
        lemma_row_stones(row, h - 1, row.len() as int);
        let rs = row_stones(row, h - 1, row.len() as int);
        let gs = grid_stones(srows, h);
        assert(gs == pre + rs);
        assert forall|i: int| 0 <= i < gs.len() implies grid_stone(srows, w, h, #[trigger] gs[i]) by {
            if i < pre.len() {
                assert(gs[i] == pre[i]);
                assert(grid_stone(srows, w, h - 1, pre[i]));
            } else {
                assert(gs[i] == rs[i - pre.len()]);
                assert(read_stone(row, h - 1, row.len() as int, rs[i - pre.len()]));
            }
        }
        assert forall|y: int, x: int|
            0 <= y < h && 0 <= x < w && #[trigger] srows[y].1[x] == '$' implies gs.contains(cell_at(x, y)) by {
            if y < h - 1 {
                assert(pre.contains(cell_at(x, y)));
                let i = choose|i: int| 0 <= i < pre.len() && pre[i] == cell_at(x, y);
                assert(gs[i] == pre[i]);
            } else {
                assert(row[x] == '$');
                assert(rs.contains(cell_at(x, y)));
                let j = choose|j: int| 0 <= j < rs.len() && rs[j] == cell_at(x, y);
                assert(gs[pre.len() + j] == rs[j]);
            }
        }
    }
}

/// The level that rows of a map make: what a section of a collection reads.
pub open spec fn level_of_rows(name: Seq<char>, srows: Seq<(nat, Seq<char>)>) -> LevelView {
    LevelView {
        name,
        width: srows[0].1.len(),
        height: srows.len(),
        tiles: grid_tiles(srows),
        actors: grid_actors(srows, srows.len() as int),
        stones: grid_stones(srows, srows.len() as int),
    }
}

/// The texts of numbered rows.
pub open spec fn row_texts(srows: Seq<(nat, Seq<char>)>) -> Seq<Seq<char>> {
    srows.map_values(|r: (nat, Seq<char>)| r.1)
}

proof fn lemma_cell_shown(name: Seq<char>, srows: Seq<(nat, Seq<char>)>, x: int, y: int)
    requires
        srows.len() > 0,
        grid_rows(srows, srows[0].1.len()),
        0 <= y < srows.len(),
        0 <= x < srows[0].1.len(),
    ensures
        cell_char(level_of_rows(name, srows), initial_board(level_of_rows(name, srows)), cell_at(x, y))
            == srows[y].1[x],
{
    let lv = level_of_rows(name, srows);
    let w = lv.width;
    let h = srows.len() as int;
    let b = initial_board(lv);
    let p = cell_at(x, y);
    let c = srows[y].1[x];
    lemma_grid_actors(srows, w, h);
    lemma_grid_stones(srows, w, h);
    lemma_grid_tile(srows, w, y, x);
    lemma_actor_index_none(lv.actors, p, 0);
    crate::board::lemma_actor_index_bound(lv.actors, p, 0);
    assert(shown_as_read(c));
    match actor_index_from(lv.actors, p, 0) {
        Some(i) => {
            assert(grid_actor(srows, w, h, lv.actors[i as int]));
        },
        None => {
            if cell_actor(c) is Some {
                assert(actor_listed(lv.actors, p));
                let i = choose|i: int| 0 <= i < lv.actors.len() && (#[trigger] lv.actors[i]).pos == p;
                assert(false);
            }
            if lv.stones.to_set().contains(p) {
                let i = choose|i: int| 0 <= i < lv.stones.len() && lv.stones[i] == p;
                assert(grid_stone(srows, w, h, lv.stones[i]));
            } else {
                if c == '$' {
                    assert(lv.stones.contains(p));
                }
                assert(in_bounds(lv.width, lv.height, p));
            }
        },
    }
}

proof fn lemma_rows_shown(name: Seq<char>, srows: Seq<(nat, Seq<char>)>, n: int)
    requires
        srows.len() > 0,
        grid_rows(srows, srows[0].1.len()),
        0 <= n <= srows.len(),
    ensures
        rows_text(level_of_rows(name, srows), initial_board(level_of_rows(name, srows)), n)
            == joined_rows(row_texts(srows).take(n)),
    decreases n,
{
    let lv = level_of_rows(name, srows);
    let b = initial_board(lv);
    let rows = row_texts(srows);
    if n > 0 {
        lemma_rows_shown(name, srows, n - 1);
        assert(row_text(lv, b, n - 1) =~= rows[n - 1]) by {
            assert forall|x: int| 0 <= x < lv.width implies #[trigger] row_text(lv, b, n - 1)[x] == rows[n - 1][x] by {
                lemma_cell_shown(name, srows, x, n - 1);
            }
        }
        assert(rows.take(n).drop_last() =~= rows.take(n - 1));
        if n == 1 {
            assert(rows.take(n)[0] == rows[0]);
        }
    } else {
        assert(rows.take(0) =~= seq![]);
    }
}

/// Lines of text, each followed by a line break.
pub open spec fn terminated(lines: Seq<Seq<char>>) -> Seq<char>
    decreases lines.len(),
{
    if lines.len() == 0 {
        seq![]
    } else {
        lines[0] + seq!['\n'] + terminated(lines.drop_first())
    }
}

/// `s` holds no line break, and does not end in a carriage return.
pub open spec fn one_line(s: Seq<char>) -> bool {
    &&& forall|j: int| 0 <= j < s.len() ==> #[trigger] s[j] != '\n'
    &&& (s.len() > 0 ==> s.last() != '\r')
}

proof fn lemma_lines_terminated(s: Seq<char>, i: int, ls: Seq<Seq<char>>)
    requires
        0 <= i <= s.len(),
        s.subrange(i, s.len() as int) == terminated(ls),
        forall|j: int| 0 <= j < ls.len() ==> one_line(#[trigger] ls[j]),
    ensures
        lines_from(s, i) == ls,
    decreases ls.len(),
{
    if ls.len() == 0 {
        assert(s.subrange(i, s.len() as int).len() == 0);
    } else {
        let first = ls[0];
        let m = first.len() as int;
        let rest = ls.drop_first();
        assert(terminated(ls) == first + seq!['\n'] + terminated(rest));
        assert(s.subrange(i, s.len() as int)[m] == '\n');
        assert(s[i + m] == '\n');
        assert forall|j: int| i <= j < i + m implies s[j] != '\n' by {
            assert(s.subrange(i, s.len() as int)[j - i] == first[j - i]);
            assert(one_line(first));
        }
        lemma_line_end(s, i);
        let e = line_end(s, i);
        assert(e == i + m);
        assert(s.subrange(i, e) =~= first) by {
            assert forall|j: int| 0 <= j < m implies s.subrange(i, e)[j] == first[j] by {
                assert(s.subrange(i, s.len() as int)[j] == first[j]);
            }
        }
        assert(strip_cr(first) == first);
        assert(s.subrange(e + 1, s.len() as int) =~= terminated(rest)) by {
            assert forall|j: int| 0 <= j < s.len() - (e + 1) implies s.subrange(e + 1, s.len() as int)[j]
                == terminated(rest)[j] by {
                assert(s.subrange(i, s.len() as int)[m + 1 + j] == s[e + 1 + j]);
            }
        }
        assert forall|j: int| 0 <= j < rest.len() implies one_line(#[trigger] rest[j]) by {
            assert(rest[j] == ls[j + 1]);
        }
        lemma_lines_terminated(s, e + 1, rest);
        assert(ls =~= seq![first] + rest);
    }
}

proof fn lemma_terminated_push(ls: Seq<Seq<char>>, r: Seq<char>)
    ensures
        terminated(ls.push(r)) == terminated(ls) + r + seq!['\n'],
    decreases ls.len(),
{
    if ls.len() > 0 {
        lemma_terminated_push(ls.drop_first(), r);
        assert(ls.push(r).drop_first() =~= ls.drop_first().push(r));
        assert(ls.push(r)[0] == ls[0]);
        assert(terminated(ls.push(r)) == ls[0] + seq!['\n'] + terminated(ls.drop_first().push(r)));
        assert(terminated(ls) == ls[0] + seq!['\n'] + terminated(ls.drop_first()));
        assert(terminated(ls.push(r)) =~= terminated(ls) + r + seq!['\n']);
    } else {
        assert(ls.push(r).drop_first() =~= seq![]);
        assert(ls.push(r)[0] == r);
        assert(ls.push(r).drop_first().len() == 0);
        assert(terminated(ls.push(r).drop_first()) =~= seq![]);
        assert(terminated(ls) =~= seq![]);
        assert(terminated(ls.push(r)) =~= terminated(ls) + r + seq!['\n']);
    }
}

proof fn lemma_terminated_joined(ls: Seq<Seq<char>>)
    requires
        ls.len() > 0,
    ensures
        terminated(ls) == joined_rows(ls) + seq!['\n'],
    decreases ls.len(),
{
    lemma_terminated_push(ls.drop_last(), ls.last());
    assert(ls.drop_last().push(ls.last()) =~= ls);
    if ls.len() > 1 {
        lemma_terminated_joined(ls.drop_last());
    } else {
        assert(ls.drop_last() =~= seq![]);
    }
}

proof fn lemma_trim_plain(s: Seq<char>)
    requires
        s.len() > 0,
        !is_space(s[0]),
        !is_space(s.last()),
    ensures
        trim(s) == s,
{
    assert(trim_start(s) == s);
    assert(trim_end(s) == s);
}

proof fn lemma_level_name_plain(name: Seq<char>)
    requires
        is_level_name(name),
    ensures
        trim(name) == name,
        one_line(name),
{
    let k = choose|k: int|
        0 < k < name.len() - 1 && #[trigger] name[k] == '-' && all_digits(name.subrange(0, k))
            && all_digits(name.subrange(k + 1, name.len() as int));
    assert forall|j: int| 0 <= j < name.len() implies #[trigger] name[j] == '-' || is_digit(name[j]) by {
        if j < k {
            assert(name.subrange(0, k)[j] == name[j]);
        } else if j > k {
            assert(name.subrange(k + 1, name.len() as int)[j - k - 1] == name[j]);
        }
    }
    assert(is_digit(name.subrange(0, k)[0]));
    assert(is_digit(name.subrange(k + 1, name.len() as int)[name.len() - k - 2]));
    lemma_trim_plain(name);
}

/// Map rows that show as themselves, at least one row, all as wide as the
/// first, which is not empty, with an actor somewhere.
pub open spec fn shown_map(rows: Seq<Seq<char>>) -> bool {
    &&& 0 < rows.len() <= usize::MAX
    &&& 0 < rows[0].len() <= usize::MAX
    &&& forall|y: int| 0 <= y < rows.len() ==> (#[trigger] rows[y]).len() == rows[0].len()
    &&& forall|y: int, x: int| 0 <= y < rows.len() && 0 <= x < rows[y].len() ==> shown_as_read(#[trigger] rows[y][x])
    &&& exists|y: int, x: int| 0 <= y < rows.len() && 0 <= x < rows[y].len() && (#[trigger] cell_actor(rows[y][x])) is Some
}

/// The numbered rows of a level text whose header is on line 1 and whose
/// rows follow it.
pub open spec fn numbered_rows(rows: Seq<Seq<char>>) -> Seq<(nat, Seq<char>)> {
    Seq::new(rows.len(), |j: int| ((j + 2) as nat, rows[j]))
}

proof fn lemma_section_rows(lines: Seq<Seq<char>>, rows: Seq<Seq<char>>, to: int)
    requires
        shown_map(rows),
        lines.len() == rows.len() + 1,
        forall|j: int| 0 <= j < rows.len() ==> lines[j + 1] == #[trigger] rows[j],
        1 <= to <= lines.len(),
    ensures
        section_rows(lines, 1, to) == numbered_rows(rows).take(to - 1),
    decreases to,
{
    if to > 1 {
        lemma_section_rows(lines, rows, to - 1);
        let row = rows[to - 2];
        assert(row[0] == rows[to - 2][0]);
        assert(shown_as_read(row[0]));
        assert(shown_as_read(row[row.len() - 1]));
        assert(strip_crs(lines[to - 1]) == row);
        assert(!is_blank(row)) by {
            assert(!is_space(row[0]));
        }
        assert(numbered_rows(rows).take(to - 1) =~= numbered_rows(rows).take(to - 2).push(((to as nat), row)));
    } else {
        assert(numbered_rows(rows).take(0) =~= seq![]);
    }
}

proof fn lemma_first_invalid_none(row: Seq<char>, i: int)
    requires
        0 <= i,
        forall|x: int| 0 <= x < row.len() ==> shown_as_read(#[trigger] row[x]),
    ensures
        first_invalid_from(row, i) is None,
    decreases row.len() - i,
{
    if i < row.len() {
        assert(shown_as_read(row[i]));
        lemma_first_invalid_none(row, i + 1);
    }
}

proof fn lemma_rows_error_none(name: Seq<char>, srows: Seq<(nat, Seq<char>)>, w: nat, i: int)
    requires
        grid_rows(srows, w),
        0 <= i,
    ensures
        rows_error(name, srows, w, i) is None,
    decreases srows.len() - i,
{
    if i < srows.len() {
        assert forall|x: int| 0 <= x < srows[i].1.len() implies shown_as_read(#[trigger] srows[i].1[x]) by {
            assert(shown_as_read(srows[i].1[x]));
        }
        lemma_first_invalid_none(srows[i].1, 0);
        lemma_rows_error_none(name, srows, w, i + 1);
    }
}

proof fn lemma_header_indices(lines: Seq<Seq<char>>, rows: Seq<Seq<char>>, n: int)
    requires
        shown_map(rows),
        lines.len() == rows.len() + 1,
        is_level_name(trim(lines[0])),
        forall|j: int| 0 <= j < rows.len() ==> lines[j + 1] == #[trigger] rows[j],
        1 <= n <= lines.len(),
    ensures
        header_indices(lines, n) == seq![0int],
    decreases n,
{
    if n > 1 {
        lemma_header_indices(lines, rows, n - 1);
        let row = rows[n - 2];
        assert(shown_as_read(row[0]));
        assert(shown_as_read(row[row.len() - 1]));
        lemma_trim_plain(row);
        assert(lines[n - 1] == row);
        if is_level_name(row) {
            let k = choose|k: int|
                0 < k < row.len() - 1 && #[trigger] row[k] == '-' && all_digits(row.subrange(0, k))
                    && all_digits(row.subrange(k + 1, row.len() as int));
            assert(row.subrange(0, k)[0] == row[0]);
        }
        assert(header_indices(lines, n) =~= header_indices(lines, n - 1));
    } else {
        assert(header_indices(lines, 0) =~= seq![]);
    }
}

/// A level text made of a level name on a line of its own, then rows of map
/// characters that show as themselves, one per line, the last also ended by a
/// line break, reads as one level of that name whose map, shown at the start,
/// is those rows again.
pub proof fn law_read_map_shows_again(name: Seq<char>, rows: Seq<Seq<char>>)
    requires
        is_level_name(name),
        shown_map(rows),
    ensures
        ({
            let r = parse_levels_spec(name + seq!['\n'] + joined_rows(rows) + seq!['\n']);
            &&& r is Ok
            &&& r->Ok_0.len() == 1
            &&& r->Ok_0[0].name == name
            &&& render_text(r->Ok_0[0], initial_board(r->Ok_0[0])) == joined_rows(rows)
        }),
{
    let text = name + seq!['\n'] + terminated(rows);
    lemma_terminated_joined(rows);
    assert(text =~= name + seq!['\n'] + joined_rows(rows) + seq!['\n']);
    let all = seq![name] + rows;
    lemma_level_name_plain(name);
    assert forall|j: int| 0 <= j < all.len() implies one_line(#[trigger] all[j]) by {
        if j > 0 {
            let row = rows[j - 1];
            assert(all[j] == row);
            assert forall|x: int| 0 <= x < row.len() implies #[trigger] row[x] != '\n' by {
                assert(shown_as_read(row[x]));
            }
            assert(shown_as_read(row[row.len() - 1]));
        }
    }
    assert(terminated(all) == name + seq!['\n'] + terminated(all.drop_first()));
    assert(all.drop_first() =~= rows);
    assert(text.subrange(0, text.len() as int) =~= terminated(all));
    lemma_lines_terminated(text, 0, all);
    let lines = text_lines(text);
    assert(lines == all);
    assert forall|j: int| 0 <= j < rows.len() implies lines[j + 1] == #[trigger] rows[j] by {
        assert(all[j + 1] == rows[j]);
    }
    assert(lines[0] == name);
    lemma_header_indices(lines, rows, lines.len() as int);
    let starts = header_indices(lines, lines.len() as int);
    lemma_section_rows(lines, rows, lines.len() as int);
    let srows = numbered_rows(rows);
    assert(srows.take(rows.len() as int) =~= srows);
    assert(section_rows(lines, 1, lines.len() as int) == srows);
    let w = srows[0].1.len();
    assert(grid_rows(srows, w)) by {
        assert forall|y: int, x: int| 0 <= y < srows.len() && 0 <= x < w implies shown_as_read(#[trigger] srows[y].1[x]) by {
            assert(srows[y].1 == rows[y]);
        }
    }
    lemma_rows_error_none(name, srows, w, 0);
    let (y0, x0) = choose|y: int, x: int| 0 <= y < rows.len() && 0 <= x < rows[y].len() && (#[trigger] cell_actor(rows[y][x])) is Some;
    lemma_grid_actors(srows, w, srows.len() as int);
    assert(srows[y0].1 == rows[y0]);
    assert(actor_listed(grid_actors(srows, srows.len() as int), cell_at(x0, y0)));
    let lv = level_of_rows(name, srows);
    assert(section_level(lines, starts, 0) == Ok::<LevelView, LevelErrorView>(lv));
    assert(levels_from(lines, starts, 1) == Ok::<Seq<LevelView>, LevelErrorView>(seq![]));
    assert(levels_from(lines, starts, 0) == Ok::<Seq<LevelView>, LevelErrorView>(seq![lv]));
    lemma_rows_shown(name, srows, srows.len() as int);
    assert(row_texts(srows).take(srows.len() as int) =~= rows);
}

// ---------------------------------------------------------------------------
// Each rule in its own terms.

/// Something stands at `p`: a stone, or one of the actors.
pub open spec fn holds_object(b: Board, p: Pos) -> bool {
    b.stones.contains(p) || exists|i: int| 0 <= i < b.actors.len() && (#[trigger] b.actors[i]).pos == p
}

/// The doors are open exactly when the map has a switch and something, a
/// stone or an actor, stands on every switch; one empty switch keeps them shut.
pub proof fn law_doors_open_exactly_when_every_switch_is_held(lv: LevelView, b: Board)
    ensures
        doors_open(lv, b) <==> (exists|p: Pos| lv.tile_at(p) == Tile::Switch) && (forall|p: Pos|
            lv.tile_at(p) == Tile::Switch ==> #[trigger] holds_object(b, p)),
        forall|p: Pos| lv.tile_at(p) == Tile::Switch && !holds_object(b, p) ==> !doors_open(lv, b),
{
    assert forall|p: Pos| occupied(b, p) <==> #[trigger] holds_object(b, p) by {
        lemma_occupied(b, p);
    }
    if doors_open(lv, b) {
        assert forall|p: Pos| lv.tile_at(p) == Tile::Switch implies #[trigger] holds_object(b, p) by {
            assert(occupied(b, p));
        }
    }
    if (exists|p: Pos| lv.tile_at(p) == Tile::Switch) && (forall|p: Pos|
        lv.tile_at(p) == Tile::Switch ==> #[trigger] holds_object(b, p)) {
        assert forall|p: Pos| lv.tile_at(p) == Tile::Switch implies occupied(b, p) by {
            assert(holds_object(b, p));
        }
    }
}

/// With two or more actors, switching selects the next actor in the level's
/// order, the first after the last, and leaves every object where it is.
pub proof fn law_switch_selects_the_next_actor(lv: LevelView, g: GameView)
    requires
        g.board.actors.len() >= 2,
        g.selected < g.board.actors.len(),
    ensures
        ({
            let (g1, r) = apply_action(lv, g, Action::SwitchActor);
            &&& r == ActionResult::ActorSwitched
            &&& g1.board == g.board
            &&& g.selected + 1 < g.board.actors.len() ==> g1.selected == g.selected + 1
            &&& g.selected + 1 == g.board.actors.len() ==> g1.selected == 0
        }),
{
    let n = g.board.actors.len();
    if g.selected + 1 < n {
        vstd::arithmetic::div_mod::lemma_small_mod((g.selected + 1) as nat, n);
    } else {
        vstd::arithmetic::div_mod::lemma_mod_self_0(n as int);
    }
}

/// A cell an object may enter: no wall, and a door only while the doors are open.
pub open spec fn enterable(lv: LevelView, b: Board, p: Pos) -> bool {
    lv.tile_at(p) != Tile::Wall && (lv.tile_at(p) == Tile::Door ==> doors_open(lv, b))
}

proof fn lemma_plain_terms(lv: LevelView, b: Board)
    ensures
        forall|p: Pos| #[trigger] holds_object(b, p) == occupied(b, p),
        forall|p: Pos| #[trigger] enterable(lv, b, p) == passable(lv, b, p),
{
    assert forall|p: Pos| #[trigger] holds_object(b, p) == occupied(b, p) by {
        lemma_occupied(b, p);
    }
}

/// The cell `i` steps from `p` in `d` (back from `p` where `i` is negative).
pub open spec fn along(p: Pos, d: Direction, i: int) -> Pos {
    match d {
        Direction::Right => Pos { x: (p.x + i) as usize, y: p.y },
        Direction::Left => Pos { x: (p.x - i) as usize, y: p.y },
        Direction::Down => Pos { x: p.x, y: (p.y + i) as usize },
        Direction::Up => Pos { x: p.x, y: (p.y - i) as usize },
    }
}

/// The cell `i` steps from `p` in `d` has coordinates within `usize`.
pub open spec fn along_fits(p: Pos, d: Direction, i: int) -> bool {
    match d {
        Direction::Right => 0 <= p.x + i <= usize::MAX,
        Direction::Left => 0 <= p.x - i <= usize::MAX,
        Direction::Down => 0 <= p.y + i <= usize::MAX,
        Direction::Up => 0 <= p.y - i <= usize::MAX,
    }
}

/// A stone that was to be at `q` is gone only because `q` is a door and the
/// doors have closed.
pub open spec fn crushed_at(lv: LevelView, b: Board, q: Pos) -> bool {
    lv.tile_at(q) == Tile::Door && !doors_open(lv, b)
}

proof fn lemma_along_step(p: Pos, d: Direction, i: int)
    requires
        along_fits(p, d, i),
        along_fits(p, d, i + 1),
    ensures
        step_spec(along(p, d, i), d) == Some(along(p, d, i + 1)),
        step_spec(along(p, d, i + 1), opposite_spec(d)) == Some(along(p, d, i)),
        along(p, d, i) != along(p, d, i + 1),
{
}

proof fn lemma_along_zero(p: Pos, d: Direction)
    ensures
        along(p, d, 0) == p,
        along_fits(p, d, 0),
{
}

/// Crushing the stones on doors leaves what stands on the switches, so the
/// doors stay as they were.
proof fn lemma_crush_keeps_doors(lv: LevelView, b: Board)
    ensures
        doors_open(lv, Board { actors: b.actors, stones: b.stones.filter(|p: Pos| lv.tile_at(p) != Tile::Door) })
            == doors_open(lv, b),
{
    let c = Board { actors: b.actors, stones: b.stones.filter(|p: Pos| lv.tile_at(p) != Tile::Door) };
    assert forall|p: Pos| lv.tile_at(p) == Tile::Switch implies occupied(c, p) == occupied(b, p) by {
        assert(c.stones.contains(p) == b.stones.contains(p));
    }
}

/// What the doors do after a move from `b` to `b1`: each stone of `b1` is
/// still there, unless it is on a door and the doors are now closed.
proof fn lemma_close_doors_stones(lv: LevelView, b: Board, b1: Board, q: Pos)
    requires
        b1.stones.contains(q),
    ensures
        close_doors(lv, doors_open(lv, b), b1).actors == b1.actors,
        close_doors(lv, doors_open(lv, b), b1).stones.contains(q) || crushed_at(lv, close_doors(lv, doors_open(lv, b), b1), q),
        close_doors(lv, doors_open(lv, b), b1).stones.subset_of(b1.stones),
{
    lemma_crush_keeps_doors(lv, b1);
}

proof fn lemma_chain_along(lv: LevelView, b: Board, a: Pos, d: Direction, k: int, i: int)
    requires
        1 <= i <= k,
        along_fits(a, d, k + 1),
        forall|j: int| 1 <= j <= k ==> occupied(b, #[trigger] along(a, d, j)),
        forall|j: int| 1 <= j <= k + 1 ==> passable(lv, b, #[trigger] along(a, d, j)),
        !occupied(b, along(a, d, k + 1)),
    ensures
        chain_end(lv, b, d, along(a, d, i)) == Some(along(a, d, k)),
    decreases k - i,
{
    lemma_along_step(a, d, i);
    assert(passable(lv, b, along(a, d, i + 1)));
    if i < k {
        assert(occupied(b, along(a, d, i + 1)));
        lemma_chain_along(lv, b, a, d, k, i + 1);
    }
}

proof fn lemma_segment_along(a: Pos, d: Direction, k: int, p: Pos)
    requires
        k >= 1,
        along_fits(a, d, k + 1),
    ensures
        forall|i: int| 1 <= i <= k ==> in_segment(along(a, d, 1), along(a, d, k), #[trigger] along(a, d, i))
            && pushed(along(a, d, 1), along(a, d, k), d, along(a, d, i)) == along(a, d, i + 1),
        in_segment(along(a, d, 1), along(a, d, k), p) ==> exists|i: int| 1 <= i <= k && p == #[trigger] along(a, d, i),
{
    assert forall|i: int| 1 <= i <= k implies in_segment(along(a, d, 1), along(a, d, k), #[trigger] along(a, d, i))
        && pushed(along(a, d, 1), along(a, d, k), d, along(a, d, i)) == along(a, d, i + 1) by {
        lemma_along_step(a, d, i);
    }
    if in_segment(along(a, d, 1), along(a, d, k), p) {
        let i0: int = match d {
            Direction::Right => p.x - a.x,
            Direction::Left => a.x - p.x,
            Direction::Down => p.y - a.y,
            Direction::Up => a.y - p.y,
        };
        assert(p == along(a, d, i0));
    }
}

/// A warrior that is not held by a closed door and moves in any direction `d`
/// onto a run of `k` objects, each next to the one before, with a cell after the
/// run that may be entered and is empty, pushes the whole run one cell on: it
/// steps onto the run's first cell, every object of the run ends one cell
/// further in `d` (a stone unless it lands on a door and the doors close), and
/// every other actor stays where it was.
pub proof fn law_warrior_pushes_the_run(lv: LevelView, g: GameView, d: Direction, k: int)
    requires
        game_invariant(lv, g),
        ({
            let b = g.board;
            let a = b.actors[g.selected as int].pos;
            &&& b.actors[g.selected as int].kind == ActorKind::Warrior
            &&& lv.tile_at(a) != Tile::Door || doors_open(lv, b)
            &&& k >= 1
            &&& along_fits(a, d, k + 1)
            &&& forall|i: int| 1 <= i <= k ==> holds_object(b, #[trigger] along(a, d, i))
            &&& forall|i: int| 1 <= i <= k + 1 ==> enterable(lv, b, #[trigger] along(a, d, i))
            &&& !holds_object(b, along(a, d, k + 1))
        }),
    ensures
        ({
            let b = g.board;
            let sel = g.selected as int;
            let a = b.actors[sel].pos;
            let (g1, r) = apply_action(lv, g, Action::Move(d));
            let b1 = g1.board;
            &&& r == ActionResult::Moved
            &&& b1.actors.len() == b.actors.len()
            &&& b1.actors[sel].pos == along(a, d, 1)
            &&& forall|j: int, i: int|
                0 <= j < b.actors.len() && j != sel && 1 <= i <= k && (#[trigger] b.actors[j]).pos == #[trigger] along(a, d, i)
                    ==> b1.actors[j].pos == along(a, d, i + 1)
            &&& forall|j: int|
                0 <= j < b.actors.len() && j != sel && (forall|i: int| 1 <= i <= k ==> (#[trigger] b.actors[j]).pos != along(a, d, i))
                    ==> b1.actors[j].pos == b.actors[j].pos
            &&& forall|i: int|
                1 <= i <= k && b.stones.contains(#[trigger] along(a, d, i)) ==> b1.stones.contains(along(a, d, i + 1))
                    || crushed_at(lv, b1, along(a, d, i + 1))
        }),
{
    lemma_plain_terms(lv, g.board);
    let b = g.board;
    let sel = g.selected as int;
    let a = b.actors[sel].pos;
    let next = along(a, d, 1);
    let last = along(a, d, k);
    lemma_along_zero(a, d);
    lemma_along_step(a, d, 0);
    assert(passable(lv, b, next));
    assert(occupied(b, next));
    assert(!trapped(lv, b, sel));
    lemma_chain_along(lv, b, a, d, k, 1);
    let pb = push_segment(b, next, last, d);
    let b2 = with_actor_at(pb, sel, next);
    assert(actor_move(lv, b, sel, d) == Some(b2));
    let c = close_doors(lv, doors_open(lv, b), b2);
    lemma_crush_keeps_doors(lv, b2);
    assert(apply_action(lv, g, Action::Move(d)).0.board == c);
    assert forall|j: int, i: int|
        0 <= j < b.actors.len() && j != sel && 1 <= i <= k && (#[trigger] b.actors[j]).pos == #[trigger] along(a, d, i)
            implies c.actors[j].pos == along(a, d, i + 1) by {
        lemma_segment_along(a, d, k, b.actors[j].pos);
    }
    assert forall|j: int|
        0 <= j < b.actors.len() && j != sel && (forall|i: int| 1 <= i <= k ==> (#[trigger] b.actors[j]).pos != along(a, d, i))
            implies c.actors[j].pos == b.actors[j].pos by {
        lemma_segment_along(a, d, k, b.actors[j].pos);
    }
    assert forall|i: int| 1 <= i <= k && b.stones.contains(#[trigger] along(a, d, i)) implies c.stones.contains(
        along(a, d, i + 1),
    ) || crushed_at(lv, c, along(a, d, i + 1)) by {
        lemma_segment_along(a, d, k, along(a, d, i));
        let s0 = along(a, d, i);
        let inside = b.stones.filter(|p: Pos| in_segment(next, last, p));
        assert(inside.contains(s0));
        assert(inside.map(|p: Pos| pushed(next, last, d, p)).contains(along(a, d, i + 1)));
        assert(b2.stones.contains(along(a, d, i + 1)));
        lemma_close_doors_stones(lv, b, b2, along(a, d, i + 1));
    }
}

proof fn lemma_first_along(lv: LevelView, b: Board, a: Pos, d: Direction, k: int, i: int)
    requires
        0 <= i < k,
        along_fits(a, d, k),
        forall|j: int| 1 <= j < k ==> passable(lv, b, #[trigger] along(a, d, j)) && !occupied(b, along(a, d, j)),
        passable(lv, b, along(a, d, k)),
        occupied(b, along(a, d, k)),
    ensures
        first_object_ahead(lv, b, d, along(a, d, i)) == Some(along(a, d, k)),
    decreases k - i,
{
    lemma_along_step(a, d, i);
    if i + 1 < k {
        assert(passable(lv, b, along(a, d, i + 1)) && !occupied(b, along(a, d, i + 1)));
        lemma_first_along(lv, b, a, d, k, i + 1);
    }
}

/// Moving what stands at `from`, where the board's objects are apart, to `to`:
/// a stone leaves `from` for `to`; the one actor at `from` goes to `to`; every
/// other actor stays.
proof fn lemma_move_occupant_effect(b: Board, from: Pos, to: Pos)
    requires
        apart(b),
        occupied(b, from),
    ensures
        ({
            let b1 = move_occupant(b, from, to);
            &&& b1.actors.len() == b.actors.len()
            &&& b.stones.contains(from) ==> b1.stones == b.stones.remove(from).insert(to)
                && b1.actors == b.actors
            &&& forall|j: int| 0 <= j < b.actors.len() && (#[trigger] b.actors[j]).pos == from ==> b1.actors[j].pos == to
                && b1.stones == b.stones
            &&& forall|j: int| 0 <= j < b.actors.len() && (#[trigger] b.actors[j]).pos != from ==> b1.actors[j] == b.actors[j]
        }),
{
    lemma_occupied(b, from);
    crate::board::lemma_actor_index_bound(b.actors, from, 0);
    lemma_actor_index_none(b.actors, from, 0);
    let b1 = move_occupant(b, from, to);
    match occupant(b, from) {
        Some(Occupant::Stone) => {
            assert forall|j: int| 0 <= j < b.actors.len() && (#[trigger] b.actors[j]).pos == from implies b1.actors[j].pos == to
                && b1.stones == b.stones by {
                assert(!b.stones.contains(b.actors[j].pos));
            }
        },
        Some(Occupant::Actor(i)) => {
            let i = i as int;
            assert(!b.stones.contains(from));
            assert forall|j: int| 0 <= j < b.actors.len() && (#[trigger] b.actors[j]).pos == from implies b1.actors[j].pos == to
                && b1.stones == b.stones by {
                if j != i {
                    assert(b.actors[j].pos != b.actors[i].pos);
                }
            }
        },
        None => {},
    }
}

/// A wizard that is not held by a closed door and looks in any direction `d`
/// past `k - 1` cells that may be entered and are empty (an open door among
/// them) to an object on a cell that may be entered trades places with it:
/// the wizard stands where the object stood, the object stands where the
/// wizard stood (a stone unless that is a door and the doors close), and every
/// other actor stays where it was.
pub proof fn law_wizard_trades_places_with_the_first_object(lv: LevelView, g: GameView, d: Direction, k: int)
    requires
        game_invariant(lv, g),
        ({
            let b = g.board;
            let a = b.actors[g.selected as int].pos;
            &&& b.actors[g.selected as int].kind == ActorKind::Wizard
            &&& lv.tile_at(a) != Tile::Door || doors_open(lv, b)
            &&& k >= 1
            &&& along_fits(a, d, k)
            &&& forall|i: int| 1 <= i < k ==> enterable(lv, b, #[trigger] along(a, d, i)) && !holds_object(b, along(a, d, i))
            &&& enterable(lv, b, along(a, d, k))
            &&& holds_object(b, along(a, d, k))
        }),
    ensures
        ({
            let b = g.board;
            let sel = g.selected as int;
            let a = b.actors[sel].pos;
            let t = along(a, d, k);
            let (g1, r) = apply_action(lv, g, Action::Move(d));
            let b1 = g1.board;
            &&& r == ActionResult::Moved
            &&& b1.actors.len() == b.actors.len()
            &&& b1.actors[sel].pos == t
            &&& b.stones.contains(t) ==> !b1.stones.contains(t) && (b1.stones.contains(a) || crushed_at(lv, b1, a))
            &&& forall|j: int| 0 <= j < b.actors.len() && j != sel && (#[trigger] b.actors[j]).pos == t ==> b1.actors[j].pos == a
            &&& forall|j: int| 0 <= j < b.actors.len() && j != sel && (#[trigger] b.actors[j]).pos != t
                ==> b1.actors[j].pos == b.actors[j].pos
        }),
{
    lemma_plain_terms(lv, g.board);
    let b = g.board;
    let sel = g.selected as int;
    let a = b.actors[sel].pos;
    let t = along(a, d, k);
    lemma_along_zero(a, d);
    assert(!trapped(lv, b, sel));
    lemma_first_along(lv, b, a, d, k, 0);
    assert(t != a);
    let m = move_occupant(b, t, a);
    let b2 = with_actor_at(m, sel, t);
    assert(actor_move(lv, b, sel, d) == Some(b2));
    let c = close_doors(lv, doors_open(lv, b), b2);
    lemma_crush_keeps_doors(lv, b2);
    assert(apply_action(lv, g, Action::Move(d)).0.board == c);
    lemma_move_occupant_effect(b, t, a);
    if b.stones.contains(t) {
        assert(b2.stones.contains(a));
        lemma_close_doors_stones(lv, b, b2, a);
    }
}

/// A thief that is not held by a closed door and steps in any direction `d`
/// into a cell that may be entered and is empty, with an object right behind
/// it, pulls that object along: the thief stands one cell on, the object
/// stands where the thief stood (a stone unless that is a door and the doors
/// close), and every other actor stays where it was.
pub proof fn law_thief_pulls_the_object_behind(lv: LevelView, g: GameView, d: Direction)
    requires
        game_invariant(lv, g),
        ({
            let b = g.board;
            let a = b.actors[g.selected as int].pos;
            &&& b.actors[g.selected as int].kind == ActorKind::Thief
            &&& lv.tile_at(a) != Tile::Door || doors_open(lv, b)
            &&& along_fits(a, d, 1)
            &&& along_fits(a, d, -1)
            &&& enterable(lv, b, along(a, d, 1))
            &&& !holds_object(b, along(a, d, 1))
            &&& holds_object(b, along(a, d, -1))
        }),
    ensures
        ({
            let b = g.board;
            let sel = g.selected as int;
            let a = b.actors[sel].pos;
            let behind = along(a, d, -1);
            let (g1, r) = apply_action(lv, g, Action::Move(d));
            let b1 = g1.board;
            &&& r == ActionResult::Moved
            &&& b1.actors.len() == b.actors.len()
            &&& b1.actors[sel].pos == along(a, d, 1)
            &&& b.stones.contains(behind) ==> !b1.stones.contains(behind) && (b1.stones.contains(a) || crushed_at(lv, b1, a))
            &&& forall|j: int| 0 <= j < b.actors.len() && j != sel && (#[trigger] b.actors[j]).pos == behind
                ==> b1.actors[j].pos == a
            &&& forall|j: int| 0 <= j < b.actors.len() && j != sel && (#[trigger] b.actors[j]).pos != behind
                ==> b1.actors[j].pos == b.actors[j].pos
        }),
{
    lemma_plain_terms(lv, g.board);
    let b = g.board;
    let sel = g.selected as int;
    let a = b.actors[sel].pos;
    let next = along(a, d, 1);
    let behind = along(a, d, -1);
    lemma_along_zero(a, d);
    lemma_along_step(a, d, 0);
    lemma_along_step(a, d, -1);
    assert(!trapped(lv, b, sel));
    let moved = with_actor_at(b, sel, next);
    lemma_step_into_empty(b, sel, next);
    lemma_occupied(b, behind);
    lemma_occupied(moved, behind);
    assert(behind != a && behind != next);
    if !b.stones.contains(behind) {
        let j = choose|j: int| 0 <= j < b.actors.len() && (#[trigger] b.actors[j]).pos == behind;
        assert(j != sel);
        assert(moved.actors[j].pos == behind);
        assert(has_actor_at(moved, behind));
    }
    assert(occupied(moved, behind));
    let b2 = move_occupant(moved, behind, a);
    assert(actor_move(lv, b, sel, d) == Some(b2));
    let c = close_doors(lv, doors_open(lv, b), b2);
    lemma_crush_keeps_doors(lv, b2);
    assert(apply_action(lv, g, Action::Move(d)).0.board == c);
    lemma_move_occupant_effect(moved, behind, a);
    assert forall|j: int| 0 <= j < b.actors.len() && j != sel && (#[trigger] b.actors[j]).pos == behind implies c.actors[j].pos
        == a by {
        assert(moved.actors[j] == b.actors[j]);
    }
    assert forall|j: int| 0 <= j < b.actors.len() && j != sel && (#[trigger] b.actors[j]).pos != behind implies c.actors[j].pos
        == b.actors[j].pos by {
        assert(moved.actors[j] == b.actors[j]);
    }
    assert(c.actors[sel].pos == next) by {
        assert(moved.actors[sel].pos == next);
    }
    if b.stones.contains(behind) {
        assert(moved.stones.contains(behind));
        assert(b2.stones.contains(a));
        lemma_close_doors_stones(lv, b, b2, a);
        assert(!b2.stones.contains(behind));
    }
}

} // verus!
