//! Text views of a game: the map as characters, a report of the whole state,
//! and a description for the player.
use vstd::prelude::*;
use crate::board::{Board, actor_index_from, doors_open};
use crate::game::{Game, trapped, won};
use crate::level::{Level, LevelView, line_ranges, text_lines};
use crate::board::contains_pos;
use crate::text::chars_of;
use crate::text::{decimal, push_char, push_decimal, push_text, string_from_range};
use crate::types::{Actor, Pos, actor_label, actor_symbol, strictly_sorted, tile_symbol};

verus! {

/// The character that shows cell `p`: the first actor there, else a stone,
/// else the tile.
pub open spec fn cell_char(lv: LevelView, b: Board, p: Pos) -> char {
    match actor_index_from(b.actors, p, 0) {
        Some(i) => actor_symbol(b.actors[i as int].kind),
        None => if b.stones.contains(p) {
            '$'
        } else {
            tile_symbol(lv.tile_at(p))
        },
    }
}

/// Row `y` of the map as characters.
pub open spec fn row_text(lv: LevelView, b: Board, y: int) -> Seq<char> {
    Seq::new(lv.width, |x: int| cell_char(lv, b, Pos { x: x as usize, y: y as usize }))
}

/// The first `n` rows, each but the last followed by a line break.
pub open spec fn rows_text(lv: LevelView, b: Board, n: int) -> Seq<char>
    decreases n,
{
    if n <= 0 {
        seq![]
    } else if n == 1 {
        row_text(lv, b, 0)
    } else {
        rows_text(lv, b, n - 1) + seq!['\n'] + row_text(lv, b, n - 1)
    }
}

/// The map with everything on it, row by row.
pub open spec fn render_text(lv: LevelView, b: Board) -> Seq<char> {
    rows_text(lv, b, lv.height as int)
}

/// A row of walls as wide as the map with its ring.
pub open spec fn wall_row(lv: LevelView) -> Seq<char> {
    Seq::new(lv.width + 2, |i: int| '#')
}

/// The map inside a ring of walls: a row of walls, each row of the map
/// between two walls, a row of walls; one line each.
pub open spec fn bordered_text(lv: LevelView, b: Board) -> Seq<char> {
    wall_row(lv) + bordered_rows(lv, b, lv.height as int) + seq!['\n'] + wall_row(lv)
}

/// The first `n` rows between walls, each after a line break.
pub open spec fn bordered_rows(lv: LevelView, b: Board, n: int) -> Seq<char>
    decreases n,
{
    if n <= 0 {
        seq![]
    } else {
        bordered_rows(lv, b, n - 1) + seq!['\n', '#'] + row_text(lv, b, n - 1) + seq!['#']
    }
}

/// The indices of the first `n` actors that are trapped, in order.
pub open spec fn trapped_upto(lv: LevelView, b: Board, n: int) -> Seq<usize>
    decreases n,
{
    if n <= 0 {
        seq![]
    } else {
        trapped_upto(lv, b, n - 1) + if trapped(lv, b, n - 1) {
            seq![(n - 1) as usize]
        } else {
            seq![]
        }
    }
}

/// The state of a game, as plain data.
#[derive(Debug)]
pub struct GameReport {
    pub level: String,
    pub grid: Vec<String>,
    pub actors: Vec<Actor>,
    pub stones: Vec<Pos>,
    pub selected_actor: usize,
    pub trapped_actors: Vec<usize>,
    pub doors_open: bool,
    pub won: bool,
    pub actions: String,
}

/// The model of a [`GameReport`].
pub struct GameReportView {
    pub level: Seq<char>,
    pub grid: Seq<Seq<char>>,
    pub actors: Seq<Actor>,
    pub stones: Seq<Pos>,
    pub selected_actor: nat,
    pub trapped_actors: Seq<usize>,
    pub doors_open: bool,
    pub won: bool,
    pub actions: Seq<char>,
}

impl View for GameReport {
    type V = GameReportView;

    open spec fn view(&self) -> GameReportView {
        GameReportView {
            level: self.level@,
            grid: self.grid@.map_values(|s: String| s@),
            actors: self.actors@,
            stones: self.stones@,
            selected_actor: self.selected_actor as nat,
            trapped_actors: self.trapped_actors@,
            doors_open: self.doors_open,
            won: self.won,
            actions: self.actions@,
        }
    }
}

/// How the description names the state of the doors.
pub open spec fn doors_text(lv: LevelView, b: Board, sel: nat) -> Seq<char> {
    if doors_open(lv, b) {
        "开"@
    } else if trapped(lv, b, sel as int) {
        "关（当前角色被卡住）"@
    } else {
        "关"@
    }
}

/// How the description says whether the level is won.
pub open spec fn won_text(lv: LevelView, b: Board) -> Seq<char> {
    if won(lv, b) {
        "是"@
    } else {
        "否"@
    }
}

/// The status line shown under the map while playing: the selected actor,
/// where it stands and whether it is trapped, the doors, and the recorded
/// actions.
pub open spec fn status_text(lv: LevelView, b: Board, sel: nat, actions: Seq<char>) -> Seq<char> {
    let actor = b.actors[sel as int];
    "Current: "@ + seq![actor_symbol(actor.kind)] + "("@ + actor_label(actor.kind) + ") @ ("@ + decimal(
        actor.pos.x as nat,
    ) + ", "@ + decimal(actor.pos.y as nat) + ")"@ + (if trapped(lv, b, sel as int) {
        " [trapped]"@
    } else {
        seq![]
    }) + "    Doors: "@ + (if doors_open(lv, b) {
        "open"@
    } else {
        "closed"@
    }) + "    Actions: "@ + actions
}

/// The description: the map in its ring of walls, then the level, the selected actor and where it
/// stands, the doors, whether the level is won, and the recorded actions.
pub open spec fn describe_text(lv: LevelView, b: Board, sel: nat, actions: Seq<char>) -> Seq<char> {
    let actor = b.actors[sel as int];
    bordered_text(lv, b) + "\n关卡 "@ + lv.name + "  当前角色 "@ + seq![actor_symbol(actor.kind)] + "("@
        + actor_label(actor.kind) + ") @ ("@ + decimal(actor.pos.x as nat) + ", "@ + decimal(
        actor.pos.y as nat,
    ) + ")  门 "@ + doors_text(lv, b, sel) + "  通关 "@ + won_text(lv, b) + "\n动作 "@ + actions
}


impl<'a> Game<'a> {
    #[verifier::loop_isolation(false)]
    fn cell_char(&self, p: Pos) -> (c: char)
        requires
            self.wf(),
        ensures
            c == cell_char(self.lv(), self@.board, p),
    {
        proof {
            self.lemma_view();
            self.lemma_wf();
        }
        let n = self.actors.len();
        let mut i: usize = 0;
        while i < n
            invariant
                n == self.actors@.len(),
                self@.board.actors == self.actors@,
                i <= n,
                actor_index_from(self.actors@, p, 0) == actor_index_from(self.actors@, p, i as int),
            decreases n - i,
        {
            if self.actors[i].pos == p {
                return self.actors[i].kind.symbol();
            }
            i = i + 1;
        }
        if contains_pos(&self.stones, p) {
            '$'
        } else {
            self.level.tile(p).symbol()
        }
    }

    /// The map with everything on it: one line per row, actors by their
    /// letters, stones as `$`, bare tiles by their symbols.
    pub fn render(&self) -> (s: String)
        requires
            self.wf(),
        ensures
            s@ == render_text(self.lv(), self@.board),
    {
        let level: &Level = self.level;
        let ghost lv = self.lv();
        let ghost b = self@.board;
        proof {
            self.lemma_view();
            level.lemma_fields();
        }
        let mut out = String::new();
        let mut y: usize = 0;
        while y < level.height
            invariant
                self.wf(),
                lv == self.lv(),
                lv == level@,
                b == self@.board,
                lv.height == level.height,
                y <= level.height,
                out@ == rows_text(lv, b, y as int),
            decreases level.height - y,
        {
            let ghost before = out@;
            if y > 0 {
                push_char(&mut out, '\n');
            }
            self.push_row(&mut out, y);
            proof {
                if y == 0 {
                    assert(out@ =~= rows_text(lv, b, 1));
                } else {
                    assert(out@ =~= rows_text(lv, b, y + 1));
                }
            }
            y = y + 1;
        }
        out
    }

    fn push_row(&self, out: &mut String, y: usize)
        requires
            self.wf(),
            y < self.lv().height,
        ensures
            final(out)@ == old(out)@ + row_text(self.lv(), self@.board, y as int),
    {
        let level: &Level = self.level;
        let ghost lv = self.lv();
        let ghost b = self@.board;
        proof {
            self.lemma_view();
            level.lemma_fields();
        }
        let ghost before = out@;
        let mut x: usize = 0;
        while x < level.width
            invariant
                self.wf(),
                lv == self.lv(),
                b == self@.board,
                lv.width == level.width,
                x <= level.width,
                out@ == before + row_text(lv, b, y as int).take(x as int),
            decreases level.width - x,
        {
            let c = self.cell_char(Pos { x, y });
            push_char(out, c);
            proof {
                assert(row_text(lv, b, y as int).take(x + 1) =~= row_text(lv, b, y as int).take(x as int).push(c));
            }
            x = x + 1;
        }
        proof {
            assert(row_text(lv, b, y as int).take(level.width as int) =~= row_text(lv, b, y as int));
        }
    }

    fn push_walls(&self, out: &mut String)
        requires
            self.wf(),
        ensures
            final(out)@ == old(out)@ + wall_row(self.lv()),
    {
        proof {
            self.lemma_wf();
            self.lemma_view();
            self.level.lemma_fields();
        }
        let ghost before = out@;
        let w = self.level.width;
        let mut i: usize = 0;
        while i < w
            invariant
                0 <= i <= w,
                out@ == before + Seq::new(i as nat, |k: int| '#'),
            decreases w - i,
        {
            push_char(out, '#');
            proof {
                assert(Seq::new((i + 1) as nat, |k: int| '#') =~= Seq::new(i as nat, |k: int| '#').push('#'));
            }
            i = i + 1;
        }
        push_char(out, '#');
        push_char(out, '#');
        proof {
            assert(wall_row(self.lv()) =~= Seq::new(w as nat, |k: int| '#').push('#').push('#'));
            assert(out@ =~= before + wall_row(self.lv()));
        }
    }

    /// The map inside a ring of walls, as the player sees it.
    pub fn render_bordered(&self) -> (s: String)
        requires
            self.wf(),
        ensures
            s@ == bordered_text(self.lv(), self@.board),
    {
        let ghost lv = self.lv();
        let ghost b = self@.board;
        proof {
            self.lemma_view();
            self.level.lemma_fields();
        }
        let mut out = String::new();
        self.push_walls(&mut out);
        let ghost top = out@;
        let mut y: usize = 0;
        while y < self.level.height
            invariant
                self.wf(),
                lv == self.lv(),
                b == self@.board,
                lv.height == self.level.height,
                y <= self.level.height,
                out@ == top + bordered_rows(lv, b, y as int),
            decreases self.level.height - y,
        {
            push_char(&mut out, '\n');
            push_char(&mut out, '#');
            self.push_row(&mut out, y);
            push_char(&mut out, '#');
            proof {
                assert(out@ =~= top + bordered_rows(lv, b, y + 1));
            }
            y = y + 1;
        }
        push_char(&mut out, '\n');
        self.push_walls(&mut out);
        proof {
            assert(out@ =~= bordered_text(lv, b));
        }
        out
    }

    /// The whole state as plain data.
    pub fn report(&self) -> (r: GameReport)
        requires
            self.wf(),
        ensures
            r@.level == self.lv().name,
            r@.grid == text_lines(render_text(self.lv(), self@.board)),
            r@.actors == self@.board.actors,
            strictly_sorted(r@.stones),
            r@.stones.to_set() == self@.board.stones,
            r@.selected_actor == self@.selected,
            r@.trapped_actors == trapped_upto(self.lv(), self@.board, self@.board.actors.len() as int),
            r@.doors_open == doors_open(self.lv(), self@.board),
            r@.won == won(self.lv(), self@.board),
            r@.actions == self@.actions,
    {
        proof {
            self.lemma_view();
            self.lemma_wf();
            self.level.lemma_fields();
        }
        let ghost lv = self.lv();
        let ghost b = self@.board;
        let rendered = self.render();
        let chars = chars_of(rendered.as_str());
        let lines = line_ranges(&chars);
        let mut grid: Vec<String> = Vec::new();
        for k in 0..lines.len()
            invariant
                lines@.len() == text_lines(chars@).len(),
                forall|t: int| 0 <= t < lines@.len() ==> (#[trigger] lines@[t]).0 <= lines@[t].1 && lines@[t].1 <= chars@.len(),
                forall|t: int| 0 <= t < lines@.len() ==> #[trigger] text_lines(chars@)[t] == chars@.subrange(lines@[t].0 as int, lines@[t].1 as int),
                grid@.map_values(|s: String| s@) == text_lines(chars@).take(k as int),
        {
            let (a, e) = lines[k];
            let line = string_from_range(&chars, a, e);
            let ghost g0 = grid@;
            grid.push(line);
            proof {
                assert(grid@.map_values(|s: String| s@) =~= g0.map_values(|s: String| s@).push(line@));
                assert(text_lines(chars@).take(k + 1) =~= text_lines(chars@).take(k as int).push(text_lines(chars@)[k as int]));
            }
        }
        proof {
            assert(text_lines(chars@).take(lines@.len() as int) =~= text_lines(chars@));
        }
        let n = self.actors.len();
        let mut trapped_actors: Vec<usize> = Vec::new();
        for i in 0..n
            invariant
                n == self.actors@.len(),
                self.wf(),
                lv == self.lv(),
                b == self@.board,
                b.actors == self.actors@,
                trapped_actors@ == trapped_upto(lv, b, i as int),
        {
            if self.actor_trapped(i) {
                trapped_actors.push(i);
            }
        }
        let mut name = String::new();
        push_text(&mut name, self.level.name.as_str());
        GameReport {
            level: name,
            grid,
            actors: crate::game::copy_vec(&self.actors),
            stones: crate::game::copy_vec(&self.stones),
            selected_actor: self.selected,
            trapped_actors,
            doors_open: self.doors_open(),
            won: self.won(),
            actions: self.action_sequence(),
        }
    }

    /// The map followed by a line on the level, the selected actor, the
    /// doors and the outcome, and a line with the recorded actions.
    pub fn describe(&self) -> (s: String)
        requires
            self.wf(),
        ensures
            s@ == describe_text(self.lv(), self@.board, self@.selected, self@.actions),
    {
        proof {
            self.lemma_view();
            self.lemma_wf();
            self.level.lemma_fields();
        }
        let mut output = self.render_bordered();
        let actor = self.actors[self.selected];
        push_text(&mut output, "\n关卡 ");
        push_text(&mut output, self.level.name.as_str());
        push_text(&mut output, "  当前角色 ");
        push_char(&mut output, actor.kind.symbol());
        push_text(&mut output, "(");
        push_text(&mut output, actor.kind.label());
        push_text(&mut output, ") @ (");
        push_decimal(&mut output, actor.pos.x);
        push_text(&mut output, ", ");
        push_decimal(&mut output, actor.pos.y);
        push_text(&mut output, ")  门 ");
        if self.doors_open() {
            push_text(&mut output, "开");
        } else if self.actor_trapped(self.selected) {
            push_text(&mut output, "关（当前角色被卡住）");
        } else {
            push_text(&mut output, "关");
        }
        push_text(&mut output, "  通关 ");
        if self.won() {
            push_text(&mut output, "是");
        } else {
            push_text(&mut output, "否");
        }
        push_text(&mut output, "\n动作 ");
        let actions = self.action_sequence();
        push_text(&mut output, actions.as_str());
        proof {
            assert(output@ =~= describe_text(self.lv(), self@.board, self@.selected, self@.actions));
        }
        output
    }

    /// The status line shown under the map while playing.
    pub fn status_line(&self) -> (s: String)
        requires
            self.wf(),
        ensures
            s@ == status_text(self.lv(), self@.board, self@.selected, self@.actions),
    {
        proof {
            self.lemma_view();
            self.lemma_wf();
            self.level.lemma_fields();
        }
        let actor = self.actors[self.selected];
        let mut output = String::new();
        push_text(&mut output, "Current: ");
        push_char(&mut output, actor.kind.symbol());
        push_text(&mut output, "(");
        push_text(&mut output, actor.kind.label());
        push_text(&mut output, ") @ (");
        push_decimal(&mut output, actor.pos.x);
        push_text(&mut output, ", ");
        push_decimal(&mut output, actor.pos.y);
        push_text(&mut output, ")");
        if self.actor_trapped(self.selected) {
            push_text(&mut output, " [trapped]");
        }
        push_text(&mut output, "    Doors: ");
        if self.doors_open() {
            push_text(&mut output, "open");
        } else {
            push_text(&mut output, "closed");
        }
        push_text(&mut output, "    Actions: ");
        let actions = self.action_sequence();
        push_text(&mut output, actions.as_str());
        proof {
            assert(output@ =~= status_text(self.lv(), self@.board, self@.selected, self@.actions));
        }
        output
    }
}

} // verus!
