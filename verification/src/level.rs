//! Levels: the text format of a level collection, its parser and the map model.
use vstd::prelude::*;
use crate::text::{is_space, is_space_char, chars_of, string_from_range, push_char, push_text};
use crate::types::{Actor, ActorKind, Pos, Tile, pos_before, strictly_sorted};

verus! {

// ---------------------------------------------------------------------------
// Lines, as `str::lines` splits them.

/// The index of the first `'\n'` at or after `i`, or the length of `s`.
pub open spec fn line_end(s: Seq<char>, i: int) -> int
    decreases s.len() - i,
{
    if i < 0 || i >= s.len() {
        s.len() as int
    } else if s[i] == '\n' {
        i
    } else {
        line_end(s, i + 1)
    }
}

pub proof fn lemma_line_end(s: Seq<char>, i: int)
    requires
        0 <= i <= s.len(),
    ensures
        i <= line_end(s, i) <= s.len(),
        line_end(s, i) < s.len() ==> s[line_end(s, i)] == '\n',
        forall|j: int| i <= j < line_end(s, i) ==> s[j] != '\n',
    decreases s.len() - i,
{
    if i < s.len() && s[i] != '\n' {
        lemma_line_end(s, i + 1);
    }
}

/// `s` without one final carriage return.
pub open spec fn strip_cr(s: Seq<char>) -> Seq<char> {
    if s.len() > 0 && s.last() == '\r' {
        s.drop_last()
    } else {
        s
    }
}

/// The lines of `s` from index `i` on: split at `'\n'`, a `'\r'` just before a
/// `'\n'` dropped, no empty line after a final `'\n'`.
pub open spec fn lines_from(s: Seq<char>, i: int) -> Seq<Seq<char>>
    decreases s.len() - i,
{
    if i < 0 || i >= s.len() {
        seq![]
    } else {
        let e = line_end(s, i);
        proof {
            lemma_line_end(s, i);
        }
        if e >= s.len() {
            seq![s.subrange(i, s.len() as int)]
        } else {
            seq![strip_cr(s.subrange(i, e))] + lines_from(s, e + 1)
        }
    }
}

/// The lines of a text.
pub open spec fn text_lines(s: Seq<char>) -> Seq<Seq<char>> {
    lines_from(s, 0)
}

// ---------------------------------------------------------------------------
// Trimming and level names.

/// `s` without leading white space.
pub open spec fn trim_start(s: Seq<char>) -> Seq<char>
    decreases s.len(),
{
    if s.len() > 0 && is_space(s[0]) {
        trim_start(s.drop_first())
    } else {
        s
    }
}

/// `s` without trailing white space.
pub open spec fn trim_end(s: Seq<char>) -> Seq<char>
    decreases s.len(),
{
    if s.len() > 0 && is_space(s.last()) {
        trim_end(s.drop_last())
    } else {
        s
    }
}

/// `s` without leading and trailing white space.
pub open spec fn trim(s: Seq<char>) -> Seq<char> {
    trim_end(trim_start(s))
}

/// `s` without any of its trailing carriage returns.
pub open spec fn strip_crs(s: Seq<char>) -> Seq<char>
    decreases s.len(),
{
    if s.len() > 0 && s.last() == '\r' {
        strip_crs(s.drop_last())
    } else {
        s
    }
}

/// Every character of `s` is white space.
pub open spec fn is_blank(s: Seq<char>) -> bool {
    forall|i: int| 0 <= i < s.len() ==> is_space(#[trigger] s[i])
}

pub open spec fn is_digit(c: char) -> bool {
    '0' <= c <= '9'
}

pub open spec fn all_digits(s: Seq<char>) -> bool {
    forall|i: int| 0 <= i < s.len() ==> is_digit(#[trigger] s[i])
}

/// A level name: digits, a `'-'`, digits, as `1-4` or `12-03`.
pub open spec fn is_level_name(s: Seq<char>) -> bool {
    exists|k: int|
        0 < k < s.len() - 1 && #[trigger] s[k] == '-' && all_digits(s.subrange(0, k))
            && all_digits(s.subrange(k + 1, s.len() as int))
}


// ---------------------------------------------------------------------------
// Executable text scanning over a character vector, by index ranges.

/// The lines of `c`, as index ranges into `c`.
#[verifier::loop_isolation(false)]
pub(crate) fn line_ranges(c: &Vec<char>) -> (r: Vec<(usize, usize)>)
    ensures
        r.len() == text_lines(c@).len(),
        forall|k: int| 0 <= k < r.len() ==> (#[trigger] r@[k]).0 <= r@[k].1 && r@[k].1 <= c.len(),
        forall|k: int|
            0 <= k < r.len() ==> #[trigger] text_lines(c@)[k] == c@.subrange(
                r@[k].0 as int,
                r@[k].1 as int,
            ),
{
    let n = c.len();
    let mut r: Vec<(usize, usize)> = Vec::new();
    let ghost mut done: Seq<Seq<char>> = seq![];
    let mut start: usize = 0;
    while start < n
        invariant
            n == c.len(),
            start <= n,
            text_lines(c@) == done + lines_from(c@, start as int),
            done.len() == r.len(),
            forall|k: int| 0 <= k < r.len() ==> (#[trigger] r@[k]).0 <= r@[k].1 && r@[k].1 <= c.len(),
            forall|k: int|
                0 <= k < r.len() ==> #[trigger] done[k] == c@.subrange(r@[k].0 as int, r@[k].1 as int),
        decreases n - start,
    {
        let mut e = start;
        while e < n && c[e] != '\n'
            invariant
                n == c.len(),
                start <= e <= n,
                line_end(c@, start as int) == line_end(c@, e as int),
            decreases n - e,
        {
            e = e + 1;
        }
        proof {
            lemma_line_end(c@, start as int);
        }
        let ghost line: Seq<char>;
        let ghost old_done = done;
        if e == n {
            r.push((start, e));
            proof {
                line = c@.subrange(start as int, n as int);
                assert(lines_from(c@, start as int) == seq![line] + lines_from(c@, n as int));
                done = done.push(line);
                assert(done.drop_last() == old_done);
            }
            start = n;
        } else {
            let mut b = e;
            if e > start && c[e - 1] == '\r' {
                b = e - 1;
                proof {
                    assert(c@.subrange(start as int, e as int).drop_last() =~= c@.subrange(
                        start as int,
                        b as int,
                    ));
                }
            }
            r.push((start, b));
            proof {
                line = c@.subrange(start as int, b as int);
                assert(line == strip_cr(c@.subrange(start as int, e as int)));
                assert(lines_from(c@, start as int) == seq![line] + lines_from(c@, e + 1));
                done = done.push(line);
                assert(done.drop_last() == old_done);
            }
            start = e + 1;
        }
        proof {
            assert(text_lines(c@) =~= done + lines_from(c@, start as int));
            assert forall|k: int| 0 <= k < r.len() implies #[trigger] done[k] == c@.subrange(
                r@[k].0 as int,
                r@[k].1 as int,
            ) by {
                if k < r.len() - 1 {
                    assert(done[k] == done.drop_last()[k]);
                }
            }
        }
    }
    proof {
        assert(lines_from(c@, start as int) =~= seq![]);
        assert(done =~= text_lines(c@));
    }
    r
}

/// The range of `c[a..b]` left after trimming white space at both ends.
fn trim_range(c: &Vec<char>, a: usize, b: usize) -> (r: (usize, usize))
    requires
        a <= b <= c.len(),
    ensures
        a <= r.0 <= r.1 <= b,
        c@.subrange(r.0 as int, r.1 as int) == trim(c@.subrange(a as int, b as int)),
{
    let mut i = a;
    while i < b && is_space_char(c[i])
        invariant
            a <= i <= b <= c.len(),
            trim_start(c@.subrange(a as int, b as int)) == trim_start(c@.subrange(i as int, b as int)),
        decreases b - i,
    {
        assert(c@.subrange(i as int, b as int).drop_first() =~= c@.subrange(i + 1, b as int));
        i = i + 1;
    }
    let mut j = b;
    while j > i && is_space_char(c[j - 1])
        invariant
            a <= i <= j <= b <= c.len(),
            trim_end(c@.subrange(i as int, b as int)) == trim_end(c@.subrange(i as int, j as int)),
        decreases j - i,
    {
        assert(c@.subrange(i as int, j as int).drop_last() =~= c@.subrange(i as int, j - 1));
        j = j - 1;
    }
    (i, j)
}

/// Whether `c[a..b]` is a level name.
fn is_level_name_range(c: &Vec<char>, a: usize, b: usize) -> (r: bool)
    requires
        a <= b <= c.len(),
    ensures
        r == is_level_name(c@.subrange(a as int, b as int)),
{
    let ghost s = c@.subrange(a as int, b as int);
    let mut k = a;
    while k < b && '0' <= c[k] && c[k] <= '9'
        invariant
            a <= k <= b <= c.len(),
            s == c@.subrange(a as int, b as int),
            forall|i: int| a <= i < k ==> is_digit(#[trigger] c@[i]),
        decreases b - k,
    {
        k = k + 1;
    }
    if k == a || k >= b || c[k] != '-' || k + 1 == b {
        proof {
            if is_level_name(s) {
                let m = choose|m: int|
                    0 < m < s.len() - 1 && #[trigger] s[m] == '-' && all_digits(s.subrange(0, m))
                        && all_digits(s.subrange(m + 1, s.len() as int));
                if m < k - a {
                    assert(s.subrange(0, m + 1)[m] == s[m]);
                    assert(is_digit(c@[a + m]));
                } else {
                    assert(s.subrange(0, m)[k - a] == s[k - a]);
                    assert(is_digit(s[k - a]));
                }
            }
        }
        return false;
    }
    let mut t = k + 1;
    while t < b && '0' <= c[t] && c[t] <= '9'
        invariant
            a < k < t <= b <= c.len(),
            forall|i: int| k < i < t ==> is_digit(#[trigger] c@[i]),
        decreases b - t,
    {
        t = t + 1;
    }
    proof {
        let m = k - a;
        if t == b {
            assert(s[m] == '-');
            assert forall|i: int| 0 <= i < s.subrange(0, m).len() implies is_digit(#[trigger] s.subrange(0, m)[i]) by {
                assert(s.subrange(0, m)[i] == c@[a + i]);
            }
            assert forall|i: int| 0 <= i < s.subrange(m + 1, s.len() as int).len() implies is_digit(
                #[trigger] s.subrange(m + 1, s.len() as int)[i],
            ) by {
                assert(s.subrange(m + 1, s.len() as int)[i] == c@[k + 1 + i]);
            }
        } else {
            if is_level_name(s) {
                let m2 = choose|m2: int|
                    0 < m2 < s.len() - 1 && #[trigger] s[m2] == '-' && all_digits(s.subrange(0, m2))
                        && all_digits(s.subrange(m2 + 1, s.len() as int));
                if m2 < m {
                    assert(s.subrange(0, m + 0)[m2] == s[m2]);
                    assert(is_digit(c@[a + m2]));
                } else if m2 > m {
                    assert(s.subrange(0, m2)[m] == s[m]);
                } else {
                    assert(s.subrange(m + 1, s.len() as int)[t - k - 1] == c@[t as int]);
                }
            }
        }
    }
    t == b
}


// ---------------------------------------------------------------------------
// The map of a level.

/// The tile that a map character stands on: `-` and a space are floor, as
/// are the cells of stones and actors; `None` for a character that is no
/// part of the format.
pub open spec fn cell_tile(c: char) -> Option<Tile> {
    if c == '-' || c == ' ' || c == '$' || c == 'A' || c == 'B' || c == 'C' {
        Some(Tile::Floor)
    } else if c == '#' {
        Some(Tile::Wall)
    } else if c == '_' {
        Some(Tile::Switch)
    } else if c == '|' {
        Some(Tile::Door)
    } else if c == '.' {
        Some(Tile::Goal)
    } else {
        None
    }
}

/// The actor that a map character places.
pub open spec fn cell_actor(c: char) -> Option<ActorKind> {
    if c == 'A' {
        Some(ActorKind::Warrior)
    } else if c == 'B' {
        Some(ActorKind::Thief)
    } else if c == 'C' {
        Some(ActorKind::Wizard)
    } else {
        None
    }
}

/// The first character of `row` from index `i` on that is no map character.
pub open spec fn first_invalid_from(row: Seq<char>, i: int) -> Option<char>
    decreases row.len() - i,
{
    if i < 0 || i >= row.len() {
        None
    } else if cell_tile(row[i]) is None {
        Some(row[i])
    } else {
        first_invalid_from(row, i + 1)
    }
}

/// The non-blank rows of lines `from..to`, each with its line number (counted
/// from 1) and without its trailing carriage returns.
pub open spec fn section_rows(lines: Seq<Seq<char>>, from: int, to: int) -> Seq<(nat, Seq<char>)>
    decreases to - from,
{
    if to <= from || from < 0 {
        seq![]
    } else {
        let rest = section_rows(lines, from, to - 1);
        let row = strip_crs(lines[to - 1]);
        if is_blank(row) {
            rest
        } else {
            rest.push((to as nat, row))
        }
    }
}

/// The tiles of `rows`, row after row.
pub open spec fn grid_tiles(rows: Seq<(nat, Seq<char>)>) -> Seq<Tile>
    decreases rows.len(),
{
    if rows.len() == 0 {
        seq![]
    } else {
        grid_tiles(rows.drop_last()) + rows.last().1.map_values(|c: char| cell_tile(c).unwrap())
    }
}

/// The actors that the first `n` characters of `row`, the row at height `y`, place.
pub open spec fn row_actors(row: Seq<char>, y: int, n: int) -> Seq<Actor>
    decreases n,
{
    if n <= 0 {
        seq![]
    } else {
        row_actors(row, y, n - 1) + match cell_actor(row[n - 1]) {
            Some(kind) => seq![Actor { kind, pos: Pos { x: (n - 1) as usize, y: y as usize } }],
            None => seq![],
        }
    }
}

/// The stones that the first `n` characters of `row`, the row at height `y`, place.
pub open spec fn row_stones(row: Seq<char>, y: int, n: int) -> Seq<Pos>
    decreases n,
{
    if n <= 0 {
        seq![]
    } else {
        row_stones(row, y, n - 1) + if row[n - 1] == '$' {
            seq![Pos { x: (n - 1) as usize, y: y as usize }]
        } else {
            seq![]
        }
    }
}

/// The actors of the first `h` rows, in reading order.
pub open spec fn grid_actors(rows: Seq<(nat, Seq<char>)>, h: int) -> Seq<Actor>
    decreases h,
{
    if h <= 0 {
        seq![]
    } else {
        grid_actors(rows, h - 1) + row_actors(rows[h - 1].1, h - 1, rows[h - 1].1.len() as int)
    }
}

/// The stones of the first `h` rows, in reading order.
pub open spec fn grid_stones(rows: Seq<(nat, Seq<char>)>, h: int) -> Seq<Pos>
    decreases h,
{
    if h <= 0 {
        seq![]
    } else {
        grid_stones(rows, h - 1) + row_stones(rows[h - 1].1, h - 1, rows[h - 1].1.len() as int)
    }
}

// ---------------------------------------------------------------------------
// Levels and their errors.

/// What a level is: its name, its map and what stands on it at the start.
pub struct LevelView {
    pub name: Seq<char>,
    pub width: nat,
    pub height: nat,
    /// The tiles, row after row.
    pub tiles: Seq<Tile>,
    pub actors: Seq<Actor>,
    /// The stones, in reading order.
    pub stones: Seq<Pos>,
}

pub open spec fn in_bounds(width: nat, height: nat, p: Pos) -> bool {
    p.x < width && p.y < height
}

/// No two actors share a cell, and no actor shares one with a stone.
pub open spec fn objects_apart(actors: Seq<Actor>, stones: Set<Pos>) -> bool {
    &&& forall|i: int, j: int|
        0 <= i < actors.len() && 0 <= j < actors.len() && i != j ==> (#[trigger] actors[i]).pos
            != (#[trigger] actors[j]).pos
    &&& forall|i: int| 0 <= i < actors.len() ==> !stones.contains((#[trigger] actors[i]).pos)
}

impl LevelView {
    /// The tile at `p`; outside the map every cell is a wall.
    pub open spec fn tile_at(self, p: Pos) -> Tile {
        if in_bounds(self.width, self.height, p) {
            self.tiles[p.y * self.width + p.x]
        } else {
            Tile::Wall
        }
    }

    /// The level is one that the parser can produce; in particular, every
    /// actor and every stone starts on a floor cell.
    pub open spec fn wf(self) -> bool {
        &&& self.tiles.len() == self.width * self.height
        &&& self.actors.len() > 0
        &&& objects_apart(self.actors, self.stones.to_set())
        &&& strictly_sorted(self.stones)
        &&& forall|i: int|
            0 <= i < self.actors.len() ==> in_bounds(
                self.width,
                self.height,
                (#[trigger] self.actors[i]).pos,
            )
        &&& forall|i: int|
            0 <= i < self.stones.len() ==> in_bounds(self.width, self.height, #[trigger] self.stones[i])
        &&& forall|i: int| 0 <= i < self.actors.len() ==> self.tile_at((#[trigger] self.actors[i]).pos) == Tile::Floor
        &&& forall|i: int| 0 <= i < self.stones.len() ==> self.tile_at(#[trigger] self.stones[i]) == Tile::Floor
    }
}

/// The model of [`LevelError`].
pub enum LevelErrorView {
    NoLevels,
    DuplicateName { line: nat, name: Seq<char> },
    EmptyMap { name: Seq<char> },
    UnevenWidth { name: Seq<char>, line: nat, actual: nat, expected: nat },
    InvalidTile { name: Seq<char>, line: nat, character: char },
    NoActors { name: Seq<char> },
}

/// The first of the rows from index `i` on that is too wide or too narrow, or
/// holds a character that is no map character.
pub open spec fn rows_error(name: Seq<char>, rows: Seq<(nat, Seq<char>)>, width: nat, i: int) -> Option<LevelErrorView>
    decreases rows.len() - i,
{
    if i < 0 || i >= rows.len() {
        None
    } else if rows[i].1.len() != width {
        Some(LevelErrorView::UnevenWidth { name, line: rows[i].0, actual: rows[i].1.len(), expected: width })
    } else {
        match first_invalid_from(rows[i].1, 0) {
            Some(character) => Some(LevelErrorView::InvalidTile { name, line: rows[i].0, character }),
            None => rows_error(name, rows, width, i + 1),
        }
    }
}

/// The indices of the first `n` lines whose trimmed text is a level name.
pub open spec fn header_indices(lines: Seq<Seq<char>>, n: int) -> Seq<int>
    decreases n,
{
    if n <= 0 {
        seq![]
    } else {
        header_indices(lines, n - 1) + if is_level_name(trim(lines[n - 1])) {
            seq![n - 1]
        } else {
            seq![]
        }
    }
}

/// The level whose header is the `k`-th one: its name, then its map, the rows up
/// to the next header.
pub open spec fn section_level(lines: Seq<Seq<char>>, starts: Seq<int>, k: int) -> Result<LevelView, LevelErrorView> {
    let header = starts[k];
    let name = trim(lines[header]);
    if exists|j: int| 0 <= j < k && trim(lines[#[trigger] starts[j]]) == name {
        Err(LevelErrorView::DuplicateName { line: (header + 1) as nat, name })
    } else {
        let end = if k + 1 < starts.len() { starts[k + 1] } else { lines.len() as int };
        let rows = section_rows(lines, header + 1, end);
        if rows.len() == 0 {
            Err(LevelErrorView::EmptyMap { name })
        } else {
            let width = rows[0].1.len();
            match rows_error(name, rows, width, 0) {
                Some(e) => Err(e),
                None => {
                    let actors = grid_actors(rows, rows.len() as int);
                    if actors.len() == 0 {
                        Err(LevelErrorView::NoActors { name })
                    } else {
                        Ok(
                            LevelView {
                                name,
                                width,
                                height: rows.len(),
                                tiles: grid_tiles(rows),
                                actors,
                                stones: grid_stones(rows, rows.len() as int),
                            },
                        )
                    }
                },
            }
        }
    }
}

/// The levels of sections `k..`, or the error of the first section that has one.
pub open spec fn levels_from(lines: Seq<Seq<char>>, starts: Seq<int>, k: int) -> Result<Seq<LevelView>, LevelErrorView>
    decreases starts.len() - k,
{
    if k < 0 || k >= starts.len() {
        Ok(seq![])
    } else {
        match section_level(lines, starts, k) {
            Err(e) => Err(e),
            Ok(level) => match levels_from(lines, starts, k + 1) {
                Err(e) => Err(e),
                Ok(rest) => Ok(seq![level] + rest),
            },
        }
    }
}

/// What a level collection holds: every line whose trimmed text is a level
/// name starts a level, and the non-blank lines up to the next such line are its map.
pub open spec fn parse_levels_spec(input: Seq<char>) -> Result<Seq<LevelView>, LevelErrorView> {
    let lines = text_lines(input);
    let starts = header_indices(lines, lines.len() as int);
    if starts.len() == 0 {
        Err(LevelErrorView::NoLevels)
    } else {
        levels_from(lines, starts, 0)
    }
}

/// Why a level collection could not be read.
#[derive(Debug, Clone)]
pub enum LevelError {
    NoLevels,
    DuplicateName { line: usize, name: String },
    EmptyMap { name: String },
    UnevenWidth { name: String, line: usize, actual: usize, expected: usize },
    InvalidTile { name: String, line: usize, character: char },
    NoActors { name: String },
}

impl View for LevelError {
    type V = LevelErrorView;

    open spec fn view(&self) -> LevelErrorView {
        match self {
            LevelError::NoLevels => LevelErrorView::NoLevels,
            LevelError::DuplicateName { line, name } => LevelErrorView::DuplicateName {
                line: *line as nat,
                name: name@,
            },
            LevelError::EmptyMap { name } => LevelErrorView::EmptyMap { name: name@ },
            LevelError::UnevenWidth { name, line, actual, expected } => LevelErrorView::UnevenWidth {
                name: name@,
                line: *line as nat,
                actual: *actual as nat,
                expected: *expected as nat,
            },
            LevelError::InvalidTile { name, line, character } => LevelErrorView::InvalidTile {
                name: name@,
                line: *line as nat,
                character: *character,
            },
            LevelError::NoActors { name } => LevelErrorView::NoActors { name: name@ },
        }
    }
}

/// A level: its name, its map and what stands on it at the start.
#[derive(Debug, Clone)]
pub struct Level {
    pub name: String,
    pub width: usize,
    pub height: usize,
    pub(crate) tiles: Vec<Tile>,
    pub(crate) initial_actors: Vec<Actor>,
    pub(crate) initial_stones: Vec<Pos>,
}

impl View for Level {
    type V = LevelView;

    closed spec fn view(&self) -> LevelView {
        LevelView {
            name: self.name@,
            width: self.width as nat,
            height: self.height as nat,
            tiles: self.tiles@,
            actors: self.initial_actors@,
            stones: self.initial_stones@,
        }
    }
}

impl Level {
    /// The level's name and size are the fields of the same names.
    pub(crate) broadcast proof fn lemma_fields(&self)
        ensures
            #[trigger] self@.name == self.name@,
            self@.width == self.width,
            self@.height == self.height,
            self@.tiles == self.tiles@,
            self@.actors == self.initial_actors@,
            self@.stones == self.initial_stones@,
    {
    }
}


// ---------------------------------------------------------------------------
// The parser.

fn cell_tile_of(c: char) -> (r: Option<Tile>)
    ensures
        r == cell_tile(c),
{
    if c == '-' || c == ' ' || c == '$' || c == 'A' || c == 'B' || c == 'C' {
        Some(Tile::Floor)
    } else if c == '#' {
        Some(Tile::Wall)
    } else if c == '_' {
        Some(Tile::Switch)
    } else if c == '|' {
        Some(Tile::Door)
    } else if c == '.' {
        Some(Tile::Goal)
    } else {
        None
    }
}

fn cell_actor_of(c: char) -> (r: Option<ActorKind>)
    ensures
        r == cell_actor(c),
{
    if c == 'A' {
        Some(ActorKind::Warrior)
    } else if c == 'B' {
        Some(ActorKind::Thief)
    } else if c == 'C' {
        Some(ActorKind::Wizard)
    } else {
        None
    }
}

/// Whether `c[a0..a1]` and `c[b0..b1]` hold the same characters.
fn ranges_equal(c: &Vec<char>, a0: usize, a1: usize, b0: usize, b1: usize) -> (r: bool)
    requires
        a0 <= a1 <= c.len(),
        b0 <= b1 <= c.len(),
    ensures
        r == (c@.subrange(a0 as int, a1 as int) == c@.subrange(b0 as int, b1 as int)),
{
    if a1 - a0 != b1 - b0 {
        assert(c@.subrange(a0 as int, a1 as int).len() != c@.subrange(b0 as int, b1 as int).len());
        return false;
    }
    let n = a1 - a0;
    let ghost sa = c@.subrange(a0 as int, a1 as int);
    let ghost sb = c@.subrange(b0 as int, b1 as int);
    let mut i: usize = 0;
    while i < n
        invariant
            n == a1 - a0 == b1 - b0,
            a0 <= a1 <= c.len(),
            b0 <= b1 <= c.len(),
            sa == c@.subrange(a0 as int, a1 as int),
            sb == c@.subrange(b0 as int, b1 as int),
            i <= n,
            forall|t: int| 0 <= t < i ==> #[trigger] sa[t] == sb[t],
        decreases n - i,
    {
        if c[a0 + i] != c[b0 + i] {
            proof {
                assert(sa[i as int] != sb[i as int]);
            }
            return false;
        }
        i = i + 1;
    }
    proof {
        assert(sa =~= sb);
    }
    true
}

/// The spec's lines are the ranges that `ranges` gives into `c`.
pub open spec fn lines_match(c: Seq<char>, lines: Seq<(usize, usize)>, tl: Seq<Seq<char>>) -> bool {
    &&& lines.len() == tl.len()
    &&& forall|k: int| 0 <= k < lines.len() ==> (#[trigger] lines[k]).0 <= lines[k].1 && lines[k].1 <= c.len()
    &&& forall|k: int| 0 <= k < lines.len() ==> #[trigger] tl[k] == c.subrange(lines[k].0 as int, lines[k].1 as int)
}

/// The non-blank rows of lines `from..to`: line number and the range of the row in `c`.
#[verifier::loop_isolation(false)]
fn collect_rows(
    c: &Vec<char>,
    lines: &Vec<(usize, usize)>,
    from: usize,
    to: usize,
    Ghost(tl): Ghost<Seq<Seq<char>>>,
) -> (rows: Vec<(usize, usize, usize)>)
    requires
        lines_match(c@, lines@, tl),
        from <= to <= lines.len(),
    ensures
        rows.len() == section_rows(tl, from as int, to as int).len(),
        forall|k: int| 0 <= k < rows.len() ==> (#[trigger] rows@[k]).1 <= rows@[k].2 && rows@[k].2 <= c.len(),
        forall|k: int|
            0 <= k < rows.len() ==> #[trigger] section_rows(tl, from as int, to as int)[k] == (
                rows@[k].0 as nat,
                c@.subrange(rows@[k].1 as int, rows@[k].2 as int),
            ),
{
    let mut rows: Vec<(usize, usize, usize)> = Vec::new();
    let mut i = from;
    while i < to
        invariant
            from <= i <= to,
            rows.len() == section_rows(tl, from as int, i as int).len(),
            forall|k: int| 0 <= k < rows.len() ==> (#[trigger] rows@[k]).1 <= rows@[k].2 && rows@[k].2 <= c.len(),
            forall|k: int|
                0 <= k < rows.len() ==> #[trigger] section_rows(tl, from as int, i as int)[k] == (
                    rows@[k].0 as nat,
                    c@.subrange(rows@[k].1 as int, rows@[k].2 as int),
                ),
        decreases to - i,
    {
        let (a, b0) = lines[i];
        assert(tl[i as int] == c@.subrange(a as int, b0 as int));
        let mut b = b0;
        while b > a && c[b - 1] == '\r'
            invariant
                a <= b <= b0 <= c.len(),
                strip_crs(c@.subrange(a as int, b0 as int)) == strip_crs(c@.subrange(a as int, b as int)),
            decreases b,
        {
            assert(c@.subrange(a as int, b as int).drop_last() =~= c@.subrange(a as int, b - 1));
            b = b - 1;
        }
        let ghost row = c@.subrange(a as int, b as int);
        assert(row == strip_crs(tl[i as int]));
        let mut j = a;
        while j < b && is_space_char(c[j])
            invariant
                a <= j <= b <= c.len(),
                forall|t: int| a <= t < j ==> is_space(#[trigger] c@[t]),
            decreases b - j,
        {
            j = j + 1;
        }
        let ghost prev = section_rows(tl, from as int, i as int);
        if j < b {
            proof {
                assert(row[j - a] == c@[j as int]);
            }
            rows.push((i + 1, a, b));
            proof {
                assert(section_rows(tl, from as int, i + 1) == prev.push(((i + 1) as nat, row)));
                assert forall|k: int| 0 <= k < rows.len() implies #[trigger] section_rows(tl, from as int, i + 1)[k] == (
                    rows@[k].0 as nat,
                    c@.subrange(rows@[k].1 as int, rows@[k].2 as int),
                ) by {
                    if k < rows.len() - 1 {
                        assert(section_rows(tl, from as int, i + 1)[k] == prev[k]);
                    }
                }
            }
        } else {
            proof {
                assert forall|t: int| 0 <= t < row.len() implies is_space(#[trigger] row[t]) by {
                    assert(row[t] == c@[a + t]);
                }
                assert(section_rows(tl, from as int, i + 1) == prev);
            }
        }
        i = i + 1;
    }
    rows
}

proof fn lemma_mul_next_row(r: int, w: int)
    ensures
        r * w + w == (r + 1) * w,
        r * w == w * r,
{
    assert(r * w + w == (r + 1) * w) by (nonlinear_arith);
    assert(r * w == w * r) by (nonlinear_arith);
}

/// A cell read before the cell `(x, y)` of a grid `width` wide has the lower index.
proof fn lemma_index_before(p: Pos, x: int, y: int, width: int)
    requires
        p.y < y || (p.y == y && p.x < x),
        p.x < width,
        0 <= x,
    ensures
        p.y * width + p.x < y * width + x,
{
    if p.y < y {
        assert(p.y * width + width <= y * width) by (nonlinear_arith)
            requires
                p.y < y,
                0 <= p.x < width,
        ;
    }
}

proof fn lemma_grid_step(rows: Seq<(nat, Seq<char>)>, r: int)
    requires
        0 <= r < rows.len(),
    ensures
        grid_tiles(rows.take(r + 1)) == grid_tiles(rows.take(r)) + rows[r].1.map_values(
            |c: char| cell_tile(c).unwrap(),
        ),
{
    assert(rows.take(r + 1).drop_last() =~= rows.take(r));
    assert(rows.take(r + 1).last() == rows[r]);
}

/// The map of a section: its tiles, actors and stones, or the first error in its rows.
#[verifier::loop_isolation(false)]
#[verifier::rlimit(50)]
fn build_grid(
    c: &Vec<char>,
    rows: &Vec<(usize, usize, usize)>,
    name_a: usize,
    name_b: usize,
    Ghost(srows): Ghost<Seq<(nat, Seq<char>)>>,
) -> (r: Result<(Vec<Tile>, Vec<Actor>, Vec<Pos>), LevelError>)
    requires
        name_a <= name_b <= c.len(),
        rows.len() > 0,
        srows.len() == rows.len(),
        forall|k: int| 0 <= k < rows.len() ==> (#[trigger] rows@[k]).1 <= rows@[k].2 && rows@[k].2 <= c.len(),
        forall|k: int|
            0 <= k < rows.len() ==> #[trigger] srows[k] == (
                rows@[k].0 as nat,
                c@.subrange(rows@[k].1 as int, rows@[k].2 as int),
            ),
    ensures
        ({
            let name = c@.subrange(name_a as int, name_b as int);
            let width = srows[0].1.len();
            match r {
                Err(e) => rows_error(name, srows, width, 0) == Some(e@),
                Ok((tiles, actors, stones)) => {
                    &&& rows_error(name, srows, width, 0) is None
                    &&& tiles@ == grid_tiles(srows)
                    &&& actors@ == grid_actors(srows, srows.len() as int)
                    &&& stones@ == grid_stones(srows, srows.len() as int)
                    &&& tiles@.len() == width * srows.len()
                    &&& objects_apart(actors@, stones@.to_set())
                    &&& strictly_sorted(stones@)
                    &&& forall|i: int| 0 <= i < actors@.len() ==> in_bounds(width, srows.len(), (#[trigger] actors@[i]).pos)
                    &&& forall|i: int| 0 <= i < stones@.len() ==> in_bounds(width, srows.len(), #[trigger] stones@[i])
                    &&& forall|i: int| 0 <= i < actors@.len() ==>
                        tiles@[(#[trigger] actors@[i]).pos.y * width + actors@[i].pos.x] == Tile::Floor
                    &&& forall|i: int| 0 <= i < stones@.len() ==>
                        tiles@[(#[trigger] stones@[i]).y * width + stones@[i].x] == Tile::Floor
                },
            }
        }),
{
    let ghost name = c@.subrange(name_a as int, name_b as int);
    let width = rows[0].2 - rows[0].1;
    assert(srows[0].1.len() == width);
    let h = rows.len();
    let mut tiles: Vec<Tile> = Vec::new();
    let mut actors: Vec<Actor> = Vec::new();
    let mut stones: Vec<Pos> = Vec::new();
    let mut y: usize = 0;
    while y < h
        invariant
            h == rows.len() == srows.len(),
            y <= h,
            rows_error(name, srows, width as nat, 0) == rows_error(name, srows, width as nat, y as int),
            tiles@ == grid_tiles(srows.take(y as int)),
            tiles@.len() == y * width,
            actors@ == grid_actors(srows, y as int),
            stones@ == grid_stones(srows, y as int),
            forall|i: int| 0 <= i < actors@.len() ==> (#[trigger] actors@[i]).pos.y < y && actors@[i].pos.x < width,
            forall|i: int| 0 <= i < stones@.len() ==> (#[trigger] stones@[i]).y < y && stones@[i].x < width,
            forall|i: int| 0 <= i < actors@.len() ==>
                tiles@[(#[trigger] actors@[i]).pos.y * width + actors@[i].pos.x] == Tile::Floor,
            forall|i: int| 0 <= i < stones@.len() ==>
                tiles@[(#[trigger] stones@[i]).y * width + stones@[i].x] == Tile::Floor,
            objects_apart(actors@, stones@.to_set()),
            strictly_sorted(stones@),
        decreases h - y,
    {
        let (line, a, b) = rows[y];
        let ghost row = srows[y as int].1;
        assert(row == c@.subrange(a as int, b as int));
        if b - a != width {
            let name_s = string_from_range(c, name_a, name_b);
            return Err(LevelError::UnevenWidth { name: name_s, line, actual: b - a, expected: width });
        }
        let ghost tiles0 = tiles@;
        let ghost actors0 = actors@;
        let ghost stones0 = stones@;
        let mut x: usize = 0;
        while x < width
            invariant
                x <= width == b - a,
                a <= b <= c.len(),
                row == c@.subrange(a as int, b as int),
                first_invalid_from(row, 0) == first_invalid_from(row, x as int),
                tiles@ == tiles0 + row.take(x as int).map_values(|c: char| cell_tile(c).unwrap()),
                tiles@.len() == y * width + x,
                actors@ == actors0 + row_actors(row, y as int, x as int),
                stones@ == stones0 + row_stones(row, y as int, x as int),
                forall|i: int| 0 <= i < actors@.len() ==> pos_before((#[trigger] actors@[i]).pos, Pos { x, y }) && actors@[i].pos.x < width,
                forall|i: int| 0 <= i < stones@.len() ==> pos_before(#[trigger] stones@[i], Pos { x, y }) && stones@[i].x < width,
                forall|i: int| 0 <= i < actors@.len() ==>
                    tiles@[(#[trigger] actors@[i]).pos.y * width + actors@[i].pos.x] == Tile::Floor,
                forall|i: int| 0 <= i < stones@.len() ==>
                    tiles@[(#[trigger] stones@[i]).y * width + stones@[i].x] == Tile::Floor,
                objects_apart(actors@, stones@.to_set()),
                strictly_sorted(stones@),
            decreases width - x,
        {
            let ch = c[a + x];
            assert(row[x as int] == ch);
            let here = Pos { x, y };
            let tile = match cell_tile_of(ch) {
                Some(t) => t,
                None => {
                    let name_s = string_from_range(c, name_a, name_b);
                    return Err(LevelError::InvalidTile { name: name_s, line, character: ch });
                },
            };
            let ghost actors1 = actors@;
            let ghost stones1 = stones@;
            if ch == '$' {
                stones.push(here);
                proof {
                    stones1.lemma_push_to_set_commute(here);
                }
            } else {
                match cell_actor_of(ch) {
                    Some(kind) => {
                        actors.push(Actor { kind, pos: here });
                    },
                    None => {},
                }
            }
            let ghost tiles1 = tiles@;
            tiles.push(tile);
            proof {
                assert forall|i: int| 0 <= i < actors@.len() implies
                    tiles@[(#[trigger] actors@[i]).pos.y * width + actors@[i].pos.x] == Tile::Floor by {
                    if i < actors1.len() {
                        assert(actors1[i] == actors@[i]);
                        lemma_index_before(actors@[i].pos, x as int, y as int, width as int);
                    }
                }
                assert forall|i: int| 0 <= i < stones@.len() implies
                    tiles@[(#[trigger] stones@[i]).y * width + stones@[i].x] == Tile::Floor by {
                    if i < stones1.len() {
                        assert(stones1[i] == stones@[i]);
                        lemma_index_before(stones@[i], x as int, y as int, width as int);
                    }
                }
                assert(row.take(x + 1) == row.take(x as int).push(ch));
                assert(row.take(x + 1).map_values(|c: char| cell_tile(c).unwrap()) =~= row.take(
                    x as int,
                ).map_values(|c: char| cell_tile(c).unwrap()).push(tile));
                assert(actors@ == actors0 + row_actors(row, y as int, x + 1));
                assert(stones@ == stones0 + row_stones(row, y as int, x + 1));
                assert forall|i: int, j: int|
                    0 <= i < actors@.len() && 0 <= j < actors@.len() && i != j implies (#[trigger] actors@[i]).pos
                        != (#[trigger] actors@[j]).pos by {
                    if i < actors1.len() && j < actors1.len() {
                        assert(actors1[i] == actors@[i] && actors1[j] == actors@[j]);
                    } else if i < actors1.len() {
                        assert(actors1[i] == actors@[i]);
                    } else if j < actors1.len() {
                        assert(actors1[j] == actors@[j]);
                    }
                }
                assert forall|i: int| 0 <= i < actors@.len() implies !stones@.to_set().contains((#[trigger] actors@[i]).pos) by {
                    if i < actors1.len() {
                        assert(actors1[i] == actors@[i]);
                        if stones@.to_set().contains(actors@[i].pos) {
                            let t = choose|t: int| 0 <= t < stones@.len() && stones@[t] == actors@[i].pos;
                            if t < stones1.len() {
                                assert(stones1[t] == stones@[t]);
                                assert(stones1.to_set().contains(stones1[t]));
                            }
                        }
                    } else {
                        if stones@.to_set().contains(actors@[i].pos) {
                            let t = choose|t: int| 0 <= t < stones@.len() && stones@[t] == actors@[i].pos;
                            assert(pos_before(stones@[t], Pos { x, y }));
                        }
                    }
                }
                assert forall|i: int, j: int| 0 <= i < j < stones@.len() implies pos_before(
                    #[trigger] stones@[i],
                    #[trigger] stones@[j],
                ) by {
                    if j < stones1.len() {
                        assert(stones1[i] == stones@[i] && stones1[j] == stones@[j]);
                    } else {
                        assert(stones1[i] == stones@[i]);
                    }
                }
            }
            x = x + 1;
        }
        proof {
            assert(row.take(width as int) == row);
            lemma_grid_step(srows, y as int);
            lemma_mul_next_row(y as int, width as int);
            assert(first_invalid_from(row, width as int) is None);
            assert(srows.take(y + 1).drop_last() =~= srows.take(y as int));
        }
        y = y + 1;
    }
    proof {
        assert(srows.take(h as int) == srows);
        lemma_mul_next_row(h as int, width as int);
    }
    Ok((tiles, actors, stones))
}


proof fn lemma_levels_from_ok(lines: Seq<Seq<char>>, starts: Seq<int>, k: int, views: Seq<LevelView>)
    requires
        0 <= k <= starts.len(),
        views.len() == starts.len(),
        forall|j: int| k <= j < starts.len() ==> section_level(lines, starts, j) == Ok::<LevelView, LevelErrorView>(#[trigger] views[j]),
    ensures
        levels_from(lines, starts, k) == Ok::<Seq<LevelView>, LevelErrorView>(views.subrange(k, starts.len() as int)),
    decreases starts.len() - k,
{
    if k < starts.len() {
        lemma_levels_from_ok(lines, starts, k + 1, views);
        assert(views.subrange(k, starts.len() as int) =~= seq![views[k]] + views.subrange(k + 1, starts.len() as int));
    } else {
        assert(views.subrange(k, starts.len() as int) =~= seq![]);
    }
}

proof fn lemma_levels_from_err(lines: Seq<Seq<char>>, starts: Seq<int>, i: int, k: int, e: LevelErrorView)
    requires
        0 <= i <= k < starts.len(),
        forall|j: int| i <= j < k ==> (#[trigger] section_level(lines, starts, j)) is Ok,
        section_level(lines, starts, k) == Err::<LevelView, LevelErrorView>(e),
    ensures
        levels_from(lines, starts, i) == Err::<Seq<LevelView>, LevelErrorView>(e),
    decreases k - i,
{
    if i < k {
        lemma_levels_from_err(lines, starts, i + 1, k, e);
        assert(section_level(lines, starts, i) is Ok);
    }
}

/// The level of the `k`-th section.
#[verifier::rlimit(50)]
#[verifier::loop_isolation(false)]
fn parse_section(
    c: &Vec<char>,
    lines: &Vec<(usize, usize)>,
    starts: &Vec<usize>,
    names: &Vec<(usize, usize)>,
    k: usize,
    Ghost(tl): Ghost<Seq<Seq<char>>>,
    Ghost(st): Ghost<Seq<int>>,
) -> (r: Result<Level, LevelError>)
    requires
        lines_match(c@, lines@, tl),
        k < starts.len() == names.len() == st.len(),
        forall|j: int| 0 <= j < st.len() ==> #[trigger] st[j] == starts@[j] as int,
        forall|j: int| 0 <= j < st.len() ==> 0 <= #[trigger] st[j] < tl.len(),
        forall|j: int, t: int| 0 <= j < t < st.len() ==> #[trigger] st[j] < #[trigger] st[t],
        forall|j: int| 0 <= j < names.len() ==> (#[trigger] names@[j]).0 <= names@[j].1 && names@[j].1 <= c.len(),
        forall|j: int|
            0 <= j < names.len() ==> c@.subrange((#[trigger] names@[j]).0 as int, names@[j].1 as int) == trim(
                tl[st[j]],
            ),
    ensures
        match r {
            Ok(level) => section_level(tl, st, k as int) == Ok::<LevelView, LevelErrorView>(level@) && level@.wf(),
            Err(e) => section_level(tl, st, k as int) == Err::<LevelView, LevelErrorView>(e@),
        },
{
    let header = starts[k];
    assert(header < lines.len());
    let (na, nb) = names[k];
    let ghost name = trim(tl[header as int]);
    let mut j: usize = 0;
    while j < k
        invariant
            j <= k < names.len() == st.len(),
            (na, nb) == names@[k as int],
            na <= nb <= c.len(),
            c@.subrange(na as int, nb as int) == name,
            forall|t: int| 0 <= t < names.len() ==> (#[trigger] names@[t]).0 <= names@[t].1 && names@[t].1 <= c.len(),
            forall|t: int| 0 <= t < names.len() ==> c@.subrange((#[trigger] names@[t]).0 as int, names@[t].1 as int) == trim(tl[st[t]]),
            forall|t: int| 0 <= t < j ==> trim(tl[#[trigger] st[t]]) != name,
        decreases k - j,
    {
        let (ja, jb) = names[j];
        if ranges_equal(c, ja, jb, na, nb) {
            let name_s = string_from_range(c, na, nb);
            proof {
                assert(trim(tl[st[j as int]]) == name);
            }
            return Err(LevelError::DuplicateName { line: header + 1, name: name_s });
        }
        j = j + 1;
    }
    let end = if k + 1 < starts.len() { starts[k + 1] } else { lines.len() };
    assert(end as int == (if k + 1 < st.len() { st[k + 1] } else { tl.len() as int }));
    let rows = collect_rows(c, lines, header + 1, end, Ghost(tl));
    let ghost srows = section_rows(tl, header + 1, end as int);
    if rows.len() == 0 {
        let name_s = string_from_range(c, na, nb);
        return Err(LevelError::EmptyMap { name: name_s });
    }
    let width = rows[0].2 - rows[0].1;
    match build_grid(c, &rows, na, nb, Ghost(srows)) {
        Err(e) => Err(e),
        Ok((tiles, actors, stones)) => {
            if actors.len() == 0 {
                let name_s = string_from_range(c, na, nb);
                return Err(LevelError::NoActors { name: name_s });
            }
            let name_s = string_from_range(c, na, nb);
            let level = Level {
                name: name_s,
                width,
                height: rows.len(),
                tiles,
                initial_actors: actors,
                initial_stones: stones,
            };
            proof {
                lemma_mul_next_row(rows.len() as int, width as int);
            }
            Ok(level)
        },
    }
}

/// Reads a level collection.
///
/// Every line whose text, trimmed, is a level name (digits, `-`, digits)
/// starts a level; the non-blank lines up to the next such line, without
/// trailing carriage returns, are its map. The first problem found, level by
/// level and row by row, is the error.
#[verifier::loop_isolation(false)]
pub fn parse_levels(input: &str) -> (r: Result<Vec<Level>, LevelError>)
    ensures
        match r {
            Ok(levels) => {
                &&& parse_levels_spec(input@) == Ok::<Seq<LevelView>, LevelErrorView>(
                    levels@.map_values(|l: Level| l@),
                )
                &&& forall|i: int| 0 <= i < levels.len() ==> (#[trigger] levels@[i])@.wf()
            },
            Err(e) => parse_levels_spec(input@) == Err::<Seq<LevelView>, LevelErrorView>(e@),
        },
{
    let c = chars_of(input);
    let lines = line_ranges(&c);
    let ghost tl = text_lines(c@);
    let mut starts: Vec<usize> = Vec::new();
    let mut names: Vec<(usize, usize)> = Vec::new();
    let mut i: usize = 0;
    while i < lines.len()
        invariant
            lines_match(c@, lines@, tl),
            i <= lines.len(),
            starts.len() == names.len() == header_indices(tl, i as int).len(),
            forall|j: int| 0 <= j < starts.len() ==> #[trigger] header_indices(tl, i as int)[j] == starts@[j] as int,
            forall|j: int| 0 <= j < starts.len() ==> #[trigger] starts@[j] < i,
            forall|j: int, t: int| 0 <= j < t < starts.len() ==> #[trigger] starts@[j] < #[trigger] starts@[t],
            forall|j: int| 0 <= j < names.len() ==> (#[trigger] names@[j]).0 <= names@[j].1 && names@[j].1 <= c.len(),
            forall|j: int|
                0 <= j < names.len() ==> c@.subrange((#[trigger] names@[j]).0 as int, names@[j].1 as int) == trim(
                    tl[starts@[j] as int],
                ),
        decreases lines.len() - i,
    {
        let (a, b) = lines[i];
        assert(tl[i as int] == c@.subrange(a as int, b as int));
        let (ta, tb) = trim_range(&c, a, b);
        let ghost prev = header_indices(tl, i as int);
        if is_level_name_range(&c, ta, tb) {
            starts.push(i);
            names.push((ta, tb));
            proof {
                assert(header_indices(tl, i + 1) == prev.push(i as int));
                assert forall|j: int| 0 <= j < starts.len() implies #[trigger] header_indices(tl, i + 1)[j] == starts@[j] as int by {
                    if j < starts.len() - 1 {
                        assert(header_indices(tl, i + 1)[j] == prev[j]);
                    }
                }
            }
        } else {
            proof {
                assert(header_indices(tl, i + 1) =~= prev);
            }
        }
        i = i + 1;
    }
    let ghost st = header_indices(tl, tl.len() as int);
    if starts.len() == 0 {
        return Err(LevelError::NoLevels);
    }
    let mut levels: Vec<Level> = Vec::new();
    let mut k: usize = 0;
    while k < starts.len()
        invariant
            lines_match(c@, lines@, tl),
            starts.len() == names.len() == st.len(),
            k <= starts.len(),
            forall|j: int| 0 <= j < st.len() ==> #[trigger] st[j] == starts@[j] as int,
            forall|j: int| 0 <= j < st.len() ==> 0 <= #[trigger] st[j] < tl.len(),
            forall|j: int, t: int| 0 <= j < t < st.len() ==> #[trigger] st[j] < #[trigger] st[t],
            forall|j: int| 0 <= j < names.len() ==> (#[trigger] names@[j]).0 <= names@[j].1 && names@[j].1 <= c.len(),
            forall|j: int|
                0 <= j < names.len() ==> c@.subrange((#[trigger] names@[j]).0 as int, names@[j].1 as int) == trim(
                    tl[st[j]],
                ),
            levels.len() == k,
            forall|j: int| 0 <= j < k ==> section_level(tl, st, j) == Ok::<LevelView, LevelErrorView>((#[trigger] levels@[j])@),
            forall|j: int| 0 <= j < k ==> (#[trigger] levels@[j])@.wf(),
        decreases starts.len() - k,
    {
        match parse_section(&c, &lines, &starts, &names, k, Ghost(tl), Ghost(st)) {
            Ok(level) => {
                levels.push(level);
            },
            Err(e) => {
                proof {
                    assert forall|j: int| 0 <= j < k implies (#[trigger] section_level(tl, st, j)) is Ok by {
                        assert(section_level(tl, st, j) == Ok::<LevelView, LevelErrorView>(levels@[j]@));
                    }
                    lemma_levels_from_err(tl, st, 0, k as int, e@);
                    assert(c@ == input@);
                    assert(st.len() > 0);
                }
                return Err(e);
            },
        }
        k = k + 1;
    }
    proof {
        let views = levels@.map_values(|l: Level| l@);
        assert forall|j: int| 0 <= j < st.len() implies section_level(tl, st, j) == Ok::<LevelView, LevelErrorView>(#[trigger] views[j]) by {
            assert(views[j] == levels@[j]@);
        }
        lemma_levels_from_ok(tl, st, 0, views);
        assert(views.subrange(0, st.len() as int) =~= views);
    }
    Ok(levels)
}


// ---------------------------------------------------------------------------
// Levels kept one file per level.

/// The text that a list of (name, map) sources makes: each name on a line of
/// its own, then the map, ended by a line break, then an empty line.
pub open spec fn sources_text(sources: Seq<(Seq<char>, Seq<char>)>) -> Seq<char>
    decreases sources.len(),
{
    if sources.len() == 0 {
        seq![]
    } else {
        let (name, map) = sources.last();
        sources_text(sources.drop_last()) + name + seq!['\n'] + map + (if map.len() > 0 && map.last() == '\n' {
            seq![]
        } else {
            seq!['\n']
        }) + seq!['\n']
    }
}

/// Reads the levels of a list of (name, map) sources, each map being the text of
/// one level file without its header line.
pub fn parse_level_sources(sources: &[(&str, &str)]) -> (r: Result<Vec<Level>, LevelError>)
    ensures
        ({
            let text = sources_text(sources@.map_values(|p: (&str, &str)| (p.0@, p.1@)));
            match r {
                Ok(levels) => {
                    &&& parse_levels_spec(text) == Ok::<Seq<LevelView>, LevelErrorView>(
                        levels@.map_values(|l: Level| l@),
                    )
                    &&& forall|i: int| 0 <= i < levels.len() ==> (#[trigger] levels@[i])@.wf()
                },
                Err(e) => parse_levels_spec(text) == Err::<Seq<LevelView>, LevelErrorView>(e@),
            }
        }),
{
    let ghost views = sources@.map_values(|p: (&str, &str)| (p.0@, p.1@));
    let mut combined = String::new();
    for i in 0..sources.len()
        invariant
            views == sources@.map_values(|p: (&str, &str)| (p.0@, p.1@)),
            combined@ == sources_text(views.take(i as int)),
    {
        let (name, map) = sources[i];
        push_text(&mut combined, name);
        push_char(&mut combined, '\n');
        push_text(&mut combined, map);
        let map_chars = chars_of(map);
        let n = map_chars.len();
        if !(n > 0 && map_chars[n - 1] == '\n') {
            push_char(&mut combined, '\n');
        }
        push_char(&mut combined, '\n');
        proof {
            assert(views.take(i + 1).drop_last() =~= views.take(i as int));
            assert(views.take(i + 1).last() == (name@, map@));
            assert(combined@ =~= sources_text(views.take(i + 1)));
        }
    }
    proof {
        assert(views.take(sources.len() as int) =~= views);
    }
    parse_levels(combined.as_str())
}

// ---------------------------------------------------------------------------
// Looking at a level.

/// How many of `tiles` are `t`.
pub open spec fn count_tiles(tiles: Seq<Tile>, t: Tile) -> nat
    decreases tiles.len(),
{
    if tiles.len() == 0 {
        0
    } else {
        count_tiles(tiles.drop_last(), t) + if tiles.last() == t { 1nat } else { 0nat }
    }
}

proof fn lemma_tile_index(x: int, y: int, w: int, h: int)
    requires
        0 <= x < w,
        0 <= y < h,
    ensures
        0 <= y * w + x < w * h,
{
    assert(0 <= y * w + x < w * h) by (nonlinear_arith)
        requires
            0 <= x < w,
            0 <= y < h,
    ;
}

impl Level {
    /// The actors at the start of the level.
    pub fn actors(&self) -> (r: &[Actor])
        ensures
            r@ == self@.actors,
    {
        self.initial_actors.as_slice()
    }

    /// The stones at the start of the level, in reading order.
    pub(crate) fn stones(&self) -> (r: &Vec<Pos>)
        ensures
            r@ == self@.stones,
    {
        &self.initial_stones
    }

    pub fn stone_count(&self) -> (n: usize)
        ensures
            n == self@.stones.len(),
    {
        self.initial_stones.len()
    }

    fn count_of(&self, t: Tile) -> (n: usize)
        ensures
            n == count_tiles(self@.tiles, t),
    {
        let mut n: usize = 0;
        for i in 0..self.tiles.len()
            invariant
                n == count_tiles(self.tiles@.take(i as int), t),
                n <= i,
        {
            assert(self.tiles@.take(i + 1).drop_last() =~= self.tiles@.take(i as int));
            if self.tiles[i] == t {
                n = n + 1;
            }
        }
        assert(self.tiles@.take(self.tiles.len() as int) =~= self.tiles@);
        n
    }

    pub fn goal_count(&self) -> (n: usize)
        ensures
            n == count_tiles(self@.tiles, Tile::Goal),
    {
        self.count_of(Tile::Goal)
    }

    pub fn switch_count(&self) -> (n: usize)
        ensures
            n == count_tiles(self@.tiles, Tile::Switch),
    {
        self.count_of(Tile::Switch)
    }

    /// The tile at `pos`; outside the map, a wall.
    pub(crate) fn tile(&self, pos: Pos) -> (t: Tile)
        requires
            self@.wf(),
        ensures
            t == self@.tile_at(pos),
    {
        if pos.x >= self.width || pos.y >= self.height {
            Tile::Wall
        } else {
            let n = self.tiles.len();
            proof {
                lemma_tile_index(pos.x as int, pos.y as int, self.width as int, self.height as int);
                assert(self.tiles@.len() == self.width * self.height);
                assert(pos.y * self.width <= pos.y * self.width + pos.x);
                assert(pos.y * self.width + pos.x < self.tiles@.len());
            }
            self.tiles[pos.y * self.width + pos.x]
        }
    }
}

/// The first level of `levels` with the name `name`.
pub(crate) fn first_level_named<'a>(levels: &'a [Level], name: &str) -> (r: Option<&'a Level>)
    ensures
        match r {
            Some(level) => exists|i: int|
                0 <= i < levels@.len() && levels@[i] == *level && level@.name == name@ && forall|j: int|
                    0 <= j < i ==> (#[trigger] levels@[j])@.name != name@,
            None => forall|j: int| 0 <= j < levels@.len() ==> (#[trigger] levels@[j])@.name != name@,
        },
{
    broadcast use Level::lemma_fields;

    let wanted = name.to_owned();
    for i in 0..levels.len()
        invariant
            wanted@ == name@,
            forall|j: int| 0 <= j < i ==> (#[trigger] levels@[j])@.name != name@,
    {
        if levels[i].name == wanted {
            return Some(&levels[i]);
        }
    }
    None
}

/// The levels of a collection by name; where names repeat, the last level wins.
pub struct LevelMap<'a> {
    levels: &'a [Level],
}

impl<'a> LevelMap<'a> {
    /// The levels that the map was made from.
    pub closed spec fn source(&self) -> Seq<Level> {
        self.levels@
    }

    /// The level that `name` maps to: the last of the source levels with that name.
    pub fn get(&self, name: &str) -> (r: Option<&'a Level>)
        ensures
            match r {
                Some(level) => exists|i: int|
                    0 <= i < self.source().len() && self.source()[i] == *level && level@.name == name@
                        && forall|j: int| i < j < self.source().len() ==> (#[trigger] self.source()[j])@.name != name@,
                None => forall|j: int| 0 <= j < self.source().len() ==> (#[trigger] self.source()[j])@.name != name@,
            },
    {
        broadcast use Level::lemma_fields;

    let wanted = name.to_owned();
        let levels = self.levels;
        let mut i = levels.len();
        while i > 0
            invariant
                wanted@ == name@,
                i <= levels@.len(),
                levels@ == self.source(),
                forall|j: int| i <= j < levels@.len() ==> (#[trigger] levels@[j])@.name != name@,
            decreases i,
        {
            i = i - 1;
            if levels[i].name == wanted {
                return Some(&levels[i]);
            }
        }
        None
    }
}

/// Level `k` of `s` is the last one with its name.
pub open spec fn last_of_name(s: Seq<Level>, k: int) -> bool {
    forall|j: int| k < j < s.len() ==> (#[trigger] s[j])@.name != s[k]@.name
}

/// The levels among the first `n` of `s` that are the last with their names,
/// in order: the levels that a map made from `s` holds.
pub open spec fn map_entries(s: Seq<Level>, n: int) -> Seq<Level>
    decreases n,
{
    if n <= 0 {
        seq![]
    } else {
        map_entries(s, n - 1) + if last_of_name(s, n - 1) {
            seq![s[n - 1]]
        } else {
            seq![]
        }
    }
}

impl<'a> LevelMap<'a> {
    /// Whether level `i` of the source is the last one with its name.
    fn is_last_of_name(&self, i: usize) -> (r: bool)
        requires
            i < self.source().len(),
        ensures
            r == last_of_name(self.source(), i as int),
    {
        let levels = self.levels;
        let n = levels.len();
        let mut j = i + 1;
        while j < n
            invariant
                levels@ == self.source(),
                n == levels@.len(),
                i < j <= n,
                forall|t: int| i < t < j ==> (#[trigger] levels@[t])@.name != levels@[i as int]@.name,
            decreases n - j,
        {
            proof {
                levels@[j as int].lemma_fields();
                levels@[i as int].lemma_fields();
            }
            if levels[j].name == levels[i].name {
                return false;
            }
            j = j + 1;
        }
        true
    }

    /// The levels the map holds, one for each name, in the order of the source.
    pub fn entries(&self) -> (r: Vec<&'a Level>)
        ensures
            r@.len() == map_entries(self.source(), self.source().len() as int).len(),
            forall|k: int| 0 <= k < r@.len() ==> *#[trigger] r@[k] == map_entries(self.source(), self.source().len() as int)[k],
    {
        let levels = self.levels;
        let mut r: Vec<&'a Level> = Vec::new();
        for i in 0..levels.len()
            invariant
                levels@ == self.source(),
                r@.len() == map_entries(self.source(), i as int).len(),
                forall|k: int| 0 <= k < r@.len() ==> *#[trigger] r@[k] == map_entries(self.source(), i as int)[k],
        {
            let ghost prev = map_entries(self.source(), i as int);
            if self.is_last_of_name(i) {
                r.push(&levels[i]);
                proof {
                    assert(map_entries(self.source(), i + 1) == prev.push(levels@[i as int]));
                    assert forall|k: int| 0 <= k < r@.len() implies *#[trigger] r@[k] == map_entries(self.source(), i + 1)[k] by {
                        if k < prev.len() {
                            assert(map_entries(self.source(), i + 1)[k] == prev[k]);
                        }
                    }
                }
            } else {
                proof {
                    assert(map_entries(self.source(), i + 1) =~= prev);
                }
            }
        }
        r
    }

    /// How many names the map holds.
    pub fn len(&self) -> (n: usize)
        ensures
            n == map_entries(self.source(), self.source().len() as int).len(),
    {
        self.entries().len()
    }

    /// The map holds no name.
    pub fn is_empty(&self) -> (r: bool)
        ensures
            r == (map_entries(self.source(), self.source().len() as int).len() == 0),
    {
        self.len() == 0
    }
}

/// The levels of `levels` by name.
pub fn level_map<'a>(levels: &'a [Level]) -> (m: LevelMap<'a>)
    ensures
        m.source() == levels@,
{
    LevelMap { levels }
}

} // verus!
