//! What stands on a level's map at one moment, the rules that decide what
//! one move does to it, and the sorted cell lists that hold its stones.
use vstd::prelude::*;
use crate::level::LevelView;
use crate::types::{Actor, Direction, Pos, Tile, pos_before, pos_less, step_spec, strictly_sorted};

verus! {

/// The objects on the map: the actors, in their fixed order, and the stones.
#[verifier::ext_equal]
pub struct Board {
    pub actors: Seq<Actor>,
    pub stones: Set<Pos>,
}

/// What occupies a cell: a stone, or the actor with the given index.
pub enum Occupant {
    Stone,
    Actor(nat),
}

/// The first of the actors from index `i` on that stands at `p`.
pub open spec fn actor_index_from(actors: Seq<Actor>, p: Pos, i: int) -> Option<nat>
    decreases actors.len() - i,
{
    if i < 0 || i >= actors.len() {
        None
    } else if actors[i].pos == p {
        Some(i as nat)
    } else {
        actor_index_from(actors, p, i + 1)
    }
}

pub proof fn lemma_actor_index_bound(actors: Seq<Actor>, p: Pos, i: int)
    ensures
        actor_index_from(actors, p, i) matches Some(k) ==> i <= k < actors.len() && actors[k as int].pos == p,
    decreases actors.len() - i,
{
    if 0 <= i < actors.len() && actors[i].pos != p {
        lemma_actor_index_bound(actors, p, i + 1);
    }
}

/// What stands at `p`: a stone if there is one, else the first actor there.
pub open spec fn occupant(b: Board, p: Pos) -> Option<Occupant> {
    if b.stones.contains(p) {
        Some(Occupant::Stone)
    } else {
        match actor_index_from(b.actors, p, 0) {
            Some(i) => Some(Occupant::Actor(i)),
            None => None,
        }
    }
}

pub open spec fn occupied(b: Board, p: Pos) -> bool {
    occupant(b, p) is Some
}

/// The doors are open: the map has a switch, and something stands on every switch.
pub open spec fn doors_open(lv: LevelView, b: Board) -> bool {
    &&& exists|p: Pos| lv.tile_at(p) == Tile::Switch
    &&& forall|p: Pos| lv.tile_at(p) == Tile::Switch ==> occupied(b, p)
}

/// An object may enter `p`: no wall, and no closed door.
pub open spec fn passable(lv: LevelView, b: Board, p: Pos) -> bool {
    match lv.tile_at(p) {
        Tile::Wall => false,
        Tile::Door => doors_open(lv, b),
        _ => true,
    }
}

/// The board with actor `i` moved to `p`.
pub open spec fn with_actor_at(b: Board, i: int, p: Pos) -> Board {
    Board { actors: b.actors.update(i, Actor { kind: b.actors[i].kind, pos: p }), stones: b.stones }
}

/// The board with what stands at `from` moved to `to`.
pub open spec fn move_occupant(b: Board, from: Pos, to: Pos) -> Board {
    match occupant(b, from) {
        Some(Occupant::Stone) => Board { actors: b.actors, stones: b.stones.remove(from).insert(to) },
        Some(Occupant::Actor(i)) => with_actor_at(b, i as int, to),
        None => b,
    }
}

/// How many steps in `d` a coordinate can still take within `usize`.
pub open spec fn edge_distance(p: Pos, d: Direction) -> nat {
    match d {
        Direction::Up => p.y as nat,
        Direction::Down => (usize::MAX - p.y) as nat,
        Direction::Left => p.x as nat,
        Direction::Right => (usize::MAX - p.x) as nat,
    }
}

pub proof fn lemma_step_nearer_edge(p: Pos, d: Direction)
    requires
        step_spec(p, d) is Some,
    ensures
        edge_distance(step_spec(p, d)->0, d) < edge_distance(p, d),
{
}

/// The last cell of the unbroken run of objects that starts at the occupied
/// cell `cursor` and goes on in `d`, provided the cell after it may be entered
/// and is empty; `None` where the run meets a wall, a closed door or the end
/// of the coordinates.
pub open spec fn chain_end(lv: LevelView, b: Board, d: Direction, cursor: Pos) -> Option<Pos>
    decreases edge_distance(cursor, d),
{
    match step_spec(cursor, d) {
        None => None,
        Some(after) => {
            proof {
                lemma_step_nearer_edge(cursor, d);
            }
            if !passable(lv, b, after) {
                None
            } else if !occupied(b, after) {
                Some(cursor)
            } else {
                chain_end(lv, b, d, after)
            }
        },
    }
}

/// `p` lies on the straight run of cells from `a` to `b`.
pub open spec fn in_segment(a: Pos, b: Pos, p: Pos) -> bool {
    ||| (a.y == b.y && p.y == a.y && ((a.x <= p.x <= b.x) || (b.x <= p.x <= a.x)))
    ||| (a.x == b.x && p.x == a.x && ((a.y <= p.y <= b.y) || (b.y <= p.y <= a.y)))
}

/// Where the push of the run from `a` to `b` in `d` takes what stood at `p`.
pub open spec fn pushed(a: Pos, b: Pos, d: Direction, p: Pos) -> Pos {
    if in_segment(a, b, p) {
        match step_spec(p, d) {
            Some(q) => q,
            None => p,
        }
    } else {
        p
    }
}

/// The board after every object on the run from `a` to `b` moved one step in `d`.
pub open spec fn push_segment(bd: Board, a: Pos, b: Pos, d: Direction) -> Board {
    Board {
        actors: bd.actors.map_values(|x: Actor| Actor { kind: x.kind, pos: pushed(a, b, d, x.pos) }),
        stones: bd.stones.filter(|p: Pos| !in_segment(a, b, p)).union(
            bd.stones.filter(|p: Pos| in_segment(a, b, p)).map(|p: Pos| pushed(a, b, d, p)),
        ),
    }
}

/// The first cell in `d` from `cursor` that holds an object, looking past
/// empty cells, up to a wall, a closed door or the end of the coordinates.
pub open spec fn first_object_ahead(lv: LevelView, b: Board, d: Direction, cursor: Pos) -> Option<Pos>
    decreases edge_distance(cursor, d),
{
    match step_spec(cursor, d) {
        None => None,
        Some(next) => {
            proof {
                lemma_step_nearer_edge(cursor, d);
            }
            if !passable(lv, b, next) {
                None
            } else if occupied(b, next) {
                Some(next)
            } else {
                first_object_ahead(lv, b, d, next)
            }
        },
    }
}

// ---------------------------------------------------------------------------
// Stones as a sorted list of cells.

/// Two sorted lists hold the same cells only if they are the same list.
pub proof fn lemma_sorted_same_set(a: Seq<Pos>, b: Seq<Pos>)
    requires
        strictly_sorted(a),
        strictly_sorted(b),
        a.to_set() == b.to_set(),
    ensures
        a == b,
    decreases a.len(),
{
    if a.len() == 0 {
        if b.len() > 0 {
            assert(b.to_set().contains(b[0]));
        }
        assert(a =~= b);
    } else {
        assert(a.to_set().contains(a[0]));
        let j = choose|j: int| 0 <= j < b.len() && b[j] == a[0];
        assert(b.to_set().contains(b[0]));
        let i = choose|i: int| 0 <= i < a.len() && a[i] == b[0];
        if j > 0 {
            assert(pos_before(b[0], b[j]));
            if i > 0 {
                assert(pos_before(a[0], a[i]));
            }
        }
        assert(a[0] == b[0]);
        let a1 = a.drop_first();
        let b1 = b.drop_first();
        assert forall|p: Pos| a1.to_set().contains(p) <==> b1.to_set().contains(p) by {
            if a1.to_set().contains(p) {
                let t = choose|t: int| 0 <= t < a1.len() && a1[t] == p;
                assert(a[t + 1] == p);
                assert(pos_before(a[0], a[t + 1]));
                assert(b.to_set().contains(p));
                let u = choose|u: int| 0 <= u < b.len() && b[u] == p;
                if u == 0 {
                    assert(false);
                }
                assert(b1[u - 1] == p);
            }
            if b1.to_set().contains(p) {
                let t = choose|t: int| 0 <= t < b1.len() && b1[t] == p;
                assert(b[t + 1] == p);
                assert(pos_before(b[0], b[t + 1]));
                assert(a.to_set().contains(p));
                let u = choose|u: int| 0 <= u < a.len() && a[u] == p;
                if u == 0 {
                    assert(false);
                }
                assert(a1[u - 1] == p);
            }
        }
        assert(a1.to_set() =~= b1.to_set());
        lemma_sorted_same_set(a1, b1);
        assert(a =~= seq![a[0]] + a1);
        assert(b =~= seq![b[0]] + b1);
    }
}

/// Whether the sorted list `v` holds `p`.
pub fn contains_pos(v: &Vec<Pos>, p: Pos) -> (r: bool)
    ensures
        r == v@.to_set().contains(p),
{
    for i in 0..v.len()
        invariant
            forall|j: int| 0 <= j < i ==> v@[j] != p,
    {
        if v[i] == p {
            assert(v@.to_set().contains(v@[i as int]));
            return true;
        }
    }
    false
}

/// Adds `p` to the sorted list `v`, keeping it sorted.
pub fn insert_pos(v: &mut Vec<Pos>, p: Pos)
    requires
        strictly_sorted(old(v)@),
    ensures
        strictly_sorted(final(v)@),
        final(v)@.to_set() == old(v)@.to_set().insert(p),
{
    let ghost s = v@;
    let mut i: usize = 0;
    while i < v.len() && pos_less(v[i], p)
        invariant
            v@ == s,
            i <= v.len(),
            forall|j: int| 0 <= j < i ==> pos_before(#[trigger] v@[j], p),
        decreases v.len() - i,
    {
        i = i + 1;
    }
    if i < v.len() && v[i] == p {
        assert(s.to_set().contains(s[i as int]));
        assert(s.to_set().insert(p) =~= s.to_set());
        return;
    }
    v.insert(i, p);
    proof {
        let t = v@;
        assert(t == s.insert(i as int, p));
        assert forall|a: int, b: int| 0 <= a < b < t.len() implies pos_before(#[trigger] t[a], #[trigger] t[b]) by {
            if b < i {
                assert(pos_before(s[a], s[b]));
            } else if b == i {
                assert(pos_before(s[a], p));
            } else if a < i {
                assert(pos_before(s[a], p));
                assert(!pos_before(s[i as int], p) && s[i as int] != p);
                if b - 1 > i {
                    assert(pos_before(s[i as int], s[b - 1]));
                }
            } else if a == i {
                assert(!pos_before(s[i as int], p) && s[i as int] != p);
                if b - 1 > i {
                    assert(pos_before(s[i as int], s[b - 1]));
                }
            } else {
                assert(pos_before(s[a - 1], s[b - 1]));
            }
        }
        assert forall|q: Pos| t.to_set().contains(q) <==> s.to_set().insert(p).contains(q) by {
            if t.to_set().contains(q) {
                let u = choose|u: int| 0 <= u < t.len() && t[u] == q;
                if u < i {
                    assert(s[u] == q);
                } else if u > i {
                    assert(s[u - 1] == q);
                }
            }
            if s.to_set().contains(q) {
                let u = choose|u: int| 0 <= u < s.len() && s[u] == q;
                if u < i {
                    assert(t[u] == q);
                } else {
                    assert(t[u + 1] == q);
                }
            }
            if q == p {
                assert(t[i as int] == p);
            }
        }
        assert(t.to_set() =~= s.to_set().insert(p));
    }
}

/// Takes `p` out of the sorted list `v`.
pub fn remove_pos(v: &mut Vec<Pos>, p: Pos)
    requires
        strictly_sorted(old(v)@),
    ensures
        strictly_sorted(final(v)@),
        final(v)@.to_set() == old(v)@.to_set().remove(p),
{
    let ghost s = v@;
    let mut i: usize = 0;
    while i < v.len()
        invariant
            v@ == s,
            s == old(v)@,
            strictly_sorted(s),
            i <= v.len(),
            forall|j: int| 0 <= j < i ==> v@[j] != p,
        decreases v.len() - i,
    {
        if v[i] == p {
            v.remove(i);
            proof {
                let t = v@;
                assert(t == s.remove(i as int));
                assert forall|a: int, b: int| 0 <= a < b < t.len() implies pos_before(#[trigger] t[a], #[trigger] t[b]) by {
                    if b < i {
                        assert(pos_before(s[a], s[b]));
                    } else if a < i {
                        assert(pos_before(s[a], s[b + 1]));
                    } else {
                        assert(pos_before(s[a + 1], s[b + 1]));
                    }
                }
                assert forall|q: Pos| t.to_set().contains(q) <==> s.to_set().remove(p).contains(q) by {
                    if t.to_set().contains(q) {
                        let u = choose|u: int| 0 <= u < t.len() && t[u] == q;
                        if u < i {
                            assert(s[u] == q);
                            assert(pos_before(s[u], s[i as int]));
                        } else {
                            assert(s[u + 1] == q);
                            assert(pos_before(s[i as int], s[u + 1]));
                        }
                    }
                    if s.to_set().contains(q) && q != p {
                        let u = choose|u: int| 0 <= u < s.len() && s[u] == q;
                        if u < i {
                            assert(t[u] == q);
                        } else {
                            assert(u != i);
                            assert(t[u - 1] == q);
                        }
                    }
                }
                assert(t.to_set() =~= s.to_set().remove(p));
            }
            return;
        }
        i = i + 1;
    }
    proof {
        assert forall|q: Pos| s.to_set().contains(q) <==> s.to_set().remove(p).contains(q) by {
            if s.to_set().contains(q) {
                let u = choose|u: int| 0 <= u < s.len() && s[u] == q;
                assert(s[u] != p);
            }
        }
        assert(s.to_set() =~= s.to_set().remove(p));
    }
}

} // verus!
