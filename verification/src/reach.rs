//! Walks on a board, and what a flood fill needs to know of them.

use crate::board::{adjacent, Board};
use crate::level::{lemma_cell_of_index, lemma_index_of_cell};
use crate::node::{neighbours, Position};
use vstd::prelude::*;

verus! {

/// The byte that a matrix holds for a cell.
pub open spec fn cell_mark(b: Board, m: Seq<u8>, p: Position) -> u8 {
    m[b.index_of(p)]
}

/// The matrix marks the cell as one that the walk has come to.
pub open spec fn marked(b: Board, m: Seq<u8>, p: Position) -> bool {
    b.in_bounds(p) && cell_mark(b, m, p) == 1
}

/// How many bytes of a matrix are not the mark 1.
pub open spec fn unmarked(m: Seq<u8>) -> nat
    decreases m.len(),
{
    if m.len() == 0 {
        0
    } else {
        unmarked(m.drop_last()) + if m.last() != 1 {
            1nat
        } else {
            0nat
        }
    }
}

/// Marking one more cell leaves one unmarked byte less.
pub proof fn lemma_mark_one(m: Seq<u8>, k: int)
    requires
        0 <= k < m.len(),
        m[k] != 1,
    ensures
        unmarked(m.update(k, 1)) + 1 == unmarked(m),
    decreases m.len(),
{
    if k == m.len() - 1 {
        assert(m.update(k, 1).drop_last() =~= m.drop_last());
    } else {
        lemma_mark_one(m.drop_last(), k);
        assert(m.update(k, 1).drop_last() =~= m.drop_last().update(k, 1));
    }
}

/// Two cells of the grid with the same place are the same cell.
pub proof fn lemma_index_injective(b: Board, p: Position, q: Position)
    requires
        b.in_bounds(p),
        b.in_bounds(q),
        b.index_of(p) == b.index_of(q),
        b.width * b.height <= usize::MAX,
    ensures
        p == q,
{
    crate::board::lemma_index_bound(p.x as int, p.y as int, b.width as int, b.height as int);
    crate::board::lemma_index_bound(q.x as int, q.y as int, b.width as int, b.height as int);
    lemma_cell_of_index(b.width, p.x as int, p.y as int);
    lemma_cell_of_index(b.width, q.x as int, q.y as int);
}

/// The neighbours of a cell are the cells that share an edge with it.
pub proof fn lemma_neighbours(p: Position, q: Position)
    requires
        p.x < usize::MAX,
        p.y < usize::MAX,
    ensures
        adjacent(p, q) <==> neighbours(p).contains(q),
{
    let n = neighbours(p);
    if adjacent(p, q) {
        if p.y == q.y && q.x + 1 == p.x {
            assert(n[0] == q);
        } else if p.y == q.y && p.x + 1 == q.x {
            assert(n[if p.x > 0 { 1int } else { 0int }] == q);
        } else if p.x == q.x && q.y + 1 == p.y {
            assert(n[if p.x > 0 { 2int } else { 1int }] == q);
        } else {
            assert(n[n.len() - 1] == q);
        }
    }
    if n.contains(q) {
        let i = choose|i: int| 0 <= i < n.len() && n[i] == q;
        assert(adjacent(p, n[i]));
    }
}

/// What is in a sequence is its last element or stands before it.
pub proof fn lemma_contains_last(s: Seq<Position>, q: Position)
    requires
        s.len() > 0,
        s.contains(q),
    ensures
        q == s.last() || s.drop_last().contains(q),
{
    let i = choose|i: int| 0 <= i < s.len() && s[i] == q;
    if i < s.len() - 1 {
        assert(s.drop_last()[i] == q);
    }
}

/// An open cell is connected to itself.
pub proof fn lemma_connects_self(b: Board, a: Position)
    requires
        b.open(a),
    ensures
        b.connects(a, a),
{
    let path = seq![a];
    assert(b.is_walk(path) && path[0] == a && path.last() == a);
}

/// Both ends of a walk are open.
pub proof fn lemma_connects_open(b: Board, a: Position, p: Position)
    requires
        b.connects(a, p),
    ensures
        b.open(a),
        b.open(p),
        b.in_bounds(a),
        b.in_bounds(p),
{
    let path = choose|path: Seq<Position>| #[trigger]
        b.is_walk(path) && path[0] == a && path.last() == p;
    assert(b.open(path[0]));
    assert(b.open(path[path.len() - 1]));
}

/// A walk can go on to an open neighbour of its end.
pub proof fn lemma_connects_step(b: Board, a: Position, p: Position, q: Position)
    requires
        b.connects(a, p),
        adjacent(p, q),
        b.open(q),
    ensures
        b.connects(a, q),
{
    let path = choose|path: Seq<Position>| #[trigger]
        b.is_walk(path) && path[0] == a && path.last() == p;
    let longer = path.push(q);
    assert forall|i: int| 0 <= i < longer.len() implies b.open(#[trigger] longer[i]) by {
        if i < path.len() {
            assert(longer[i] == path[i]);
        }
    }
    assert forall|i: int| 0 <= i < longer.len() - 1 implies adjacent(
        #[trigger] longer[i],
        longer[i + 1],
    ) by {
        if i < path.len() - 1 {
            assert(longer[i] == path[i]);
            assert(longer[i + 1] == path[i + 1]);
        }
    }
    assert(b.is_walk(longer) && longer[0] == a && longer.last() == q);
}

/// Every open neighbour of a marked cell is marked.
pub open spec fn flood_closed(b: Board, m: Seq<u8>) -> bool {
    forall|p: Position, q: Position|
        #[trigger] marked(b, m, p) && #[trigger] adjacent(p, q) && b.open(q) ==> marked(b, m, q)
}

/// A walk that starts on a marked cell of a closed matrix stays on marked
/// cells.
pub proof fn lemma_walk_stays_marked(b: Board, m: Seq<u8>, path: Seq<Position>, i: int)
    requires
        b.is_walk(path),
        0 <= i < path.len(),
        marked(b, m, path[0]),
        flood_closed(b, m),
    ensures
        marked(b, m, path[i]),
    decreases i,
{
    if i > 0 {
        lemma_walk_stays_marked(b, m, path, i - 1);
        assert(adjacent(path[i - 1], path[i]));
        assert(b.open(path[i]));
    }
}

/// Where the start is marked and the matrix is closed, all that is
/// connected to the start is marked.
pub proof fn lemma_flood_complete(b: Board, m: Seq<u8>, start: Position, p: Position)
    requires
        marked(b, m, start),
        flood_closed(b, m),
        b.connects(start, p),
    ensures
        marked(b, m, p),
{
    let path = choose|path: Seq<Position>| #[trigger]
        b.is_walk(path) && path[0] == start && path.last() == p;
    lemma_walk_stays_marked(b, m, path, path.len() - 1);
}

/// A matrix that holds for each cell what the board's canonical state
/// holds is that state.
pub proof fn lemma_marks(b: Board, m: Seq<u8>)
    requires
        b.width * b.height <= usize::MAX,
        m.len() == b.width * b.height,
        forall|p: Position| b.in_bounds(p) ==> #[trigger] cell_mark(b, m, p) == b.mark_at(p),
    ensures
        m == b.marks(),
{
    assert forall|i: int| 0 <= i < m.len() implies m[i] == b.marks()[i] by {
        lemma_index_of_cell(b.width, b.height, i);
        let p = b.position_of(i);
        assert(b.in_bounds(p));
        assert(cell_mark(b, m, p) == b.mark_at(p));
    }
    assert(m =~= b.marks());
}

/// A walk can be gone backwards.
pub proof fn lemma_connects_symmetric(b: Board, a: Position, c: Position)
    requires
        b.connects(a, c),
    ensures
        b.connects(c, a),
{
    let path = choose|path: Seq<Position>| #[trigger]
        b.is_walk(path) && path[0] == a && path.last() == c;
    let n = path.len() as int;
    let back = Seq::new(path.len(), |i: int| path[n - 1 - i]);
    assert forall|i: int| 0 <= i < back.len() implies b.open(#[trigger] back[i]) by {
        assert(b.open(path[n - 1 - i]));
    }
    assert forall|i: int| 0 <= i < back.len() - 1 implies adjacent(
        #[trigger] back[i],
        back[i + 1],
    ) by {
        assert(adjacent(path[n - 2 - i], path[n - 2 - i + 1]));
    }
    assert(b.is_walk(back) && back[0] == c && back.last() == a);
}

/// Two walks, the second from where the first ends, make one walk.
pub proof fn lemma_connects_transitive(b: Board, a: Position, c: Position, e: Position)
    requires
        b.connects(a, c),
        b.connects(c, e),
    ensures
        b.connects(a, e),
{
    let first = choose|path: Seq<Position>| #[trigger]
        b.is_walk(path) && path[0] == a && path.last() == c;
    let second = choose|path: Seq<Position>| #[trigger]
        b.is_walk(path) && path[0] == c && path.last() == e;
    let n = first.len() as int;
    let joined = first + second.subrange(1, second.len() as int);
    assert forall|i: int| 0 <= i < joined.len() implies b.open(#[trigger] joined[i]) by {
        if i < n {
            assert(joined[i] == first[i]);
        } else {
            assert(joined[i] == second[i - n + 1]);
        }
    }
    assert forall|i: int| 0 <= i < joined.len() - 1 implies adjacent(
        #[trigger] joined[i],
        joined[i + 1],
    ) by {
        if i < n - 1 {
            assert(adjacent(first[i], first[i + 1]));
        } else {
            assert(joined[i] == second[i - n + 1]);
            assert(joined[i + 1] == second[i - n + 1 + 1]);
            assert(adjacent(second[i - n + 1], second[i - n + 1 + 1]));
        }
    }
    assert(joined.last() == e) by {
        if second.len() == 1 {
            assert(joined =~= first);
        }
    }
    assert(b.is_walk(joined) && joined[0] == a && joined.last() == e);
}

/// Where the player stands on a plain cell, the open cells are the plain
/// cells, wherever the player is.
pub proof fn lemma_open_is_plain(b: Board, c: Position)
    requires
        b.wf(),
        b.player_settled(),
    ensures
        b.open(c) == b.plain(c),
{
    if b.in_bounds(c) {
        crate::board::lemma_index_bound(c.x as int, c.y as int, b.width as int, b.height as int);
        assert(b.floor[b.index_of(c)].floor_kind());
    }
}

/// Two boards that differ in the player's cell alone, each with the player
/// on a plain cell, have the same walks.
pub proof fn lemma_same_walks(a: Board, b: Board, path: Seq<Position>)
    requires
        a.wf(),
        a.player_settled(),
        b.player_settled(),
        b == (Board { player: b.player, ..a }),
    ensures
        a.is_walk(path) == b.is_walk(path),
{
    assert forall|i: int| 0 <= i < path.len() implies a.open(#[trigger] path[i]) == b.open(
        path[i],
    ) by {
        lemma_open_is_plain(a, path[i]);
        lemma_open_is_plain(b, path[i]);
    }
}

/// Two boards that differ in the player's cell alone, each with the player
/// on a plain cell, connect the same cells.
pub proof fn lemma_same_connects(a: Board, b: Board, from: Position, to: Position)
    requires
        a.wf(),
        a.player_settled(),
        b.player_settled(),
        b == (Board { player: b.player, ..a }),
    ensures
        a.connects(from, to) == b.connects(from, to),
{
    if a.connects(from, to) {
        let path = choose|path: Seq<Position>| #[trigger]
            a.is_walk(path) && path[0] == from && path.last() == to;
        lemma_same_walks(a, b, path);
        assert(b.is_walk(path) && path[0] == from && path.last() == to);
    }
    if b.connects(from, to) {
        let path = choose|path: Seq<Position>| #[trigger]
            b.is_walk(path) && path[0] == from && path.last() == to;
        lemma_same_walks(a, b, path);
        assert(a.is_walk(path) && path[0] == from && path.last() == to);
    }
}

/// Moving the player within the region that the player can walk to
/// changes neither what the player can reach nor what is seen of the boxes.
pub proof fn lemma_same_region(a: Board, b: Board, t: Position)
    requires
        a.wf(),
        a.player_settled(),
        b.player_settled(),
        b == (Board { player: b.player, ..a }),
        b.player is Some,
        a.reachable(b.player->0),
    ensures
        a.reachable(t) == b.reachable(t),
        a.seed_at(t) == b.seed_at(t),
        a.mark_at(t) == b.mark_at(t),
{
    let p = a.player->0;
    let q = b.player->0;
    lemma_same_connects(a, b, q, t);
    if a.in_bounds(t) {
        crate::board::lemma_index_bound(t.x as int, t.y as int, a.width as int, a.height as int);
        assert(a.floor[a.index_of(t)].floor_kind());
    }
    if a.connects(p, t) {
        lemma_connects_symmetric(a, p, q);
        lemma_connects_transitive(a, q, p, t);
    }
    if a.connects(q, t) {
        lemma_connects_transitive(a, p, q, t);
    }
}

} // verus!
