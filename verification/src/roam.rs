//! Distances on a board when only walls are in the way: what the search
//! takes as its lower bound for the pulls that a box still needs.

use crate::board::{adjacent, lemma_index_bound, Board};
use crate::node::{neighbours, Node, NodeType, Position};
use crate::reach::{lemma_index_injective, lemma_neighbours};
use crate::sokoban::Sokoban;
use crate::solver::Solver;
use vstd::prelude::*;

verus! {

/// A roam starts anywhere, goes from each cell to a neighbour and, after
/// its first cell, steps on nothing that is seen as a wall. Boxes and the
/// player do not stop it.
pub open spec fn is_roam(b: Board, path: Seq<Position>) -> bool {
    &&& path.len() > 0
    &&& forall|i: int| 1 <= i < path.len() ==> b.kind_at(#[trigger] path[i]) != NodeType::Wall
    &&& forall|i: int| 0 <= i < path.len() - 1 ==> adjacent(#[trigger] path[i], path[i + 1])
}

/// Some roam of exactly `n` steps leads from `from` to `to`.
pub open spec fn roams(b: Board, from: Position, to: Position, n: nat) -> bool {
    exists|path: Seq<Position>| #[trigger]
        is_roam(b, path) && path.len() == n + 1 && path[0] == from && path.last() == to
}

/// The fewest steps in which a roam leads from `from` to `to` are `d`.
pub open spec fn distance_is(b: Board, from: Position, to: Position, d: nat) -> bool {
    roams(b, from, to, d) && forall|k: nat| k < d ==> !roams(b, from, to, k)
}

/// No roam leads from `from` to `to`.
pub open spec fn walled_off(b: Board, from: Position, to: Position) -> bool {
    forall|k: nat| !roams(b, from, to, k)
}

/// What a table holds for a cell.
pub open spec fn entry(b: Board, table: Seq<Option<usize>>, p: Position) -> Option<usize> {
    table[b.index_of(p)]
}

/// The table holds, for each cell of the grid, the fewest steps of a roam
/// from `seed` to it, and nothing for a cell that no roam leads to.
pub open spec fn is_distance_table(b: Board, seed: Position, table: Seq<Option<usize>>) -> bool {
    &&& table.len() == b.width * b.height
    &&& forall|p: Position|
        b.in_bounds(p) ==> match #[trigger] entry(b, table, p) {
            Some(d) => distance_is(b, seed, p, d as nat),
            None => walled_off(b, seed, p),
        }
}

/// How many entries of a table are still empty.
pub open spec fn vacant(table: Seq<Option<usize>>) -> nat
    decreases table.len(),
{
    if table.len() == 0 {
        0
    } else {
        vacant(table.drop_last()) + if table.last() is None {
            1nat
        } else {
            0nat
        }
    }
}

/// Filling one empty entry leaves one empty entry less.
pub proof fn lemma_fill_one(table: Seq<Option<usize>>, k: int, d: usize)
    requires
        0 <= k < table.len(),
        table[k] is None,
    ensures
        vacant(table.update(k, Some(d))) + 1 == vacant(table),
    decreases table.len(),
{
    if k == table.len() - 1 {
        assert(table.update(k, Some(d)).drop_last() =~= table.drop_last());
    } else {
        lemma_fill_one(table.drop_last(), k, d);
        assert(table.update(k, Some(d)).drop_last() =~= table.drop_last().update(k, Some(d)));
    }
}

/// A cell is no step away from itself.
pub proof fn lemma_roams_self(b: Board, a: Position)
    ensures
        roams(b, a, a, 0),
{
    let path = seq![a];
    assert(is_roam(b, path) && path.len() == 1 && path[0] == a && path.last() == a);
}

/// A roam can go on to a neighbour of its end that is no wall.
pub proof fn lemma_roams_step(b: Board, a: Position, p: Position, q: Position, n: nat)
    requires
        roams(b, a, p, n),
        adjacent(p, q),
        b.kind_at(q) != NodeType::Wall,
    ensures
        roams(b, a, q, n + 1),
{
    let path = choose|path: Seq<Position>| #[trigger]
        is_roam(b, path) && path.len() == n + 1 && path[0] == a && path.last() == p;
    let longer = path.push(q);
    assert forall|i: int| 1 <= i < longer.len() implies b.kind_at(#[trigger] longer[i])
        != NodeType::Wall by {
        if i < path.len() {
            assert(longer[i] == path[i]);
        }
    }
    assert forall|i: int| 0 <= i < longer.len() - 1 implies adjacent(
        #[trigger] longer[i],
        longer[i + 1],
    ) by {
        if i < path.len() - 1 {
            assert(longer[i] == path[i]);
            assert(longer[i + 1] == path[i + 1]);
        }
    }
    assert(is_roam(b, longer) && longer.len() == n + 1 + 1 && longer[0] == a && longer.last()
        == q);
}

/// Every neighbour, if it is no wall, of a cell with an entry has an entry
/// that is at most one step more.
pub open spec fn table_closed(b: Board, table: Seq<Option<usize>>) -> bool {
    forall|p: Position, q: Position|
        b.in_bounds(p) && (#[trigger] entry(b, table, p)) is Some && #[trigger] adjacent(p, q)
            && b.kind_at(q) != NodeType::Wall ==> entry(b, table, q) is Some && entry(
            b,
            table,
            q,
        )->0 <= entry(b, table, p)->0 + 1
}

/// Along a roam from a cell with entry 0, a closed table holds for the
/// `i`-th cell an entry of at most `i`.
pub proof fn lemma_roam_entries(b: Board, table: Seq<Option<usize>>, path: Seq<Position>, i: int)
    requires
        is_roam(b, path),
        0 <= i < path.len(),
        b.in_bounds(path[0]),
        entry(b, table, path[0]) == Some(0usize),
        table_closed(b, table),
    ensures
        b.in_bounds(path[i]),
        entry(b, table, path[i]) is Some,
        entry(b, table, path[i])->0 <= i,
    decreases i,
{
    if i > 0 {
        lemma_roam_entries(b, table, path, i - 1);
        assert(adjacent(path[i - 1], path[i]));
        assert(b.kind_at(path[i]) != NodeType::Wall);
    }
}

/// A closed table whose entries are lengths of roams from the seed, the
/// seed's own being 0, is the table of distances from the seed.
pub proof fn lemma_closed_table(b: Board, seed: Position, table: Seq<Option<usize>>)
    requires
        table.len() == b.width * b.height,
        b.in_bounds(seed),
        entry(b, table, seed) == Some(0usize),
        table_closed(b, table),
        forall|p: Position|
            b.in_bounds(p) && (#[trigger] entry(b, table, p)) is Some ==> roams(
                b,
                seed,
                p,
                entry(b, table, p)->0 as nat,
            ),
    ensures
        is_distance_table(b, seed, table),
{
    assert forall|p: Position| b.in_bounds(p) implies match #[trigger] entry(b, table, p) {
        Some(d) => distance_is(b, seed, p, d as nat),
        None => walled_off(b, seed, p),
    } by {
        assert forall|k: nat| roams(b, seed, p, k) implies entry(b, table, p) is Some && entry(
            b,
            table,
            p,
        )->0 <= k by {
            let path = choose|path: Seq<Position>| #[trigger]
                is_roam(b, path) && path.len() == k + 1 && path[0] == seed && path.last() == p;
            lemma_roam_entries(b, table, path, k as int);
        }
    }
}

/// What the breadth-first search knows of the cells it has come to: each
/// cell in the queue has an entry, the entries grow along the queue by one
/// step at most, and every entry is the length of a roam from the seed.
pub open spec fn queue_ok(
    b: Board,
    seed: Position,
    table: Seq<Option<usize>>,
    queue: Seq<Position>,
) -> bool {
    &&& b.width * b.height <= usize::MAX
    &&& table.len() == b.width * b.height
    &&& b.in_bounds(seed)
    &&& entry(b, table, seed) == Some(0usize)
    &&& forall|i: int|
        0 <= i < queue.len() ==> b.in_bounds(#[trigger] queue[i]) && entry(
            b,
            table,
            queue[i],
        ) is Some && entry(b, table, queue[i])->0 <= i
    &&& forall|i: int, j: int|
        0 <= i <= j < queue.len() ==> entry(b, table, #[trigger] queue[i])->0 <= entry(
            b,
            table,
            #[trigger] queue[j],
        )->0
    &&& forall|p: Position|
        b.in_bounds(p) && (#[trigger] entry(b, table, p)) is Some ==> queue.contains(p) && roams(
            b,
            seed,
            p,
            entry(b, table, p)->0 as nat,
        )
}

/// Every neighbour of `p` that is no wall has an entry, at most one step
/// above that of `p`.
pub open spec fn expanded(b: Board, table: Seq<Option<usize>>, p: Position) -> bool {
    forall|q: Position|
        #[trigger] adjacent(p, q) && b.kind_at(q) != NodeType::Wall ==> entry(b, table, q) is Some
            && entry(b, table, q)->0 <= entry(b, table, p)->0 + 1
}

/// The state of the search between two cells: the first `head` cells of
/// the queue are expanded.
#[verifier::opaque]
pub open spec fn bfs_outer(
    b: Board,
    seed: Position,
    table: Seq<Option<usize>>,
    queue: Seq<Position>,
    head: int,
) -> bool {
    &&& queue_ok(b, seed, table, queue)
    &&& 0 <= head <= queue.len()
    &&& head < queue.len() ==> entry(b, table, queue.last())->0 <= entry(b, table, queue[head])->0
        + 1
    &&& forall|i: int| 0 <= i < head ==> expanded(b, table, #[trigger] queue[i])
}

/// The state of the search within a cell: the first `k` neighbours of the
/// cell at `head` have been looked at.
#[verifier::opaque]
pub open spec fn bfs_inner(
    b: Board,
    seed: Position,
    table: Seq<Option<usize>>,
    queue: Seq<Position>,
    head: int,
    k: int,
) -> bool {
    &&& queue_ok(b, seed, table, queue)
    &&& 0 <= head < queue.len()
    &&& entry(b, table, queue.last())->0 <= entry(b, table, queue[head])->0 + 1
    &&& forall|i: int| 0 <= i < head ==> expanded(b, table, #[trigger] queue[i])
    &&& 0 <= k <= neighbours(queue[head]).len()
    &&& forall|j: int|
        0 <= j < k && b.kind_at(#[trigger] neighbours(queue[head])[j]) != NodeType::Wall ==> entry(
            b,
            table,
            neighbours(queue[head])[j],
        ) is Some && entry(b, table, neighbours(queue[head])[j])->0 <= entry(
            b,
            table,
            queue[head],
        )->0 + 1
}

/// The search starts with the seed alone in the queue.
pub proof fn lemma_bfs_begin(b: Board, seed: Position, blank: Seq<Option<usize>>)
    requires
        b.width * b.height <= usize::MAX,
        blank.len() == b.width * b.height,
        forall|i: int| 0 <= i < blank.len() ==> blank[i] is None,
        b.in_bounds(seed),
    ensures
        0 <= b.index_of(seed) < blank.len(),
        bfs_outer(b, seed, blank.update(b.index_of(seed), Some(0usize)), seq![seed], 0),
        vacant(blank.update(b.index_of(seed), Some(0usize))) + 1 == vacant(blank),
{
    reveal(bfs_outer);
    let table = blank.update(b.index_of(seed), Some(0usize));
    let queue = seq![seed];
    lemma_index_bound(seed.x as int, seed.y as int, b.width as int, b.height as int);
    lemma_fill_one(blank, b.index_of(seed), 0usize);
    lemma_roams_self(b, seed);
    assert forall|p: Position|
        b.in_bounds(p) && (#[trigger] entry(b, table, p)) is Some implies queue.contains(p)
        && roams(b, seed, p, entry(b, table, p)->0 as nat) by {
        lemma_index_bound(p.x as int, p.y as int, b.width as int, b.height as int);
        lemma_index_injective(b, p, seed);
        assert(queue[0] == p);
    }
}

/// The cell at the head of the queue has an entry, and none of its
/// neighbours has been looked at yet.
pub proof fn lemma_bfs_current(
    b: Board,
    seed: Position,
    table: Seq<Option<usize>>,
    queue: Seq<Position>,
    head: int,
)
    requires
        bfs_outer(b, seed, table, queue, head),
        head < queue.len(),
    ensures
        bfs_inner(b, seed, table, queue, head, 0),
        b.in_bounds(queue[head]),
        entry(b, table, queue[head]) is Some,
        entry(b, table, queue[head])->0 <= head,
{
    reveal(bfs_outer);
    reveal(bfs_inner);
}

/// A neighbour that lies outside the grid, is a wall or has an entry
/// already needs nothing done.
pub proof fn lemma_bfs_skip(
    b: Board,
    seed: Position,
    table: Seq<Option<usize>>,
    queue: Seq<Position>,
    head: int,
    k: int,
)
    requires
        bfs_inner(b, seed, table, queue, head, k),
        k < neighbours(queue[head]).len(),
        ({
            let next = neighbours(queue[head])[k];
            !b.in_bounds(next) || entry(b, table, next) is Some || b.kind_at(next)
                == NodeType::Wall
        }),
    ensures
        bfs_inner(b, seed, table, queue, head, k + 1),
{
    reveal(bfs_inner);
    let next = neighbours(queue[head])[k];
    if b.in_bounds(next) && entry(b, table, next) is Some {
        assert(queue.contains(next));
        let i = choose|i: int| 0 <= i < queue.len() && queue[i] == next;
        assert(entry(b, table, queue[i])->0 <= entry(b, table, queue[queue.len() - 1])->0);
    }
}

/// What a table holds after one entry has been written.
pub proof fn lemma_entry_update(b: Board, table: Seq<Option<usize>>, next: Position, d: usize)
    requires
        b.width * b.height <= usize::MAX,
        table.len() == b.width * b.height,
        b.in_bounds(next),
    ensures
        0 <= b.index_of(next) < table.len(),
        forall|p: Position|
            b.in_bounds(p) ==> #[trigger] entry(b, table.update(b.index_of(next), Some(d)), p) == (
            if p == next {
                Some(d)
            } else {
                entry(b, table, p)
            }),
{
    lemma_index_bound(next.x as int, next.y as int, b.width as int, b.height as int);
    assert forall|p: Position| b.in_bounds(p) implies #[trigger] entry(
        b,
        table.update(b.index_of(next), Some(d)),
        p,
    ) == (if p == next {
        Some(d)
    } else {
        entry(b, table, p)
    }) by {
        lemma_index_bound(p.x as int, p.y as int, b.width as int, b.height as int);
        if b.index_of(p) == b.index_of(next) {
            lemma_index_injective(b, p, next);
        }
    }
}

/// The queue stays in order when a cell without an entry joins it with an
/// entry one step above that of a neighbour in the queue.
proof fn lemma_discover_queue(
    b: Board,
    seed: Position,
    table: Seq<Option<usize>>,
    queue: Seq<Position>,
    current: Position,
    next: Position,
)
    requires
        queue_ok(b, seed, table, queue),
        queue.len() > 0,
        b.in_bounds(current),
        entry(b, table, current) is Some,
        entry(b, table, current)->0 < queue.len(),
        entry(b, table, current)->0 < usize::MAX,
        entry(b, table, queue.last())->0 <= entry(b, table, current)->0 + 1,
        adjacent(current, next),
        b.in_bounds(next),
        entry(b, table, next) is None,
        b.kind_at(next) != NodeType::Wall,
    ensures
        queue_ok(
            b,
            seed,
            table.update(b.index_of(next), Some((entry(b, table, current)->0 + 1) as usize)),
            queue.push(next),
        ),
{
    let steps = entry(b, table, current)->0;
    let more = (steps + 1) as usize;
    let fresh = table.update(b.index_of(next), Some(more));
    let longer = queue.push(next);
    lemma_entry_update(b, table, next, more);
    assert(roams(b, seed, current, steps as nat));
    lemma_roams_step(b, seed, current, next, steps as nat);
    assert forall|i: int| 0 <= i < queue.len() implies longer[i] == queue[i] && queue[i]
        != next by {
        assert(entry(b, table, queue[i]) is Some);
    }
    assert(longer[queue.len() as int] == next);
    assert forall|i: int| 0 <= i < longer.len() implies b.in_bounds(#[trigger] longer[i])
        && entry(b, fresh, longer[i]) is Some && entry(b, fresh, longer[i])->0 <= i by {
        if i < queue.len() {
            assert(longer[i] == queue[i]);
        }
    }
    assert forall|i: int, j: int| 0 <= i <= j < longer.len() implies entry(
        b,
        fresh,
        #[trigger] longer[i],
    )->0 <= entry(b, fresh, #[trigger] longer[j])->0 by {
        if j < queue.len() {
            assert(entry(b, table, queue[i])->0 <= entry(b, table, queue[j])->0);
        } else if i < queue.len() {
            assert(entry(b, table, queue[i])->0 <= entry(b, table, queue[queue.len() - 1])->0);
        }
    }
    assert forall|p: Position|
        b.in_bounds(p) && (#[trigger] entry(b, fresh, p)) is Some implies longer.contains(p)
        && roams(b, seed, p, entry(b, fresh, p)->0 as nat) by {
        if p != next {
            assert(entry(b, table, p) is Some);
            assert(queue.contains(p));
            let i = choose|i: int| 0 <= i < queue.len() && queue[i] == p;
            assert(longer[i] == p);
        }
    }
}

/// A cell that is expanded stays so when a cell without an entry gets one.
proof fn lemma_discover_expanded(
    b: Board,
    table: Seq<Option<usize>>,
    p: Position,
    next: Position,
    d: usize,
)
    requires
        b.width * b.height <= usize::MAX,
        table.len() == b.width * b.height,
        b.in_bounds(p),
        b.in_bounds(next),
        entry(b, table, p) is Some,
        entry(b, table, next) is None,
        expanded(b, table, p),
    ensures
        expanded(b, table.update(b.index_of(next), Some(d)), p),
{
    let fresh = table.update(b.index_of(next), Some(d));
    lemma_entry_update(b, table, next, d);
    assert forall|q: Position|
        #[trigger] adjacent(p, q) && b.kind_at(q) != NodeType::Wall implies entry(
        b,
        fresh,
        q,
    ) is Some && entry(b, fresh, q)->0 <= entry(b, fresh, p)->0 + 1 by {
        assert(entry(b, table, q) is Some);
        assert(b.in_bounds(q));
    }
}

/// A neighbour without an entry that is no wall gets the entry of the
/// current cell and one, and joins the queue.
pub proof fn lemma_bfs_discover(
    b: Board,
    seed: Position,
    table: Seq<Option<usize>>,
    queue: Seq<Position>,
    head: int,
    k: int,
)
    requires
        bfs_inner(b, seed, table, queue, head, k),
        entry(b, table, queue[head])->0 < usize::MAX,
        k < neighbours(queue[head]).len(),
        queue[head].x < usize::MAX,
        queue[head].y < usize::MAX,
        ({
            let next = neighbours(queue[head])[k];
            b.in_bounds(next) && entry(b, table, next) is None && b.kind_at(next)
                != NodeType::Wall
        }),
    ensures
        entry(b, table, queue[head]) is Some,
        entry(b, table, queue[head])->0 < queue.len(),
        ({
            let next = neighbours(queue[head])[k];
            let steps = (entry(b, table, queue[head])->0 + 1) as usize;
            let fresh = table.update(b.index_of(next), Some(steps));
            &&& bfs_inner(b, seed, fresh, queue.push(next), head, k + 1)
            &&& vacant(fresh) + 1 == vacant(table)
            &&& entry(b, fresh, queue[head]) == entry(b, table, queue[head])
        }),
{
    reveal(bfs_inner);
    let current = queue[head];
    let around = neighbours(current);
    let next = around[k];
    let steps = entry(b, table, current)->0;
    let more = (steps + 1) as usize;
    let fresh = table.update(b.index_of(next), Some(more));
    let longer = queue.push(next);
    assert(b.in_bounds(queue[head]) && entry(b, table, queue[head]) is Some && steps <= head);
    lemma_entry_update(b, table, next, more);
    lemma_fill_one(table, b.index_of(next), more);
    assert(around.contains(next));
    lemma_neighbours(current, next);
    lemma_discover_queue(b, seed, table, queue, current, next);
    assert(longer[head] == current);
    assert(longer.last() == next);
    assert forall|i: int| 0 <= i < head implies expanded(b, fresh, #[trigger] longer[i]) by {
        assert(longer[i] == queue[i]);
        assert(b.in_bounds(queue[i]) && entry(b, table, queue[i]) is Some);
        assert(expanded(b, table, queue[i]));
        lemma_discover_expanded(b, table, queue[i], next, more);
    }
    assert forall|j: int|
        0 <= j < k + 1 && b.kind_at(#[trigger] neighbours(longer[head])[j])
            != NodeType::Wall implies entry(b, fresh, neighbours(longer[head])[j]) is Some
        && entry(b, fresh, neighbours(longer[head])[j])->0 <= entry(b, fresh, longer[head])->0
        + 1 by {
        if j < k {
            assert(entry(b, table, around[j]) is Some);
            assert(b.in_bounds(around[j]));
        }
    }
}

/// Once all neighbours of the cell at the head have been looked at, the
/// cell is expanded.
pub proof fn lemma_bfs_advance(
    b: Board,
    seed: Position,
    table: Seq<Option<usize>>,
    queue: Seq<Position>,
    head: int,
)
    requires
        0 <= head < queue.len(),
        queue[head].x < usize::MAX,
        queue[head].y < usize::MAX,
        bfs_inner(b, seed, table, queue, head, neighbours(queue[head]).len() as int),
    ensures
        bfs_outer(b, seed, table, queue, head + 1),
{
    reveal(bfs_inner);
    reveal(bfs_outer);
    let current = queue[head];
    let around = neighbours(current);
    assert forall|i: int| 0 <= i < head + 1 implies expanded(b, table, #[trigger] queue[i]) by {
        if i == head {
            assert forall|q: Position|
                #[trigger] adjacent(current, q) && b.kind_at(q) != NodeType::Wall implies entry(
                b,
                table,
                q,
            ) is Some && entry(b, table, q)->0 <= entry(b, table, current)->0 + 1 by {
                lemma_neighbours(current, q);
                let j = choose|j: int| 0 <= j < around.len() && around[j] == q;
                assert(b.kind_at(around[j]) != NodeType::Wall);
            }
        }
    }
    if head + 1 < queue.len() {
        assert(entry(b, table, queue[head])->0 <= entry(b, table, queue[head + 1])->0);
    }
}

/// When the queue is used up, the table holds the distances from the seed.
pub proof fn lemma_bfs_done(
    b: Board,
    seed: Position,
    table: Seq<Option<usize>>,
    queue: Seq<Position>,
)
    requires
        bfs_outer(b, seed, table, queue, queue.len() as int),
    ensures
        is_distance_table(b, seed, table),
{
    reveal(bfs_outer);
    assert(table_closed(b, table)) by {
        assert forall|p: Position, q: Position|
            b.in_bounds(p) && (#[trigger] entry(b, table, p)) is Some && #[trigger] adjacent(p, q)
                && b.kind_at(q) != NodeType::Wall implies entry(b, table, q) is Some && entry(
            b,
            table,
            q,
        )->0 <= entry(b, table, p)->0 + 1 by {
            assert(queue.contains(p));
            let i = choose|i: int| 0 <= i < queue.len() && queue[i] == p;
            assert(expanded(b, table, queue[i]));
        }
    }
    lemma_closed_table(b, seed, table);
}

impl Solver {
    /// The fewest steps from `goal` to each cell of the grid when only walls
    /// are in the way, found breadth first; nothing for a cell that walls
    /// cut off.
    pub fn heuristic_bfs(sokoban_map: &Sokoban, goal: Position) -> (distance: Vec<Option<usize>>)
        requires
            sokoban_map.wf(),
            sokoban_map@.in_bounds(goal),
        ensures
            is_distance_table(sokoban_map@, goal, distance@),
    {
        let ghost b = sokoban_map@;
        let cells: usize = sokoban_map.map.len();
        assert(cells == sokoban_map.width * sokoban_map.height);
        let mut distance: Vec<Option<usize>> = Vec::new();
        while distance.len() < cells
            invariant
                distance@.len() <= cells,
                forall|i: int| 0 <= i < distance@.len() ==> distance@[i] is None,
            decreases cells - distance@.len(),
        {
            distance.push(None);
        }
        let mut queue: Vec<Position> = Vec::new();
        let at = sokoban_map.index(&goal);
        proof {
            lemma_bfs_begin(b, goal, distance@);
        }
        distance.set(at, Some(0));
        queue.push(goal);
        assert(queue@ =~= seq![goal]);
        let mut head: usize = 0;
        while head < queue.len()
            invariant
                sokoban_map.wf(),
                b == sokoban_map@,
                distance@.len() == sokoban_map.width * sokoban_map.height,
                bfs_outer(b, goal, distance@, queue@, head as int),
                head <= queue@.len(),
            decreases vacant(distance@) + queue@.len() - head,
        {
            proof {
                lemma_bfs_current(b, goal, distance@, queue@, head as int);
            }
            let current = queue[head];
            let here = sokoban_map.index(&current);
            let steps: usize = match distance[here] {
                Some(steps) => steps,
                None => 0,
            };
            let further: usize = steps + 1;
            let around = Node::loop_positions(&current);
            let ghost budget = vacant(distance@) + queue@.len();
            let mut k: usize = 0;
            while k < around.len()
                invariant
                    sokoban_map.wf(),
                    b == sokoban_map@,
                    distance@.len() == sokoban_map.width * sokoban_map.height,
                    head < queue@.len(),
                    k <= around@.len(),
                    current == queue@[head as int],
                    b.in_bounds(current),
                    around@ == neighbours(current),
                    entry(b, distance@, current) == Some(steps),
                    further == steps + 1,
                    bfs_inner(b, goal, distance@, queue@, head as int, k as int),
                    vacant(distance@) + queue@.len() == budget,
                decreases around@.len() - k,
            {
                let next = around[k];
                let ghost mut found = false;
                if next.x < sokoban_map.width && next.y < sokoban_map.height {
                    let at = sokoban_map.index(&next);
                    if distance[at].is_none() && sokoban_map.get_ntype(&next) != NodeType::Wall {
                        proof {
                            lemma_bfs_discover(b, goal, distance@, queue@, head as int, k as int);
                        }
                        distance.set(at, Some(further));
                        queue.push(next);
                        proof {
                            found = true;
                        }
                    }
                }
                proof {
                    if !found {
                        lemma_bfs_skip(b, goal, distance@, queue@, head as int, k as int);
                    }
                }
                k += 1;
            }
            proof {
                lemma_bfs_advance(b, goal, distance@, queue@, head as int);
            }
            head += 1;
        }
        proof {
            lemma_bfs_done(b, goal, distance@, queue@);
        }
        distance
    }

    /// The table of distances of each box of `sokoban_map`, in the order of
    /// the boxes.
    pub fn build_heuristics(sokoban_map: &Sokoban) -> (heuristics: Vec<Vec<Option<usize>>>)
        requires
            sokoban_map.wf(),
            sokoban_map@.boxes_inside(),
        ensures
            heuristics@.len() == sokoban_map.boxes@.len(),
            forall|i: int|
                0 <= i < heuristics@.len() ==> is_distance_table(
                    sokoban_map@,
                    sokoban_map.boxes@[i],
                    (#[trigger] heuristics@[i])@,
                ),
    {
        let mut heuristics: Vec<Vec<Option<usize>>> = Vec::new();
        let mut sbox: usize = 0;
        while sbox < sokoban_map.boxes.len()
            invariant
                sokoban_map.wf(),
                sokoban_map@.boxes_inside(),
                sbox <= sokoban_map.boxes@.len(),
                heuristics@.len() == sbox,
                forall|i: int|
                    0 <= i < heuristics@.len() ==> is_distance_table(
                        sokoban_map@,
                        sokoban_map.boxes@[i],
                        (#[trigger] heuristics@[i])@,
                    ),
            decreases sokoban_map.boxes@.len() - sbox,
        {
            assert(sokoban_map@.in_bounds(sokoban_map@.boxes[sbox as int]));
            let table = Solver::heuristic_bfs(sokoban_map, sokoban_map.boxes[sbox]);
            heuristics.push(table);
            sbox += 1;
        }
        heuristics
    }
}

} // verus!
