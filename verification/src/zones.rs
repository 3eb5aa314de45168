//! The zones of a board: the regions of open cells that boxes and walls
//! part from each other, and the cells from which a pull can start.

use crate::board::{adjacent, lemma_index_bound, Board};
use crate::level::lemma_cell_of_index;
use crate::node::{neighbours, Node, NodeType, Position};
use crate::reach::{
    lemma_connects_open, lemma_connects_self, lemma_connects_step, lemma_connects_symmetric,
    lemma_connects_transitive, lemma_index_injective, lemma_neighbours,
};
use crate::solver::Solver;
use vstd::prelude::*;

verus! {

/// A box is seen on a neighbour of the cell.
pub open spec fn sees_box(b: Board, c: Position) -> bool {
    exists|n: Position| #[trigger] adjacent(c, n) && b.kind_at(n).box_kind()
}

/// From `z` a walk leads to a cell next to a box.
pub open spec fn zone_has_box(b: Board, z: Position) -> bool {
    exists|c: Position| #[trigger] b.connects(z, c) && sees_box(b, c)
}

/// The list names one open cell of each zone from which a box can be
/// touched: each cell named lies in such a zone, no two lie in the same
/// zone, and every open cell next to a box can be walked to from one of
/// them.
#[verifier::opaque]
pub open spec fn is_zone_list(b: Board, zones: Seq<Position>) -> bool {
    &&& forall|i: int|
        0 <= i < zones.len() ==> b.open(#[trigger] zones[i]) && zone_has_box(b, zones[i])
    &&& forall|i: int, j: int|
        0 <= i < j < zones.len() ==> !b.connects(#[trigger] zones[i], #[trigger] zones[j])
    &&& forall|c: Position|
        b.open(c) && #[trigger] sees_box(b, c) ==> exists|i: int|
            0 <= i < zones.len() && b.connects(#[trigger] zones[i], c)
}

/// The cell lies in the grid and is flagged.
pub open spec fn seen(b: Board, flags: Seq<bool>, p: Position) -> bool {
    b.in_bounds(p) && flags[b.index_of(p)]
}

/// How many flags are not set.
pub open spec fn unseen(flags: Seq<bool>) -> nat
    decreases flags.len(),
{
    if flags.len() == 0 {
        0
    } else {
        unseen(flags.drop_last()) + if flags.last() {
            0nat
        } else {
            1nat
        }
    }
}

/// Setting one more flag leaves one unset flag less.
pub proof fn lemma_flag_one(flags: Seq<bool>, k: int)
    requires
        0 <= k < flags.len(),
        !flags[k],
    ensures
        unseen(flags.update(k, true)) + 1 == unseen(flags),
    decreases flags.len(),
{
    if k == flags.len() - 1 {
        assert(flags.update(k, true).drop_last() =~= flags.drop_last());
    } else {
        lemma_flag_one(flags.drop_last(), k);
        assert(flags.update(k, true).drop_last() =~= flags.drop_last().update(k, true));
    }
}

/// What is flagged after one flag has been set.
pub proof fn lemma_flag_update(b: Board, flags: Seq<bool>, next: Position)
    requires
        b.width * b.height <= usize::MAX,
        flags.len() == b.width * b.height,
        b.in_bounds(next),
    ensures
        0 <= b.index_of(next) < flags.len(),
        forall|p: Position|
            #[trigger] seen(b, flags.update(b.index_of(next), true), p) == (p == next || seen(
                b,
                flags,
                p,
            )),
{
    lemma_index_bound(next.x as int, next.y as int, b.width as int, b.height as int);
    assert forall|p: Position|
        #[trigger] seen(b, flags.update(b.index_of(next), true), p) == (p == next || seen(
            b,
            flags,
            p,
        )) by {
        if b.in_bounds(p) {
            lemma_index_bound(p.x as int, p.y as int, b.width as int, b.height as int);
            if b.index_of(p) == b.index_of(next) {
                lemma_index_injective(b, p, next);
            }
        }
    }
}

/// Every open neighbour of `p` is flagged.
pub open spec fn spread(b: Board, flags: Seq<bool>, p: Position) -> bool {
    forall|q: Position| #[trigger] adjacent(p, q) && b.open(q) ==> seen(b, flags, q)
}

/// Every open neighbour of a flagged open cell is flagged.
pub open spec fn flags_closed(b: Board, flags: Seq<bool>) -> bool {
    forall|p: Position|
        b.open(p) && #[trigger] seen(b, flags, p) ==> spread(b, flags, p)
}

/// A walk that starts on a flagged cell stays on flagged cells where the
/// flags are closed.
pub proof fn lemma_walk_stays_seen(b: Board, flags: Seq<bool>, path: Seq<Position>, i: int)
    requires
        b.is_walk(path),
        0 <= i < path.len(),
        seen(b, flags, path[0]),
        flags_closed(b, flags),
    ensures
        seen(b, flags, path[i]),
    decreases i,
{
    if i > 0 {
        lemma_walk_stays_seen(b, flags, path, i - 1);
        assert(b.open(path[i - 1]));
        assert(spread(b, flags, path[i - 1]));
        assert(adjacent(path[i - 1], path[i]));
        assert(b.open(path[i]));
    }
}

/// What is connected to a flagged cell is flagged where the flags are
/// closed.
pub proof fn lemma_connected_seen(b: Board, flags: Seq<bool>, a: Position, c: Position)
    requires
        b.connects(a, c),
        seen(b, flags, a),
        flags_closed(b, flags),
    ensures
        seen(b, flags, c),
{
    let path = choose|path: Seq<Position>| #[trigger]
        b.is_walk(path) && path[0] == a && path.last() == c;
    lemma_walk_stays_seen(b, flags, path, path.len() - 1);
}

/// What holds between two floods: the flags are closed, and the list names
/// one cell of each flagged zone from which a box can be touched.
#[verifier::opaque]
pub open spec fn zones_ok(b: Board, flags: Seq<bool>, zones: Seq<Position>) -> bool {
    &&& b.width * b.height <= usize::MAX
    &&& flags.len() == b.width * b.height
    &&& flags_closed(b, flags)
    &&& forall|i: int|
        0 <= i < zones.len() ==> b.open(#[trigger] zones[i]) && zone_has_box(b, zones[i]) && seen(
            b,
            flags,
            zones[i],
        )
    &&& forall|i: int, j: int|
        0 <= i < j < zones.len() ==> !b.connects(#[trigger] zones[i], #[trigger] zones[j])
    &&& forall|c: Position|
        b.open(c) && seen(b, flags, c) && #[trigger] sees_box(b, c) ==> exists|i: int|
            0 <= i < zones.len() && b.connects(#[trigger] zones[i], c)
}

/// What one flood has done: it has flagged the zone of `seed`, and it names
/// a cell of that zone if and only if a box can be touched from the zone.
#[verifier::opaque]
pub open spec fn flood_done(
    b: Board,
    before: Seq<bool>,
    flags: Seq<bool>,
    seed: Position,
    named: Option<Position>,
) -> bool {
    &&& flags.len() == before.len()
    &&& seen(b, flags, seed)
    &&& forall|p: Position| #[trigger] seen(b, before, p) ==> seen(b, flags, p)
    &&& forall|p: Position|
        b.open(p) && #[trigger] seen(b, flags, p) && !seen(b, before, p) ==> b.connects(seed, p)
            && spread(b, flags, p)
    &&& match named {
        Some(z) => b.open(z) && seen(b, flags, z) && b.connects(seed, z) && zone_has_box(b, seed),
        None => forall|p: Position|
            b.open(p) && #[trigger] seen(b, flags, p) && !seen(b, before, p) ==> !sees_box(b, p),
    }
}

/// With no flag set and no zone named, nothing is owed.
pub proof fn lemma_zones_begin(b: Board, flags: Seq<bool>)
    requires
        b.width * b.height <= usize::MAX,
        flags.len() == b.width * b.height,
        forall|i: int| 0 <= i < flags.len() ==> !flags[i],
    ensures
        zones_ok(b, flags, Seq::<Position>::empty()),
{
    reveal(zones_ok);
    assert forall|p: Position| !seen(b, flags, p) by {
        if b.in_bounds(p) {
            lemma_index_bound(p.x as int, p.y as int, b.width as int, b.height as int);
        }
    }
}

/// After the flood of one more zone the list, with the cell that the flood
/// has named, is again what it should be.
pub proof fn lemma_zone_added(
    b: Board,
    before: Seq<bool>,
    flags: Seq<bool>,
    zones: Seq<Position>,
    seed: Position,
    named: Option<Position>,
)
    requires
        zones_ok(b, before, zones),
        b.open(seed),
        !seen(b, before, seed),
        flood_done(b, before, flags, seed, named),
    ensures
        zones_ok(
            b,
            flags,
            match named {
                Some(z) => zones.push(z),
                None => zones,
            },
        ),
{
    reveal(zones_ok);
    reveal(flood_done);
    let all = match named {
        Some(z) => zones.push(z),
        None => zones,
    };
    assert(flags_closed(b, flags)) by {
        assert forall|p: Position| b.open(p) && #[trigger] seen(b, flags, p) implies spread(
            b,
            flags,
            p,
        ) by {
            if seen(b, before, p) {
                assert(spread(b, before, p));
                assert forall|q: Position| #[trigger] adjacent(p, q) && b.open(q) implies seen(
                    b,
                    flags,
                    q,
                ) by {
                    assert(seen(b, before, q));
                }
            }
        }
    }
    assert forall|i: int| 0 <= i < all.len() implies b.open(#[trigger] all[i]) && zone_has_box(
        b,
        all[i],
    ) && seen(b, flags, all[i]) by {
        if i < zones.len() {
            assert(all[i] == zones[i]);
            assert(seen(b, before, zones[i]));
        } else {
            let z = named->0;
            let c = choose|c: Position| #[trigger] b.connects(seed, c) && sees_box(b, c);
            lemma_connects_symmetric(b, seed, z);
            lemma_connects_transitive(b, z, seed, c);
        }
    }
    assert forall|i: int, j: int| 0 <= i < j < all.len() implies !b.connects(
        #[trigger] all[i],
        #[trigger] all[j],
    ) by {
        if j < zones.len() {
            assert(all[i] == zones[i] && all[j] == zones[j]);
        } else {
            let z = named->0;
            assert(all[i] == zones[i]);
            if b.connects(zones[i], z) {
                lemma_connects_symmetric(b, seed, z);
                lemma_connects_transitive(b, zones[i], z, seed);
                lemma_connected_seen(b, before, zones[i], seed);
            }
        }
    }
    assert forall|c: Position|
        b.open(c) && seen(b, flags, c) && #[trigger] sees_box(b, c) implies exists|i: int|
        0 <= i < all.len() && b.connects(#[trigger] all[i], c) by {
        if seen(b, before, c) {
            let i = choose|i: int| 0 <= i < zones.len() && b.connects(#[trigger] zones[i], c);
            assert(all[i] == zones[i]);
        } else {
            let z = named->0;
            lemma_connects_symmetric(b, seed, z);
            lemma_connects_transitive(b, z, seed, c);
            assert(all[zones.len() as int] == z);
        }
    }
}

/// Once every open cell is flagged, the list is the list of zones.
pub proof fn lemma_zones_done(b: Board, flags: Seq<bool>, zones: Seq<Position>)
    requires
        zones_ok(b, flags, zones),
        forall|p: Position| b.open(p) ==> #[trigger] seen(b, flags, p),
    ensures
        is_zone_list(b, zones),
{
    reveal(zones_ok);
    reveal(is_zone_list);
    assert forall|c: Position| b.open(c) && #[trigger] sees_box(b, c) implies exists|i: int|
        0 <= i < zones.len() && b.connects(#[trigger] zones[i], c) by {
        assert(seen(b, flags, c));
    }
}

/// Each cell of a zone list is open, and a box can be touched from its
/// zone.
pub proof fn lemma_zone_named(b: Board, zones: Seq<Position>, k: int)
    requires
        is_zone_list(b, zones),
        0 <= k < zones.len(),
    ensures
        b.open(zones[k]),
        zone_has_box(b, zones[k]),
{
    reveal(is_zone_list);
}

/// Where no open cell sees a box, the zone list is empty.
pub proof fn lemma_no_zone(b: Board, zones: Seq<Position>)
    requires
        is_zone_list(b, zones),
        forall|c: Position| b.open(c) ==> !#[trigger] sees_box(b, c),
    ensures
        zones.len() == 0,
{
    reveal(is_zone_list);
    if zones.len() > 0 {
        let z = zones[0];
        let c = choose|c: Position| #[trigger] b.connects(z, c) && sees_box(b, c);
        lemma_connects_open(b, z, c);
    }
}

/// Every open cell from whose zone a box can be touched is connected to
/// a cell of the zone list.
pub proof fn lemma_zone_found(b: Board, zones: Seq<Position>, z: Position) -> (k: int)
    requires
        is_zone_list(b, zones),
        b.open(z),
        zone_has_box(b, z),
    ensures
        0 <= k < zones.len(),
        b.connects(z, zones[k]),
{
    reveal(is_zone_list);
    let c = choose|c: Position| #[trigger] b.connects(z, c) && sees_box(b, c);
    lemma_connects_open(b, z, c);
    let k = choose|k: int| 0 <= k < zones.len() && b.connects(#[trigger] zones[k], c);
    lemma_connects_symmetric(b, zones[k], c);
    lemma_connects_transitive(b, z, c, zones[k]);
    k
}

/// What the flood knows of its queue: it starts with the seed, holds open
/// cells of the seed's zone only, and holds every open cell that the flood
/// has flagged.
pub open spec fn flood_base(
    b: Board,
    before: Seq<bool>,
    flags: Seq<bool>,
    seed: Position,
    queue: Seq<Position>,
) -> bool {
    &&& b.width * b.height <= usize::MAX
    &&& before.len() == b.width * b.height
    &&& flags.len() == b.width * b.height
    &&& queue.len() > 0
    &&& queue[0] == seed
    &&& !seen(b, before, seed)
    &&& forall|p: Position| #[trigger] seen(b, before, p) ==> seen(b, flags, p)
    &&& forall|i: int|
        0 <= i < queue.len() ==> b.open(#[trigger] queue[i]) && b.connects(seed, queue[i])
    &&& forall|i: int| 1 <= i < queue.len() ==> seen(b, flags, #[trigger] queue[i])
    &&& forall|p: Position|
        b.open(p) && #[trigger] seen(b, flags, p) && !seen(b, before, p) ==> queue.contains(p)
}

/// The state of the flood between two cells: the first `head` cells of the
/// queue are flagged and spread, and `has_box` tells whether one of them
/// sees a box.
#[verifier::opaque]
pub open spec fn flood_outer(
    b: Board,
    before: Seq<bool>,
    flags: Seq<bool>,
    seed: Position,
    queue: Seq<Position>,
    head: int,
    has_box: bool,
) -> bool {
    &&& flood_base(b, before, flags, seed, queue)
    &&& 0 <= head <= queue.len()
    &&& head == 0 ==> flags == before
    &&& forall|i: int|
        0 <= i < head ==> seen(b, flags, #[trigger] queue[i]) && spread(b, flags, queue[i])
    &&& has_box <==> exists|i: int| 0 <= i < head && sees_box(b, #[trigger] queue[i])
}

/// The state of the flood within a cell: the cell at `head` is flagged and
/// its first `k` neighbours have been looked at.
#[verifier::opaque]
pub open spec fn flood_inner(
    b: Board,
    before: Seq<bool>,
    flags: Seq<bool>,
    seed: Position,
    queue: Seq<Position>,
    head: int,
    k: int,
    has_box: bool,
) -> bool {
    &&& flood_base(b, before, flags, seed, queue)
    &&& 0 <= head < queue.len()
    &&& seen(b, flags, queue[head])
    &&& forall|i: int|
        0 <= i < head ==> seen(b, flags, #[trigger] queue[i]) && spread(b, flags, queue[i])
    &&& 0 <= k <= neighbours(queue[head]).len()
    &&& forall|j: int|
        0 <= j < k && b.open(#[trigger] neighbours(queue[head])[j]) ==> seen(
            b,
            flags,
            neighbours(queue[head])[j],
        )
    &&& has_box <==> (exists|i: int| 0 <= i < head && sees_box(b, #[trigger] queue[i])) || (
    exists|j: int| 0 <= j < k && b.kind_at(#[trigger] neighbours(queue[head])[j]).box_kind())
}

/// The flood starts with the seed alone in the queue.
pub proof fn lemma_flood_begin(b: Board, before: Seq<bool>, seed: Position)
    requires
        b.width * b.height <= usize::MAX,
        before.len() == b.width * b.height,
        b.open(seed),
        !seen(b, before, seed),
    ensures
        flood_outer(b, before, before, seed, seq![seed], 0, false),
{
    reveal(flood_outer);
    lemma_connects_self(b, seed);
}

/// The cell at the head of the queue is flagged before its neighbours are
/// looked at.
pub proof fn lemma_flood_current(
    b: Board,
    before: Seq<bool>,
    flags: Seq<bool>,
    seed: Position,
    queue: Seq<Position>,
    head: int,
    has_box: bool,
)
    requires
        flood_outer(b, before, flags, seed, queue, head, has_box),
        head < queue.len(),
    ensures
        b.in_bounds(queue[head]),
        0 <= b.index_of(queue[head]) < flags.len(),
        head == 0 ==> !flags[b.index_of(queue[head])],
        flags[b.index_of(queue[head])] ==> flood_inner(
            b,
            before,
            flags,
            seed,
            queue,
            head,
            0,
            has_box,
        ),
        !flags[b.index_of(queue[head])] ==> flood_inner(
            b,
            before,
            flags.update(b.index_of(queue[head]), true),
            seed,
            queue,
            head,
            0,
            has_box,
        ) && unseen(flags.update(b.index_of(queue[head]), true)) + 1 == unseen(flags),
{
    reveal(flood_outer);
    reveal(flood_inner);
    let current = queue[head];
    assert(b.open(current));
    lemma_index_bound(current.x as int, current.y as int, b.width as int, b.height as int);
    if !flags[b.index_of(current)] {
        let fresh = flags.update(b.index_of(current), true);
        lemma_flag_update(b, flags, current);
        lemma_flag_one(flags, b.index_of(current));
        assert forall|i: int| 0 <= i < head implies seen(b, fresh, #[trigger] queue[i]) && spread(
            b,
            fresh,
            queue[i],
        ) by {
            assert(spread(b, flags, queue[i]));
        }
        assert forall|p: Position|
            b.open(p) && #[trigger] seen(b, fresh, p) && !seen(
                b,
                before,
                p,
            ) implies queue.contains(p) by {
            if p == current {
                assert(queue[head] == p);
            }
        }
    }
}

/// A neighbour that lies outside the grid or is flagged already needs
/// nothing done but to note whether it holds a box.
pub proof fn lemma_flood_skip(
    b: Board,
    before: Seq<bool>,
    flags: Seq<bool>,
    seed: Position,
    queue: Seq<Position>,
    head: int,
    k: int,
    has_box: bool,
)
    requires
        flood_inner(b, before, flags, seed, queue, head, k, has_box),
        k < neighbours(queue[head]).len(),
        !b.in_bounds(neighbours(queue[head])[k]) || seen(b, flags, neighbours(queue[head])[k]),
    ensures
        flood_inner(
            b,
            before,
            flags,
            seed,
            queue,
            head,
            k + 1,
            has_box || b.kind_at(neighbours(queue[head])[k]).box_kind(),
        ),
{
    reveal(flood_inner);
}

/// A neighbour that is not flagged is flagged, and joins the queue if it is
/// open.
pub proof fn lemma_flood_visit(
    b: Board,
    before: Seq<bool>,
    flags: Seq<bool>,
    seed: Position,
    queue: Seq<Position>,
    head: int,
    k: int,
    has_box: bool,
)
    requires
        flood_inner(b, before, flags, seed, queue, head, k, has_box),
        k < neighbours(queue[head]).len(),
        queue[head].x < usize::MAX,
        queue[head].y < usize::MAX,
        b.in_bounds(neighbours(queue[head])[k]),
        !seen(b, flags, neighbours(queue[head])[k]),
    ensures
        ({
            let next = neighbours(queue[head])[k];
            let fresh = flags.update(b.index_of(next), true);
            let longer = if b.open(next) {
                queue.push(next)
            } else {
                queue
            };
            &&& 0 <= b.index_of(next) < flags.len()
            &&& unseen(fresh) + 1 == unseen(flags)
            &&& flood_inner(
                b,
                before,
                fresh,
                seed,
                longer,
                head,
                k + 1,
                has_box || b.kind_at(next).box_kind(),
            )
        }),
{
    reveal(flood_inner);
    let current = queue[head];
    let around = neighbours(current);
    let next = around[k];
    let fresh = flags.update(b.index_of(next), true);
    let longer = if b.open(next) {
        queue.push(next)
    } else {
        queue
    };
    lemma_flag_update(b, flags, next);
    lemma_flag_one(flags, b.index_of(next));
    assert(around.contains(next));
    lemma_neighbours(current, next);
    assert(longer[head] == current);
    assert forall|i: int| 0 <= i < queue.len() implies longer[i] == queue[i] by {}
    if b.open(next) {
        lemma_connects_step(b, seed, current, next);
        assert(longer[queue.len() as int] == next);
    }
    assert forall|i: int| 0 <= i < longer.len() implies b.open(#[trigger] longer[i])
        && b.connects(seed, longer[i]) by {
        if i < queue.len() {
            assert(longer[i] == queue[i]);
        }
    }
    assert forall|i: int| 1 <= i < longer.len() implies seen(b, fresh, #[trigger] longer[i]) by {
        if i < queue.len() {
            assert(longer[i] == queue[i]);
            assert(seen(b, flags, queue[i]));
        }
    }
    assert forall|p: Position|
        b.open(p) && #[trigger] seen(b, fresh, p) && !seen(b, before, p) implies longer.contains(
        p,
    ) by {
        if p != next {
            assert(seen(b, flags, p));
            assert(queue.contains(p));
            let i = choose|i: int| 0 <= i < queue.len() && queue[i] == p;
            assert(longer[i] == p);
        }
    }
    assert(flood_base(b, before, fresh, seed, longer));
    assert forall|i: int| 0 <= i < head implies seen(b, fresh, #[trigger] longer[i]) && spread(
        b,
        fresh,
        longer[i],
    ) by {
        assert(longer[i] == queue[i]);
        assert(seen(b, flags, queue[i]) && spread(b, flags, queue[i]));
    }
    assert forall|j: int|
        0 <= j < k + 1 && b.open(#[trigger] neighbours(longer[head])[j]) implies seen(
        b,
        fresh,
        neighbours(longer[head])[j],
    ) by {
        if j < k {
            assert(seen(b, flags, around[j]));
        }
    }
    let sees_before = exists|i: int| 0 <= i < head && sees_box(b, #[trigger] queue[i]);
    let sees_after = exists|i: int| 0 <= i < head && sees_box(b, #[trigger] longer[i]);
    assert(sees_before == sees_after) by {
        if sees_before {
            let i = choose|i: int| 0 <= i < head && sees_box(b, #[trigger] queue[i]);
            assert(longer[i] == queue[i]);
        }
        if sees_after {
            let i = choose|i: int| 0 <= i < head && sees_box(b, #[trigger] longer[i]);
            assert(longer[i] == queue[i]);
        }
    }
    let near_before = exists|j: int| 0 <= j < k && b.kind_at(#[trigger] around[j]).box_kind();
    let near_after = exists|j: int| 0 <= j < k + 1 && b.kind_at(#[trigger] around[j]).box_kind();
    assert(near_after == (near_before || b.kind_at(next).box_kind())) by {
        if near_after {
            let j = choose|j: int| 0 <= j < k + 1 && b.kind_at(#[trigger] around[j]).box_kind();
            if j < k {
                assert(near_before);
            }
        }
        if near_before {
            let j = choose|j: int| 0 <= j < k && b.kind_at(#[trigger] around[j]).box_kind();
        }
        if b.kind_at(next).box_kind() {
            assert(b.kind_at(around[k]).box_kind());
        }
    }
}

/// Once all neighbours of the cell at the head have been looked at, the
/// cell is spread.
pub proof fn lemma_flood_advance(
    b: Board,
    before: Seq<bool>,
    flags: Seq<bool>,
    seed: Position,
    queue: Seq<Position>,
    head: int,
    has_box: bool,
)
    requires
        0 <= head < queue.len(),
        queue[head].x < usize::MAX,
        queue[head].y < usize::MAX,
        flood_inner(
            b,
            before,
            flags,
            seed,
            queue,
            head,
            neighbours(queue[head]).len() as int,
            has_box,
        ),
    ensures
        flood_outer(b, before, flags, seed, queue, head + 1, has_box),
{
    reveal(flood_inner);
    reveal(flood_outer);
    let current = queue[head];
    let around = neighbours(current);
    assert(spread(b, flags, current)) by {
        assert forall|q: Position| #[trigger] adjacent(current, q) && b.open(q) implies seen(
            b,
            flags,
            q,
        ) by {
            lemma_neighbours(current, q);
            let j = choose|j: int| 0 <= j < around.len() && around[j] == q;
            assert(b.open(around[j]));
        }
    }
    let near = exists|j: int| 0 <= j < around.len() && b.kind_at(#[trigger] around[j]).box_kind();
    assert(near == sees_box(b, current)) by {
        if near {
            let j = choose|j: int|
                0 <= j < around.len() && b.kind_at(#[trigger] around[j]).box_kind();
            assert(around.contains(around[j]));
            lemma_neighbours(current, around[j]);
        }
        if sees_box(b, current) {
            let n = choose|n: Position| #[trigger] adjacent(current, n) && b.kind_at(n).box_kind();
            lemma_neighbours(current, n);
            let j = choose|j: int| 0 <= j < around.len() && around[j] == n;
            assert(b.kind_at(around[j]).box_kind());
        }
    }
    let sees_before = exists|i: int| 0 <= i < head && sees_box(b, #[trigger] queue[i]);
    let sees_after = exists|i: int| 0 <= i < head + 1 && sees_box(b, #[trigger] queue[i]);
    assert(sees_after == (sees_before || sees_box(b, current))) by {
        if sees_after {
            let i = choose|i: int| 0 <= i < head + 1 && sees_box(b, #[trigger] queue[i]);
            if i < head {
                assert(sees_before);
            }
        }
        if sees_before {
            let i = choose|i: int| 0 <= i < head && sees_box(b, #[trigger] queue[i]);
        }
        if sees_box(b, current) {
            assert(sees_box(b, queue[head]));
        }
    }
}

/// When the queue is used up, the flood has done its work; it names the
/// cell that left the queue last where a box was seen.
pub proof fn lemma_flood_end(
    b: Board,
    before: Seq<bool>,
    flags: Seq<bool>,
    seed: Position,
    queue: Seq<Position>,
    has_box: bool,
)
    requires
        flood_outer(b, before, flags, seed, queue, queue.len() as int, has_box),
    ensures
        queue.len() > 0,
        flood_done(
            b,
            before,
            flags,
            seed,
            if has_box {
                Some(queue.last())
            } else {
                None
            },
        ),
{
    reveal(flood_outer);
    reveal(flood_done);
    assert(seen(b, flags, queue[0]));
    assert forall|p: Position|
        b.open(p) && #[trigger] seen(b, flags, p) && !seen(b, before, p) implies b.connects(seed, p)
        && spread(b, flags, p) by {
        assert(queue.contains(p));
        let i = choose|i: int| 0 <= i < queue.len() && queue[i] == p;
        assert(b.connects(seed, queue[i]));
        assert(spread(b, flags, queue[i]));
    }
    if has_box {
        let i = choose|i: int| 0 <= i < queue.len() && sees_box(b, #[trigger] queue[i]);
        assert(b.connects(seed, queue[i]));
        let z = queue[queue.len() - 1];
        assert(b.open(z) && b.connects(seed, z));
        assert(seen(b, flags, z));
    } else {
        assert forall|p: Position|
            b.open(p) && #[trigger] seen(b, flags, p) && !seen(b, before, p) implies !sees_box(
            b,
            p,
        ) by {
            assert(queue.contains(p));
            let i = choose|i: int| 0 <= i < queue.len() && queue[i] == p;
            assert(!sees_box(b, queue[i]));
        }
    }
}

/// What a flood holds while it runs: the flags, the queue of the cells it
/// has come to, and whether a box has been seen.
pub struct Flood {
    pub flags: Seq<bool>,
    pub queue: Seq<Position>,
    pub has_box: bool,
}

/// The flood looks at one neighbour: a box on it is noted; a cell of the
/// grid that is not flagged is flagged and, if it is open, joins the queue.
pub open spec fn look_at(b: Board, f: Flood, next: Position) -> Flood {
    let has_box = f.has_box || b.kind_at(next).box_kind();
    if b.in_bounds(next) && 0 <= b.index_of(next) < f.flags.len() && !f.flags[b.index_of(next)] {
        Flood {
            flags: f.flags.update(b.index_of(next), true),
            queue: if b.open(next) {
                f.queue.push(next)
            } else {
                f.queue
            },
            has_box,
        }
    } else {
        Flood { has_box, ..f }
    }
}

/// The flood looks at the cells of `around` from the `k`-th on, one after
/// the other.
#[verifier::opaque]
pub open spec fn look_around(b: Board, f: Flood, around: Seq<Position>, k: nat) -> Flood
    decreases around.len() - k,
{
    if k >= around.len() {
        f
    } else {
        look_around(b, look_at(b, f, around[k as int]), around, k + 1)
    }
}

/// How much a flood has left to do at most: the cells without a flag and
/// the cells that wait in the queue.
pub open spec fn flood_left(f: Flood, head: nat) -> int {
    unseen(f.flags) + f.queue.len() - head
}

/// Looking at a neighbour flags a cell for each cell that it adds to the
/// queue.
pub proof fn lemma_look_at(b: Board, f: Flood, next: Position)
    ensures
        look_at(b, f, next).flags.len() == f.flags.len(),
        look_at(b, f, next).queue.len() >= f.queue.len(),
        flood_left(look_at(b, f, next), 0) <= flood_left(f, 0),
{
    if b.in_bounds(next) && 0 <= b.index_of(next) < f.flags.len() && !f.flags[b.index_of(next)] {
        lemma_flag_one(f.flags, b.index_of(next));
    }
}

/// Looking around flags a cell for each cell that it adds to the queue.
pub proof fn lemma_look_around(b: Board, f: Flood, around: Seq<Position>, k: nat)
    ensures
        look_around(b, f, around, k).flags.len() == f.flags.len(),
        look_around(b, f, around, k).queue.len() >= f.queue.len(),
        flood_left(look_around(b, f, around, k), 0) <= flood_left(f, 0),
    decreases around.len() - k,
{
    reveal(look_around);
    if k < around.len() {
        lemma_look_at(b, f, around[k as int]);
        lemma_look_around(b, look_at(b, f, around[k as int]), around, k + 1);
    }
}

/// The flood takes the next cell from the queue: the cell is flagged, and
/// its neighbours are looked at.
pub open spec fn flood_step(b: Board, f: Flood, head: nat) -> Flood {
    let current = f.queue[head as int];
    let flagged = if 0 <= b.index_of(current) < f.flags.len() {
        Flood { flags: f.flags.update(b.index_of(current), true), ..f }
    } else {
        f
    };
    look_around(b, flagged, neighbours(current), 0)
}

/// One step of the flood leaves less to do.
pub proof fn lemma_flood_step(b: Board, f: Flood, head: nat)
    requires
        head < f.queue.len(),
    ensures
        flood_step(b, f, head).flags.len() == f.flags.len(),
        flood_step(b, f, head).queue.len() >= f.queue.len(),
        flood_left(flood_step(b, f, head), head + 1) < flood_left(f, head),
        unseen(flood_step(b, f, head).flags) <= unseen(f.flags),
        0 <= b.index_of(f.queue[head as int]) < f.flags.len() && !f.flags[b.index_of(
            f.queue[head as int],
        )] ==> unseen(flood_step(b, f, head).flags) < unseen(f.flags),
{
    let current = f.queue[head as int];
    let at = b.index_of(current);
    let flagged = if 0 <= at < f.flags.len() {
        Flood { flags: f.flags.update(at, true), ..f }
    } else {
        f
    };
    if 0 <= at < f.flags.len() {
        if f.flags[at] {
            assert(f.flags.update(at, true) =~= f.flags);
        } else {
            lemma_flag_one(f.flags, at);
        }
    }
    lemma_look_around(b, flagged, neighbours(current), 0);
}

/// The flood of the cells that wait in the queue from place `head` on,
/// until the queue is used up.
#[verifier::opaque]
pub open spec fn flood_from(b: Board, f: Flood, head: nat) -> Flood
    decreases flood_left(f, head),
{
    if head >= f.queue.len() {
        f
    } else {
        proof {
            lemma_flood_step(b, f, head);
        }
        flood_from(b, flood_step(b, f, head), head + 1)
    }
}

/// A flood never takes a flag away, and it flags the cell at the head of
/// the queue.
pub proof fn lemma_flood_from(b: Board, f: Flood, head: nat)
    ensures
        flood_from(b, f, head).flags.len() == f.flags.len(),
        flood_from(b, f, head).queue.len() >= f.queue.len(),
        unseen(flood_from(b, f, head).flags) <= unseen(f.flags),
        head < f.queue.len() && 0 <= b.index_of(f.queue[head as int]) < f.flags.len()
            && !f.flags[b.index_of(f.queue[head as int])] ==> unseen(
            flood_from(b, f, head).flags,
        ) < unseen(f.flags),
    decreases flood_left(f, head),
{
    reveal(flood_from);
    if head < f.queue.len() {
        lemma_flood_step(b, f, head);
        lemma_flood_from(b, flood_step(b, f, head), head + 1);
    }
}

/// The flood, spelled out for the next cell of the queue.
pub proof fn lemma_flood_from_unfold(b: Board, f: Flood, head: nat)
    ensures
        flood_from(b, f, head) == (if head >= f.queue.len() {
            f
        } else {
            flood_from(b, flood_step(b, f, head), head + 1)
        }),
{
    reveal(flood_from);
}

/// Looking around, spelled out for the next neighbour.
pub proof fn lemma_look_around_unfold(b: Board, f: Flood, around: Seq<Position>, k: nat)
    ensures
        look_around(b, f, around, k) == (if k >= around.len() {
            f
        } else {
            look_around(b, look_at(b, f, around[k as int]), around, k + 1)
        }),
{
    reveal(look_around);
}

/// Whether a flood may start from the cell: on its very first start only
/// a cell that shows empty floor will do, later any open cell without a
/// flag.
pub open spec fn fit_for_seed(b: Board, flags: Seq<bool>, first: bool, p: Position) -> bool {
    if first {
        b.kind_at(p) == NodeType::Empty
    } else {
        b.open(p) && !flags[b.index_of(p)]
    }
}

/// The first cell from place `from` on, row by row, from which a flood may
/// start.
#[verifier::opaque]
pub open spec fn first_seed(b: Board, flags: Seq<bool>, first: bool, from: nat) -> Option<
    Position,
>
    decreases b.width * b.height - from,
{
    if from >= b.width * b.height {
        None
    } else if fit_for_seed(b, flags, first, b.position_of(from as int)) {
        Some(b.position_of(from as int))
    } else {
        first_seed(b, flags, first, from + 1)
    }
}

/// The first seed, spelled out for the next place.
pub proof fn lemma_first_seed_unfold(b: Board, flags: Seq<bool>, first: bool, from: nat)
    ensures
        first_seed(b, flags, first, from) == (if from >= b.width * b.height {
            None
        } else if fit_for_seed(b, flags, first, b.position_of(from as int)) {
            Some(b.position_of(from as int))
        } else {
            first_seed(b, flags, first, from + 1)
        }),
{
    reveal(first_seed);
}

/// What a flood from `seed` leaves behind.
pub open spec fn flood_of(b: Board, flags: Seq<bool>, seed: Position) -> Flood {
    flood_from(b, Flood { flags, queue: seq![seed], has_box: false }, 0)
}

/// The cell that a flood names: the one that left the queue last, where
/// a box was seen.
pub open spec fn named_by(f: Flood) -> Option<Position> {
    if f.has_box {
        Some(f.queue.last())
    } else {
        None
    }
}

/// The list with the cell that a flood has named, if it has named one.
pub open spec fn with_named(found: Seq<Position>, named: Option<Position>) -> Seq<Position> {
    match named {
        Some(z) => found.push(z),
        None => found,
    }
}

/// The floods from `seed` on: each flood flags its zone and names a cell
/// where a box was seen, and the next flood starts from the first open
/// cell that is left without a flag.
#[verifier::opaque]
pub open spec fn zones_from(
    b: Board,
    flags: Seq<bool>,
    seed: Option<Position>,
    found: Seq<Position>,
) -> Seq<Position>
    decreases unseen(flags),
{
    match seed {
        Some(s) => {
            if 0 <= b.index_of(s) < flags.len() && !flags[b.index_of(s)] {
                let f = flood_of(b, flags, s);
                proof {
                    lemma_flood_from(b, Flood { flags, queue: seq![s], has_box: false }, 0);
                }
                zones_from(
                    b,
                    f.flags,
                    first_seed(b, f.flags, false, 0),
                    with_named(found, named_by(f)),
                )
            } else {
                found
            }
        },
        None => found,
    }
}

/// The floods, spelled out for the next seed.
pub proof fn lemma_zones_from_unfold(
    b: Board,
    flags: Seq<bool>,
    seed: Option<Position>,
    found: Seq<Position>,
)
    ensures
        zones_from(b, flags, seed, found) == (match seed {
            Some(s) => {
                if 0 <= b.index_of(s) < flags.len() && !flags[b.index_of(s)] {
                    let f = flood_of(b, flags, s);
                    zones_from(
                        b,
                        f.flags,
                        first_seed(b, f.flags, false, 0),
                        with_named(found, named_by(f)),
                    )
                } else {
                    found
                }
            },
            None => found,
        }),
{
    reveal(zones_from);
}

/// The cell from which the first flood starts: the first cell that shows
/// empty floor or, where there is none, the first open cell.
pub open spec fn first_start(b: Board) -> Option<Position> {
    let blank = Seq::new(b.width * b.height, |i: int| false);
    match first_seed(b, blank, true, 0) {
        Some(p) => Some(p),
        None => first_seed(b, blank, false, 0),
    }
}

/// The cells from which the search starts, in the order in which the
/// floods find them. The floods go breadth first over open cells; the
/// first starts from the first cell, row by row, that shows empty floor,
/// each later one from the first open cell that no flood has flagged. A
/// flood from whose zone a box is seen names the cell that it took from
/// its queue last.
pub open spec fn zone_starts(b: Board) -> Seq<Position> {
    zones_from(
        b,
        Seq::new(b.width * b.height, |i: int| false),
        first_start(b),
        Seq::<Position>::empty(),
    )
}

impl Solver {
    /// The first cell, row by row, from which a flood may start: with
    /// `first` set a cell that shows empty floor, else an open cell without
    /// a flag.
    fn find_seed(&self, visited: &Vec<bool>, first: bool) -> (found: Option<Position>)
        requires
            self.wf(),
            visited@.len() == self.sokoban.width * self.sokoban.height,
        ensures
            found == first_seed(self.sokoban@, visited@, first, 0),
            match found {
                Some(p) => self.sokoban@.in_bounds(p) && fit_for_seed(
                    self.sokoban@,
                    visited@,
                    first,
                    p,
                ),
                None => forall|p: Position|
                    self.sokoban@.in_bounds(p) ==> !#[trigger] fit_for_seed(
                        self.sokoban@,
                        visited@,
                        first,
                        p,
                    ),
            },
    {
        let ghost b = self.sokoban@;
        let ghost whole = first_seed(b, visited@, first, 0);
        assert(self.sokoban.map.len() == self.sokoban.width * self.sokoban.height);
        let mut y: usize = 0;
        assert(0 == y * self.sokoban.width) by (nonlinear_arith)
            requires
                y == 0,
        ;
        while y < self.sokoban.height
            invariant
                self.wf(),
                b == self.sokoban@,
                visited@.len() == self.sokoban.width * self.sokoban.height,
                y <= self.sokoban.height,
                y * self.sokoban.width <= self.sokoban.width * self.sokoban.height,
                whole == first_seed(b, visited@, first, 0),
                first_seed(b, visited@, first, (y * self.sokoban.width) as nat) == whole,
                forall|p: Position|
                    b.in_bounds(p) && p.y < y ==> !#[trigger] fit_for_seed(b, visited@, first, p),
            decreases self.sokoban.height - y,
        {
            let mut x: usize = 0;
            while x < self.sokoban.width
                invariant
                    self.wf(),
                    b == self.sokoban@,
                    visited@.len() == self.sokoban.width * self.sokoban.height,
                    y < self.sokoban.height,
                    x <= self.sokoban.width,
                    whole == first_seed(b, visited@, first, 0),
                    first_seed(b, visited@, first, (y * self.sokoban.width + x) as nat) == whole,
                    forall|p: Position|
                        b.in_bounds(p) && (p.y < y || (p.y == y && p.x < x))
                            ==> !#[trigger] fit_for_seed(b, visited@, first, p),
                decreases self.sokoban.width - x,
            {
                let p = Position { x, y };
                let at = self.sokoban.index(&p);
                proof {
                    lemma_cell_of_index(b.width, x as int, y as int);
                    lemma_first_seed_unfold(b, visited@, first, at as nat);
                }
                let fit = if first {
                    self.sokoban.get_ntype(&p) == NodeType::Empty
                } else {
                    !visited[at] && self.sokoban.get_ntype(&p).can_move()
                };
                if fit {
                    return Some(p);
                }
                x += 1;
            }
            proof {
                assert(y * self.sokoban.width + self.sokoban.width == (y + 1)
                    * self.sokoban.width) by (nonlinear_arith);
                assert((y + 1) * self.sokoban.width <= self.sokoban.width * self.sokoban.height)
                    by (nonlinear_arith)
                    requires
                        y + 1 <= self.sokoban.height,
                ;
            }
            y += 1;
        }
        proof {
            assert(y * self.sokoban.width == self.sokoban.width * self.sokoban.height)
                by (nonlinear_arith)
                requires
                    y == self.sokoban.height,
            ;
            lemma_first_seed_unfold(b, visited@, first, (b.width * b.height) as nat);
        }
        None
    }

    /// Flags the zone of `seed` and the walls and boxes around it, breadth
    /// first. Where a box is seen from the zone, the cell that was taken
    /// from the queue last is handed back.
    fn flood_zone(&self, seed: Position, visited: &mut Vec<bool>) -> (named: Option<Position>)
        requires
            self.wf(),
            old(visited)@.len() == self.sokoban.width * self.sokoban.height,
            self.sokoban@.open(seed),
            !seen(self.sokoban@, old(visited)@, seed),
        ensures
            final(visited)@.len() == old(visited)@.len(),
            unseen(final(visited)@) < unseen(old(visited)@),
            flood_done(self.sokoban@, old(visited)@, final(visited)@, seed, named),
            final(visited)@ == flood_of(self.sokoban@, old(visited)@, seed).flags,
            named == named_by(flood_of(self.sokoban@, old(visited)@, seed)),
    {
        let ghost b = self.sokoban@;
        let ghost before = visited@;
        let ghost whole = flood_of(b, before, seed);
        assert(self.sokoban.map.len() == self.sokoban.width * self.sokoban.height);
        let mut queue: Vec<Position> = Vec::new();
        queue.push(seed);
        assert(queue@ =~= seq![seed]);
        proof {
            lemma_flood_begin(b, before, seed);
        }
        let mut has_box = false;
        let mut last = seed;
        let mut head: usize = 0;
        while head < queue.len()
            invariant
                self.wf(),
                b == self.sokoban@,
                before == old(visited)@,
                visited@.len() == self.sokoban.width * self.sokoban.height,
                head <= queue@.len(),
                flood_outer(b, before, visited@, seed, queue@, head as int, has_box),
                whole == flood_of(b, before, seed),
                flood_from(
                    b,
                    Flood { flags: visited@, queue: queue@, has_box },
                    head as nat,
                ) == whole,
                unseen(visited@) <= unseen(before),
                head > 0 ==> unseen(visited@) < unseen(before),
                queue@.len() > 0,
                head > 0 ==> last == queue@[head - 1],
            decreases unseen(visited@) + queue@.len() - head,
        {
            proof {
                lemma_flood_current(b, before, visited@, seed, queue@, head as int, has_box);
            }
            let current = queue[head];
            let here = self.sokoban.index(&current);
            proof {
                lemma_flood_from_unfold(
                    b,
                    Flood { flags: visited@, queue: queue@, has_box },
                    head as nat,
                );
                if visited@[here as int] {
                    assert(visited@.update(here as int, true) =~= visited@);
                }
            }
            if !visited[here] {
                visited.set(here, true);
            }
            let around = Node::loop_positions(&current);
            let ghost budget = unseen(visited@) + queue@.len();
            let ghost round = look_around(
                b,
                Flood { flags: visited@, queue: queue@, has_box },
                around@,
                0,
            );
            let mut k: usize = 0;
            while k < around.len()
                invariant
                    self.wf(),
                    b == self.sokoban@,
                    visited@.len() == self.sokoban.width * self.sokoban.height,
                    head < queue@.len(),
                    k <= around@.len(),
                    current == queue@[head as int],
                    b.in_bounds(current),
                    around@ == neighbours(current),
                    flood_inner(b, before, visited@, seed, queue@, head as int, k as int, has_box),
                    look_around(
                        b,
                        Flood { flags: visited@, queue: queue@, has_box },
                        around@,
                        k as nat,
                    ) == round,
                    flood_from(b, round, (head + 1) as nat) == whole,
                    unseen(visited@) + queue@.len() <= budget,
                    unseen(visited@) < unseen(before),
                decreases around@.len() - k,
            {
                let next = around[k];
                let node_type = self.sokoban.get_ntype(&next);
                let ghost noted = has_box;
                proof {
                    lemma_look_around_unfold(
                        b,
                        Flood { flags: visited@, queue: queue@, has_box },
                        around@,
                        k as nat,
                    );
                }
                if node_type.is_box() {
                    has_box = true;
                }
                let ghost mut fresh = false;
                if next.x < self.sokoban.width && next.y < self.sokoban.height {
                    let at = self.sokoban.index(&next);
                    if !visited[at] {
                        proof {
                            lemma_flood_visit(
                                b,
                                before,
                                visited@,
                                seed,
                                queue@,
                                head as int,
                                k as int,
                                noted,
                            );
                        }
                        visited.set(at, true);
                        if node_type.can_move() {
                            queue.push(next);
                        }
                        proof {
                            fresh = true;
                        }
                    }
                }
                proof {
                    if !fresh {
                        lemma_flood_skip(
                            b,
                            before,
                            visited@,
                            seed,
                            queue@,
                            head as int,
                            k as int,
                            noted,
                        );
                    }
                }
                k += 1;
            }
            proof {
                lemma_flood_advance(b, before, visited@, seed, queue@, head as int, has_box);
                lemma_look_around_unfold(
                    b,
                    Flood { flags: visited@, queue: queue@, has_box },
                    around@,
                    around@.len(),
                );
            }
            last = current;
            head += 1;
        }
        proof {
            lemma_flood_end(b, before, visited@, seed, queue@, has_box);
            lemma_flood_from_unfold(
                b,
                Flood { flags: visited@, queue: queue@, has_box },
                queue@.len(),
            );
        }
        if has_box {
            Some(last)
        } else {
            None
        }
    }

    /// The cells from which the search starts: one open cell of each zone
    /// from which a box can be touched. A zone is a region of open cells
    /// that walls and boxes part from the rest; the player could do nothing
    /// in a zone without a box at its rim. Each zone is flooded breadth
    /// first, and the cell that the flood takes from its queue last stands
    /// for the zone.
    pub fn player_zones(&self) -> (player_zones: Vec<Position>)
        requires
            self.wf(),
        ensures
            player_zones@ == zone_starts(self.sokoban@),
            is_zone_list(self.sokoban@, player_zones@),
    {
        let ghost b = self.sokoban@;
        let cells: usize = self.sokoban.map.len();
        assert(cells == self.sokoban.width * self.sokoban.height);
        let mut player_zones: Vec<Position> = Vec::new();
        let mut visited: Vec<bool> = Vec::new();
        while visited.len() < cells
            invariant
                visited@.len() <= cells,
                forall|i: int| 0 <= i < visited@.len() ==> !visited@[i],
            decreases cells - visited@.len(),
        {
            visited.push(false);
        }
        proof {
            lemma_zones_begin(b, visited@);
        }
        assert(player_zones@ =~= Seq::<Position>::empty());
        assert(visited@ =~= Seq::new(b.width * b.height, |i: int| false));
        let mut seed = match self.find_seed(&visited, true) {
            Some(p) => Some(p),
            None => self.find_seed(&visited, false),
        };
        proof {
            if seed is Some {
                let p = seed->0;
                lemma_index_bound(p.x as int, p.y as int, b.width as int, b.height as int);
            } else {
                assert forall|p: Position| b.open(p) implies #[trigger] seen(b, visited@, p) by {
                    assert(!fit_for_seed(b, visited@, false, p));
                }
            }
        }
        while seed.is_some()
            invariant
                self.wf(),
                b == self.sokoban@,
                visited@.len() == self.sokoban.width * self.sokoban.height,
                zones_ok(b, visited@, player_zones@),
                seed is Some || seed == first_seed(b, visited@, false, 0),
                zones_from(b, visited@, seed, player_zones@) == zone_starts(b),
                match seed {
                    Some(p) => b.open(p) && !seen(b, visited@, p),
                    None => forall|p: Position| b.open(p) ==> #[trigger] seen(b, visited@, p),
                },
            decreases unseen(visited@),
        {
            let start = match seed {
                Some(p) => p,
                None => Position { x: 0, y: 0 },
            };
            let ghost before = visited@;
            let ghost zones = player_zones@;
            proof {
                lemma_index_bound(start.x as int, start.y as int, b.width as int, b.height as int);
                lemma_zones_from_unfold(b, before, seed, zones);
            }
            let named = self.flood_zone(start, &mut visited);
            match named {
                Some(z) => {
                    player_zones.push(z);
                },
                None => {},
            }
            proof {
                lemma_zone_added(b, before, visited@, zones, start, named);
            }
            seed = self.find_seed(&visited, false);
            proof {
                if seed is None {
                    assert forall|p: Position| b.open(p) implies #[trigger] seen(
                        b,
                        visited@,
                        p,
                    ) by {
                        assert(!fit_for_seed(b, visited@, false, p));
                    }
                }
            }
        }
        proof {
            lemma_zones_done(b, visited@, player_zones@);
            lemma_zones_from_unfold(b, visited@, seed, player_zones@);
        }
        player_zones
    }
}

} // verus!
