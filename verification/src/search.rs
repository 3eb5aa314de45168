//! What a solution is, what the search does step by step, and why it may
//! take a pull back and go on from where that leaves the player.

use crate::board::{box_target, pull_targets, step, Board};
use crate::laws::{lemma_pull_then_undo, lemma_pull_then_undo_state};
use crate::node::{NodeType, Position};
use crate::reach::{
    lemma_connects_self, lemma_open_is_plain, lemma_same_connects, lemma_same_region,
};
use crate::roam::entry;
use crate::sokoban::Direction;
use vstd::prelude::*;

verus! {

/// The search is over: the boxes cover the goals, and the player can walk
/// to `home`.
pub open spec fn is_goal(b: Board, home: Position) -> bool {
    b.resolved() && b.reachable(home)
}

/// At most `n` pulls lead from `b` to a board on which the search is over.
pub open spec fn solvable_in(b: Board, home: Position, n: nat) -> bool
    decreases n,
{
    is_goal(b, home) || (n > 0 && exists|i: int, d: Direction| #[trigger]
        b.can_pull(i, d) && solvable_in(b.pulled(i, d), home, (n - 1) as nat))
}

/// Some sequence of pulls leads from `b` to a board on which the search is
/// over.
pub open spec fn solvable(b: Board, home: Position) -> bool {
    exists|n: nat| solvable_in(b, home, n)
}

impl Board {
    /// This board is `other` but for the player, who stands on a plain
    /// cell within the reach of the player of `other`.
    pub open spec fn drifted_from(self, other: Board) -> bool {
        &&& self == (Board { player: self.player, ..other })
        &&& self.player is Some
        &&& self.player_settled()
        &&& other.reachable(self.player->0)
    }
}

/// A board with the player on a plain cell has drifted from itself.
pub proof fn lemma_drift_self(b: Board)
    requires
        b.wf(),
        b.player is Some,
        b.player_settled(),
    ensures
        b.drifted_from(b),
{
    lemma_open_is_plain(b, b.player->0);
    lemma_connects_self(b, b.player->0);
}

/// Drifting twice is drifting.
pub proof fn lemma_drift_twice(a: Board, b: Board, c: Board)
    requires
        a.wf(),
        a.player_settled(),
        b.drifted_from(a),
        c.drifted_from(b),
    ensures
        c.drifted_from(a),
{
    lemma_same_region(a, b, c.player->0);
}

/// A pull leaves the floor as it is and the player on a plain cell.
pub proof fn lemma_pulled_settled(b: Board, i: int, d: Direction)
    requires
        b.wf(),
        b.player_settled(),
        b.can_pull(i, d),
    ensures
        b.pulled(i, d).wf(),
        b.pulled(i, d).player is Some,
        b.pulled(i, d).player_settled(),
        b.pulled(i, d).boxes.len() == b.boxes.len(),
        b.pulled(i, d).goals == b.goals,
{
    let (box_to, player_to) = pull_targets(b.boxes[i], d)->0;
    let after = b.pulled(i, d);
    lemma_open_is_plain(b, player_to);
    if after.has_box(player_to) {
        let k = choose|k: int| 0 <= k < after.boxes.len() && after.boxes[k] == player_to;
        if k != i {
            assert(b.boxes[k] == player_to);
        }
    }
}

/// What can be solved from where the player has drifted to can be solved
/// from where the player was, in as many pulls.
pub proof fn lemma_drift_solvable(a: Board, b: Board, home: Position, n: nat)
    requires
        a.wf(),
        a.player_settled(),
        b.drifted_from(a),
        solvable_in(b, home, n),
    ensures
        solvable_in(a, home, n),
{
    lemma_same_region(a, b, home);
    if !is_goal(b, home) {
        let (i, d) = choose|i: int, d: Direction| #[trigger]
            b.can_pull(i, d) && solvable_in(b.pulled(i, d), home, (n - 1) as nat);
        let (box_to, player_to) = pull_targets(b.boxes[i], d)->0;
        lemma_open_is_plain(a, box_to);
        lemma_open_is_plain(b, box_to);
        lemma_open_is_plain(a, player_to);
        lemma_open_is_plain(b, player_to);
        lemma_same_region(a, b, box_to);
        assert(a.can_pull(i, d));
        assert(a.pulled(i, d) == b.pulled(i, d));
    }
}

/// A pull, then a search that lets the player drift, then the pull taken
/// back: the box can be taken back, every box stands where it stood before
/// the pull, and the player has drifted.
pub proof fn lemma_pull_search_undo(b: Board, after: Board, i: int, d: Direction)
    requires
        b.wf(),
        b.player is Some,
        b.player_settled(),
        b.can_pull(i, d),
        after.drifted_from(b.pulled(i, d)),
    ensures
        step(after.boxes[i], d.opposite(), 1) is Some,
        after.unpulled(i, d).drifted_from(b),
{
    lemma_pull_then_undo(b, i, d);
    lemma_pull_then_undo_state(b, i, d);
    let back = after.unpulled(i, d);
    assert(back == b.pulled(i, d).unpulled(i, d));
    assert(back == b.with_player(box_target(b.boxes[i], d)));
}

/// What can be solved after a pull can be solved before it.
pub proof fn lemma_pull_solvable(b: Board, home: Position, i: int, d: Direction)
    requires
        b.can_pull(i, d),
        solvable(b.pulled(i, d), home),
    ensures
        solvable(b, home),
{
    let n = choose|n: nat| solvable_in(b.pulled(i, d), home, n);
    assert(solvable_in(b, home, n + 1));
}

/// Where the search is over with the player on one cell, it is over with
/// the player on any cell from which a walk leads there.
pub proof fn lemma_goal_in_zone(b: Board, z: Position, other: Position, home: Position)
    requires
        b.wf(),
        b.player_settled(),
        b.open(z),
        b.open(other),
        b.connects(z, other),
        is_goal(b.with_player(z), home),
    ensures
        is_goal(b.with_player(other), home),
{
    let here = b.with_player(z);
    let there = b.with_player(other);
    lemma_open_is_plain(b, z);
    lemma_open_is_plain(b, other);
    lemma_same_connects(b, here, z, other);
    lemma_same_region(here, there, home);
}

/// What the search reads and never changes: the level as it is played,
/// the table of distances of each of its boxes, and the cell where it has
/// the player.
pub struct Puzzle {
    pub forward: Board,
    pub tables: Seq<Vec<Option<usize>>>,
    pub home: Position,
}

/// What the search changes: the board, the least depth at which each
/// state has been seen, and the number of pulls made.
pub struct SearchState {
    pub board: Board,
    pub memo: Map<u64, usize>,
    pub counter: usize,
}

/// How the search leaves one box: with a solution, with the whole branch
/// given up, or with the next box to try.
pub enum Sweep {
    Found(SearchState),
    Cut(SearchState),
    Open(SearchState),
}

/// The memo holds the state with hash `hash` at depth `depth` or less.
pub open spec fn visited_before(memo: Map<u64, usize>, hash: u64, depth: usize) -> bool {
    memo.contains_key(hash) && depth >= memo[hash]
}

/// A pull of a box on `from` in direction `d` has no two cells to go to, or
/// one of the two is a wall.
pub open spec fn wall_ahead(b: Board, from: Position, d: Direction) -> bool {
    match pull_targets(from, d) {
        Some((box_to, player_to)) => b.kind_at(box_to) == NodeType::Wall || b.kind_at(player_to)
            == NodeType::Wall,
        None => true,
    }
}

/// Box `i` stands on no goal and has a wall ahead in every direction.
pub open spec fn walled_in(b: Board, i: int) -> bool {
    b.kind_at(b.boxes[i]) != NodeType::BoxOnWhole && forall|d: Direction|
        wall_ahead(b, b.boxes[i], d)
}

/// The lower bound that the tables give for a box and a goal.
pub open spec fn bound(p: Puzzle, b: Board, goal_index: int, box_index: int) -> Option<usize> {
    entry(p.forward, p.tables[box_index]@, b.goals[goal_index])
}

/// The pair has a bound, and the cost so far with that bound stays within
/// the limit.
pub open spec fn within_limit(
    p: Puzzle,
    b: Board,
    goal_index: int,
    box_index: int,
    cost: usize,
    limit: usize,
) -> bool {
    match bound(p, b, goal_index, box_index) {
        Some(least) => cost + least <= limit,
        None => false,
    }
}

/// One more, as far as the number can be counted.
pub open spec fn bump(n: usize) -> usize {
    if n < usize::MAX {
        (n + 1) as usize
    } else {
        n
    }
}

/// What the search does at one depth, and what it leaves behind. A board
/// on which the search is over is a success. A state that the memo holds
/// at this depth or at a lesser one is a failure; any other state is
/// recorded with this depth. Then the boxes are tried in their round,
/// unless the depth is the last that can be counted.
#[verifier::opaque]
pub open spec fn search(
    p: Puzzle,
    s: SearchState,
    cost: usize,
    goal_index: int,
    box_index: int,
    d: Direction,
    limit: usize,
    depth: usize,
) -> (bool, SearchState)
    decreases usize::MAX - depth, 4nat, 0nat,
{
    if is_goal(s.board, p.home) {
        (true, s)
    } else if visited_before(s.memo, s.board.state_hash(), depth) {
        (false, s)
    } else {
        let noted = SearchState { memo: s.memo.insert(s.board.state_hash(), depth), ..s };
        if depth == usize::MAX {
            (false, noted)
        } else {
            search_boxes(
                p,
                noted,
                cost,
                goal_index,
                box_index,
                d,
                limit,
                depth,
                s.board.boxes.len(),
                0,
            )
        }
    }
}

/// The round of the boxes from the `j`-th on. Each box is tried with the
/// goals in their round; the search ends with the first box that brings a
/// solution or has the branch given up, and fails when no box is left.
#[verifier::opaque]
pub open spec fn search_boxes(
    p: Puzzle,
    s: SearchState,
    cost: usize,
    goal_index: int,
    box_index: int,
    d: Direction,
    limit: usize,
    depth: usize,
    n: nat,
    j: nat,
) -> (bool, SearchState)
    decreases usize::MAX - depth, 3nat, n - j,
{
    if j >= n {
        (false, s)
    } else {
        match search_goals(
            p,
            s,
            cost,
            goal_index,
            box_index,
            (box_index + j) % (n as int),
            d,
            limit,
            depth,
            n,
            0,
        ) {
            Sweep::Found(t) => (true, t),
            Sweep::Cut(t) => (false, t),
            Sweep::Open(t) => search_boxes(
                p,
                t,
                cost,
                goal_index,
                box_index,
                d,
                limit,
                depth,
                n,
                j + 1,
            ),
        }
    }
}

/// One box with the goals of the round from the `i`-th on. With each goal
/// whose bound stays within the limit the box is pulled in the four
/// directions. A goal with which the box was not pulled at all ends the
/// round: the branch is given up if the box that the search came with is
/// walled in, else the next box is tried.
#[verifier::opaque]
pub open spec fn search_goals(
    p: Puzzle,
    s: SearchState,
    cost: usize,
    goal_index: int,
    box_index: int,
    current_box: int,
    d: Direction,
    limit: usize,
    depth: usize,
    n: nat,
    i: nat,
) -> Sweep
    decreases usize::MAX - depth, 2nat, n - i,
{
    if i >= n {
        Sweep::Open(s)
    } else {
        let current_goal = (goal_index + i) % (n as int);
        let tried = within_limit(p, s.board, current_goal, current_box, cost, limit);
        let (found, blocked, t) = if tried {
            search_directions(p, s, cost, current_goal, current_box, d, limit, depth, 0, true)
        } else {
            (false, true, s)
        };
        if found {
            Sweep::Found(t)
        } else if blocked {
            if walled_in(t.board, box_index) {
                Sweep::Cut(t)
            } else {
                Sweep::Open(t)
            }
        } else {
            search_goals(
                p,
                t,
                cost,
                goal_index,
                box_index,
                current_box,
                d,
                limit,
                depth,
                n,
                i + 1,
            )
        }
    }
}

/// One box and one goal in the directions of the ring from `d` on, `tried`
/// of the four being done. Where the box can be pulled, it is pulled and
/// the search goes on below. The result tells whether a solution was
/// found, whether the box could not be pulled at all, and what the search
/// has left behind.
#[verifier::opaque]
pub open spec fn search_directions(
    p: Puzzle,
    s: SearchState,
    cost: usize,
    current_goal: int,
    current_box: int,
    d: Direction,
    limit: usize,
    depth: usize,
    tried: nat,
    blocked: bool,
) -> (bool, bool, SearchState)
    decreases usize::MAX - depth, 1nat, 4 - tried,
{
    if tried >= 4 {
        (false, blocked, s)
    } else if s.board.can_pull(current_box, d) {
        let (found, back) = pull_and_search(p, s, cost, current_goal, current_box, d, limit, depth);
        if found {
            (true, false, back)
        } else {
            search_directions(
                p,
                back,
                cost,
                current_goal,
                current_box,
                d.successor(),
                limit,
                depth,
                tried + 1,
                false,
            )
        }
    } else {
        search_directions(
            p,
            s,
            cost,
            current_goal,
            current_box,
            d.successor(),
            limit,
            depth,
            tried + 1,
            blocked,
        )
    }
}

/// One pull and what follows from it: box `current_box` is pulled in
/// direction `d`, the pull is counted, the search goes one level deeper
/// with this box, this goal and this direction, and the pull is taken back.
/// At the last depth that can be counted nothing is searched.
#[verifier::opaque]
pub open spec fn pull_and_search(
    p: Puzzle,
    s: SearchState,
    cost: usize,
    current_goal: int,
    current_box: int,
    d: Direction,
    limit: usize,
    depth: usize,
) -> (bool, SearchState)
    decreases usize::MAX - depth, 0nat, 0nat,
{
    if depth >= usize::MAX {
        (false, s)
    } else {
        let moved = SearchState {
            board: s.board.pulled(current_box, d),
            counter: bump(s.counter),
            ..s
        };
        let below = search(
            p,
            moved,
            bump(cost),
            current_goal,
            current_box,
            d,
            limit,
            (depth + 1) as usize,
        );
        (below.0, SearchState { board: below.1.board.unpulled(current_box, d), ..below.1 })
    }
}

/// The search at one depth, spelled out.
pub proof fn lemma_search(
    p: Puzzle,
    s: SearchState,
    cost: usize,
    goal_index: int,
    box_index: int,
    d: Direction,
    limit: usize,
    depth: usize,
)
    ensures
        search(p, s, cost, goal_index, box_index, d, limit, depth) == (if is_goal(
            s.board,
            p.home,
        ) {
            (true, s)
        } else if visited_before(s.memo, s.board.state_hash(), depth) {
            (false, s)
        } else {
            let noted = SearchState { memo: s.memo.insert(s.board.state_hash(), depth), ..s };
            if depth == usize::MAX {
                (false, noted)
            } else {
                search_boxes(
                    p,
                    noted,
                    cost,
                    goal_index,
                    box_index,
                    d,
                    limit,
                    depth,
                    s.board.boxes.len(),
                    0,
                )
            }
        }),
{
    reveal(search);
    reveal(search_boxes);
    reveal(search_goals);
    reveal(search_directions);
    reveal(pull_and_search);
}

/// The round of the boxes, spelled out for its next box.
pub proof fn lemma_search_boxes(
    p: Puzzle,
    s: SearchState,
    cost: usize,
    goal_index: int,
    box_index: int,
    d: Direction,
    limit: usize,
    depth: usize,
    n: nat,
    j: nat,
)
    ensures
        search_boxes(p, s, cost, goal_index, box_index, d, limit, depth, n, j) == (if j >= n {
            (false, s)
        } else {
            match search_goals(
                p,
                s,
                cost,
                goal_index,
                box_index,
                (box_index + j) % (n as int),
                d,
                limit,
                depth,
                n,
                0,
            ) {
                Sweep::Found(t) => (true, t),
                Sweep::Cut(t) => (false, t),
                Sweep::Open(t) => search_boxes(
                    p,
                    t,
                    cost,
                    goal_index,
                    box_index,
                    d,
                    limit,
                    depth,
                    n,
                    j + 1,
                ),
            }
        }),
{
    reveal(search);
    reveal(search_boxes);
    reveal(search_goals);
    reveal(search_directions);
    reveal(pull_and_search);
}

/// How the round of the goals goes on once one goal has been tried in the
/// four directions, with the result `turn`.
pub open spec fn after_turn(
    p: Puzzle,
    turn: (bool, bool, SearchState),
    cost: usize,
    goal_index: int,
    box_index: int,
    current_box: int,
    d: Direction,
    limit: usize,
    depth: usize,
    n: nat,
    i: nat,
) -> Sweep {
    if turn.0 {
        Sweep::Found(turn.2)
    } else if turn.1 {
        if walled_in(turn.2.board, box_index) {
            Sweep::Cut(turn.2)
        } else {
            Sweep::Open(turn.2)
        }
    } else {
        search_goals(p, turn.2, cost, goal_index, box_index, current_box, d, limit, depth, n, i + 1)
    }
}

/// The round of the goals, spelled out for its next goal.
pub proof fn lemma_search_goals(
    p: Puzzle,
    s: SearchState,
    cost: usize,
    goal_index: int,
    box_index: int,
    current_box: int,
    d: Direction,
    limit: usize,
    depth: usize,
    n: nat,
    i: nat,
)
    ensures
        search_goals(p, s, cost, goal_index, box_index, current_box, d, limit, depth, n, i) == (
        if i >= n {
            Sweep::Open(s)
        } else {
            let current_goal = (goal_index + i) % (n as int);
            let turn = if within_limit(p, s.board, current_goal, current_box, cost, limit) {
                search_directions(p, s, cost, current_goal, current_box, d, limit, depth, 0, true)
            } else {
                (false, true, s)
            };
            after_turn(p, turn, cost, goal_index, box_index, current_box, d, limit, depth, n, i)
        }),
{
    reveal(search);
    reveal(search_boxes);
    reveal(search_goals);
    reveal(search_directions);
    reveal(pull_and_search);
}

/// One pull and what follows from it, spelled out.
pub proof fn lemma_pull_and_search(
    p: Puzzle,
    s: SearchState,
    cost: usize,
    current_goal: int,
    current_box: int,
    d: Direction,
    limit: usize,
    depth: usize,
)
    requires
        depth < usize::MAX,
    ensures
        ({
            let moved = SearchState {
                board: s.board.pulled(current_box, d),
                counter: bump(s.counter),
                ..s
            };
            let below = search(
                p,
                moved,
                bump(cost),
                current_goal,
                current_box,
                d,
                limit,
                (depth + 1) as usize,
            );
            pull_and_search(p, s, cost, current_goal, current_box, d, limit, depth) == (
                below.0,
                SearchState { board: below.1.board.unpulled(current_box, d), ..below.1 },
            )
        }),
{
    reveal(search);
    reveal(search_boxes);
    reveal(search_goals);
    reveal(search_directions);
    reveal(pull_and_search);
}

/// The round of the directions, spelled out for its next direction.
pub proof fn lemma_search_directions(
    p: Puzzle,
    s: SearchState,
    cost: usize,
    current_goal: int,
    current_box: int,
    d: Direction,
    limit: usize,
    depth: usize,
    tried: nat,
    blocked: bool,
)
    ensures
        search_directions(p, s, cost, current_goal, current_box, d, limit, depth, tried, blocked)
            == (if tried >= 4 {
            (false, blocked, s)
        } else if s.board.can_pull(current_box, d) {
            let below = pull_and_search(p, s, cost, current_goal, current_box, d, limit, depth);
            if below.0 {
                (true, false, below.1)
            } else {
                search_directions(
                    p,
                    below.1,
                    cost,
                    current_goal,
                    current_box,
                    d.successor(),
                    limit,
                    depth,
                    tried + 1,
                    false,
                )
            }
        } else {
            search_directions(
                p,
                s,
                cost,
                current_goal,
                current_box,
                d.successor(),
                limit,
                depth,
                tried + 1,
                blocked,
            )
        }),
{
    reveal(search);
    reveal(search_boxes);
    reveal(search_goals);
    reveal(search_directions);
    reveal(pull_and_search);
}

/// One step of the round of the directions, told by what the pull has
/// brought: nothing where the box could not be pulled, else whether the
/// search below has found a solution.
pub proof fn lemma_direction_tried(
    p: Puzzle,
    s: SearchState,
    after: SearchState,
    outcome: Option<bool>,
    cost: usize,
    current_goal: int,
    current_box: int,
    d: Direction,
    limit: usize,
    depth: usize,
    tried: nat,
    blocked: bool,
)
    requires
        tried < 4,
        outcome is Some <==> s.board.can_pull(current_box, d),
        outcome is None ==> after == s,
        outcome matches Some(found) ==> (found, after) == pull_and_search(
            p,
            s,
            cost,
            current_goal,
            current_box,
            d,
            limit,
            depth,
        ),
    ensures
        search_directions(p, s, cost, current_goal, current_box, d, limit, depth, tried, blocked)
            == (if outcome == Some(true) {
            (true, false, after)
        } else {
            search_directions(
                p,
                after,
                cost,
                current_goal,
                current_box,
                d.successor(),
                limit,
                depth,
                tried + 1,
                blocked && outcome is None,
            )
        }),
{
    lemma_search_directions(p, s, cost, current_goal, current_box, d, limit, depth, tried, blocked);
}

/// What the solver does with a list of zones from the `k`-th on: the
/// player is put on the cell of each zone in turn, the search starts anew
/// from there, at depth zero and without a limit, and the first success
/// ends the work.
pub open spec fn solve_from(p: Puzzle, s: SearchState, zones: Seq<Position>, k: nat) -> (
    bool,
    SearchState,
)
    decreases zones.len() - k,
{
    if k >= zones.len() {
        (false, s)
    } else {
        let placed = SearchState { board: s.board.with_player(zones[k as int]), ..s };
        let (found, after) = search(p, placed, 0, 0, 0, Direction::Up, usize::MAX, 0);
        if found {
            (true, after)
        } else {
            solve_from(p, after, zones, k + 1)
        }
    }
}

} // verus!
