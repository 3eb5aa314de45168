//! The solver: what it keeps of a puzzle, and the depth-first search over
//! pulls that it runs from each zone.

use crate::board::Board;
use crate::level::{decode, lemma_reversed_goals, valid_level};
use crate::node::{NodeType, Position};
use crate::reach::lemma_open_is_plain;
use crate::roam::{distance_is, entry, is_distance_table, walled_off};
use crate::search::{
    is_goal, lemma_direction_tried, lemma_drift_self, lemma_drift_solvable, lemma_drift_twice,
    lemma_goal_in_zone, lemma_pull_and_search, lemma_pull_search_undo, lemma_pull_solvable,
    lemma_pulled_settled, lemma_search, lemma_search_boxes, lemma_search_directions,
    lemma_search_goals, pull_and_search, search, search_boxes, search_directions, search_goals,
    solvable, solvable_in, solve_from, visited_before, wall_ahead, walled_in, Puzzle, SearchState,
    Sweep,
};
use crate::sokoban::{Direction, Sokoban};
use crate::zones::{
    is_zone_list, lemma_no_zone, lemma_zone_found, lemma_zone_named, sees_box, zone_has_box,
    zone_starts,
};
use std::collections::HashMap;
use vstd::prelude::*;

verus! {

/// A puzzle and what the search knows of it.
pub struct Solver {
    /// For each box of the level as it is played, the fewest steps from the
    /// box to each cell when only walls are in the way; one entry for each
    /// cell, row by row.
    pub heuristics: Vec<Vec<Option<usize>>>,
    /// The least depth at which each canonical state has been seen.
    pub state_map: HashMap<u64, usize>,
    /// The level as it is played. The search does not touch it.
    pub forward: Sokoban,
    /// The level with boxes and goals in each other's place: the board that
    /// is searched.
    pub sokoban: Sokoban,
    /// Where the player stands in the level as it is played.
    pub original_player: Position,
    /// How many pulls the search has made.
    pub counter: usize,
}

/// Every state that `before` holds is held by `after` too, at the same
/// depth or at a lesser one.
pub open spec fn memo_kept(before: Map<u64, usize>, after: Map<u64, usize>) -> bool {
    forall|h: u64| #[trigger]
        before.contains_key(h) ==> after.contains_key(h) && after[h] <= before[h]
}

/// What is kept twice is kept.
pub proof fn lemma_memo_kept_twice(a: Map<u64, usize>, b: Map<u64, usize>, c: Map<u64, usize>)
    requires
        memo_kept(a, b),
        memo_kept(b, c),
    ensures
        memo_kept(a, c),
{
    assert forall|h: u64| #[trigger] a.contains_key(h) implies c.contains_key(h) && c[h]
        <= a[h] by {
        assert(b.contains_key(h));
    }
}

/// The index `offset` places after `start` in a round of `n`.
pub fn rotate(start: usize, offset: usize, n: usize) -> (r: usize)
    requires
        start < n,
        offset < n,
    ensures
        r == (start + offset) % (n as int),
        r < n,
{
    let room = n - start;
    if offset < room {
        assert((start + offset) % (n as int) == start + offset) by {
            vstd::arithmetic::div_mod::lemma_small_mod((start + offset) as nat, n as nat);
        }
        start + offset
    } else {
        assert((start + offset) % (n as int) == offset - room) by {
            vstd::arithmetic::div_mod::lemma_fundamental_div_mod_converse(
                start + offset,
                n as int,
                1,
                offset - room,
            );
        }
        offset - room
    }
}

/// The direction that the ring gives after `n` steps from up, for `n`
/// up to four.
pub open spec fn nth_direction(n: int) -> Direction {
    if n == 1 {
        Direction::Down
    } else if n == 2 {
        Direction::Left
    } else if n == 3 {
        Direction::Right
    } else {
        Direction::Up
    }
}

/// Every box of the level as it is played stands on the grid and has its
/// table of distances.
#[verifier::opaque]
pub open spec fn tables_ok(forward: Board, tables: Seq<Vec<Option<usize>>>) -> bool {
    &&& forward.boxes_inside()
    &&& tables.len() == forward.boxes.len()
    &&& forall|i: int|
        0 <= i < tables.len() ==> is_distance_table(
            forward,
            forward.boxes[i],
            (#[trigger] tables[i])@,
        )
}

/// A solver that is ready follows itself.
pub proof fn lemma_follows_self(a: Solver)
    requires
        a.ready(),
    ensures
        a.follows(&a),
{
    lemma_drift_self(a.sokoban@);
}

/// Following twice is following.
pub proof fn lemma_follows_twice(a: Solver, b: Solver, c: Solver)
    requires
        a.ready(),
        b.follows(&a),
        c.follows(&b),
    ensures
        c.follows(&a),
{
    lemma_drift_twice(a.sokoban@, b.sokoban@, c.sokoban@);
    lemma_memo_kept_twice(a.state_map@, b.state_map@, c.state_map@);
}

/// What can be solved from where a solver has got to can be solved from
/// where it was.
pub proof fn lemma_follows_solvable(a: Solver, b: Solver)
    requires
        a.ready(),
        b.follows(&a),
        solvable(b.sokoban@, b.original_player),
    ensures
        solvable(a.sokoban@, a.original_player),
{
    let n = choose|n: nat| solvable_in(b.sokoban@, b.original_player, n);
    lemma_drift_solvable(a.sokoban@, b.sokoban@, a.original_player, n);
}

/// With the player on any of the first `k` cells of the list the search is
/// not over.
pub open spec fn none_at_goal(b: Board, zones: Seq<Position>, home: Position, k: int) -> bool {
    forall|j: int| 0 <= j < k ==> !is_goal(b.with_player(#[trigger] zones[j]), home)
}

/// The result of one box as the round of the boxes reads it.
pub open spec fn sweep_of(result: Option<bool>, s: SearchState) -> Sweep {
    match result {
        Some(true) => Sweep::Found(s),
        Some(false) => Sweep::Cut(s),
        None => Sweep::Open(s),
    }
}

impl Solver {
    /// Nothing but the memo, the counter and the board that is searched
    /// differs from `other`, and of that board neither the floor nor the
    /// goals.
    pub open spec fn same_puzzle(&self, other: &Solver) -> bool {
        &&& self.heuristics@ == other.heuristics@
        &&& self.forward == other.forward
        &&& self.original_player == other.original_player
        &&& self.sokoban.width == other.sokoban.width
        &&& self.sokoban.height == other.sokoban.height
        &&& self.sokoban.map@ == other.sokoban.map@
        &&& self.sokoban.goals@ == other.sokoban.goals@
    }

    /// What the search reads of this solver.
    pub open spec fn puzzle(&self) -> Puzzle {
        Puzzle {
            forward: self.forward@,
            tables: self.heuristics@,
            home: self.original_player,
        }
    }

    /// What the search changes of this solver.
    pub open spec fn state(&self) -> SearchState {
        SearchState { board: self.sokoban@, memo: self.state_map@, counter: self.counter }
    }

    /// The two boards have the same extent, every box of the first has its
    /// table of distances, and the goals of the board that is searched are
    /// the cells of those boxes.
    pub open spec fn wf(&self) -> bool {
        &&& self.forward.wf()
        &&& self.sokoban.wf()
        &&& self.sokoban@.player_settled()
        &&& self.sokoban.width == self.forward.width
        &&& self.sokoban.height == self.forward.height
        &&& self.sokoban.goals@ == self.forward.boxes@
        &&& tables_ok(self.forward@, self.heuristics@)
    }

    /// What every step of the search keeps: the puzzle is the same, every
    /// box stands where it stood, the player has not left the region, the
    /// counter has not gone back, and the memo has lost nothing.
    pub open spec fn follows(&self, before: &Solver) -> bool {
        &&& self.same_puzzle(before)
        &&& self.sokoban@.drifted_from(before.sokoban@)
        &&& self.counter >= before.counter
        &&& memo_kept(before.state_map@, self.state_map@)
    }

    /// The solver of a level: the tables of distances are taken from the
    /// level as it is played, and the board that will be searched is the
    /// level with boxes and goals in each other's place.
    pub fn new(level: String) -> (solver: Solver)
        requires
            valid_level(level@),
            decode(level@, false).player is Some,
        ensures
            solver.wf(),
            solver.forward@ == decode(level@, false),
            solver.sokoban@ == decode(level@, true),
            Some(solver.original_player) == decode(level@, false).player,
            solver.state_map@ == Map::<u64, usize>::empty(),
            solver.counter == 0,
    {
        let sokoban = Sokoban::new(&level);
        let reversed = Sokoban::new_reverse(&level);
        proof {
            lemma_reversed_goals(level@, (level@.len() - 4) as nat);
        }
        let original_player = match sokoban.player {
            Some(p) => p,
            None => Position { x: 0, y: 0 },
        };
        proof {
            reveal(tables_ok);
        }
        Solver {
            heuristics: Solver::build_heuristics(&sokoban),
            state_map: HashMap::new(),
            forward: sokoban,
            sokoban: reversed,
            original_player,
            counter: 0,
        }
    }

    /// What the tables hold for box `box_index` at goal `goal_index`: the
    /// fewest steps, with only walls in the way, from where the box of that
    /// number stands in the level as it is played to that goal of the board
    /// that is searched; nothing where walls cut the goal off.
    pub fn get_heuristic(&self, goal_index: usize, box_index: usize) -> (bound: Option<usize>)
        requires
            self.wf(),
            goal_index < self.sokoban.goals@.len(),
            box_index < self.sokoban.goals@.len(),
        ensures
            bound == crate::search::bound(
                self.puzzle(),
                self.sokoban@,
                goal_index as int,
                box_index as int,
            ),
            match bound {
                Some(d) => distance_is(
                    self.forward@,
                    self.forward.boxes@[box_index as int],
                    self.sokoban.goals@[goal_index as int],
                    d as nat,
                ),
                None => walled_off(
                    self.forward@,
                    self.forward.boxes@[box_index as int],
                    self.sokoban.goals@[goal_index as int],
                ),
            },
    {
        proof {
            reveal(tables_ok);
        }
        let current_goal = self.sokoban.goals[goal_index];
        assert(self.forward@.in_bounds(self.forward@.boxes[goal_index as int]));
        let at = self.forward.index(&current_goal);
        let table = &self.heuristics[box_index];
        assert(is_distance_table(self.forward@, self.forward.boxes@[box_index as int], table@));
        assert(entry(self.forward@, table@, current_goal) == table@[at as int]);
        table[at]
    }

    /// Whether the state of the board has been seen at this depth or at a
    /// lesser one. Where it has not, the state is recorded with this depth.
    pub fn been_here(&mut self, depth: usize) -> (seen: bool)
        requires
            old(self).wf(),
        ensures
            final(self).wf(),
            final(self).same_puzzle(old(self)),
            final(self).sokoban@ == old(self).sokoban@,
            final(self).counter == old(self).counter,
            seen == visited_before(old(self).state_map@, old(self).sokoban@.state_hash(), depth),
            seen ==> final(self).state_map@ == old(self).state_map@,
            !seen ==> final(self).state_map@ == old(self).state_map@.insert(
                old(self).sokoban@.state_hash(),
                depth,
            ),
    {
        let current_hash = self.sokoban.get_hash();
        let known = match self.state_map.get(&current_hash) {
            Some(least) => depth >= *least,
            None => false,
        };
        if known {
            return true;
        }
        self.state_map.insert(current_hash, depth);
        false
    }

    /// Whether the boxes cover the goals and the player can walk to where
    /// the level as it is played has the player.
    pub fn is_solved(&mut self) -> (solved: bool)
        requires
            old(self).wf(),
        ensures
            final(self).wf(),
            final(self).same_puzzle(old(self)),
            final(self).sokoban@ == old(self).sokoban@,
            final(self).state_map@ == old(self).state_map@,
            final(self).counter == old(self).counter,
            solved == is_goal(old(self).sokoban@, old(self).original_player),
    {
        let home = self.original_player;
        self.sokoban.is_resolved() && self.sokoban.can_reach(&home)
    }

    /// Whether box `box_index` is stuck for good: it stands on no goal, and
    /// in each direction in which a pull has two cells to go to, one of the
    /// two is a wall. A box that only other boxes hold is not stuck for
    /// good.
    pub fn should_cut_tree(&self, box_index: usize) -> (cut: bool)
        requires
            self.wf(),
            box_index < self.sokoban.boxes@.len(),
        ensures
            cut == walled_in(self.sokoban@, box_index as int),
            self.sokoban@.kind_at(self.sokoban.boxes@[box_index as int]) == NodeType::BoxOnWhole
                ==> !cut,
    {
        let box_position = self.sokoban.boxes[box_index];
        let box_ntype = self.sokoban.get_ntype(&box_position);
        if box_ntype == NodeType::BoxOnWhole {
            return false;
        }
        let mut direction = Direction::Up;
        let mut tried: usize = 0;
        while tried < 4
            invariant
                self.wf(),
                tried <= 4,
                box_position == self.sokoban.boxes@[box_index as int],
                direction == nth_direction(tried as int),
                forall|j: int|
                    0 <= j < tried ==> wall_ahead(self.sokoban@, box_position, nth_direction(j)),
            decreases 4 - tried,
        {
            let free = match self.sokoban.get_future_position(&box_position, &direction) {
                Some((box_future, player_future)) => {
                    let box_future = self.sokoban.get_ntype(&box_future);
                    let player_future = self.sokoban.get_ntype(&player_future);
                    !(player_future == NodeType::Wall || box_future == NodeType::Wall)
                },
                None => false,
            };
            if free {
                assert(!wall_ahead(self.sokoban@, box_position, nth_direction(tried as int)));
                return false;
            }
            direction = direction.next();
            tried += 1;
        }
        assert forall|d: Direction| wall_ahead(self.sokoban@, box_position, d) by {
            assert(d == nth_direction(0) || d == nth_direction(1) || d == nth_direction(2) || d
                == nth_direction(3));
        }
        true
    }

    /// The search can run: every box has its goal and its table, and the
    /// player stands on the board.
    pub open spec fn ready(&self) -> bool {
        &&& self.wf()
        &&& self.sokoban.boxes@.len() == self.sokoban.goals@.len()
        &&& self.sokoban.player is Some
    }

    /// Pulls box `box_index` in `direction` if that can be done, searches
    /// one level deeper, and takes the pull back. Hands back whether the
    /// search below has succeeded, or nothing where the box could not be
    /// pulled.
    pub fn try_pull(
        &mut self,
        start_cost: usize,
        goal_index: usize,
        box_index: usize,
        direction: &Direction,
        cost_limit: usize,
        depth: usize,
    ) -> (outcome: Option<bool>)
        requires
            old(self).ready(),
            goal_index < old(self).sokoban.boxes@.len(),
            box_index < old(self).sokoban.boxes@.len(),
            depth < usize::MAX,
        ensures
            final(self).ready(),
            final(self).follows(old(self)),
            outcome is Some <==> old(self).sokoban@.can_pull(box_index as int, *direction),
            outcome is None ==> final(self).state() == old(self).state(),
            outcome == Some(true) ==> solvable(old(self).sokoban@, old(self).original_player),
            outcome matches Some(found) ==> (found, final(self).state()) == pull_and_search(
                old(self).puzzle(),
                old(self).state(),
                start_cost,
                goal_index as int,
                box_index as int,
                *direction,
                cost_limit,
                depth,
            ),
        decreases usize::MAX - depth, 0nat,
    {
        let ghost before = self.sokoban@;
        let ghost home = self.original_player;
        proof {
            lemma_follows_self(*self);
            lemma_pull_and_search(
                self.puzzle(),
                self.state(),
                start_cost,
                goal_index as int,
                box_index as int,
                *direction,
                cost_limit,
                depth,
            );
        }
        if !self.sokoban.move_box(box_index, direction) {
            return None;
        }
        self.counter = self.counter.saturating_add(1);
        proof {
            lemma_pulled_settled(before, box_index as int, *direction);
        }
        let ghost pulled = self.state_map@;
        let solved = self.solve_dfs(
            start_cost.saturating_add(1),
            goal_index,
            box_index,
            direction,
            cost_limit,
            depth + 1,
        );
        proof {
            lemma_pull_search_undo(before, self.sokoban@, box_index as int, *direction);
        }
        self.sokoban.undo_move_box(box_index, direction);
        proof {
            if solved {
                lemma_pull_solvable(before, home, box_index as int, *direction);
            }
        }
        Some(solved)
    }

    /// Tries to pull box `box_index` for goal `goal_index` in the four
    /// directions of the ring, `previous_direction` first, and searches
    /// below each pull. Hands back whether a solution was found and whether
    /// the box could not be pulled at all.
    pub fn try_directions(
        &mut self,
        start_cost: usize,
        goal_index: usize,
        box_index: usize,
        previous_direction: &Direction,
        cost_limit: usize,
        depth: usize,
    ) -> (turn: (bool, bool))
        requires
            old(self).ready(),
            goal_index < old(self).sokoban.boxes@.len(),
            box_index < old(self).sokoban.boxes@.len(),
            depth < usize::MAX,
        ensures
            final(self).ready(),
            final(self).follows(old(self)),
            turn.0 ==> solvable(old(self).sokoban@, old(self).original_player),
            (turn.0, turn.1, final(self).state()) == search_directions(
                old(self).puzzle(),
                old(self).state(),
                start_cost,
                goal_index as int,
                box_index as int,
                *previous_direction,
                cost_limit,
                depth,
                0,
                true,
            ),
        decreases usize::MAX - depth, 1nat,
    {
        let ghost p = self.puzzle();
        let ghost whole = search_directions(
            p,
            self.state(),
            start_cost,
            goal_index as int,
            box_index as int,
            *previous_direction,
            cost_limit,
            depth,
            0,
            true,
        );
        proof {
            lemma_follows_self(*self);
        }
        let mut current_direction = *previous_direction;
        let mut is_blocked = true;
        let mut tried: usize = 0;
        while tried < 4
            invariant
                old(self).ready(),
                self.ready(),
                self.follows(old(self)),
                self.puzzle() == p,
                whole == search_directions(
                    old(self).puzzle(),
                    old(self).state(),
                    start_cost,
                    goal_index as int,
                    box_index as int,
                    *previous_direction,
                    cost_limit,
                    depth,
                    0,
                    true,
                ),
                goal_index < self.sokoban.boxes@.len(),
                box_index < self.sokoban.boxes@.len(),
                depth < usize::MAX,
                tried <= 4,
                search_directions(
                    p,
                    self.state(),
                    start_cost,
                    goal_index as int,
                    box_index as int,
                    current_direction,
                    cost_limit,
                    depth,
                    tried as nat,
                    is_blocked,
                ) == whole,
            decreases 4 - tried,
        {
            let ghost earlier = *self;
            let outcome = self.try_pull(
                start_cost,
                goal_index,
                box_index,
                &current_direction,
                cost_limit,
                depth,
            );
            proof {
                lemma_follows_twice(*old(self), earlier, *self);
                if outcome == Some(true) {
                    lemma_follows_solvable(*old(self), earlier);
                }
                lemma_direction_tried(
                    p,
                    earlier.state(),
                    self.state(),
                    outcome,
                    start_cost,
                    goal_index as int,
                    box_index as int,
                    current_direction,
                    cost_limit,
                    depth,
                    tried as nat,
                    is_blocked,
                );
            }
            match outcome {
                Some(solved) => {
                    is_blocked = false;
                    if solved {
                        return (true, false);
                    }
                },
                None => {},
            }
            current_direction = current_direction.next();
            tried += 1;
        }
        proof {
            lemma_search_directions(
                p,
                self.state(),
                start_cost,
                goal_index as int,
                box_index as int,
                current_direction,
                cost_limit,
                depth,
                4,
                is_blocked,
            );
        }
        (false, is_blocked)
    }

    /// Tries box `current_box_index` with the goals in the round that
    /// starts at `goal_index`. Hands back `Some(true)` where a solution was
    /// found, `Some(false)` where the branch is given up, and nothing where
    /// the search is to go on with the next box.
    pub fn try_goals(
        &mut self,
        start_cost: usize,
        goal_index: usize,
        box_index: usize,
        current_box_index: usize,
        previous_direction: &Direction,
        cost_limit: usize,
        depth: usize,
    ) -> (sweep: Option<bool>)
        requires
            old(self).ready(),
            goal_index < old(self).sokoban.boxes@.len(),
            box_index < old(self).sokoban.boxes@.len(),
            current_box_index < old(self).sokoban.boxes@.len(),
            depth < usize::MAX,
        ensures
            final(self).ready(),
            final(self).follows(old(self)),
            sweep == Some(true) ==> solvable(old(self).sokoban@, old(self).original_player),
            sweep_of(sweep, final(self).state()) == search_goals(
                old(self).puzzle(),
                old(self).state(),
                start_cost,
                goal_index as int,
                box_index as int,
                current_box_index as int,
                *previous_direction,
                cost_limit,
                depth,
                old(self).sokoban.boxes@.len(),
                0,
            ),
        decreases usize::MAX - depth, 2nat,
    {
        let ghost p = self.puzzle();
        let match_length = self.sokoban.boxes.len();
        let ghost whole = search_goals(
            p,
            self.state(),
            start_cost,
            goal_index as int,
            box_index as int,
            current_box_index as int,
            *previous_direction,
            cost_limit,
            depth,
            match_length as nat,
            0,
        );
        proof {
            lemma_follows_self(*self);
        }
        let mut i: usize = 0;
        while i < match_length
            invariant
                old(self).ready(),
                self.ready(),
                self.follows(old(self)),
                self.puzzle() == p,
                whole == search_goals(
                    old(self).puzzle(),
                    old(self).state(),
                    start_cost,
                    goal_index as int,
                    box_index as int,
                    current_box_index as int,
                    *previous_direction,
                    cost_limit,
                    depth,
                    old(self).sokoban.boxes@.len(),
                    0,
                ),
                match_length == self.sokoban.boxes@.len(),
                goal_index < match_length,
                box_index < match_length,
                current_box_index < match_length,
                depth < usize::MAX,
                i <= match_length,
                search_goals(
                    p,
                    self.state(),
                    start_cost,
                    goal_index as int,
                    box_index as int,
                    current_box_index as int,
                    *previous_direction,
                    cost_limit,
                    depth,
                    match_length as nat,
                    i as nat,
                ) == whole,
            decreases match_length - i,
        {
            let current_goal_index = rotate(goal_index, i, match_length);
            // The bound of this pair stays the same in all four directions:
            // a pair without a bound, or with one above the limit, is not
            // tried in any of them.
            let within_limit = match self.get_heuristic(current_goal_index, current_box_index) {
                Some(heuristic_value) => match start_cost.checked_add(heuristic_value) {
                    Some(minimum_cost) => minimum_cost <= cost_limit,
                    None => false,
                },
                None => false,
            };
            let ghost earlier = *self;
            proof {
                lemma_search_goals(
                    p,
                    self.state(),
                    start_cost,
                    goal_index as int,
                    box_index as int,
                    current_box_index as int,
                    *previous_direction,
                    cost_limit,
                    depth,
                    match_length as nat,
                    i as nat,
                );
            }
            let (found, is_blocked) = if within_limit {
                self.try_directions(
                    start_cost,
                    current_goal_index,
                    current_box_index,
                    previous_direction,
                    cost_limit,
                    depth,
                )
            } else {
                (false, true)
            };
            proof {
                if within_limit {
                    lemma_follows_twice(*old(self), earlier, *self);
                    if found {
                        lemma_follows_solvable(*old(self), earlier);
                    }
                }
            }
            if found {
                return Some(true);
            }
            if is_blocked {
                // A box that walls hold will never move: the whole branch
                // is given up. One that other boxes hold may move later:
                // the search goes on with the next box.
                if self.should_cut_tree(box_index) {
                    return Some(false);
                }
                return None;
            }
            i += 1;
        }
        proof {
            lemma_search_goals(
                p,
                self.state(),
                start_cost,
                goal_index as int,
                box_index as int,
                current_box_index as int,
                *previous_direction,
                cost_limit,
                depth,
                match_length as nat,
                match_length as nat,
            );
        }
        None
    }

    /// The depth-first search over pulls. It tries the boxes and, for each
    /// box, the goals in a round that starts at `box_index` and at
    /// `goal_index`, and the four directions in a round that starts at
    /// `previous_direction`. After each pull it goes one level deeper and
    /// then takes the pull back, so that every box ends where it stood. A
    /// state that the memo holds at this depth or at a lesser one is not
    /// searched again, nor anything at a depth that cannot be counted.
    pub fn solve_dfs(
        &mut self,
        start_cost: usize,
        goal_index: usize,
        box_index: usize,
        previous_direction: &Direction,
        cost_limit: usize,
        depth: usize,
    ) -> (solved: bool)
        requires
            old(self).ready(),
            old(self).sokoban.boxes@.len() > 0 ==> goal_index < old(self).sokoban.boxes@.len()
                && box_index < old(self).sokoban.boxes@.len(),
        ensures
            final(self).ready(),
            final(self).follows(old(self)),
            solved ==> solvable(old(self).sokoban@, old(self).original_player),
            (solved, final(self).state()) == search(
                old(self).puzzle(),
                old(self).state(),
                start_cost,
                goal_index as int,
                box_index as int,
                *previous_direction,
                cost_limit,
                depth,
            ),
        decreases usize::MAX - depth, 3nat,
    {
        let ghost p = self.puzzle();
        let ghost home = self.original_player;
        proof {
            lemma_follows_self(*self);
            lemma_search(
                p,
                self.state(),
                start_cost,
                goal_index as int,
                box_index as int,
                *previous_direction,
                cost_limit,
                depth,
            );
        }
        if self.is_solved() {
            assert(solvable_in(self.sokoban@, home, 0));
            return true;
        }
        if self.been_here(depth) {
            return false;
        }
        if depth == usize::MAX {
            return false;
        }
        // box and goal length are the same
        let match_length = self.sokoban.boxes.len();
        let ghost whole = search_boxes(
            p,
            self.state(),
            start_cost,
            goal_index as int,
            box_index as int,
            *previous_direction,
            cost_limit,
            depth,
            match_length as nat,
            0,
        );
        if match_length == 0 {
            proof {
                lemma_search_boxes(
                    p,
                    self.state(),
                    start_cost,
                    goal_index as int,
                    box_index as int,
                    *previous_direction,
                    cost_limit,
                    depth,
                    0,
                    0,
                );
            }
            return false;
        }
        let mut j: usize = 0;
        while j < match_length
            invariant
                old(self).ready(),
                self.ready(),
                self.follows(old(self)),
                self.puzzle() == p,
                search(
                    old(self).puzzle(),
                    old(self).state(),
                    start_cost,
                    goal_index as int,
                    box_index as int,
                    *previous_direction,
                    cost_limit,
                    depth,
                ) == whole,
                match_length == self.sokoban.boxes@.len(),
                goal_index < match_length,
                box_index < match_length,
                depth < usize::MAX,
                j <= match_length,
                search_boxes(
                    p,
                    self.state(),
                    start_cost,
                    goal_index as int,
                    box_index as int,
                    *previous_direction,
                    cost_limit,
                    depth,
                    match_length as nat,
                    j as nat,
                ) == whole,
            decreases match_length - j,
        {
            let current_box_index = rotate(box_index, j, match_length);
            let ghost earlier = *self;
            proof {
                lemma_search_boxes(
                    p,
                    self.state(),
                    start_cost,
                    goal_index as int,
                    box_index as int,
                    *previous_direction,
                    cost_limit,
                    depth,
                    match_length as nat,
                    j as nat,
                );
            }
            let sweep = self.try_goals(
                start_cost,
                goal_index,
                box_index,
                current_box_index,
                previous_direction,
                cost_limit,
                depth,
            );
            proof {
                lemma_follows_twice(*old(self), earlier, *self);
                if sweep == Some(true) {
                    lemma_follows_solvable(*old(self), earlier);
                }
            }
            match sweep {
                Some(found) => {
                    return found;
                },
                None => {},
            }
            j += 1;
        }
        proof {
            lemma_search_boxes(
                p,
                self.state(),
                start_cost,
                goal_index as int,
                box_index as int,
                *previous_direction,
                cost_limit,
                depth,
                match_length as nat,
                match_length as nat,
            );
        }
        false
    }

    /// Tries each zone in turn as the place of the player and searches
    /// from there; the first search that succeeds ends the work.
    pub fn solve_sokoban(&mut self) -> (solved: bool)
        requires
            old(self).wf(),
            old(self).sokoban.boxes@.len() == old(self).sokoban.goals@.len(),
        ensures
            final(self).wf(),
            final(self).same_puzzle(old(self)),
            final(self).sokoban.boxes@ == old(self).sokoban.boxes@,
            final(self).counter >= old(self).counter,
            memo_kept(old(self).state_map@, final(self).state_map@),
            (solved, final(self).state()) == solve_from(
                old(self).puzzle(),
                old(self).state(),
                zone_starts(old(self).sokoban@),
                0,
            ),
            solved ==> exists|z: Position|
                old(self).sokoban@.open(z) && zone_has_box(old(self).sokoban@, z)
                    && #[trigger] solvable(
                    old(self).sokoban@.with_player(z),
                    old(self).original_player,
                ),
            forall|z: Position|
                old(self).sokoban@.open(z) && zone_has_box(old(self).sokoban@, z)
                    && #[trigger] is_goal(
                    old(self).sokoban@.with_player(z),
                    old(self).original_player,
                ) ==> solved,
            (forall|c: Position| old(self).sokoban@.open(c) ==> !#[trigger] sees_box(
                old(self).sokoban@,
                c,
            )) ==> !solved && final(self).state() == old(self).state(),
    {
        let zones = self.player_zones();
        let ghost b = self.sokoban@;
        let ghost p = self.puzzle();
        let ghost home = self.original_player;
        let ghost whole = solve_from(p, self.state(), zones@, 0);
        proof {
            if forall|c: Position| b.open(c) ==> !#[trigger] sees_box(b, c) {
                lemma_no_zone(b, zones@);
            }
        }
        let mut k: usize = 0;
        while k < zones.len()
            invariant
                self.wf(),
                self.same_puzzle(old(self)),
                self.puzzle() == p,
                self.sokoban@ == (Board { player: self.sokoban@.player, ..b }),
                self.counter >= old(self).counter,
                memo_kept(old(self).state_map@, self.state_map@),
                b.wf(),
                b.player_settled(),
                b.boxes.len() == b.goals.len(),
                home == self.original_player,
                is_zone_list(b, zones@),
                k <= zones@.len(),
                none_at_goal(b, zones@, home, k as int),
                solve_from(p, self.state(), zones@, k as nat) == whole,
                k == 0 ==> self.state() == old(self).state(),
                b == old(self).sokoban@,
                p == old(self).puzzle(),
                whole == solve_from(old(self).puzzle(), old(self).state(), zones@, 0),
                zones@ == zone_starts(b),
                (forall|c: Position| b.open(c) ==> !#[trigger] sees_box(b, c)) ==> zones@.len()
                    == 0,
            decreases zones@.len() - k,
        {
            let player = zones[k];
            let ghost memo = self.state_map@;
            proof {
                lemma_zone_named(b, zones@, k as int);
                lemma_open_is_plain(b, player);
            }
            self.sokoban.player = Some(player);
            assert(self.sokoban@ == b.with_player(player));
            proof {
                lemma_search(p, self.state(), 0, 0, 0, Direction::Up, usize::MAX, 0);
            }
            let solved = self.solve_dfs(0, 0, 0, &Direction::Up, usize::MAX, 0);
            proof {
                lemma_memo_kept_twice(old(self).state_map@, memo, self.state_map@);
            }
            if solved {
                proof {
                    lemma_zone_named(b, zones@, k as int);
                }
                return solved;
            }
            k += 1;
        }
        proof {
            assert forall|z: Position|
                b.open(z) && zone_has_box(b, z) && #[trigger] is_goal(
                    b.with_player(z),
                    home,
                ) implies false by {
                let j = lemma_zone_found(b, zones@, z);
                lemma_zone_named(b, zones@, j);
                lemma_goal_in_zone(b, z, zones@[j], home);
            }
        }
        false
    }

    /// An order in which goals, boxes and directions can be visited: the
    /// goals in a round of `match_length` that starts at
    /// `previous_goal_index`, for each goal the boxes in a round that starts
    /// at `previous_box_index`, and for each pair the four directions of
    /// the ring, `previous_direction` first.
    pub fn depth_permutation(
        match_length: u8,
        previous_goal_index: u8,
        previous_box_index: u8,
        previous_direction: &Direction,
    ) -> (order: Vec<(u8, u8, Direction)>)
        ensures
            order@ == visits(
                match_length as int,
                previous_goal_index as int,
                previous_box_index as int,
                *previous_direction,
                match_length as int,
            ),
    {
        let mut order: Vec<(u8, u8, Direction)> = Vec::new();
        let n: u16 = match_length as u16;
        let mut i: u8 = 0;
        while i < match_length
            invariant
                n == match_length,
                i <= match_length,
                order@ == visits(
                    match_length as int,
                    previous_goal_index as int,
                    previous_box_index as int,
                    *previous_direction,
                    i as int,
                ),
            decreases match_length - i,
        {
            let current_goal_index: u8 = ((previous_goal_index as u16 + i as u16) % n) as u8;
            let ghost done = order@;
            let mut j: u8 = 0;
            while j < match_length
                invariant
                    n == match_length,
                    i < match_length,
                    j <= match_length,
                    current_goal_index == (previous_goal_index + i) % (match_length as int),
                    order@ == done + visits_of_goal(
                        match_length as int,
                        current_goal_index,
                        previous_box_index as int,
                        *previous_direction,
                        j as int,
                    ),
                decreases match_length - j,
            {
                let current_box_index: u8 = ((previous_box_index as u16 + j as u16) % n) as u8;
                let first = *previous_direction;
                let second = first.next();
                let third = second.next();
                let fourth = third.next();
                let ghost so_far = order@;
                order.push((current_goal_index, current_box_index, first));
                order.push((current_goal_index, current_box_index, second));
                order.push((current_goal_index, current_box_index, third));
                order.push((current_goal_index, current_box_index, fourth));
                assert(order@ =~= so_far + visits_of_pair(
                    current_goal_index,
                    current_box_index,
                    *previous_direction,
                ));
                assert(order@ =~= done + visits_of_goal(
                    match_length as int,
                    current_goal_index,
                    previous_box_index as int,
                    *previous_direction,
                    j + 1,
                ));
                j += 1;
            }
            i += 1;
        }
        order
    }
}

/// One goal with one box in the four directions of the ring, `d` first.
pub open spec fn visits_of_pair(goal: u8, sbox: u8, d: Direction) -> Seq<(u8, u8, Direction)> {
    seq![
        (goal, sbox, d),
        (goal, sbox, d.successor()),
        (goal, sbox, d.successor().successor()),
        (goal, sbox, d.successor().successor().successor()),
    ]
}

/// One goal with the first `count` boxes of the round of `n` that starts
/// at `first_box`.
pub open spec fn visits_of_goal(n: int, goal: u8, first_box: int, d: Direction, count: int) -> Seq<
    (u8, u8, Direction),
>
    decreases count,
{
    if count <= 0 {
        Seq::empty()
    } else {
        visits_of_goal(n, goal, first_box, d, count - 1) + visits_of_pair(
            goal,
            ((first_box + count - 1) % n) as u8,
            d,
        )
    }
}

/// The first `count` goals of the round of `n` that starts at `first_goal`,
/// each with all `n` boxes.
pub open spec fn visits(n: int, first_goal: int, first_box: int, d: Direction, count: int) -> Seq<
    (u8, u8, Direction),
>
    decreases count,
{
    if count <= 0 {
        Seq::empty()
    } else {
        visits(n, first_goal, first_box, d, count - 1) + visits_of_goal(
            n,
            ((first_goal + count - 1) % n) as u8,
            first_box,
            d,
            n,
        )
    }
}

} // verus!
