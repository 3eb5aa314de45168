//! The mathematical model of a board: what stands where, which cells the
//! player can walk to, and what a pull does.

use crate::node::{NodeType, Position};
use crate::sokoban::Direction;
use std::collections::hash_map::DefaultHasher;
use vstd::prelude::*;
use vstd::std_specs::hash::DefaultHasherAdditionalSpecFns;

verus! {

/// A board as contracts speak of it. `floor` holds the floor kinds row by
/// row; boxes and the player are layered on top of it.
pub struct Board {
    pub width: nat,
    pub height: nat,
    pub floor: Seq<NodeType>,
    pub player: Option<Position>,
    pub boxes: Seq<Position>,
    pub goals: Seq<Position>,
}

/// Two cells share an edge.
pub open spec fn adjacent(a: Position, b: Position) -> bool {
    ||| a.x == b.x && (a.y + 1 == b.y || b.y + 1 == a.y)
    ||| a.y == b.y && (a.x + 1 == b.x || b.x + 1 == a.x)
}

/// The cell `n` steps away from `p` in direction `d`, if its coordinates
/// can be written down at all.
pub open spec fn step(p: Position, d: Direction, n: nat) -> Option<Position> {
    match d {
        Direction::Up => if p.y >= n {
            Some(Position { x: p.x, y: (p.y - n) as usize })
        } else {
            None
        },
        Direction::Down => if p.y + n <= usize::MAX {
            Some(Position { x: p.x, y: (p.y + n) as usize })
        } else {
            None
        },
        Direction::Left => if p.x >= n {
            Some(Position { x: (p.x - n) as usize, y: p.y })
        } else {
            None
        },
        Direction::Right => if p.x + n <= usize::MAX {
            Some(Position { x: (p.x + n) as usize, y: p.y })
        } else {
            None
        },
    }
}

/// Where a pull in direction `d` would take a box that stands on `from`,
/// and where it would take the player: one and two cells further. `None`
/// where either cell has no coordinates.
pub open spec fn pull_targets(from: Position, d: Direction) -> Option<(Position, Position)> {
    match (step(from, d, 1), step(from, d, 2)) {
        (Some(box_to), Some(player_to)) => Some((box_to, player_to)),
        _ => None,
    }
}

/// A cell of a grid has its place within the grid's row-major sequence.
pub proof fn lemma_index_bound(x: int, y: int, w: int, h: int)
    requires
        0 <= x < w,
        0 <= y < h,
    ensures
        0 <= y * w,
        0 <= y * w + x < w * h,
        w * h == h * w,
{
    assert(w * h == h * w) by (nonlinear_arith);
    assert(0 <= y * w && y * w + w <= w * h) by (nonlinear_arith)
        requires
            0 <= y < h,
            0 < w,
    ;
}

/// The cell next to `from` in direction `d`: where a pull takes the box.
pub open spec fn box_target(from: Position, d: Direction) -> Position {
    step(from, d, 1)->0
}

impl Board {
    /// The floor covers the grid and holds floor kinds only.
    pub open spec fn wf(self) -> bool {
        &&& self.floor.len() == self.width * self.height
        &&& forall|i: int| 0 <= i < self.floor.len() ==> (#[trigger] self.floor[i]).floor_kind()
    }

    pub open spec fn in_bounds(self, p: Position) -> bool {
        p.x < self.width && p.y < self.height
    }

    /// The place of a cell in `floor`.
    pub open spec fn index_of(self, p: Position) -> int {
        p.y * self.width + p.x
    }

    /// The cell that stands at place `i` of `floor`.
    pub open spec fn position_of(self, i: int) -> Position {
        Position { x: (i % (self.width as int)) as usize, y: (i / (self.width as int)) as usize }
    }

    /// The floor kind of a cell; every cell outside the grid is a wall.
    pub open spec fn floor_at(self, p: Position) -> NodeType {
        if self.in_bounds(p) {
            self.floor[self.index_of(p)]
        } else {
            NodeType::Wall
        }
    }

    pub open spec fn has_box(self, p: Position) -> bool {
        self.boxes.contains(p)
    }

    /// A cell of the grid that is no wall and holds no box.
    pub open spec fn plain(self, p: Position) -> bool {
        self.in_bounds(p) && self.floor_at(p) != NodeType::Wall && !self.has_box(p)
    }

    /// The player, if there is one, stands on a cell of the grid that is no
    /// wall and holds no box.
    pub open spec fn player_settled(self) -> bool {
        self.player is Some ==> self.plain(self.player->0)
    }

    /// Every box stands on a cell of the grid.
    pub open spec fn boxes_inside(self) -> bool {
        forall|i: int| 0 <= i < self.boxes.len() ==> self.in_bounds(#[trigger] self.boxes[i])
    }

    /// What a viewer sees on a cell: the floor, a box on it if there is one,
    /// and the player above both.
    pub open spec fn kind_at(self, p: Position) -> NodeType {
        if !self.in_bounds(p) {
            NodeType::Wall
        } else {
            let f = self.floor[self.index_of(p)];
            let k = if self.has_box(p) {
                if f == NodeType::Whole {
                    NodeType::BoxOnWhole
                } else {
                    NodeType::Box
                }
            } else {
                f
            };
            if self.player == Some(p) {
                if k == NodeType::Whole {
                    NodeType::PlayerOnWhole
                } else {
                    NodeType::Player
                }
            } else {
                k
            }
        }
    }

    /// The player, or a box, may stand on the cell.
    pub open spec fn open(self, p: Position) -> bool {
        self.kind_at(p).passable()
    }

    /// A walk visits open cells only and goes from each to a neighbour.
    pub open spec fn is_walk(self, path: Seq<Position>) -> bool {
        &&& path.len() > 0
        &&& forall|i: int| 0 <= i < path.len() ==> self.open(#[trigger] path[i])
        &&& forall|i: int| 0 <= i < path.len() - 1 ==> adjacent(#[trigger] path[i], path[i + 1])
    }

    /// Some walk leads from `a` to `b`.
    pub open spec fn connects(self, a: Position, b: Position) -> bool {
        exists|path: Seq<Position>| #[trigger]
            self.is_walk(path) && path[0] == a && path.last() == b
    }

    /// The player can walk to `p` without moving a box.
    pub open spec fn reachable(self, p: Position) -> bool {
        self.player is Some && self.connects(self.player->0, p)
    }

    /// The byte of a cell before the player's walk is marked: the number of
    /// the box kind where a box is seen, else 0.
    pub open spec fn seed_at(self, p: Position) -> u8 {
        if self.kind_at(p).box_kind() {
            self.kind_at(p).rank() as u8
        } else {
            0
        }
    }

    /// The byte that stands for a cell in the canonical state: 1 where the
    /// player can walk to, else the number of the box kind where a box is
    /// seen, else 0.
    pub open spec fn mark_at(self, p: Position) -> u8 {
        if self.reachable(p) {
            1
        } else {
            self.seed_at(p)
        }
    }

    /// The canonical state: one byte for each cell, row by row.
    pub open spec fn marks(self) -> Seq<u8> {
        Seq::new(self.width * self.height, |i: int| self.mark_at(self.position_of(i)))
    }

    /// The hash of the canonical state.
    pub open spec fn state_hash(self) -> u64 {
        DefaultHasher::spec_finish(seq![self.marks()])
    }

    /// The boxes cover the goals and nothing else, whichever box stands on
    /// whichever goal.
    pub open spec fn resolved(self) -> bool {
        self.boxes.to_set() == self.goals.to_set()
    }

    /// Box `i` can be pulled in direction `d`: the two cells beyond it are
    /// open, and the player can walk to the nearer one.
    pub open spec fn can_pull(self, i: int, d: Direction) -> bool {
        &&& 0 <= i < self.boxes.len()
        &&& pull_targets(self.boxes[i], d) matches Some((box_to, player_to))
        &&& self.open(box_to)
        &&& self.open(player_to)
        &&& self.reachable(box_to)
    }

    /// The board after box `i` has been pulled in direction `d`.
    pub open spec fn pulled(self, i: int, d: Direction) -> Board {
        let (box_to, player_to) = pull_targets(self.boxes[i], d)->0;
        Board { boxes: self.boxes.update(i, box_to), player: Some(player_to), ..self }
    }

    /// The board after a pull of box `i` in direction `d` has been taken
    /// back: the player stands where the box stood, and the box one cell
    /// against `d`.
    pub open spec fn unpulled(self, i: int, d: Direction) -> Board {
        Board {
            boxes: self.boxes.update(i, step(self.boxes[i], d.opposite(), 1)->0),
            player: Some(self.boxes[i]),
            ..self
        }
    }

    /// The same board with the player on another cell.
    pub open spec fn with_player(self, p: Position) -> Board {
        Board { player: Some(p), ..self }
    }
}

} // verus!
