//! Grid positions and tile kinds.

use std::cmp::Ordering;
use vstd::prelude::*;

verus! {

/// A grid cell, `x` counting columns and `y` counting rows.
#[derive(PartialEq, Eq, Structural, PartialOrd, Ord, Hash, Clone, Copy, Debug)]
pub struct Position {
    pub x: usize,
    pub y: usize,
}

impl Position {
    pub fn new(x: usize, y: usize) -> (p: Position)
        ensures
            p.x == x,
            p.y == y,
    {
        Position { x, y }
    }
}

/// What a viewer sees on a cell. Only `Empty`, `Wall` and `Whole` are ever
/// stored as floor; the other four are composed from the floor and from the
/// presence of a box or of the player.
#[derive(PartialEq, Eq, Structural, PartialOrd, Clone, Copy, Hash, Debug)]
pub enum NodeType {
    Empty,
    Wall,
    Whole,
    Box,
    Player,
    BoxOnWhole,
    PlayerOnWhole,
}

impl NodeType {
    /// The number of the kind, which is also its digit in a level string.
    pub open spec fn rank(&self) -> nat {
        match *self {
            NodeType::Empty => 0,
            NodeType::Wall => 1,
            NodeType::Whole => 2,
            NodeType::Box => 3,
            NodeType::Player => 4,
            NodeType::BoxOnWhole => 5,
            NodeType::PlayerOnWhole => 6,
        }
    }

    pub open spec fn player_kind(&self) -> bool {
        *self == NodeType::Player || *self == NodeType::PlayerOnWhole
    }

    pub open spec fn box_kind(&self) -> bool {
        *self == NodeType::Box || *self == NodeType::BoxOnWhole
    }

    pub open spec fn whole_kind(&self) -> bool {
        *self == NodeType::Whole || *self == NodeType::BoxOnWhole || *self
            == NodeType::PlayerOnWhole
    }

    /// A player or a box may stand on, or cross, a cell of this kind.
    pub open spec fn passable(&self) -> bool {
        *self != NodeType::Wall && *self != NodeType::Box && *self != NodeType::BoxOnWhole
    }

    /// Only these three kinds are stored as floor.
    pub open spec fn floor_kind(&self) -> bool {
        *self == NodeType::Empty || *self == NodeType::Wall || *self == NodeType::Whole
    }

    /// What is left of a kind once the box or the player has been lifted off.
    pub open spec fn floor(&self) -> NodeType {
        match *self {
            NodeType::Empty | NodeType::Box | NodeType::Player => NodeType::Empty,
            NodeType::Wall => NodeType::Wall,
            NodeType::Whole | NodeType::BoxOnWhole | NodeType::PlayerOnWhole => NodeType::Whole,
        }
    }

    /// The kind that a digit stands for when a level is read as it is played.
    pub open spec fn of_digit(d: nat) -> Option<NodeType> {
        if d == 0 {
            Some(NodeType::Empty)
        } else if d == 1 {
            Some(NodeType::Wall)
        } else if d == 2 {
            Some(NodeType::Whole)
        } else if d == 3 {
            Some(NodeType::Box)
        } else if d == 4 {
            Some(NodeType::Player)
        } else if d == 5 {
            Some(NodeType::BoxOnWhole)
        } else if d == 6 {
            Some(NodeType::PlayerOnWhole)
        } else {
            None
        }
    }

    /// The kind that a digit stands for when boxes and goals change roles:
    /// a goal becomes a box, a box becomes a goal, and a player on a goal
    /// leaves a box behind.
    pub open spec fn of_digit_reversed(d: nat) -> Option<NodeType> {
        if d == 0 {
            Some(NodeType::Empty)
        } else if d == 1 {
            Some(NodeType::Wall)
        } else if d == 2 {
            Some(NodeType::Box)
        } else if d == 3 {
            Some(NodeType::Whole)
        } else if d == 4 {
            Some(NodeType::Player)
        } else if d == 5 {
            Some(NodeType::BoxOnWhole)
        } else if d == 6 {
            Some(NodeType::Box)
        } else {
            None
        }
    }

    pub fn is_player(&self) -> (r: bool)
        ensures
            r == self.player_kind(),
    {
        match self {
            NodeType::Player | NodeType::PlayerOnWhole => true,
            _ => false,
        }
    }

    pub fn is_box(&self) -> (r: bool)
        ensures
            r == self.box_kind(),
    {
        match self {
            NodeType::Box | NodeType::BoxOnWhole => true,
            _ => false,
        }
    }

    pub fn is_whole(&self) -> (r: bool)
        ensures
            r == self.whole_kind(),
    {
        match self {
            NodeType::Whole | NodeType::BoxOnWhole | NodeType::PlayerOnWhole => true,
            _ => false,
        }
    }

    pub fn can_move(&self) -> (r: bool)
        ensures
            r == self.passable(),
    {
        match self {
            NodeType::Wall | NodeType::Box | NodeType::BoxOnWhole => false,
            _ => true,
        }
    }

    /// The digit of the kind in a level string.
    pub fn digit(&self) -> (d: u8)
        ensures
            d == self.rank(),
    {
        match self {
            NodeType::Empty => 0,
            NodeType::Wall => 1,
            NodeType::Whole => 2,
            NodeType::Box => 3,
            NodeType::Player => 4,
            NodeType::BoxOnWhole => 5,
            NodeType::PlayerOnWhole => 6,
        }
    }

    /// The glyph of the kind in a rendering of the board.
    pub open spec fn glyph_of(&self) -> char {
        match *self {
            NodeType::Empty => ' ',
            NodeType::Wall => '#',
            NodeType::Whole => '.',
            NodeType::Box => '$',
            NodeType::Player => '@',
            NodeType::BoxOnWhole => '*',
            NodeType::PlayerOnWhole => '+',
        }
    }

    pub fn glyph(&self) -> (c: char)
        ensures
            c == self.glyph_of(),
    {
        match self {
            NodeType::Empty => ' ',
            NodeType::Wall => '#',
            NodeType::Whole => '.',
            NodeType::Box => '$',
            NodeType::Player => '@',
            NodeType::BoxOnWhole => '*',
            NodeType::PlayerOnWhole => '+',
        }
    }

    pub fn build(node_type: u32) -> (r: Result<NodeType, &'static str>)
        ensures
            r is Ok <==> node_type <= 6,
            r is Ok ==> Some(r->Ok_0) == NodeType::of_digit(node_type as nat),
            r is Err ==> r->Err_0@ == "No match for NodeType"@,
    {
        match node_type {
            0 => Ok(NodeType::Empty),
            1 => Ok(NodeType::Wall),
            2 => Ok(NodeType::Whole),
            3 => Ok(NodeType::Box),
            4 => Ok(NodeType::Player),
            5 => Ok(NodeType::BoxOnWhole),
            6 => Ok(NodeType::PlayerOnWhole),
            _ => Err("No match for NodeType"),
        }
    }

    pub fn reverse_build(node_type: u32) -> (r: Result<NodeType, &'static str>)
        ensures
            r is Ok <==> node_type <= 6,
            r is Ok ==> Some(r->Ok_0) == NodeType::of_digit_reversed(node_type as nat),
            r is Err ==> r->Err_0@ == "No match for NodeType"@,
    {
        match node_type {
            0 => Ok(NodeType::Empty),
            1 => Ok(NodeType::Wall),
            2 => Ok(NodeType::Box),
            3 => Ok(NodeType::Whole),
            4 => Ok(NodeType::Player),
            5 => Ok(NodeType::BoxOnWhole),
            6 => Ok(NodeType::Box),
            _ => Err("No match for NodeType"),
        }
    }
}

/// The neighbours of a cell in the order left, right, up, down; the left
/// and the upper one are left out where the coordinate is already zero.
pub open spec fn neighbours(p: Position) -> Seq<Position> {
    let left = if p.x > 0 {
        seq![Position { x: (p.x - 1) as usize, y: p.y }]
    } else {
        Seq::<Position>::empty()
    };
    let up = if p.y > 0 {
        seq![Position { x: p.x, y: (p.y - 1) as usize }]
    } else {
        Seq::<Position>::empty()
    };
    left + seq![Position { x: (p.x + 1) as usize, y: p.y }] + up + seq![
        Position { x: p.x, y: (p.y + 1) as usize },
    ]
}

/// A tile kind together with the cell it was seen on. Two nodes compare by
/// their kinds alone.
#[derive(Clone, Debug)]
pub struct Node {
    pub ntype: NodeType,
    pub position: Position,
}

impl Node {
    pub fn loop_positions(pos: &Position) -> (arr: Vec<Position>)
        requires
            pos.x < usize::MAX,
            pos.y < usize::MAX,
        ensures
            arr@ == neighbours(*pos),
    {
        let mut arr = Vec::new();
        if pos.x > 0 {
            arr.push(Position { x: pos.x - 1, y: pos.y });
        }
        arr.push(Position { x: pos.x + 1, y: pos.y });
        if pos.y > 0 {
            arr.push(Position { x: pos.x, y: pos.y - 1 });
        }
        arr.push(Position { x: pos.x, y: pos.y + 1 });
        assert(arr@ =~= neighbours(*pos));
        arr
    }
}

impl PartialEq for Node {
    fn eq(&self, other: &Self) -> (r: bool) {
        self.ntype == other.ntype
    }
}

impl Eq for Node {

}

impl vstd::std_specs::cmp::PartialEqSpecImpl for Node {
    open spec fn obeys_eq_spec() -> bool {
        true
    }

    open spec fn eq_spec(&self, other: &Self) -> bool {
        self.ntype == other.ntype
    }
}

impl PartialOrd for Node {
    fn partial_cmp(&self, other: &Self) -> (r: Option<Ordering>) {
        let a: u8 = self.ntype.digit();
        let b: u8 = other.ntype.digit();
        if a < b {
            Some(Ordering::Less)
        } else if a == b {
            Some(Ordering::Equal)
        } else {
            Some(Ordering::Greater)
        }
    }
}

impl vstd::std_specs::cmp::PartialOrdSpecImpl for Node {
    open spec fn obeys_partial_cmp_spec() -> bool {
        true
    }

    open spec fn partial_cmp_spec(&self, other: &Self) -> Option<Ordering> {
        if self.ntype.rank() < other.ntype.rank() {
            Some(Ordering::Less)
        } else if self.ntype.rank() == other.ntype.rank() {
            Some(Ordering::Equal)
        } else {
            Some(Ordering::Greater)
        }
    }
}

} // verus!
