//! The board as the search plays on it.

use crate::board::{adjacent, lemma_index_bound, pull_targets, step, Board};
use crate::level::{
    cell, cells_of, cols, decimal_value, decode, encode, last_player, lemma_cell_of_index,
    lemma_decode_settled, rows, tiles, valid_level,
};
use crate::node::{Node, NodeType, Position};
use crate::reach::{
    cell_mark, flood_closed, lemma_connects_open, lemma_connects_self, lemma_connects_step,
    lemma_contains_last, lemma_flood_complete, lemma_index_injective, lemma_mark_one, lemma_marks,
    lemma_neighbours, marked, unmarked,
};
use crate::text::{
    decimal_char, digit_text, glyph_text, pad2, push_pad2, rendered_row, rendering,
};
use std::collections::hash_map::DefaultHasher;
use std::hash::Hasher;
use vstd::prelude::*;

verus! {

/// The four directions, in the order in which the search tries them.
#[derive(PartialEq, Eq, Structural, Clone, Copy, Debug)]
pub enum Direction {
    Up,
    Down,
    Left,
    Right,
}

impl Direction {
    /// The direction that follows in the ring up, down, left, right, up.
    pub open spec fn successor(self) -> Direction {
        match self {
            Direction::Up => Direction::Down,
            Direction::Down => Direction::Left,
            Direction::Left => Direction::Right,
            Direction::Right => Direction::Up,
        }
    }

    /// The direction that undoes this one.
    pub open spec fn opposite(self) -> Direction {
        match self {
            Direction::Up => Direction::Down,
            Direction::Down => Direction::Up,
            Direction::Left => Direction::Right,
            Direction::Right => Direction::Left,
        }
    }

    /// The direction that the search tries after this one.
    pub fn next(&self) -> (d: Direction)
        ensures
            d == self.successor(),
    {
        match self {
            Direction::Up => Direction::Down,
            Direction::Down => Direction::Left,
            Direction::Left => Direction::Right,
            Direction::Right => Direction::Up,
        }
    }
}

/// A puzzle state. The floor is fixed once the board is built; the boxes
/// and the player move.
#[derive(Clone, PartialEq, Eq, Debug)]
pub struct Sokoban {
    pub width: usize,
    pub height: usize,
    /// The floor kind of each cell, row by row.
    pub map: Vec<NodeType>,
    /// One byte for each cell, as the last hash computation left them; stale
    /// once a box or the player has moved.
    pub player_reachable: Option<Vec<u8>>,
    pub player: Option<Position>,
    pub goals: Vec<Position>,
    pub boxes: Vec<Position>,
}

impl View for Sokoban {
    type V = Board;

    open spec fn view(&self) -> Board {
        Board {
            width: self.width as nat,
            height: self.height as nat,
            floor: self.map@,
            player: self.player,
            boxes: self.boxes@,
            goals: self.goals@,
        }
    }
}

/// Whether every cell of `small` occurs in `large`.
pub fn covers(large: &Vec<Position>, small: &Vec<Position>) -> (r: bool)
    ensures
        r == (forall|p: Position| small@.contains(p) ==> large@.contains(p)),
{
    let mut i: usize = 0;
    while i < small.len()
        invariant
            i <= small.len(),
            forall|j: int| 0 <= j < i ==> large@.contains(#[trigger] small@[j]),
        decreases small.len() - i,
    {
        if !holds(large, &small[i]) {
            assert(small@.contains(small@[i as int]));
            return false;
        }
        i += 1;
    }
    true
}

/// Whether `p` occurs in `v`.
pub fn holds(v: &Vec<Position>, p: &Position) -> (r: bool)
    ensures
        r == v@.contains(*p),
{
    let mut i: usize = 0;
    while i < v.len()
        invariant
            i <= v.len(),
            forall|j: int| 0 <= j < i ==> v@[j] != *p,
        decreases v.len() - i,
    {
        if v[i] == *p {
            return true;
        }
        i += 1;
    }
    false
}

impl Sokoban {
    /// The floor covers the grid and holds floor kinds only.
    pub open spec fn wf(&self) -> bool {
        self@.wf()
    }

    /// The canonical state that the last hash computation left behind.
    pub open spec fn cached_marks(&self) -> Option<Seq<u8>> {
        match self.player_reachable {
            Some(m) => Some(m@),
            None => None,
        }
    }

    /// The place of an inner cell in `map`.
    pub fn index(&self, p: &Position) -> (i: usize)
        requires
            self.wf(),
            self@.in_bounds(*p),
        ensures
            i == self@.index_of(*p),
            i < self.map.len(),
    {
        proof {
            lemma_index_bound(p.x as int, p.y as int, self.width as int, self.height as int);
            assert(self.map.len() == self.width * self.height);
        }
        p.y * self.width + p.x
    }

    /// What is seen on a cell: the floor, a box on it if there is one, and
    /// the player above both. Every cell outside the grid is a wall.
    pub fn get_ntype(&self, position: &Position) -> (k: NodeType)
        requires
            self.wf(),
        ensures
            k == self@.kind_at(*position),
    {
        if position.x >= self.width || position.y >= self.height {
            return NodeType::Wall;
        }
        let mut ntype = self.map[self.index(position)];
        if holds(&self.boxes, position) {
            if ntype == NodeType::Whole {
                ntype = NodeType::BoxOnWhole;
            } else {
                ntype = NodeType::Box;
            }
        }
        if self.player.is_some() && *position == self.player.unwrap() {
            if ntype == NodeType::Whole {
                ntype = NodeType::PlayerOnWhole;
            } else {
                ntype = NodeType::Player;
            }
        }
        ntype
    }

    /// Reads the two extents at the head of a level string, the height
    /// first, and hands back what follows them.
    fn parse_level(level: &str) -> (r: (usize, usize, &str))
        requires
            valid_level(level@),
        ensures
            r.0 == rows(level@),
            r.1 == cols(level@),
            r.0 <= 99,
            r.1 <= 99,
            r.2@ == level@.subrange(4, level@.len() as int),
            r.2.is_ascii(),
    {
        broadcast use vstd::string::is_ascii_spec_bytes;

        assert(level.is_ascii()) by {
            assert forall|i: int| 0 <= i < level@.len() implies '\0' <= #[trigger] level@[i]
                <= '\u{7f}' by {
                if i >= 4 {
                    assert('0' <= level@[i] && level@[i] <= '6');
                } else {
                    assert(decimal_value(level@[i]) is Some);
                }
            }
        }
        let bytes = level.as_bytes();
        assert(bytes@.len() == level@.len());
        assert(forall|i: int| 0 <= i < 4 ==> bytes@[i] == level@[i] as u8);
        assert(decimal_value(level@[0]) is Some && decimal_value(level@[1]) is Some
            && decimal_value(level@[2]) is Some && decimal_value(level@[3]) is Some);
        let height: usize = ((bytes[0] - 48) * 10 + (bytes[1] - 48)) as usize;
        let width: usize = ((bytes[2] - 48) * 10 + (bytes[3] - 48)) as usize;
        (height, width, level.substring_ascii(4, bytes.len()))
    }

    /// Builds the board that a level string describes, under the table of
    /// play or, with `reversed` set, under the one that lets boxes and goals
    /// change roles.
    fn build(reversed: bool, level: &str) -> (b: Sokoban)
        requires
            valid_level(level@),
        ensures
            b.wf(),
            b@ == decode(level@, reversed),
            b.player_reachable is None,
    {
        broadcast use vstd::string::is_ascii_spec_bytes;

        let (height, width, body) = Sokoban::parse_level(level);
        let cells = body.as_bytes();
        let ghost kinds = tiles(level@, reversed);
        assert(cells@.len() == height * width);
        assert(kinds.len() == height * width);
        assert(forall|i: int| 0 <= i < cells@.len() ==> cells@[i] == level@[4 + i] as u8);
        assert(forall|i: int|
            0 <= i < cells@.len() ==> '0' <= #[trigger] level@[4 + i] && level@[4 + i] <= '6');
        let mut map: Vec<NodeType> = Vec::new();
        let mut player: Option<Position> = None;
        let mut boxes: Vec<Position> = Vec::new();
        let mut goals: Vec<Position> = Vec::new();
        let mut y: usize = 0;
        while y < height
            invariant
                y <= height,
                height <= 99,
                width <= 99,
                kinds == tiles(level@, reversed),
                kinds.len() == height * width,
                cells@.len() == height * width,
                forall|i: int| 0 <= i < cells@.len() ==> cells@[i] == level@[4 + i] as u8,
                forall|i: int|
                    0 <= i < cells@.len() ==> '0' <= #[trigger] level@[4 + i] && level@[4 + i]
                        <= '6',
                map@.len() == y * width,
                forall|i: int| 0 <= i < map@.len() ==> map@[i] == kinds[i].floor(),
                player == last_player(kinds, width as nat, map@.len()),
                boxes@ == cells_of(kinds, width as nat, false, map@.len()),
                goals@ == cells_of(kinds, width as nat, true, map@.len()),
            decreases height - y,
        {
            let mut x: usize = 0;
            while x < width
                invariant
                    y < height,
                    x <= width,
                    height <= 99,
                    width <= 99,
                    kinds == tiles(level@, reversed),
                    kinds.len() == height * width,
                    cells@.len() == height * width,
                    forall|i: int| 0 <= i < cells@.len() ==> cells@[i] == level@[4 + i] as u8,
                    forall|i: int|
                        0 <= i < cells@.len() ==> '0' <= #[trigger] level@[4 + i] && level@[4
                            + i] <= '6',
                    map@.len() == y * width + x,
                    forall|i: int| 0 <= i < map@.len() ==> map@[i] == kinds[i].floor(),
                    player == last_player(kinds, width as nat, map@.len()),
                    boxes@ == cells_of(kinds, width as nat, false, map@.len()),
                    goals@ == cells_of(kinds, width as nat, true, map@.len()),
                decreases width - x,
            {
                let at: usize = map.len();
                proof {
                    lemma_index_bound(x as int, y as int, width as int, height as int);
                    lemma_cell_of_index(width as nat, x as int, y as int);
                    assert('0' <= level@[4 + at] && level@[4 + at] <= '6');
                }
                let digit: u32 = (cells[at] - 48) as u32;
                let built = if reversed {
                    NodeType::reverse_build(digit)
                } else {
                    NodeType::build(digit)
                };
                let mut node_type = built.unwrap();
                assert(node_type == kinds[at as int]);
                if node_type.is_player() {
                    player = Some(Position { x, y });
                    if node_type == NodeType::Player {
                        node_type = NodeType::Empty;
                    } else {
                        node_type = NodeType::Whole;
                    }
                }
                if node_type.is_box() {
                    boxes.push(Position { x, y });
                    if node_type == NodeType::Box {
                        node_type = NodeType::Empty;
                    } else {
                        node_type = NodeType::Whole;
                    }
                }
                if node_type.is_whole() {
                    goals.push(Position { x, y });
                }
                map.push(node_type);
                x += 1;
            }
            assert(y * width + width == (y + 1) * width) by (nonlinear_arith);
            y += 1;
        }
        assert(map@.len() == height * width) by (nonlinear_arith)
            requires
                map@.len() == y * width,
                y == height,
        ;
        let b = Sokoban { height, width, map, player_reachable: None, player, boxes, goals };
        proof {
            assert(b@.floor =~= decode(level@, reversed).floor);
            assert(width * height == height * width) by (nonlinear_arith);
            assert forall|i: int| 0 <= i < b@.floor.len() implies (
            #[trigger] b@.floor[i]).floor_kind() by {
                assert(b@.floor[i] == kinds[i].floor());
            }
        }
        b
    }

    /// The board that a level describes, as it is played.
    pub fn new(level: &String) -> (b: Sokoban)
        requires
            valid_level(level@),
        ensures
            b.wf(),
            b@ == decode(level@, false),
            b@.boxes_inside(),
            b@.player_settled(),
            b.player_reachable is None,
    {
        proof {
            lemma_decode_settled(level@, false);
        }
        Sokoban::build(false, level.as_str())
    }

    /// The board that a level describes with boxes and goals in each
    /// other's place: the boxes start where the goals are and have to be
    /// pulled to where the boxes were.
    pub fn new_reverse(level: &String) -> (b: Sokoban)
        requires
            valid_level(level@),
        ensures
            b.wf(),
            b@ == decode(level@, true),
            b@.boxes_inside(),
            b@.player_settled(),
            b.player_reachable is None,
    {
        proof {
            lemma_decode_settled(level@, true);
        }
        Sokoban::build(true, level.as_str())
    }

    /// The level string of the board as it stands.
    pub fn print_level(&self) -> (level: String)
        requires
            self.wf(),
        ensures
            level@ == encode(self@),
    {
        let mut level = String::new();
        push_pad2(&mut level, self.height);
        push_pad2(&mut level, self.width);
        let ghost head = level@;
        let ghost body = Seq::new(
            self@.width * self@.height,
            |i: int| decimal_char(self@.kind_at(cell(self@.width, i)).rank()),
        );
        assert(head =~= pad2(self@.height) + pad2(self@.width));
        let mut y: usize = 0;
        while y < self.height
            invariant
                self.wf(),
                y <= self.height,
                head == pad2(self@.height) + pad2(self@.width),
                body == Seq::new(
                    self@.width * self@.height,
                    |i: int| decimal_char(self@.kind_at(cell(self@.width, i)).rank()),
                ),
                level@ == head + body.take(y * self.width),
            decreases self.height - y,
        {
            let mut x: usize = 0;
            while x < self.width
                invariant
                    self.wf(),
                    y < self.height,
                    x <= self.width,
                    head == pad2(self@.height) + pad2(self@.width),
                    body == Seq::new(
                        self@.width * self@.height,
                        |i: int| decimal_char(self@.kind_at(cell(self@.width, i)).rank()),
                    ),
                    level@ == head + body.take(y * self.width + x),
                decreases self.width - x,
            {
                let ntype = self.get_ntype(&Position { x, y });
                level.append(digit_text(ntype.digit()));
                proof {
                    let at = y * self.width + x;
                    lemma_index_bound(x as int, y as int, self.width as int, self.height as int);
                    assert(self.map.len() == self.width * self.height);
                    lemma_cell_of_index(self.width as nat, x as int, y as int);
                    assert(body.take(at + 1) =~= body.take(at).push(body[at]));
                    assert(level@ =~= head + body.take(at + 1));
                }
                x += 1;
            }
            assert(y * self.width + self.width == (y + 1) * self.width) by (nonlinear_arith);
            y += 1;
        }
        proof {
            assert(y * self.width == self.width * self.height) by (nonlinear_arith)
                requires
                    y == self.height,
            ;
            assert(body.take(y * self.width) =~= body);
        }
        level
    }

    /// One byte for each cell, row by row: the number of the box kind where
    /// a box is seen, zero elsewhere.
    fn init_player_reachable(&self) -> (m: Vec<u8>)
        requires
            self.wf(),
        ensures
            m@.len() == self.width * self.height,
            forall|p: Position|
                self@.in_bounds(p) ==> #[trigger] cell_mark(self@, m@, p) == self@.seed_at(p),
    {
        let mut m: Vec<u8> = Vec::new();
        let mut y: usize = 0;
        while y < self.height
            invariant
                self.wf(),
                y <= self.height,
                m@.len() == y * self.width,
                forall|i: int|
                    0 <= i < m@.len() ==> m@[i] == self@.seed_at(cell(self@.width, i)),
            decreases self.height - y,
        {
            let mut x: usize = 0;
            while x < self.width
                invariant
                    self.wf(),
                    y < self.height,
                    x <= self.width,
                    m@.len() == y * self.width + x,
                    forall|i: int|
                        0 <= i < m@.len() ==> m@[i] == self@.seed_at(cell(self@.width, i)),
                decreases self.width - x,
            {
                proof {
                    lemma_index_bound(x as int, y as int, self.width as int, self.height as int);
                    assert(self.map.len() == self.width * self.height);
                    lemma_cell_of_index(self.width as nat, x as int, y as int);
                }
                let ntype = self.get_ntype(&Position { x, y });
                if ntype.is_box() {
                    m.push(ntype.digit());
                } else {
                    m.push(0);
                }
                x += 1;
            }
            assert(y * self.width + self.width == (y + 1) * self.width) by (nonlinear_arith);
            y += 1;
        }
        proof {
            assert(y * self.width == self.width * self.height) by (nonlinear_arith)
                requires
                    y == self.height,
            ;
            assert forall|p: Position| self@.in_bounds(p) implies #[trigger] cell_mark(
                self@,
                m@,
                p,
            ) == self@.seed_at(p) by {
                lemma_index_bound(p.x as int, p.y as int, self.width as int, self.height as int);
                assert(self.map.len() == self.width * self.height);
                lemma_cell_of_index(self.width as nat, p.x as int, p.y as int);
            }
        }
        m
    }

    /// Marks with 1 every cell that a walk from `current` leads to. The
    /// walk crosses open cells only, so the bytes of the boxes stay as they
    /// are.
    fn build_player_reachable(&self, current: &Position, reachable: &mut Vec<u8>)
        requires
            self.wf(),
            old(reachable)@.len() == self.width * self.height,
            forall|p: Position|
                self@.in_bounds(p) ==> #[trigger] cell_mark(self@, old(reachable)@, p)
                    == self@.seed_at(p),
        ensures
            final(reachable)@.len() == self.width * self.height,
            forall|p: Position|
                self@.in_bounds(p) ==> #[trigger] cell_mark(self@, final(reachable)@, p) == (
                if self@.connects(*current, p) {
                    1u8
                } else {
                    self@.seed_at(p)
                }),
    {
        let ghost b = self@;
        let mut stack: Vec<Position> = Vec::new();
        stack.push(*current);
        assert(stack@[0] == *current);
        proof {
            if b.open(*current) {
                lemma_connects_self(b, *current);
            }
        }
        while stack.len() > 0
            invariant
                self.wf(),
                b == self@,
                reachable@.len() == self.width * self.height,
                forall|p: Position|
                    b.in_bounds(p) && #[trigger] cell_mark(b, reachable@, p) == 1 ==> b.connects(
                        *current,
                        p,
                    ),
                forall|p: Position|
                    b.in_bounds(p) && #[trigger] cell_mark(b, reachable@, p) != 1 ==> cell_mark(
                        b,
                        reachable@,
                        p,
                    ) == b.seed_at(p),
                forall|j: int|
                    0 <= j < stack@.len() && b.open(#[trigger] stack@[j]) ==> b.connects(
                        *current,
                        stack@[j],
                    ),
                forall|p: Position, q: Position|
                    #[trigger] marked(b, reachable@, p) && #[trigger] adjacent(p, q) && b.open(q)
                        ==> marked(b, reachable@, q) || stack@.contains(q),
                b.open(*current) ==> marked(b, reachable@, *current) || stack@.contains(*current),
            decreases unmarked(reachable@), stack@.len(),
        {
            let ghost before = stack@;
            let ghost m0 = reachable@;
            let cur = stack.pop().unwrap();
            let ghost rest = stack@;
            assert(rest =~= before.drop_last());
            assert(cur == before.last());
            let ghost mut grew = false;
            if cur.x < self.width && cur.y < self.height {
                let at = self.index(&cur);
                assert(self.map.len() == self.width * self.height);
                if reachable[at] != 1 && self.get_ntype(&cur).can_move() {
                    reachable.set(at, 1);
                    let mut around = Node::loop_positions(&cur);
                    let ghost ring = around@;
                    stack.append(&mut around);
                    proof {
                        let m1 = reachable@;
                        grew = true;
                        lemma_mark_one(m0, at as int);
                        assert(b.open(cur));
                        assert(b.connects(*current, cur));
                        assert forall|p: Position| b.in_bounds(p) implies #[trigger] cell_mark(
                            b,
                            m1,
                            p,
                        ) == (if p == cur {
                            1u8
                        } else {
                            cell_mark(b, m0, p)
                        }) by {
                            lemma_index_bound(
                                p.x as int,
                                p.y as int,
                                self.width as int,
                                self.height as int,
                            );
                            if b.index_of(p) == b.index_of(cur) {
                                lemma_index_injective(b, p, cur);
                            }
                        }
                        assert forall|j: int|
                            0 <= j < stack@.len() && b.open(
                                #[trigger] stack@[j],
                            ) implies b.connects(*current, stack@[j]) by {
                            if j < rest.len() {
                                assert(stack@[j] == before[j]);
                            } else {
                                let n = ring[j - rest.len()];
                                assert(stack@[j] == n);
                                assert(ring.contains(n));
                                lemma_neighbours(cur, n);
                                lemma_connects_step(b, *current, cur, n);
                            }
                        }
                        assert forall|p: Position, q: Position|
                            #[trigger] marked(b, m1, p) && #[trigger] adjacent(p, q) && b.open(
                                q,
                            ) implies marked(b, m1, q) || stack@.contains(q) by {
                            if p == cur {
                                lemma_neighbours(cur, q);
                                let k = choose|k: int| 0 <= k < ring.len() && ring[k] == q;
                                assert(stack@[rest.len() + k] == q);
                            } else {
                                assert(marked(b, m0, p));
                                if marked(b, m0, q) {
                                    assert(marked(b, m1, q));
                                } else {
                                    assert(before.contains(q));
                                    lemma_contains_last(before, q);
                                    if q != cur {
                                        let k = choose|k: int| 0 <= k < rest.len() && rest[k] == q;
                                        assert(stack@[k] == q);
                                    }
                                }
                            }
                        }
                        if b.open(*current) && !marked(b, m1, *current) {
                            assert(!marked(b, m0, *current));
                            lemma_contains_last(before, *current);
                            let k = choose|k: int| 0 <= k < rest.len() && rest[k] == *current;
                            assert(stack@[k] == *current);
                        }
                    }
                }
            }
            proof {
                if !grew {
                    assert(reachable@ == m0);
                    assert(stack@ == rest);
                    assert(!b.open(cur) || marked(b, m0, cur));
                    assert forall|p: Position, q: Position|
                        #[trigger] marked(b, m0, p) && #[trigger] adjacent(p, q) && b.open(
                            q,
                        ) implies marked(b, m0, q) || rest.contains(q) by {
                        if !marked(b, m0, q) {
                            lemma_contains_last(before, q);
                        }
                    }
                    if b.open(*current) && !marked(b, m0, *current) {
                        lemma_contains_last(before, *current);
                    }
                    assert forall|j: int|
                        0 <= j < rest.len() && b.open(#[trigger] rest[j]) implies b.connects(
                        *current,
                        rest[j],
                    ) by {
                        assert(rest[j] == before[j]);
                    }
                }
            }
        }
        proof {
            let m = reachable@;
            assert(flood_closed(b, m)) by {
                assert forall|p: Position, q: Position|
                    #[trigger] marked(b, m, p) && #[trigger] adjacent(p, q) && b.open(
                        q,
                    ) implies marked(b, m, q) by {
                    assert(!stack@.contains(q));
                }
            }
            assert forall|p: Position| b.in_bounds(p) implies #[trigger] cell_mark(b, m, p) == (
            if b.connects(*current, p) {
                1u8
            } else {
                b.seed_at(p)
            }) by {
                if b.connects(*current, p) {
                    lemma_connects_open(b, *current, p);
                    assert(!stack@.contains(*current));
                    lemma_flood_complete(b, m, *current, p);
                }
            }
        }
    }

    /// The hash of the canonical state: of the cells that hold a box and of
    /// the cells that the player can walk to, wherever in that region the
    /// player stands. The matrix that was hashed is left in the cache.
    pub fn get_hash(&mut self) -> (h: u64)
        requires
            old(self).wf(),
        ensures
            final(self).wf(),
            final(self)@ == old(self)@,
            h == old(self)@.state_hash(),
            final(self).cached_marks() == Some(old(self)@.marks()),
    {
        let mut player_reachable = self.init_player_reachable();
        match self.player {
            Some(player) => {
                self.build_player_reachable(&player, &mut player_reachable);
            },
            None => {},
        }
        proof {
            assert(self.map.len() == self.width * self.height);
            lemma_marks(self@, player_reachable@);
        }
        let mut hasher = DefaultHasher::new();
        hasher.write(player_reachable.as_slice());
        assert(hasher@ =~= seq![player_reachable@]);
        let h = hasher.finish();
        self.player_reachable = Some(player_reachable);
        h
    }

    /// Whether the player can walk to `position` without moving a box.
    /// Computes the canonical state anew and leaves it in the cache.
    pub fn can_reach(&mut self, position: &Position) -> (r: bool)
        requires
            old(self).wf(),
        ensures
            final(self).wf(),
            final(self)@ == old(self)@,
            r == old(self)@.reachable(*position),
            final(self).cached_marks() == Some(old(self)@.marks()),
    {
        self.get_hash();
        if position.x >= self.width || position.y >= self.height {
            proof {
                if self@.reachable(*position) {
                    lemma_connects_open(self@, self@.player->0, *position);
                }
            }
            return false;
        }
        let at = self.index(position);
        proof {
            assert(self.map.len() == self.width * self.height);
            lemma_cell_of_index(self.width as nat, position.x as int, position.y as int);
            assert(self@.position_of(at as int) == *position);
        }
        match &self.player_reachable {
            Some(m) => m[at] == 1,
            None => false,
        }
    }

    /// Whether the boxes cover exactly the goals.
    pub fn is_resolved(&mut self) -> (r: bool)
        ensures
            *final(self) == *old(self),
            r == old(self)@.resolved(),
    {
        let r = covers(&self.goals, &self.boxes) && covers(&self.boxes, &self.goals);
        proof {
            let boxes = self.boxes@.to_set();
            let goals = self.goals@.to_set();
            if r {
                assert(boxes =~= goals);
            } else {
                let p = choose|p: Position|
                    (self.boxes@.contains(p) && !self.goals@.contains(p)) || (self.goals@.contains(
                        p,
                    ) && !self.boxes@.contains(p));
                assert(boxes.contains(p) != goals.contains(p));
            }
        }
        r
    }

    /// Where a pull in `direction` would take a box that stands on
    /// `position`, and where it would take the player. The board is not
    /// touched.
    pub fn get_future_position(&self, position: &Position, direction: &Direction) -> (r: Option<
        (Position, Position),
    >)
        ensures
            r == pull_targets(*position, *direction),
    {
        match direction {
            Direction::Up => {
                if position.y < 2 {
                    None
                } else {
                    Some(
                        (
                            Position { x: position.x, y: position.y - 1 },
                            Position { x: position.x, y: position.y - 2 },
                        ),
                    )
                }
            },
            Direction::Down => {
                if position.y > usize::MAX - 2 {
                    None
                } else {
                    Some(
                        (
                            Position { x: position.x, y: position.y + 1 },
                            Position { x: position.x, y: position.y + 2 },
                        ),
                    )
                }
            },
            Direction::Left => {
                if position.x < 2 {
                    None
                } else {
                    Some(
                        (
                            Position { x: position.x - 1, y: position.y },
                            Position { x: position.x - 2, y: position.y },
                        ),
                    )
                }
            },
            Direction::Right => {
                if position.x > usize::MAX - 2 {
                    None
                } else {
                    Some(
                        (
                            Position { x: position.x + 1, y: position.y },
                            Position { x: position.x + 2, y: position.y },
                        ),
                    )
                }
            },
        }
    }

    /// Pulls box `box_index` one cell in `direction`; the player ends one
    /// cell further. The pull happens only where both cells are open and
    /// the player can walk to the nearer one; else the board stays as it is.
    pub fn move_box(&mut self, box_index: usize, direction: &Direction) -> (moved: bool)
        requires
            old(self).wf(),
            box_index < old(self).boxes.len(),
        ensures
            final(self).wf(),
            moved == old(self)@.can_pull(box_index as int, *direction),
            moved ==> final(self)@ == old(self)@.pulled(box_index as int, *direction),
            moved ==> step(final(self).boxes[box_index as int], direction.opposite(), 1) is Some,
            !moved ==> final(self)@ == old(self)@,
    {
        let targets = self.get_future_position(&self.boxes[box_index], direction);
        let (box_position, player_position) = match targets {
            Some(t) => t,
            None => {
                return false;
            },
        };
        let box_future = self.get_ntype(&box_position);
        let player_future = self.get_ntype(&player_position);
        if box_future.can_move() && player_future.can_move() && self.can_reach(&box_position) {
            self.boxes.set(box_index, box_position);
            self.player = Some(player_position);
            return true;
        }
        false
    }

    /// Takes a pull back: the player steps onto the cell of the box, and
    /// the box goes one cell against `direction`.
    pub fn undo_move_box(&mut self, box_index: usize, direction: &Direction)
        requires
            old(self).wf(),
            box_index < old(self).boxes.len(),
            step(old(self).boxes[box_index as int], direction.opposite(), 1) is Some,
        ensures
            final(self).wf(),
            final(self)@ == old(self)@.unpulled(box_index as int, *direction),
    {
        let mut box_position = self.boxes[box_index];
        self.player = Some(box_position);
        match direction {
            Direction::Up => {
                box_position.y += 1;
            },
            Direction::Down => {
                box_position.y -= 1;
            },
            Direction::Left => {
                box_position.x += 1;
            },
            Direction::Right => {
                box_position.x -= 1;
            },
        };
        self.boxes.set(box_index, box_position);
    }

    /// The board as text: for each row a line break, the last digit of the
    /// row's number, and then the glyph of each cell followed by a blank.
    pub fn render(&self) -> (text: String)
        requires
            self.wf(),
        ensures
            text@ == rendering(self@, self@.height),
    {
        let mut text = String::new();
        assert(text@ =~= rendering(self@, 0));
        let mut y: usize = 0;
        while y < self.height
            invariant
                self.wf(),
                y <= self.height,
                text@ == rendering(self@, y as nat),
            decreases self.height - y,
        {
            let ghost above = text@;
            text.append("\n");
            text.append(digit_text((y % 10) as u8));
            proof {
                reveal_strlit("\n");
                assert(text@ =~= above + rendered_row(self@, y as nat, 0));
            }
            let mut x: usize = 0;
            while x < self.width
                invariant
                    self.wf(),
                    y < self.height,
                    x <= self.width,
                    text@ == above + rendered_row(self@, y as nat, x as nat),
                decreases self.width - x,
            {
                let ntype = self.get_ntype(&Position { x, y });
                text.append(glyph_text(ntype));
                text.append(" ");
                proof {
                    reveal_strlit(" ");
                    assert(text@ =~= above + rendered_row(self@, y as nat, (x + 1) as nat));
                }
                x += 1;
            }
            y += 1;
        }
        text
    }
}

} // verus!
