//! The level string: two decimal digits for the height, two for the width,
//! then one digit for each cell, row by row.

use crate::board::Board;
use crate::node::{NodeType, Position};
use crate::text::{decimal_char, pad2};
use vstd::prelude::*;

verus! {

/// The value of a decimal digit.
pub open spec fn decimal_value(c: char) -> Option<nat> {
    if '0' <= c && c <= '9' {
        Some((c as u8 - 48) as nat)
    } else {
        None
    }
}

/// The number that the two digits at `at` and `at + 1` spell.
pub open spec fn field(s: Seq<char>, at: int) -> nat {
    10 * decimal_value(s[at])->0 + decimal_value(s[at + 1])->0
}

/// The height that a level string states.
pub open spec fn rows(s: Seq<char>) -> nat {
    field(s, 0)
}

/// The width that a level string states.
pub open spec fn cols(s: Seq<char>) -> nat {
    field(s, 2)
}

/// A level string is four decimal digits and then exactly one digit from
/// zero to six for each cell.
pub open spec fn valid_level(s: Seq<char>) -> bool {
    &&& s.len() >= 4
    &&& forall|i: int| 0 <= i < 4 ==> decimal_value(#[trigger] s[i]) is Some
    &&& s.len() == 4 + rows(s) * cols(s)
    &&& forall|i: int| 4 <= i < s.len() ==> '0' <= #[trigger] s[i] && s[i] <= '6'
}

/// What a cell's digit stands for, under the table of play or under the
/// table that lets boxes and goals change roles.
pub open spec fn tile_of(c: char, reversed: bool) -> NodeType {
    let d = decimal_value(c);
    let k = if d is Some {
        if reversed {
            NodeType::of_digit_reversed(d->0)
        } else {
            NodeType::of_digit(d->0)
        }
    } else {
        None
    };
    match k {
        Some(k) => k,
        None => NodeType::Wall,
    }
}

/// The kinds that a level's cells spell, row by row.
pub open spec fn tiles(s: Seq<char>, reversed: bool) -> Seq<NodeType> {
    Seq::new((s.len() - 4) as nat, |i: int| tile_of(s[4 + i], reversed))
}

/// The cell at place `i` of a grid of the given width, read row by row.
pub open spec fn cell(width: nat, i: int) -> Position {
    Position { x: (i % (width as int)) as usize, y: (i / (width as int)) as usize }
}

/// Whether a cell of kind `k` counts: as a goal where `goals` is set, as a
/// box where it is not.
pub open spec fn picked(k: NodeType, goals: bool) -> bool {
    (goals && k.whole_kind()) || (!goals && k.box_kind())
}

/// The cells among the first `n` that hold a box (or, with `goals` set, that
/// are a goal), in the order of reading.
pub open spec fn cells_of(kinds: Seq<NodeType>, width: nat, goals: bool, n: nat) -> Seq<Position>
    decreases n,
{
    if n == 0 {
        Seq::empty()
    } else {
        let rest = cells_of(kinds, width, goals, (n - 1) as nat);
        if picked(kinds[n - 1], goals) {
            rest.push(cell(width, n - 1))
        } else {
            rest
        }
    }
}

/// The last cell among the first `n` that shows the player.
pub open spec fn last_player(kinds: Seq<NodeType>, width: nat, n: nat) -> Option<Position>
    decreases n,
{
    if n == 0 {
        None
    } else if kinds[n - 1].player_kind() {
        Some(cell(width, n - 1))
    } else {
        last_player(kinds, width, (n - 1) as nat)
    }
}

/// The board that a level string describes. Boxes and the player are
/// lifted off the floor; where the string shows the player twice, the last
/// one counts.
pub open spec fn decode(s: Seq<char>, reversed: bool) -> Board {
    let kinds = tiles(s, reversed);
    Board {
        width: cols(s),
        height: rows(s),
        floor: Seq::new(kinds.len(), |i: int| kinds[i].floor()),
        player: last_player(kinds, cols(s), kinds.len()),
        boxes: cells_of(kinds, cols(s), false, kinds.len()),
        goals: cells_of(kinds, cols(s), true, kinds.len()),
    }
}

/// The level string of a board: both extents, then the digit of what is
/// seen on each cell, row by row.
pub open spec fn encode(b: Board) -> Seq<char> {
    pad2(b.height) + pad2(b.width) + Seq::new(
        b.width * b.height,
        |i: int| decimal_char(b.kind_at(cell(b.width, i)).rank()),
    )
}

/// The string shows the player on one cell at most.
pub open spec fn single_player(s: Seq<char>) -> bool {
    forall|i: int, j: int|
        4 <= i < s.len() && 4 <= j < s.len() && (#[trigger] tile_of(s[i], false)).player_kind()
            && (#[trigger] tile_of(s[j], false)).player_kind() ==> i == j
}

/// A cell of a grid is the cell at its own place.
pub proof fn lemma_cell_of_index(width: nat, x: int, y: int)
    requires
        0 <= x < width,
        0 <= y,
        y * width + x <= usize::MAX,
    ensures
        cell(width, y * width + x) == (Position { x: x as usize, y: y as usize }),
{
    vstd::arithmetic::div_mod::lemma_fundamental_div_mod_converse(
        y * width + x,
        width as int,
        y,
        x,
    );
    assert(y <= y * width + x) by (nonlinear_arith)
        requires
            0 <= x,
            0 <= y,
            0 < width,
    ;
}

/// The place `i` of a grid holds a cell of the grid, and that cell's place
/// is `i`.
pub proof fn lemma_index_of_cell(width: nat, height: nat, i: int)
    requires
        0 <= i < width * height,
        width * height <= usize::MAX,
    ensures
        cell(width, i).x < width,
        cell(width, i).y < height,
        cell(width, i).y * width + cell(width, i).x == i,
{
    let w = width as int;
    assert(w > 0) by (nonlinear_arith)
        requires
            0 <= i < w * height,
            w >= 0,
    ;
    vstd::arithmetic::div_mod::lemma_fundamental_div_mod(i, w);
    vstd::arithmetic::div_mod::lemma_mod_bound(i, w);
    let q = i / w;
    let r = i % w;
    assert(i == w * q + r);
    assert(0 <= q < height) by (nonlinear_arith)
        requires
            0 <= i < w * height,
            i == w * q + r,
            0 <= r < w,
    ;
    assert(q * w == w * q) by (nonlinear_arith);
}

/// Two places of a grid that hold the same cell are the same place.
pub proof fn lemma_cell_injective(width: nat, height: nat, i: int, j: int)
    requires
        0 <= i < width * height,
        0 <= j < width * height,
        width * height <= usize::MAX,
        cell(width, i) == cell(width, j),
    ensures
        i == j,
{
    lemma_index_of_cell(width, height, i);
    lemma_index_of_cell(width, height, j);
}

/// A cell is among the picked ones where one of the places read holds it
/// and shows the kind asked for.
pub proof fn lemma_cells_of(kinds: Seq<NodeType>, width: nat, goals: bool, n: nat, p: Position)
    ensures
        cells_of(kinds, width, goals, n).contains(p) <==> exists|i: int|
            0 <= i < n && picked(kinds[i], goals) && #[trigger] cell(width, i) == p,
    decreases n,
{
    if n > 0 {
        let rest = cells_of(kinds, width, goals, (n - 1) as nat);
        let all = cells_of(kinds, width, goals, n);
        lemma_cells_of(kinds, width, goals, (n - 1) as nat, p);
        if picked(kinds[n - 1], goals) {
            assert(all == rest.push(cell(width, n - 1)));
            if all.contains(p) {
                let k = choose|k: int| 0 <= k < all.len() && all[k] == p;
                if k < rest.len() {
                    assert(rest[k] == p);
                } else {
                    assert(cell(width, n - 1) == p);
                }
            }
            if rest.contains(p) {
                let k = choose|k: int| 0 <= k < rest.len() && rest[k] == p;
                assert(all[k] == p);
            }
            if cell(width, n - 1) == p {
                assert(all[rest.len() as int] == p);
            }
        }
    }
}

/// Where the player is seen, `last_player` names the last such place; where
/// the player is not seen, it names none.
pub proof fn lemma_last_player(kinds: Seq<NodeType>, width: nat, n: nat)
    ensures
        match last_player(kinds, width, n) {
            Some(p) => exists|i: int|
                0 <= i < n && kinds[i].player_kind() && #[trigger] cell(width, i) == p,
            None => forall|i: int| 0 <= i < n ==> !(#[trigger] kinds[i]).player_kind(),
        },
    decreases n,
{
    if n > 0 {
        if kinds[n - 1].player_kind() {
            assert(cell(width, n - 1) == last_player(kinds, width, n)->0);
        } else {
            lemma_last_player(kinds, width, (n - 1) as nat);
        }
    }
}

/// The board of a level is well formed: its floor covers the grid, the
/// boxes stand inside the grid, and the player, if the level shows one,
/// stands on a cell that is no wall and holds no box.
pub proof fn lemma_decode_settled(s: Seq<char>, reversed: bool)
    requires
        valid_level(s),
    ensures
        decode(s, reversed).wf(),
        decode(s, reversed).boxes_inside(),
        decode(s, reversed).player_settled(),
{
    let b = decode(s, reversed);
    let kinds = tiles(s, reversed);
    let w = cols(s);
    let h = rows(s);
    assert(w * h == h * w) by (nonlinear_arith);
    assert(w * h <= 99 * 99) by (nonlinear_arith)
        requires
            w <= 99,
            h <= 99,
    ;
    assert forall|k: int| 0 <= k < b.boxes.len() implies b.in_bounds(#[trigger] b.boxes[k]) by {
        let p = b.boxes[k];
        assert(b.boxes.contains(p));
        lemma_cells_of(kinds, w, false, kinds.len(), p);
        let i = choose|i: int|
            0 <= i < kinds.len() && picked(kinds[i], false) && #[trigger] cell(w, i) == p;
        lemma_index_of_cell(w, h, i);
    }
    if b.player is Some {
        let p = b.player->0;
        lemma_last_player(kinds, w, kinds.len());
        let i = choose|i: int|
            0 <= i < kinds.len() && kinds[i].player_kind() && #[trigger] cell(w, i) == p;
        lemma_index_of_cell(w, h, i);
        assert(b.floor[i] == kinds[i].floor());
        if b.has_box(p) {
            lemma_cells_of(kinds, w, false, kinds.len(), p);
            let j = choose|j: int|
                0 <= j < kinds.len() && picked(kinds[j], false) && #[trigger] cell(w, j) == p;
            lemma_cell_injective(w, h, i, j);
        }
    }
}

/// Reading a level with boxes and goals in each other's place puts the
/// goals where the level, read as it is played, has its boxes.
pub proof fn lemma_reversed_goals(s: Seq<char>, n: nat)
    requires
        valid_level(s),
        n <= s.len() - 4,
    ensures
        cells_of(tiles(s, true), cols(s), true, n) == cells_of(tiles(s, false), cols(s), false, n),
    decreases n,
{
    if n > 0 {
        lemma_reversed_goals(s, (n - 1) as nat);
        assert('0' <= s[4 + (n - 1)] && s[4 + (n - 1)] <= '6');
    }
}

/// The value of the digit in byte `b`, if it is one.
fn byte_digit(b: u8) -> (d: Option<u8>)
    ensures
        d is Some <==> 48 <= b <= 57,
        d is Some ==> d->0 == b - 48,
{
    if 48 <= b && b <= 57 {
        Some(b - 48)
    } else {
        None
    }
}

/// Whether a string is a level: four decimal digits, then one digit from
/// zero to six for each cell and nothing after them.
pub fn is_valid_level(level: &str) -> (ok: bool)
    ensures
        ok == valid_level(level@),
{
    broadcast use vstd::string::is_ascii_spec_bytes;

    if !level.is_ascii() {
        return false;
    }
    let bytes = level.as_bytes();
    let n = bytes.len();
    assert(n == level@.len());
    assert(forall|i: int| 0 <= i < n ==> bytes@[i] == level@[i] as u8);
    if n < 4 {
        return false;
    }
    let d0 = byte_digit(bytes[0]);
    let d1 = byte_digit(bytes[1]);
    let d2 = byte_digit(bytes[2]);
    let d3 = byte_digit(bytes[3]);
    if d0.is_none() || d1.is_none() || d2.is_none() || d3.is_none() {
        assert(level@[0] == level@[0] && level@[1] == level@[1] && level@[2] == level@[2]
            && level@[3] == level@[3]);
        return false;
    }
    let height: usize = (d0.unwrap() * 10 + d1.unwrap()) as usize;
    let width: usize = (d2.unwrap() * 10 + d3.unwrap()) as usize;
    assert(height == rows(level@));
    assert(width == cols(level@));
    assert(height * width <= 99 * 99) by (nonlinear_arith)
        requires
            height <= 99,
            width <= 99,
    ;
    if n - 4 != height * width {
        return false;
    }
    let mut i: usize = 4;
    while i < n
        invariant
            4 <= i <= n,
            n == level@.len(),
            n == bytes@.len(),
            forall|j: int| 0 <= j < n ==> bytes@[j] == level@[j] as u8,
            forall|j: int| 0 <= j < n ==> '\0' <= #[trigger] level@[j] <= '\u{7f}',
            forall|j: int| 4 <= j < i ==> '0' <= #[trigger] level@[j] && level@[j] <= '6',
        decreases n - i,
    {
        let b = bytes[i];
        if b < 48 || b > 54 {
            assert(!('0' <= level@[i as int] && level@[i as int] <= '6'));
            return false;
        }
        i += 1;
    }
    true
}

} // verus!
