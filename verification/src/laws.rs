//! What holds of every board: the laws that tie the level string, the
//! canonical state and the pull together.

use crate::board::{box_target, step, Board};
use crate::level::{
    cell, cols, decimal_value, decode, encode, lemma_cell_injective, lemma_cells_of,
    lemma_index_of_cell, lemma_last_player, picked, rows, single_player, tile_of, tiles,
    valid_level,
};
use crate::node::Position;
use crate::reach::{lemma_connects_open, lemma_same_region};
use crate::sokoban::Direction;
use crate::text::{decimal, decimal_char, pad2};
use vstd::prelude::*;

verus! {

/// A level string that shows the player on one cell at most is read and
/// written back unchanged, character for character.
pub proof fn lemma_round_trip(s: Seq<char>)
    requires
        valid_level(s),
        single_player(s),
    ensures
        encode(decode(s, false)) == s,
{
    let b = decode(s, false);
    let kinds = tiles(s, false);
    let w = cols(s);
    let h = rows(s);
    assert(w * h == h * w) by (nonlinear_arith);
    assert(w * h <= 99 * 99) by (nonlinear_arith)
        requires
            w <= 99,
            h <= 99,
    ;
    lemma_two_digits(s, 0);
    lemma_two_digits(s, 2);
    let body = Seq::new(w * h, |i: int| decimal_char(b.kind_at(cell(w, i)).rank()));
    assert forall|i: int| 0 <= i < w * h implies body[i] == s[4 + i] by {
        let p = cell(w, i);
        lemma_index_of_cell(w, h, i);
        assert('0' <= s[4 + i] && s[4 + i] <= '6');
        assert(kinds[i] == tile_of(s[4 + i], false));
        assert(b.floor[i] == kinds[i].floor());
        assert(b.has_box(p) == kinds[i].box_kind()) by {
            lemma_cells_of(kinds, w, false, kinds.len(), p);
            if b.has_box(p) {
                let j = choose|j: int|
                    0 <= j < kinds.len() && picked(kinds[j], false) && #[trigger] cell(w, j) == p;
                lemma_cell_injective(w, h, i, j);
            }
        }
        assert((b.player == Some(p)) == kinds[i].player_kind()) by {
            lemma_last_player(kinds, w, kinds.len());
            if b.player is Some {
                let q = b.player->0;
                let j = choose|j: int|
                    0 <= j < kinds.len() && kinds[j].player_kind() && #[trigger] cell(w, j) == q;
                assert(tile_of(s[4 + j], false).player_kind());
                if kinds[i].player_kind() {
                    assert(tile_of(s[4 + i], false).player_kind());
                    assert(4 + i == 4 + j);
                }
                if q == p {
                    lemma_cell_injective(w, h, i, j);
                }
            }
        }
        assert(b.kind_at(p) == kinds[i]);
    }
    assert(encode(b) =~= s);
}

/// Two decimal digits spell their number in two digits.
proof fn lemma_two_digits(s: Seq<char>, at: int)
    requires
        0 <= at,
        at + 1 < s.len(),
        decimal_value(s[at]) is Some,
        decimal_value(s[at + 1]) is Some,
    ensures
        pad2(10 * decimal_value(s[at])->0 + decimal_value(s[at + 1])->0) == seq![s[at], s[at + 1]],
{
    let hi = decimal_value(s[at])->0;
    let lo = decimal_value(s[at + 1])->0;
    let n = 10 * hi + lo;
    if n >= 10 {
        assert(n / 10 == hi && n % 10 == lo);
        assert(decimal(hi) == seq![decimal_char(hi)]);
        assert(decimal(n) == decimal(hi).push(decimal_char(lo)));
    }
    assert(pad2(n) =~= seq![s[at], s[at + 1]]);
}

/// Two boards that differ only in where the player stands, the one cell
/// within the other's reach, have the same canonical state, and so the
/// same hash.
pub proof fn lemma_hash_ignores_player_cell(a: Board, b: Board)
    requires
        a.wf(),
        a.player_settled(),
        b.player_settled(),
        b.player is Some,
        b == a.with_player(b.player->0),
        a.reachable(b.player->0),
    ensures
        a.marks() == b.marks(),
        a.state_hash() == b.state_hash(),
{
    assert forall|i: int| 0 <= i < a.marks().len() implies a.marks()[i] == b.marks()[i] by {
        lemma_same_region(a, b, a.position_of(i));
    }
    assert(a.marks() =~= b.marks());
}

/// Two boards of the same extent, one of which shows a box on a cell of
/// the grid where the other holds none, have different canonical states:
/// their hashes differ unless the hash function itself collides.
pub proof fn lemma_marks_tell_box(a: Board, b: Board, p: Position)
    requires
        a.wf(),
        b.wf(),
        a.width == b.width,
        a.height == b.height,
        a.width * a.height <= usize::MAX,
        a.in_bounds(p),
        a.has_box(p),
        a.player != Some(p),
        !b.has_box(p),
    ensures
        a.marks()[a.index_of(p)] != b.marks()[a.index_of(p)],
        a.marks() != b.marks(),
{
    crate::board::lemma_index_bound(p.x as int, p.y as int, a.width as int, a.height as int);
    crate::level::lemma_cell_of_index(a.width, p.x as int, p.y as int);
    let i = a.index_of(p);
    assert(a.position_of(i) == p);
    assert(b.position_of(i) == p);
    assert(a.kind_at(p).box_kind());
    if a.reachable(p) {
        lemma_connects_open(a, a.player->0, p);
    }
    assert(a.mark_at(p) == 3 || a.mark_at(p) == 5);
    assert(!b.kind_at(p).box_kind()) by {
        assert(b.floor[i].floor_kind());
    }
    assert(b.mark_at(p) == 0 || b.mark_at(p) == 1);
    assert(a.marks()[i] == a.mark_at(p));
    assert(b.marks()[i] == b.mark_at(p));
}

/// Two boards of the same extent, with every box on the grid and no box
/// under the player, whose boxes do not cover the same cells have
/// different canonical states.
pub proof fn lemma_marks_tell_boxes(a: Board, b: Board)
    requires
        a.wf(),
        b.wf(),
        a.width == b.width,
        a.height == b.height,
        a.width * a.height <= usize::MAX,
        a.boxes_inside(),
        b.boxes_inside(),
        a.player_settled(),
        b.player_settled(),
        a.boxes.to_set() != b.boxes.to_set(),
    ensures
        a.marks() != b.marks(),
{
    if a.boxes.to_set() =~= b.boxes.to_set() {
    } else {
        let p = choose|p: Position| a.boxes.to_set().contains(p) != b.boxes.to_set().contains(p);
        if a.has_box(p) {
            let k = choose|k: int| 0 <= k < a.boxes.len() && a.boxes[k] == p;
            assert(a.in_bounds(a.boxes[k]));
            lemma_marks_tell_box(a, b, p);
        } else {
            let k = choose|k: int| 0 <= k < b.boxes.len() && b.boxes[k] == p;
            assert(b.in_bounds(b.boxes[k]));
            lemma_marks_tell_box(b, a, p);
        }
    }
}

/// After a pull, the box can be taken back, and taking it back puts every
/// box on the cell it had before the pull and the player on the cell that
/// the pulled box has left.
pub proof fn lemma_pull_then_undo(b: Board, i: int, d: Direction)
    requires
        b.can_pull(i, d),
    ensures
        step(b.pulled(i, d).boxes[i], d.opposite(), 1) is Some,
        b.pulled(i, d).unpulled(i, d).boxes == b.boxes,
        b.pulled(i, d).unpulled(i, d).player == Some(box_target(b.boxes[i], d)),
        b.pulled(i, d).unpulled(i, d) == b.with_player(box_target(b.boxes[i], d)),
{
    let after = b.pulled(i, d).unpulled(i, d);
    assert(after.boxes =~= b.boxes);
}

/// A pull that is taken back leaves the canonical state as it was: the
/// boxes stand as before and the player is still within the same region.
pub proof fn lemma_pull_then_undo_state(b: Board, i: int, d: Direction)
    requires
        b.wf(),
        b.player_settled(),
        b.can_pull(i, d),
    ensures
        b.pulled(i, d).unpulled(i, d).player_settled(),
        b.pulled(i, d).unpulled(i, d).marks() == b.marks(),
        b.pulled(i, d).unpulled(i, d).state_hash() == b.state_hash(),
{
    lemma_pull_then_undo(b, i, d);
    let to = box_target(b.boxes[i], d);
    let after = b.with_player(to);
    crate::reach::lemma_open_is_plain(b, to);
    lemma_hash_ignores_player_cell(b, after);
}

} // verus!
