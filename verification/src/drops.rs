use vstd::prelude::*;
use crate::Pos;
use crate::encoding::{cell, hand, with_cell, with_hand};
use crate::symmetry::{canonical_of, flipped};
use crate::rules::{successors, board_moves, drop_moves, hand_drops, drops_from, drop_result, is_step_of, lemma_successor_origin};

verus! {

/// The position after Black drops the piece with code `code` from hand slot `hi` onto `sq`,
/// turned over to White and taken as representative.
pub open spec fn after_drop(pos: Pos, hi: usize, sq: usize, code: u32) -> Pos {
    canonical_of(flipped(with_hand(with_cell(pos, sq, code), hi, (hand(pos, hi) - 1) as u32)))
}

proof fn lemma_drops_from_contains(pos: Pos, hi: usize, sq: usize, n: nat)
    requires
        sq < n,
        cell(pos, sq) == 0,
    ensures
        drops_from(pos, hi, n).contains(drop_result(pos, hi, sq)->0),
    decreases n,
{
    let a = drops_from(pos, hi, (n - 1) as nat);
    let o = drop_result(pos, hi, (n - 1) as usize);
    let x = drop_result(pos, hi, sq)->0;
    if sq == n - 1 {
        assert(drops_from(pos, hi, n)[a.len() as int] == x);
    } else {
        lemma_drops_from_contains(pos, hi, sq, (n - 1) as nat);
        let i = choose|i: int| 0 <= i < a.len() && a[i] == x;
        assert(drops_from(pos, hi, n)[i] == x);
    }
}

proof fn lemma_drop_moves_contains(pos: Pos, hi: usize, h: nat, x: Pos)
    requires
        hi < h,
        hand_drops(pos, hi).contains(x),
    ensures
        drop_moves(pos, h).contains(x),
    decreases h,
{
    let a = drop_moves(pos, (h - 1) as nat);
    let b = hand_drops(pos, (h - 1) as usize);
    if hi == h - 1 {
        let i = choose|i: int| 0 <= i < b.len() && b[i] == x;
        assert(drop_moves(pos, h)[a.len() + i] == x);
    } else {
        lemma_drop_moves_contains(pos, hi, (h - 1) as nat, x);
        let i = choose|i: int| 0 <= i < a.len() && a[i] == x;
        assert(drop_moves(pos, h)[i] == x);
    }
}

proof fn lemma_drop_in_successors(pos: Pos, hi: usize, sq: usize)
    requires
        hi < 3,
        sq < 15,
        cell(pos, sq) == 0,
        hand(pos, hi) > 0,
    ensures
        successors(pos).contains(drop_result(pos, hi, sq)->0),
{
    let x = drop_result(pos, hi, sq)->0;
    lemma_drops_from_contains(pos, hi, sq, 15);
    lemma_drop_moves_contains(pos, hi, 3, x);
    let a = board_moves(pos, 15);
    let b = drop_moves(pos, 3);
    let i = choose|i: int| 0 <= i < b.len() && b[i] == x;
    assert(successors(pos)[a.len() + i] == x);
}

/// Every drop onto an empty square is a move: Black's elephant (code 2) from hand slot 0,
/// giraffe (code 3) from slot 1 and chick (code 4, never a hen) from slot 2 land on the square,
/// the slot holds one fewer, and the position is turned over to White.
pub proof fn lemma_drops_are_moves(pos: Pos, sq: usize)
    requires
        sq < 15,
        cell(pos, sq) == 0,
    ensures
        hand(pos, 0) > 0 ==> successors(pos).contains(after_drop(pos, 0, sq, 2)),
        hand(pos, 1) > 0 ==> successors(pos).contains(after_drop(pos, 1, sq, 3)),
        hand(pos, 2) > 0 ==> successors(pos).contains(after_drop(pos, 2, sq, 4)),
{
    if hand(pos, 0) > 0 {
        lemma_drop_in_successors(pos, 0, sq);
    }
    if hand(pos, 1) > 0 {
        lemma_drop_in_successors(pos, 1, sq);
    }
    if hand(pos, 2) > 0 {
        lemma_drop_in_successors(pos, 2, sq);
    }
}

/// Every successor comes from a step of a Black piece, or from dropping an unpromoted piece
/// onto an empty square: an elephant (code 2) from slot 0, a giraffe (code 3) from slot 1 or a
/// chick (code 4) from slot 2, that is code `slot + 2`. A drop never puts a hen on the board.
pub proof fn lemma_successor_is_step_or_drop(pos: Pos, s: Pos)
    requires
        successors(pos).contains(s),
    ensures
        is_step_of(pos, s) || exists|hi: usize, sq: usize|
            hi < 3 && sq < 15 && cell(pos, sq) == 0 && hand(pos, hi) > 0 && s == #[trigger] after_drop(pos, hi, sq, (hi + 2) as u32),
{
    lemma_successor_origin(pos, s);
    if !is_step_of(pos, s) {
        let (hi, sq) = choose|hi: usize, sq: usize|
            hi < 3 && sq < 15 && hand(pos, hi) != 0 && #[trigger] drop_result(pos, hi, sq) == Some(s);
        assert(s == after_drop(pos, hi, sq, (hi + 2) as u32));
    }
}

} // verus!
