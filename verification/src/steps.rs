use vstd::prelude::*;
use crate::Pos;
use crate::encoding::{cell, hand, with_cell, with_hand};
use crate::symmetry::{canonical_of, flipped};
use crate::rules::{successors, board_moves, piece_steps, steps_from, step_result, step_board, offsets, promoted, is_step_of, lemma_successor_origin};
use crate::drops::after_drop;
use crate::reach::{steps_onto, lemma_offsets_steps};

verus! {

/// Black's piece on `sq` may step onto `nsq`: it is one of that piece's steps away, and `nsq`
/// holds neither a Black piece nor the White lion.
pub open spec fn legal_step(pos: Pos, sq: usize, nsq: usize) -> bool {
    &&& sq < 15
    &&& nsq < 15
    &&& steps_onto(cell(pos, sq), (nsq / 3) as int - (sq / 3) as int, (nsq % 3) as int - (sq % 3) as int)
    &&& !(1 <= cell(pos, nsq) <= 6)
}

/// The position after Black's piece on `sq` steps onto `nsq`, turned over to White and taken as
/// representative: the square left is empty; a chick arriving on row 0 becomes a hen (code 5),
/// any other piece arrives as it was; a captured White elephant (7), giraffe (8), chick (9) or
/// hen (10) goes to Black's hand as an elephant (slot 0), giraffe (slot 1) or chick (slot 2).
pub open spec fn after_step(pos: Pos, sq: usize, nsq: usize) -> Pos {
    let p = cell(pos, sq);
    let t = cell(pos, nsq);
    let arrived: u32 = if p == 4 && nsq < 3 { 5 } else { p };
    let moved = with_cell(with_cell(pos, sq, 0), nsq, arrived);
    let taken = if t == 7 {
        with_hand(moved, 0, (hand(moved, 0) + 1) as u32)
    } else if t == 8 {
        with_hand(moved, 1, (hand(moved, 1) + 1) as u32)
    } else if t == 9 || t == 10 {
        with_hand(moved, 2, (hand(moved, 2) + 1) as u32)
    } else {
        moved
    };
    canonical_of(flipped(taken))
}

/// Step number `k` of the piece on `sq`, when it stays on the board, lands on `nsq`.
proof fn lemma_step_square(pos: Pos, sq: usize, k: int) -> (nsq: usize)
    requires
        sq < 15,
        1 <= cell(pos, sq) <= 5,
        0 <= k < offsets(cell(pos, sq)).len(),
        step_board(pos, sq, k) is Some,
    ensures
        legal_step(pos, sq, nsq),
        step_result(pos, sq, k) == Some(after_step(pos, sq, nsq)),
        nsq as int == ((sq / 3) as int + offsets(cell(pos, sq))[k].0) * 3 + (sq % 3) as int + offsets(cell(pos, sq))[k].1,
{
    let p = cell(pos, sq);
    let d = offsets(p)[k];
    let nr = (sq / 3) as int + d.0;
    let nc = (sq % 3) as int + d.1;
    let nsq = (nr * 3 + nc) as usize;
    assert(nsq / 3 == nr && nsq % 3 == nc);
    lemma_offsets_steps(p, d.0 as int, d.1 as int);
    assert(promoted(p, nr) == if p == 4 && nsq < 3 { 5u32 } else { p });
    nsq
}

/// Every successor comes from a legal step of a Black piece (see `after_step`) or from a drop
/// of an unpromoted piece onto an empty square (code `slot + 2`, see `after_drop`).
pub proof fn lemma_successor_is_legal_move(pos: Pos, s: Pos)
    requires
        successors(pos).contains(s),
    ensures
        (exists|sq: usize, nsq: usize| legal_step(pos, sq, nsq) && s == #[trigger] after_step(pos, sq, nsq))
            || exists|hi: usize, sq: usize|
            hi < 3 && sq < 15 && cell(pos, sq) == 0 && hand(pos, hi) > 0 && s == #[trigger] after_drop(pos, hi, sq, (hi + 2) as u32),
{
    crate::drops::lemma_successor_is_step_or_drop(pos, s);
    if is_step_of(pos, s) {
        let (sq, k) = choose|sq: usize, k: int|
            sq < 15 && 1 <= cell(pos, sq) <= 5 && 0 <= k < offsets(cell(pos, sq)).len()
                && #[trigger] step_result(pos, sq, k) == Some(s);
        let nsq = lemma_step_square(pos, sq, k);
        assert(s == after_step(pos, sq, nsq));
    }
}

proof fn lemma_steps_from_contains(pos: Pos, sq: usize, k: int, n: nat)
    requires
        0 <= k < n,
        step_result(pos, sq, k) is Some,
    ensures
        steps_from(pos, sq, n).contains(step_result(pos, sq, k)->0),
    decreases n,
{
    let a = steps_from(pos, sq, (n - 1) as nat);
    let x = step_result(pos, sq, k)->0;
    if k == n - 1 {
        assert(steps_from(pos, sq, n)[a.len() as int] == x);
    } else {
        lemma_steps_from_contains(pos, sq, k, (n - 1) as nat);
        let i = choose|i: int| 0 <= i < a.len() && a[i] == x;
        assert(steps_from(pos, sq, n)[i] == x);
    }
}

proof fn lemma_board_moves_contains(pos: Pos, sq: usize, m: nat, x: Pos)
    requires
        sq < m,
        piece_steps(pos, sq).contains(x),
    ensures
        board_moves(pos, m).contains(x),
    decreases m,
{
    let a = board_moves(pos, (m - 1) as nat);
    let b = piece_steps(pos, (m - 1) as usize);
    if sq == m - 1 {
        let i = choose|i: int| 0 <= i < b.len() && b[i] == x;
        assert(board_moves(pos, m)[a.len() + i] == x);
    } else {
        lemma_board_moves_contains(pos, sq, (m - 1) as nat, x);
        let i = choose|i: int| 0 <= i < a.len() && a[i] == x;
        assert(board_moves(pos, m)[i] == x);
    }
}

/// Every legal step of a Black piece is a move: its result (see `after_step`) is a successor.
pub proof fn lemma_legal_steps_are_moves(pos: Pos, sq: usize, nsq: usize)
    requires
        legal_step(pos, sq, nsq),
    ensures
        successors(pos).contains(after_step(pos, sq, nsq)),
{
    let p = cell(pos, sq);
    let dr = (nsq / 3) as int - (sq / 3) as int;
    let dc = (nsq % 3) as int - (sq % 3) as int;
    lemma_offsets_steps(p, dr, dc);
    let k = choose|k: int| 0 <= k < offsets(p).len() && #[trigger] offsets(p)[k].0 as int == dr && offsets(p)[k].1 as int == dc;
    assert(1 <= p <= 5);
    let d = offsets(p)[k];
    let nr = (sq / 3) as int + d.0;
    let nc = (sq % 3) as int + d.1;
    assert(nr == nsq / 3 && nc == nsq % 3);
    assert((nr * 3 + nc) as usize == nsq);
    assert(step_board(pos, sq, k) is Some);
    let x = lemma_step_square(pos, sq, k);
    assert(x == nsq);
    lemma_steps_from_contains(pos, sq, k, offsets(p).len());
    lemma_board_moves_contains(pos, sq, 15, after_step(pos, sq, nsq));
    let a = board_moves(pos, 15);
    let i = choose|i: int| 0 <= i < a.len() && a[i] == after_step(pos, sq, nsq);
    assert(successors(pos)[i] == after_step(pos, sq, nsq));
}

} // verus!
