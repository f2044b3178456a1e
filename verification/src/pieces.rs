use vstd::prelude::*;
use crate::Pos;
use crate::encoding::{cell, hand, with_cell, with_hand, lemma_with_cell, lemma_with_hand, lemma_cell_with_hand, group_field_bounds};
use crate::symmetry::{mirror_v, mirror_lr, swap_owner, is_flip, flipped, lemma_flip_exists, is_reflection, reflection, lemma_reflect_witness, canonical_of, lemma_hand_from_high};
use crate::rules::{successors, lemma_successor_origin, is_step_of, is_drop_of, step_board, step_result, drop_result, offsets, promoted, captured_hand, dropped_piece};

verus! {

broadcast use group_field_bounds;

/// 1 when square `i` holds a code that `f` accepts, else 0.
pub open spec fn marked(pos: Pos, f: spec_fn(u32) -> bool, i: usize) -> nat {
    if f(cell(pos, i)) { 1 } else { 0 }
}

/// How many of the squares `0..n` hold a code that `f` accepts.
pub open spec fn count_if(pos: Pos, f: spec_fn(u32) -> bool, n: nat) -> nat
    decreases n,
{
    if n == 0 {
        0
    } else {
        count_if(pos, f, (n - 1) as nat) + marked(pos, f, (n - 1) as usize)
    }
}

/// The codes equal to `c`.
pub open spec fn is_code(c: u32) -> spec_fn(u32) -> bool {
    |x: u32| x == c
}

/// The codes of pieces (anything but an empty square).
pub open spec fn is_piece() -> spec_fn(u32) -> bool {
    |x: u32| x != 0
}

/// How many squares hold code `c`.
pub open spec fn code_count(pos: Pos, c: u32) -> nat {
    count_if(pos, is_code(c), 15)
}

/// How many squares hold a piece.
pub open spec fn occupied(pos: Pos) -> nat {
    count_if(pos, is_piece(), 15)
}

/// How many pieces the six hand slots hold together.
pub open spec fn hand_total(pos: Pos) -> nat {
    (hand(pos, 0) + hand(pos, 1) + hand(pos, 2) + hand(pos, 3) + hand(pos, 4) + hand(pos, 5)) as nat
}

/// Every square holds a piece code (at most 10).
pub open spec fn codes_ok(pos: Pos) -> bool {
    forall|i: usize| i < 15 ==> #[trigger] cell(pos, i) <= 10
}

/// Writing one square changes the count by what it takes away and what it puts there.
pub(crate) proof fn lemma_count_if_write(pos: Pos, sq: usize, v: u32, f: spec_fn(u32) -> bool, n: nat)
    requires
        sq < 15,
        v < 16,
        n <= 15,
    ensures
        count_if(with_cell(pos, sq, v), f, n) + (if sq < n && f(cell(pos, sq)) { 1nat } else { 0nat })
            == count_if(pos, f, n) + (if sq < n && f(v) { 1nat } else { 0nat }),
    decreases n,
{
    lemma_with_cell(pos, sq, v);
    if n > 0 {
        lemma_count_if_write(pos, sq, v, f, (n - 1) as nat);
        let i = (n - 1) as usize;
        if i != sq {
            assert(cell(with_cell(pos, sq, v), i) == cell(pos, i));
        }
    }
}

/// Positions with the same squares have the same counts.
proof fn lemma_count_if_same(a: Pos, b: Pos, f: spec_fn(u32) -> bool, n: nat)
    requires
        n <= 15,
        forall|i: usize| i < 15 ==> #[trigger] cell(a, i) == cell(b, i),
    ensures
        count_if(a, f, n) == count_if(b, f, n),
    decreases n,
{
    if n > 0 {
        lemma_count_if_same(a, b, f, (n - 1) as nat);
        assert(cell(a, (n - 1) as usize) == cell(b, (n - 1) as usize));
    }
}

/// The count over the whole board, term by term.
proof fn lemma_count_if_all(pos: Pos, f: spec_fn(u32) -> bool)
    ensures
        count_if(pos, f, 15) == marked(pos, f, 0) + marked(pos, f, 1) + marked(pos, f, 2) + marked(pos, f, 3)
            + marked(pos, f, 4) + marked(pos, f, 5) + marked(pos, f, 6) + marked(pos, f, 7) + marked(pos, f, 8)
            + marked(pos, f, 9) + marked(pos, f, 10) + marked(pos, f, 11) + marked(pos, f, 12)
            + marked(pos, f, 13) + marked(pos, f, 14),
{
    reveal_with_fuel(count_if, 16);
}

proof fn lemma_flip_marked(pos: Pos, r: Pos, f: spec_fn(u32) -> bool, g: spec_fn(u32) -> bool, i: usize)
    requires
        codes_ok(pos),
        is_flip(r, pos),
        forall|x: u32| x <= 10 ==> #[trigger] f(swap_owner(x)) == g(x),
        i < 15,
    ensures
        marked(r, f, mirror_v(i as int) as usize) == marked(pos, g, i),
{
    assert(cell(r, mirror_v(i as int) as usize) == swap_owner(cell(pos, i)));
    assert(cell(pos, i) <= 10);
    assert(f(swap_owner(cell(pos, i))) == g(cell(pos, i)));
}

/// Turning the board around: `f` counts on the turned board what `g` counts on the original,
/// when `f` of a code with its owner swapped is `g` of the code.
proof fn lemma_flip_count(pos: Pos, f: spec_fn(u32) -> bool, g: spec_fn(u32) -> bool)
    requires
        codes_ok(pos),
        forall|x: u32| x <= 10 ==> #[trigger] f(swap_owner(x)) == g(x),
    ensures
        count_if(flipped(pos), f, 15) == count_if(pos, g, 15),
        codes_ok(flipped(pos)),
        hand_total(flipped(pos)) == hand_total(pos),
{
    let r = flipped(pos);
    lemma_flip_exists(pos);
    lemma_flip_marked(pos, r, f, g, 0);
    lemma_flip_marked(pos, r, f, g, 1);
    lemma_flip_marked(pos, r, f, g, 2);
    lemma_flip_marked(pos, r, f, g, 3);
    lemma_flip_marked(pos, r, f, g, 4);
    lemma_flip_marked(pos, r, f, g, 5);
    lemma_flip_marked(pos, r, f, g, 6);
    lemma_flip_marked(pos, r, f, g, 7);
    lemma_flip_marked(pos, r, f, g, 8);
    lemma_flip_marked(pos, r, f, g, 9);
    lemma_flip_marked(pos, r, f, g, 10);
    lemma_flip_marked(pos, r, f, g, 11);
    lemma_flip_marked(pos, r, f, g, 12);
    lemma_flip_marked(pos, r, f, g, 13);
    lemma_flip_marked(pos, r, f, g, 14);
    assert(mirror_v(0) == 12 && mirror_v(1) == 13 && mirror_v(2) == 14 && mirror_v(3) == 9 && mirror_v(4) == 10);
    assert(mirror_v(5) == 11 && mirror_v(6) == 6 && mirror_v(7) == 7 && mirror_v(8) == 8 && mirror_v(9) == 3);
    assert(mirror_v(10) == 4 && mirror_v(11) == 5 && mirror_v(12) == 0 && mirror_v(13) == 1 && mirror_v(14) == 2);
    lemma_count_if_all(r, f);
    lemma_count_if_all(pos, g);
    assert forall|i: usize| i < 15 implies #[trigger] cell(r, i) <= 10 by {
        let j = mirror_v(i as int) as usize;
        assert(mirror_v(j as int) == i);
        assert(cell(r, mirror_v(j as int) as usize) == swap_owner(cell(pos, j)));
        assert(cell(pos, j) <= 10);
    }
    assert(hand(r, 0) == hand(pos, 3));
    assert(hand(r, 1) == hand(pos, 4));
    assert(hand(r, 2) == hand(pos, 5));
    assert(hand(r, 3) == hand(pos, 0));
    assert(hand(r, 4) == hand(pos, 1));
    assert(hand(r, 5) == hand(pos, 2));
}

/// Taking the representative keeps every count, the codes and the hands.
pub(crate) proof fn lemma_canonical_count(pos: Pos, f: spec_fn(u32) -> bool)
    requires
        codes_ok(pos),
    ensures
        count_if(canonical_of(pos), f, 15) == count_if(pos, f, 15),
        codes_ok(canonical_of(pos)),
        hand_total(canonical_of(pos)) == hand_total(pos),
{
    let r = reflection(pos);
    lemma_reflect_witness(pos);
    assert(is_reflection(r, pos));
    assert(mirror_lr(0) == 2 && mirror_lr(1) == 1 && mirror_lr(2) == 0 && mirror_lr(3) == 5 && mirror_lr(4) == 4);
    assert(mirror_lr(5) == 3 && mirror_lr(6) == 8 && mirror_lr(7) == 7 && mirror_lr(8) == 6 && mirror_lr(9) == 11);
    assert(mirror_lr(10) == 10 && mirror_lr(11) == 9 && mirror_lr(12) == 14 && mirror_lr(13) == 13 && mirror_lr(14) == 12);
    assert(cell(r, 0) == cell(pos, 2) && cell(r, 1) == cell(pos, 1) && cell(r, 2) == cell(pos, 0));
    assert(cell(r, 3) == cell(pos, 5) && cell(r, 4) == cell(pos, 4) && cell(r, 5) == cell(pos, 3));
    assert(cell(r, 6) == cell(pos, 8) && cell(r, 7) == cell(pos, 7) && cell(r, 8) == cell(pos, 6));
    assert(cell(r, 9) == cell(pos, 11) && cell(r, 10) == cell(pos, 10) && cell(r, 11) == cell(pos, 9));
    assert(cell(r, 12) == cell(pos, 14) && cell(r, 13) == cell(pos, 13) && cell(r, 14) == cell(pos, 12));
    lemma_count_if_all(r, f);
    lemma_count_if_all(pos, f);
    lemma_hand_from_high(r, pos, 0);
    lemma_hand_from_high(r, pos, 1);
    lemma_hand_from_high(r, pos, 2);
    lemma_hand_from_high(r, pos, 3);
    lemma_hand_from_high(r, pos, 4);
    lemma_hand_from_high(r, pos, 5);
    assert forall|i: usize| i < 15 implies #[trigger] cell(r, i) <= 10 by {
        assert(cell(r, i) == cell(pos, mirror_lr(i as int) as usize));
    }
}

/// The position a legal step leads to, before it is turned around, and what the step does:
/// the piece is still on the board (as a hen if a chick was promoted), a captured White piece
/// (never the lion) leaves the board for Black's hand.
proof fn lemma_step_counts(pos: Pos, sq: usize, k: int, f: spec_fn(u32) -> bool)
    requires
        codes_ok(pos),
        sq < 15,
        1 <= cell(pos, sq) <= 5,
        0 <= k < offsets(cell(pos, sq)).len(),
        step_board(pos, sq, k) is Some,
        forall|i: usize| i < 3 ==> #[trigger] hand(pos, i) < 3,
    ensures
        ({
            let np = step_board(pos, sq, k)->0;
            let p = cell(pos, sq);
            let d = offsets(p)[k];
            let nr = (sq / 3) as int + d.0;
            let nsq = (nr * 3 + (sq % 3) as int + d.1) as usize;
            let t = cell(pos, nsq);
            &&& codes_ok(np)
            &&& nsq < 15 && nsq != sq
            &&& t == 0 || 7 <= t <= 10
            &&& count_if(np, f, 15) + (if f(p) { 1nat } else { 0nat }) + (if f(t) { 1nat } else { 0nat })
                == count_if(pos, f, 15) + (if f(0) { 1nat } else { 0nat }) + (if f(promoted(p, nr)) { 1nat } else { 0nat })
            &&& hand_total(np) == hand_total(pos) + (if t != 0 { 1nat } else { 0nat })
        }),
{
    let p = cell(pos, sq);
    let d = offsets(p)[k];
    let nr = (sq / 3) as int + d.0;
    let nc = (sq % 3) as int + d.1;
    let nsq = (nr * 3 + nc) as usize;
    let t = cell(pos, nsq);
    let q = promoted(p, nr);
    let np0 = with_cell(pos, sq, 0);
    let np1 = with_cell(np0, nsq, q);
    crate::material::lemma_offsets_move(p, k);
    assert(nsq != sq);
    lemma_with_cell(pos, sq, 0);
    lemma_with_cell(np0, nsq, q);
    assert(cell(np0, nsq) == t);
    lemma_count_if_write(pos, sq, 0, f, 15);
    lemma_count_if_write(np0, nsq, q, f, 15);
    assert forall|i: usize| i < 15 implies #[trigger] cell(np1, i) <= 10 by {
        if i != nsq && i != sq {
            assert(cell(np1, i) == cell(np0, i));
            assert(cell(np0, i) == cell(pos, i));
        }
    }
    assert(hand(np1, 0) == hand(pos, 0) && hand(np1, 1) == hand(pos, 1) && hand(np1, 2) == hand(pos, 2));
    assert(hand(np1, 3) == hand(pos, 3) && hand(np1, 4) == hand(pos, 4) && hand(np1, 5) == hand(pos, 5));
    if 7 <= t <= 10 {
        let hi = captured_hand(t);
        let v = (hand(np1, hi) + 1) as u32;
        assert(hand(pos, hi) < 3);
        lemma_with_hand(np1, hi, v);
        let np2 = with_hand(np1, hi, v);
        assert forall|i: usize| i < 15 implies #[trigger] cell(np2, i) == cell(np1, i) by {}
        lemma_count_if_same(np2, np1, f, 15);
        assert forall|i: usize| i < 15 implies #[trigger] cell(np2, i) <= 10 by {
            assert(cell(np1, i) <= 10);
        }
    }
}

/// Every move keeps the number of pieces on the board and in the hands together, for any
/// position whose squares hold piece codes and whose Black hand slots hold fewer than three
/// pieces each (so that a capture fits the two-bit field).
pub proof fn lemma_successors_keep_pieces(pos: Pos, s: Pos)
    requires
        codes_ok(pos),
        forall|i: usize| i < 3 ==> #[trigger] hand(pos, i) < 3,
        successors(pos).contains(s),
    ensures
        occupied(s) + hand_total(s) == occupied(pos) + hand_total(pos),
{
    let f = is_piece();
    assert forall|x: u32| x <= 10 implies #[trigger] f(swap_owner(x)) == f(x) by {}
    lemma_successor_origin(pos, s);
    if is_step_of(pos, s) {
        let (sq, k) = choose|sq: usize, k: int|
            sq < 15 && 1 <= cell(pos, sq) <= 5 && 0 <= k < offsets(cell(pos, sq)).len()
                && #[trigger] step_result(pos, sq, k) == Some(s);
        lemma_step_counts(pos, sq, k, f);
        let np = step_board(pos, sq, k)->0;
        lemma_flip_count(np, f, f);
        lemma_canonical_count(flipped(np), f);
    } else {
        let (hi, sq) = choose|hi: usize, sq: usize|
            hi < 3 && sq < 15 && hand(pos, hi) != 0 && #[trigger] drop_result(pos, hi, sq) == Some(s);
        let dp = dropped_piece(hi);
        let np1 = with_cell(pos, sq, dp);
        let v = (hand(pos, hi) - 1) as u32;
        let np = with_hand(np1, hi, v);
        lemma_with_cell(pos, sq, dp);
        lemma_with_hand(np1, hi, v);
        lemma_count_if_write(pos, sq, dp, f, 15);
        assert forall|i: usize| i < 15 implies #[trigger] cell(np, i) == cell(np1, i) by {}
        lemma_count_if_same(np, np1, f, 15);
        assert forall|i: usize| i < 15 implies #[trigger] cell(np, i) <= 10 by {
            if i != sq {
                assert(cell(np1, i) == cell(pos, i));
            }
        }
        assert(hand(np1, 0) == hand(pos, 0) && hand(np1, 1) == hand(pos, 1) && hand(np1, 2) == hand(pos, 2));
        assert(hand(np1, 3) == hand(pos, 3) && hand(np1, 4) == hand(pos, 4) && hand(np1, 5) == hand(pos, 5));
        lemma_flip_count(np, f, f);
        lemma_canonical_count(flipped(np), f);
    }
}

/// Every move gives the side to move the lions the other side had: the new Black lion count is
/// the old White one and the other way round (a lion is never captured by a generated move).
pub proof fn lemma_successors_swap_lions(pos: Pos, s: Pos)
    requires
        codes_ok(pos),
        successors(pos).contains(s),
    ensures
        code_count(s, 1) == code_count(pos, 6),
        code_count(s, 6) == code_count(pos, 1),
{
    let f1 = is_code(1);
    let f6 = is_code(6);
    assert forall|x: u32| x <= 10 implies #[trigger] f1(swap_owner(x)) == f6(x) by {}
    assert forall|x: u32| x <= 10 implies #[trigger] f6(swap_owner(x)) == f1(x) by {}
    lemma_successor_origin(pos, s);
    if is_step_of(pos, s) {
        let (sq, k) = choose|sq: usize, k: int|
            sq < 15 && 1 <= cell(pos, sq) <= 5 && 0 <= k < offsets(cell(pos, sq)).len()
                && #[trigger] step_result(pos, sq, k) == Some(s);
        let np = step_board(pos, sq, k)->0;
        lemma_step_counts_lions(pos, sq, k);
        lemma_flip_count(np, f1, f6);
        lemma_flip_count(np, f6, f1);
        lemma_canonical_count(flipped(np), f1);
        lemma_canonical_count(flipped(np), f6);
    } else {
        let (hi, sq) = choose|hi: usize, sq: usize|
            hi < 3 && sq < 15 && hand(pos, hi) != 0 && #[trigger] drop_result(pos, hi, sq) == Some(s);
        let dp = dropped_piece(hi);
        let np1 = with_cell(pos, sq, dp);
        let v = (hand(pos, hi) - 1) as u32;
        let np = with_hand(np1, hi, v);
        lemma_with_cell(pos, sq, dp);
        lemma_count_if_write(pos, sq, dp, f1, 15);
        lemma_count_if_write(pos, sq, dp, f6, 15);
        assert forall|i: usize| i < 15 implies #[trigger] cell(np, i) == cell(np1, i) by {
            lemma_cell_with_hand(np1, hi, v, i);
        }
        lemma_count_if_same(np, np1, f1, 15);
        lemma_count_if_same(np, np1, f6, 15);
        assert forall|i: usize| i < 15 implies #[trigger] cell(np, i) <= 10 by {
            if i != sq {
                assert(cell(np1, i) == cell(pos, i));
            }
        }
        lemma_flip_count(np, f1, f6);
        lemma_flip_count(np, f6, f1);
        lemma_canonical_count(flipped(np), f1);
        lemma_canonical_count(flipped(np), f6);
    }
}

/// A step keeps the number of lions of each colour on the board.
proof fn lemma_step_counts_lions(pos: Pos, sq: usize, k: int)
    requires
        codes_ok(pos),
        sq < 15,
        1 <= cell(pos, sq) <= 5,
        0 <= k < offsets(cell(pos, sq)).len(),
        step_board(pos, sq, k) is Some,
    ensures
        codes_ok(step_board(pos, sq, k)->0),
        code_count(step_board(pos, sq, k)->0, 1) == code_count(pos, 1),
        code_count(step_board(pos, sq, k)->0, 6) == code_count(pos, 6),
{
    let p = cell(pos, sq);
    let d = offsets(p)[k];
    let nr = (sq / 3) as int + d.0;
    let nc = (sq % 3) as int + d.1;
    let nsq = (nr * 3 + nc) as usize;
    let t = cell(pos, nsq);
    let q = promoted(p, nr);
    let np0 = with_cell(pos, sq, 0);
    let np1 = with_cell(np0, nsq, q);
    let f1 = is_code(1);
    let f6 = is_code(6);
    crate::material::lemma_offsets_move(p, k);
    assert(nsq != sq);
    lemma_with_cell(pos, sq, 0);
    lemma_with_cell(np0, nsq, q);
    assert(cell(np0, nsq) == t);
    lemma_count_if_write(pos, sq, 0, f1, 15);
    lemma_count_if_write(np0, nsq, q, f1, 15);
    lemma_count_if_write(pos, sq, 0, f6, 15);
    lemma_count_if_write(np0, nsq, q, f6, 15);
    assert forall|i: usize| i < 15 implies #[trigger] cell(np1, i) <= 10 by {
        if i != nsq && i != sq {
            assert(cell(np1, i) == cell(np0, i));
            assert(cell(np0, i) == cell(pos, i));
        }
    }
    if 7 <= t <= 10 {
        let hi = captured_hand(t);
        let v = (hand(np1, hi) + 1) as u32;
        let np2 = with_hand(np1, hi, v);
        assert forall|i: usize| i < 15 implies #[trigger] cell(np2, i) == cell(np1, i) by {
            lemma_cell_with_hand(np1, hi, v, i);
        }
        lemma_count_if_same(np2, np1, f1, 15);
        lemma_count_if_same(np2, np1, f6, 15);
        assert forall|i: usize| i < 15 implies #[trigger] cell(np2, i) <= 10 by {
            assert(cell(np1, i) <= 10);
        }
    }
}

} // verus!
