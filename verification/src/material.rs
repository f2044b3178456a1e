use vstd::prelude::*;
use crate::Pos;
use crate::encoding::{cell, hand, with_cell, with_hand, lemma_with_cell, lemma_with_hand, group_field_bounds};
use crate::symmetry::{mirror_v, mirror_lr, swap_owner, is_flip, flipped, lemma_flip_exists, lemma_flip_involution, is_reflection, reflection, lemma_reflect_witness, canonical_of, is_valid_pos, lemma_hand_from_high};
use crate::rules::{successors, lemma_successor_origin, is_step_of, is_drop_of, step_board, step_result, drop_result, offsets, promoted, captured_hand, dropped_piece, is_initial, initial_cell};
use crate::search::{reachable, is_path, next_pos};

verus! {

broadcast use group_field_bounds;

/// The kind of the piece with code `p`, whoever owns it and whether promoted or not:
/// 0 lion, 1 elephant, 2 giraffe, 3 chick; -1 for an empty square or an unused code.
pub open spec fn kind(p: u32) -> int {
    if p == 1 || p == 6 {
        0
    } else if p == 2 || p == 7 {
        1
    } else if p == 3 || p == 8 {
        2
    } else if p == 4 || p == 5 || p == 9 || p == 10 {
        3
    } else {
        -1
    }
}

/// 1 when square `i` holds a piece of kind `k`, else 0.
pub open spec fn present(pos: Pos, k: int, i: usize) -> nat {
    if kind(cell(pos, i)) == k { 1 } else { 0 }
}

/// How many of the squares `0..n` hold a piece of kind `k`.
pub open spec fn board_count(pos: Pos, k: int, n: nat) -> nat
    decreases n,
{
    if n == 0 {
        0
    } else {
        board_count(pos, k, (n - 1) as nat) + present(pos, k, (n - 1) as usize)
    }
}

/// How many pieces of kind `k` the two hands hold together (lions are never in hand).
pub open spec fn hand_count(pos: Pos, k: int) -> nat {
    if k == 1 {
        (hand(pos, 0) + hand(pos, 3)) as nat
    } else if k == 2 {
        (hand(pos, 1) + hand(pos, 4)) as nat
    } else if k == 3 {
        (hand(pos, 2) + hand(pos, 5)) as nat
    } else {
        0
    }
}

/// How many pieces of kind `k` the position holds, on the board and in hand.
pub open spec fn material(pos: Pos, k: int) -> nat {
    board_count(pos, k, 15) + hand_count(pos, k)
}

/// The position holds the full set of pieces: two lions, two elephants, two giraffes and two
/// chicks between the board and the hands, and nothing but piece codes on the board.
pub open spec fn full_set(pos: Pos) -> bool {
    &&& is_valid_pos(pos)
    &&& forall|k: int| 0 <= k < 4 ==> #[trigger] material(pos, k) == 2
}

/// Writing one square changes the count by what it takes away and what it puts there.
pub proof fn lemma_count_with_cell(pos: Pos, sq: usize, v: u32, k: int, n: nat)
    requires
        sq < 15,
        v < 16,
        n <= 15,
    ensures
        board_count(with_cell(pos, sq, v), k, n) + (if sq < n && kind(cell(pos, sq)) == k { 1nat } else { 0nat })
            == board_count(pos, k, n) + (if sq < n && kind(v) == k { 1nat } else { 0nat }),
    decreases n,
{
    lemma_with_cell(pos, sq, v);
    if n > 0 {
        lemma_count_with_cell(pos, sq, v, k, (n - 1) as nat);
        let i = (n - 1) as usize;
        if i != sq {
            assert(cell(with_cell(pos, sq, v), i) == cell(pos, i));
        }
    }
}

/// Positions with the same squares have the same counts.
proof fn lemma_count_same(a: Pos, b: Pos, k: int, n: nat)
    requires
        n <= 15,
        forall|i: usize| i < 15 ==> #[trigger] cell(a, i) == cell(b, i),
    ensures
        board_count(a, k, n) == board_count(b, k, n),
    decreases n,
{
    if n > 0 {
        lemma_count_same(a, b, k, (n - 1) as nat);
        assert(cell(a, (n - 1) as usize) == cell(b, (n - 1) as usize));
    }
}

/// A square counts towards the count of its kind.
proof fn lemma_count_at_least(pos: Pos, k: int, n: nat, i: usize)
    requires
        i < n,
        kind(cell(pos, i)) == k,
    ensures
        board_count(pos, k, n) >= 1,
    decreases n,
{
    if i < n - 1 {
        lemma_count_at_least(pos, k, (n - 1) as nat, i);
    }
}

/// The count over the whole board, term by term.
proof fn lemma_count_all(pos: Pos, k: int)
    ensures
        board_count(pos, k, 15) == present(pos, k, 0) + present(pos, k, 1) + present(pos, k, 2) + present(pos, k, 3)
            + present(pos, k, 4) + present(pos, k, 5) + present(pos, k, 6) + present(pos, k, 7) + present(pos, k, 8)
            + present(pos, k, 9) + present(pos, k, 10) + present(pos, k, 11) + present(pos, k, 12)
            + present(pos, k, 13) + present(pos, k, 14),
{
    reveal_with_fuel(board_count, 16);
}

/// A square of `pos` and its place on the board turned around hold pieces of the same kind.
proof fn lemma_flip_present(pos: Pos, r: Pos, k: int, i: usize)
    requires
        is_valid_pos(pos),
        is_flip(r, pos),
        i < 15,
    ensures
        present(r, k, mirror_v(i as int) as usize) == present(pos, k, i),
{
    assert(cell(r, mirror_v(i as int) as usize) == swap_owner(cell(pos, i)));
    assert(cell(pos, i) <= 10);
}

/// Turning the board around keeps how many pieces of each kind there are.
proof fn lemma_flip_material(pos: Pos, k: int)
    requires
        is_valid_pos(pos),
    ensures
        material(flipped(pos), k) == material(pos, k),
        is_valid_pos(flipped(pos)),
{
    let r = flipped(pos);
    lemma_flip_exists(pos);
    lemma_flip_involution(pos);
    lemma_flip_present(pos, r, k, 0);
    assert(mirror_v(0) == 12);
    lemma_flip_present(pos, r, k, 1);
    assert(mirror_v(1) == 13);
    lemma_flip_present(pos, r, k, 2);
    assert(mirror_v(2) == 14);
    lemma_flip_present(pos, r, k, 3);
    assert(mirror_v(3) == 9);
    lemma_flip_present(pos, r, k, 4);
    assert(mirror_v(4) == 10);
    lemma_flip_present(pos, r, k, 5);
    assert(mirror_v(5) == 11);
    lemma_flip_present(pos, r, k, 6);
    assert(mirror_v(6) == 6);
    lemma_flip_present(pos, r, k, 7);
    assert(mirror_v(7) == 7);
    lemma_flip_present(pos, r, k, 8);
    assert(mirror_v(8) == 8);
    lemma_flip_present(pos, r, k, 9);
    assert(mirror_v(9) == 3);
    lemma_flip_present(pos, r, k, 10);
    assert(mirror_v(10) == 4);
    lemma_flip_present(pos, r, k, 11);
    assert(mirror_v(11) == 5);
    lemma_flip_present(pos, r, k, 12);
    assert(mirror_v(12) == 0);
    lemma_flip_present(pos, r, k, 13);
    assert(mirror_v(13) == 1);
    lemma_flip_present(pos, r, k, 14);
    assert(mirror_v(14) == 2);
    lemma_count_all(r, k);
    lemma_count_all(pos, k);
    assert(hand(r, 0) == hand(pos, 3));
    assert(hand(r, 1) == hand(pos, 4));
    assert(hand(r, 2) == hand(pos, 5));
    assert(hand(r, 3) == hand(pos, 0));
    assert(hand(r, 4) == hand(pos, 1));
    assert(hand(r, 5) == hand(pos, 2));
}

/// The bits from 72 up are zero when those from 60 up agree with a position whose bits from
/// 72 up are zero.
proof fn lemma_top_zero(a: Pos, b: Pos)
    by (bit_vector)
    requires
        a >> 60usize == b >> 60usize,
        b >> 72usize == 0,
    ensures
        a >> 72usize == 0,
{
}

/// Mirroring left to right keeps how many pieces of each kind there are.
proof fn lemma_reflection_material(pos: Pos, k: int)
    requires
        is_valid_pos(pos),
    ensures
        material(reflection(pos), k) == material(pos, k),
        is_valid_pos(reflection(pos)),
{
    let r = reflection(pos);
    lemma_reflect_witness(pos);
    assert(is_reflection(r, pos));
    assert forall|i: usize| i < 15 implies #[trigger] present(r, k, i) == present(pos, k, mirror_lr(i as int) as usize) by {}
    assert(present(r, k, 0) == present(pos, k, 2)) by { assert(mirror_lr(0) == 2); }
    assert(present(r, k, 1) == present(pos, k, 1)) by { assert(mirror_lr(1) == 1); }
    assert(present(r, k, 2) == present(pos, k, 0)) by { assert(mirror_lr(2) == 0); }
    assert(present(r, k, 3) == present(pos, k, 5)) by { assert(mirror_lr(3) == 5); }
    assert(present(r, k, 4) == present(pos, k, 4)) by { assert(mirror_lr(4) == 4); }
    assert(present(r, k, 5) == present(pos, k, 3)) by { assert(mirror_lr(5) == 3); }
    assert(present(r, k, 6) == present(pos, k, 8)) by { assert(mirror_lr(6) == 8); }
    assert(present(r, k, 7) == present(pos, k, 7)) by { assert(mirror_lr(7) == 7); }
    assert(present(r, k, 8) == present(pos, k, 6)) by { assert(mirror_lr(8) == 6); }
    assert(present(r, k, 9) == present(pos, k, 11)) by { assert(mirror_lr(9) == 11); }
    assert(present(r, k, 10) == present(pos, k, 10)) by { assert(mirror_lr(10) == 10); }
    assert(present(r, k, 11) == present(pos, k, 9)) by { assert(mirror_lr(11) == 9); }
    assert(present(r, k, 12) == present(pos, k, 14)) by { assert(mirror_lr(12) == 14); }
    assert(present(r, k, 13) == present(pos, k, 13)) by { assert(mirror_lr(13) == 13); }
    assert(present(r, k, 14) == present(pos, k, 12)) by { assert(mirror_lr(14) == 12); }
    lemma_count_all(r, k);
    lemma_count_all(pos, k);
    lemma_hand_from_high(r, pos, 0);
    lemma_hand_from_high(r, pos, 1);
    lemma_hand_from_high(r, pos, 2);
    lemma_hand_from_high(r, pos, 3);
    lemma_hand_from_high(r, pos, 4);
    lemma_hand_from_high(r, pos, 5);
    lemma_top_zero(r, pos);
    assert forall|i: usize| i < 15 implies #[trigger] cell(r, i) <= 10 by {
        assert(cell(r, i) == cell(pos, mirror_lr(i as int) as usize));
    }
}

/// Taking the representative keeps the full set.
pub proof fn lemma_canonical_full_set(pos: Pos)
    requires
        full_set(pos),
    ensures
        full_set(canonical_of(pos)),
{
    lemma_reflection_material(pos, 0);
    assert forall|k: int| 0 <= k < 4 implies #[trigger] material(reflection(pos), k) == 2 by {
        lemma_reflection_material(pos, k);
    }
}

/// Turning the board around and taking the representative keeps the full set.
pub proof fn lemma_turn_keeps_full_set(pos: Pos)
    requires
        full_set(pos),
    ensures
        full_set(canonical_of(flipped(pos))),
{
    let f = flipped(pos);
    lemma_flip_material(pos, 0);
    assert forall|k: int| 0 <= k < 4 implies #[trigger] material(f, k) == 2 by {
        lemma_flip_material(pos, k);
    }
    lemma_canonical_full_set(f);
}

/// No step of a piece stays on its square.
pub proof fn lemma_offsets_move(p: u32, k: int)
    requires
        1 <= p <= 5,
        0 <= k < offsets(p).len(),
    ensures
        offsets(p)[k].0 != 0 || offsets(p)[k].1 != 0,
{
    if k == 0 {
    } else if k == 1 {
    } else if k == 2 {
    } else if k == 3 {
    } else if k == 4 {
    } else if k == 5 {
    } else if k == 6 {
    } else {
    }
}

/// A legal step keeps the full set: a captured piece leaves the board for Black's hand as the
/// same kind.
proof fn lemma_step_material(pos: Pos, sq: usize, k: int)
    requires
        full_set(pos),
        sq < 15,
        1 <= cell(pos, sq) <= 5,
        0 <= k < offsets(cell(pos, sq)).len(),
        step_board(pos, sq, k) is Some,
    ensures
        full_set(step_board(pos, sq, k)->0),
{
    let p = cell(pos, sq);
    let d = offsets(p)[k];
    let nr = (sq / 3) as int + d.0;
    let nc = (sq % 3) as int + d.1;
    let nsq = (nr * 3 + nc) as usize;
    let t = cell(pos, nsq);
    let q = promoted(p, nr);
    let np0 = with_cell(pos, sq, 0);
    let np1 = with_cell(np0, nsq, q);
    lemma_offsets_move(p, k);
    assert(nsq != sq);
    assert(nsq < 15);
    lemma_with_cell(pos, sq, 0);
    lemma_with_cell(np0, nsq, q);
    assert(cell(np0, nsq) == t);
    assert(kind(q) == kind(p));
    assert forall|kk: int| 0 <= kk < 4 implies #[trigger] board_count(np1, kk, 15) + (if kind(t) == kk { 1nat } else { 0nat })
        == board_count(pos, kk, 15) by {
        lemma_count_with_cell(pos, sq, 0, kk, 15);
        lemma_count_with_cell(np0, nsq, q, kk, 15);
    }
    assert forall|h: usize| h < 6 implies #[trigger] hand(np1, h) == hand(pos, h) by {
        assert(hand(np0, h) == hand(pos, h));
    }
    assert forall|i: usize| i < 15 implies #[trigger] cell(np1, i) <= 10 by {
        if i != nsq && i != sq {
            assert(cell(np1, i) == cell(np0, i));
            assert(cell(np0, i) == cell(pos, i));
        }
    }
    if 7 <= t <= 10 {
        let hi = captured_hand(t);
        let kt = kind(t);
        lemma_count_at_least(pos, kt, 15, nsq);
        assert(material(pos, kt) == 2);
        assert(hand(np1, hi) <= 1);
        let v = (hand(np1, hi) + 1) as u32;
        let np2 = with_hand(np1, hi, v);
        lemma_with_hand(np1, hi, v);
        assert forall|i: usize| i < 15 implies #[trigger] cell(np2, i) == cell(np1, i) by {}
        assert forall|kk: int| 0 <= kk < 4 implies #[trigger] material(np2, kk) == 2 by {
            lemma_count_same(np2, np1, kk, 15);
            assert(material(pos, kk) == 2);
        }
        assert forall|i: usize| i < 15 implies #[trigger] cell(np2, i) <= 10 by {
            assert(cell(np1, i) <= 10);
        }
    } else {
        assert(t == 0);
        assert forall|kk: int| 0 <= kk < 4 implies #[trigger] material(np1, kk) == 2 by {
            assert(material(pos, kk) == 2);
        }
    }
}

/// A drop keeps the full set: a piece goes from Black's hand onto the board.
proof fn lemma_drop_material(pos: Pos, hi: usize, sq: usize)
    requires
        full_set(pos),
        hi < 3,
        sq < 15,
        hand(pos, hi) != 0,
        cell(pos, sq) == 0,
    ensures
        full_set(with_hand(with_cell(pos, sq, dropped_piece(hi)), hi, (hand(pos, hi) - 1) as u32)),
{
    let dp = dropped_piece(hi);
    let np1 = with_cell(pos, sq, dp);
    let v = (hand(pos, hi) - 1) as u32;
    let np2 = with_hand(np1, hi, v);
    lemma_with_cell(pos, sq, dp);
    lemma_with_hand(np1, hi, v);
    assert(kind(dp) == hi + 1);
    assert forall|i: usize| i < 15 implies #[trigger] cell(np2, i) == cell(np1, i) by {}
    assert forall|kk: int| 0 <= kk < 4 implies #[trigger] material(np2, kk) == 2 by {
        lemma_count_with_cell(pos, sq, dp, kk, 15);
        lemma_count_same(np2, np1, kk, 15);
        assert(material(pos, kk) == 2);
    }
    assert forall|i: usize| i < 15 implies #[trigger] cell(np2, i) <= 10 by {
        if i != sq {
            assert(cell(np1, i) == cell(pos, i));
        }
    }
}

/// Every successor of a position with the full set holds the full set.
pub proof fn lemma_successors_keep_full_set(pos: Pos, s: Pos)
    requires
        full_set(pos),
        successors(pos).contains(s),
    ensures
        full_set(s),
{
    lemma_successor_origin(pos, s);
    if is_step_of(pos, s) {
        let (sq, k) = choose|sq: usize, k: int|
            sq < 15 && 1 <= cell(pos, sq) <= 5 && 0 <= k < offsets(cell(pos, sq)).len()
                && #[trigger] step_result(pos, sq, k) == Some(s);
        lemma_step_material(pos, sq, k);
        lemma_turn_keeps_full_set(step_board(pos, sq, k)->0);
    } else {
        let (hi, sq) = choose|hi: usize, sq: usize|
            hi < 3 && sq < 15 && hand(pos, hi) != 0 && #[trigger] drop_result(pos, hi, sq) == Some(s);
        lemma_drop_material(pos, hi, sq);
        lemma_turn_keeps_full_set(with_hand(with_cell(pos, sq, dropped_piece(hi)), hi, (hand(pos, hi) - 1) as u32));
    }
}

/// Nothing is stored from bit 60 up: the hand fields and the bits above them are zero.
pub proof fn lemma_zero_above(p: Pos, sh: usize)
    by (bit_vector)
    requires
        p >> 60usize == 0,
        60 <= sh <= 70,
    ensures
        (p >> sh) & 0x3 == 0,
        p >> 72usize == 0,
{
}

/// The starting position, and its representative, hold the full set.
pub proof fn lemma_initial_full_set(p: Pos)
    requires
        is_initial(p),
    ensures
        full_set(p),
        full_set(canonical_of(p)),
{
    assert forall|i: usize| i < 15 implies #[trigger] cell(p, i) <= 10 by {
        assert(cell(p, i) == initial_cell(i as int));
    }
    lemma_zero_above(p, 60);
    lemma_zero_above(p, 62);
    lemma_zero_above(p, 64);
    lemma_zero_above(p, 66);
    lemma_zero_above(p, 68);
    lemma_zero_above(p, 70);
    assert(hand(p, 0) == 0 && hand(p, 1) == 0 && hand(p, 2) == 0);
    assert(hand(p, 3) == 0 && hand(p, 4) == 0 && hand(p, 5) == 0);
    assert forall|kk: int| 0 <= kk < 4 implies #[trigger] material(p, kk) == 2 by {
        lemma_count_all(p, kk);
        assert(cell(p, 0) == 8 && cell(p, 1) == 6 && cell(p, 2) == 7 && cell(p, 3) == 0 && cell(p, 4) == 9);
        assert(cell(p, 5) == 0 && cell(p, 6) == 0 && cell(p, 7) == 0 && cell(p, 8) == 0 && cell(p, 9) == 0);
        assert(cell(p, 10) == 4 && cell(p, 11) == 0 && cell(p, 12) == 2 && cell(p, 13) == 1 && cell(p, 14) == 3);
    }
    lemma_canonical_full_set(p);
}

proof fn lemma_path_full_set(seeds: Set<Pos>, path: Seq<Pos>, i: int)
    requires
        forall|x: Pos| seeds.contains(x) ==> full_set(x),
        is_path(seeds, path),
        0 <= i < path.len(),
    ensures
        full_set(path[i]),
    decreases i,
{
    if i > 0 {
        lemma_path_full_set(seeds, path, i - 1);
        let j = i - 1;
        assert(next_pos(path[j], path[j + 1]));
        lemma_successors_keep_full_set(path[j], path[j + 1]);
    }
}

/// Every position reachable from seeds that hold the full set holds the full set.
pub proof fn lemma_reachable_full_set(seeds: Set<Pos>, q: Pos)
    requires
        forall|x: Pos| seeds.contains(x) ==> full_set(x),
        reachable(seeds, q),
    ensures
        full_set(q),
{
    let path = choose|path: Seq<Pos>| #[trigger] is_path(seeds, path) && path.last() == q;
    lemma_path_full_set(seeds, path, path.len() - 1);
}

/// A position with the full set has at most two pieces in any hand slot, so every hand count
/// fits its two bits.
pub proof fn lemma_full_set_hands(pos: Pos)
    requires
        full_set(pos),
    ensures
        forall|idx: usize| idx < 6 ==> #[trigger] hand(pos, idx) <= 2,
{
    assert(material(pos, 1) == 2);
    assert(material(pos, 2) == 2);
    assert(material(pos, 3) == 2);
}

} // verus!
