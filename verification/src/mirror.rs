use vstd::prelude::*;
use crate::{Pos, HAND_SHIFT};
use crate::encoding::{cell, hand, with_cell, with_hand, lemma_with_cell, lemma_cell_with_hand, lemma_high_with_cell, group_field_bounds};
use crate::symmetry::{mirror_lr, is_reflection, reflection, lemma_reflect_witness, lemma_reflection_is, lemma_reflection_involution, canonical_of, lemma_canonical_reflection, flipped, lemma_flip_reflection_commute, lemma_hand_from_high};
use crate::rules::{successors, lemma_successor_origin, is_step_of, is_drop_of, step_board, step_result, drop_result, offsets, promoted, captured_hand, dropped_piece, board_moves, piece_steps, steps_from, drop_moves, hand_drops, drops_from, opt_seq};

verus! {

broadcast use group_field_bounds;

/// The mirror image of `p` is the one `reflection` names.
pub(crate) proof fn lemma_reflection_of(p: Pos)
    ensures
        is_reflection(reflection(p), p),
{
    lemma_reflect_witness(p);
}

/// Writing a square and then mirroring is mirroring and then writing the mirror square.
proof fn lemma_reflection_with_cell(p: Pos, sq: usize, v: u32)
    requires
        sq < 15,
        v < 16,
    ensures
        reflection(with_cell(p, sq, v)) == with_cell(reflection(p), mirror_lr(sq as int) as usize, v),
{
    let r = reflection(p);
    let q = with_cell(p, sq, v);
    let msq = mirror_lr(sq as int) as usize;
    let w = with_cell(r, msq, v);
    lemma_reflection_of(p);
    lemma_with_cell(p, sq, v);
    lemma_with_cell(r, msq, v);
    assert forall|i: usize| i < 15 implies #[trigger] cell(w, i) == cell(q, mirror_lr(i as int) as usize) by {
        let j = mirror_lr(i as int) as usize;
        assert(mirror_lr(j as int) == i);
        if i == msq {
            assert(j == sq);
        } else {
            assert(j != sq);
            assert(cell(w, i) == cell(r, i));
            assert(cell(r, i) == cell(p, j));
            assert(cell(q, j) == cell(p, j));
        }
    }
    lemma_high_with_cell(p, sq, v);
    lemma_high_with_cell(r, msq, v);
    lemma_reflection_is(w, q);
}

/// Writing a hand field gives the same bits from 60 up on two positions that agree there.
proof fn lemma_high_with_hand(a: Pos, b: Pos, sh: usize, v: u32)
    by (bit_vector)
    requires
        a >> 60usize == b >> 60usize,
        60 <= sh <= 70,
    ensures
        ((a & !(0x3u128 << sh)) | ((v as u128) << sh)) >> 60usize == ((b & !(0x3u128 << sh)) | ((v as u128) << sh)) >> 60usize,
{
}

/// Writing a hand count and then mirroring is mirroring and then writing it.
proof fn lemma_reflection_with_hand(p: Pos, h: usize, v: u32)
    requires
        h < 6,
    ensures
        reflection(with_hand(p, h, v)) == with_hand(reflection(p), h, v),
{
    let r = reflection(p);
    let q = with_hand(p, h, v);
    let w = with_hand(r, h, v);
    lemma_reflection_of(p);
    assert forall|i: usize| i < 15 implies #[trigger] cell(w, i) == cell(q, mirror_lr(i as int) as usize) by {
        let j = mirror_lr(i as int) as usize;
        lemma_cell_with_hand(r, h, v, i);
        lemma_cell_with_hand(p, h, v, j);
    }
    lemma_high_with_hand(r, p, (HAND_SHIFT + h * 2) as usize, v);
    lemma_reflection_is(w, q);
}

/// The step of the same piece that goes the other way sideways.
pub(crate) open spec fn mirror_step(p: u32, k: int) -> int {
    if p == 1 {
        if k == 0 { 2 } else if k == 1 { 1 } else if k == 2 { 0 } else if k == 3 { 4 } else if k == 4 { 3 }
        else if k == 5 { 7 } else if k == 6 { 6 } else { 5 }
    } else if p == 2 {
        if k == 0 { 1 } else if k == 1 { 0 } else if k == 2 { 3 } else { 2 }
    } else if p == 3 {
        if k == 0 { 0 } else if k == 1 { 1 } else if k == 2 { 3 } else { 2 }
    } else if p == 4 {
        0
    } else {
        if k == 0 { 2 } else if k == 1 { 1 } else if k == 2 { 0 } else if k == 3 { 4 } else if k == 4 { 3 } else { 5 }
    }
}

/// Every piece's steps are symmetric left to right.
proof fn lemma_mirror_step(p: u32, k: int)
    requires
        1 <= p <= 5,
        0 <= k < offsets(p).len(),
    ensures
        0 <= mirror_step(p, k) < offsets(p).len(),
        offsets(p)[mirror_step(p, k)].0 == offsets(p)[k].0,
        offsets(p)[mirror_step(p, k)].1 == -offsets(p)[k].1,
{
    if k == 0 {
    } else if k == 1 {
    } else if k == 2 {
    } else if k == 3 {
    } else if k == 4 {
    } else if k == 5 {
    } else if k == 6 {
    } else {
    }
}

/// Seeing a mirrored position from the other side and taking the representative is the same
/// as doing so for the position.
proof fn lemma_turn_mirror(x: Pos)
    ensures
        canonical_of(flipped(reflection(x))) == canonical_of(flipped(x)),
{
    lemma_flip_reflection_commute(x);
    lemma_canonical_reflection(flipped(x));
}

/// The mirrored step on the mirror image gives the mirror image of the step.
pub(crate) proof fn lemma_step_mirror(p: Pos, sq: usize, k: int)
    requires
        sq < 15,
        1 <= cell(p, sq) <= 5,
        0 <= k < offsets(cell(p, sq)).len(),
    ensures
        ({
            let piece = cell(p, sq);
            let r = reflection(p);
            let msq = mirror_lr(sq as int) as usize;
            &&& msq < 15
            &&& cell(r, msq) == piece
            &&& 0 <= mirror_step(piece, k) < offsets(piece).len()
            &&& step_result(r, msq, mirror_step(piece, k)) == step_result(p, sq, k)
        }),
{
    let piece = cell(p, sq);
    let r = reflection(p);
    let msq = mirror_lr(sq as int) as usize;
    let k2 = mirror_step(piece, k);
    lemma_reflection_of(p);
    lemma_mirror_step(piece, k);
    assert(mirror_lr(msq as int) == sq);
    assert(cell(r, msq) == piece);
    let d = offsets(piece)[k];
    let d2 = offsets(piece)[k2];
    let nr = (sq / 3) as int + d.0;
    let nc = (sq % 3) as int + d.1;
    let nr2 = (msq / 3) as int + d2.0;
    let nc2 = (msq % 3) as int + d2.1;
    assert(msq / 3 == sq / 3 && msq % 3 == 2 - sq % 3);
    assert(nr2 == nr && nc2 == 2 - nc);
    if !(nr < 0 || nr >= 5 || nc < 0 || nc >= 3) {
        let nsq = (nr * 3 + nc) as usize;
        let nsq2 = (nr2 * 3 + nc2) as usize;
        assert(nsq2 == mirror_lr(nsq as int));
        assert(mirror_lr(nsq2 as int) == nsq);
        assert(cell(r, nsq2) == cell(p, nsq));
        let t = cell(p, nsq);
        if !((1 <= t <= 5) || t == 6) {
            let q = promoted(piece, nr);
            let np0 = with_cell(p, sq, 0);
            let np1 = with_cell(np0, nsq, q);
            lemma_reflection_with_cell(p, sq, 0);
            lemma_reflection_with_cell(np0, nsq, q);
            assert(with_cell(with_cell(r, msq, 0), nsq2, q) == reflection(np1));
            if 7 <= t <= 10 {
                let hi = captured_hand(t);
                lemma_reflection_of(np1);
                lemma_hand_from_high(reflection(np1), np1, hi);
                let v = (hand(np1, hi) + 1) as u32;
                lemma_reflection_with_hand(np1, hi, v);
                assert(step_board(r, msq, k2) == Some(reflection(with_hand(np1, hi, v))));
                assert(step_board(p, sq, k) == Some(with_hand(np1, hi, v)));
                lemma_turn_mirror(with_hand(np1, hi, v));
            } else {
                assert(step_board(r, msq, k2) == Some(reflection(np1)));
                assert(step_board(p, sq, k) == Some(np1));
                lemma_turn_mirror(np1);
            }
        }
    }
}

/// The same drop on the mirror square of the mirror image gives the same successor.
pub(crate) proof fn lemma_drop_mirror(p: Pos, hi: usize, sq: usize)
    requires
        hi < 3,
        sq < 15,
    ensures
        mirror_lr(sq as int) < 15,
        hand(reflection(p), hi) == hand(p, hi),
        drop_result(reflection(p), hi, mirror_lr(sq as int) as usize) == drop_result(p, hi, sq),
{
    let r = reflection(p);
    let msq = mirror_lr(sq as int) as usize;
    lemma_reflection_of(p);
    assert(mirror_lr(msq as int) == sq);
    assert(cell(r, msq) == cell(p, sq));
    lemma_hand_from_high(r, p, hi);
    if cell(p, sq) == 0 {
        let dp = dropped_piece(hi);
        let np1 = with_cell(p, sq, dp);
        let v = (hand(p, hi) - 1) as u32;
        lemma_reflection_with_cell(p, sq, dp);
        lemma_reflection_with_hand(np1, hi, v);
        assert(with_hand(with_cell(r, msq, dp), hi, (hand(r, hi) - 1) as u32) == reflection(with_hand(np1, hi, v)));
        lemma_turn_mirror(with_hand(np1, hi, v));
    }
}

proof fn lemma_steps_from_contains(pos: Pos, sq: usize, n: nat, k: int, s: Pos)
    requires
        0 <= k < n,
        step_result(pos, sq, k) == Some(s),
    ensures
        steps_from(pos, sq, n).contains(s),
    decreases n,
{
    let a = steps_from(pos, sq, (n - 1) as nat);
    let o = opt_seq(step_result(pos, sq, n - 1));
    if k < n - 1 {
        lemma_steps_from_contains(pos, sq, (n - 1) as nat, k, s);
        let i = choose|i: int| 0 <= i < a.len() && a[i] == s;
        assert((a + o)[i] == s);
    } else {
        assert(o[0] == s);
        assert((a + o)[a.len() as int] == s);
    }
}

proof fn lemma_board_moves_contains(pos: Pos, n: nat, sq: usize, s: Pos)
    requires
        sq < n,
        piece_steps(pos, sq).contains(s),
    ensures
        board_moves(pos, n).contains(s),
    decreases n,
{
    let a = board_moves(pos, (n - 1) as nat);
    let b = piece_steps(pos, (n - 1) as usize);
    if sq < n - 1 {
        lemma_board_moves_contains(pos, (n - 1) as nat, sq, s);
        let i = choose|i: int| 0 <= i < a.len() && a[i] == s;
        assert((a + b)[i] == s);
    } else {
        let i = choose|i: int| 0 <= i < b.len() && b[i] == s;
        assert((a + b)[a.len() + i] == s);
    }
}

proof fn lemma_drops_from_contains(pos: Pos, hi: usize, n: nat, sq: usize, s: Pos)
    requires
        sq < n,
        drop_result(pos, hi, sq) == Some(s),
    ensures
        drops_from(pos, hi, n).contains(s),
    decreases n,
{
    let a = drops_from(pos, hi, (n - 1) as nat);
    let o = opt_seq(drop_result(pos, hi, (n - 1) as usize));
    if sq < n - 1 {
        lemma_drops_from_contains(pos, hi, (n - 1) as nat, sq, s);
        let i = choose|i: int| 0 <= i < a.len() && a[i] == s;
        assert((a + o)[i] == s);
    } else {
        assert(o[0] == s);
        assert((a + o)[a.len() as int] == s);
    }
}

proof fn lemma_drop_moves_contains(pos: Pos, h: nat, hi: usize, s: Pos)
    requires
        hi < h,
        hand_drops(pos, hi).contains(s),
    ensures
        drop_moves(pos, h).contains(s),
    decreases h,
{
    let a = drop_moves(pos, (h - 1) as nat);
    let b = hand_drops(pos, (h - 1) as usize);
    if hi < h - 1 {
        lemma_drop_moves_contains(pos, (h - 1) as nat, hi, s);
        let i = choose|i: int| 0 <= i < a.len() && a[i] == s;
        assert((a + b)[i] == s);
    } else {
        let i = choose|i: int| 0 <= i < b.len() && b[i] == s;
        assert((a + b)[a.len() + i] == s);
    }
}

/// Every successor of `p` is a successor of its mirror image.
proof fn lemma_mirror_successor(p: Pos, s: Pos)
    requires
        successors(p).contains(s),
    ensures
        successors(reflection(p)).contains(s),
{
    let r = reflection(p);
    let a = board_moves(r, 15);
    let b = drop_moves(r, 3);
    lemma_successor_origin(p, s);
    if is_step_of(p, s) {
        let (sq, k) = choose|sq: usize, k: int|
            sq < 15 && 1 <= cell(p, sq) <= 5 && 0 <= k < offsets(cell(p, sq)).len()
                && #[trigger] step_result(p, sq, k) == Some(s);
        lemma_step_mirror(p, sq, k);
        let msq = mirror_lr(sq as int) as usize;
        let k2 = mirror_step(cell(p, sq), k);
        lemma_steps_from_contains(r, msq, offsets(cell(r, msq)).len(), k2, s);
        assert(piece_steps(r, msq).contains(s));
        lemma_board_moves_contains(r, 15, msq, s);
        let i = choose|i: int| 0 <= i < a.len() && a[i] == s;
        assert((a + b)[i] == s);
    } else {
        let (hi, sq) = choose|hi: usize, sq: usize|
            hi < 3 && sq < 15 && hand(p, hi) != 0 && #[trigger] drop_result(p, hi, sq) == Some(s);
        lemma_drop_mirror(p, hi, sq);
        let msq = mirror_lr(sq as int) as usize;
        lemma_drops_from_contains(r, hi, 15, msq, s);
        assert(hand_drops(r, hi).contains(s));
        lemma_drop_moves_contains(r, 3, hi, s);
        let i = choose|i: int| 0 <= i < b.len() && b[i] == s;
        assert((a + b)[a.len() + i] == s);
    }
}

/// A position and its mirror image have the same successors, so identifying the two through
/// their representative loses no move.
pub proof fn lemma_mirror_same_successors(p: Pos, s: Pos)
    ensures
        successors(p).contains(s) <==> successors(reflection(p)).contains(s),
{
    if successors(p).contains(s) {
        lemma_mirror_successor(p, s);
    }
    if successors(reflection(p)).contains(s) {
        lemma_mirror_successor(reflection(p), s);
        lemma_reflection_involution(p);
    }
}

/// A position and its representative have the same successors.
pub proof fn lemma_canonical_same_successors(p: Pos, s: Pos)
    ensures
        successors(canonical_of(p)).contains(s) <==> successors(p).contains(s),
{
    lemma_mirror_same_successors(p, s);
}

} // verus!
