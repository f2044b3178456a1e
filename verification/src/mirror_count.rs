use vstd::prelude::*;
use crate::Pos;
use crate::encoding::{cell, hand};
use crate::symmetry::{mirror_lr, reflection};
use crate::rules::{successors, step_result, drop_result, offsets, board_moves, piece_steps, steps_from, drop_moves, hand_drops, drops_from, opt_seq};
use crate::mirror::{mirror_step, lemma_step_mirror, lemma_drop_mirror, lemma_reflection_of};

verus! {

/// How many times `x` occurs in `s`.
pub open spec fn occurrences(s: Seq<Pos>, x: Pos) -> nat {
    s.to_multiset().count(x)
}

proof fn lemma_occurrences_concat(a: Seq<Pos>, b: Seq<Pos>, x: Pos)
    ensures
        occurrences(a + b, x) == occurrences(a, x) + occurrences(b, x),
{
    broadcast use vstd::multiset::group_multiset_axioms;

    vstd::seq_lib::lemma_multiset_commutative(a, b);
}

proof fn lemma_occurrences_opt(o: Option<Pos>, x: Pos)
    ensures
        occurrences(opt_seq(o), x) == if o == Some(x) { 1nat } else { 0nat },
{
    broadcast use {vstd::multiset::group_multiset_axioms, vstd::seq_lib::group_to_multiset_ensures, vstd::multiset::lemma_multiset_empty_len};

    match o {
        Some(y) => {
            assert(seq![y] =~= Seq::<Pos>::empty().push(y));
            assert(Seq::<Pos>::empty().to_multiset().len() == 0);
        },
        None => {
            assert(Seq::<Pos>::empty().to_multiset().len() == 0);
        },
    }
}

/// How many of `f(0) .. f(n - 1)` are `Some(x)`.
spec fn hits(f: spec_fn(int) -> Option<Pos>, x: Pos, n: nat) -> nat
    decreases n,
{
    if n == 0 {
        0
    } else {
        hits(f, x, (n - 1) as nat) + if f(n - 1) == Some(x) { 1nat } else { 0nat }
    }
}

proof fn lemma_steps_from_occurrences(pos: Pos, sq: usize, x: Pos, n: nat)
    ensures
        occurrences(steps_from(pos, sq, n), x) == hits(|k: int| step_result(pos, sq, k), x, n),
    decreases n,
{
    broadcast use {vstd::multiset::group_multiset_axioms, vstd::seq_lib::group_to_multiset_ensures, vstd::multiset::lemma_multiset_empty_len};

    if n == 0 {
        assert(Seq::<Pos>::empty().to_multiset().len() == 0);
    } else {
        lemma_steps_from_occurrences(pos, sq, x, (n - 1) as nat);
        lemma_occurrences_concat(steps_from(pos, sq, (n - 1) as nat), opt_seq(step_result(pos, sq, n - 1)), x);
        lemma_occurrences_opt(step_result(pos, sq, n - 1), x);
    }
}

/// Reordering the steps of a piece by its left-right mirror keeps how many lead to `x`.
proof fn lemma_hits_steps(a: spec_fn(int) -> Option<Pos>, b: spec_fn(int) -> Option<Pos>, x: Pos, piece: u32)
    requires
        1 <= piece <= 5,
        forall|k: int| 0 <= k < offsets(piece).len() ==> #[trigger] b(k) == a(mirror_step(piece, k)),
    ensures
        hits(a, x, offsets(piece).len()) == hits(b, x, offsets(piece).len()),
{
    reveal_with_fuel(hits, 9);
    if piece == 1 {
        assert(b(0) == a(2)) by { assert(mirror_step(1, 0) == 2); }
        assert(b(1) == a(1)) by { assert(mirror_step(1, 1) == 1); }
        assert(b(2) == a(0)) by { assert(mirror_step(1, 2) == 0); }
        assert(b(3) == a(4)) by { assert(mirror_step(1, 3) == 4); }
        assert(b(4) == a(3)) by { assert(mirror_step(1, 4) == 3); }
        assert(b(5) == a(7)) by { assert(mirror_step(1, 5) == 7); }
        assert(b(6) == a(6)) by { assert(mirror_step(1, 6) == 6); }
        assert(b(7) == a(5)) by { assert(mirror_step(1, 7) == 5); }
    }
    if piece == 2 {
        assert(b(0) == a(1)) by { assert(mirror_step(2, 0) == 1); }
        assert(b(1) == a(0)) by { assert(mirror_step(2, 1) == 0); }
        assert(b(2) == a(3)) by { assert(mirror_step(2, 2) == 3); }
        assert(b(3) == a(2)) by { assert(mirror_step(2, 3) == 2); }
    }
    if piece == 3 {
        assert(b(0) == a(0)) by { assert(mirror_step(3, 0) == 0); }
        assert(b(1) == a(1)) by { assert(mirror_step(3, 1) == 1); }
        assert(b(2) == a(3)) by { assert(mirror_step(3, 2) == 3); }
        assert(b(3) == a(2)) by { assert(mirror_step(3, 3) == 2); }
    }
    if piece == 4 {
        assert(b(0) == a(0)) by { assert(mirror_step(4, 0) == 0); }
    }
    if piece == 5 {
        assert(b(0) == a(2)) by { assert(mirror_step(5, 0) == 2); }
        assert(b(1) == a(1)) by { assert(mirror_step(5, 1) == 1); }
        assert(b(2) == a(0)) by { assert(mirror_step(5, 2) == 0); }
        assert(b(3) == a(4)) by { assert(mirror_step(5, 3) == 4); }
        assert(b(4) == a(3)) by { assert(mirror_step(5, 4) == 3); }
        assert(b(5) == a(5)) by { assert(mirror_step(5, 5) == 5); }
    }
}

/// Reordering the squares by the left-right mirror keeps how many lead to `x`.
#[verifier::rlimit(80)]
proof fn lemma_hits_squares(a: spec_fn(int) -> Option<Pos>, b: spec_fn(int) -> Option<Pos>, x: Pos)
    requires
        forall|i: int| 0 <= i < 15 ==> #[trigger] b(i) == a(mirror_lr(i)),
    ensures
        hits(a, x, 15) == hits(b, x, 15),
{
    reveal_with_fuel(hits, 16);
    assert(b(0) == a(2)) by { assert(mirror_lr(0) == 2); }
    assert(b(1) == a(1)) by { assert(mirror_lr(1) == 1); }
    assert(b(2) == a(0)) by { assert(mirror_lr(2) == 0); }
    assert(b(3) == a(5)) by { assert(mirror_lr(3) == 5); }
    assert(b(4) == a(4)) by { assert(mirror_lr(4) == 4); }
    assert(b(5) == a(3)) by { assert(mirror_lr(5) == 3); }
    assert(b(6) == a(8)) by { assert(mirror_lr(6) == 8); }
    assert(b(7) == a(7)) by { assert(mirror_lr(7) == 7); }
    assert(b(8) == a(6)) by { assert(mirror_lr(8) == 6); }
    assert(b(9) == a(11)) by { assert(mirror_lr(9) == 11); }
    assert(b(10) == a(10)) by { assert(mirror_lr(10) == 10); }
    assert(b(11) == a(9)) by { assert(mirror_lr(11) == 9); }
    assert(b(12) == a(14)) by { assert(mirror_lr(12) == 14); }
    assert(b(13) == a(13)) by { assert(mirror_lr(13) == 13); }
    assert(b(14) == a(12)) by { assert(mirror_lr(14) == 12); }
}

/// How many times `x` comes from the pieces on squares `0..n`.
spec fn piece_hits(pos: Pos, x: Pos, n: nat) -> nat
    decreases n,
{
    if n == 0 {
        0
    } else {
        piece_hits(pos, x, (n - 1) as nat) + occurrences(piece_steps(pos, (n - 1) as usize), x)
    }
}

proof fn lemma_board_moves_occurrences(pos: Pos, x: Pos, n: nat)
    ensures
        occurrences(board_moves(pos, n), x) == piece_hits(pos, x, n),
    decreases n,
{
    broadcast use {vstd::multiset::group_multiset_axioms, vstd::seq_lib::group_to_multiset_ensures, vstd::multiset::lemma_multiset_empty_len};

    if n == 0 {
        assert(Seq::<Pos>::empty().to_multiset().len() == 0);
    } else {
        lemma_board_moves_occurrences(pos, x, (n - 1) as nat);
        lemma_occurrences_concat(board_moves(pos, (n - 1) as nat), piece_steps(pos, (n - 1) as usize), x);
    }
}

proof fn lemma_drops_from_occurrences(pos: Pos, hi: usize, x: Pos, n: nat)
    ensures
        occurrences(drops_from(pos, hi, n), x) == hits(|sq: int| drop_result(pos, hi, sq as usize), x, n),
    decreases n,
{
    broadcast use {vstd::multiset::group_multiset_axioms, vstd::seq_lib::group_to_multiset_ensures, vstd::multiset::lemma_multiset_empty_len};

    if n == 0 {
        assert(Seq::<Pos>::empty().to_multiset().len() == 0);
    } else {
        lemma_drops_from_occurrences(pos, hi, x, (n - 1) as nat);
        lemma_occurrences_concat(drops_from(pos, hi, (n - 1) as nat), opt_seq(drop_result(pos, hi, (n - 1) as usize)), x);
        lemma_occurrences_opt(drop_result(pos, hi, (n - 1) as usize), x);
    }
}

/// The steps of a piece and of its mirror image lead to `x` equally often.
proof fn lemma_piece_steps_mirror_occurrences(p: Pos, sq: usize, x: Pos)
    requires
        sq < 15,
    ensures
        occurrences(piece_steps(reflection(p), mirror_lr(sq as int) as usize), x) == occurrences(piece_steps(p, sq), x),
{
    let r = reflection(p);
    let msq = mirror_lr(sq as int) as usize;
    let piece = cell(p, sq);
    lemma_reflection_of(p);
    assert(mirror_lr(msq as int) == sq);
    assert(cell(r, msq) == piece);
    if 1 <= piece <= 5 {
        let n = offsets(piece).len();
        lemma_steps_from_occurrences(r, msq, x, n);
        lemma_steps_from_occurrences(p, sq, x, n);
        let fa = |k: int| step_result(r, msq, k);
        let fb = |k: int| step_result(p, sq, k);
        assert forall|k: int| 0 <= k < n implies #[trigger] fb(k) == fa(mirror_step(piece, k)) by {
            lemma_step_mirror(p, sq, k);
        }
        lemma_hits_steps(fa, fb, x, piece);
    }
}

/// Drops out of the same slot on a square and on its mirror square of the mirror image lead to
/// `x` equally often.
proof fn lemma_drops_mirror_occurrences(p: Pos, hi: usize, x: Pos)
    requires
        hi < 3,
    ensures
        occurrences(hand_drops(reflection(p), hi), x) == occurrences(hand_drops(p, hi), x),
{
    lemma_drop_mirror(p, hi, 0);
    if hand(p, hi) != 0 {
        lemma_drops_from_occurrences(reflection(p), hi, x, 15);
        lemma_drops_from_occurrences(p, hi, x, 15);
        let fa = |sq: int| drop_result(reflection(p), hi, sq as usize);
        let fb = |sq: int| drop_result(p, hi, sq as usize);
        assert forall|i: int| 0 <= i < 15 implies #[trigger] fb(i) == fa(mirror_lr(i)) by {
            lemma_drop_mirror(p, hi, i as usize);
        }
        lemma_hits_squares(fa, fb, x);
    }
}

/// A position and its mirror image have the same successors, each as often: the generator
/// emits the same representatives for both, only in another order.
pub proof fn lemma_mirror_same_successor_counts(p: Pos)
    ensures
        successors(p).to_multiset() == successors(reflection(p)).to_multiset(),
{
    let r = reflection(p);
    assert forall|x: Pos| #[trigger] successors(p).to_multiset().count(x) == successors(r).to_multiset().count(x) by {
        lemma_occurrences_concat(board_moves(p, 15), drop_moves(p, 3), x);
        lemma_occurrences_concat(board_moves(r, 15), drop_moves(r, 3), x);
        lemma_board_moves_occurrences(p, x, 15);
        lemma_board_moves_occurrences(r, x, 15);
        reveal_with_fuel(piece_hits, 16);
        lemma_piece_steps_mirror_occurrences(p, 0, x);
        assert(mirror_lr(0) == 2);
        lemma_piece_steps_mirror_occurrences(p, 1, x);
        assert(mirror_lr(1) == 1);
        lemma_piece_steps_mirror_occurrences(p, 2, x);
        assert(mirror_lr(2) == 0);
        lemma_piece_steps_mirror_occurrences(p, 3, x);
        assert(mirror_lr(3) == 5);
        lemma_piece_steps_mirror_occurrences(p, 4, x);
        assert(mirror_lr(4) == 4);
        lemma_piece_steps_mirror_occurrences(p, 5, x);
        assert(mirror_lr(5) == 3);
        lemma_piece_steps_mirror_occurrences(p, 6, x);
        assert(mirror_lr(6) == 8);
        lemma_piece_steps_mirror_occurrences(p, 7, x);
        assert(mirror_lr(7) == 7);
        lemma_piece_steps_mirror_occurrences(p, 8, x);
        assert(mirror_lr(8) == 6);
        lemma_piece_steps_mirror_occurrences(p, 9, x);
        assert(mirror_lr(9) == 11);
        lemma_piece_steps_mirror_occurrences(p, 10, x);
        assert(mirror_lr(10) == 10);
        lemma_piece_steps_mirror_occurrences(p, 11, x);
        assert(mirror_lr(11) == 9);
        lemma_piece_steps_mirror_occurrences(p, 12, x);
        assert(mirror_lr(12) == 14);
        lemma_piece_steps_mirror_occurrences(p, 13, x);
        assert(mirror_lr(13) == 13);
        lemma_piece_steps_mirror_occurrences(p, 14, x);
        assert(mirror_lr(14) == 12);
        let d0 = drop_moves(p, 0);
        lemma_occurrences_concat(drop_moves(p, 2), hand_drops(p, 2), x);
        lemma_occurrences_concat(drop_moves(p, 1), hand_drops(p, 1), x);
        lemma_occurrences_concat(drop_moves(p, 0), hand_drops(p, 0), x);
        lemma_occurrences_concat(drop_moves(r, 2), hand_drops(r, 2), x);
        lemma_occurrences_concat(drop_moves(r, 1), hand_drops(r, 1), x);
        lemma_occurrences_concat(drop_moves(r, 0), hand_drops(r, 0), x);
        lemma_drops_mirror_occurrences(p, 0, x);
        lemma_drops_mirror_occurrences(p, 1, x);
        lemma_drops_mirror_occurrences(p, 2, x);
        assert(drop_moves(r, 0) == d0);
    }
    assert(successors(p).to_multiset() =~= successors(r).to_multiset());
}

} // verus!
