use vstd::prelude::*;
use crate::{Pos, ROWS, COLS, HAND_SHIFT};
use crate::encoding::{group_field_bounds, cell, hand, with_hand, get_hand, set_hand, lemma_hand_with_cell, lemma_top_with_hand, lemma_hand_with_hand_same, lemma_hand_with_hand_other, lemma_cell_with_hand, lemma_high_ext, lemma_cell_with_cell_other, lemma_cell_with_cell_same, lemma_high_with_cell, lemma_pos_ext, get_sq, set_sq, sq_idx, with_cell};

verus! {

broadcast use group_field_bounds;

/// The square that square `i` lands on under the left-right mirror.
pub open spec fn mirror_lr(i: int) -> int {
    (i / 3) * 3 + (2 - i % 3)
}

/// `r` is the left-right mirror image of `pos`: every square is taken from its mirror square,
/// and the bits from 60 up (hands and above) are kept.
pub open spec fn is_reflection(r: Pos, pos: Pos) -> bool {
    &&& forall|i: usize| i < 15 ==> #[trigger] cell(r, i) == cell(pos, mirror_lr(i as int) as usize)
    &&& r >> 60usize == pos >> 60usize
}

/// The left-right mirror image of `pos`.
pub open spec fn reflection(pos: Pos) -> Pos {
    choose|r: Pos| is_reflection(r, pos)
}

/// The representative of `pos` and its mirror image: the smaller of the two.
pub open spec fn canonical_of(pos: Pos) -> Pos {
    let r = reflection(pos);
    if pos < r { pos } else { r }
}

/// A position that is the mirror image of `pos`, written with masks.
pub open spec fn reflect_witness(pos: Pos) -> Pos {
    (pos & !0xFFF_FFFF_FFFF_FFFFu128) | ((pos & 0x00F_00F_00F_00F_00Fu128) << 8usize)
        | (pos & 0x0F0_0F0_0F0_0F0_0F0u128) | ((pos & 0xF00_F00_F00_F00_F00u128) >> 8usize)
}

/// The bit facts behind the mirror image written with masks: each of its squares holds the
/// mirror square of `pos`, and the bits from 60 up are those of `pos`.
proof fn lemma_reflect_fields(pos: Pos, w: Pos)
    by (bit_vector)
    requires
        w == (pos & !0xFFF_FFFF_FFFF_FFFFu128) | ((pos & 0x00F_00F_00F_00F_00Fu128) << 8usize)
            | (pos & 0x0F0_0F0_0F0_0F0_0F0u128) | ((pos & 0xF00_F00_F00_F00_F00u128) >> 8usize),
    ensures
        ((w >> 0usize) & 0xF) as u32 == ((pos >> 8usize) & 0xF) as u32,
        ((w >> 4usize) & 0xF) as u32 == ((pos >> 4usize) & 0xF) as u32,
        ((w >> 8usize) & 0xF) as u32 == ((pos >> 0usize) & 0xF) as u32,
        ((w >> 12usize) & 0xF) as u32 == ((pos >> 20usize) & 0xF) as u32,
        ((w >> 16usize) & 0xF) as u32 == ((pos >> 16usize) & 0xF) as u32,
        ((w >> 20usize) & 0xF) as u32 == ((pos >> 12usize) & 0xF) as u32,
        ((w >> 24usize) & 0xF) as u32 == ((pos >> 32usize) & 0xF) as u32,
        ((w >> 28usize) & 0xF) as u32 == ((pos >> 28usize) & 0xF) as u32,
        ((w >> 32usize) & 0xF) as u32 == ((pos >> 24usize) & 0xF) as u32,
        ((w >> 36usize) & 0xF) as u32 == ((pos >> 44usize) & 0xF) as u32,
        ((w >> 40usize) & 0xF) as u32 == ((pos >> 40usize) & 0xF) as u32,
        ((w >> 44usize) & 0xF) as u32 == ((pos >> 36usize) & 0xF) as u32,
        ((w >> 48usize) & 0xF) as u32 == ((pos >> 56usize) & 0xF) as u32,
        ((w >> 52usize) & 0xF) as u32 == ((pos >> 52usize) & 0xF) as u32,
        ((w >> 56usize) & 0xF) as u32 == ((pos >> 48usize) & 0xF) as u32,
        w >> 60usize == pos >> 60usize,
{
}

/// Every position has a mirror image.
pub proof fn lemma_reflect_witness(pos: Pos)
    ensures
        is_reflection(reflect_witness(pos), pos),
{
    let w = reflect_witness(pos);
    lemma_reflect_fields(pos, w);
    assert(cell(w, 0) == cell(pos, mirror_lr(0) as usize));
    assert(cell(w, 1) == cell(pos, mirror_lr(1) as usize));
    assert(cell(w, 2) == cell(pos, mirror_lr(2) as usize));
    assert(cell(w, 3) == cell(pos, mirror_lr(3) as usize));
    assert(cell(w, 4) == cell(pos, mirror_lr(4) as usize));
    assert(cell(w, 5) == cell(pos, mirror_lr(5) as usize));
    assert(cell(w, 6) == cell(pos, mirror_lr(6) as usize));
    assert(cell(w, 7) == cell(pos, mirror_lr(7) as usize));
    assert(cell(w, 8) == cell(pos, mirror_lr(8) as usize));
    assert(cell(w, 9) == cell(pos, mirror_lr(9) as usize));
    assert(cell(w, 10) == cell(pos, mirror_lr(10) as usize));
    assert(cell(w, 11) == cell(pos, mirror_lr(11) as usize));
    assert(cell(w, 12) == cell(pos, mirror_lr(12) as usize));
    assert(cell(w, 13) == cell(pos, mirror_lr(13) as usize));
    assert(cell(w, 14) == cell(pos, mirror_lr(14) as usize));
    assert forall|i: usize| i < 15 implies #[trigger] cell(w, i) == cell(pos, mirror_lr(i as int) as usize) by {
        if i == 0 {} else if i == 1 {} else if i == 2 {} else if i == 3 {} else if i == 4 {}
        else if i == 5 {} else if i == 6 {} else if i == 7 {} else if i == 8 {} else if i == 9 {}
        else if i == 10 {} else if i == 11 {} else if i == 12 {} else if i == 13 {} else {}
    }
}

/// At most one position is the mirror image of a given one.
pub proof fn lemma_reflection_unique(a: Pos, b: Pos, pos: Pos)
    requires
        is_reflection(a, pos),
        is_reflection(b, pos),
    ensures
        a == b,
{
    assert forall|i: usize| i < 15 implies #[trigger] cell(a, i) == cell(b, i) by {
        assert(cell(a, i) == cell(pos, mirror_lr(i as int) as usize));
    }
    assert(cell(a, 0) == cell(b, 0));
    assert(cell(a, 1) == cell(b, 1));
    assert(cell(a, 2) == cell(b, 2));
    assert(cell(a, 3) == cell(b, 3));
    assert(cell(a, 4) == cell(b, 4));
    assert(cell(a, 5) == cell(b, 5));
    assert(cell(a, 6) == cell(b, 6));
    assert(cell(a, 7) == cell(b, 7));
    assert(cell(a, 8) == cell(b, 8));
    assert(cell(a, 9) == cell(b, 9));
    assert(cell(a, 10) == cell(b, 10));
    assert(cell(a, 11) == cell(b, 11));
    assert(cell(a, 12) == cell(b, 12));
    assert(cell(a, 13) == cell(b, 13));
    assert(cell(a, 14) == cell(b, 14));
    lemma_pos_ext(a, b);
}

/// A position that is the mirror image of `pos` is `reflection(pos)`.
pub proof fn lemma_reflection_is(r: Pos, pos: Pos)
    requires
        is_reflection(r, pos),
    ensures
        reflection(pos) == r,
{
    assert(is_reflection(reflection(pos), pos));
    lemma_reflection_unique(reflection(pos), r, pos);
}

/// Mirrors the board left to right; the hands are kept.
pub fn reflect_lr(pos: Pos) -> (new_pos: Pos)
    ensures
        is_reflection(new_pos, pos),
        new_pos == reflection(pos),
{
    assert(1u128 << 60usize == 0x1000_0000_0000_0000u128) by (bit_vector);
    let board_mask: Pos = (1u128 << HAND_SHIFT) - 1;
    let mut new_pos = pos & !board_mask;
    assert(board_mask == 0xFFF_FFFF_FFFF_FFFFu128) by (bit_vector)
        requires
            board_mask == (1u128 << 60usize) - 1,
    ;
    assert((pos & !board_mask) >> 60usize == pos >> 60usize) by (bit_vector)
        requires
            board_mask == 0xFFF_FFFF_FFFF_FFFFu128,
    ;
    for r in 0..ROWS
        invariant
            new_pos >> 60usize == pos >> 60usize,
            forall|i: usize|
                i < 15 && mirror_lr(i as int) < r * 3 ==> #[trigger] cell(new_pos, i) == cell(
                    pos,
                    mirror_lr(i as int) as usize,
                ),
    {
        for c in 0..COLS
            invariant
                0 <= r < 5,
                new_pos >> 60usize == pos >> 60usize,
                forall|i: usize|
                    i < 15 && mirror_lr(i as int) < r * 3 + c ==> #[trigger] cell(new_pos, i)
                        == cell(pos, mirror_lr(i as int) as usize),
        {
            let src = sq_idx(r, c);
            let dst = sq_idx(r, COLS - 1 - c);
            let v = get_sq(pos, src);
            proof {
                lemma_high_with_cell(new_pos, dst, v);
                lemma_cell_with_cell_same(new_pos, dst, v);
                assert forall|i: usize| i < 15 && i != dst implies #[trigger] cell(
                    with_cell(new_pos, dst, v),
                    i,
                ) == cell(new_pos, i) by {
                    lemma_cell_with_cell_other(new_pos, dst, v, i);
                }
                assert(mirror_lr(dst as int) == src);
            }
            new_pos = set_sq(new_pos, dst, v);
        }
    }
    proof {
        lemma_reflection_is(new_pos, pos);
    }
    new_pos
}

/// The mirror image of the mirror image is the position itself.
pub proof fn lemma_reflection_involution(pos: Pos)
    ensures
        reflection(reflection(pos)) == pos,
{
    let r = reflection(pos);
    lemma_reflect_witness(pos);
    assert(is_reflection(r, pos));
    assert(is_reflection(pos, r)) by {
        assert forall|i: usize| i < 15 implies #[trigger] cell(pos, i) == cell(r, mirror_lr(i as int) as usize) by {
            let j = mirror_lr(i as int) as usize;
            assert(cell(r, j) == cell(pos, mirror_lr(j as int) as usize));
        }
    }
    lemma_reflection_is(pos, r);
}

/// The representative of `pos` under the left-right mirror: the smaller of the two.
pub fn canonical(pos: Pos) -> (c: Pos)
    ensures
        c == canonical_of(pos),
        c == pos || c == reflection(pos),
        c <= pos,
        c <= reflection(pos),
{
    let r = reflect_lr(pos);
    if pos < r { pos } else { r }
}

/// A position and its mirror image have the same representative.
pub proof fn lemma_canonical_reflection(pos: Pos)
    ensures
        canonical_of(reflection(pos)) == canonical_of(pos),
{
    lemma_reflection_involution(pos);
}

/// Taking the representative twice gives the representative.
pub proof fn lemma_canonical_idempotent(pos: Pos)
    ensures
        canonical_of(canonical_of(pos)) == canonical_of(pos),
{
    lemma_reflection_involution(pos);
}

// ---------------------------------------------------------------------------
// Turning the board around.

/// The square that square `i` lands on when the board is turned upside down.
pub open spec fn mirror_v(i: int) -> int {
    (4 - i / 3) * 3 + i % 3
}

/// The piece code after the two sides swap colours: 1..=5 become 6..=10 and back; 0 stays empty.
pub open spec fn swap_owner(p: u32) -> u32 {
    if p == 0 {
        0
    } else if p <= 5 {
        (p + 5) as u32
    } else {
        (p - 5) as u32
    }
}

/// `r` is `pos` seen from the other side: squares are turned upside down and change owner,
/// the two players' hands swap, and nothing is kept above the hands.
pub open spec fn is_flip(r: Pos, pos: Pos) -> bool {
    &&& forall|i: usize|
        i < 15 ==> #[trigger] cell(r, mirror_v(i as int) as usize) == swap_owner(cell(pos, i))
    &&& forall|h: usize| h < 3 ==> #[trigger] hand(r, h) == hand(pos, (h + 3) as usize)
    &&& forall|h: usize| h < 3 ==> #[trigger] hand(r, (h + 3) as usize) == hand(pos, h)
    &&& r >> 72usize == 0
}

/// `pos` seen from the other side.
pub open spec fn flipped(pos: Pos) -> Pos {
    choose|r: Pos| is_flip(r, pos)
}

/// At most one position is `pos` seen from the other side.
pub proof fn lemma_flip_unique(a: Pos, b: Pos, pos: Pos)
    requires
        is_flip(a, pos),
        is_flip(b, pos),
    ensures
        a == b,
{
    assert forall|i: usize| i < 15 implies #[trigger] cell(a, i) == cell(b, i) by {
        let j = mirror_v(i as int) as usize;
        assert(mirror_v(j as int) == i);
        assert(cell(a, mirror_v(j as int) as usize) == swap_owner(cell(pos, j)));
    }
    assert(hand(a, 0) == hand(b, 0));
    assert(hand(a, 1) == hand(b, 1));
    assert(hand(a, 2) == hand(b, 2));
    assert(hand(a, 3) == hand(b, 3)) by { assert(hand(a, (0 + 3) as usize) == hand(pos, 0)); }
    assert(hand(a, 4) == hand(b, 4)) by { assert(hand(a, (1 + 3) as usize) == hand(pos, 1)); }
    assert(hand(a, 5) == hand(b, 5)) by { assert(hand(a, (2 + 3) as usize) == hand(pos, 2)); }
    lemma_high_ext(a, b);
    assert(cell(a, 0) == cell(b, 0));
    assert(cell(a, 1) == cell(b, 1));
    assert(cell(a, 2) == cell(b, 2));
    assert(cell(a, 3) == cell(b, 3));
    assert(cell(a, 4) == cell(b, 4));
    assert(cell(a, 5) == cell(b, 5));
    assert(cell(a, 6) == cell(b, 6));
    assert(cell(a, 7) == cell(b, 7));
    assert(cell(a, 8) == cell(b, 8));
    assert(cell(a, 9) == cell(b, 9));
    assert(cell(a, 10) == cell(b, 10));
    assert(cell(a, 11) == cell(b, 11));
    assert(cell(a, 12) == cell(b, 12));
    assert(cell(a, 13) == cell(b, 13));
    assert(cell(a, 14) == cell(b, 14));
    lemma_pos_ext(a, b);
}

/// A position that is `pos` seen from the other side is `flipped(pos)`.
pub proof fn lemma_flipped_is(r: Pos, pos: Pos)
    requires
        is_flip(r, pos),
    ensures
        flipped(pos) == r,
{
    assert(is_flip(flipped(pos), pos));
    lemma_flip_unique(flipped(pos), r, pos);
}

/// Turns the board around so that the other side is to move: squares are mirrored top to
/// bottom and change owner, and the two hands swap.
pub fn flip_perspective(pos: Pos) -> (new_pos: Pos)
    ensures
        is_flip(new_pos, pos),
        new_pos == flipped(pos),
{
    let mut new_pos: Pos = 0;
    assert(0u128 >> 72usize == 0) by (bit_vector);
    assert forall|h: usize| h < 6 implies #[trigger] hand(0, h) == 0 by {
        let sh: usize = (HAND_SHIFT + h * 2) as usize;
        assert(((0u128 >> sh) & 0x3) as u32 == 0) by (bit_vector);
    }
    for r in 0..ROWS
        invariant
            new_pos >> 72usize == 0,
            forall|h: usize| h < 6 ==> #[trigger] hand(new_pos, h) == 0,
            forall|i: usize|
                i < 15 && i < r * 3 ==> #[trigger] cell(new_pos, mirror_v(i as int) as usize)
                    == swap_owner(cell(pos, i)),
    {
        for c in 0..COLS
            invariant
                0 <= r < 5,
                new_pos >> 72usize == 0,
                forall|h: usize| h < 6 ==> #[trigger] hand(new_pos, h) == 0,
                forall|i: usize|
                    i < 15 && i < r * 3 + c ==> #[trigger] cell(new_pos, mirror_v(i as int) as usize)
                        == swap_owner(cell(pos, i)),
        {
            let p = get_sq(pos, sq_idx(r, c));
            let np = if p == 0 { 0 } else if p <= 5 { p + 5 } else { p - 5 };
            let dst = sq_idx(ROWS - 1 - r, c);
            proof {
                lemma_high_with_cell(new_pos, dst, np);
                lemma_cell_with_cell_same(new_pos, dst, np);
                assert forall|i: usize| i < 15 && i != dst implies #[trigger] cell(
                    with_cell(new_pos, dst, np),
                    i,
                ) == cell(new_pos, i) by {
                    lemma_cell_with_cell_other(new_pos, dst, np, i);
                }
                assert forall|h: usize| h < 6 implies #[trigger] hand(with_cell(new_pos, dst, np), h)
                    == hand(new_pos, h) by {
                    lemma_hand_with_cell(new_pos, dst, np, h);
                }
                assert(dst == mirror_v(r * 3 + c));
                assert forall|i: usize| i < 15 && i < r * 3 + c implies mirror_v(i as int) != dst by {
                    assert(mirror_v(mirror_v(i as int)) == i);
                }
            }
            new_pos = set_sq(new_pos, dst, np);
        }
    }
    let ghost board = new_pos;
    for i in 0..3
        invariant
            new_pos >> 72usize == 0,
            forall|j: usize| j < 15 ==> #[trigger] cell(new_pos, j) == cell(board, j),
            forall|h: usize| h < 3 && h < i ==> #[trigger] hand(new_pos, h) == hand(pos, (h + 3) as usize),
            forall|h: usize| h < 3 && h < i ==> #[trigger] hand(new_pos, (h + 3) as usize) == hand(pos, h),
            forall|h: usize| i <= h < 3 ==> #[trigger] hand(new_pos, h) == 0,
            forall|h: usize| i <= h < 3 ==> #[trigger] hand(new_pos, (h + 3) as usize) == 0,
    {
        let b = get_hand(pos, i);
        let w = get_hand(pos, 3 + i);
        let ghost p0 = new_pos;
        proof {
            lemma_top_with_hand(p0, i, w);
            lemma_hand_with_hand_same(p0, i, w);
            assert forall|h: usize| h < 6 && h != i implies #[trigger] hand(with_hand(p0, i, w), h)
                == hand(p0, h) by {
                lemma_hand_with_hand_other(p0, i, w, h);
            }
            assert forall|j: usize| j < 15 implies #[trigger] cell(with_hand(p0, i, w), j)
                == cell(p0, j) by {
                lemma_cell_with_hand(p0, i, w, j);
            }
        }
        new_pos = set_hand(new_pos, i, w);
        let ghost p1 = new_pos;
        proof {
            lemma_top_with_hand(p1, (3 + i) as usize, b);
            lemma_hand_with_hand_same(p1, (3 + i) as usize, b);
            assert forall|h: usize| h < 6 && h != 3 + i implies #[trigger] hand(
                with_hand(p1, (3 + i) as usize, b),
                h,
            ) == hand(p1, h) by {
                lemma_hand_with_hand_other(p1, (3 + i) as usize, b, h);
            }
            assert forall|j: usize| j < 15 implies #[trigger] cell(with_hand(p1, (3 + i) as usize, b), j)
                == cell(p1, j) by {
                lemma_cell_with_hand(p1, (3 + i) as usize, b, j);
            }
        }
        new_pos = set_hand(new_pos, 3 + i, b);
        proof {
            assert forall|h: usize| h < 3 && h < i + 1 implies #[trigger] hand(new_pos, h) == hand(
                pos,
                (h + 3) as usize,
            ) by {
                if h < i {
                    assert(hand(p0, h) == hand(pos, (h + 3) as usize));
                }
            }
        }
    }
    proof {
        assert forall|i: usize| i < 15 implies #[trigger] cell(new_pos, mirror_v(i as int) as usize)
            == swap_owner(cell(pos, i)) by {
            assert(cell(board, mirror_v(i as int) as usize) == swap_owner(cell(pos, i)));
        }
        lemma_flipped_is(new_pos, pos);
    }
    new_pos
}

/// The six hand counts read only bits from 60 up.
pub proof fn lemma_hand_from_high(a: Pos, b: Pos, h: usize)
    requires
        a >> 60usize == b >> 60usize,
        h < 6,
    ensures
        hand(a, h) == hand(b, h),
{
    let sh: usize = (HAND_SHIFT + h * 2) as usize;
    assert(((a >> sh) & 0x3) as u32 == ((b >> sh) & 0x3) as u32) by (bit_vector)
        requires
            a >> 60usize == b >> 60usize,
            60 <= sh <= 70,
    ;
}

/// Every board square of `pos` up to `k` turned around, written onto a board that already
/// holds the swapped hands.
pub open spec fn flip_build(pos: Pos, k: nat) -> Pos
    decreases k,
{
    if k == 0 {
        with_hand(
            with_hand(
                with_hand(
                    with_hand(with_hand(with_hand(0, 0, hand(pos, 3)), 1, hand(pos, 4)), 2, hand(pos, 5)),
                    3,
                    hand(pos, 0),
                ),
                4,
                hand(pos, 1),
            ),
            5,
            hand(pos, 2),
        )
    } else {
        with_cell(
            flip_build(pos, (k - 1) as nat),
            mirror_v(k - 1) as usize,
            swap_owner(cell(pos, (k - 1) as usize)),
        )
    }
}

proof fn lemma_hands_after_write(p0: Pos, idx: usize, v: u32)
    requires
        idx < 6,
        v < 4,
    ensures
        hand(with_hand(p0, idx, v), idx) == v,
        forall|h: usize| h < 6 && h != idx ==> #[trigger] hand(with_hand(p0, idx, v), h) == hand(p0, h),
        with_hand(p0, idx, v) >> 72usize == p0 >> 72usize,
{
    lemma_hand_with_hand_same(p0, idx, v);
    lemma_top_with_hand(p0, idx, v);
    assert forall|h: usize| h < 6 && h != idx implies #[trigger] hand(with_hand(p0, idx, v), h) == hand(p0, h) by {
        lemma_hand_with_hand_other(p0, idx, v, h);
    }
}

proof fn lemma_flip_build(pos: Pos, k: nat)
    requires
        k <= 15,
    ensures
        forall|i: usize| i < k ==> #[trigger] cell(flip_build(pos, k), mirror_v(i as int) as usize)
            == swap_owner(cell(pos, i)),
        forall|h: usize| h < 3 ==> #[trigger] hand(flip_build(pos, k), h) == hand(pos, (h + 3) as usize),
        forall|h: usize| h < 3 ==> #[trigger] hand(flip_build(pos, k), (h + 3) as usize) == hand(pos, h),
        flip_build(pos, k) >> 72usize == 0,
    decreases k,
{
    if k == 0 {
        let p0: Pos = 0;
        assert(0u128 >> 72usize == 0) by (bit_vector);
        let p1 = with_hand(p0, 0, hand(pos, 3));
        lemma_hands_after_write(p0, 0, hand(pos, 3));
        let p2 = with_hand(p1, 1, hand(pos, 4));
        lemma_hands_after_write(p1, 1, hand(pos, 4));
        let p3 = with_hand(p2, 2, hand(pos, 5));
        lemma_hands_after_write(p2, 2, hand(pos, 5));
        let p4 = with_hand(p3, 3, hand(pos, 0));
        lemma_hands_after_write(p3, 3, hand(pos, 0));
        let p5 = with_hand(p4, 4, hand(pos, 1));
        lemma_hands_after_write(p4, 4, hand(pos, 1));
        let p6 = with_hand(p5, 5, hand(pos, 2));
        lemma_hands_after_write(p5, 5, hand(pos, 2));
        assert(flip_build(pos, 0) == p6);
        assert forall|h: usize| h < 3 implies #[trigger] hand(p6, h) == hand(pos, (h + 3) as usize) by {
            if h == 0 {} else if h == 1 {} else {}
        }
        assert forall|h: usize| h < 3 implies #[trigger] hand(p6, (h + 3) as usize) == hand(pos, h) by {
            if h == 0 {} else if h == 1 {} else {}
        }
    } else {
        let prev = flip_build(pos, (k - 1) as nat);
        lemma_flip_build(pos, (k - 1) as nat);
        let dst = mirror_v(k - 1) as usize;
        let v = swap_owner(cell(pos, (k - 1) as usize));
        assert(cell(pos, (k - 1) as usize) < 16) by {
            let sh: usize = ((k - 1) * 4) as usize;
            assert((((pos >> sh) & 0xF) as u32) < 16) by (bit_vector);
        }
        lemma_cell_with_cell_same(prev, dst, v);
        lemma_high_with_cell(prev, dst, v);
        assert forall|i: usize| i < k implies #[trigger] cell(flip_build(pos, k), mirror_v(i as int) as usize)
            == swap_owner(cell(pos, i)) by {
            if i != k - 1 {
                assert(mirror_v(mirror_v(i as int)) == i);
                lemma_cell_with_cell_other(prev, dst, v, mirror_v(i as int) as usize);
            }
        }
        assert forall|h: usize| h < 6 implies #[trigger] hand(flip_build(pos, k), h) == hand(prev, h) by {
            lemma_hand_with_cell(prev, dst, v, h);
        }
        assert forall|h: usize| h < 3 implies #[trigger] hand(flip_build(pos, k), (h + 3) as usize)
            == hand(pos, h) by {
            assert(hand(flip_build(pos, k), (h + 3) as usize) == hand(prev, (h + 3) as usize));
        }
    }
}

/// Every position can be seen from the other side.
pub proof fn lemma_flip_exists(pos: Pos)
    ensures
        is_flip(flipped(pos), pos),
{
    lemma_flip_build(pos, 15);
    assert(is_flip(flip_build(pos, 15), pos));
}

/// A position that a game can reach: every square holds a code up to 10 and nothing is
/// stored above the hands.
pub open spec fn is_valid_pos(pos: Pos) -> bool {
    &&& forall|i: usize| i < 15 ==> #[trigger] cell(pos, i) <= 10
    &&& pos >> 72usize == 0
}

/// Turning a valid position around twice gives it back.
pub proof fn lemma_flip_involution(pos: Pos)
    requires
        is_valid_pos(pos),
    ensures
        flipped(flipped(pos)) == pos,
        is_valid_pos(flipped(pos)),
{
    let f = flipped(pos);
    lemma_flip_exists(pos);
    assert(is_flip(pos, f)) by {
        assert forall|i: usize| i < 15 implies #[trigger] cell(pos, mirror_v(i as int) as usize)
            == swap_owner(cell(f, i)) by {
            let j = mirror_v(i as int) as usize;
            assert(mirror_v(j as int) == i);
            assert(cell(f, mirror_v(j as int) as usize) == swap_owner(cell(pos, j)));
        }
        assert forall|h: usize| h < 3 implies #[trigger] hand(pos, h) == hand(f, (h + 3) as usize) by {}
        assert forall|h: usize| h < 3 implies #[trigger] hand(pos, (h + 3) as usize) == hand(f, h) by {}
    }
    lemma_flipped_is(pos, f);
    assert forall|i: usize| i < 15 implies #[trigger] cell(f, i) <= 10 by {
        let j = mirror_v(i as int) as usize;
        assert(mirror_v(j as int) == i);
        assert(cell(f, mirror_v(j as int) as usize) == swap_owner(cell(pos, j)));
    }
}

/// Mirroring left to right and turning the board around can be done in either order.
pub proof fn lemma_flip_reflection_commute(pos: Pos)
    ensures
        flipped(reflection(pos)) == reflection(flipped(pos)),
{
    let f = flipped(pos);
    let r = reflection(pos);
    let rf = reflection(f);
    lemma_flip_exists(pos);
    lemma_reflect_witness(pos);
    lemma_reflect_witness(f);
    assert(is_reflection(r, pos));
    assert(is_reflection(rf, f));
    assert(is_flip(rf, r)) by {
        assert forall|i: usize| i < 15 implies #[trigger] cell(rf, mirror_v(i as int) as usize)
            == swap_owner(cell(r, i)) by {
            let m = mirror_v(i as int) as usize;
            assert(mirror_lr(m as int) == mirror_v(mirror_lr(i as int)));
            assert(cell(rf, m) == cell(f, mirror_lr(m as int) as usize));
            assert(cell(f, mirror_v(mirror_lr(i as int)) as usize) == swap_owner(cell(pos, mirror_lr(i as int) as usize)));
        }
        assert forall|h: usize| h < 3 implies #[trigger] hand(rf, h) == hand(r, (h + 3) as usize) by {
            lemma_hand_from_high(rf, f, h);
            lemma_hand_from_high(r, pos, (h + 3) as usize);
        }
        assert forall|h: usize| h < 3 implies #[trigger] hand(rf, (h + 3) as usize) == hand(r, h) by {
            lemma_hand_from_high(rf, f, (h + 3) as usize);
            lemma_hand_from_high(r, pos, h);
        }
        assert(rf >> 72usize == 0) by (bit_vector)
            requires
                rf >> 60usize == f >> 60usize,
                f >> 72usize == 0,
        ;
    }
    lemma_flipped_is(rf, r);
}

} // verus!
