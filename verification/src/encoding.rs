use vstd::prelude::*;
use crate::{Pos, COLS, HAND_SHIFT};

verus! {

/// The 4-bit field that starts at bit `sh`.
pub open spec fn nibble(pos: u128, sh: usize) -> u128 {
    (pos >> sh) & 0xF
}

/// The content of square `sq`: bits `4*sq .. 4*sq+4`.
pub open spec fn cell(pos: Pos, sq: usize) -> u32 {
    nibble(pos, (sq * 4) as usize) as u32
}

/// The hand count number `idx`: bits `60+2*idx .. 62+2*idx`.
pub open spec fn hand(pos: Pos, idx: usize) -> u32 {
    ((pos >> ((HAND_SHIFT + idx * 2) as usize)) & 0x3) as u32
}

/// `pos` with the square field `sq` replaced by `val` (as the encoding writes it).
pub open spec fn with_cell(pos: Pos, sq: usize, val: u32) -> Pos {
    (pos & !(0xFu128 << ((sq * 4) as usize))) | ((val as u128) << ((sq * 4) as usize))
}

/// `pos` with the hand field `idx` replaced by `val` (as the encoding writes it).
pub open spec fn with_hand(pos: Pos, idx: usize, val: u32) -> Pos {
    (pos & !(0x3u128 << ((HAND_SHIFT + idx * 2) as usize)))
        | ((val as u128) << ((HAND_SHIFT + idx * 2) as usize))
}

/// Index of the square at row `r`, column `c`.
pub fn sq_idx(r: i32, c: i32) -> (s: usize)
    requires
        i32::MIN <= r * COLS <= i32::MAX,
        i32::MIN <= r * COLS + c <= i32::MAX,
    ensures
        s == #[verifier::truncate] ((r * COLS + c) as usize),
        0 <= r * COLS + c ==> s == r * COLS + c,
{
    #[verifier::truncate] ((r * COLS + c) as usize)
}

/// Reads square `sq`.
pub fn get_sq(pos: Pos, sq: usize) -> (v: u32)
    requires
        sq < 32,
    ensures
        v == cell(pos, sq),
        v < 16,
{
    let r = ((pos >> (sq * 4)) & 0xF) as u32;
    assert(((pos >> ((sq * 4) as usize)) & 0xF) < 16) by (bit_vector);
    r
}

/// Writes `val` into square `sq`.
pub fn set_sq(pos: Pos, sq: usize, val: u32) -> (r: Pos)
    requires
        sq < 32,
    ensures
        r == with_cell(pos, sq, val),
{
    (pos & !(0xFu128 << (sq * 4))) | ((val as Pos) << (sq * 4))
}

/// Reads hand count `idx`.
pub fn get_hand(pos: Pos, idx: usize) -> (v: u32)
    requires
        idx < 34,
    ensures
        v == hand(pos, idx),
        v < 4,
{
    let sh = HAND_SHIFT + idx * 2;
    let r = ((pos >> (HAND_SHIFT + idx * 2)) & 0x3) as u32;
    assert(((pos >> sh) & 0x3) < 4) by (bit_vector);
    r
}

/// Writes `val` into hand count `idx`.
pub fn set_hand(pos: Pos, idx: usize, val: u32) -> (r: Pos)
    requires
        idx < 34,
    ensures
        r == with_hand(pos, idx, val),
{
    (pos & !(0x3u128 << (HAND_SHIFT + idx * 2))) | ((val as Pos) << (HAND_SHIFT + idx * 2))
}

/// A square holds a value below 16.
pub broadcast proof fn lemma_cell_bound(pos: Pos, sq: usize)
    ensures
        #[trigger] cell(pos, sq) < 16,
{
    let sh: usize = (sq * 4) as usize;
    assert((((pos >> sh) & 0xF) as u32) < 16) by (bit_vector);
}

/// A hand count is below 4.
pub broadcast proof fn lemma_hand_bound(pos: Pos, idx: usize)
    ensures
        #[trigger] hand(pos, idx) < 4,
{
    let sh: usize = (HAND_SHIFT + idx * 2) as usize;
    assert((((pos >> sh) & 0x3) as u32) < 4) by (bit_vector);
}

/// The bounds of the fields, for `broadcast use`.
pub broadcast group group_field_bounds {
    lemma_cell_bound,
    lemma_hand_bound,
}

// ---------------------------------------------------------------------------
// Laws of the encoding.

/// Reading a square just written gives back the value written (when it fits in 4 bits).
pub proof fn lemma_cell_with_cell_same(pos: Pos, sq: usize, val: u32)
    requires
        sq < 32,
        val < 16,
    ensures
        cell(with_cell(pos, sq, val), sq) == val,
{
    let sh: usize = (sq * 4) as usize;
    assert(((((pos & !(0xFu128 << sh)) | ((val as u128) << sh)) >> sh) & 0xF) == val as u128)
        by (bit_vector)
        requires
            sh <= 124,
            val < 16,
    ;
}

/// Writing one square leaves every other square unchanged.
pub proof fn lemma_cell_with_cell_other(pos: Pos, sq: usize, val: u32, other: usize)
    requires
        sq < 32,
        other < 32,
        other != sq,
        val < 16,
    ensures
        cell(with_cell(pos, sq, val), other) == cell(pos, other),
{
    let sh: usize = (sq * 4) as usize;
    let sh2: usize = (other * 4) as usize;
    assert(((((pos & !(0xFu128 << sh)) | ((val as u128) << sh)) >> sh2) & 0xF) == (pos >> sh2) & 0xF)
        by (bit_vector)
        requires
            sh < 128,
            sh2 < 128,
            sh + 4 <= sh2 || sh2 + 4 <= sh,
            val < 16,
    ;
}

/// Writing a square leaves every hand count unchanged.
pub proof fn lemma_hand_with_cell(pos: Pos, sq: usize, val: u32, idx: usize)
    requires
        sq < 15,
        idx < 34,
        val < 16,
    ensures
        hand(with_cell(pos, sq, val), idx) == hand(pos, idx),
{
    let sh: usize = (sq * 4) as usize;
    let sh2: usize = (HAND_SHIFT + idx * 2) as usize;
    assert(((((pos & !(0xFu128 << sh)) | ((val as u128) << sh)) >> sh2) & 0x3) == (pos >> sh2) & 0x3)
        by (bit_vector)
        requires
            sh + 4 <= 60,
            60 <= sh2 < 128,
            val < 16,
    ;
}

/// Writing back the value a square already holds changes nothing.
pub proof fn lemma_with_cell_unchanged(pos: Pos, sq: usize)
    requires
        sq < 32,
    ensures
        with_cell(pos, sq, cell(pos, sq)) == pos,
{
    let sh: usize = (sq * 4) as usize;
    assert((((pos >> sh) & 0xF) as u32) as u128 == (pos >> sh) & 0xF) by (bit_vector);
    assert((pos & !(0xFu128 << sh)) | (((pos >> sh) & 0xF) << sh) == pos) by (bit_vector)
        requires
            sh < 128,
    ;
}

/// Reading a hand count just written gives back the value written (when it fits in 2 bits).
pub proof fn lemma_hand_with_hand_same(pos: Pos, idx: usize, val: u32)
    requires
        idx < 34,
        val < 4,
    ensures
        hand(with_hand(pos, idx, val), idx) == val,
{
    let sh: usize = (HAND_SHIFT + idx * 2) as usize;
    assert(((((pos & !(0x3u128 << sh)) | ((val as u128) << sh)) >> sh) & 0x3) == val as u128)
        by (bit_vector)
        requires
            sh <= 126,
            val < 4,
    ;
}

/// Writing one hand count leaves every other hand count unchanged.
pub proof fn lemma_hand_with_hand_other(pos: Pos, idx: usize, val: u32, other: usize)
    requires
        idx < 34,
        other < 34,
        other != idx,
        val < 4,
    ensures
        hand(with_hand(pos, idx, val), other) == hand(pos, other),
{
    let sh: usize = (HAND_SHIFT + idx * 2) as usize;
    let sh2: usize = (HAND_SHIFT + other * 2) as usize;
    assert(((((pos & !(0x3u128 << sh)) | ((val as u128) << sh)) >> sh2) & 0x3) == (pos >> sh2) & 0x3)
        by (bit_vector)
        requires
            sh < 128,
            sh2 < 128,
            sh + 2 <= sh2 || sh2 + 2 <= sh,
            val < 4,
    ;
}

/// Writing a hand count leaves every board square unchanged.
pub proof fn lemma_cell_with_hand(pos: Pos, idx: usize, val: u32, sq: usize)
    requires
        idx < 34,
        sq < 15,
    ensures
        cell(with_hand(pos, idx, val), sq) == cell(pos, sq),
{
    let sh: usize = (HAND_SHIFT + idx * 2) as usize;
    let sh2: usize = (sq * 4) as usize;
    assert(((((pos & !(0x3u128 << sh)) | ((val as u128) << sh)) >> sh2) & 0xF) == (pos >> sh2) & 0xF)
        by (bit_vector)
        requires
            60 <= sh < 128,
            sh2 + 4 <= 60,
    ;
}

/// Writing back the value a hand count already holds changes nothing.
pub proof fn lemma_with_hand_unchanged(pos: Pos, idx: usize)
    requires
        idx < 34,
    ensures
        with_hand(pos, idx, hand(pos, idx)) == pos,
{
    let sh: usize = (HAND_SHIFT + idx * 2) as usize;
    assert((((pos >> sh) & 0x3) as u32) as u128 == (pos >> sh) & 0x3) by (bit_vector);
    assert((pos & !(0x3u128 << sh)) | (((pos >> sh) & 0x3) << sh) == pos) by (bit_vector)
        requires
            sh < 128,
    ;
}

/// Two positions with the same fifteen squares and the same bits from 60 up are equal.
pub proof fn lemma_pos_ext(a: Pos, b: Pos)
    requires
        cell(a, 0) == cell(b, 0),
        cell(a, 1) == cell(b, 1),
        cell(a, 2) == cell(b, 2),
        cell(a, 3) == cell(b, 3),
        cell(a, 4) == cell(b, 4),
        cell(a, 5) == cell(b, 5),
        cell(a, 6) == cell(b, 6),
        cell(a, 7) == cell(b, 7),
        cell(a, 8) == cell(b, 8),
        cell(a, 9) == cell(b, 9),
        cell(a, 10) == cell(b, 10),
        cell(a, 11) == cell(b, 11),
        cell(a, 12) == cell(b, 12),
        cell(a, 13) == cell(b, 13),
        cell(a, 14) == cell(b, 14),
        a >> 60usize == b >> 60usize,
    ensures
        a == b,
{
    assert(a == b) by (bit_vector)
        requires
            ((a >> 0usize) & 0xF) as u32 == ((b >> 0usize) & 0xF) as u32,
            ((a >> 4usize) & 0xF) as u32 == ((b >> 4usize) & 0xF) as u32,
            ((a >> 8usize) & 0xF) as u32 == ((b >> 8usize) & 0xF) as u32,
            ((a >> 12usize) & 0xF) as u32 == ((b >> 12usize) & 0xF) as u32,
            ((a >> 16usize) & 0xF) as u32 == ((b >> 16usize) & 0xF) as u32,
            ((a >> 20usize) & 0xF) as u32 == ((b >> 20usize) & 0xF) as u32,
            ((a >> 24usize) & 0xF) as u32 == ((b >> 24usize) & 0xF) as u32,
            ((a >> 28usize) & 0xF) as u32 == ((b >> 28usize) & 0xF) as u32,
            ((a >> 32usize) & 0xF) as u32 == ((b >> 32usize) & 0xF) as u32,
            ((a >> 36usize) & 0xF) as u32 == ((b >> 36usize) & 0xF) as u32,
            ((a >> 40usize) & 0xF) as u32 == ((b >> 40usize) & 0xF) as u32,
            ((a >> 44usize) & 0xF) as u32 == ((b >> 44usize) & 0xF) as u32,
            ((a >> 48usize) & 0xF) as u32 == ((b >> 48usize) & 0xF) as u32,
            ((a >> 52usize) & 0xF) as u32 == ((b >> 52usize) & 0xF) as u32,
            ((a >> 56usize) & 0xF) as u32 == ((b >> 56usize) & 0xF) as u32,
            a >> 60usize == b >> 60usize,
    ;
}

/// Two positions with the same six hand counts and the same bits from 72 up agree from bit 60 up.
pub proof fn lemma_high_ext(a: Pos, b: Pos)
    requires
        hand(a, 0) == hand(b, 0),
        hand(a, 1) == hand(b, 1),
        hand(a, 2) == hand(b, 2),
        hand(a, 3) == hand(b, 3),
        hand(a, 4) == hand(b, 4),
        hand(a, 5) == hand(b, 5),
        a >> 72usize == b >> 72usize,
    ensures
        a >> 60usize == b >> 60usize,
{
    assert(a >> 60usize == b >> 60usize) by (bit_vector)
        requires
            ((a >> 60usize) & 0x3) as u32 == ((b >> 60usize) & 0x3) as u32,
            ((a >> 62usize) & 0x3) as u32 == ((b >> 62usize) & 0x3) as u32,
            ((a >> 64usize) & 0x3) as u32 == ((b >> 64usize) & 0x3) as u32,
            ((a >> 66usize) & 0x3) as u32 == ((b >> 66usize) & 0x3) as u32,
            ((a >> 68usize) & 0x3) as u32 == ((b >> 68usize) & 0x3) as u32,
            ((a >> 70usize) & 0x3) as u32 == ((b >> 70usize) & 0x3) as u32,
            a >> 72usize == b >> 72usize,
    ;
}

/// Writing a board square leaves every bit from 60 up unchanged.
pub proof fn lemma_high_with_cell(pos: Pos, sq: usize, val: u32)
    requires
        sq < 15,
        val < 16,
    ensures
        with_cell(pos, sq, val) >> 60usize == pos >> 60usize,
        with_cell(pos, sq, val) >> 72usize == pos >> 72usize,
{
    let sh: usize = (sq * 4) as usize;
    assert(((pos & !(0xFu128 << sh)) | ((val as u128) << sh)) >> 60usize == pos >> 60usize)
        by (bit_vector)
        requires
            sh <= 56,
            val < 16,
    ;
    assert(((pos & !(0xFu128 << sh)) | ((val as u128) << sh)) >> 72usize == pos >> 72usize)
        by (bit_vector)
        requires
            sh <= 56,
            val < 16,
    ;
}

/// Writing one of the six hand counts leaves every bit from 72 up unchanged.
pub proof fn lemma_top_with_hand(pos: Pos, idx: usize, val: u32)
    requires
        idx < 6,
        val < 4,
    ensures
        with_hand(pos, idx, val) >> 72usize == pos >> 72usize,
{
    let sh: usize = (HAND_SHIFT + idx * 2) as usize;
    assert(((pos & !(0x3u128 << sh)) | ((val as u128) << sh)) >> 72usize == pos >> 72usize)
        by (bit_vector)
        requires
            60 <= sh <= 70,
            val < 4,
    ;
}

/// Everything that writing a board square does and does not change.
pub proof fn lemma_with_cell(pos: Pos, sq: usize, val: u32)
    requires
        sq < 15,
        val < 16,
    ensures
        cell(with_cell(pos, sq, val), sq) == val,
        forall|o: usize| o < 32 && o != sq ==> #[trigger] cell(with_cell(pos, sq, val), o) == cell(pos, o),
        forall|h: usize| h < 34 ==> #[trigger] hand(with_cell(pos, sq, val), h) == hand(pos, h),
        with_cell(pos, sq, val) >> 60usize == pos >> 60usize,
        with_cell(pos, sq, val) >> 72usize == pos >> 72usize,
{
    lemma_cell_with_cell_same(pos, sq, val);
    lemma_high_with_cell(pos, sq, val);
    assert forall|o: usize| o < 32 && o != sq implies #[trigger] cell(with_cell(pos, sq, val), o) == cell(pos, o) by {
        lemma_cell_with_cell_other(pos, sq, val, o);
    }
    assert forall|h: usize| h < 34 implies #[trigger] hand(with_cell(pos, sq, val), h) == hand(pos, h) by {
        lemma_hand_with_cell(pos, sq, val, h);
    }
}

/// Everything that writing a hand count does and does not change.
pub proof fn lemma_with_hand(pos: Pos, idx: usize, val: u32)
    requires
        idx < 6,
        val < 4,
    ensures
        hand(with_hand(pos, idx, val), idx) == val,
        forall|h: usize| h < 34 && h != idx ==> #[trigger] hand(with_hand(pos, idx, val), h) == hand(pos, h),
        forall|o: usize| o < 15 ==> #[trigger] cell(with_hand(pos, idx, val), o) == cell(pos, o),
        with_hand(pos, idx, val) >> 72usize == pos >> 72usize,
{
    lemma_hand_with_hand_same(pos, idx, val);
    lemma_top_with_hand(pos, idx, val);
    assert forall|h: usize| h < 34 && h != idx implies #[trigger] hand(with_hand(pos, idx, val), h) == hand(pos, h) by {
        lemma_hand_with_hand_other(pos, idx, val, h);
    }
    assert forall|o: usize| o < 15 implies #[trigger] cell(with_hand(pos, idx, val), o) == cell(pos, o) by {
        lemma_cell_with_hand(pos, idx, val, o);
    }
}

} // verus!
