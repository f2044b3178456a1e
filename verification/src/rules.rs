use vstd::prelude::*;
use crate::{Pos, ROWS, COLS, NUM_SQ, HOME_ROW};
use crate::encoding::{lemma_pos_ext, lemma_cell_with_hand, cell, hand, with_cell, with_hand, get_sq, set_sq, get_hand, set_hand, sq_idx, lemma_with_cell, lemma_with_hand, group_field_bounds};
use crate::symmetry::{lemma_flip_exists, lemma_reflect_witness, is_reflection, reflection, mirror_lr, mirror_v, lemma_canonical_idempotent, canonical, canonical_of, flip_perspective, flipped, is_valid_pos};

use crate::reach::{attacked, lemma_can_reach_geometry, lemma_terminal_rule};

verus! {

broadcast use group_field_bounds;

/// The square codes of the starting position (Black at the bottom, White at the top):
/// Black's elephant, lion and giraffe on its back rank from left to right with its chick in
/// front of the lion, and White's giraffe, lion and elephant on the top rank with its chick in
/// front of its lion.
pub open spec fn initial_cell(i: int) -> u32 {
    if i == 13 { 1 }       // Black lion
    else if i == 12 { 2 }  // Black elephant
    else if i == 14 { 3 }  // Black giraffe
    else if i == 10 { 4 }  // Black chick
    else if i == 1 { 6 }   // White lion
    else if i == 2 { 7 }   // White elephant
    else if i == 0 { 8 }   // White giraffe
    else if i == 4 { 9 }   // White chick
    else { 0 }
}

/// `p` is the starting position: the eight pieces on their squares, both hands empty.
pub open spec fn is_initial(p: Pos) -> bool {
    &&& forall|i: usize| i < 15 ==> #[trigger] cell(p, i) == initial_cell(i as int)
    &&& p >> 60usize == 0
}

/// The starting position.
pub open spec fn initial_pos() -> Pos {
    choose|p: Pos| is_initial(p)
}

/// The starting position: the eight pieces on their squares, both hands empty.
pub fn initial_position() -> (p: Pos)
    ensures
        is_initial(p),
        p == initial_pos(),
        is_valid_pos(p),
        has_lions(p),
{
    let mut p: Pos = 0;
    proof {
        assert forall|i: usize| i < 15 implies #[trigger] cell(0, i) == 0 by {
            let sh: usize = (i * 4) as usize;
            assert(((0u128 >> sh) & 0xF) as u32 == 0) by (bit_vector);
        }
        assert(0u128 >> 60usize == 0) by (bit_vector);
    }
    let ghost p0 = p;
    p = set_sq(p, sq_idx(ROWS - 1, 1), 1); // Lion
    proof { lemma_with_cell(p0, 13, 1); }
    let ghost p1 = p;
    p = set_sq(p, sq_idx(ROWS - 1, 0), 2); // Elephant
    proof { lemma_with_cell(p1, 12, 2); }
    let ghost p2 = p;
    p = set_sq(p, sq_idx(ROWS - 1, 2), 3); // Giraffe
    proof { lemma_with_cell(p2, 14, 3); }
    let ghost p3 = p;
    p = set_sq(p, sq_idx(ROWS - 2, 1), 4); // Chick
    proof { lemma_with_cell(p3, 10, 4); }
    let ghost p4 = p;
    p = set_sq(p, sq_idx(0, 1), 6); // Lion
    proof { lemma_with_cell(p4, 1, 6); }
    let ghost p5 = p;
    p = set_sq(p, sq_idx(0, 2), 7); // Elephant
    proof { lemma_with_cell(p5, 2, 7); }
    let ghost p6 = p;
    p = set_sq(p, sq_idx(0, 0), 8); // Giraffe
    proof { lemma_with_cell(p6, 0, 8); }
    let ghost p7 = p;
    p = set_sq(p, sq_idx(1, 1), 9); // Chick
    proof {
        lemma_with_cell(p7, 4, 9);
        assert forall|i: usize| i < 15 implies #[trigger] cell(p, i) == initial_cell(i as int) by {
            assert(cell(p, i) == cell(p7, i) || i == 4);
        }
        assert(p >> 72usize == 0) by (bit_vector)
            requires
                p >> 60usize == 0,
        ;
        assert(is_initial(p));
        let q = initial_pos();
        assert(is_initial(q));
        assert forall|i: usize| i < 15 implies #[trigger] cell(p, i) == cell(q, i) by {}
        assert(cell(p, 0) == cell(q, 0));
        assert(cell(p, 1) == cell(q, 1));
        assert(cell(p, 2) == cell(q, 2));
        assert(cell(p, 3) == cell(q, 3));
        assert(cell(p, 4) == cell(q, 4));
        assert(cell(p, 5) == cell(q, 5));
        assert(cell(p, 6) == cell(q, 6));
        assert(cell(p, 7) == cell(q, 7));
        assert(cell(p, 8) == cell(q, 8));
        assert(cell(p, 9) == cell(q, 9));
        assert(cell(p, 10) == cell(q, 10));
        assert(cell(p, 11) == cell(q, 11));
        assert(cell(p, 12) == cell(q, 12));
        assert(cell(p, 13) == cell(q, 13));
        assert(cell(p, 14) == cell(q, 14));
        lemma_pos_ext(p, q);
        assert(cell(p, 13) == 1);
        assert(cell(p, 1) == 6);
    }
    p
}

/// The moves of Black's piece type `pt`, as (row, column) steps; row -1 is towards White.
/// 1 lion, 2 elephant, 3 giraffe, 4 chick, 5 hen; any other code has none.
pub open spec fn offsets(pt: u32) -> Seq<(i32, i32)> {
    if pt == 1 {
        seq![(-1i32, -1i32), (-1i32, 0i32), (-1i32, 1i32), (0i32, -1i32), (0i32, 1i32), (1i32, -1i32), (1i32, 0i32), (1i32, 1i32)]
    } else if pt == 2 {
        seq![(-1i32, -1i32), (-1i32, 1i32), (1i32, -1i32), (1i32, 1i32)]
    } else if pt == 3 {
        seq![(-1i32, 0i32), (1i32, 0i32), (0i32, -1i32), (0i32, 1i32)]
    } else if pt == 4 {
        seq![(-1i32, 0i32)]
    } else if pt == 5 {
        seq![(-1i32, -1i32), (-1i32, 0i32), (-1i32, 1i32), (0i32, -1i32), (0i32, 1i32), (1i32, 0i32)]
    } else {
        Seq::empty()
    }
}

/// The steps of Black's piece type `pt`.
pub fn black_offsets(pt: u32) -> (r: &'static [(i32, i32)])
    ensures
        r@ == offsets(pt),
{
    let r: &'static [(i32, i32)] = match pt {
        1 => &[(-1,-1),(-1,0),(-1,1),(0,-1),(0,1),(1,-1),(1,0),(1,1)],
        2 => &[(-1,-1),(-1,1),(1,-1),(1,1)],
        3 => &[(-1,0),(1,0),(0,-1),(0,1)],
        4 => &[(-1,0)],
        5 => &[(-1,-1),(-1,0),(-1,1),(0,-1),(0,1),(1,0)],
        _ => &[],
    };
    proof {
        assert(r@ =~= offsets(pt));
    }
    r
}

/// Some square holds the White lion (code 6).
pub open spec fn has_white_lion(pos: Pos) -> bool {
    exists|i: usize| i < 15 && #[trigger] cell(pos, i) == 6
}

/// `sq` is the first square that holds the White lion.
pub open spec fn is_first_white_lion(pos: Pos, sq: usize) -> bool {
    &&& sq < 15
    &&& cell(pos, sq) == 6
    &&& forall|j: usize| j < sq ==> #[trigger] cell(pos, j) != 6
}

/// Whether the White lion is on the board.
pub fn white_lion_present(pos: Pos) -> (b: bool)
    ensures
        b == has_white_lion(pos),
{
    let mut found = false;
    for sq in 0..NUM_SQ
        invariant
            found == exists|i: usize| i < sq && #[trigger] cell(pos, i) == 6,
    {
        let p = get_sq(pos, sq);
        if p == 6 {
            found = true;
            assert(cell(pos, sq) == 6);
        }
    }
    found
}

/// The first square that holds the White lion.
pub open spec fn white_lion(pos: Pos) -> usize {
    choose|sq: usize| is_first_white_lion(pos, sq)
}

/// A square found as the first White lion is `white_lion(pos)`.
pub proof fn lemma_white_lion_is(pos: Pos, sq: usize)
    requires
        is_first_white_lion(pos, sq),
    ensures
        white_lion(pos) == sq,
{
    let w = white_lion(pos);
    assert(is_first_white_lion(pos, w));
    if w < sq {
        assert(cell(pos, w) != 6);
    } else if sq < w {
        assert(cell(pos, sq) != 6);
    }
}

/// The first square that holds the White lion.
pub fn find_white_lion(pos: Pos) -> (sq: usize)
    requires
        has_white_lion(pos),
    ensures
        is_first_white_lion(pos, sq),
        sq == white_lion(pos),
{
    for sq in 0..NUM_SQ
        invariant
            forall|j: usize| j < sq ==> #[trigger] cell(pos, j) != 6,
    {
        if get_sq(pos, sq) == 6 {
            proof { lemma_white_lion_is(pos, sq); }
            return sq;
        }
    }
    proof {
        let i = choose|i: usize| i < 15 && #[trigger] cell(pos, i) == 6;
        assert(cell(pos, i) != 6);
    }
    0
}

/// Black's piece on `sq` has a step number `k` that lands on row `tr`, column `tc`
/// (the landing square need not be on the board).
pub open spec fn attacks(pos: Pos, sq: usize, k: int, tr: int, tc: int) -> bool {
    let p = cell(pos, sq);
    &&& 1 <= p <= 5
    &&& 0 <= k < offsets(p).len()
    &&& (sq / 3) as int + offsets(p)[k].0 == tr
    &&& (sq % 3) as int + offsets(p)[k].1 == tc
}

/// The row of a square index, as the 32-bit row number the search compares with.
pub open spec fn target_row(target_sq: usize) -> int {
    (#[verifier::truncate] ((target_sq / 3) as i32)) as int
}

/// The column of a square index, as the 32-bit column number the search compares with.
pub open spec fn target_col(target_sq: usize) -> int {
    (target_sq % 3) as int
}

/// Some Black piece on the board has a step that lands on `target_sq`.
pub open spec fn can_reach(pos: Pos, target_sq: usize) -> bool {
    exists|sq: usize, k: int| sq < 15 && #[trigger] attacks(pos, sq, k, target_row(target_sq), target_col(target_sq))
}

/// Whether some Black piece can step onto `target_sq`.
pub fn black_can_reach(pos: Pos, target_sq: usize) -> (b: bool)
    ensures
        b == can_reach(pos, target_sq),
        target_sq < 15 ==> b == attacked(pos, target_sq),
{
    proof {
        if target_sq < 15 {
            lemma_can_reach_geometry(pos, target_sq);
        }
    }
    let tr = #[verifier::truncate] ((target_sq / COLS as usize) as i32);
    let tc = (target_sq % COLS as usize) as i32;
    assert(tr == target_row(target_sq));
    for sq in 0..NUM_SQ
        invariant
            tr == target_row(target_sq),
            tc == target_col(target_sq),
            forall|s: usize, k: int| s < sq ==> !#[trigger] attacks(pos, s, k, tr as int, tc as int),
    {
        let p = get_sq(pos, sq);
        if 1 <= p && p <= 5 {
            let r = (sq / COLS as usize) as i32;
            let c = (sq % COLS as usize) as i32;
            let offs = black_offsets(p);
            let mut k: usize = 0;
            while k < offs.len()
                invariant
                    0 <= k <= offs@.len(),
                    offs@ == offsets(p),
                    p == cell(pos, sq),
                    1 <= p <= 5,
                    sq < 15,
                    r == sq / 3,
                    c == sq % 3,
                    tr == target_row(target_sq),
                    tc == target_col(target_sq),
                    forall|j: int| 0 <= j < k ==> !#[trigger] attacks(pos, sq, j, tr as int, tc as int),
                decreases offs@.len() - k,
            {
                let (dr, dc) = offs[k];
                if r + dr == tr && c + dc == tc {
                    assert(attacks(pos, sq, k as int, tr as int, tc as int));
                    proof {
                        if target_sq < 15 {
                            lemma_can_reach_geometry(pos, target_sq);
                        }
                    }
                    return true;
                }
                k += 1;
            }
            assert forall|j: int| !#[trigger] attacks(pos, sq, j, tr as int, tc as int) by {
                if 0 <= j < k {
                }
            }
        }
    }
    false
}

/// A position with no successors: Black can capture the White lion, or the White lion stands
/// on Black's back rank out of reach.
pub open spec fn terminal(pos: Pos) -> bool {
    can_reach(pos, white_lion(pos)) || white_lion(pos) / 3 == HOME_ROW
}

/// Whether the position ends the game (see `terminal`).
pub fn is_terminal(pos: Pos) -> (b: bool)
    requires
        has_white_lion(pos),
    ensures
        b == terminal(pos),
        b == (attacked(pos, white_lion(pos)) || white_lion(pos) / 3 == 4),
{
    let wl = find_white_lion(pos);
    proof {
        lemma_terminal_rule(pos, wl);
    }
    if black_can_reach(pos, wl) {
        return true;
    }
    wl / COLS as usize == HOME_ROW
}

// ---------------------------------------------------------------------------
// Successors.

/// The piece that arrives: a chick reaching the far rank (row 0) becomes a hen.
pub open spec fn promoted(p: u32, nr: int) -> u32 {
    if p == 4 && nr == 0 { 5 } else { p }
}

/// The hand slot that a captured White piece goes to: elephant 0, giraffe 1, chick or hen 2.
pub open spec fn captured_hand(t: u32) -> usize {
    if t == 7 { 0 } else if t == 8 { 1 } else { 2 }
}

/// The Black piece dropped from hand slot `hi`.
pub open spec fn dropped_piece(hi: usize) -> u32 {
    if hi == 0 { 2 } else if hi == 1 { 3 } else { 4 }
}

/// The position (still with Black to move) after Black's piece on `sq` takes step `k`, if
/// that step is legal: it stays on the board and does not land on a Black piece or the
/// White lion. A captured White piece goes to Black's hand as its unpromoted kind.
pub open spec fn step_board(pos: Pos, sq: usize, k: int) -> Option<Pos> {
    let p = cell(pos, sq);
    let d = offsets(p)[k];
    let nr = (sq / 3) as int + d.0;
    let nc = (sq % 3) as int + d.1;
    if nr < 0 || nr >= 5 || nc < 0 || nc >= 3 {
        None
    } else {
        let nsq = (nr * 3 + nc) as usize;
        let t = cell(pos, nsq);
        if (1 <= t <= 5) || t == 6 {
            None
        } else {
            let np1 = with_cell(with_cell(pos, sq, 0), nsq, promoted(p, nr));
            if 7 <= t <= 10 {
                let hi = captured_hand(t);
                Some(with_hand(np1, hi, (hand(np1, hi) + 1) as u32))
            } else {
                Some(np1)
            }
        }
    }
}

/// The successor (White to move, seen from White's side, as representative) of a step.
pub open spec fn step_result(pos: Pos, sq: usize, k: int) -> Option<Pos> {
    match step_board(pos, sq, k) {
        Some(np) => Some(canonical_of(flipped(np))),
        None => None,
    }
}

/// The elements of an `Option`, as a sequence.
pub open spec fn opt_seq(o: Option<Pos>) -> Seq<Pos> {
    match o {
        Some(x) => seq![x],
        None => Seq::empty(),
    }
}

/// The successors from the first `k` steps of the piece on `sq`.
pub open spec fn steps_from(pos: Pos, sq: usize, k: nat) -> Seq<Pos>
    decreases k,
{
    if k == 0 {
        Seq::empty()
    } else {
        steps_from(pos, sq, (k - 1) as nat) + opt_seq(step_result(pos, sq, k - 1))
    }
}

/// The successors from moving the piece on `sq`, if it is Black's.
pub open spec fn piece_steps(pos: Pos, sq: usize) -> Seq<Pos> {
    let p = cell(pos, sq);
    if 1 <= p <= 5 {
        steps_from(pos, sq, offsets(p).len())
    } else {
        Seq::empty()
    }
}

/// The successors from moving the pieces on squares `0..n`, square by square.
pub open spec fn board_moves(pos: Pos, n: nat) -> Seq<Pos>
    decreases n,
{
    if n == 0 {
        Seq::empty()
    } else {
        board_moves(pos, (n - 1) as nat) + piece_steps(pos, (n - 1) as usize)
    }
}

/// The successor from dropping the piece of hand slot `hi` on `sq`, if `sq` is empty.
pub open spec fn drop_result(pos: Pos, hi: usize, sq: usize) -> Option<Pos> {
    if cell(pos, sq) != 0 {
        None
    } else {
        Some(canonical_of(flipped(with_hand(with_cell(pos, sq, dropped_piece(hi)), hi, (hand(pos, hi) - 1) as u32))))
    }
}

/// The successors from dropping the piece of hand slot `hi` on squares `0..n`.
pub open spec fn drops_from(pos: Pos, hi: usize, n: nat) -> Seq<Pos>
    decreases n,
{
    if n == 0 {
        Seq::empty()
    } else {
        drops_from(pos, hi, (n - 1) as nat) + opt_seq(drop_result(pos, hi, (n - 1) as usize))
    }
}

/// The successors from dropping the piece of hand slot `hi`, if Black holds one.
pub open spec fn hand_drops(pos: Pos, hi: usize) -> Seq<Pos> {
    if hand(pos, hi) == 0 {
        Seq::empty()
    } else {
        drops_from(pos, hi, 15)
    }
}

/// The successors from drops out of hand slots `0..h`.
pub open spec fn drop_moves(pos: Pos, h: nat) -> Seq<Pos>
    decreases h,
{
    if h == 0 {
        Seq::empty()
    } else {
        drop_moves(pos, (h - 1) as nat) + hand_drops(pos, (h - 1) as usize)
    }
}

/// Every successor of `pos` in the order the generator emits them: the moves of the pieces
/// square by square, each piece's steps in the order of `offsets`, then the drops, hand slot by
/// hand slot and square by square.
pub open spec fn successors(pos: Pos) -> Seq<Pos> {
    board_moves(pos, 15) + drop_moves(pos, 3)
}

/// Appends every successor of `pos` (see `successors`) to `out`.
pub fn generate_successors_canonical(pos: Pos, out: &mut Vec<Pos>)
    ensures
        final(out)@ == old(out)@ + successors(pos),
{
    let ghost start = out@;
    for sq in 0..NUM_SQ
        invariant
            out@ == start + board_moves(pos, sq as nat),
    {
        let p = get_sq(pos, sq);
        if 1 <= p && p <= 5 {
            let r = (sq / COLS as usize) as i32;
            let c = (sq % COLS as usize) as i32;
            let offs = black_offsets(p);
            let mut k: usize = 0;
            while k < offs.len()
                invariant
                    0 <= k <= offs@.len(),
                    offs@ == offsets(p),
                    p == cell(pos, sq),
                    1 <= p <= 5,
                    sq < 15,
                    r == sq / 3,
                    c == sq % 3,
                    out@ == start + board_moves(pos, sq as nat) + steps_from(pos, sq, k as nat),
                decreases offs@.len() - k,
            {
                let (dr, dc) = offs[k];
                let nr = r + dr;
                let nc = c + dc;
                let ghost before = out@;
                assert(steps_from(pos, sq, (k + 1) as nat) == steps_from(pos, sq, k as nat) + opt_seq(
                    step_result(pos, sq, k as int),
                ));
                if nr < 0 || nr >= ROWS || nc < 0 || nc >= COLS {
                    assert(out@ == before + opt_seq(step_result(pos, sq, k as int)));
                } else {
                    let nsq = (nr * COLS + nc) as usize;
                    let target = get_sq(pos, nsq);
                    if (1 <= target && target <= 5) || target == 6 {
                        assert(out@ == before + opt_seq(step_result(pos, sq, k as int)));
                    } else {
                        let mut np = pos;
                        np = set_sq(np, sq, 0);
                        let new_piece = if p == 4 && nr == 0 { 5 } else { p };
                        np = set_sq(np, nsq, new_piece);
                        if 7 <= target && target <= 10 {
                            let captured_type = target - 5;
                            let hi: usize = if captured_type == 2 {
                                0
                            } else if captured_type == 3 {
                                1
                            } else {
                                2
                            };
                            np = set_hand(np, hi, get_hand(np, hi) + 1);
                        }
                        assert(step_board(pos, sq, k as int) == Some(np));
                        out.push(canonical(flip_perspective(np)));
                        assert(out@ == before + opt_seq(step_result(pos, sq, k as int)));
                    }
                }
                k += 1;
            }
        }
        assert(board_moves(pos, (sq + 1) as nat) == board_moves(pos, sq as nat) + piece_steps(pos, sq));
    }
    let ghost mid = out@;
    for hi in 0..3
        invariant
            out@ == mid + drop_moves(pos, hi as nat),
    {
        let cnt = get_hand(pos, hi);
        if cnt != 0 {
            let drop_piece: u32 = if hi == 0 { 2 } else if hi == 1 { 3 } else { 4 };
            for sq in 0..NUM_SQ
                invariant
                    hi < 3,
                    cnt == hand(pos, hi),
                    cnt != 0,
                    drop_piece == dropped_piece(hi),
                    out@ == mid + drop_moves(pos, hi as nat) + drops_from(pos, hi, sq as nat),
            {
                let ghost before = out@;
                if get_sq(pos, sq) == 0 {
                    let mut np = pos;
                    np = set_sq(np, sq, drop_piece);
                    np = set_hand(np, hi, cnt - 1);
                    out.push(canonical(flip_perspective(np)));
                }
                assert(out@ == before + opt_seq(drop_result(pos, hi, sq)));
            }
        }
        assert(drop_moves(pos, (hi + 1) as nat) == drop_moves(pos, hi as nat) + hand_drops(pos, hi));
    }
}

// ---------------------------------------------------------------------------
// Laws of the successor relation.

/// A representative is its own representative.
pub open spec fn is_canonical(pos: Pos) -> bool {
    canonical_of(pos) == pos
}

proof fn lemma_opt_seq_canonical(o: Option<Pos>, x: Pos)
    requires
        o matches Some(y) ==> y == canonical_of(x),
    ensures
        forall|i: int| 0 <= i < opt_seq(o).len() ==> #[trigger] is_canonical(opt_seq(o)[i]),
        opt_seq(o).len() <= 1,
{
    lemma_canonical_idempotent(x);
}

proof fn lemma_steps_from(pos: Pos, sq: usize, k: nat)
    ensures
        steps_from(pos, sq, k).len() <= k,
        forall|i: int| 0 <= i < steps_from(pos, sq, k).len() ==> #[trigger] is_canonical(steps_from(pos, sq, k)[i]),
    decreases k,
{
    if k > 0 {
        lemma_steps_from(pos, sq, (k - 1) as nat);
        let o = step_result(pos, sq, k - 1);
        match step_board(pos, sq, k - 1) {
            Some(np) => lemma_opt_seq_canonical(o, flipped(np)),
            None => lemma_opt_seq_canonical(o, 0),
        }
        let a = steps_from(pos, sq, (k - 1) as nat);
        assert forall|i: int| 0 <= i < steps_from(pos, sq, k).len() implies #[trigger] is_canonical(steps_from(pos, sq, k)[i]) by {
            if i < a.len() {
                assert(steps_from(pos, sq, k)[i] == a[i]);
            } else {
                assert(steps_from(pos, sq, k)[i] == opt_seq(o)[i - a.len()]);
            }
        }
    }
}

proof fn lemma_board_moves(pos: Pos, n: nat)
    requires
        n <= 15,
    ensures
        board_moves(pos, n).len() <= 8 * n,
        forall|i: int| 0 <= i < board_moves(pos, n).len() ==> #[trigger] is_canonical(board_moves(pos, n)[i]),
    decreases n,
{
    if n > 0 {
        lemma_board_moves(pos, (n - 1) as nat);
        let sq = (n - 1) as usize;
        let p = cell(pos, sq);
        let b = piece_steps(pos, sq);
        if 1 <= p <= 5 {
            lemma_steps_from(pos, sq, offsets(p).len());
        }
        assert(b.len() <= 8);
        let a = board_moves(pos, (n - 1) as nat);
        assert forall|i: int| 0 <= i < board_moves(pos, n).len() implies #[trigger] is_canonical(board_moves(pos, n)[i]) by {
            if i < a.len() {
                assert(board_moves(pos, n)[i] == a[i]);
            } else {
                assert(board_moves(pos, n)[i] == b[i - a.len()]);
            }
        }
    }
}

proof fn lemma_drops_from(pos: Pos, hi: usize, n: nat)
    ensures
        drops_from(pos, hi, n).len() <= n,
        forall|i: int| 0 <= i < drops_from(pos, hi, n).len() ==> #[trigger] is_canonical(drops_from(pos, hi, n)[i]),
    decreases n,
{
    if n > 0 {
        lemma_drops_from(pos, hi, (n - 1) as nat);
        let sq = (n - 1) as usize;
        let o = drop_result(pos, hi, sq);
        lemma_opt_seq_canonical(o, flipped(with_hand(with_cell(pos, sq, dropped_piece(hi)), hi, (hand(pos, hi) - 1) as u32)));
        let a = drops_from(pos, hi, (n - 1) as nat);
        assert forall|i: int| 0 <= i < drops_from(pos, hi, n).len() implies #[trigger] is_canonical(drops_from(pos, hi, n)[i]) by {
            if i < a.len() {
                assert(drops_from(pos, hi, n)[i] == a[i]);
            } else {
                assert(drops_from(pos, hi, n)[i] == opt_seq(o)[i - a.len()]);
            }
        }
    }
}

proof fn lemma_drop_moves(pos: Pos, h: nat)
    ensures
        drop_moves(pos, h).len() <= 15 * h,
        forall|i: int| 0 <= i < drop_moves(pos, h).len() ==> #[trigger] is_canonical(drop_moves(pos, h)[i]),
    decreases h,
{
    if h > 0 {
        lemma_drop_moves(pos, (h - 1) as nat);
        let hi = (h - 1) as usize;
        lemma_drops_from(pos, hi, 15);
        let a = drop_moves(pos, (h - 1) as nat);
        let b = hand_drops(pos, hi);
        assert forall|i: int| 0 <= i < drop_moves(pos, h).len() implies #[trigger] is_canonical(drop_moves(pos, h)[i]) by {
            if i < a.len() {
                assert(drop_moves(pos, h)[i] == a[i]);
            } else {
                assert(drop_moves(pos, h)[i] == b[i - a.len()]);
            }
        }
    }
}

/// A position has at most 165 successors (eight steps for each of 15 squares, and a drop on
/// each of 15 squares from each of 3 hand slots).
pub proof fn lemma_successors_len(pos: Pos)
    ensures
        successors(pos).len() <= 165,
{
    lemma_board_moves(pos, 15);
    lemma_drop_moves(pos, 3);
}

/// Every successor is its own representative.
pub proof fn lemma_successors_canonical(pos: Pos)
    ensures
        forall|i: int| 0 <= i < successors(pos).len() ==> #[trigger] is_canonical(successors(pos)[i]),
{
    lemma_board_moves(pos, 15);
    lemma_drop_moves(pos, 3);
    let a = board_moves(pos, 15);
    let b = drop_moves(pos, 3);
    assert forall|i: int| 0 <= i < successors(pos).len() implies #[trigger] is_canonical(successors(pos)[i]) by {
        if i < a.len() {
            assert(successors(pos)[i] == a[i]);
        } else {
            assert(successors(pos)[i] == b[i - a.len()]);
        }
    }
}

// ---------------------------------------------------------------------------
// Where successors come from, and what they keep.

/// `s` comes from a step of one of Black's pieces.
pub open spec fn is_step_of(pos: Pos, s: Pos) -> bool {
    exists|sq: usize, k: int|
        sq < 15 && 1 <= cell(pos, sq) <= 5 && 0 <= k < offsets(cell(pos, sq)).len()
            && #[trigger] step_result(pos, sq, k) == Some(s)
}

/// `s` comes from a drop out of one of Black's non-empty hand slots.
pub open spec fn is_drop_of(pos: Pos, s: Pos) -> bool {
    exists|hi: usize, sq: usize|
        hi < 3 && sq < 15 && hand(pos, hi) != 0 && #[trigger] drop_result(pos, hi, sq) == Some(s)
}

proof fn lemma_concat_contains(a: Seq<Pos>, b: Seq<Pos>, x: Pos)
    requires
        (a + b).contains(x),
    ensures
        a.contains(x) || b.contains(x),
{
    let t = choose|t: int| 0 <= t < (a + b).len() && (a + b)[t] == x;
    if t < a.len() {
        assert(a[t] == x);
    } else {
        assert(b[t - a.len()] == x);
    }
}

proof fn lemma_steps_from_origin(pos: Pos, sq: usize, k: nat, s: Pos)
    requires
        sq < 15,
        1 <= cell(pos, sq) <= 5,
        k <= offsets(cell(pos, sq)).len(),
        steps_from(pos, sq, k).contains(s),
    ensures
        is_step_of(pos, s),
    decreases k,
{
    if k > 0 {
        let a = steps_from(pos, sq, (k - 1) as nat);
        let o = opt_seq(step_result(pos, sq, k - 1));
        lemma_concat_contains(a, o, s);
        if a.contains(s) {
            lemma_steps_from_origin(pos, sq, (k - 1) as nat, s);
        } else {
            assert(step_result(pos, sq, k - 1) == Some(s));
        }
    }
}

proof fn lemma_board_moves_origin(pos: Pos, n: nat, s: Pos)
    requires
        n <= 15,
        board_moves(pos, n).contains(s),
    ensures
        is_step_of(pos, s),
    decreases n,
{
    if n > 0 {
        let a = board_moves(pos, (n - 1) as nat);
        let b = piece_steps(pos, (n - 1) as usize);
        lemma_concat_contains(a, b, s);
        if a.contains(s) {
            lemma_board_moves_origin(pos, (n - 1) as nat, s);
        } else {
            lemma_steps_from_origin(pos, (n - 1) as usize, offsets(cell(pos, (n - 1) as usize)).len(), s);
        }
    }
}

proof fn lemma_drops_from_origin(pos: Pos, hi: usize, n: nat, s: Pos)
    requires
        hi < 3,
        hand(pos, hi) != 0,
        n <= 15,
        drops_from(pos, hi, n).contains(s),
    ensures
        is_drop_of(pos, s),
    decreases n,
{
    if n > 0 {
        let a = drops_from(pos, hi, (n - 1) as nat);
        let o = opt_seq(drop_result(pos, hi, (n - 1) as usize));
        lemma_concat_contains(a, o, s);
        if a.contains(s) {
            lemma_drops_from_origin(pos, hi, (n - 1) as nat, s);
        } else {
            assert(drop_result(pos, hi, (n - 1) as usize) == Some(s));
        }
    }
}

proof fn lemma_drop_moves_origin(pos: Pos, h: nat, s: Pos)
    requires
        h <= 3,
        drop_moves(pos, h).contains(s),
    ensures
        is_drop_of(pos, s),
    decreases h,
{
    if h > 0 {
        let a = drop_moves(pos, (h - 1) as nat);
        let b = hand_drops(pos, (h - 1) as usize);
        lemma_concat_contains(a, b, s);
        if a.contains(s) {
            lemma_drop_moves_origin(pos, (h - 1) as nat, s);
        } else {
            lemma_drops_from_origin(pos, (h - 1) as usize, 15, s);
        }
    }
}

/// Every successor comes from a legal step of a Black piece or a drop from Black's hand.
pub proof fn lemma_successor_origin(pos: Pos, s: Pos)
    requires
        successors(pos).contains(s),
    ensures
        is_step_of(pos, s) || is_drop_of(pos, s),
{
    let a = board_moves(pos, 15);
    let b = drop_moves(pos, 3);
    lemma_concat_contains(a, b, s);
    if a.contains(s) {
        lemma_board_moves_origin(pos, 15, s);
    } else {
        lemma_drop_moves_origin(pos, 3, s);
    }
}

/// Both lions are on the board: Black's (code 1) and White's (code 6).
pub open spec fn has_lions(pos: Pos) -> bool {
    &&& exists|i: usize| i < 15 && #[trigger] cell(pos, i) == 1
    &&& exists|i: usize| i < 15 && #[trigger] cell(pos, i) == 6
}

/// Seeing the position from the other side, and taking its representative, keeps both lions.
pub proof fn lemma_lions_turned(np: Pos)
    requires
        has_lions(np),
    ensures
        has_lions(canonical_of(flipped(np))),
{
    let f = flipped(np);
    lemma_flip_exists(np);
    let b = choose|i: usize| i < 15 && #[trigger] cell(np, i) == 1;
    let w = choose|i: usize| i < 15 && #[trigger] cell(np, i) == 6;
    assert(cell(f, mirror_v(b as int) as usize) == 6);
    assert(cell(f, mirror_v(w as int) as usize) == 1);
    assert(has_lions(f));
    lemma_lions_canonical(f);
}

/// Taking the representative keeps both lions.
pub proof fn lemma_lions_canonical(f: Pos)
    requires
        has_lions(f),
    ensures
        has_lions(canonical_of(f)),
{
    let r = reflection(f);
    lemma_reflect_witness(f);
    assert(is_reflection(r, f));
    let bf = choose|i: usize| i < 15 && #[trigger] cell(f, i) == 1;
    let wf = choose|i: usize| i < 15 && #[trigger] cell(f, i) == 6;
    assert(mirror_lr(mirror_lr(bf as int)) == bf);
    assert(mirror_lr(mirror_lr(wf as int)) == wf);
    assert(cell(r, mirror_lr(bf as int) as usize) == 1);
    assert(cell(r, mirror_lr(wf as int) as usize) == 6);
    assert(has_lions(r));
}

/// A legal step keeps both lions on the board.
pub proof fn lemma_step_keeps_lions(pos: Pos, sq: usize, k: int)
    requires
        has_lions(pos),
        sq < 15,
        1 <= cell(pos, sq) <= 5,
        0 <= k < offsets(cell(pos, sq)).len(),
        step_board(pos, sq, k) is Some,
    ensures
        has_lions(step_board(pos, sq, k)->0),
{
    let p = cell(pos, sq);
    let d = offsets(p)[k];
    let nr = (sq / 3) as int + d.0;
    let nc = (sq % 3) as int + d.1;
    let nsq = (nr * 3 + nc) as usize;
    let t = cell(pos, nsq);
    let np0 = with_cell(pos, sq, 0);
    let np1 = with_cell(np0, nsq, promoted(p, nr));
    lemma_with_cell(pos, sq, 0);
    lemma_with_cell(np0, nsq, promoted(p, nr));
    let b = choose|i: usize| i < 15 && #[trigger] cell(pos, i) == 1;
    let w = choose|i: usize| i < 15 && #[trigger] cell(pos, i) == 6;
    assert(w != sq && w != nsq);
    assert(cell(np1, w) == 6);
    if b == sq {
        assert(cell(np1, nsq) == 1);
        assert(has_lions(np1));
    } else {
        assert(b != nsq);
        assert(cell(np1, b) == 1);
        assert(has_lions(np1));
    }
    if 7 <= t <= 10 {
        let hi = captured_hand(t);
        let np2 = with_hand(np1, hi, (hand(np1, hi) + 1) as u32);
        let b1 = choose|i: usize| i < 15 && #[trigger] cell(np1, i) == 1;
        let w1 = choose|i: usize| i < 15 && #[trigger] cell(np1, i) == 6;
        lemma_cell_with_hand(np1, hi, (hand(np1, hi) + 1) as u32, b1);
        lemma_cell_with_hand(np1, hi, (hand(np1, hi) + 1) as u32, w1);
        assert(cell(np2, b1) == 1);
        assert(cell(np2, w1) == 6);
    }
}

/// A drop keeps both lions on the board.
pub proof fn lemma_drop_keeps_lions(pos: Pos, hi: usize, sq: usize)
    requires
        has_lions(pos),
        hi < 3,
        sq < 15,
        hand(pos, hi) != 0,
        cell(pos, sq) == 0,
    ensures
        has_lions(with_hand(with_cell(pos, sq, dropped_piece(hi)), hi, (hand(pos, hi) - 1) as u32)),
{
    let np1 = with_cell(pos, sq, dropped_piece(hi));
    lemma_with_cell(pos, sq, dropped_piece(hi));
    lemma_with_hand(np1, hi, (hand(pos, hi) - 1) as u32);
    let np2 = with_hand(np1, hi, (hand(pos, hi) - 1) as u32);
    let b = choose|i: usize| i < 15 && #[trigger] cell(pos, i) == 1;
    let w = choose|i: usize| i < 15 && #[trigger] cell(pos, i) == 6;
    assert(cell(np2, b) == 1);
    assert(cell(np2, w) == 6);
}

/// Every successor of a position with both lions has both lions.
pub proof fn lemma_successors_keep_lions(pos: Pos, s: Pos)
    requires
        has_lions(pos),
        successors(pos).contains(s),
    ensures
        has_lions(s),
{
    lemma_successor_origin(pos, s);
    if is_step_of(pos, s) {
        let (sq, k) = choose|sq: usize, k: int|
            sq < 15 && 1 <= cell(pos, sq) <= 5 && 0 <= k < offsets(cell(pos, sq)).len()
                && #[trigger] step_result(pos, sq, k) == Some(s);
        lemma_step_keeps_lions(pos, sq, k);
        lemma_lions_turned(step_board(pos, sq, k)->0);
    } else {
        let (hi, sq) = choose|hi: usize, sq: usize|
            hi < 3 && sq < 15 && hand(pos, hi) != 0 && #[trigger] drop_result(pos, hi, sq) == Some(s);
        lemma_drop_keeps_lions(pos, hi, sq);
        lemma_lions_turned(with_hand(with_cell(pos, sq, dropped_piece(hi)), hi, (hand(pos, hi) - 1) as u32));
    }
}

} // verus!
