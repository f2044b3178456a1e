use vstd::prelude::*;
use crate::{Pos, STATUS_WIN, STATUS_LOSE, STATUS_UNKNOWN};
use crate::encoding::cell;
use crate::rules::{offsets, attacks, can_reach, target_row, target_col, terminal, white_lion, lemma_white_lion_is, successors, has_white_lion, is_first_white_lion};
use crate::solve::{initial_status, initial_remaining};

verus! {

/// A Black piece with code `p` can move `dr` rows and `dc` columns in one step (row -1 is
/// towards White): the lion one square in any direction, the elephant one square diagonally,
/// the giraffe one square orthogonally, the chick one square straight forward, and the hen one
/// square in any direction but diagonally backward. No other code is a Black piece.
pub open spec fn steps_onto(p: u32, dr: int, dc: int) -> bool {
    if p == 1 {
        -1 <= dr <= 1 && -1 <= dc <= 1 && !(dr == 0 && dc == 0)
    } else if p == 2 {
        (dr == 1 || dr == -1) && (dc == 1 || dc == -1)
    } else if p == 3 {
        (dr == 0 && (dc == 1 || dc == -1)) || (dc == 0 && (dr == 1 || dr == -1))
    } else if p == 4 {
        dr == -1 && dc == 0
    } else if p == 5 {
        (dr == -1 && -1 <= dc <= 1) || (dr == 0 && (dc == 1 || dc == -1)) || (dr == 1 && dc == 0)
    } else {
        false
    }
}

/// Some Black piece on the board stands one of its steps away from square `t`.
pub open spec fn attacked(pos: Pos, t: usize) -> bool {
    exists|sq: usize|
        sq < 15 && #[trigger] steps_onto(cell(pos, sq), (t / 3) as int - (sq / 3) as int, (t % 3) as int - (sq % 3) as int)
}

/// The step table of each piece lists exactly the steps that piece can take.
pub(crate) proof fn lemma_offsets_steps(p: u32, dr: int, dc: int)
    ensures
        steps_onto(p, dr, dc) <==> exists|k: int|
            0 <= k < offsets(p).len() && #[trigger] offsets(p)[k].0 as int == dr && offsets(p)[k].1 as int == dc,
{
    let o = offsets(p);
    if p == 1 {
        assert(o[0] == (-1i32, -1i32) && o[1] == (-1i32, 0i32) && o[2] == (-1i32, 1i32) && o[3] == (0i32, -1i32));
        assert(o[4] == (0i32, 1i32) && o[5] == (1i32, -1i32) && o[6] == (1i32, 0i32) && o[7] == (1i32, 1i32));
        assert(o.len() == 8);
    } else if p == 2 {
        assert(o[0] == (-1i32, -1i32) && o[1] == (-1i32, 1i32) && o[2] == (1i32, -1i32) && o[3] == (1i32, 1i32));
        assert(o.len() == 4);
    } else if p == 3 {
        assert(o[0] == (-1i32, 0i32) && o[1] == (1i32, 0i32) && o[2] == (0i32, -1i32) && o[3] == (0i32, 1i32));
        assert(o.len() == 4);
    } else if p == 4 {
        assert(o[0] == (-1i32, 0i32));
        assert(o.len() == 1);
    } else if p == 5 {
        assert(o[0] == (-1i32, -1i32) && o[1] == (-1i32, 0i32) && o[2] == (-1i32, 1i32));
        assert(o[3] == (0i32, -1i32) && o[4] == (0i32, 1i32) && o[5] == (1i32, 0i32));
        assert(o.len() == 6);
    } else {
        assert(o.len() == 0);
    }
    if exists|k: int| 0 <= k < o.len() && #[trigger] o[k].0 as int == dr && o[k].1 as int == dc {
        let k = choose|k: int| 0 <= k < o.len() && #[trigger] o[k].0 as int == dr && o[k].1 as int == dc;
        if p == 1 {
            assert(k == 0 || k == 1 || k == 2 || k == 3 || k == 4 || k == 5 || k == 6 || k == 7);
        } else if p == 5 {
            assert(k == 0 || k == 1 || k == 2 || k == 3 || k == 4 || k == 5);
        } else if p == 2 || p == 3 {
            assert(k == 0 || k == 1 || k == 2 || k == 3);
        }
        assert(steps_onto(p, dr, dc));
    }
    if steps_onto(p, dr, dc) {
        let k: int = if p == 1 {
            let i = (dr + 1) * 3 + (dc + 1);
            if i > 4 { i - 1 } else { i }
        } else if p == 2 {
            (if dr == 1 { 2int } else { 0int }) + (if dc == 1 { 1int } else { 0int })
        } else if p == 3 {
            if dc == 0 { if dr == -1 { 0 } else { 1 } } else { if dc == -1 { 2 } else { 3 } }
        } else if p == 4 {
            0
        } else {
            if dr == -1 { dc + 1 } else if dr == 0 { if dc == -1 { 3 } else { 4 } } else { 5 }
        };
        assert(0 <= k < o.len() && o[k].0 as int == dr && o[k].1 as int == dc);
    }
}

/// On the board, `can_reach` says exactly that some Black piece stands one of its steps away
/// from the target square: the lion, elephant, giraffe, chick and hen each by their own moves.
pub proof fn lemma_can_reach_geometry(pos: Pos, t: usize)
    requires
        t < 15,
    ensures
        can_reach(pos, t) <==> attacked(pos, t),
{
    assert(target_row(t) == t / 3);
    assert(target_col(t) == t % 3);
    if can_reach(pos, t) {
        let (sq, k) = choose|sq: usize, k: int| sq < 15 && #[trigger] attacks(pos, sq, k, target_row(t), target_col(t));
        let p = cell(pos, sq);
        lemma_offsets_steps(p, offsets(p)[k].0 as int, offsets(p)[k].1 as int);
        assert(steps_onto(cell(pos, sq), (t / 3) as int - (sq / 3) as int, (t % 3) as int - (sq % 3) as int));
    }
    if attacked(pos, t) {
        let sq = choose|sq: usize|
            sq < 15 && #[trigger] steps_onto(cell(pos, sq), (t / 3) as int - (sq / 3) as int, (t % 3) as int - (sq % 3) as int);
        let p = cell(pos, sq);
        let dr = (t / 3) as int - (sq / 3) as int;
        let dc = (t % 3) as int - (sq % 3) as int;
        lemma_offsets_steps(p, dr, dc);
        let k = choose|k: int| 0 <= k < offsets(p).len() && #[trigger] offsets(p)[k].0 as int == dr && offsets(p)[k].1 as int == dc;
        assert(1 <= p <= 5);
        assert(attacks(pos, sq, k, target_row(t), target_col(t)));
    }
}

/// A position ends the game exactly when some Black piece stands one step away from the White
/// lion (and captures it), or when the White lion stands on Black's back rank, row 4.
pub proof fn lemma_terminal_rule(pos: Pos, w: usize)
    requires
        w < 15,
        cell(pos, w) == 6,
        forall|j: usize| j < w ==> #[trigger] cell(pos, j) != 6,
    ensures
        terminal(pos) <==> (attacked(pos, w) || w / 3 == 4),
{
    lemma_white_lion_is(pos, w);
    lemma_can_reach_geometry(pos, w);
}

/// The status a position starts the analysis with: won (Black to move captures the lion)
/// whenever a Black piece stands one step away from the White lion, on any row; lost when the
/// lion stands on row 4 out of reach; otherwise unknown, waiting for every successor.
pub proof fn lemma_initial_status_rule(pos: Pos, w: usize)
    requires
        w < 15,
        cell(pos, w) == 6,
        forall|j: usize| j < w ==> #[trigger] cell(pos, j) != 6,
    ensures
        attacked(pos, w) ==> initial_status(pos) == STATUS_WIN && initial_remaining(pos) == 0,
        !attacked(pos, w) && w / 3 == 4 ==> initial_status(pos) == STATUS_LOSE && initial_remaining(pos) == 0,
        !attacked(pos, w) && w / 3 != 4 ==> initial_status(pos) == STATUS_UNKNOWN
            && initial_remaining(pos) == successors(pos).len(),
{
    lemma_terminal_rule(pos, w);
    lemma_white_lion_is(pos, w);
    lemma_can_reach_geometry(pos, w);
}

/// A White lion at or before square `i` gives a first one.
proof fn lemma_first_from(pos: Pos, i: usize)
    requires
        i < 15,
        cell(pos, i) == 6,
    ensures
        is_first_white_lion(pos, white_lion(pos)),
    decreases i,
{
    if forall|j: usize| j < i ==> #[trigger] cell(pos, j) != 6 {
        lemma_white_lion_is(pos, i);
    } else {
        let j = choose|j: usize| j < i && #[trigger] cell(pos, j) == 6;
        lemma_first_from(pos, j);
    }
}

/// When the White lion is on the board, `white_lion` is the first square that holds it.
pub proof fn lemma_first_white_lion(pos: Pos)
    requires
        has_white_lion(pos),
    ensures
        is_first_white_lion(pos, white_lion(pos)),
{
    let i = choose|i: usize| i < 15 && #[trigger] cell(pos, i) == 6;
    lemma_first_from(pos, i);
}

} // verus!
