use vstd::prelude::*;
use crate::{Pos, NUM_SQ};
use crate::encoding::{cell, with_cell, set_sq, lemma_cell_with_cell_same, lemma_cell_with_cell_other};
use crate::rules::{has_lions, lemma_lions_canonical};
use crate::material::{kind, board_count, hand_count, material, full_set, lemma_count_with_cell, lemma_zero_above, lemma_canonical_full_set};
use crate::encoding::{hand, lemma_high_with_cell};
use crate::symmetry::{canonical, canonical_of};
use crate::sorted::{strictly_sorted, dedup_sorted};
use crate::par::{layouts_by_lion, par_lion_layouts, par_sort_positions};
use crate::pieces::{count_if, code_count, occupied, is_code, is_piece, hand_total, lemma_count_if_write, lemma_canonical_count};
use crate::rules::{initial_pos, is_initial, initial_cell};
use crate::encoding::lemma_pos_ext;

verus! {

broadcast use vstd::seq_lib::group_to_multiset_ensures;

/// The piece placed `k`-th in a starting layout: Black's lion, elephant, giraffe and chick,
/// then White's lion, elephant, giraffe and chick.
pub open spec fn layout_piece(k: int) -> u32 {
    if k == 0 {
        1
    } else if k == 1 {
        2
    } else if k == 2 {
        3
    } else if k == 3 {
        4
    } else if k == 4 {
        6
    } else if k == 5 {
        7
    } else if k == 6 {
        8
    } else {
        9
    }
}

/// The empty board with the `k`-th piece on square `sqs[k]`, for each `k`, and nothing in hand.
pub open spec fn place(sqs: Seq<int>) -> Pos
    decreases sqs.len(),
{
    if sqs.len() == 0 {
        0
    } else {
        with_cell(place(sqs.drop_last()), sqs.last() as usize, layout_piece(sqs.len() - 1))
    }
}

/// `sqs` names distinct squares of the board.
pub open spec fn distinct_squares(sqs: Seq<int>) -> bool {
    &&& forall|k: int| 0 <= k < sqs.len() ==> 0 <= #[trigger] sqs[k] < NUM_SQ
    &&& forall|i: int, j: int| 0 <= i < j < sqs.len() ==> sqs[i] != sqs[j]
}

/// `sqs` places all eight pieces, each on its own square.
pub open spec fn layout_squares(sqs: Seq<int>) -> bool {
    sqs.len() == 8 && distinct_squares(sqs)
}

/// A starting layout: the eight pieces on distinct squares, nothing in hand.
pub open spec fn is_layout(p: Pos) -> bool {
    exists|sqs: Seq<int>| layout_squares(sqs) && #[trigger] place(sqs) == p
}

/// `x` is the representative of a layout whose Black lion stands on `lion_sq`.
pub open spec fn lion_layout(lion_sq: int, x: Pos) -> bool {
    exists|sqs: Seq<int>| #[trigger] layout_squares(sqs) && sqs[0] == lion_sq && x == canonical_of(place(sqs))
}

/// `sqs` is a full layout that begins with `prefix`.
spec fn completes(prefix: Seq<int>, sqs: Seq<int>) -> bool {
    layout_squares(sqs) && sqs.subrange(0, prefix.len() as int) == prefix
}

/// The set bits of `used` below the board size are the squares of `prefix`.
spec fn marks(used: u64, prefix: Seq<int>) -> bool {
    forall|t: usize| t < NUM_SQ ==> ((#[trigger] (used >> t) & 1u64) != 0 <==> prefix.contains(t as int))
}

proof fn lemma_mask_insert(used: u64, sq: usize, t: usize)
    requires
        sq < 64,
        t < 64,
    ensures
        (((used | (1u64 << sq)) >> t) & 1u64 != 0) <==> (t == sq || ((used >> t) & 1u64) != 0),
{
    assert((((used | (1u64 << sq)) >> t) & 1u64 != 0) <==> (t == sq || ((used >> t) & 1u64) != 0))
        by (bit_vector)
        requires
            sq < 64,
            t < 64,
    ;
}

proof fn lemma_mask_single(sq: usize, t: usize)
    requires
        sq < 64,
        t < 64,
    ensures
        (((1u64 << sq) >> t) & 1u64 != 0) <==> t == sq,
{
    assert((((1u64 << sq) >> t) & 1u64 != 0) <==> t == sq) by (bit_vector)
        requires
            sq < 64,
            t < 64,
    ;
}

/// Extending a prefix by one square: the completions of the longer prefix are those of the
/// shorter one that put the next piece there.
proof fn lemma_completes_push(prefix: Seq<int>, sq: int, sqs: Seq<int>)
    requires
        prefix.len() < 8,
    ensures
        completes(prefix.push(sq), sqs) <==> (completes(prefix, sqs) && sqs[prefix.len() as int] == sq),
{
    let n = prefix.len() as int;
    if sqs.len() == 8 {
        assert(sqs.subrange(0, n + 1) =~= sqs.subrange(0, n).push(sqs[n]));
        if sqs.subrange(0, n + 1) == prefix.push(sq) {
            assert(sqs.subrange(0, n) =~= prefix);
            assert(sqs[n] == prefix.push(sq)[n]);
        }
    }
}

/// The piece placed `k`-th, for executable code.
fn piece_at(k: usize) -> (p: u32)
    requires
        k < 8,
    ensures
        p == layout_piece(k as int),
{
    match k {
        0 => 1,
        1 => 2,
        2 => 3,
        3 => 4,
        4 => 6,
        5 => 7,
        6 => 8,
        _ => 9,
    }
}

/// Appends to `out` the representatives of all layouts that begin with the squares of
/// `prefix`, whose pieces `pos` holds and whose squares `used` marks.
fn place_rest(pos: Pos, used: u64, pi: usize, out: &mut Vec<Pos>, Ghost(prefix): Ghost<Seq<int>>)
    requires
        pi == prefix.len(),
        pi <= 8,
        distinct_squares(prefix),
        pos == place(prefix),
        marks(used, prefix),
    ensures
        forall|x: Pos| #[trigger] final(out)@.contains(x) <==> (old(out)@.contains(x) || exists|sqs: Seq<int>|
            #[trigger] completes(prefix, sqs) && x == canonical_of(place(sqs))),
    decreases 8 - pi,
{
    let ghost start = out@;
    if pi == 8 {
        let c = canonical(pos);
        out.push(c);
        proof {
            assert(out@ == start.push(c));
            assert(prefix.subrange(0, 8) =~= prefix);
            assert(completes(prefix, prefix));
            assert forall|x: Pos| #[trigger] out@.contains(x) <==> (start.contains(x) || exists|sqs: Seq<int>|
                #[trigger] completes(prefix, sqs) && x == canonical_of(place(sqs))) by {
                if exists|sqs: Seq<int>| #[trigger] completes(prefix, sqs) && x == canonical_of(place(sqs)) {
                    let sqs = choose|sqs: Seq<int>| #[trigger] completes(prefix, sqs) && x == canonical_of(place(sqs));
                    assert(sqs.subrange(0, 8) =~= sqs);
                    assert(sqs == prefix);
                    assert(out@[start.len() as int] == c);
                }
                if start.contains(x) {
                    let k = choose|k: int| 0 <= k < start.len() && start[k] == x;
                    assert(out@[k] == x);
                }
                if out@.contains(x) && !start.contains(x) {
                    let k = choose|k: int| 0 <= k < out@.len() && out@[k] == x;
                    if k < start.len() {
                        assert(start[k] == x);
                    }
                    assert(x == c);
                    assert(completes(prefix, prefix) && x == canonical_of(place(prefix)));
                }
            }
        }
        return;
    }
    let piece = piece_at(pi);
    for sq in 0..NUM_SQ
        invariant
            pi == prefix.len(),
            pi < 8,
            piece == layout_piece(pi as int),
            distinct_squares(prefix),
            pos == place(prefix),
            marks(used, prefix),
            forall|x: Pos| #[trigger] out@.contains(x) <==> (start.contains(x) || exists|sqs: Seq<int>|
                #[trigger] completes(prefix, sqs) && sqs[pi as int] < sq && x == canonical_of(place(sqs))),
    {
        let ghost before = out@;
        if (used >> sq) & 1 != 0 {
            proof {
                assert(prefix.contains(sq as int));
                assert forall|x: Pos| #[trigger] out@.contains(x) <==> (start.contains(x) || exists|sqs: Seq<int>|
                    #[trigger] completes(prefix, sqs) && sqs[pi as int] < sq + 1 && x == canonical_of(place(sqs))) by {
                    if exists|sqs: Seq<int>| #[trigger] completes(prefix, sqs) && sqs[pi as int] < sq + 1 && x == canonical_of(place(sqs)) {
                        let sqs = choose|sqs: Seq<int>| #[trigger] completes(prefix, sqs) && sqs[pi as int] < sq + 1 && x == canonical_of(place(sqs));
                        let j = choose|j: int| 0 <= j < prefix.len() && prefix[j] == sq as int;
                        assert(sqs.subrange(0, pi as int)[j] == sqs[j]);
                        assert(sqs[pi as int] != sqs[j]);
                    }
                }
            }
        } else {
        let np = set_sq(pos, sq, piece);
        let nused = used | (1u64 << sq);
        let ghost next = prefix.push(sq as int);
        proof {
            assert(next.drop_last() =~= prefix);
            assert(np == place(next));
            assert(!prefix.contains(sq as int));
            assert forall|i: int, j: int| 0 <= i < j < next.len() implies next[i] != next[j] by {
                if j == pi {
                    assert(prefix.contains(next[i]));
                }
            }
            assert forall|t: usize| t < NUM_SQ implies ((#[trigger] (nused >> t) & 1u64) != 0 <==> next.contains(t as int)) by {
                lemma_mask_insert(used, sq, t);
                assert(((used >> t) & 1u64 != 0) <==> prefix.contains(t as int));
                if prefix.contains(t as int) {
                    let j = choose|j: int| 0 <= j < prefix.len() && prefix[j] == t as int;
                    assert(next[j] == t as int);
                }
                if next.contains(t as int) {
                    let j = choose|j: int| 0 <= j < next.len() && next[j] == t as int;
                    if j < pi {
                        assert(prefix[j] == t as int);
                    }
                }
                assert(next[pi as int] == sq as int);
            }
        }
        place_rest(np, nused, pi + 1, out, Ghost(next));
        proof {
            assert forall|x: Pos| #[trigger] out@.contains(x) <==> (start.contains(x) || exists|sqs: Seq<int>|
                #[trigger] completes(prefix, sqs) && sqs[pi as int] < sq + 1 && x == canonical_of(place(sqs))) by {
                if exists|sqs: Seq<int>| #[trigger] completes(prefix, sqs) && sqs[pi as int] < sq + 1 && x == canonical_of(place(sqs)) {
                    let sqs = choose|sqs: Seq<int>| #[trigger] completes(prefix, sqs) && sqs[pi as int] < sq + 1 && x == canonical_of(place(sqs));
                    lemma_completes_push(prefix, sq as int, sqs);
                    if sqs[pi as int] < sq {
                        assert(before.contains(x));
                    } else {
                        assert(completes(next, sqs));
                    }
                }
                if exists|sqs: Seq<int>| #[trigger] completes(next, sqs) && x == canonical_of(place(sqs)) {
                    let sqs = choose|sqs: Seq<int>| #[trigger] completes(next, sqs) && x == canonical_of(place(sqs));
                    lemma_completes_push(prefix, sq as int, sqs);
                    assert(completes(prefix, sqs) && sqs[pi as int] < sq + 1);
                }
                if before.contains(x) && !start.contains(x) {
                    let sqs = choose|sqs: Seq<int>| #[trigger] completes(prefix, sqs) && sqs[pi as int] < sq && x == canonical_of(place(sqs));
                    assert(completes(prefix, sqs) && sqs[pi as int] < sq + 1);
                }
            }
        }
        }
    }
    proof {
        assert forall|x: Pos| #[trigger] out@.contains(x) <==> (start.contains(x) || exists|sqs: Seq<int>|
            #[trigger] completes(prefix, sqs) && x == canonical_of(place(sqs))) by {
            if exists|sqs: Seq<int>| #[trigger] completes(prefix, sqs) && x == canonical_of(place(sqs)) {
                let sqs = choose|sqs: Seq<int>| #[trigger] completes(prefix, sqs) && x == canonical_of(place(sqs));
                assert(0 <= sqs[pi as int] < NUM_SQ);
            }
        }
    }
}

/// The representatives of the layouts whose Black lion stands on `lion_sq`, in the order of
/// the search, with repeats.
pub(crate) fn layouts_with_lion(lion_sq: usize) -> (out: Vec<Pos>)
    requires
        lion_sq < NUM_SQ,
    ensures
        forall|x: Pos| #[trigger] out@.contains(x) <==> lion_layout(lion_sq as int, x),
{
    let mut out: Vec<Pos> = Vec::new();
    let pos = set_sq(0, lion_sq, 1);
    let used = 1u64 << lion_sq;
    let ghost prefix = seq![lion_sq as int];
    proof {
        assert(prefix.drop_last() =~= Seq::<int>::empty());
        assert(place(Seq::<int>::empty()) == 0);
        assert(prefix.last() as usize == lion_sq);
        assert(pos == place(prefix));
        assert forall|t: usize| t < NUM_SQ implies ((#[trigger] (used >> t) & 1u64) != 0 <==> prefix.contains(t as int)) by {
            lemma_mask_single(lion_sq, t);
            assert(prefix[0] == lion_sq as int);
        }
    }
    place_rest(pos, used, 1, &mut out, Ghost(prefix));
    proof {
        assert forall|x: Pos| #[trigger] out@.contains(x) <==> lion_layout(lion_sq as int, x) by {
            if out@.contains(x) {
                let sqs = choose|sqs: Seq<int>| #[trigger] completes(prefix, sqs) && x == canonical_of(place(sqs));
                assert(sqs.subrange(0, 1)[0] == sqs[0]);
            }
            if lion_layout(lion_sq as int, x) {
                let sqs = choose|sqs: Seq<int>| #[trigger] layout_squares(sqs) && sqs[0] == lion_sq as int && x == canonical_of(place(sqs));
                assert(sqs.subrange(0, 1) =~= prefix);
                assert(completes(prefix, sqs));
            }
        }
    }
    out
}

/// Each placed piece stands on its square.
proof fn lemma_place_cells(sqs: Seq<int>, k: int)
    requires
        distinct_squares(sqs),
        0 <= k < sqs.len(),
    ensures
        cell(place(sqs), sqs[k] as usize) == layout_piece(k),
    decreases sqs.len(),
{
    let n = sqs.len() - 1;
    let rest = sqs.drop_last();
    if k == n {
        lemma_cell_with_cell_same(place(rest), sqs[n] as usize, layout_piece(n));
    } else {
        assert(rest[k] == sqs[k]);
        lemma_place_cells(rest, k);
        lemma_cell_with_cell_other(place(rest), sqs[n] as usize, layout_piece(n), sqs[k] as usize);
    }
}

/// The representative of a starting layout has both lions on the board.
pub proof fn lemma_layout_lions(p: Pos)
    requires
        is_layout(p),
    ensures
        has_lions(canonical_of(p)),
{
    let sqs = choose|sqs: Seq<int>| layout_squares(sqs) && #[trigger] place(sqs) == p;
    lemma_place_cells(sqs, 0);
    lemma_place_cells(sqs, 4);
    assert(cell(p, sqs[0] as usize) == 1);
    assert(cell(p, sqs[4] as usize) == 6);
    lemma_lions_canonical(p);
}

/// The empty board: every square empty and nothing from bit 60 up.
proof fn lemma_empty_board(sh: usize)
    by (bit_vector)
    requires
        sh < 128,
    ensures
        ((0u128 >> sh) & 0xF) as u32 == 0,
        0u128 >> 60usize == 0,
{
}

/// A square that no piece was placed on is empty.
proof fn lemma_place_empty(sqs: Seq<int>, i: usize)
    requires
        distinct_squares(sqs),
        i < NUM_SQ,
        !sqs.contains(i as int),
    ensures
        cell(place(sqs), i) == 0,
    decreases sqs.len(),
{
    if sqs.len() == 0 {
        lemma_empty_board((i * 4) as usize);
    } else {
        let rest = sqs.drop_last();
        assert(!rest.contains(i as int)) by {
            if rest.contains(i as int) {
                let j = choose|j: int| 0 <= j < rest.len() && rest[j] == i as int;
                assert(sqs[j] == i as int);
            }
        }
        lemma_place_empty(rest, i);
        assert(sqs.last() != i as int) by {
            assert(sqs[sqs.len() - 1] == sqs.last());
        }
        lemma_cell_with_cell_other(place(rest), sqs.last() as usize, layout_piece(sqs.len() - 1), i);
    }
}

/// Placing pieces writes nothing from bit 60 up.
proof fn lemma_place_high(sqs: Seq<int>)
    requires
        distinct_squares(sqs),
    ensures
        place(sqs) >> 60usize == 0,
    decreases sqs.len(),
{
    if sqs.len() == 0 {
        lemma_empty_board(0);
    } else {
        let rest = sqs.drop_last();
        lemma_place_high(rest);
        assert(sqs[sqs.len() - 1] == sqs.last());
        lemma_high_with_cell(place(rest), sqs.last() as usize, layout_piece(sqs.len() - 1));
    }
}

/// How many of the first `n` pieces placed are of kind `k`.
spec fn kinds_placed(n: int, k: int) -> nat
    decreases n,
{
    if n <= 0 {
        0
    } else {
        kinds_placed(n - 1, k) + if kind(layout_piece(n - 1)) == k { 1nat } else { 0nat }
    }
}

/// The board counts every placed piece once, by kind.
proof fn lemma_place_count(sqs: Seq<int>, k: int)
    requires
        distinct_squares(sqs),
        sqs.len() <= 8,
        0 <= k,
    ensures
        board_count(place(sqs), k, 15) == kinds_placed(sqs.len() as int, k),
    decreases sqs.len(),
{
    if sqs.len() == 0 {
        assert forall|i: usize| i < 15 implies #[trigger] cell(place(sqs), i) == 0 by {
            lemma_empty_board((i * 4) as usize);
        }
        lemma_board_count_empty(place(sqs), k, 15);
    } else {
        let rest = sqs.drop_last();
        let last = sqs.last();
        assert(sqs[sqs.len() - 1] == last);
        lemma_place_count(rest, k);
        assert(!rest.contains(last)) by {
            if rest.contains(last) {
                let j = choose|j: int| 0 <= j < rest.len() && rest[j] == last;
                assert(sqs[j] == last);
            }
        }
        lemma_place_empty(rest, last as usize);
        lemma_count_with_cell(place(rest), last as usize, layout_piece(sqs.len() - 1), k, 15);
    }
}

/// An empty board holds no piece of any kind.
proof fn lemma_board_count_empty(pos: Pos, k: int, n: nat)
    requires
        n <= 15,
        0 <= k,
        forall|i: usize| i < 15 ==> #[trigger] cell(pos, i) == 0,
    ensures
        board_count(pos, k, n) == 0,
    decreases n,
{
    if n > 0 {
        lemma_board_count_empty(pos, k, (n - 1) as nat);
        assert(cell(pos, (n - 1) as usize) == 0);
    }
}

/// A starting layout holds the full set of pieces, and so does its representative.
pub proof fn lemma_layout_full_set(p: Pos)
    requires
        is_layout(p),
    ensures
        full_set(p),
        full_set(canonical_of(p)),
{
    let sqs = choose|sqs: Seq<int>| layout_squares(sqs) && #[trigger] place(sqs) == p;
    lemma_place_high(sqs);
    lemma_zero_above(p, 60);
    lemma_zero_above(p, 62);
    lemma_zero_above(p, 64);
    lemma_zero_above(p, 66);
    lemma_zero_above(p, 68);
    lemma_zero_above(p, 70);
    assert(hand(p, 0) == 0 && hand(p, 1) == 0 && hand(p, 2) == 0);
    assert(hand(p, 3) == 0 && hand(p, 4) == 0 && hand(p, 5) == 0);
    assert forall|k: int| 0 <= k < 4 implies #[trigger] material(p, k) == 2 by {
        lemma_place_count(sqs, k);
        reveal_with_fuel(kinds_placed, 9);
    }
    assert forall|i: usize| i < 15 implies #[trigger] cell(p, i) <= 10 by {
        if sqs.contains(i as int) {
            let j = choose|j: int| 0 <= j < sqs.len() && sqs[j] == i as int;
            lemma_place_cells(sqs, j);
        } else {
            lemma_place_empty(sqs, i);
        }
    }
    lemma_canonical_full_set(p);
}

/// How many of the first `n` pieces placed have a code that `f` accepts.
spec fn placed_codes(n: int, f: spec_fn(u32) -> bool) -> nat
    decreases n,
{
    if n <= 0 {
        0
    } else {
        placed_codes(n - 1, f) + if f(layout_piece(n - 1)) { 1nat } else { 0nat }
    }
}

/// The board counts every placed piece once, by code.
proof fn lemma_place_count_if(sqs: Seq<int>, f: spec_fn(u32) -> bool)
    requires
        distinct_squares(sqs),
        !f(0),
    ensures
        count_if(place(sqs), f, 15) == placed_codes(sqs.len() as int, f),
    decreases sqs.len(),
{
    if sqs.len() == 0 {
        assert forall|i: usize| i < 15 implies #[trigger] cell(place(sqs), i) == 0 by {
            lemma_empty_board((i * 4) as usize);
        }
        lemma_count_if_zero(place(sqs), f, 15);
    } else {
        let rest = sqs.drop_last();
        let last = sqs.last();
        assert(sqs[sqs.len() - 1] == last);
        lemma_place_count_if(rest, f);
        assert(!rest.contains(last)) by {
            if rest.contains(last) {
                let j = choose|j: int| 0 <= j < rest.len() && rest[j] == last;
                assert(sqs[j] == last);
            }
        }
        lemma_place_empty(rest, last as usize);
        lemma_count_if_write(place(rest), last as usize, layout_piece(sqs.len() - 1), f, 15);
    }
}

/// An empty board has no square that `f` accepts, when `f` rejects the empty code.
proof fn lemma_count_if_zero(pos: Pos, f: spec_fn(u32) -> bool, n: nat)
    requires
        n <= 15,
        !f(0),
        forall|i: usize| i < 15 ==> #[trigger] cell(pos, i) == 0,
    ensures
        count_if(pos, f, n) == 0,
    decreases n,
{
    if n > 0 {
        lemma_count_if_zero(pos, f, (n - 1) as nat);
        assert(cell(pos, (n - 1) as usize) == 0);
    }
}

/// The representative of a starting layout holds exactly one of each of the eight pieces,
/// Black's lion, elephant, giraffe and chick (codes 1, 2, 3, 4) and White's (codes 6, 7, 8, 9),
/// no other piece on the board (no hen in particular), and nothing in hand.
pub proof fn lemma_layout_pieces(p: Pos)
    requires
        is_layout(p),
    ensures
        code_count(canonical_of(p), 1) == 1,
        code_count(canonical_of(p), 2) == 1,
        code_count(canonical_of(p), 3) == 1,
        code_count(canonical_of(p), 4) == 1,
        code_count(canonical_of(p), 6) == 1,
        code_count(canonical_of(p), 7) == 1,
        code_count(canonical_of(p), 8) == 1,
        code_count(canonical_of(p), 9) == 1,
        occupied(canonical_of(p)) == 8,
        forall|i: usize| i < 6 ==> #[trigger] hand(canonical_of(p), i) == 0,
{
    let sqs = choose|sqs: Seq<int>| layout_squares(sqs) && #[trigger] place(sqs) == p;
    lemma_layout_full_set(p);
    let x = canonical_of(p);
    assert forall|c: u32| 1 <= c <= 9 && c != 5 implies #[trigger] code_count(x, c) == 1 by {
        lemma_place_count_if(sqs, is_code(c));
        lemma_canonical_count(p, is_code(c));
        reveal_with_fuel(placed_codes, 9);
    }
    lemma_place_count_if(sqs, is_piece());
    lemma_canonical_count(p, is_piece());
    reveal_with_fuel(placed_codes, 9);
    lemma_place_high(sqs);
    lemma_zero_above(p, 60);
    lemma_zero_above(p, 62);
    lemma_zero_above(p, 64);
    lemma_zero_above(p, 66);
    lemma_zero_above(p, 68);
    lemma_zero_above(p, 70);
    assert(hand_total(p) == 0);
    assert(code_count(x, 1) == 1 && code_count(x, 2) == 1 && code_count(x, 3) == 1 && code_count(x, 4) == 1);
    assert(code_count(x, 6) == 1 && code_count(x, 7) == 1 && code_count(x, 8) == 1 && code_count(x, 9) == 1);
}

/// The starting position is one of the layouts.
pub proof fn lemma_initial_is_layout()
    ensures
        is_layout(initial_pos()),
{
    let sqs: Seq<int> = seq![13, 12, 14, 10, 1, 2, 0, 4];
    assert(layout_squares(sqs));
    let p = place(sqs);
    lemma_place_cells(sqs, 0);
    lemma_place_cells(sqs, 1);
    lemma_place_cells(sqs, 2);
    lemma_place_cells(sqs, 3);
    lemma_place_cells(sqs, 4);
    lemma_place_cells(sqs, 5);
    lemma_place_cells(sqs, 6);
    lemma_place_cells(sqs, 7);
    assert forall|i: usize| i < 15 implies #[trigger] cell(p, i) == initial_cell(i as int) by {
        if !sqs.contains(i as int) {
            lemma_place_empty(sqs, i);
        } else {
            let j = choose|j: int| 0 <= j < sqs.len() && sqs[j] == i as int;
            lemma_place_cells(sqs, j);
        }
    }
    lemma_place_high(sqs);
    assert(is_initial(p));
    let q = initial_pos();
    assert(is_initial(q));
    assert forall|i: usize| i < 15 implies #[trigger] cell(p, i) == cell(q, i) by {}
    assert(cell(p, 0) == cell(q, 0) && cell(p, 1) == cell(q, 1) && cell(p, 2) == cell(q, 2));
    assert(cell(p, 3) == cell(q, 3) && cell(p, 4) == cell(q, 4) && cell(p, 5) == cell(q, 5));
    assert(cell(p, 6) == cell(q, 6) && cell(p, 7) == cell(q, 7) && cell(p, 8) == cell(q, 8));
    assert(cell(p, 9) == cell(q, 9) && cell(p, 10) == cell(q, 10) && cell(p, 11) == cell(q, 11));
    assert(cell(p, 12) == cell(q, 12) && cell(p, 13) == cell(q, 13) && cell(p, 14) == cell(q, 14));
    lemma_pos_ext(p, q);
    assert(place(sqs) == initial_pos());
}

/// A position lies in a concatenation exactly when it lies in one of the parts.
proof fn lemma_flatten_contains(parts: Seq<Seq<Pos>>, x: Pos)
    ensures
        parts.flatten().contains(x) <==> exists|l: int| 0 <= l < parts.len() && #[trigger] parts[l].contains(x),
    decreases parts.len(),
{
    if parts.len() > 0 {
        let rest = parts.drop_first();
        lemma_flatten_contains(rest, x);
        let a = parts.first();
        let b = rest.flatten();
        assert(parts.flatten() == a + b);
        if (a + b).contains(x) {
            let k = choose|k: int| 0 <= k < (a + b).len() && (a + b)[k] == x;
            if k < a.len() {
                assert(a[k] == x);
                assert(parts[0].contains(x));
            } else {
                assert(b[k - a.len()] == x);
                let l = choose|l: int| 0 <= l < rest.len() && #[trigger] rest[l].contains(x);
                assert(parts[l + 1] == rest[l]);
            }
        }
        if exists|l: int| 0 <= l < parts.len() && #[trigger] parts[l].contains(x) {
            let l = choose|l: int| 0 <= l < parts.len() && #[trigger] parts[l].contains(x);
            if l == 0 {
                let k = choose|k: int| 0 <= k < a.len() && a[k] == x;
                assert((a + b)[k] == x);
            } else {
                assert(rest[l - 1] == parts[l]);
                assert(b.contains(x));
                let k = choose|k: int| 0 <= k < b.len() && b[k] == x;
                assert((a + b)[a.len() + k] == x);
            }
        }
    }
}

/// The representatives of all starting layouts (the eight pieces on distinct squares, nothing
/// in hand), in increasing order, each once.
pub fn enumerate_initial_positions() -> (out: Vec<Pos>)
    ensures
        strictly_sorted(out@),
        forall|x: Pos| #[trigger] out@.contains(x) <==> exists|p: Pos| #[trigger] is_layout(p) && x == canonical_of(p),
        forall|i: int| 0 <= i < out@.len() ==> #[trigger] has_lions(out@[i]),
        forall|i: int| 0 <= i < out@.len() ==> #[trigger] full_set(out@[i]),
        forall|i: int, c: u32|
            0 <= i < out@.len() && (1 <= c <= 4 || 6 <= c <= 9) ==> #[trigger] code_count(out@[i], c) == 1,
        forall|i: int| 0 <= i < out@.len() ==> #[trigger] occupied(out@[i]) == 8,
        forall|i: int, h: usize| 0 <= i < out@.len() && h < 6 ==> #[trigger] hand(out@[i], h) == 0,
        out@.contains(canonical_of(initial_pos())),
{
    let mut out = par_lion_layouts();
    let ghost all = out@;
    par_sort_positions(&mut out);
    let ghost sorted_all = out@;
    dedup_sorted(&mut out);
    proof {
        let parts = choose|parts: Seq<Seq<Pos>>|
            #[trigger] parts.flatten() == all && parts.len() == NUM_SQ && forall|l: int, x: Pos|
                0 <= l < NUM_SQ ==> (#[trigger] parts[l].contains(x) <==> lion_layout(l, x));
        assert forall|x: Pos| #[trigger] out@.contains(x) <==> exists|p: Pos| #[trigger] is_layout(p) && x == canonical_of(p) by {
            assert(out@.contains(x) <==> sorted_all.contains(x));
            assert(sorted_all.contains(x) <==> sorted_all.to_multiset().count(x) > 0);
            assert(all.contains(x) <==> all.to_multiset().count(x) > 0);
            lemma_flatten_contains(parts, x);
            if all.contains(x) {
                let l = choose|l: int| 0 <= l < parts.len() && #[trigger] parts[l].contains(x);
                let sqs = choose|sqs: Seq<int>| #[trigger] layout_squares(sqs) && sqs[0] == l && x == canonical_of(place(sqs));
                assert(is_layout(place(sqs)));
            }
            if exists|p: Pos| #[trigger] is_layout(p) && x == canonical_of(p) {
                let p = choose|p: Pos| #[trigger] is_layout(p) && x == canonical_of(p);
                let sqs = choose|sqs: Seq<int>| layout_squares(sqs) && #[trigger] place(sqs) == p;
                let l = sqs[0];
                assert(0 <= l < NUM_SQ);
                assert(lion_layout(l, x));
                assert(parts[l].contains(x));
            }
        }
        assert forall|i: int| 0 <= i < out@.len() implies #[trigger] has_lions(out@[i]) by {
            assert(out@.contains(out@[i]));
            let p = choose|p: Pos| #[trigger] is_layout(p) && out@[i] == canonical_of(p);
            lemma_layout_lions(p);
        }
        assert forall|i: int| 0 <= i < out@.len() implies #[trigger] full_set(out@[i]) by {
            assert(out@.contains(out@[i]));
            let p = choose|p: Pos| #[trigger] is_layout(p) && out@[i] == canonical_of(p);
            lemma_layout_full_set(p);
        }
        assert forall|i: int, c: u32| 0 <= i < out@.len() && (1 <= c <= 4 || 6 <= c <= 9) implies #[trigger] code_count(out@[i], c) == 1 by {
            assert(out@.contains(out@[i]));
            let p = choose|p: Pos| #[trigger] is_layout(p) && out@[i] == canonical_of(p);
            lemma_layout_pieces(p);
        }
        assert forall|i: int| 0 <= i < out@.len() implies #[trigger] occupied(out@[i]) == 8 by {
            assert(out@.contains(out@[i]));
            let p = choose|p: Pos| #[trigger] is_layout(p) && out@[i] == canonical_of(p);
            lemma_layout_pieces(p);
        }
        assert forall|i: int, h: usize| 0 <= i < out@.len() && h < 6 implies #[trigger] hand(out@[i], h) == 0 by {
            assert(out@.contains(out@[i]));
            let p = choose|p: Pos| #[trigger] is_layout(p) && out@[i] == canonical_of(p);
            lemma_layout_pieces(p);
        }
        lemma_initial_is_layout();
        assert(is_layout(initial_pos()) && canonical_of(initial_pos()) == canonical_of(initial_pos()));
    }
    out
}

} // verus!
