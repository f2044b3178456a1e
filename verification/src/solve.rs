use vstd::prelude::*;
use crate::{Pos, EdgeIdx, NUM_SQ, STATUS_UNKNOWN, STATUS_WIN, STATUS_LOSE};
use crate::sorted::{strictly_sorted, lemma_strictly_sorted_same};
use crate::par::par_classify;
use crate::retro::{offsets_ordered, lemma_offsets_mono_pub, lemma_segment_exists, rev_graph_ok, is_parent, in_segment, retrograde, decided_before, decided_in_order};
use crate::csr::{edges_into, edges_total, edge_count, build_reverse_csr, reverse_csr_fits};
use crate::search::{closed, bfs, bfs_from_seeds, reachable};
use crate::symmetry::canonical_of;
use crate::encoding::{cell, get_sq};
use crate::rules::{initial_pos, successors, terminal, can_reach, white_lion, has_white_lion, has_lions, is_terminal, find_white_lion, black_can_reach, generate_successors_canonical, lemma_successors_len};

use crate::reach::{attacked, lemma_initial_status_rule, lemma_first_white_lion};

verus! {

broadcast use vstd::seq_lib::group_to_multiset_ensures;

/// The status a position starts the analysis with: a terminal position is won when Black can
/// capture the White lion and lost otherwise (the White lion has reached Black's back rank);
/// any other position is unknown.
pub open spec fn initial_status(pos: Pos) -> u8 {
    if terminal(pos) {
        if can_reach(pos, white_lion(pos)) { STATUS_WIN } else { STATUS_LOSE }
    } else {
        STATUS_UNKNOWN
    }
}

/// The number of successors the analysis waits for: none for a terminal position.
pub open spec fn initial_remaining(pos: Pos) -> nat {
    if terminal(pos) { 0 } else { successors(pos).len() }
}

/// The starting status of one position, and its number of successors if it is not terminal.
pub fn classify_position(pos: Pos) -> (res: (u8, u8))
    requires
        has_white_lion(pos),
    ensures
        res.0 == initial_status(pos),
        res.1 as nat == initial_remaining(pos),
        attacked(pos, white_lion(pos)) ==> res == (STATUS_WIN, 0u8),
        !attacked(pos, white_lion(pos)) && white_lion(pos) / 3 == 4 ==> res == (STATUS_LOSE, 0u8),
        !attacked(pos, white_lion(pos)) && white_lion(pos) / 3 != 4 ==> res.0 == STATUS_UNKNOWN
            && res.1 as nat == successors(pos).len(),
{
    proof {
        lemma_first_white_lion(pos);
        lemma_initial_status_rule(pos, white_lion(pos));
    }
    if is_terminal(pos) {
        let wl = find_white_lion(pos);
        if black_can_reach(pos, wl) {
            (STATUS_WIN, 0)
        } else {
            (STATUS_LOSE, 0)
        }
    } else {
        let mut succ_buf: Vec<Pos> = Vec::new();
        generate_successors_canonical(pos, &mut succ_buf);
        proof {
            lemma_successors_len(pos);
        }
        (STATUS_UNKNOWN, succ_buf.len() as u8)
    }
}

/// The starting status and successor count of every position.
pub fn classify_terminals(known: &[Pos]) -> (res: (Vec<u8>, Vec<u8>))
    requires
        forall|i: int| 0 <= i < known@.len() ==> #[trigger] has_white_lion(known@[i]),
    ensures
        res.0@.len() == known@.len(),
        res.1@.len() == known@.len(),
        forall|i: int| 0 <= i < known@.len() ==> #[trigger] res.0@[i] == initial_status(known@[i]),
        forall|i: int| 0 <= i < known@.len() ==> #[trigger] res.1@[i] as nat == initial_remaining(known@[i]),
{
    let n = known.len();
    let mut status: Vec<u8> = Vec::new();
    let mut remaining: Vec<u8> = Vec::new();
    for i in 0..n
        invariant
            n == known@.len(),
            forall|k: int| 0 <= k < n ==> #[trigger] has_white_lion(known@[k]),
            status@.len() == i,
            remaining@.len() == i,
            forall|k: int| 0 <= k < i ==> #[trigger] status@[k] == initial_status(known@[k]),
            forall|k: int| 0 <= k < i ==> #[trigger] remaining@[k] as nat == initial_remaining(known@[k]),
    {
        let (st, rem) = classify_position(known[i]);
        status.push(st);
        remaining.push(rem);
    }
    (status, remaining)
}

// ---------------------------------------------------------------------------
// Counting edges two ways.

/// The number of `j < m` with `known[j] == x`.
spec fn ind_sum(known: Seq<Pos>, x: Pos, m: nat) -> nat
    decreases m,
{
    if m == 0 {
        0
    } else {
        ind_sum(known, x, (m - 1) as nat) + if known[m - 1] == x { 1nat } else { 0nat }
    }
}

/// The number of occurrences in `s` of the first `m` positions of `known`, added up.
spec fn count_sum(s: Seq<Pos>, known: Seq<Pos>, m: nat) -> nat
    decreases m,
{
    if m == 0 {
        0
    } else {
        count_sum(s, known, (m - 1) as nat) + s.to_multiset().count(known[m - 1])
    }
}

proof fn lemma_ind_sum(known: Seq<Pos>, x: Pos, m: nat)
    requires
        strictly_sorted(known),
        m <= known.len(),
    ensures
        ind_sum(known, x, m) == if known.subrange(0, m as int).contains(x) { 1nat } else { 0nat },
    decreases m,
{
    if m > 0 {
        lemma_ind_sum(known, x, (m - 1) as nat);
        let a = known.subrange(0, m - 1);
        let b = known.subrange(0, m as int);
        assert(b =~= a.push(known[m - 1]));
        if a.contains(x) {
            let k = choose|k: int| 0 <= k < a.len() && a[k] == x;
            assert(b[k] == x);
            assert(known[k] < known[m - 1]);
        }
        if b.contains(x) && !a.contains(x) {
            let k = choose|k: int| 0 <= k < b.len() && b[k] == x;
            if k < m - 1 {
                assert(a[k] == x);
            }
        }
        if known[m - 1] == x {
            assert(b[m - 1] == x);
        }
    } else {
        assert(known.subrange(0, 0) =~= Seq::<Pos>::empty());
    }
}

proof fn lemma_count_sum_push(s: Seq<Pos>, x: Pos, known: Seq<Pos>, m: nat)
    ensures
        count_sum(s.push(x), known, m) == count_sum(s, known, m) + ind_sum(known, x, m),
    decreases m,
{
    if m > 0 {
        lemma_count_sum_push(s, x, known, (m - 1) as nat);
    }
}

/// Counting, for every position of `known`, how often it occurs in `s` adds up to the length of
/// `s`, when every value of `s` is in `known` once.
proof fn lemma_count_sum(s: Seq<Pos>, known: Seq<Pos>)
    requires
        strictly_sorted(known),
        forall|t: int| 0 <= t < s.len() ==> known.contains(#[trigger] s[t]),
    ensures
        count_sum(s, known, known.len()) == s.len(),
    decreases s.len(),
{
    if s.len() == 0 {
        assert forall|m: nat| m <= known.len() implies count_sum(s, known, m) == 0 by {
            lemma_count_sum_zero(s, known, m);
        }
    } else {
        let s1 = s.drop_last();
        let x = s.last();
        assert(s =~= s1.push(x));
        assert forall|t: int| 0 <= t < s1.len() implies known.contains(#[trigger] s1[t]) by {
            assert(s1[t] == s[t]);
        }
        lemma_count_sum(s1, known);
        lemma_count_sum_push(s1, x, known, known.len());
        lemma_ind_sum(known, x, known.len());
        assert(known.subrange(0, known.len() as int) =~= known);
        assert(known.contains(s[s.len() - 1]));
    }
}

proof fn lemma_count_sum_zero(s: Seq<Pos>, known: Seq<Pos>, m: nat)
    requires
        s.len() == 0,
    ensures
        count_sum(s, known, m) == 0,
    decreases m,
{
    if m > 0 {
        lemma_count_sum_zero(s, known, (m - 1) as nat);
        assert(s.to_multiset() =~= vstd::multiset::Multiset::empty());
    }
}

/// The occurrences of `v` in the segments `0..m`, added up.
spec fn seg_sum(edges: Seq<u32>, off: Seq<EdgeIdx>, m: nat, v: u32) -> nat
    decreases m,
{
    if m == 0 {
        0
    } else {
        seg_sum(edges, off, (m - 1) as nat, v) + edges.subrange(off[m - 1] as int, off[m as int] as int).to_multiset().count(v)
    }
}

/// Consecutive segments together hold what each holds.
proof fn lemma_flat_count(edges: Seq<u32>, off: Seq<EdgeIdx>, n: int, m: nat, v: u32)
    requires
        off.len() == n + 1,
        offsets_ordered(off, n),
        off[n] <= edges.len(),
        m <= n,
    ensures
        edges.subrange(off[0] as int, off[m as int] as int).to_multiset().count(v) == seg_sum(edges, off, m, v),
    decreases m,
{
    if m == 0 {
        lemma_offsets_mono_pub(off, n, 0, n);
        assert(edges.subrange(off[0] as int, off[0] as int) =~= Seq::<u32>::empty());
    } else {
        lemma_flat_count(edges, off, n, (m - 1) as nat, v);
        lemma_offsets_mono_pub(off, n, 0, m - 1);
        lemma_offsets_mono_pub(off, n, m as int, n);
        assert(off[m - 1] <= off[(m - 1) + 1]);
        let a = edges.subrange(off[0] as int, off[m - 1] as int);
        let b = edges.subrange(off[m - 1] as int, off[m as int] as int);
        assert(edges.subrange(off[0] as int, off[m as int] as int) =~= a + b);
        vstd::seq_lib::lemma_multiset_commutative(a, b);
    }
}

/// The reverse graph's segment counts, as `build_reverse_csr` promises them.
pub open spec fn csr_counts(known: Seq<Pos>, status: Seq<u8>, off: Seq<EdgeIdx>, edges: Seq<u32>) -> bool {
    &&& off.len() == known.len() + 1
    &&& off[0] == 0
    &&& off[known.len() as int] == edges.len()
    &&& forall|j: int| 0 <= j < known.len() ==> #[trigger] off[j + 1] == off[j] + edges_into(known, status, known[j])
    &&& forall|j: int, v: u32|
        0 <= j < known.len() ==> #[trigger] edges.subrange(off[j] as int, off[j + 1] as int).to_multiset().count(v)
            == if (v as int) < known.len() {
            edge_count(known, status, v as int, known[j])
        } else {
            0
        }
}

proof fn lemma_csr_graph_ok(known: Seq<Pos>, status: Seq<u8>, off: Seq<EdgeIdx>, edges: Seq<u32>)
    requires
        csr_counts(known, status, off, edges),
        known.len() <= u32::MAX,
    ensures
        rev_graph_ok(off, edges, known.len() as int),
{
    let n = known.len() as int;
    assert(offsets_ordered(off, n));
    assert forall|e: int| off[0] <= e < off[n] implies (#[trigger] edges[e] as int) < n by {
        let w = lemma_segment_exists(off, n, e, n);
        lemma_offsets_mono_pub(off, n, w + 1, n);
        let sg = edges.subrange(off[w] as int, off[w + 1] as int);
        assert(sg[e - off[w]] == edges[e]);
        assert(sg.contains(edges[e]));
        assert(sg.to_multiset().count(edges[e]) > 0);
    }
}

/// `v` stands in the segment of `w` exactly when `known[w]` is a successor of `known[v]` and
/// `v`'s status is unknown.
proof fn lemma_parent_iff(known: Seq<Pos>, status: Seq<u8>, off: Seq<EdgeIdx>, edges: Seq<u32>, v: int, w: int)
    requires
        csr_counts(known, status, off, edges),
        known.len() <= u32::MAX,
        0 <= v < known.len(),
        0 <= w < known.len(),
    ensures
        is_parent(off, edges, v, w) <==> (status[v] == STATUS_UNKNOWN && successors(known[v]).contains(known[w])),
{
    let n = known.len() as int;
    lemma_offsets_mono_pub(off, n, w + 1, n);
    assert(off[w] <= off[w + 1]);
    let sg = edges.subrange(off[w] as int, off[w + 1] as int);
    assert(sg.to_multiset().count(v as u32) == edge_count(known, status, v, known[w]));
    if is_parent(off, edges, v, w) {
        let e = choose|e: int| #[trigger] in_segment(off, w, e) && edges[e] as int == v;
        assert(sg[e - off[w]] == edges[e]);
        assert(sg.contains(v as u32));
    }
    if status[v] == STATUS_UNKNOWN && successors(known[v]).contains(known[w]) {
        assert(successors(known[v]).to_multiset().count(known[w]) > 0);
        assert(sg.contains(v as u32));
        let k = choose|k: int| 0 <= k < sg.len() && sg[k] == v as u32;
        assert(in_segment(off, w, off[w] + k));
        assert(edges[off[w] + k] == v as u32);
    }
}

/// The segment counts of parent `v` add up, over the first `m` positions, to how often those
/// positions are successors of `known[v]`.
proof fn lemma_seg_sum_succ(known: Seq<Pos>, status: Seq<u8>, off: Seq<EdgeIdx>, edges: Seq<u32>, v: int, m: nat)
    requires
        csr_counts(known, status, off, edges),
        known.len() <= u32::MAX,
        0 <= v < known.len(),
        status[v] == STATUS_UNKNOWN,
        m <= known.len(),
    ensures
        seg_sum(edges, off, m, v as u32) == count_sum(successors(known[v]), known, m),
    decreases m,
{
    if m > 0 {
        lemma_seg_sum_succ(known, status, off, edges, v, (m - 1) as nat);
        let j = m - 1;
        assert(edges.subrange(off[j] as int, off[j + 1] as int).to_multiset().count(v as u32) == edge_count(known, status, v, known[j]));
    }
}

/// The starting status of every position of `known`.
pub open spec fn initial_statuses(known: Seq<Pos>) -> Seq<u8> {
    Seq::new(known.len(), |i: int| initial_status(known[i]))
}

/// The reverse graph of `known` under `status` fits its counters.
pub open spec fn csr_fits(known: Seq<Pos>, status: Seq<u8>) -> bool {
    &&& forall|j: int| 0 <= j < known.len() ==> edges_into(known, status, #[trigger] known[j]) <= u32::MAX
    &&& edges_total(known, status, known.len()) <= usize::MAX
}

/// Each decided non-terminal position of `known` is decided from positions that come before it
/// in `order`: a won one has a lost successor earlier; a lost one has successors, and every one
/// of them in `known` is earlier.
pub open spec fn decided_from_earlier(known: Seq<Pos>, status: Seq<u8>, order: Seq<u32>) -> bool {
    &&& forall|i: int|
        0 <= i < known.len() && !terminal(known[i]) && #[trigger] status[i] == STATUS_WIN ==> exists|j: int|
            0 <= j < known.len() && #[trigger] successors(known[i]).contains(known[j]) && status[j] == STATUS_LOSE
                && decided_before(order, j, i)
    &&& forall|i: int, j: int|
        0 <= i < known.len() && !terminal(known[i]) && status[i] == STATUS_LOSE && 0 <= j < known.len()
            && #[trigger] successors(known[i]).contains(known[j]) ==> decided_before(order, j, i)
    &&& forall|i: int| 0 <= i < known.len() && !terminal(known[i]) && #[trigger] status[i] == STATUS_LOSE ==> successors(known[i]).len() > 0
}

/// `status` gives every position of `known` its value under the game's rules: terminal
/// positions keep their starting value; a won position has a lost successor; every successor of
/// a lost position is won; a position left unknown (a draw) has no lost successor and, if it has
/// any successor, one that is not won; and the wins and losses are decided one after another,
/// each from positions decided before it, so that none rests on a cycle of moves. There is only
/// one such status (`lemma_solution_unique`).
pub open spec fn is_solution(known: Seq<Pos>, status: Seq<u8>) -> bool {
    &&& status.len() == known.len()
    &&& forall|i: int| 0 <= i < known.len() ==> #[trigger] status[i] <= STATUS_LOSE
    &&& forall|i: int| 0 <= i < known.len() && terminal(#[trigger] known[i]) ==> status[i] == initial_status(known[i])
    &&& forall|i: int| 0 <= i < known.len() && #[trigger] status[i] == STATUS_UNKNOWN ==> !terminal(known[i])
    &&& forall|i: int|
        0 <= i < known.len() && !terminal(known[i]) && #[trigger] status[i] == STATUS_WIN ==> exists|j: int|
            0 <= j < known.len() && #[trigger] successors(known[i]).contains(known[j]) && status[j] == STATUS_LOSE
    &&& forall|i: int, j: int|
        0 <= i < known.len() && !terminal(known[i]) && status[i] == STATUS_LOSE && 0 <= j < known.len()
            && #[trigger] successors(known[i]).contains(known[j]) ==> status[j] == STATUS_WIN
    &&& forall|i: int, j: int|
        0 <= i < known.len() && status[i] == STATUS_UNKNOWN && 0 <= j < known.len()
            && #[trigger] successors(known[i]).contains(known[j]) ==> status[j] != STATUS_LOSE
    &&& forall|i: int|
        0 <= i < known.len() && #[trigger] status[i] == STATUS_UNKNOWN && successors(known[i]).len() > 0 ==> exists|j: int|
            0 <= j < known.len() && #[trigger] successors(known[i]).contains(known[j]) && status[j] != STATUS_WIN
    &&& exists|order: Seq<u32>| #[trigger] order.no_duplicates() && decided_from_earlier(known, status, order)
}

/// The place of position `v` in `order`, or the length of `order` when `v` is not there.
spec fn rank(order: Seq<u32>, v: int) -> int {
    if exists|t: int| 0 <= t < order.len() && order[t] as int == v {
        choose|t: int| 0 <= t < order.len() && order[t] as int == v
    } else {
        order.len() as int
    }
}

/// In an order without repeats, what comes before has the smaller place.
proof fn lemma_rank_before(order: Seq<u32>, a: int, b: int)
    requires
        order.no_duplicates(),
        decided_before(order, a, b),
    ensures
        0 <= rank(order, a) < rank(order, b) < order.len(),
{
    let (i, j) = choose|i: int, j: int| #![trigger order[i], order[j]] 0 <= i < j < order.len() && order[i] as int == a && order[j] as int == b;
    assert(exists|t: int| 0 <= t < order.len() && order[t] as int == a);
    assert(exists|t: int| 0 <= t < order.len() && order[t] as int == b);
    let ta = rank(order, a);
    let tb = rank(order, b);
    assert(order[ta] == order[i]);
    assert(order[tb] == order[j]);
}

/// Whatever one solution decides, another solution decides the same.
proof fn lemma_decisions_agree(known: Seq<Pos>, s1: Seq<u8>, s2: Seq<u8>, order: Seq<u32>, v: int)
    requires
        is_solution(known, s1),
        is_solution(known, s2),
        order.no_duplicates(),
        decided_from_earlier(known, s1, order),
        0 <= v < known.len(),
        s1[v] != STATUS_UNKNOWN,
    ensures
        s2[v] == s1[v],
    decreases rank(order, v),
{
    if terminal(known[v]) {
        assert(s1[v] == initial_status(known[v]));
        assert(s2[v] == initial_status(known[v]));
    } else if s1[v] == STATUS_WIN {
        let j = choose|j: int|
            0 <= j < known.len() && #[trigger] successors(known[v]).contains(known[j]) && s1[j] == STATUS_LOSE
                && decided_before(order, j, v);
        lemma_rank_before(order, j, v);
        lemma_decisions_agree(known, s1, s2, order, j);
        assert(s2[v] <= STATUS_LOSE);
        assert(s2[v] != STATUS_UNKNOWN);
        assert(s2[v] != STATUS_LOSE);
    } else {
        assert(s1[v] == STATUS_LOSE);
        assert(successors(known[v]).len() > 0);
        assert(s2[v] <= STATUS_LOSE);
        if s2[v] == STATUS_UNKNOWN {
            let j = choose|j: int| 0 <= j < known.len() && #[trigger] successors(known[v]).contains(known[j]) && s2[j] != STATUS_WIN;
            assert(s1[j] == STATUS_WIN);
            lemma_rank_before(order, j, v);
            lemma_decisions_agree(known, s1, s2, order, j);
        } else if s2[v] == STATUS_WIN {
            let j = choose|j: int| 0 <= j < known.len() && #[trigger] successors(known[v]).contains(known[j]) && s2[j] == STATUS_LOSE;
            assert(s1[j] == STATUS_WIN);
            lemma_rank_before(order, j, v);
            lemma_decisions_agree(known, s1, s2, order, j);
        }
    }
}

/// A set of positions has exactly one solution: two statuses that both solve `known` are equal.
pub proof fn lemma_solution_unique(known: Seq<Pos>, s1: Seq<u8>, s2: Seq<u8>)
    requires
        is_solution(known, s1),
        is_solution(known, s2),
    ensures
        s1 == s2,
{
    let o1 = choose|order: Seq<u32>| #[trigger] order.no_duplicates() && decided_from_earlier(known, s1, order);
    let o2 = choose|order: Seq<u32>| #[trigger] order.no_duplicates() && decided_from_earlier(known, s2, order);
    assert forall|i: int| 0 <= i < s1.len() implies s1[i] == s2[i] by {
        if s1[i] != STATUS_UNKNOWN {
            lemma_decisions_agree(known, s1, s2, o1, i);
        } else if s2[i] != STATUS_UNKNOWN {
            lemma_decisions_agree(known, s2, s1, o2, i);
        }
    }
    assert(s1 =~= s2);
}

/// Solves the game on a closed set of positions: classifies the terminal ones (on rayon's
/// thread pool with `parallel`), builds the reverse graph and runs the retrograde analysis.
/// `None` when the set has more than `u32::MAX` positions or its reverse graph does not fit its
/// counters.
pub fn solve(known: &[Pos], parallel: bool) -> (res: Option<Vec<u8>>)
    requires
        strictly_sorted(known@),
        closed(known@),
        forall|i: int| 0 <= i < known@.len() ==> #[trigger] has_lions(known@[i]),
    ensures
        res is None <==> (known@.len() > u32::MAX || !csr_fits(known@, initial_statuses(known@))),
        res matches Some(status) ==> is_solution(known@, status@),
{
    let n = known.len();
    if n > u32::MAX as usize {
        return None;
    }
    assert forall|i: int| 0 <= i < known@.len() implies #[trigger] has_white_lion(known@[i]) by {
        assert(has_lions(known@[i]));
    }
    let (mut status, mut remaining) = if parallel { par_classify(known) } else { classify_terminals(known) };
    let ghost s0 = status@;
    proof {
        assert(s0 =~= initial_statuses(known@));
        assert forall|v: int, x: Pos|
            0 <= v < known@.len() && s0[v] == STATUS_UNKNOWN && #[trigger] successors(known@[v]).contains(x)
                implies known@.contains(x) by {
            assert(known@.contains(known@[v]));
        }
    }
    if !reverse_csr_fits(known, status.as_slice()) {
        return None;
    }
    let (rev_offset, rev_edges) = build_reverse_csr(known, status.as_slice());
    let ghost off = rev_offset@;
    let ghost edges = rev_edges@;
    proof {
        assert(csr_counts(known@, s0, off, edges));
        lemma_csr_graph_ok(known@, s0, off, edges);
        assert forall|v: int| 0 <= v < n && #[trigger] s0[v] == STATUS_UNKNOWN implies remaining@[v] as nat
            == edges.subrange(off[0] as int, off[n as int] as int).to_multiset().count(v as u32) by {
            lemma_flat_count(edges, off, n as int, n as nat, v as u32);
            lemma_seg_sum_succ(known@, s0, off, edges, v, n as nat);
            assert forall|t: int| 0 <= t < successors(known@[v]).len() implies known@.contains(#[trigger] successors(known@[v])[t]) by {
                assert(successors(known@[v]).contains(successors(known@[v])[t]));
            }
            lemma_count_sum(successors(known@[v]), known@);
        }
    }
    retrograde(status.as_mut_slice(), remaining.as_mut_slice(), rev_offset.as_slice(), rev_edges.as_slice());
    proof {
        let st = status@;
        assert forall|i: int, j: int| 0 <= i < n && 0 <= j < n implies
            (#[trigger] is_parent(off, edges, i, j) <==> (s0[i] == STATUS_UNKNOWN && successors(known@[i]).contains(known@[j]))) by {
            lemma_parent_iff(known@, s0, off, edges, i, j);
        }
        assert forall|i: int| 0 <= i < n && terminal(#[trigger] known@[i]) implies st[i] == initial_status(known@[i]) by {}
        assert forall|i: int| 0 <= i < n && #[trigger] st[i] == STATUS_UNKNOWN implies !terminal(known@[i]) by {}
        assert forall|i: int|
            0 <= i < n && !terminal(known@[i]) && #[trigger] st[i] == STATUS_WIN implies exists|j: int|
                0 <= j < n && #[trigger] successors(known@[i]).contains(known@[j]) && st[j] == STATUS_LOSE by {
            let w = choose|w: int| 0 <= w < n && is_parent(off, edges, i, w) && st[w] == STATUS_LOSE;
            assert(successors(known@[i]).contains(known@[w]));
        }
        assert forall|i: int, j: int|
            0 <= i < n && !terminal(known@[i]) && st[i] == STATUS_LOSE && 0 <= j < n
                && #[trigger] successors(known@[i]).contains(known@[j]) implies st[j] == STATUS_WIN by {
            assert(is_parent(off, edges, i, j));
        }
        assert forall|i: int, j: int|
            0 <= i < n && st[i] == STATUS_UNKNOWN && 0 <= j < n
                && #[trigger] successors(known@[i]).contains(known@[j]) implies st[j] != STATUS_LOSE by {
            assert(is_parent(off, edges, i, j));
        }
        assert forall|i: int|
            0 <= i < n && #[trigger] st[i] == STATUS_UNKNOWN && successors(known@[i]).len() > 0 implies exists|j: int|
                0 <= j < n && #[trigger] successors(known@[i]).contains(known@[j]) && st[j] != STATUS_WIN by {
            let x = successors(known@[i])[0];
            assert(successors(known@[i]).contains(x));
            assert(known@.contains(x));
            let j0 = choose|j: int| 0 <= j < n && known@[j] == x;
            assert(is_parent(off, edges, i, j0));
            let w = choose|w: int| 0 <= w < n && is_parent(off, edges, i, w) && st[w] != STATUS_WIN;
            assert(successors(known@[i]).contains(known@[w]));
        }
        let order = choose|order: Seq<u32>| #[trigger] order.no_duplicates() && decided_in_order(s0, st, order, off, edges);
        assert forall|i: int|
            0 <= i < n && !terminal(known@[i]) && #[trigger] st[i] == STATUS_WIN implies exists|j: int|
                0 <= j < n && #[trigger] successors(known@[i]).contains(known@[j]) && st[j] == STATUS_LOSE
                    && decided_before(order, j, i) by {
            let w = choose|w: int| 0 <= w < n && is_parent(off, edges, i, w) && st[w] == STATUS_LOSE && decided_before(order, w, i);
            assert(successors(known@[i]).contains(known@[w]));
        }
        assert forall|i: int, j: int|
            0 <= i < n && !terminal(known@[i]) && st[i] == STATUS_LOSE && 0 <= j < n
                && #[trigger] successors(known@[i]).contains(known@[j]) implies decided_before(order, j, i) by {
            assert(is_parent(off, edges, i, j));
        }
        assert forall|i: int| 0 <= i < n && !terminal(known@[i]) && #[trigger] st[i] == STATUS_LOSE implies successors(known@[i]).len() > 0 by {
            let w = choose|w: int| 0 <= w < n && is_parent(off, edges, i, w);
            assert(successors(known@[i]).contains(known@[w]));
        }
        assert(decided_from_earlier(known@, st, order));
    }
    Some(status)
}

// ---------------------------------------------------------------------------
// Whole runs.

/// The positions reachable from `seeds`, listed in increasing order, fit the solver's counters:
/// at most `u32::MAX` of them, and a reverse graph that fits (`csr_fits`).
pub open spec fn reachable_fits(seeds: Set<Pos>) -> bool {
    forall|known: Seq<Pos>|
        #[trigger] strictly_sorted(known) && (forall|q: Pos| #[trigger] known.contains(q) <==> reachable(seeds, q))
            ==> known.len() <= u32::MAX && csr_fits(known, initial_statuses(known))
}

/// `solve` on the positions reachable from `seeds`, given as `known`, answers as the counters
/// of every listing of them allow.
proof fn lemma_fits_iff(seeds: Set<Pos>, known: Seq<Pos>)
    requires
        strictly_sorted(known),
        forall|q: Pos| #[trigger] known.contains(q) <==> reachable(seeds, q),
    ensures
        reachable_fits(seeds) <==> (known.len() <= u32::MAX && csr_fits(known, initial_statuses(known))),
{
    assert forall|k: Seq<Pos>|
        #[trigger] strictly_sorted(k) && (forall|q: Pos| #[trigger] k.contains(q) <==> reachable(seeds, q))
            implies k == known by {
        lemma_strictly_sorted_same(k, known);
    }
}

/// Searches every position reachable from the starting position and solves the game on them.
/// `None` exactly when they are too many for the reverse graph's counters.
pub fn solve_game() -> (res: Option<(Vec<Pos>, Vec<u8>)>)
    ensures
        res is None <==> !reachable_fits(set![canonical_of(initial_pos())]),
        res matches Some((known, status)) ==> {
            &&& strictly_sorted(known@)
            &&& forall|q: Pos| #[trigger] known@.contains(q) <==> reachable(set![canonical_of(initial_pos())], q)
            &&& is_solution(known@, status@)
        },
{
    let known = bfs();
    proof {
        lemma_fits_iff(set![canonical_of(initial_pos())], known@);
    }
    match solve(known.as_slice(), false) {
        Some(status) => Some((known, status)),
        None => None,
    }
}

/// Searches every position reachable from `seeds` and solves the game on them, on rayon's
/// thread pool. `None` exactly when a seed lacks a lion, or when the positions are too many for
/// the reverse graph's counters.
pub fn solve_from_seeds(seeds: Vec<Pos>) -> (res: Option<(Vec<Pos>, Vec<u8>)>)
    ensures
        res is None <==> (exists|i: int| 0 <= i < seeds@.len() && !#[trigger] has_lions(seeds@[i]))
            || !reachable_fits(seeds@.to_set()),
        res matches Some((known, status)) ==> {
            &&& strictly_sorted(known@)
            &&& forall|q: Pos| #[trigger] known@.contains(q) <==> reachable(seeds@.to_set(), q)
            &&& is_solution(known@, status@)
        },
{
    for i in 0..seeds.len()
        invariant
            forall|k: int| 0 <= k < i ==> #[trigger] has_lions(seeds@[k]),
    {
        if !has_both_lions(seeds[i]) {
            return None;
        }
    }
    let ghost given = seeds@;
    let known = bfs_from_seeds(seeds);
    proof {
        lemma_fits_iff(given.to_set(), known@);
    }
    match solve(known.as_slice(), true) {
        Some(status) => Some((known, status)),
        None => None,
    }
}

/// Whether both lions are on the board.
pub fn has_both_lions(pos: Pos) -> (b: bool)
    ensures
        b == has_lions(pos),
{
    let mut black = false;
    let mut white = false;
    for sq in 0..NUM_SQ
        invariant
            black == exists|i: usize| i < sq && #[trigger] cell(pos, i) == 1,
            white == exists|i: usize| i < sq && #[trigger] cell(pos, i) == 6,
    {
        let p = get_sq(pos, sq);
        if p == 1 {
            black = true;
        }
        if p == 6 {
            white = true;
        }
        proof {
            if p == 1 {
                assert(cell(pos, sq) == 1);
            }
            if p == 6 {
                assert(cell(pos, sq) == 6);
            }
        }
    }
    black && white
}

/// How many entries of `status` equal `s`.
pub fn count_status(status: &[u8], s: u8) -> (c: usize)
    ensures
        c == status@.to_multiset().count(s),
{
    let mut c: usize = 0;
    for i in 0..status.len()
        invariant
            c == status@.subrange(0, i as int).to_multiset().count(s),
            c <= i,
    {
        proof {
            assert(status@.subrange(0, i + 1) =~= status@.subrange(0, i as int).push(status@[i as int]));
        }
        if status[i] == s {
            c += 1;
        }
    }
    assert(status@.subrange(0, status@.len() as int) =~= status@);
    c
}

} // verus!
