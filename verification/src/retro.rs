use vstd::prelude::*;
use crate::{EdgeIdx, STATUS_UNKNOWN, STATUS_WIN, STATUS_LOSE};

verus! {

broadcast use vstd::seq_lib::group_to_multiset_ensures;

/// Edge number `e` belongs to the segment of position `w`.
pub open spec fn in_segment(off: Seq<EdgeIdx>, w: int, e: int) -> bool {
    off[w] <= e < off[w + 1]
}

/// Position `v` is a parent of position `w`: `v` stands in `w`'s segment.
pub open spec fn is_parent(off: Seq<EdgeIdx>, edges: Seq<u32>, v: int, w: int) -> bool {
    exists|e: int| #[trigger] in_segment(off, w, e) && edges[e] as int == v
}

/// The number of edges in `lo..hi` that lead to parent `v` and are not in `done`.
pub open spec fn undone(edges: Seq<u32>, lo: int, hi: int, done: Set<int>, v: int) -> nat
    decreases hi - lo,
{
    if hi <= lo {
        0
    } else {
        undone(edges, lo, hi - 1, done, v) + if edges[hi - 1] as int == v && !done.contains(hi - 1) {
            1nat
        } else {
            0nat
        }
    }
}

/// The number of positions below `k` whose status is unknown.
pub open spec fn count_unknown(s: Seq<u8>, k: nat) -> nat
    decreases k,
{
    if k == 0 {
        0
    } else {
        count_unknown(s, (k - 1) as nat) + if s[k - 1] == STATUS_UNKNOWN { 1nat } else { 0nat }
    }
}

proof fn lemma_undone_insert(edges: Seq<u32>, lo: int, hi: int, done: Set<int>, e: int, v: int)
    requires
        !done.contains(e),
    ensures
        undone(edges, lo, hi, done.insert(e), v) + if lo <= e < hi && edges[e] as int == v { 1nat } else { 0nat }
            == undone(edges, lo, hi, done, v),
    decreases hi - lo,
{
    if hi > lo {
        lemma_undone_insert(edges, lo, hi - 1, done, e, v);
    }
}

proof fn lemma_undone_zero(edges: Seq<u32>, lo: int, hi: int, done: Set<int>, v: int)
    ensures
        undone(edges, lo, hi, done, v) == 0 <==> forall|e: int| lo <= e < hi && #[trigger] edges[e] as int == v ==> done.contains(e),
    decreases hi - lo,
{
    if hi > lo {
        lemma_undone_zero(edges, lo, hi - 1, done, v);
        if undone(edges, lo, hi, done, v) == 0 {
            assert forall|e: int| lo <= e < hi && #[trigger] edges[e] as int == v implies done.contains(e) by {
                if e < hi - 1 {
                }
            }
        }
    }
}

proof fn lemma_undone_ms(edges: Seq<u32>, lo: int, hi: int, v: u32)
    requires
        0 <= lo <= hi <= edges.len(),
    ensures
        undone(edges, lo, hi, Set::empty(), v as int) == edges.subrange(lo, hi).to_multiset().count(v),
    decreases hi - lo,
{
    if hi > lo {
        lemma_undone_ms(edges, lo, hi - 1, v);
        assert(edges.subrange(lo, hi) =~= edges.subrange(lo, hi - 1).push(edges[hi - 1]));
    } else {
        assert(edges.subrange(lo, hi) =~= Seq::<u32>::empty());
    }
}

proof fn lemma_count_unknown_update(s: Seq<u8>, k: nat, i: int, x: u8)
    requires
        k <= s.len(),
        0 <= i < k,
        s[i] == STATUS_UNKNOWN,
        x != STATUS_UNKNOWN,
    ensures
        count_unknown(s.update(i, x), k) + 1 == count_unknown(s, k),
    decreases k,
{
    if k - 1 > i {
        lemma_count_unknown_update(s, (k - 1) as nat, i, x);
    } else {
        lemma_count_unknown_same(s, s.update(i, x), (k - 1) as nat);
    }
}

proof fn lemma_count_unknown_same(a: Seq<u8>, b: Seq<u8>, k: nat)
    requires
        k <= a.len(),
        k <= b.len(),
        forall|j: int| 0 <= j < k ==> a[j] == b[j],
    ensures
        count_unknown(a, k) == count_unknown(b, k),
    decreases k,
{
    if k > 0 {
        lemma_count_unknown_same(a, b, (k - 1) as nat);
    }
}

proof fn lemma_count_unknown_bound(s: Seq<u8>, k: nat)
    ensures
        count_unknown(s, k) <= k,
    decreases k,
{
    if k > 0 {
        lemma_count_unknown_bound(s, (k - 1) as nat);
    }
}

/// The segments of the positions follow one another.
pub open spec fn offsets_ordered(off: Seq<EdgeIdx>, n: int) -> bool {
    forall|j: int| 0 <= j < n ==> #[trigger] off[j] <= off[j + 1]
}

proof fn lemma_offsets_mono(off: Seq<EdgeIdx>, n: int, a: int, b: int)
    requires
        off.len() == n + 1,
        offsets_ordered(off, n),
        0 <= a <= b <= n,
    ensures
        off[a] <= off[b],
    decreases b - a,
{
    if a < b {
        lemma_offsets_mono(off, n, a, b - 1);
        assert(off[b - 1] <= off[(b - 1) + 1]);
    }
}

/// Offsets in order never decrease between any two positions.
pub proof fn lemma_offsets_mono_pub(off: Seq<EdgeIdx>, n: int, a: int, b: int)
    requires
        off.len() == n + 1,
        offsets_ordered(off, n),
        0 <= a <= b <= n,
    ensures
        off[a] <= off[b],
{
    lemma_offsets_mono(off, n, a, b);
}

proof fn lemma_segment_unique(off: Seq<EdgeIdx>, n: int, a: int, b: int, e: int)
    requires
        off.len() == n + 1,
        offsets_ordered(off, n),
        0 <= a < n,
        0 <= b < n,
        in_segment(off, a, e),
        in_segment(off, b, e),
    ensures
        a == b,
{
    if a < b {
        lemma_offsets_mono(off, n, a + 1, b);
    } else if b < a {
        lemma_offsets_mono(off, n, b + 1, a);
    }
}

pub proof fn lemma_segment_exists(off: Seq<EdgeIdx>, n: int, e: int, k: int) -> (w: int)
    requires
        off.len() == n + 1,
        offsets_ordered(off, n),
        0 <= k <= n,
        off[0] <= e < off[k],
    ensures
        0 <= w < k,
        in_segment(off, w, e),
    decreases k,
{
    if off[k - 1] <= e {
        assert(off[(k - 1) + 1] == off[k]);
        k - 1
    } else {
        lemma_segment_exists(off, n, e, k - 1)
    }
}

/// The edges in the segments of the positions that `status` decides.
pub open spec fn decided_edges(off: Seq<EdgeIdx>, status: Seq<u8>) -> Set<int> {
    Set::new(|e: int| exists|w: int| 0 <= w < status.len() && status[w] != STATUS_UNKNOWN && #[trigger] in_segment(off, w, e))
}

/// The edges in the segments of the first `i` positions of `order`.
pub open spec fn segments_before(off: Seq<EdgeIdx>, order: Seq<u32>, i: int) -> Set<int> {
    Set::new(|e: int| exists|j: int| 0 <= j < i && #[trigger] in_segment(off, order[j] as int, e))
}

/// Position `v` was won by `order[i]`, the first of its successors in `order` that is lost, and
/// its count has not moved since: it holds the edges from `v` outside the segments of the
/// positions before `order[i]`.
pub open spec fn won_count(status: Seq<u8>, remaining: Seq<u8>, order: Seq<u32>, off: Seq<EdgeIdx>, edges: Seq<u32>, v: int) -> bool {
    let n = status.len() as int;
    exists|i: int|
        #![trigger order[i]]
        0 <= i < order.len() && is_parent(off, edges, v, order[i] as int) && status[order[i] as int] == STATUS_LOSE
            && (forall|j: int| 0 <= j < i ==> !(#[trigger] is_parent(off, edges, v, order[j] as int) && status[order[j] as int] == STATUS_LOSE))
            && remaining[v] as nat == undone(edges, off[0] as int, off[n] as int, segments_before(off, order, i), v)
}

/// Every position won from the unknown status keeps the count it had when it was won.
pub open spec fn won_counts(s0: Seq<u8>, status: Seq<u8>, remaining: Seq<u8>, order: Seq<u32>, off: Seq<EdgeIdx>, edges: Seq<u32>) -> bool {
    forall|v: int| 0 <= v < s0.len() && s0[v] == STATUS_UNKNOWN && #[trigger] status[v] == STATUS_WIN
        ==> won_count(status, remaining, order, off, edges, v)
}

/// Two sets that agree on the edges into `v` leave the same number of them undone.
proof fn lemma_undone_same(edges: Seq<u32>, lo: int, hi: int, a: Set<int>, b: Set<int>, v: int)
    requires
        forall|e: int| lo <= e < hi && #[trigger] edges[e] as int == v ==> (a.contains(e) <==> b.contains(e)),
    ensures
        undone(edges, lo, hi, a, v) == undone(edges, lo, hi, b, v),
    decreases hi - lo,
{
    if hi > lo {
        lemma_undone_same(edges, lo, hi - 1, a, b, v);
    }
}

/// Deciding the undecided position `x` (and appending to the order) keeps the counts of the
/// other won positions.
proof fn lemma_won_kept(
    s0: Seq<u8>,
    st1: Seq<u8>,
    st2: Seq<u8>,
    rm1: Seq<u8>,
    rm2: Seq<u8>,
    q1: Seq<u32>,
    q2: Seq<u32>,
    off: Seq<EdgeIdx>,
    edges: Seq<u32>,
    x: int,
)
    requires
        st1.len() == s0.len(),
        st2.len() == s0.len(),
        rm1.len() == s0.len(),
        rm2.len() == s0.len(),
        0 <= x < s0.len(),
        st1[x] == STATUS_UNKNOWN,
        forall|v: int| 0 <= v < s0.len() && v != x ==> st2[v] == st1[v] && rm2[v] == rm1[v],
        q1.len() <= q2.len(),
        forall|k: int| 0 <= k < q1.len() ==> #[trigger] q2[k] == q1[k],
        forall|k: int| 0 <= k < q1.len() ==> (#[trigger] q1[k] as int) < s0.len() && st1[q1[k] as int] != STATUS_UNKNOWN,
        won_counts(s0, st1, rm1, q1, off, edges),
    ensures
        forall|v: int| 0 <= v < s0.len() && v != x && s0[v] == STATUS_UNKNOWN && #[trigger] st2[v] == STATUS_WIN
            ==> won_count(st2, rm2, q2, off, edges, v),
{
    let n = s0.len() as int;
    assert forall|v: int| 0 <= v < n && v != x && s0[v] == STATUS_UNKNOWN && #[trigger] st2[v] == STATUS_WIN
        implies won_count(st2, rm2, q2, off, edges, v) by {
        assert(st1[v] == STATUS_WIN);
        assert(won_count(st1, rm1, q1, off, edges, v));
        let i = choose|i: int|
            #![trigger q1[i]]
            0 <= i < q1.len() && is_parent(off, edges, v, q1[i] as int) && st1[q1[i] as int] == STATUS_LOSE
                && (forall|j: int| 0 <= j < i ==> !(#[trigger] is_parent(off, edges, v, q1[j] as int) && st1[q1[j] as int] == STATUS_LOSE))
                && rm1[v] as nat == undone(edges, off[0] as int, off[n] as int, segments_before(off, q1, i), v);
        assert(q2[i] == q1[i]);
        assert(q1[i] as int != x);
        assert(segments_before(off, q2, i) =~= segments_before(off, q1, i)) by {
            assert forall|e: int| segments_before(off, q2, i).contains(e) <==> segments_before(off, q1, i).contains(e) by {
                if segments_before(off, q2, i).contains(e) {
                    let j = choose|j: int| 0 <= j < i && #[trigger] in_segment(off, q2[j] as int, e);
                    assert(q2[j] == q1[j]);
                }
                if segments_before(off, q1, i).contains(e) {
                    let j = choose|j: int| 0 <= j < i && #[trigger] in_segment(off, q1[j] as int, e);
                    assert(q2[j] == q1[j]);
                }
            }
        }
        assert forall|j: int| 0 <= j < i implies !(#[trigger] is_parent(off, edges, v, q2[j] as int) && st2[q2[j] as int] == STATUS_LOSE) by {
            assert(q2[j] == q1[j]);
            assert(q1[j] as int != x);
            assert(!(is_parent(off, edges, v, q1[j] as int) && st1[q1[j] as int] == STATUS_LOSE));
        }
        assert(st2[q2[i] as int] == STATUS_LOSE);
    }
}

/// Position `a` comes before position `b` in `order`.
pub open spec fn decided_before(order: Seq<u32>, a: int, b: int) -> bool {
    exists|i: int, j: int| #![trigger order[i], order[j]] 0 <= i < j < order.len() && order[i] as int == a && order[j] as int == b
}

/// Every position decided from the unknown status is decided from positions decided before it:
/// a won one from a lost successor, a lost one from its successors, all won (and it has one).
pub open spec fn decided_in_order(s0: Seq<u8>, status: Seq<u8>, order: Seq<u32>, off: Seq<EdgeIdx>, edges: Seq<u32>) -> bool {
    &&& forall|v: int|
        0 <= v < s0.len() && s0[v] == STATUS_UNKNOWN && #[trigger] status[v] == STATUS_WIN ==> exists|w: int|
            0 <= w < s0.len() && is_parent(off, edges, v, w) && status[w] == STATUS_LOSE && decided_before(order, w, v)
    &&& forall|v: int|
        0 <= v < s0.len() && s0[v] == STATUS_UNKNOWN && #[trigger] status[v] == STATUS_LOSE ==> exists|w: int|
            0 <= w < s0.len() && is_parent(off, edges, v, w)
    &&& forall|v: int, w: int|
        0 <= v < s0.len() && s0[v] == STATUS_UNKNOWN && status[v] == STATUS_LOSE && 0 <= w < s0.len()
            && #[trigger] is_parent(off, edges, v, w) ==> status[w] == STATUS_WIN && decided_before(order, w, v)
}

/// Appending to the order keeps what came before what.
proof fn lemma_before_push(order: Seq<u32>, x: u32, a: int, b: int)
    requires
        decided_before(order, a, b),
    ensures
        decided_before(order.push(x), a, b),
{
    let (i, j) = choose|i: int, j: int| #![trigger order[i], order[j]] 0 <= i < j < order.len() && order[i] as int == a && order[j] as int == b;
    assert(order.push(x)[i] == order[i] && order.push(x)[j] == order[j]);
}

/// Deciding the undecided position `x` and appending it to the order keeps every decision
/// justified by earlier ones, given a justification for `x` itself.
proof fn lemma_order_kept(
    s0: Seq<u8>,
    st1: Seq<u8>,
    st2: Seq<u8>,
    q1: Seq<u32>,
    off: Seq<EdgeIdx>,
    edges: Seq<u32>,
    x: int,
    wx: int,
)
    requires
        st1.len() == s0.len(),
        st2 == st1.update(x, st2[x]),
        0 <= x < s0.len(),
        st1[x] == STATUS_UNKNOWN,
        decided_in_order(s0, st1, q1, off, edges),
        st2[x] == STATUS_WIN ==> 0 <= wx < s0.len() && is_parent(off, edges, x, wx) && st2[wx] == STATUS_LOSE
            && decided_before(q1.push(x as u32), wx, x),
        st2[x] == STATUS_LOSE ==> forall|w: int| 0 <= w < s0.len() && #[trigger] is_parent(off, edges, x, w)
            ==> st2[w] == STATUS_WIN && decided_before(q1.push(x as u32), w, x),
        st2[x] == STATUS_LOSE ==> 0 <= wx < s0.len() && is_parent(off, edges, x, wx),
    ensures
        decided_in_order(s0, st2, q1.push(x as u32), off, edges),
{
    let q2 = q1.push(x as u32);
    assert forall|v: int|
        0 <= v < s0.len() && s0[v] == STATUS_UNKNOWN && #[trigger] st2[v] == STATUS_WIN implies exists|w: int|
            0 <= w < s0.len() && is_parent(off, edges, v, w) && st2[w] == STATUS_LOSE && decided_before(q2, w, v) by {
        if v == x {
            assert(is_parent(off, edges, x, wx) && st2[wx] == STATUS_LOSE && decided_before(q2, wx, x));
            assert(0 <= wx < s0.len() && is_parent(off, edges, v, wx) && st2[wx] == STATUS_LOSE && decided_before(q2, wx, v));
        } else {
            assert(st1[v] == STATUS_WIN);
            let w = choose|w: int| 0 <= w < s0.len() && is_parent(off, edges, v, w) && st1[w] == STATUS_LOSE && decided_before(q1, w, v);
            assert(w != x);
            lemma_before_push(q1, x as u32, w, v);
            assert(0 <= w < s0.len() && is_parent(off, edges, v, w) && st2[w] == STATUS_LOSE && decided_before(q2, w, v));
        }
    }
    assert forall|v: int|
        0 <= v < s0.len() && s0[v] == STATUS_UNKNOWN && #[trigger] st2[v] == STATUS_LOSE implies exists|w: int|
            0 <= w < s0.len() && is_parent(off, edges, v, w) by {
        if v == x {
            assert(0 <= wx < s0.len() && is_parent(off, edges, v, wx));
        } else {
            assert(st1[v] == STATUS_LOSE);
        }
    }
    assert forall|v: int, w: int|
        0 <= v < s0.len() && s0[v] == STATUS_UNKNOWN && st2[v] == STATUS_LOSE && 0 <= w < s0.len()
            && #[trigger] is_parent(off, edges, v, w) implies st2[w] == STATUS_WIN && decided_before(q2, w, v) by {
        if v != x {
            assert(st1[v] == STATUS_LOSE);
            assert(st1[w] == STATUS_WIN && decided_before(q1, w, v));
            assert(w != x);
            lemma_before_push(q1, x as u32, w, v);
        }
    }
}

/// The graph that `retrograde` walks is well formed: `n` positions, segments in order, every
/// parent a position.
pub open spec fn rev_graph_ok(off: Seq<EdgeIdx>, edges: Seq<u32>, n: int) -> bool {
    &&& 0 <= n <= u32::MAX
    &&& off.len() == n + 1
    &&& offsets_ordered(off, n)
    &&& off[n] <= edges.len()
    &&& forall|e: int| off[0] <= e < off[n] ==> (#[trigger] edges[e] as int) < n
}

/// What holds between the steps of `retrograde`, once the first `qi` positions of the queue have
/// been processed and `done` holds their edges.
spec fn retro_state(
    s0: Seq<u8>,
    status: Seq<u8>,
    remaining: Seq<u8>,
    queue: Seq<u32>,
    qi: int,
    done: Set<int>,
    off: Seq<EdgeIdx>,
    edges: Seq<u32>,
) -> bool {
    let n = s0.len() as int;
    let lo = off[0] as int;
    let hi = off[n] as int;
    &&& rev_graph_ok(off, edges, n)
    &&& status.len() == n
    &&& remaining.len() == n
    &&& 0 <= qi <= queue.len()
    &&& forall|k: int| 0 <= k < queue.len() ==> (#[trigger] queue[k] as int) < n
    &&& queue.no_duplicates()
    &&& forall|v: int| 0 <= v < n ==> (#[trigger] status[v] != STATUS_UNKNOWN <==> queue.contains(v as u32))
    &&& queue.len() + count_unknown(status, n as nat) == n
    &&& forall|e: int| #[trigger] done.contains(e) <==> exists|k: int| 0 <= k < qi && in_segment(off, queue[k] as int, e)
    &&& forall|v: int| 0 <= v < n && #[trigger] status[v] == STATUS_UNKNOWN ==> remaining[v] as nat == undone(edges, lo, hi, done, v)
    &&& forall|v: int|
        0 <= v < n && #[trigger] status[v] == STATUS_UNKNOWN && remaining[v] == 0 ==> undone(edges, lo, hi, Set::empty(), v) == 0
    &&& forall|k: int, e: int|
        0 <= k < qi && #[trigger] in_segment(off, queue[k] as int, e) && status[edges[e] as int] == STATUS_UNKNOWN
            ==> status[queue[k] as int] == STATUS_WIN
    &&& forall|v: int|
        0 <= v < n && s0[v] == STATUS_UNKNOWN && #[trigger] status[v] == STATUS_WIN ==> exists|w: int|
            0 <= w < n && is_parent(off, edges, v, w) && status[w] == STATUS_LOSE
    &&& forall|v: int, w: int|
        0 <= v < n && s0[v] == STATUS_UNKNOWN && status[v] == STATUS_LOSE && 0 <= w < n && #[trigger] is_parent(off, edges, v, w)
            ==> status[w] == STATUS_WIN
    &&& forall|v: int| 0 <= v < n && s0[v] != STATUS_UNKNOWN ==> #[trigger] status[v] == s0[v]
    &&& forall|v: int| 0 <= v < n ==> #[trigger] status[v] <= STATUS_LOSE
    &&& decided_in_order(s0, status, queue, off, edges)
}

/// The positions whose status is known, in increasing order.
fn labeled_queue(status: &[u8]) -> (queue: Vec<u32>)
    requires
        status@.len() <= u32::MAX,
    ensures
        forall|k: int| 0 <= k < queue@.len() ==> (#[trigger] queue@[k] as int) < status@.len(),
        queue@.no_duplicates(),
        forall|v: int| 0 <= v < status@.len() ==> (#[trigger] status@[v] != STATUS_UNKNOWN <==> queue@.contains(v as u32)),
        queue@.len() + count_unknown(status@, status@.len() as nat) == status@.len(),
{
    let n = status.len();
    let mut queue: Vec<u32> = Vec::new();
    for i in 0..n
        invariant
            n == status@.len(),
            n <= u32::MAX,
            forall|k: int| 0 <= k < queue@.len() ==> (#[trigger] queue@[k] as int) < i,
            queue@.no_duplicates(),
            forall|v: int| 0 <= v < i ==> (#[trigger] status@[v] != STATUS_UNKNOWN <==> queue@.contains(v as u32)),
            queue@.len() + count_unknown(status@, i as nat) == i,
    {
        let ghost q0 = queue@;
        if status[i] != STATUS_UNKNOWN {
            proof {
                if q0.contains(i as u32) {
                    let k = choose|k: int| 0 <= k < q0.len() && q0[k] == i as u32;
                }
            }
            queue.push(i as u32);
        }
        proof {
            assert forall|v: int| 0 <= v < i + 1 implies (#[trigger] status@[v] != STATUS_UNKNOWN <==> queue@.contains(v as u32)) by {
                if queue@.contains(v as u32) {
                    let k = choose|k: int| 0 <= k < queue@.len() && queue@[k] == v as u32;
                    if k < q0.len() {
                        assert(q0[k] == v as u32);
                        assert(q0.contains(v as u32));
                    } else {
                        assert(v == i);
                    }
                }
                if v < i && q0.contains(v as u32) {
                    let k = choose|k: int| 0 <= k < q0.len() && q0[k] == v as u32;
                    assert(queue@[k] == v as u32);
                }
                if v == i && status@[v] != STATUS_UNKNOWN {
                    assert(queue@[queue@.len() - 1] == i as u32);
                }
            }
        }
    }
    queue
}

/// What holds while the edges `start..ei` of position `pi` (queue entry `qi`) are processed.
spec fn node_state(
    s0: Seq<u8>,
    status: Seq<u8>,
    remaining: Seq<u8>,
    queue: Seq<u32>,
    qi: int,
    done0: Set<int>,
    done: Set<int>,
    off: Seq<EdgeIdx>,
    edges: Seq<u32>,
    pi: int,
    p_status: u8,
    ei: int,
) -> bool {
    let n = s0.len() as int;
    let lo = off[0] as int;
    let hi = off[n] as int;
    let start = off[pi] as int;
    let end = off[pi + 1] as int;
    &&& rev_graph_ok(off, edges, n)
    &&& status.len() == n
    &&& remaining.len() == n
    &&& lo <= start <= ei <= end <= hi
    &&& 0 <= qi < queue.len()
    &&& pi == queue[qi] as int
    &&& 0 <= pi < n
    &&& status[pi] == p_status
    &&& p_status != STATUS_UNKNOWN
    &&& forall|k: int| 0 <= k < queue.len() ==> (#[trigger] queue[k] as int) < n
    &&& queue.no_duplicates()
    &&& forall|v: int| 0 <= v < n ==> (#[trigger] status[v] != STATUS_UNKNOWN <==> queue.contains(v as u32))
    &&& queue.len() + count_unknown(status, n as nat) == n
    &&& forall|e: int| #[trigger] done0.contains(e) <==> exists|k: int| 0 <= k < qi && in_segment(off, queue[k] as int, e)
    &&& forall|e: int| #[trigger] done.contains(e) <==> (done0.contains(e) || start <= e < ei)
    &&& forall|v: int| 0 <= v < n && #[trigger] status[v] == STATUS_UNKNOWN ==> remaining[v] as nat == undone(edges, lo, hi, done, v)
    &&& forall|v: int|
        0 <= v < n && #[trigger] status[v] == STATUS_UNKNOWN && remaining[v] == 0 ==> undone(edges, lo, hi, Set::empty(), v) == 0
    &&& forall|k: int, e: int|
        0 <= k < qi && #[trigger] in_segment(off, queue[k] as int, e) && status[edges[e] as int] == STATUS_UNKNOWN
            ==> status[queue[k] as int] == STATUS_WIN
    &&& forall|e: int| start <= e < ei && status[#[trigger] edges[e] as int] == STATUS_UNKNOWN ==> p_status == STATUS_WIN
    &&& forall|v: int|
        0 <= v < n && s0[v] == STATUS_UNKNOWN && #[trigger] status[v] == STATUS_WIN ==> exists|w: int|
            0 <= w < n && is_parent(off, edges, v, w) && status[w] == STATUS_LOSE
    &&& forall|v: int, w: int|
        0 <= v < n && s0[v] == STATUS_UNKNOWN && status[v] == STATUS_LOSE && 0 <= w < n && #[trigger] is_parent(off, edges, v, w)
            ==> status[w] == STATUS_WIN
    &&& forall|v: int| 0 <= v < n && s0[v] != STATUS_UNKNOWN ==> #[trigger] status[v] == s0[v]
    &&& forall|v: int| 0 <= v < n ==> #[trigger] status[v] <= STATUS_LOSE
    &&& decided_in_order(s0, status, queue, off, edges)
}

/// Appending a value keeps the earlier entries and adds one to what the sequence contains.
proof fn lemma_push_contains(q: Seq<u32>, x: u32)
    ensures
        forall|y: u32| #[trigger] q.push(x).contains(y) <==> (q.contains(y) || y == x),
        forall|k: int| 0 <= k < q.len() ==> #[trigger] q.push(x)[k] == q[k],
{
    assert forall|y: u32| #[trigger] q.push(x).contains(y) <==> (q.contains(y) || y == x) by {
        if q.push(x).contains(y) {
            let k = choose|k: int| 0 <= k < q.len() + 1 && q.push(x)[k] == y;
            if k < q.len() {
                assert(q[k] == y);
            }
        }
        if q.contains(y) {
            let k = choose|k: int| 0 <= k < q.len() && q[k] == y;
            assert(q.push(x)[k] == y);
        }
        if y == x {
            assert(q.push(x)[q.len() as int] == y);
        }
    }
}

/// Deciding the undecided position `x` keeps a lost parent-witness for every won position.
proof fn lemma_win_witness_kept(s0: Seq<u8>, st1: Seq<u8>, st2: Seq<u8>, off: Seq<EdgeIdx>, edges: Seq<u32>, x: int, wx: int)
    requires
        st1.len() == s0.len(),
        st2 == st1.update(x, st2[x]),
        0 <= x < s0.len(),
        st1[x] == STATUS_UNKNOWN,
        forall|v: int|
            0 <= v < s0.len() && s0[v] == STATUS_UNKNOWN && #[trigger] st1[v] == STATUS_WIN ==> exists|w: int|
                0 <= w < s0.len() && is_parent(off, edges, v, w) && st1[w] == STATUS_LOSE,
        st2[x] == STATUS_WIN ==> 0 <= wx < s0.len() && is_parent(off, edges, x, wx) && st2[wx] == STATUS_LOSE,
    ensures
        forall|v: int|
            0 <= v < s0.len() && s0[v] == STATUS_UNKNOWN && #[trigger] st2[v] == STATUS_WIN ==> exists|w: int|
                0 <= w < s0.len() && is_parent(off, edges, v, w) && st2[w] == STATUS_LOSE,
{
    assert forall|v: int|
        0 <= v < s0.len() && s0[v] == STATUS_UNKNOWN && #[trigger] st2[v] == STATUS_WIN implies exists|w: int|
            0 <= w < s0.len() && is_parent(off, edges, v, w) && st2[w] == STATUS_LOSE by {
        if v == x {
            assert(is_parent(off, edges, x, wx));
        } else {
            let w = choose|w: int| 0 <= w < s0.len() && is_parent(off, edges, v, w) && st1[w] == STATUS_LOSE;
            assert(w != x);
            assert(st2[w] == STATUS_LOSE);
        }
    }
}

/// Processes edge `ei` of position `pi`: its parent, if still undecided, is won when `pi` is lost,
/// and has one successor fewer to wait for when `pi` is won (lost when none is left).
#[verifier::rlimit(40)]
fn relax_edge(
    status: &mut [u8],
    remaining: &mut [u8],
    queue: &mut Vec<u32>,
    qi: usize,
    rev_edges: &[u32],
    ei: usize,
    pi: usize,
    p_status: u8,
    Ghost(off): Ghost<Seq<EdgeIdx>>,
    Ghost(s0): Ghost<Seq<u8>>,
    Ghost(done0): Ghost<Set<int>>,
    Ghost(done_in): Ghost<Set<int>>,
) -> (done_out: Ghost<Set<int>>)
    requires
        node_state(s0, old(status)@, old(remaining)@, old(queue)@, qi as int, done0, done_in, off, rev_edges@, pi as int, p_status, ei as int),
        ei < off[pi + 1],
        won_counts(s0, old(status)@, old(remaining)@, old(queue)@, off, rev_edges@),
    ensures
        won_counts(s0, final(status)@, final(remaining)@, final(queue)@, off, rev_edges@),
        node_state(s0, final(status)@, final(remaining)@, final(queue)@, qi as int, done0, done_out@, off, rev_edges@, pi as int, p_status, ei + 1),
        forall|v: int| 0 <= v < s0.len() && old(status)@[v] != STATUS_UNKNOWN ==> #[trigger] final(status)@[v] == old(status)@[v],
        forall|v: int| 0 <= v < s0.len() && old(status)@[v] != STATUS_UNKNOWN ==> #[trigger] final(remaining)@[v] == old(remaining)@[v],
        forall|v: int| 0 <= v < s0.len() && old(status)@[v] == STATUS_UNKNOWN && #[trigger] final(status)@[v] == STATUS_LOSE
            ==> final(remaining)@[v] == 0,
{
    let ghost edges = rev_edges@;
    let ghost n = s0.len() as int;
    let ghost lo = off[0] as int;
    let ghost hi = off[n] as int;
    let ghost q0 = queue@;
    let ghost st1 = status@;
    let ghost rm1 = remaining@;
    let pred = rev_edges[ei] as usize;
    assert(in_segment(off, pi as int, ei as int));
    assert(!done_in.contains(ei as int)) by {
        if done0.contains(ei as int) {
            let k = choose|k: int| 0 <= k < qi && in_segment(off, queue@[k] as int, ei as int);
            lemma_segment_unique(off, n, queue@[k] as int, pi as int, ei as int);
            assert(queue@[k] == queue@[qi as int]);
        }
    }
    let ghost done = done_in.insert(ei as int);
    proof {
        assert forall|v: int| 0 <= v < n implies #[trigger] undone(edges, lo, hi, done, v) + if edges[ei as int] as int == v { 1nat } else { 0nat }
            == undone(edges, lo, hi, done_in, v) by {
            lemma_undone_insert(edges, lo, hi, done_in, ei as int, v);
        }
        assert forall|e: int| #[trigger] done.contains(e) <==> (done0.contains(e) || off[pi as int] <= e < ei + 1) by {}
    }
    if status[pred] == STATUS_UNKNOWN {
        if p_status == STATUS_LOSE {
            status[pred] = STATUS_WIN;
            proof {
                lemma_win_witness_kept(s0, st1, status@, off, edges, pred as int, pi as int);
                assert(!queue@.contains(pred as u32));
                lemma_count_unknown_update(st1, n as nat, pred as int, STATUS_WIN);
                assert(in_segment(off, pi as int, ei as int) && edges[ei as int] as int == pred as int);
                assert(is_parent(off, edges, pred as int, pi as int));
                lemma_push_contains(q0, pred as u32);
            }
            queue.push(pred as u32);
            proof {
                assert(queue@ == q0.push(pred as u32));
                assert(queue@[qi as int] == pi as u32 && queue@[q0.len() as int] == pred as u32);
                assert(decided_before(queue@, pi as int, pred as int));
                lemma_order_kept(s0, st1, status@, q0, off, edges, pred as int, pi as int);
            }
        } else if p_status == STATUS_WIN {
            proof {
                lemma_undone_insert(edges, lo, hi, done_in, ei as int, pred as int);
                assert(lo <= ei < hi);
                assert(remaining@[pred as int] as nat == undone(edges, lo, hi, done_in, pred as int));
            }
            remaining[pred] = remaining[pred] - 1;
            if remaining[pred] == 0 {
                status[pred] = STATUS_LOSE;
                proof {
                    lemma_win_witness_kept(s0, st1, status@, off, edges, pred as int, pred as int);
                    assert(!queue@.contains(pred as u32));
                    lemma_count_unknown_update(st1, n as nat, pred as int, STATUS_LOSE);
                    lemma_undone_zero(edges, lo, hi, done, pred as int);
                    let q2 = q0.push(pred as u32);
                    assert forall|w: int| 0 <= w < n && #[trigger] is_parent(off, edges, pred as int, w) implies status@[w] == STATUS_WIN
                        && decided_before(q2, w, pred as int) by {
                        let e = choose|e: int| #[trigger] in_segment(off, w, e) && edges[e] as int == pred as int;
                        lemma_offsets_mono(off, n, 0, w);
                        lemma_offsets_mono(off, n, w + 1, n);
                        assert(done.contains(e));
                        assert(q2[q0.len() as int] == pred as u32);
                        if done0.contains(e) {
                            let k = choose|k: int| 0 <= k < qi && in_segment(off, queue@[k] as int, e);
                            lemma_segment_unique(off, n, queue@[k] as int, w, e);
                            assert(q2[k] == q0[k]);
                        } else {
                            lemma_segment_unique(off, n, pi as int, w, e);
                            assert(q2[qi as int] == q0[qi as int]);
                        }
                    }
                    lemma_push_contains(q0, pred as u32);
                }
                queue.push(pred as u32);
                proof {
                    assert(in_segment(off, pi as int, ei as int) && edges[ei as int] as int == pred as int);
                    assert(is_parent(off, edges, pred as int, pi as int));
                    lemma_order_kept(s0, st1, status@, q0, off, edges, pred as int, pi as int);
                }
            }
        }
    }
    proof {
        assert forall|k: int| 0 <= k < q0.len() implies #[trigger] queue@[k] == q0[k] by {}
        assert forall|k: int| 0 <= k < q0.len() implies #[trigger] status@[q0[k] as int] == st1[q0[k] as int] by {
            assert(q0.contains(q0[k]));
        }
        assert forall|e: int| #[trigger] done0.contains(e) <==> exists|k: int| 0 <= k < qi && in_segment(off, queue@[k] as int, e) by {
            if done0.contains(e) {
                let k = choose|k: int| 0 <= k < qi && in_segment(off, q0[k] as int, e);
                assert(queue@[k] == q0[k]);
            }
            if exists|k: int| 0 <= k < qi && in_segment(off, queue@[k] as int, e) {
                let k = choose|k: int| 0 <= k < qi && in_segment(off, queue@[k] as int, e);
                assert(queue@[k] == q0[k]);
            }
        }
        assert forall|k: int, e: int|
            0 <= k < qi && #[trigger] in_segment(off, queue@[k] as int, e) && status@[edges[e] as int] == STATUS_UNKNOWN
                implies status@[queue@[k] as int] == STATUS_WIN by {
            assert(queue@[k] == q0[k]);
            assert(in_segment(off, q0[k] as int, e));
            lemma_offsets_mono(off, n, 0, q0[k] as int);
            lemma_offsets_mono(off, n, q0[k] as int + 1, n);
            assert(status@[edges[e] as int] == STATUS_UNKNOWN ==> st1[edges[e] as int] == STATUS_UNKNOWN);
        }
    }
    proof {
        assert forall|k: int| 0 <= k < q0.len() implies (#[trigger] q0[k] as int) < n && st1[q0[k] as int] != STATUS_UNKNOWN by {
            assert(q0.contains(q0[k]));
        }
        assert(st1[pred as int] == STATUS_UNKNOWN ==> (forall|v: int| 0 <= v < n && v != pred as int ==> status@[v] == st1[v] && remaining@[v] == rm1[v]));
        if st1[pred as int] == STATUS_UNKNOWN {
            lemma_won_kept(s0, st1, status@, rm1, remaining@, q0, queue@, off, edges, pred as int);
            if status@[pred as int] == STATUS_WIN {
                // `pi`, lost, is the first lost successor of `pred` in the queue.
                let i = qi as int;
                assert(queue@[i] == pi as u32);
                assert(in_segment(off, pi as int, ei as int) && edges[ei as int] as int == pred as int);
                assert(is_parent(off, edges, pred as int, pi as int));
                assert forall|j: int| 0 <= j < i implies !(#[trigger] is_parent(off, edges, pred as int, queue@[j] as int)
                    && status@[queue@[j] as int] == STATUS_LOSE) by {
                    assert(queue@[j] == q0[j]);
                    if is_parent(off, edges, pred as int, q0[j] as int) {
                        let e = choose|e: int| #[trigger] in_segment(off, q0[j] as int, e) && edges[e] as int == pred as int;
                        assert(st1[edges[e] as int] == STATUS_UNKNOWN);
                        assert(st1[q0[j] as int] == STATUS_WIN);
                        assert(q0.contains(q0[j]));
                        assert(q0[j] as int != pred as int);
                    }
                }
                assert(segments_before(off, queue@, i) =~= done0) by {
                    assert forall|e: int| segments_before(off, queue@, i).contains(e) <==> done0.contains(e) by {
                        if segments_before(off, queue@, i).contains(e) {
                            let j = choose|j: int| 0 <= j < i && #[trigger] in_segment(off, queue@[j] as int, e);
                            assert(queue@[j] == q0[j]);
                        }
                        if done0.contains(e) {
                            let j = choose|j: int| 0 <= j < qi && in_segment(off, q0[j] as int, e);
                            assert(queue@[j] == q0[j]);
                            assert(in_segment(off, queue@[j] as int, e));
                        }
                    }
                }
                assert forall|e: int| lo <= e < hi && #[trigger] edges[e] as int == pred as int
                    implies (done_in.contains(e) <==> done0.contains(e)) by {
                    if done_in.contains(e) && !done0.contains(e) {
                        assert(off[pi as int] <= e < ei);
                        assert(st1[edges[e] as int] == STATUS_UNKNOWN);
                    }
                }
                lemma_undone_same(edges, lo, hi, done_in, done0, pred as int);
                assert(remaining@[pred as int] == rm1[pred as int]);
                assert(won_count(status@, remaining@, queue@, off, edges, pred as int));
            }
        } else {
            assert(status@ == st1);
            assert(remaining@ == rm1);
            assert(queue@ == q0);
        }
    }
    Ghost(done)
}

/// Processes the next position of the queue: each parent of a lost position is won; each
/// parent of a won position has one successor fewer to wait for, and is lost when none is left.
#[verifier::rlimit(40)]
fn process_node(
    status: &mut [u8],
    remaining: &mut [u8],
    queue: &mut Vec<u32>,
    qi: usize,
    rev_offset: &[EdgeIdx],
    rev_edges: &[u32],
    Ghost(s0): Ghost<Seq<u8>>,
    Ghost(done_in): Ghost<Set<int>>,
) -> (done_out: Ghost<Set<int>>)
    requires
        retro_state(s0, old(status)@, old(remaining)@, old(queue)@, qi as int, done_in, rev_offset@, rev_edges@),
        qi < old(queue)@.len(),
        won_counts(s0, old(status)@, old(remaining)@, old(queue)@, rev_offset@, rev_edges@),
    ensures
        won_counts(s0, final(status)@, final(remaining)@, final(queue)@, rev_offset@, rev_edges@),
        retro_state(s0, final(status)@, final(remaining)@, final(queue)@, qi + 1, done_out@, rev_offset@, rev_edges@),
        forall|v: int| 0 <= v < s0.len() && old(status)@[v] != STATUS_UNKNOWN ==> #[trigger] final(status)@[v] == old(status)@[v],
        forall|v: int| 0 <= v < s0.len() && old(status)@[v] != STATUS_UNKNOWN ==> #[trigger] final(remaining)@[v] == old(remaining)@[v],
        forall|v: int| 0 <= v < s0.len() && old(status)@[v] == STATUS_UNKNOWN && #[trigger] final(status)@[v] == STATUS_LOSE
            ==> final(remaining)@[v] == 0,
{
    let ghost off = rev_offset@;
    let ghost edges = rev_edges@;
    let ghost n = s0.len() as int;
    let elen = rev_edges.len();
    let pi = queue[qi] as usize;
    let p_status = status[pi];
    assert(queue@.contains(pi as u32));
    proof {
        lemma_offsets_mono(off, n, 0, pi as int);
        lemma_offsets_mono(off, n, pi as int + 1, n);
        assert(off[pi as int] <= off[pi + 1]);
    }
    let start = rev_offset[pi] as usize;
    let end = rev_offset[pi + 1] as usize;
    let ghost mut done = done_in;
    let ghost st0 = status@;
    let ghost rm0 = remaining@;
    assert(node_state(s0, status@, remaining@, queue@, qi as int, done_in, done, off, edges, pi as int, p_status, start as int));
    for ei in start..end
        invariant
            node_state(s0, status@, remaining@, queue@, qi as int, done_in, done, off, edges, pi as int, p_status, ei as int),
            off == rev_offset@,
            edges == rev_edges@,
            end == off[pi + 1],
            n == s0.len(),
            st0.len() == n,
            forall|v: int| 0 <= v < n && st0[v] != STATUS_UNKNOWN ==> #[trigger] status@[v] == st0[v],
            forall|v: int| 0 <= v < n && st0[v] != STATUS_UNKNOWN ==> #[trigger] remaining@[v] == rm0[v],
            forall|v: int| 0 <= v < n && st0[v] == STATUS_UNKNOWN && #[trigger] status@[v] == STATUS_LOSE ==> remaining@[v] == 0,
            won_counts(s0, status@, remaining@, queue@, off, edges),
    {
        let dn = relax_edge(status, remaining, queue, qi, rev_edges, ei, pi, p_status, Ghost(off), Ghost(s0), Ghost(done_in), Ghost(done));
        proof {
            done = dn@;
        }
    }
    proof {
        assert forall|e: int| #[trigger] done.contains(e) <==> exists|k: int| 0 <= k < qi + 1 && in_segment(off, queue@[k] as int, e) by {
            if start <= e < end {
                assert(in_segment(off, queue@[qi as int] as int, e));
            }
            if exists|k: int| 0 <= k < qi + 1 && in_segment(off, queue@[k] as int, e) {
                let k = choose|k: int| 0 <= k < qi + 1 && in_segment(off, queue@[k] as int, e);
                if k == qi {
                    assert(start <= e < end);
                }
            }
        }
    }
    Ghost(done)
}

/// Once every position of the queue is processed, the statuses are a fixed point of the game's
/// rules.
proof fn lemma_retro_final(
    s0: Seq<u8>,
    status: Seq<u8>,
    remaining: Seq<u8>,
    queue: Seq<u32>,
    done: Set<int>,
    off: Seq<EdgeIdx>,
    edges: Seq<u32>,
)
    requires
        retro_state(s0, status, remaining, queue, queue.len() as int, done, off, edges),
    ensures
        forall|v: int, w: int|
            0 <= v < s0.len() && status[v] == STATUS_UNKNOWN && 0 <= w < s0.len()
                && #[trigger] is_parent(off, edges, v, w) ==> status[w] != STATUS_LOSE,
        forall|v: int|
            0 <= v < s0.len() && #[trigger] status[v] == STATUS_UNKNOWN && (exists|w: int|
                0 <= w < s0.len() && is_parent(off, edges, v, w)) ==> exists|w: int|
                0 <= w < s0.len() && is_parent(off, edges, v, w) && status[w] != STATUS_WIN,
{
    let n = s0.len() as int;
    let lo = off[0] as int;
    let hi = off[n] as int;
    assert forall|v: int, w: int|
        0 <= v < n && status[v] == STATUS_UNKNOWN && 0 <= w < n && #[trigger] is_parent(off, edges, v, w) implies status[w] != STATUS_LOSE by {
        if status[w] == STATUS_LOSE {
            assert(queue.contains(w as u32));
            let k = choose|k: int| 0 <= k < queue.len() && queue[k] == w as u32;
            let e = choose|e: int| #[trigger] in_segment(off, w, e) && edges[e] as int == v;
            assert(in_segment(off, queue[k] as int, e));
        }
    }
    assert forall|v: int|
        0 <= v < n && #[trigger] status[v] == STATUS_UNKNOWN && (exists|w: int| 0 <= w < n && is_parent(off, edges, v, w))
            implies exists|w: int| 0 <= w < n && is_parent(off, edges, v, w) && status[w] != STATUS_WIN by {
        if forall|w: int| 0 <= w < n && is_parent(off, edges, v, w) ==> status[w] == STATUS_WIN {
            assert forall|e: int| lo <= e < hi && #[trigger] edges[e] as int == v implies done.contains(e) by {
                let w = lemma_segment_exists(off, n, e, n);
                assert(in_segment(off, w, e));
                assert(is_parent(off, edges, v, w));
                assert(queue.contains(w as u32));
                let k = choose|k: int| 0 <= k < queue.len() && queue[k] == w as u32;
                assert(in_segment(off, queue[k] as int, e));
            }
            lemma_undone_zero(edges, lo, hi, done, v);
            lemma_undone_zero(edges, lo, hi, Set::empty(), v);
            let w0 = choose|w: int| 0 <= w < n && is_parent(off, edges, v, w);
            let e0 = choose|e: int| #[trigger] in_segment(off, w0, e) && edges[e] as int == v;
            lemma_offsets_mono(off, n, 0, w0);
            lemma_offsets_mono(off, n, w0 + 1, n);
            assert(!Set::<int>::empty().contains(e0));
        }
    }
}

/// Propagates wins and losses backwards from the positions whose status is known, through the
/// reverse graph (`rev_edges[rev_offset[w] .. rev_offset[w + 1]]` lists the parents of `w`).
/// A parent of a lost position is won; a position all of whose successors are won is lost once
/// `remaining` (its number of successors) has counted them all down. Positions left unknown are
/// draws: none of their successors is lost, and not all of them are won. Every win and loss is
/// decided from positions decided before it. Afterwards `remaining` is unchanged for positions
/// decided from the start, zero for the lost ones, for a won one the count it had when it was
/// won (its edges outside the segments processed before its first lost successor), and for a
/// draw the number of its moves into positions left unknown.
pub fn retrograde(status: &mut [u8], remaining: &mut [u8], rev_offset: &[EdgeIdx], rev_edges: &[u32])
    requires
        old(remaining)@.len() == old(status)@.len(),
        rev_graph_ok(rev_offset@, rev_edges@, old(status)@.len() as int),
        forall|v: int| 0 <= v < old(status)@.len() ==> #[trigger] old(status)@[v] <= STATUS_LOSE,
        forall|v: int|
            0 <= v < old(status)@.len() && #[trigger] old(status)@[v] == STATUS_UNKNOWN ==> old(remaining)@[v] as nat
                == rev_edges@.subrange(rev_offset@[0] as int, rev_offset@[old(status)@.len() as int] as int).to_multiset().count(
                v as u32,
            ),
    ensures
        final(status)@.len() == old(status)@.len(),
        final(remaining)@.len() == old(status)@.len(),
        forall|v: int|
            0 <= v < old(status)@.len() && old(status)@[v] != STATUS_UNKNOWN ==> #[trigger] final(status)@[v] == old(status)@[v],
        forall|v: int| 0 <= v < old(status)@.len() ==> #[trigger] final(status)@[v] <= STATUS_LOSE,
        forall|v: int|
            0 <= v < old(status)@.len() && old(status)@[v] == STATUS_UNKNOWN && #[trigger] final(status)@[v] == STATUS_WIN
                ==> exists|w: int|
                0 <= w < old(status)@.len() && is_parent(rev_offset@, rev_edges@, v, w) && final(status)@[w] == STATUS_LOSE,
        forall|v: int, w: int|
            0 <= v < old(status)@.len() && old(status)@[v] == STATUS_UNKNOWN && final(status)@[v] == STATUS_LOSE && 0 <= w
                < old(status)@.len() && #[trigger] is_parent(rev_offset@, rev_edges@, v, w) ==> final(status)@[w] == STATUS_WIN,
        forall|v: int, w: int|
            0 <= v < old(status)@.len() && final(status)@[v] == STATUS_UNKNOWN && 0 <= w < old(status)@.len()
                && #[trigger] is_parent(rev_offset@, rev_edges@, v, w) ==> final(status)@[w] != STATUS_LOSE,
        forall|v: int|
            0 <= v < old(status)@.len() && #[trigger] final(status)@[v] == STATUS_UNKNOWN && (exists|w: int|
                0 <= w < old(status)@.len() && is_parent(rev_offset@, rev_edges@, v, w)) ==> exists|w: int|
                0 <= w < old(status)@.len() && is_parent(rev_offset@, rev_edges@, v, w) && final(status)@[w] != STATUS_WIN,
        exists|order: Seq<u32>| #[trigger] order.no_duplicates()
            && decided_in_order(old(status)@, final(status)@, order, rev_offset@, rev_edges@)
            && won_counts(old(status)@, final(status)@, final(remaining)@, order, rev_offset@, rev_edges@),
        forall|v: int| 0 <= v < old(status)@.len() && old(status)@[v] != STATUS_UNKNOWN ==> #[trigger] final(remaining)@[v] == old(remaining)@[v],
        forall|v: int|
            0 <= v < old(status)@.len() && old(status)@[v] == STATUS_UNKNOWN && #[trigger] final(status)@[v] == STATUS_LOSE
                ==> final(remaining)@[v] == 0,
        forall|v: int|
            0 <= v < old(status)@.len() && #[trigger] final(status)@[v] == STATUS_UNKNOWN ==> final(remaining)@[v] as nat
                == undone(rev_edges@, rev_offset@[0] as int, rev_offset@[old(status)@.len() as int] as int,
                decided_edges(rev_offset@, final(status)@), v),
{
    let ghost s0 = status@;
    let ghost off = rev_offset@;
    let ghost edges = rev_edges@;
    let ghost n = s0.len() as int;
    let ghost lo = off[0] as int;
    let ghost hi = off[n] as int;
    proof {
        lemma_offsets_mono(off, n, 0, n);
        assert forall|v: int| 0 <= v < n && #[trigger] s0[v] == STATUS_UNKNOWN implies remaining@[v] as nat == undone(
            edges,
            lo,
            hi,
            Set::empty(),
            v,
        ) by {
            lemma_undone_ms(edges, lo, hi, v as u32);
        }
    }
    let mut queue = labeled_queue(status);
    let ghost mut done: Set<int> = Set::empty();
    proof {
        assert forall|e: int| #[trigger] done.contains(e) <==> exists|k: int| 0 <= k < 0 && in_segment(off, queue@[k] as int, e) by {}
        assert forall|v: int| 0 <= v < n && #[trigger] status@[v] == STATUS_UNKNOWN && remaining@[v] == 0 implies undone(edges, lo, hi, Set::empty(), v) == 0 by {}
    }
    let ghost r0 = remaining@;
    let mut qi: usize = 0;
    while qi < queue.len()
        invariant
            retro_state(s0, status@, remaining@, queue@, qi as int, done, rev_offset@, rev_edges@),
            off == rev_offset@,
            edges == rev_edges@,
            n == s0.len(),
            r0.len() == n,
            forall|v: int| 0 <= v < n && s0[v] != STATUS_UNKNOWN ==> #[trigger] remaining@[v] == r0[v],
            forall|v: int| 0 <= v < n && s0[v] == STATUS_UNKNOWN && #[trigger] status@[v] == STATUS_LOSE ==> remaining@[v] == 0,
            won_counts(s0, status@, remaining@, queue@, off, edges),
        decreases n - qi,
    {
        proof {
            lemma_count_unknown_bound(status@, n as nat);
        }
        let dn = process_node(status, remaining, &mut queue, qi, rev_offset, rev_edges, Ghost(s0), Ghost(done));
        proof {
            done = dn@;
        }
        qi += 1;
    }
    proof {
        lemma_retro_final(s0, status@, remaining@, queue@, done, off, edges);
        assert(queue@.no_duplicates() && decided_in_order(s0, status@, queue@, off, edges)
            && won_counts(s0, status@, remaining@, queue@, off, edges));
        assert(done =~= decided_edges(off, status@)) by {
            assert forall|e: int| #[trigger] done.contains(e) <==> decided_edges(off, status@).contains(e) by {
                if done.contains(e) {
                    let k = choose|k: int| 0 <= k < queue@.len() && in_segment(off, queue@[k] as int, e);
                    assert(queue@.contains(queue@[k]));
                    assert(status@[queue@[k] as int] != STATUS_UNKNOWN);
                }
                if decided_edges(off, status@).contains(e) {
                    let w = choose|w: int| 0 <= w < n && status@[w] != STATUS_UNKNOWN && #[trigger] in_segment(off, w, e);
                    assert(queue@.contains(w as u32));
                    let k = choose|k: int| 0 <= k < queue@.len() && queue@[k] == w as u32;
                    assert(in_segment(off, queue@[k] as int, e));
                }
            }
        }
    }
}

} // verus!
