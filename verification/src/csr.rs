use vstd::prelude::*;
use crate::{Pos, EdgeIdx, BATCH_CAP, STATUS_UNKNOWN};
use crate::rules::{successors, generate_successors_canonical, lemma_successors_len};
use crate::sorted::{sorted, strictly_sorted, sort_positions, position_count};

verus! {

broadcast use vstd::seq_lib::group_to_multiset_ensures;

/// How many times `x` is a successor of `p`.
pub open spec fn succ_count(p: Pos, x: Pos) -> nat {
    successors(p).to_multiset().count(x)
}

/// The number of edges from position number `v` to position `x`: a position whose status is
/// already known has no outgoing edges.
pub open spec fn edge_count(known: Seq<Pos>, status: Seq<u8>, v: int, x: Pos) -> nat {
    if status[v] == STATUS_UNKNOWN {
        succ_count(known[v], x)
    } else {
        0
    }
}

/// The number of edges into `x` from the positions numbered below `i`.
pub open spec fn edges_into_upto(known: Seq<Pos>, status: Seq<u8>, x: Pos, i: nat) -> nat
    decreases i,
{
    if i == 0 {
        0
    } else {
        edges_into_upto(known, status, x, (i - 1) as nat) + edge_count(known, status, i - 1, x)
    }
}

/// The number of edges into `x`.
pub open spec fn edges_into(known: Seq<Pos>, status: Seq<u8>, x: Pos) -> nat {
    edges_into_upto(known, status, x, known.len())
}

/// `x` is in the sorted `known` at position `idx`.
proof fn lemma_index_of(known: Seq<Pos>, x: Pos) -> (idx: int)
    requires
        known.contains(x),
    ensures
        0 <= idx < known.len(),
        known[idx] == x,
{
    choose|i: int| 0 <= i < known.len() && known[i] == x
}

/// Adds to `in_degree[j]` the number of times `known[j]` occurs in `batch`, then empties it.
fn flush_indeg_batch(known: &[Pos], in_degree: &mut [u32], batch: &mut Vec<Pos>)
    requires
        strictly_sorted(known@),
        old(in_degree)@.len() == known@.len(),
        forall|t: int| 0 <= t < old(batch)@.len() ==> known@.contains(#[trigger] old(batch)@[t]),
        forall|j: int|
            0 <= j < known@.len() ==> old(in_degree)@[j] + old(batch)@.to_multiset().count(#[trigger] known@[j])
                <= u32::MAX,
    ensures
        final(in_degree)@.len() == known@.len(),
        forall|j: int|
            0 <= j < known@.len() ==> #[trigger] final(in_degree)@[j] == old(in_degree)@[j] + old(batch)@.to_multiset().count(
                known@[j],
            ),
        final(batch)@ == Seq::<Pos>::empty(),
{
    let ghost orig = batch@;
    let ghost start = in_degree@;
    sort_positions(batch);
    let ghost sb = batch@;
    assert forall|u: int| 0 <= u < sb.len() implies known@.contains(#[trigger] sb[u]) by {
        let x = sb[u];
        assert(sb.contains(x));
        assert(orig.to_multiset().count(x) > 0);
        assert(orig.contains(x));
        let t = choose|t: int| 0 <= t < orig.len() && orig[t] == x;
        assert(known@.contains(orig[t]));
    }
    let n = known.len();
    let mut ki: usize = 0;
    let blen = batch.len();
    for t in 0..blen
        invariant
            strictly_sorted(known@),
            n == known@.len(),
            blen == sb.len(),
            batch@ == sb,
            sorted(sb),
            sb.to_multiset() == orig.to_multiset(),
            forall|u: int| 0 <= u < sb.len() ==> known@.contains(#[trigger] sb[u]),
            in_degree@.len() == n,
            ki <= n,
            t < blen ==> forall|k: int| 0 <= k < ki ==> #[trigger] known@[k] < sb[t as int],
            forall|j: int|
                0 <= j < n ==> #[trigger] in_degree@[j] == start[j] + sb.subrange(0, t as int).to_multiset().count(
                    known@[j],
                ),
            forall|j: int| 0 <= j < n ==> start[j] + orig.to_multiset().count(#[trigger] known@[j]) <= u32::MAX,
    {
        let s = batch[t];
        assert(sb.contains(s)) by { assert(sb[t as int] == s); }
        assert(orig.to_multiset().count(s) > 0);
        assert(known@.contains(s)) by {
            assert(sb.to_multiset().count(s) > 0);
        }
        let ghost idx = lemma_index_of(known@, s);
        assert(ki <= idx) by {
            if ki > idx {
                assert(known@[idx] < s);
            }
        }
        while known[ki] < s
            invariant
                strictly_sorted(known@),
                n == known@.len(),
                0 <= idx < n,
                known@[idx] == s,
                ki <= idx,
                forall|k: int| 0 <= k < ki ==> #[trigger] known@[k] < s,
            decreases idx - ki,
        {
            assert(ki != idx);
            ki += 1;
        }
        assert(ki == idx) by {
            if ki < idx {
                assert(known@[ki as int] < known@[idx]);
            }
        }
        proof {
            let pre = sb.subrange(0, t as int);
            assert(sb.subrange(0, t + 1) =~= pre.push(s));
            let rest = sb.subrange(t as int, sb.len() as int);
            assert(sb =~= pre + rest);
            vstd::seq_lib::lemma_multiset_commutative(pre, rest);
            assert(rest.to_multiset().count(s) > 0) by {
                assert(rest[0] == s);
                assert(rest.contains(s));
            }
            assert(in_degree@[ki as int] + 1 <= u32::MAX);
        }
        in_degree[ki] = in_degree[ki] + 1;
        proof {
            if t + 1 < blen {
                assert(s <= sb[t + 1]);
                assert forall|k: int| 0 <= k < ki implies #[trigger] known@[k] < sb[t + 1] by {}
            }
        }
    }
    batch.clear();
    assert(sb.subrange(0, blen as int) =~= sb);
}

/// Reordering a sequence does not change the multiset of the values a function takes on it.
pub proof fn lemma_perm_map<X>(a: Seq<u32>, b: Seq<u32>, f: spec_fn(u32) -> X)
    requires
        a.to_multiset() == b.to_multiset(),
    ensures
        a.map_values(f).to_multiset() == b.map_values(f).to_multiset(),
    decreases a.len(),
{
    if a.len() == 0 {
        assert(a.to_multiset().len() == 0);
        assert(b.to_multiset().len() == b.len());
        assert(b.len() == 0);
        assert(a.map_values(f) =~= Seq::<X>::empty());
        assert(b.map_values(f) =~= Seq::<X>::empty());
    } else {
        let x = a.last();
        let a1 = a.drop_last();
        assert(a =~= a1.push(x));
        assert(a.to_multiset() == a1.to_multiset().insert(x));
        assert(b.to_multiset().count(x) > 0);
        assert(b.contains(x));
        let k = choose|k: int| 0 <= k < b.len() && b[k] == x;
        let b1 = b.remove(k);
        assert(b1.to_multiset() == b.to_multiset().remove(x));
        assert(a1.to_multiset() =~= b1.to_multiset());
        lemma_perm_map(a1, b1, f);
        assert(a.map_values(f) =~= a1.map_values(f).push(f(x)));
        assert(b.map_values(f).remove(k) =~= b1.map_values(f));
        assert(b.map_values(f)[k] == f(x));
        assert(b.map_values(f).to_multiset().remove(f(x)) == b1.map_values(f).to_multiset());
        assert(b.map_values(f).to_multiset().count(f(x)) > 0) by {
            assert(b.map_values(f).contains(f(x)));
        }
        assert(a.map_values(f).to_multiset() =~= b.map_values(f).to_multiset());
    }
}

/// A batch of reverse edges: successor position and the number of its parent.
struct EdgeBatch {
    succs: Vec<Pos>,
    parents: Vec<u32>,
}

impl EdgeBatch {
    /// Both columns have the same length.
    spec fn wf(&self) -> bool {
        self.succs@.len() == self.parents@.len()
    }

    /// The (successor, parent) pairs of the batch.
    spec fn pairs(&self) -> Seq<(Pos, u32)> {
        Seq::new(self.succs@.len(), |t: int| (self.succs@[t], self.parents@[t]))
    }

    fn new() -> (b: Self)
        ensures
            b.wf(),
            b.succs@ == Seq::<Pos>::empty(),
    {
        Self { succs: Vec::new(), parents: Vec::new() }
    }

    fn len(&self) -> (n: usize)
        ensures
            n == self.succs@.len(),
    {
        self.succs.len()
    }

    fn clear(&mut self)
        ensures
            final(self).wf(),
            final(self).succs@ == Seq::<Pos>::empty(),
    {
        self.succs.clear();
        self.parents.clear();
    }

    fn push(&mut self, succ: Pos, parent: u32)
        requires
            old(self).wf(),
        ensures
            final(self).wf(),
            final(self).succs@ == old(self).succs@.push(succ),
            final(self).parents@ == old(self).parents@.push(parent),
            final(self).pairs() == old(self).pairs().push((succ, parent)),
    {
        self.succs.push(succ);
        self.parents.push(parent);
        assert(self.pairs() =~= old(self).pairs().push((succ, parent)));
    }
}

/// The successor stored at `i`, the key by which a batch is ordered.
fn successor_key(succs: &Vec<Pos>, i: u32) -> (k: Pos)
    requires
        (i as int) < succs@.len(),
    ensures
        k == succs@[i as int],
{
    succs[i as usize]
}

/// Orders the indices by the successor they point at, with the standard library's
/// `slice::sort_unstable_by_key` and the verified `successor_key` as the key. Claimed: the
/// indices are only reordered, and afterwards the successors they point at are in
/// non-decreasing order.
#[verifier::external_body]
fn sort_by_successor(indices: &mut Vec<u32>, succs: &Vec<Pos>)
    requires
        forall|t: int| 0 <= t < old(indices)@.len() ==> (#[trigger] old(indices)@[t] as int) < succs@.len(),
    ensures
        final(indices)@.to_multiset() == old(indices)@.to_multiset(),
        forall|a: int, b: int|
            0 <= a <= b < final(indices)@.len() ==> succs@[#[trigger] final(indices)@[a] as int]
                <= succs@[#[trigger] final(indices)@[b] as int],
{
    indices.sort_unstable_by_key(|&i| successor_key(succs, i));
}

/// Every value `s` holds, and how often, is at most as often in a prefix.
proof fn lemma_prefix_count<X>(s: Seq<X>, t: int, x: X)
    requires
        0 <= t <= s.len(),
    ensures
        s.subrange(0, t).to_multiset().count(x) <= s.to_multiset().count(x),
        t < s.len() && s[t] == x ==> s.subrange(0, t).to_multiset().count(x) + 1 <= s.to_multiset().count(x),
{
    let pre = s.subrange(0, t);
    let rest = s.subrange(t, s.len() as int);
    assert(s =~= pre + rest);
    vstd::seq_lib::lemma_multiset_commutative(pre, rest);
    if t < s.len() && s[t] == x {
        assert(rest[0] == x);
        assert(rest.contains(x));
    }
}

proof fn lemma_subrange_update_outside(r: Seq<u32>, w: int, val: u32, lo: int, hi: int)
    requires
        0 <= lo <= hi <= r.len(),
        0 <= w < r.len(),
        w < lo || hi <= w,
    ensures
        r.update(w, val).subrange(lo, hi) == r.subrange(lo, hi),
{
    assert(r.update(w, val).subrange(lo, hi) =~= r.subrange(lo, hi));
}

proof fn lemma_subrange_update_end(r: Seq<u32>, w: int, val: u32, lo: int)
    requires
        0 <= lo <= w < r.len(),
    ensures
        r.update(w, val).subrange(lo, w + 1) == r.subrange(lo, w).push(val),
{
    assert(r.update(w, val).subrange(lo, w + 1) =~= r.subrange(lo, w).push(val));
}

/// Writes every edge of the batch into its successor's segment of `rev_edges` (at
/// `write_pos[j]`, which moves on), then empties the batch.
fn flush_edge_batch(
    known: &[Pos],
    rev_edges: &mut [u32],
    write_pos: &mut [EdgeIdx],
    batch: &mut EdgeBatch,
    Ghost(off): Ghost<Seq<int>>,
)
    requires
        strictly_sorted(known@),
        old(batch).wf(),
        old(batch).succs@.len() <= u32::MAX,
        old(write_pos)@.len() == known@.len(),
        off.len() == known@.len() + 1,
        0 <= off[0],
        off[known@.len() as int] <= old(rev_edges)@.len(),
        forall|a: int, b: int| 0 <= a <= b <= known@.len() ==> #[trigger] off[a] <= #[trigger] off[b],
        forall|j: int|
            0 <= j < known@.len() ==> off[j] <= #[trigger] old(write_pos)@[j] && old(write_pos)@[j]
                + old(batch).succs@.to_multiset().count(known@[j]) <= off[j + 1],
        forall|t: int| 0 <= t < old(batch).succs@.len() ==> known@.contains(#[trigger] old(batch).succs@[t]),
    ensures
        final(rev_edges)@.len() == old(rev_edges)@.len(),
        final(write_pos)@.len() == known@.len(),
        forall|j: int|
            0 <= j < known@.len() ==> #[trigger] final(write_pos)@[j] == old(write_pos)@[j]
                + old(batch).succs@.to_multiset().count(known@[j]),
        forall|j: int, v: u32|
            0 <= j < known@.len() ==> #[trigger] final(rev_edges)@.subrange(off[j], final(write_pos)@[j] as int).to_multiset().count(v)
                == old(rev_edges)@.subrange(off[j], old(write_pos)@[j] as int).to_multiset().count(v)
                + old(batch).pairs().to_multiset().count((known@[j], v)),
        forall|j: int, v: u32|
            0 <= j < known@.len() ==> #[trigger] final(rev_edges)@.subrange(old(write_pos)@[j] as int, final(write_pos)@[j] as int).to_multiset().count(v)
                == old(batch).pairs().to_multiset().count((known@[j], v)),
        forall|e: int|
            0 <= e < old(rev_edges)@.len() && (forall|j: int| 0 <= j < known@.len() ==> !(old(write_pos)@[j] <= e < #[trigger] final(write_pos)@[j]))
                ==> #[trigger] final(rev_edges)@[e] == old(rev_edges)@[e],
        final(batch).wf(),
        final(batch).succs@ == Seq::<Pos>::empty(),
{
    let ghost rev0 = rev_edges@;
    let ghost wp0 = write_pos@;
    let ghost succs = batch.succs@;
    let ghost parents = batch.parents@;
    let ghost pairs = batch.pairs();
    let n = known.len();
    let n_b = batch.len();
    let mut indices: Vec<u32> = Vec::new();
    for t in 0..n_b
        invariant
            n_b == succs.len(),
            n_b <= u32::MAX,
            indices@ == Seq::new(t as nat, |k: int| k as u32),
    {
        indices.push(t as u32);
        assert(indices@ =~= Seq::new((t + 1) as nat, |k: int| k as u32));
    }
    let ghost range = indices@;
    sort_by_successor(&mut indices, &batch.succs);
    let ghost ix = indices@;
    let ghost fs = |x: u32| succs[x as int];
    let ghost fp = |x: u32| (succs[x as int], parents[x as int]);
    proof {
        assert(ix.to_multiset().len() == range.to_multiset().len());
        assert(ix.len() == n_b);
        lemma_perm_map(ix, range, fs);
        lemma_perm_map(ix, range, fp);
        assert(range.map_values(fs) =~= succs);
        assert(range.map_values(fp) =~= pairs);
        assert forall|t: int| 0 <= t < ix.len() implies (#[trigger] ix[t] as int) < n_b by {
            assert(ix.contains(ix[t]));
            assert(range.to_multiset().count(ix[t]) > 0);
            assert(range.contains(ix[t]));
        }
    }
    let mut ki: usize = 0;
    for t in 0..n_b
        invariant
            strictly_sorted(known@),
            n == known@.len(),
            n_b == succs.len(),
            succs == batch.succs@,
            parents == batch.parents@,
            succs.len() == parents.len(),
            ix == indices@,
            ix.len() == n_b,
            forall|u: int| 0 <= u < ix.len() ==> (#[trigger] ix[u] as int) < n_b,
            forall|a: int, b: int| 0 <= a <= b < ix.len() ==> succs[#[trigger] ix[a] as int] <= succs[#[trigger] ix[b] as int],
            ix.map_values(fs).to_multiset() == succs.to_multiset(),
            fs == (|x: u32| succs[x as int]),
            fp == (|x: u32| (succs[x as int], parents[x as int])),
            forall|u: int| 0 <= u < succs.len() ==> known@.contains(#[trigger] succs[u]),
            off.len() == n + 1,
            0 <= off[0],
            off[n as int] <= rev0.len(),
            forall|a: int, b: int| 0 <= a <= b <= n ==> #[trigger] off[a] <= #[trigger] off[b],
            forall|j: int| 0 <= j < n ==> off[j] <= #[trigger] wp0[j] && wp0[j] + succs.to_multiset().count(known@[j]) <= off[j + 1],
            rev_edges@.len() == rev0.len(),
            write_pos@.len() == n,
            ki <= n,
            t < n_b ==> forall|k: int| 0 <= k < ki ==> #[trigger] known@[k] < succs[ix[t as int] as int],
            forall|j: int|
                0 <= j < n ==> #[trigger] write_pos@[j] == wp0[j] + ix.subrange(0, t as int).map_values(fs).to_multiset().count(
                    known@[j],
                ),
            forall|j: int, v: u32|
                0 <= j < n ==> #[trigger] rev_edges@.subrange(off[j], write_pos@[j] as int).to_multiset().count(v)
                    == rev0.subrange(off[j], wp0[j] as int).to_multiset().count(v) + ix.subrange(0, t as int).map_values(fp).to_multiset().count(
                    (known@[j], v),
                ),
            forall|e: int|
                0 <= e < rev0.len() && (forall|j: int| 0 <= j < n ==> !(wp0[j] <= e < #[trigger] write_pos@[j]))
                    ==> #[trigger] rev_edges@[e] == rev0[e],
    {
        let idx = indices[t];
        let s = batch.succs[idx as usize];
        let parent = batch.parents[idx as usize];
        assert(known@.contains(s));
        let ghost jx = lemma_index_of(known@, s);
        assert(ki <= jx) by {
            if ki > jx {
                assert(known@[jx] < s);
            }
        }
        while known[ki] < s
            invariant
                strictly_sorted(known@),
                n == known@.len(),
                0 <= jx < n,
                known@[jx] == s,
                ki <= jx,
                forall|k: int| 0 <= k < ki ==> #[trigger] known@[k] < s,
            decreases jx - ki,
        {
            assert(ki != jx);
            ki += 1;
        }
        assert(ki == jx) by {
            if ki < jx {
                assert(known@[ki as int] < known@[jx]);
            }
        }
        let ghost rev1 = rev_edges@;
        let ghost wp1 = write_pos@;
        let ghost ps = ix.subrange(0, t as int).map_values(fs);
        let ghost pp = ix.subrange(0, t as int).map_values(fp);
        proof {
            assert(ix.subrange(0, t + 1).map_values(fs) =~= ps.push(s));
            assert(ix.subrange(0, t + 1).map_values(fp) =~= pp.push((s, parent)));
            assert(ix.map_values(fs).subrange(0, t as int) =~= ps);
            assert(ix.map_values(fs)[t as int] == s);
            lemma_prefix_count(ix.map_values(fs), t as int, s);
            assert(wp1[jx] + 1 <= off[jx + 1]);
            assert(off[jx + 1] <= off[n as int]);
        }
        let wp = write_pos[ki] as usize;
        rev_edges[wp] = parent;
        write_pos[ki] = write_pos[ki] + 1;
        proof {
            assert(wp == wp1[jx]);
            assert(rev_edges@ == rev1.update(wp as int, parent));
            assert(write_pos@ == wp1.update(jx, (wp1[jx] + 1) as u64));
            assert forall|j: int| 0 <= j < n implies #[trigger] write_pos@[j] == wp0[j] + ix.subrange(0, t + 1).map_values(fs).to_multiset().count(
                known@[j],
            ) by {
                if j != jx {
                    assert(known@[j] != s) by {
                        if j < jx { assert(known@[j] < known@[jx]); } else { assert(known@[jx] < known@[j]); }
                    }
                }
            }
            assert forall|j: int, v: u32| 0 <= j < n implies #[trigger] rev_edges@.subrange(off[j], write_pos@[j] as int).to_multiset().count(v)
                == rev0.subrange(off[j], wp0[j] as int).to_multiset().count(v) + ix.subrange(0, t + 1).map_values(fp).to_multiset().count(
                (known@[j], v),
            ) by {
                assert(off[j] <= wp1[j]);
                assert(rev1.len() == rev0.len());
                assert(off[j + 1] <= off[n as int]);
                if j == jx {
                    assert(write_pos@[j] == wp1[j] + 1);
                    assert(wp1[j] + 1 <= rev1.len());
                    lemma_subrange_update_end(rev1, wp as int, parent, off[j]);
                } else {
                    assert(known@[j] != s) by {
                        if j < jx { assert(known@[j] < known@[jx]); } else { assert(known@[jx] < known@[j]); }
                    }
                    if j < jx {
                        assert(off[j + 1] <= off[jx]);
                        lemma_prefix_count(ix.map_values(fs), t as int, known@[j]);
                    } else {
                        assert(off[jx + 1] <= off[j]);
                    }
                    assert(write_pos@[j] == wp1[j]);
                    assert(wp1[j] <= off[j + 1]);
                    assert(wp1[j] <= wp || wp < off[j]);
                    lemma_subrange_update_outside(rev1, wp as int, parent, off[j], wp1[j] as int);
                }
            }
            if t + 1 < n_b {
                assert(succs[ix[t as int] as int] <= succs[ix[t + 1] as int]);
            }
            assert forall|e: int|
                0 <= e < rev0.len() && (forall|j: int| 0 <= j < n ==> !(wp0[j] <= e < #[trigger] write_pos@[j]))
                    implies #[trigger] rev_edges@[e] == rev0[e] by {
                assert(!(wp0[jx] <= e < write_pos@[jx]));
                assert(wp0[jx] <= wp1[jx]);
                assert(e != wp);
                assert forall|j: int| 0 <= j < n implies !(wp0[j] <= e < #[trigger] wp1[j]) by {
                    assert(!(wp0[j] <= e < write_pos@[j]));
                    if j == jx {
                        assert(wp1[j] <= write_pos@[j]);
                    }
                }
            }
        }
    }
    proof {
        assert(ix.subrange(0, n_b as int) =~= ix);
        let rf = rev_edges@;
        let wf = write_pos@;
        assert forall|j: int, v: u32| 0 <= j < n implies #[trigger] rf.subrange(wp0[j] as int, wf[j] as int).to_multiset().count(v)
            == pairs.to_multiset().count((known@[j], v)) by {
            broadcast use vstd::multiset::group_multiset_axioms;
            assert(rf.subrange(off[j], wf[j] as int).to_multiset().count(v)
                == rev0.subrange(off[j], wp0[j] as int).to_multiset().count(v) + ix.subrange(0, n_b as int).map_values(fp).to_multiset().count(
                (known@[j], v)));
            assert(ix.map_values(fp).to_multiset() == pairs.to_multiset());
            let a = rf.subrange(off[j], wp0[j] as int);
            let b = rf.subrange(wp0[j] as int, wf[j] as int);
            assert(rf.subrange(off[j], wf[j] as int) =~= a + b);
            vstd::seq_lib::lemma_multiset_commutative(a, b);
            assert(off[j + 1] <= off[n as int]);
            assert(a =~= rev0.subrange(off[j], wp0[j] as int)) by {
                assert forall|u: int| 0 <= u < a.len() implies a[u] == rev0.subrange(off[j], wp0[j] as int)[u] by {
                    let e = off[j] + u;
                    assert forall|k: int| 0 <= k < n implies !(wp0[k] <= e < #[trigger] wf[k]) by {
                        if k < j {
                            assert(off[k + 1] <= off[j]);
                        } else if k > j {
                            assert(off[j + 1] <= off[k]);
                        }
                    }
                }
            }
        }
    }
    batch.clear();
}

/// The number of edges into `x` grows with the number of parents considered.
proof fn lemma_edges_into_upto_mono(known: Seq<Pos>, status: Seq<u8>, x: Pos, i: nat, m: nat)
    requires
        i <= m,
    ensures
        edges_into_upto(known, status, x, i) <= edges_into_upto(known, status, x, m),
    decreases m,
{
    if i < m {
        lemma_edges_into_upto_mono(known, status, x, i, (m - 1) as nat);
    }
}

/// Every successor of every position of unknown status is in `known`.
pub open spec fn successors_known(known: Seq<Pos>, status: Seq<u8>) -> bool {
    forall|v: int, s: Pos|
        0 <= v < known.len() && status[v] == STATUS_UNKNOWN && #[trigger] successors(known[v]).contains(s)
            ==> known.contains(s)
}

/// Counts, for every position, the edges into it.
fn count_in_degrees(known: &[Pos], status: &[u8]) -> (in_degree: Vec<u32>)
    requires
        strictly_sorted(known@),
        status@.len() == known@.len(),
        successors_known(known@, status@),
        forall|j: int| 0 <= j < known@.len() ==> edges_into(known@, status@, #[trigger] known@[j]) <= u32::MAX,
    ensures
        in_degree@.len() == known@.len(),
        forall|j: int| 0 <= j < known@.len() ==> #[trigger] in_degree@[j] == edges_into(known@, status@, known@[j]),
{
    let n = known.len();
    let mut in_degree: Vec<u32> = Vec::new();
    for j in 0..n
        invariant
            in_degree@ == Seq::new(j as nat, |k: int| 0u32),
    {
        in_degree.push(0);
        assert(in_degree@ =~= Seq::new((j + 1) as nat, |k: int| 0u32));
    }
    let mut batch: Vec<Pos> = Vec::with_capacity(BATCH_CAP + 64);
    let mut succ_buf: Vec<Pos> = Vec::new();
    assert(batch@.to_multiset() =~= vstd::multiset::Multiset::empty());
    for i in 0..n
        invariant
            strictly_sorted(known@),
            n == known@.len(),
            status@.len() == n,
            successors_known(known@, status@),
            forall|j: int| 0 <= j < n ==> edges_into(known@, status@, #[trigger] known@[j]) <= u32::MAX,
            in_degree@.len() == n,
            forall|t: int| 0 <= t < batch@.len() ==> known@.contains(#[trigger] batch@[t]),
            forall|j: int|
                0 <= j < n ==> #[trigger] in_degree@[j] + batch@.to_multiset().count(known@[j]) == edges_into_upto(
                    known@,
                    status@,
                    known@[j],
                    i as nat,
                ),
    {
        let ghost b0 = batch@;
        if status[i] == STATUS_UNKNOWN {
            succ_buf.clear();
            generate_successors_canonical(known[i], &mut succ_buf);
            assert(succ_buf@ =~= successors(known@[i as int]));
            for k in 0..succ_buf.len()
                invariant
                    batch@ == b0 + succ_buf@.subrange(0, k as int),
            {
                batch.push(succ_buf[k]);
                assert(batch@ =~= b0 + succ_buf@.subrange(0, k + 1));
            }
            proof {
                assert(succ_buf@.subrange(0, succ_buf@.len() as int) =~= succ_buf@);
                vstd::seq_lib::lemma_multiset_commutative(b0, succ_buf@);
                assert forall|t: int| 0 <= t < batch@.len() implies known@.contains(#[trigger] batch@[t]) by {
                    if t >= b0.len() {
                        assert(batch@[t] == succ_buf@[t - b0.len()]);
                        assert(successors(known@[i as int]).contains(batch@[t]));
                    }
                }
            }
        }
        proof {
            assert forall|j: int| 0 <= j < n implies #[trigger] in_degree@[j] + batch@.to_multiset().count(known@[j])
                == edges_into_upto(known@, status@, known@[j], (i + 1) as nat) by {}
            assert forall|j: int| 0 <= j < n implies in_degree@[j] + batch@.to_multiset().count(#[trigger] known@[j]) <= u32::MAX by {
                lemma_edges_into_upto_mono(known@, status@, known@[j], (i + 1) as nat, n as nat);
            }
        }
        if batch.len() >= BATCH_CAP {
            flush_indeg_batch(known, in_degree.as_mut_slice(), &mut batch);
        }
    }
    if batch.len() > 0 {
        flush_indeg_batch(known, in_degree.as_mut_slice(), &mut batch);
    }
    in_degree
}

/// Pairing every value of `s` with `c`: the pair `(x, v)` occurs as often as `x` in `s` if
/// `v` is `c`, and never otherwise.
proof fn lemma_pair_counts(s: Seq<Pos>, c: u32, x: Pos, v: u32)
    ensures
        s.map_values(|y: Pos| (y, c)).to_multiset().count((x, v)) == if v == c {
            s.to_multiset().count(x)
        } else {
            0
        },
    decreases s.len(),
{
    if s.len() == 0 {
        assert(s.map_values(|y: Pos| (y, c)) =~= Seq::<(Pos, u32)>::empty());
        assert(s =~= Seq::<Pos>::empty());
    } else {
        let s1 = s.drop_last();
        lemma_pair_counts(s1, c, x, v);
        assert(s =~= s1.push(s.last()));
        assert(s.map_values(|y: Pos| (y, c)) =~= s1.map_values(|y: Pos| (y, c)).push((s.last(), c)));
    }
}

/// Positions in the offsets never decrease.
proof fn lemma_offsets_monotone(off: Seq<int>, steps: Seq<int>, a: int, b: int)
    requires
        off.len() == steps.len() + 1,
        forall|j: int| 0 <= j < steps.len() ==> #[trigger] off[j + 1] == off[j] + steps[j] && steps[j] >= 0,
        0 <= a <= b <= steps.len(),
    ensures
        off[a] <= off[b],
    decreases b - a,
{
    if a < b {
        lemma_offsets_monotone(off, steps, a, b - 1);
        assert(off[(b - 1) + 1] == off[b - 1] + steps[b - 1]);
    }
}

/// Writes every edge into the segment of its successor: segment `j` of the result receives,
/// for every parent `v`, as many copies of `v` as there are edges from `v` to `known[j]`.
fn fill_reverse_edges(known: &[Pos], status: &[u8], rev_offset: &Vec<EdgeIdx>) -> (rev_edges: Vec<u32>)
    requires
        strictly_sorted(known@),
        status@.len() == known@.len(),
        known@.len() <= u32::MAX,
        successors_known(known@, status@),
        rev_offset@.len() == known@.len() + 1,
        rev_offset@[0] == 0,
        rev_offset@[known@.len() as int] <= usize::MAX,
        forall|j: int|
            0 <= j < known@.len() ==> #[trigger] rev_offset@[j + 1] == rev_offset@[j] + edges_into(known@, status@, known@[j]),
    ensures
        rev_edges@.len() == rev_offset@[known@.len() as int],
        forall|j: int, v: u32|
            0 <= j < known@.len() ==> #[trigger] rev_edges@.subrange(rev_offset@[j] as int, rev_offset@[j + 1] as int).to_multiset().count(v)
                == if (v as int) < known@.len() {
                edge_count(known@, status@, v as int, known@[j])
            } else {
                0
            },
{
    let n = known.len();
    let ghost off = rev_offset@.map_values(|x: u64| x as int);
    let ghost steps = Seq::new(n as nat, |j: int| edges_into(known@, status@, known@[j]) as int);
    proof {
        assert forall|a: int, b: int| 0 <= a <= b <= n implies #[trigger] off[a] <= #[trigger] off[b] by {
            assert forall|j: int| 0 <= j < steps.len() implies #[trigger] off[j + 1] == off[j] + steps[j] && steps[j] >= 0 by {
                assert(rev_offset@[j + 1] == rev_offset@[j] + edges_into(known@, status@, known@[j]));
            }
            lemma_offsets_monotone(off, steps, a, b);
        }
    }
    let total_edges = rev_offset[n] as usize;
    let mut rev_edges: Vec<u32> = Vec::new();
    for e in 0..total_edges
        invariant
            rev_edges@.len() == e,
    {
        rev_edges.push(0);
    }
    let mut write_pos: Vec<EdgeIdx> = Vec::new();
    for j in 0..n
        invariant
            n == known@.len(),
            rev_offset@.len() == n + 1,
            write_pos@ == rev_offset@.subrange(0, j as int),
    {
        write_pos.push(rev_offset[j]);
        assert(write_pos@ =~= rev_offset@.subrange(0, j + 1));
    }
    let mut succ_buf: Vec<Pos> = Vec::new();
    let mut edge_batch = EdgeBatch::new();
    proof {
        assert(edge_batch.pairs() =~= Seq::<(Pos, u32)>::empty());
        assert(edge_batch.succs@.to_multiset() =~= vstd::multiset::Multiset::empty());
        assert(edge_batch.pairs().to_multiset() =~= vstd::multiset::Multiset::empty());
        assert forall|j: int, v: u32| 0 <= j < n implies #[trigger] rev_edges@.subrange(off[j], write_pos@[j] as int).to_multiset().count(v) == 0 by {
            assert(write_pos@[j] == rev_offset@[j]);
            assert(off[j] == rev_offset@[j] as int);
            assert(off[j] <= off[n as int]);
            assert(off[n as int] == rev_offset@[n as int] as int);
            assert(rev_edges@.len() == off[n as int]);
            assert(rev_edges@.subrange(off[j], write_pos@[j] as int) =~= Seq::<u32>::empty());
        }
    }
    for i in 0..n
        invariant
            strictly_sorted(known@),
            n == known@.len(),
            n <= u32::MAX,
            status@.len() == n,
            successors_known(known@, status@),
            off.len() == n + 1,
            off[0] == 0,
            forall|j: int| 0 <= j <= n ==> #[trigger] off[j] == rev_offset@[j] as int,
            forall|a: int, b: int| 0 <= a <= b <= n ==> #[trigger] off[a] <= #[trigger] off[b],
            forall|j: int| 0 <= j < n ==> #[trigger] off[j + 1] == off[j] + edges_into(known@, status@, known@[j]),
            rev_edges@.len() == off[n as int],
            write_pos@.len() == n,
            edge_batch.wf(),
            edge_batch.succs@.len() < BATCH_CAP,
            forall|t: int| 0 <= t < edge_batch.succs@.len() ==> known@.contains(#[trigger] edge_batch.succs@[t]),
            forall|j: int|
                0 <= j < n ==> off[j] <= #[trigger] write_pos@[j] && write_pos@[j] - off[j]
                    + edge_batch.succs@.to_multiset().count(known@[j]) == edges_into_upto(known@, status@, known@[j], i as nat),
            forall|j: int, v: u32|
                0 <= j < n ==> #[trigger] rev_edges@.subrange(off[j], write_pos@[j] as int).to_multiset().count(v)
                    + edge_batch.pairs().to_multiset().count((known@[j], v)) == if (v as int) < i {
                    edge_count(known@, status@, v as int, known@[j])
                } else {
                    0
                },
    {
        let ghost p0 = edge_batch.pairs();
        let ghost s0 = edge_batch.succs@;
        if status[i] == STATUS_UNKNOWN {
            succ_buf.clear();
            generate_successors_canonical(known[i], &mut succ_buf);
            assert(succ_buf@ =~= successors(known@[i as int]));
            proof {
                lemma_successors_len(known@[i as int]);
            }
            let parent = i as u32;
            for k in 0..succ_buf.len()
                invariant
                    edge_batch.wf(),
                    parent == i,
                    succ_buf@.len() <= 165,
                    edge_batch.succs@ == s0 + succ_buf@.subrange(0, k as int),
                    edge_batch.pairs() == p0 + succ_buf@.subrange(0, k as int).map_values(|y: Pos| (y, parent)),
            {
                edge_batch.push(succ_buf[k], parent);
                assert(edge_batch.succs@ =~= s0 + succ_buf@.subrange(0, k + 1));
                assert(succ_buf@.subrange(0, k + 1).map_values(|y: Pos| (y, parent)) =~= succ_buf@.subrange(0, k as int).map_values(|y: Pos| (y, parent)).push((succ_buf@[k as int], parent)));
                assert(edge_batch.pairs() =~= p0 + succ_buf@.subrange(0, k + 1).map_values(|y: Pos| (y, parent)));
            }
            proof {
                let sb = succ_buf@;
                assert(sb.subrange(0, sb.len() as int) =~= sb);
                vstd::seq_lib::lemma_multiset_commutative(s0, sb);
                vstd::seq_lib::lemma_multiset_commutative(p0, sb.map_values(|y: Pos| (y, parent)));
                assert forall|t: int| 0 <= t < edge_batch.succs@.len() implies known@.contains(#[trigger] edge_batch.succs@[t]) by {
                    if t >= s0.len() {
                        assert(edge_batch.succs@[t] == sb[t - s0.len()]);
                        assert(successors(known@[i as int]).contains(edge_batch.succs@[t]));
                    }
                }
                assert forall|j: int, v: u32| 0 <= j < n implies #[trigger] edge_batch.pairs().to_multiset().count((known@[j], v))
                    == p0.to_multiset().count((known@[j], v)) + if v == parent { sb.to_multiset().count(known@[j]) } else { 0 } by {
                    lemma_pair_counts(sb, parent, known@[j], v);
                }
            }
        }
        proof {
            assert forall|j: int, v: u32|
                0 <= j < n implies #[trigger] rev_edges@.subrange(off[j], write_pos@[j] as int).to_multiset().count(v)
                    + edge_batch.pairs().to_multiset().count((known@[j], v)) == if (v as int) < i + 1 {
                    edge_count(known@, status@, v as int, known@[j])
                } else {
                    0
                } by {
                if status@[i as int] != STATUS_UNKNOWN {
                    assert(edge_batch.pairs() == p0);
                }
            }
            assert forall|j: int| 0 <= j < n implies off[j] <= #[trigger] write_pos@[j] && write_pos@[j] - off[j]
                + edge_batch.succs@.to_multiset().count(known@[j]) == edges_into_upto(known@, status@, known@[j], (i + 1) as nat) by {
                if status@[i as int] != STATUS_UNKNOWN {
                    assert(edge_batch.succs@ == s0);
                }
            }
            assert forall|j: int| 0 <= j < n implies write_pos@[j] + edge_batch.succs@.to_multiset().count(#[trigger] known@[j]) <= off[j + 1] by {
                lemma_edges_into_upto_mono(known@, status@, known@[j], (i + 1) as nat, n as nat);
            }
        }
        if edge_batch.len() >= BATCH_CAP {
            flush_edge_batch(known, rev_edges.as_mut_slice(), write_pos.as_mut_slice(), &mut edge_batch, Ghost(off));
            proof {
                assert(edge_batch.pairs() =~= Seq::<(Pos, u32)>::empty());
            }
        }
    }
    if edge_batch.len() > 0 {
        proof {
            assert forall|j: int| 0 <= j < n implies write_pos@[j] + edge_batch.succs@.to_multiset().count(#[trigger] known@[j]) <= off[j + 1] by {}
        }
        flush_edge_batch(known, rev_edges.as_mut_slice(), write_pos.as_mut_slice(), &mut edge_batch, Ghost(off));
    }
    proof {
        assert(edge_batch.succs@.to_multiset() =~= vstd::multiset::Multiset::empty());
        assert(edge_batch.pairs() =~= Seq::<(Pos, u32)>::empty());
        assert forall|j: int, v: u32|
            0 <= j < n implies #[trigger] rev_edges@.subrange(rev_offset@[j] as int, rev_offset@[j + 1] as int).to_multiset().count(v)
                == if (v as int) < n { edge_count(known@, status@, v as int, known@[j]) } else { 0 } by {
            assert(write_pos@[j] == off[j + 1]);
            assert(rev_edges@.subrange(off[j], write_pos@[j] as int).to_multiset().count(v) + edge_batch.pairs().to_multiset().count((known@[j], v))
                == if (v as int) < n { edge_count(known@, status@, v as int, known@[j]) } else { 0 });
        }
    }
    rev_edges
}

/// The number of edges into the first `m` positions of `known`.
pub open spec fn edges_total(known: Seq<Pos>, status: Seq<u8>, m: nat) -> nat
    decreases m,
{
    if m == 0 {
        0
    } else {
        edges_total(known, status, (m - 1) as nat) + edges_into(known, status, known[m - 1])
    }
}

proof fn lemma_edges_total_mono(known: Seq<Pos>, status: Seq<u8>, i: nat, m: nat)
    requires
        i <= m,
    ensures
        edges_total(known, status, i) <= edges_total(known, status, m),
    decreases m,
{
    if i < m {
        lemma_edges_total_mono(known, status, i, (m - 1) as nat);
    }
}

/// The start of each position's segment: the running sum of the in-degrees.
fn prefix_offsets(in_degree: Vec<u32>, Ghost(known): Ghost<Seq<Pos>>, Ghost(status): Ghost<Seq<u8>>) -> (rev_offset: Vec<EdgeIdx>)
    requires
        in_degree@.len() == known.len(),
        in_degree@.len() < usize::MAX,
        forall|j: int| 0 <= j < known.len() ==> #[trigger] in_degree@[j] == edges_into(known, status, known[j]),
        edges_total(known, status, known.len()) <= usize::MAX,
    ensures
        rev_offset@.len() == known.len() + 1,
        forall|j: int| 0 <= j <= known.len() ==> #[trigger] rev_offset@[j] == edges_total(known, status, j as nat),
{
    let n = in_degree.len();
    let mut rev_offset: Vec<EdgeIdx> = Vec::new();
    for j in 0..n + 1
        invariant
            rev_offset@.len() == j,
            forall|k: int| 0 <= k < j ==> #[trigger] rev_offset@[k] == 0,
    {
        rev_offset.push(0);
    }
    for i in 0..n
        invariant
            n == known.len(),
            in_degree@.len() == n,
            forall|j: int| 0 <= j < n ==> #[trigger] in_degree@[j] == edges_into(known, status, known[j]),
            edges_total(known, status, n as nat) <= usize::MAX,
            rev_offset@.len() == n + 1,
            forall|j: int| 0 <= j <= i ==> #[trigger] rev_offset@[j] == edges_total(known, status, j as nat),
    {
        proof {
            lemma_edges_total_mono(known, status, (i + 1) as nat, n as nat);
        }
        rev_offset.set(i + 1, rev_offset[i] + in_degree[i] as EdgeIdx);
    }
    rev_offset
}

/// The reverse graph in compressed form: the parents of position `known[j]` (the positions of
/// unknown status that have it as a successor, each as often as the move count) stand in
/// `rev_edges[rev_offset[j] .. rev_offset[j + 1]]`.
pub fn build_reverse_csr(known: &[Pos], status: &[u8]) -> (res: (Vec<EdgeIdx>, Vec<u32>))
    requires
        strictly_sorted(known@),
        status@.len() == known@.len(),
        known@.len() <= u32::MAX,
        successors_known(known@, status@),
        forall|j: int| 0 <= j < known@.len() ==> edges_into(known@, status@, #[trigger] known@[j]) <= u32::MAX,
        edges_total(known@, status@, known@.len()) <= usize::MAX,
    ensures
        res.0@.len() == known@.len() + 1,
        res.0@[0] == 0,
        res.0@[known@.len() as int] == res.1@.len(),
        forall|j: int|
            0 <= j < known@.len() ==> #[trigger] res.0@[j + 1] == res.0@[j] + edges_into(known@, status@, known@[j]),
        forall|j: int, v: u32|
            0 <= j < known@.len() ==> #[trigger] res.1@.subrange(res.0@[j] as int, res.0@[j + 1] as int).to_multiset().count(v)
                == if (v as int) < known@.len() {
                edge_count(known@, status@, v as int, known@[j])
            } else {
                0
            },
{
    let n = position_count(known);
    let in_degree = count_in_degrees(known, status);
    let rev_offset = prefix_offsets(in_degree, Ghost(known@), Ghost(status@));
    proof {
        assert forall|j: int| 0 <= j < n implies #[trigger] rev_offset@[j + 1] == rev_offset@[j] + edges_into(known@, status@, known@[j]) by {
            assert(rev_offset@[j + 1] == edges_total(known@, status@, (j + 1) as nat));
        }
    }
    let rev_edges = fill_reverse_edges(known, status, &rev_offset);
    (rev_offset, rev_edges)
}

// ---------------------------------------------------------------------------
// Checking that the reverse graph fits its counters.

/// A value occurs in a sequence at most as many times as the sequence is long.
proof fn lemma_count_le_len(s: Seq<Pos>, x: Pos)
    ensures
        s.to_multiset().count(x) <= s.len(),
    decreases s.len(),
{
    if s.len() > 0 {
        lemma_count_le_len(s.drop_last(), x);
        assert(s =~= s.drop_last().push(s.last()));
    } else {
        assert(s.to_multiset() =~= vstd::multiset::Multiset::empty());
    }
}

/// Each position has at most 165 edges into it from each parent.
proof fn lemma_edges_into_upto_bound(known: Seq<Pos>, status: Seq<u8>, x: Pos, i: nat)
    ensures
        edges_into_upto(known, status, x, i) <= 165 * i,
    decreases i,
{
    if i > 0 {
        lemma_edges_into_upto_bound(known, status, x, (i - 1) as nat);
        lemma_count_le_len(successors(known[i - 1]), x);
        lemma_successors_len(known[i - 1]);
    }
}

/// Adds to `counts[j]` the number of times `known[j]` occurs in `batch`, then empties it.
fn flush_wide_batch(known: &[Pos], counts: &mut [u64], batch: &mut Vec<Pos>)
    requires
        strictly_sorted(known@),
        old(counts)@.len() == known@.len(),
        forall|t: int| 0 <= t < old(batch)@.len() ==> known@.contains(#[trigger] old(batch)@[t]),
        forall|j: int|
            0 <= j < known@.len() ==> old(counts)@[j] + old(batch)@.to_multiset().count(#[trigger] known@[j])
                <= u64::MAX,
    ensures
        final(counts)@.len() == known@.len(),
        forall|j: int|
            0 <= j < known@.len() ==> #[trigger] final(counts)@[j] == old(counts)@[j] + old(batch)@.to_multiset().count(
                known@[j],
            ),
        final(batch)@ == Seq::<Pos>::empty(),
{
    let ghost orig = batch@;
    let ghost start = counts@;
    sort_positions(batch);
    let ghost sb = batch@;
    assert forall|u: int| 0 <= u < sb.len() implies known@.contains(#[trigger] sb[u]) by {
        let x = sb[u];
        assert(sb.contains(x));
        assert(orig.to_multiset().count(x) > 0);
        assert(orig.contains(x));
        let t = choose|t: int| 0 <= t < orig.len() && orig[t] == x;
        assert(known@.contains(orig[t]));
    }
    let n = known.len();
    let mut ki: usize = 0;
    let blen = batch.len();
    for t in 0..blen
        invariant
            strictly_sorted(known@),
            n == known@.len(),
            blen == sb.len(),
            batch@ == sb,
            sorted(sb),
            sb.to_multiset() == orig.to_multiset(),
            forall|u: int| 0 <= u < sb.len() ==> known@.contains(#[trigger] sb[u]),
            counts@.len() == n,
            ki <= n,
            t < blen ==> forall|k: int| 0 <= k < ki ==> #[trigger] known@[k] < sb[t as int],
            forall|j: int|
                0 <= j < n ==> #[trigger] counts@[j] == start[j] + sb.subrange(0, t as int).to_multiset().count(
                    known@[j],
                ),
            forall|j: int| 0 <= j < n ==> start[j] + orig.to_multiset().count(#[trigger] known@[j]) <= u64::MAX,
    {
        let s = batch[t];
        assert(sb.contains(s)) by { assert(sb[t as int] == s); }
        assert(known@.contains(s));
        let ghost idx = lemma_index_of(known@, s);
        assert(ki <= idx) by {
            if ki > idx {
                assert(known@[idx] < s);
            }
        }
        while known[ki] < s
            invariant
                strictly_sorted(known@),
                n == known@.len(),
                0 <= idx < n,
                known@[idx] == s,
                ki <= idx,
                forall|k: int| 0 <= k < ki ==> #[trigger] known@[k] < s,
            decreases idx - ki,
        {
            assert(ki != idx);
            ki += 1;
        }
        assert(ki == idx) by {
            if ki < idx {
                assert(known@[ki as int] < known@[idx]);
            }
        }
        proof {
            let pre = sb.subrange(0, t as int);
            assert(sb.subrange(0, t + 1) =~= pre.push(s));
            let rest = sb.subrange(t as int, sb.len() as int);
            assert(sb =~= pre + rest);
            vstd::seq_lib::lemma_multiset_commutative(pre, rest);
            assert(rest.to_multiset().count(s) > 0) by {
                assert(rest[0] == s);
                assert(rest.contains(s));
            }
        }
        counts[ki] = counts[ki] + 1;
        proof {
            if t + 1 < blen {
                assert(s <= sb[t + 1]);
                assert forall|k: int| 0 <= k < ki implies #[trigger] known@[k] < sb[t + 1] by {}
            }
        }
    }
    batch.clear();
    assert(sb.subrange(0, blen as int) =~= sb);
}

/// Counts, in 64 bits, the edges into every position.
fn count_in_degrees_wide(known: &[Pos], status: &[u8]) -> (counts: Vec<u64>)
    requires
        strictly_sorted(known@),
        status@.len() == known@.len(),
        known@.len() <= u32::MAX,
        successors_known(known@, status@),
    ensures
        counts@.len() == known@.len(),
        forall|j: int| 0 <= j < known@.len() ==> #[trigger] counts@[j] == edges_into(known@, status@, known@[j]),
{
    let n = known.len();
    let mut counts: Vec<u64> = Vec::new();
    for j in 0..n
        invariant
            counts@ == Seq::new(j as nat, |k: int| 0u64),
    {
        counts.push(0);
        assert(counts@ =~= Seq::new((j + 1) as nat, |k: int| 0u64));
    }
    let mut batch: Vec<Pos> = Vec::with_capacity(BATCH_CAP + 64);
    let mut succ_buf: Vec<Pos> = Vec::new();
    assert(batch@.to_multiset() =~= vstd::multiset::Multiset::empty());
    for i in 0..n
        invariant
            strictly_sorted(known@),
            n == known@.len(),
            n <= u32::MAX,
            status@.len() == n,
            successors_known(known@, status@),
            counts@.len() == n,
            forall|t: int| 0 <= t < batch@.len() ==> known@.contains(#[trigger] batch@[t]),
            forall|j: int|
                0 <= j < n ==> #[trigger] counts@[j] + batch@.to_multiset().count(known@[j]) == edges_into_upto(
                    known@,
                    status@,
                    known@[j],
                    i as nat,
                ),
    {
        let ghost b0 = batch@;
        if status[i] == STATUS_UNKNOWN {
            succ_buf.clear();
            generate_successors_canonical(known[i], &mut succ_buf);
            assert(succ_buf@ =~= successors(known@[i as int]));
            for k in 0..succ_buf.len()
                invariant
                    batch@ == b0 + succ_buf@.subrange(0, k as int),
            {
                batch.push(succ_buf[k]);
                assert(batch@ =~= b0 + succ_buf@.subrange(0, k + 1));
            }
            proof {
                assert(succ_buf@.subrange(0, succ_buf@.len() as int) =~= succ_buf@);
                vstd::seq_lib::lemma_multiset_commutative(b0, succ_buf@);
                assert forall|t: int| 0 <= t < batch@.len() implies known@.contains(#[trigger] batch@[t]) by {
                    if t >= b0.len() {
                        assert(batch@[t] == succ_buf@[t - b0.len()]);
                        assert(successors(known@[i as int]).contains(batch@[t]));
                    }
                }
            }
        }
        proof {
            assert forall|j: int| 0 <= j < n implies #[trigger] counts@[j] + batch@.to_multiset().count(known@[j])
                == edges_into_upto(known@, status@, known@[j], (i + 1) as nat) by {}
            assert forall|j: int| 0 <= j < n implies counts@[j] + batch@.to_multiset().count(#[trigger] known@[j]) <= u64::MAX by {
                lemma_edges_into_upto_bound(known@, status@, known@[j], (i + 1) as nat);
            }
        }
        if batch.len() >= BATCH_CAP {
            flush_wide_batch(known, counts.as_mut_slice(), &mut batch);
        }
    }
    if batch.len() > 0 {
        proof {
            assert forall|j: int| 0 <= j < n implies counts@[j] + batch@.to_multiset().count(#[trigger] known@[j]) <= u64::MAX by {
                lemma_edges_into_upto_bound(known@, status@, known@[j], n as nat);
            }
        }
        flush_wide_batch(known, counts.as_mut_slice(), &mut batch);
    }
    counts
}

/// Whether the reverse graph's counters can hold it: every in-degree fits in 32 bits and the
/// number of edges in a `usize`.
pub fn reverse_csr_fits(known: &[Pos], status: &[u8]) -> (b: bool)
    requires
        strictly_sorted(known@),
        status@.len() == known@.len(),
        known@.len() <= u32::MAX,
        successors_known(known@, status@),
    ensures
        b == ((forall|j: int| 0 <= j < known@.len() ==> edges_into(known@, status@, #[trigger] known@[j]) <= u32::MAX)
            && edges_total(known@, status@, known@.len()) <= usize::MAX),
{
    let n = known.len();
    let counts = count_in_degrees_wide(known, status);
    let mut total: u64 = 0;
    let mut ok = true;
    let mut too_many = false;
    for j in 0..n
        invariant
            n == known@.len(),
            n <= u32::MAX,
            counts@.len() == n,
            forall|k: int| 0 <= k < n ==> #[trigger] counts@[k] == edges_into(known@, status@, known@[k]),
            !too_many ==> total == edges_total(known@, status@, j as nat) && total <= usize::MAX,
            too_many ==> edges_total(known@, status@, j as nat) > usize::MAX,
            ok == forall|k: int| 0 <= k < j ==> edges_into(known@, status@, #[trigger] known@[k]) <= u32::MAX,
    {
        if counts[j] > u32::MAX as u64 {
            ok = false;
        }
        if !too_many {
            if counts[j] > (usize::MAX as u64) - total {
                too_many = true;
            } else {
                total = total + counts[j];
            }
        }
    }
    proof {
        if too_many {
            lemma_edges_total_mono(known@, status@, n as nat, n as nat);
        }
    }
    ok && !too_many
}

} // verus!
