use vstd::prelude::*;
use crate::Pos;
use crate::rules::{lemma_lions_canonical, initial_pos, successors, terminal, has_lions, has_white_lion, is_terminal, generate_successors_canonical, lemma_successors_keep_lions, initial_position, initial_cell};
use crate::encoding::{cell, lemma_pos_ext};
use crate::symmetry::{canonical, canonical_of};
use crate::material::{full_set, lemma_initial_full_set, lemma_reachable_full_set};
use crate::sorted::{strictly_sorted, not_in, sort_positions, dedup_sorted, diff_sorted, merge_into, lemma_not_in, lemma_not_in_flatten, lemma_merge_strict, position_count, copy_positions};
use crate::par::{par_successors, par_sort_positions, par_not_in};

verus! {

broadcast use vstd::seq_lib::group_to_multiset_ensures;

/// `q` is a successor of `p` and `p` is not terminal: a move of the search.
pub open spec fn next_pos(p: Pos, q: Pos) -> bool {
    !terminal(p) && successors(p).contains(q)
}

/// `path` starts at one of `seeds` and each of its positions is followed by a move from it.
pub open spec fn is_path(seeds: Set<Pos>, path: Seq<Pos>) -> bool {
    &&& path.len() > 0
    &&& seeds.contains(path[0])
    &&& forall|i: int| 0 <= i < path.len() - 1 ==> #[trigger] next_pos(path[i], path[i + 1])
}

/// `q` can be reached from `seeds`: some path from a seed ends at `q`.
pub open spec fn reachable(seeds: Set<Pos>, q: Pos) -> bool {
    exists|path: Seq<Pos>| #[trigger] is_path(seeds, path) && path.last() == q
}

/// Every successor of a non-terminal position of `known` is in `known`.
pub open spec fn closed(known: Seq<Pos>) -> bool {
    forall|p: Pos, s: Pos|
        known.contains(p) && !terminal(p) && #[trigger] successors(p).contains(s) ==> known.contains(s)
}

/// Every successor of a non-terminal position of `known` outside `frontier` is in `known`.
pub open spec fn closed_except(known: Seq<Pos>, frontier: Seq<Pos>) -> bool {
    forall|p: Pos, s: Pos|
        known.contains(p) && !frontier.contains(p) && !terminal(p) && #[trigger] successors(p).contains(s)
            ==> known.contains(s)
}

/// Every position of `known` is reachable from `seeds` and has both lions.
pub open spec fn sound(seeds: Set<Pos>, known: Seq<Pos>) -> bool {
    forall|x: Pos| #[trigger] known.contains(x) ==> reachable(seeds, x) && has_lions(x)
}

/// The successors of the non-terminal positions among the first `t` of `f`, in order.
pub open spec fn frontier_succs(f: Seq<Pos>, t: nat) -> Seq<Pos>
    decreases t,
{
    if t == 0 {
        Seq::empty()
    } else {
        frontier_succs(f, (t - 1) as nat) + if terminal(f[t - 1]) {
            Seq::empty()
        } else {
            successors(f[t - 1])
        }
    }
}

proof fn lemma_frontier_succs(f: Seq<Pos>, t: nat, x: Pos)
    requires
        t <= f.len(),
    ensures
        frontier_succs(f, t).contains(x) <==> exists|i: int|
            0 <= i < t && !terminal(f[i]) && #[trigger] successors(f[i]).contains(x),
    decreases t,
{
    if t > 0 {
        lemma_frontier_succs(f, (t - 1) as nat, x);
        let a = frontier_succs(f, (t - 1) as nat);
        let b = if terminal(f[t - 1]) { Seq::<Pos>::empty() } else { successors(f[t - 1]) };
        if (a + b).contains(x) {
            let k = choose|k: int| 0 <= k < (a + b).len() && (a + b)[k] == x;
            if k < a.len() {
                assert(a[k] == x);
            } else {
                assert(b[k - a.len()] == x);
                assert(successors(f[t - 1]).contains(x));
            }
        }
        if exists|i: int| 0 <= i < t && !terminal(f[i]) && #[trigger] successors(f[i]).contains(x) {
            let i = choose|i: int| 0 <= i < t && !terminal(f[i]) && #[trigger] successors(f[i]).contains(x);
            if i < t - 1 {
                let k = choose|k: int| 0 <= k < a.len() && a[k] == x;
                assert((a + b)[k] == x);
            } else {
                let k = choose|k: int| 0 <= k < b.len() && b[k] == x;
                assert((a + b)[a.len() + k] == x);
            }
        }
    }
}

/// The successors of the non-terminal positions of `f`, in order.
pub open spec fn all_succs(f: Seq<Pos>) -> Seq<Pos> {
    frontier_succs(f, f.len())
}

/// The successors gathered from a prefix of `a` do not depend on what follows it.
proof fn lemma_succs_prefix(a: Seq<Pos>, b: Seq<Pos>, t: nat)
    requires
        t <= a.len(),
    ensures
        frontier_succs(a + b, t) == frontier_succs(a, t),
    decreases t,
{
    if t > 0 {
        lemma_succs_prefix(a, b, (t - 1) as nat);
        assert((a + b)[t - 1] == a[t - 1]);
    }
}

/// Gathering successors over a concatenation concatenates the two results.
proof fn lemma_succs_concat(a: Seq<Pos>, b: Seq<Pos>, t: nat)
    requires
        t <= b.len(),
    ensures
        frontier_succs(a + b, a.len() + t) == all_succs(a) + frontier_succs(b, t),
    decreases t,
{
    if t == 0 {
        lemma_succs_prefix(a, b, a.len());
        assert(all_succs(a) + Seq::<Pos>::empty() =~= all_succs(a));
    } else {
        lemma_succs_concat(a, b, (t - 1) as nat);
        assert((a + b)[a.len() + t - 1] == b[t - 1]);
        let step = if terminal(b[t - 1]) { Seq::<Pos>::empty() } else { successors(b[t - 1]) };
        assert((all_succs(a) + frontier_succs(b, (t - 1) as nat)) + step
            =~= all_succs(a) + (frontier_succs(b, (t - 1) as nat) + step));
    }
}

/// Gathering successors chunk by chunk and concatenating gives the successors of the whole.
pub proof fn lemma_succs_flatten(chunks: Seq<Seq<Pos>>)
    ensures
        all_succs(chunks.flatten()) == chunks.map_values(|c: Seq<Pos>| all_succs(c)).flatten(),
    decreases chunks.len(),
{
    let g = |c: Seq<Pos>| all_succs(c);
    if chunks.len() == 0 {
        assert(chunks.map_values(g).len() == 0);
    } else {
        let rest = chunks.drop_first();
        lemma_succs_flatten(rest);
        lemma_succs_concat(chunks.first(), rest.flatten(), rest.flatten().len());
        assert(chunks.map_values(g).drop_first() =~= rest.map_values(g));
        assert(chunks.map_values(g).first() == all_succs(chunks.first()));
    }
}

/// The successors of the non-terminal positions of `frontier`, in order.
pub fn frontier_successors(frontier: &[Pos]) -> (out: Vec<Pos>)
    requires
        forall|i: int| 0 <= i < frontier@.len() ==> #[trigger] has_white_lion(frontier@[i]),
    ensures
        out@ == all_succs(frontier@),
{
    let mut out: Vec<Pos> = Vec::new();
    let n = frontier.len();
    for fi in 0..n
        invariant
            n == frontier@.len(),
            forall|i: int| 0 <= i < frontier@.len() ==> #[trigger] has_white_lion(frontier@[i]),
            out@ == frontier_succs(frontier@, fi as nat),
    {
        let pos = frontier[fi];
        let ghost before = out@;
        if !is_terminal(pos) {
            generate_successors_canonical(pos, &mut out);
        }
        assert(out@ == frontier_succs(frontier@, (fi + 1) as nat)) by {
            if terminal(pos) {
                assert(before + Seq::<Pos>::empty() =~= before);
            }
        }
    }
    out
}

/// A closed set that holds the seeds holds every position on a path from them.
proof fn lemma_closed_path(seeds: Set<Pos>, known: Seq<Pos>, path: Seq<Pos>, i: int)
    requires
        closed(known),
        forall|x: Pos| seeds.contains(x) ==> known.contains(x),
        is_path(seeds, path),
        0 <= i < path.len(),
    ensures
        known.contains(path[i]),
    decreases i,
{
    if i > 0 {
        lemma_closed_path(seeds, known, path, i - 1);
        let j = i - 1;
        assert(next_pos(path[j], path[j + 1]));
        assert(successors(path[j]).contains(path[j + 1]));
    }
}

/// A closed set that holds the seeds holds everything reachable from them.
pub proof fn lemma_closed_complete(seeds: Set<Pos>, known: Seq<Pos>, q: Pos)
    requires
        closed(known),
        forall|x: Pos| seeds.contains(x) ==> known.contains(x),
        reachable(seeds, q),
    ensures
        known.contains(q),
{
    let path = choose|path: Seq<Pos>| #[trigger] is_path(seeds, path) && path.last() == q;
    lemma_closed_path(seeds, known, path, path.len() - 1);
}

/// A path extended by a move is a path.
proof fn lemma_path_extend(seeds: Set<Pos>, path: Seq<Pos>, x: Pos)
    requires
        is_path(seeds, path),
        next_pos(path.last(), x),
    ensures
        is_path(seeds, path.push(x)),
{
    let np = path.push(x);
    assert forall|i: int| 0 <= i < np.len() - 1 implies #[trigger] next_pos(np[i], np[i + 1]) by {
        if i < path.len() - 1 {
            assert(np[i] == path[i] && np[i + 1] == path[i + 1]);
        }
    }
}

/// Grows `known` level by level from `frontier` until no new position appears; with
/// `parallel`, each level's successors, sort and filter run on rayon's thread pool.
fn expand(known: &mut Vec<Pos>, frontier: &mut Vec<Pos>, parallel: bool, Ghost(seeds): Ghost<Set<Pos>>)
    requires
        strictly_sorted(old(known)@),
        strictly_sorted(old(frontier)@),
        forall|x: Pos| #[trigger] old(frontier)@.contains(x) ==> old(known)@.contains(x),
        sound(seeds, old(known)@),
        closed_except(old(known)@, old(frontier)@),
    ensures
        strictly_sorted(final(known)@),
        sound(seeds, final(known)@),
        closed(final(known)@),
        forall|x: Pos| #[trigger] old(known)@.contains(x) ==> final(known)@.contains(x),
{
    let ghost start = known@;
    loop
        invariant
            strictly_sorted(known@),
            strictly_sorted(frontier@),
            forall|x: Pos| #[trigger] frontier@.contains(x) ==> known@.contains(x),
            sound(seeds, known@),
            closed_except(known@, frontier@),
            forall|x: Pos| #[trigger] start.contains(x) ==> known@.contains(x),
        ensures
            strictly_sorted(known@),
            sound(seeds, known@),
            closed(known@),
            forall|x: Pos| #[trigger] start.contains(x) ==> known@.contains(x),
        decreases usize::MAX - known@.len(),
    {
        let n_front = frontier.len();
        assert forall|i: int| 0 <= i < frontier@.len() implies #[trigger] has_white_lion(frontier@[i]) by {
            assert(frontier@.contains(frontier@[i]));
            assert(has_lions(frontier@[i]));
        }
        let mut raw_succs = if parallel {
            par_successors(frontier.as_slice())
        } else {
            frontier_successors(frontier.as_slice())
        };
        proof {
            if parallel {
                let chunks = choose|chunks: Seq<Seq<Pos>>|
                    #[trigger] chunks.flatten() == frontier@ && raw_succs@ == chunks.map_values(|c: Seq<Pos>| all_succs(c)).flatten();
                lemma_succs_flatten(chunks);
            }
        }
        let ghost found = raw_succs@;
        if raw_succs.len() == 0 {
            proof {
                assert forall|p: Pos, s: Pos|
                    known@.contains(p) && !terminal(p) && #[trigger] successors(p).contains(s)
                        implies known@.contains(s) by {
                    if frontier@.contains(p) {
                        let i = choose|i: int| 0 <= i < frontier@.len() && frontier@[i] == p;
                        lemma_frontier_succs(frontier@, n_front as nat, s);
                    }
                }
            }
            break;
        }
        if parallel {
            par_sort_positions(&mut raw_succs);
        } else {
            sort_positions(&mut raw_succs);
        }
        let ghost sorted_found = raw_succs@;
        dedup_sorted(&mut raw_succs);
        let ghost raw = raw_succs@;
        assert forall|x: Pos| #[trigger] raw.contains(x) <==> found.contains(x) by {
            assert(raw.contains(x) <==> sorted_found.contains(x));
            assert(sorted_found.contains(x) <==> sorted_found.to_multiset().count(x) > 0);
            assert(found.contains(x) <==> found.to_multiset().count(x) > 0);
        }
        let mut new_positions: Vec<Pos> = Vec::new();
        if parallel {
            new_positions = par_not_in(known.as_slice(), raw_succs.as_slice());
            proof {
                let chunks = choose|chunks: Seq<Seq<Pos>>|
                    #[trigger] chunks.flatten() == raw && new_positions@ == chunks.map_values(|c: Seq<Pos>| not_in(known@, c)).flatten();
                lemma_not_in_flatten(known@, chunks);
            }
        } else {
            diff_sorted(known.as_slice(), raw_succs.as_slice(), &mut new_positions);
        }
        proof {
            lemma_not_in(known@, raw);
        }
        let ghost fresh = new_positions@;
        if new_positions.len() == 0 {
            proof {
                assert forall|p: Pos, s: Pos|
                    known@.contains(p) && !terminal(p) && #[trigger] successors(p).contains(s)
                        implies known@.contains(s) by {
                    if frontier@.contains(p) {
                        let i = choose|i: int| 0 <= i < frontier@.len() && frontier@[i] == p;
                        lemma_frontier_succs(frontier@, n_front as nat, s);
                        assert(raw.contains(s));
                        if !known@.contains(s) {
                            assert(fresh.contains(s));
                        }
                    }
                }
            }
            break;
        }
        let ghost old_known = known@;
        let kl = position_count(known.as_slice());
        let nl = position_count(new_positions.as_slice());
        merge_into(known, new_positions.as_slice());
        proof {
            lemma_merge_strict(old_known, fresh, known@);
            assert forall|x: Pos| #[trigger] known@.contains(x) implies reachable(seeds, x) && has_lions(x) by {
                if fresh.contains(x) {
                    lemma_frontier_succs(frontier@, n_front as nat, x);
                    let i = choose|i: int| 0 <= i < n_front && !terminal(frontier@[i]) && #[trigger] successors(frontier@[i]).contains(x);
                    let p = frontier@[i];
                    assert(frontier@.contains(p));
                    assert(reachable(seeds, p));
                    let path = choose|path: Seq<Pos>| #[trigger] is_path(seeds, path) && path.last() == p;
                    assert(next_pos(p, x));
                    lemma_path_extend(seeds, path, x);
                    assert(path.push(x).last() == x);
                    lemma_successors_keep_lions(p, x);
                } else {
                    assert(old_known.contains(x));
                }
            }
            assert forall|p: Pos, s: Pos|
                known@.contains(p) && !fresh.contains(p) && !terminal(p) && #[trigger] successors(p).contains(s)
                    implies known@.contains(s) by {
                assert(old_known.contains(p));
                if frontier@.contains(p) {
                    let i = choose|i: int| 0 <= i < frontier@.len() && frontier@[i] == p;
                    lemma_frontier_succs(frontier@, n_front as nat, s);
                    assert(raw.contains(s));
                } else {
                    assert(old_known.contains(s));
                }
            }
            assert forall|x: Pos| #[trigger] fresh.contains(x) implies known@.contains(x) by {}
        }
        std::mem::swap(frontier, &mut new_positions);
    }
}

/// Every position reachable from the starting position's representative, in increasing order
/// (breadth-first search with sort-merge de-duplication). Each holds the full set of pieces.
pub fn bfs() -> (known: Vec<Pos>)
    ensures
        strictly_sorted(known@),
        closed(known@),
        forall|i: int| 0 <= i < known@.len() ==> #[trigger] has_lions(known@[i]),
        forall|q: Pos| #[trigger] known@.contains(q) <==> reachable(set![canonical_of(initial_pos())], q),
        forall|i: int| 0 <= i < known@.len() ==> #[trigger] full_set(known@[i]),
{
    let start = initial_position();
    let init = canonical(start);
    proof {
        lemma_initial_full_set(start);
    }
    let ghost seeds = set![init];
    let mut known: Vec<Pos> = Vec::new();
    known.push(init);
    let mut frontier: Vec<Pos> = Vec::new();
    frontier.push(init);
    proof {
        lemma_lions_canonical(initial_pos());
        assert(is_path(seeds, seq![init]));
        assert(seq![init].last() == init);
        assert(known@ =~= seq![init]);
        assert forall|x: Pos| #[trigger] known@.contains(x) implies reachable(seeds, x) && has_lions(x) by {
            assert(known@[0] == init);
        }
    }
    expand(&mut known, &mut frontier, false, Ghost(seeds));
    proof {
        assert forall|q: Pos| #[trigger] known@.contains(q) <==> reachable(seeds, q) by {
            if reachable(seeds, q) {
                assert(seq![init].contains(init)) by { assert(seq![init][0] == init); }
                lemma_closed_complete(seeds, known@, q);
            }
        }
        assert forall|i: int| 0 <= i < known@.len() implies #[trigger] has_lions(known@[i]) by {
            assert(known@.contains(known@[i]));
        }
        assert forall|i: int| 0 <= i < known@.len() implies #[trigger] full_set(known@[i]) by {
            assert(known@.contains(known@[i]));
            assert forall|x: Pos| seeds.contains(x) implies full_set(x) by {}
            lemma_reachable_full_set(seeds, known@[i]);
        }
    }
    known
}

/// Every position reachable from `seeds`, in increasing order, searched on rayon's thread pool.
/// Each seed must have both lions; when every seed holds the full set of pieces, so does every
/// position found.
pub fn bfs_from_seeds(seeds: Vec<Pos>) -> (known: Vec<Pos>)
    requires
        forall|i: int| 0 <= i < seeds@.len() ==> #[trigger] has_lions(seeds@[i]),
    ensures
        strictly_sorted(known@),
        closed(known@),
        forall|i: int| 0 <= i < known@.len() ==> #[trigger] has_lions(known@[i]),
        forall|q: Pos| #[trigger] known@.contains(q) <==> reachable(seeds@.to_set(), q),
        (forall|i: int| 0 <= i < seeds@.len() ==> #[trigger] full_set(seeds@[i])) ==> forall|i: int|
            0 <= i < known@.len() ==> #[trigger] full_set(known@[i]),
{
    let ghost seed_set = seeds@.to_set();
    let mut known = seeds;
    let ghost given = known@;
    par_sort_positions(&mut known);
    let ghost sorted_seeds = known@;
    dedup_sorted(&mut known);
    let mut frontier = copy_positions(&known);
    proof {
        assert forall|x: Pos| #[trigger] known@.contains(x) <==> given.contains(x) by {
            assert(known@.contains(x) <==> sorted_seeds.contains(x));
            assert(sorted_seeds.contains(x) <==> sorted_seeds.to_multiset().count(x) > 0);
            assert(given.contains(x) <==> given.to_multiset().count(x) > 0);
        }
        assert forall|x: Pos| #[trigger] known@.contains(x) implies reachable(seed_set, x) && has_lions(x) by {
            assert(given.contains(x));
            let i = choose|i: int| 0 <= i < given.len() && given[i] == x;
            assert(has_lions(given[i]));
            assert(seed_set.contains(x));
            assert(is_path(seed_set, seq![x]));
            assert(seq![x].last() == x);
        }
    }
    let ghost pre = known@;
    expand(&mut known, &mut frontier, true, Ghost(seed_set));
    proof {
        assert forall|q: Pos| #[trigger] known@.contains(q) <==> reachable(seed_set, q) by {
            if reachable(seed_set, q) {
                assert forall|x: Pos| seed_set.contains(x) implies known@.contains(x) by {
                    assert(given.contains(x));
                    assert(pre.contains(x));
                }
                lemma_closed_complete(seed_set, known@, q);
            }
        }
        assert forall|i: int| 0 <= i < known@.len() implies #[trigger] has_lions(known@[i]) by {
            assert(known@.contains(known@[i]));
        }
        if forall|i: int| 0 <= i < given.len() ==> #[trigger] full_set(given[i]) {
            assert forall|x: Pos| seed_set.contains(x) implies full_set(x) by {
                let j = choose|j: int| 0 <= j < given.len() && given[j] == x;
                assert(full_set(given[j]));
            }
            assert forall|i: int| 0 <= i < known@.len() implies #[trigger] full_set(known@[i]) by {
                assert(known@.contains(known@[i]));
                lemma_reachable_full_set(seed_set, known@[i]);
            }
        }
    }
    known
}

} // verus!
