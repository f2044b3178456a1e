use vstd::prelude::*;
use vstd::multiset::Multiset;
use crate::Pos;
use crate::sorted::{sorted, strictly_sorted};

verus! {

broadcast use vstd::seq_lib::group_to_multiset_ensures;

/// Adds one candidate to the in-memory run of a disk search level and says whether the run is
/// full, that is holds at least `run_cap` positions and must be sorted and written out.
pub fn push_candidate(run: &mut Vec<Pos>, cand: Pos, run_cap: usize) -> (full: bool)
    requires
        old(run)@.len() < usize::MAX,
    ensures
        final(run)@ == old(run)@.push(cand),
        full == (final(run)@.len() >= run_cap),
{
    run.push(cand);
    run.len() >= run_cap
}

/// What one step of merging a level's candidates into the known positions does.
#[derive(Clone, Copy, Debug, PartialEq, Eq, Structural)]
pub enum MergeStep {
    /// Write the current known position to the new known positions and read the next one.
    CopyKnown,
    /// Drop the current candidate: it repeats the candidate before it.
    SkipCandidate,
    /// The candidate is already known: write it once to the new known positions, read the next
    /// known position and drop the candidate.
    KeepKnown,
    /// The candidate is new: write it to the new frontier and to the new known positions, and
    /// drop it.
    AddNew,
    /// Both the known positions and the candidates are used up.
    Finish,
}

/// The step the merge takes, given the current known position, the current candidate and the
/// last candidate taken (each `None` when there is none): a candidate equal to the last one
/// taken is dropped; otherwise the smaller of the two current positions goes first, a known
/// position equal to the candidate is kept once, and a candidate below every remaining known
/// position is new.
pub open spec fn merge_decision(cur_known: Option<Pos>, cand: Option<Pos>, last_cand: Option<Pos>) -> MergeStep {
    match cand {
        None => if cur_known is Some { MergeStep::CopyKnown } else { MergeStep::Finish },
        Some(c) => if last_cand == Some(c) {
            MergeStep::SkipCandidate
        } else {
            match cur_known {
                Some(k) => if k < c {
                    MergeStep::CopyKnown
                } else if k == c {
                    MergeStep::KeepKnown
                } else {
                    MergeStep::AddNew
                },
                None => MergeStep::AddNew,
            }
        },
    }
}

/// Decides the next step of merging a level's candidates into the known positions.
pub fn merge_step(cur_known: Option<Pos>, cand: Option<Pos>, last_cand: Option<Pos>) -> (step: MergeStep)
    ensures
        step == merge_decision(cur_known, cand, last_cand),
{
    match cand {
        None => match cur_known {
            Some(_) => MergeStep::CopyKnown,
            None => MergeStep::Finish,
        },
        Some(c) => {
            let repeat = match last_cand {
                Some(l) => l == c,
                None => false,
            };
            if repeat {
                MergeStep::SkipCandidate
            } else {
                match cur_known {
                    Some(k) => if k < c {
                        MergeStep::CopyKnown
                    } else if k == c {
                        MergeStep::KeepKnown
                    } else {
                        MergeStep::AddNew
                    },
                    None => MergeStep::AddNew,
                }
            }
        },
    }
}

/// The run whose head is smallest, the first such run on a tie (the order in which a min-heap
/// of `(head, run)` pairs pops them); `None` when every run is used up.
pub fn min_head(heads: &[Option<Pos>]) -> (res: Option<usize>)
    ensures
        res is None <==> forall|i: int| 0 <= i < heads@.len() ==> #[trigger] heads@[i] is None,
        res matches Some(m) ==> {
            &&& m < heads@.len()
            &&& heads@[m as int] is Some
            &&& forall|i: int| 0 <= i < heads@.len() && #[trigger] heads@[i] is Some ==> heads@[m as int].unwrap() <= heads@[i].unwrap()
            &&& forall|i: int| 0 <= i < m && #[trigger] heads@[i] is Some ==> heads@[m as int].unwrap() < heads@[i].unwrap()
        },
{
    let mut best: Option<usize> = None;
    for i in 0..heads.len()
        invariant
            best is None <==> forall|t: int| 0 <= t < i ==> #[trigger] heads@[t] is None,
            best matches Some(m) ==> {
                &&& m < i
                &&& heads@[m as int] is Some
                &&& forall|t: int| 0 <= t < i && #[trigger] heads@[t] is Some ==> heads@[m as int].unwrap() <= heads@[t].unwrap()
                &&& forall|t: int| 0 <= t < m && #[trigger] heads@[t] is Some ==> heads@[m as int].unwrap() < heads@[t].unwrap()
            },
    {
        if let Some(v) = heads[i] {
            match best {
                None => {
                    best = Some(i);
                },
                Some(m) => {
                    if let Some(bv) = heads[m] {
                        if v < bv {
                            best = Some(i);
                        }
                    }
                },
            }
        }
    }
    best
}

/// Merges a level's sorted candidates into the known positions one `merge_step` at a time, the
/// way the disk search merges its files: gives the new known positions (the known ones and the
/// candidates, each once, in increasing order) and the new frontier (the candidates that were
/// not known, each once, in increasing order).
pub fn merge_candidates(known: &[Pos], candidates: &[Pos]) -> (res: (Vec<Pos>, Vec<Pos>))
    requires
        strictly_sorted(known@),
        sorted(candidates@),
    ensures
        strictly_sorted(res.0@),
        forall|x: Pos| #[trigger] res.0@.contains(x) <==> (known@.contains(x) || candidates@.contains(x)),
        strictly_sorted(res.1@),
        forall|x: Pos| #[trigger] res.1@.contains(x) <==> (candidates@.contains(x) && !known@.contains(x)),
{
    let mut new_known: Vec<Pos> = Vec::new();
    let mut new_frontier: Vec<Pos> = Vec::new();
    let mut ki: usize = 0;
    let mut ci: usize = 0;
    let mut last: Option<Pos> = None;
    loop
        invariant
            strictly_sorted(known@),
            sorted(candidates@),
            ki <= known@.len(),
            ci <= candidates@.len(),
            strictly_sorted(new_known@),
            strictly_sorted(new_frontier@),
            forall|x: Pos| #[trigger] new_known@.contains(x) <==> (known@.subrange(0, ki as int).contains(x)
                || candidates@.subrange(0, ci as int).contains(x)),
            forall|x: Pos| #[trigger] new_frontier@.contains(x) <==> (candidates@.subrange(0, ci as int).contains(x)
                && !known@.contains(x)),
            last matches Some(v) ==> candidates@.subrange(0, ci as int).contains(v),
            ki < known@.len() ==> forall|t: int| 0 <= t < new_known@.len() ==> #[trigger] new_known@[t] < known@[ki as int],
            ci < candidates@.len() ==> forall|t: int| 0 <= t < new_known@.len() ==> #[trigger] new_known@[t] <= candidates@[ci as int],
            ci < candidates@.len() ==> forall|t: int| 0 <= t < new_known@.len() && #[trigger] new_known@[t] == candidates@[ci as int]
                ==> last == Some(candidates@[ci as int]),
        ensures
            strictly_sorted(new_known@),
            strictly_sorted(new_frontier@),
            forall|x: Pos| #[trigger] new_known@.contains(x) <==> (known@.contains(x) || candidates@.contains(x)),
            forall|x: Pos| #[trigger] new_frontier@.contains(x) <==> (candidates@.contains(x) && !known@.contains(x)),
        decreases known@.len() - ki + candidates@.len() - ci,
    {
        let cur_known = if ki < known.len() { Some(known[ki]) } else { None };
        let cand = if ci < candidates.len() { Some(candidates[ci]) } else { None };
        let ghost nk = new_known@;
        let ghost nf = new_frontier@;
        let ghost ks = known@.subrange(0, ki as int);
        let ghost cs = candidates@.subrange(0, ci as int);
        proof {
            if ki < known@.len() {
                assert(known@.subrange(0, ki + 1) =~= ks.push(known@[ki as int]));
            }
            if ci < candidates@.len() {
                assert(candidates@.subrange(0, ci + 1) =~= cs.push(candidates@[ci as int]));
            }
        }
        match merge_step(cur_known, cand, last) {
            MergeStep::CopyKnown => {
                let k = known[ki];
                new_known.push(k);
                ki += 1;
                proof {
                    let ks2 = known@.subrange(0, ki as int);
                    assert(ks2 == ks.push(k));
                    assert forall|x: Pos| #[trigger] new_known@.contains(x) <==> (ks2.contains(x)
                        || cs.contains(x)) by {
                        if ks2.contains(x) && x != k {
                            let t = choose|t: int| 0 <= t < ks2.len() && ks2[t] == x;
                            assert(ks[t] == x);
                        }
                        if ks.contains(x) {
                            let t = choose|t: int| 0 <= t < ks.len() && ks[t] == x;
                            assert(ks2[t] == x);
                        }
                        if x == k {
                            assert(ks2[ks.len() as int] == x);
                        }
                        if nk.contains(x) {
                            let t = choose|t: int| 0 <= t < nk.len() && nk[t] == x;
                            assert(new_known@[t] == x);
                        }
                        if new_known@.contains(x) && x != k {
                            let t = choose|t: int| 0 <= t < new_known@.len() && new_known@[t] == x;
                            assert(nk[t] == x);
                        }
                        if x == k {
                            assert(new_known@[nk.len() as int] == x);
                        }
                    }
                    if ki < known@.len() {
                        assert(known@[ki - 1] < known@[ki as int]);
                    }
                }
            },
            MergeStep::SkipCandidate => {
                ci += 1;
                proof {
                    let c = candidates@[ci - 1];
                    assert(cs.contains(c));
                    if ci < candidates@.len() {
                        assert(c <= candidates@[ci as int]);
                    }
                }
            },
            MergeStep::KeepKnown => {
                let k = known[ki];
                new_known.push(k);
                ki += 1;
                last = cand;
                ci += 1;
                proof {
                    let c = candidates@[ci - 1];
                    assert(c == k);
                    assert(candidates@.subrange(0, ci as int).contains(c)) by {
                        assert(candidates@.subrange(0, ci as int)[ci - 1] == c);
                    }
                    assert forall|x: Pos| #[trigger] new_known@.contains(x) <==> (known@.subrange(0, ki as int).contains(x)
                        || candidates@.subrange(0, ci as int).contains(x)) by {
                        if nk.contains(x) {
                            let t = choose|t: int| 0 <= t < nk.len() && nk[t] == x;
                            assert(new_known@[t] == x);
                        }
                        if new_known@.contains(x) && x != k {
                            let t = choose|t: int| 0 <= t < new_known@.len() && new_known@[t] == x;
                            assert(nk[t] == x);
                        }
                        if x == k {
                            assert(new_known@[nk.len() as int] == x);
                        }
                    }
                    assert forall|x: Pos| #[trigger] new_frontier@.contains(x) <==> (candidates@.subrange(0, ci as int).contains(x)
                        && !known@.contains(x)) by {
                        assert(known@[ki - 1] == c);
                    }
                    if ki < known@.len() {
                        assert(known@[ki - 1] < known@[ki as int]);
                    }
                    if ci < candidates@.len() {
                        assert(c <= candidates@[ci as int]);
                    }
                }
            },
            MergeStep::AddNew => {
                let c = candidates[ci];
                new_frontier.push(c);
                new_known.push(c);
                last = cand;
                ci += 1;
                proof {
                    assert(candidates@.subrange(0, ci as int).contains(c)) by {
                        assert(candidates@.subrange(0, ci as int)[ci - 1] == c);
                    }
                    assert forall|t: int| 0 <= t < nk.len() implies #[trigger] nk[t] < c by {
                        assert(nk[t] <= c);
                        if nk[t] == c {
                            assert(last == Some(c));
                        }
                    }
                    assert(!known@.contains(c)) by {
                        if known@.contains(c) {
                            let t = choose|t: int| 0 <= t < known@.len() && known@[t] == c;
                            if t < ki {
                                assert(ks[t] == c);
                                assert(nk.contains(c));
                                let u = choose|u: int| 0 <= u < nk.len() && nk[u] == c;
                            } else {
                                assert(known@[ki as int] <= known@[t]);
                            }
                        }
                    }
                    assert forall|x: Pos| #[trigger] new_known@.contains(x) <==> (ks.contains(x)
                        || candidates@.subrange(0, ci as int).contains(x)) by {
                        if nk.contains(x) {
                            let t = choose|t: int| 0 <= t < nk.len() && nk[t] == x;
                            assert(new_known@[t] == x);
                        }
                        if new_known@.contains(x) && x != c {
                            let t = choose|t: int| 0 <= t < new_known@.len() && new_known@[t] == x;
                            assert(nk[t] == x);
                        }
                        if x == c {
                            assert(new_known@[nk.len() as int] == x);
                        }
                    }
                    assert forall|x: Pos| #[trigger] new_frontier@.contains(x) <==> (candidates@.subrange(0, ci as int).contains(x)
                        && !known@.contains(x)) by {
                        if nf.contains(x) {
                            let t = choose|t: int| 0 <= t < nf.len() && nf[t] == x;
                            assert(new_frontier@[t] == x);
                        }
                        if new_frontier@.contains(x) && x != c {
                            let t = choose|t: int| 0 <= t < new_frontier@.len() && new_frontier@[t] == x;
                            assert(nf[t] == x);
                        }
                        if x == c {
                            assert(new_frontier@[nf.len() as int] == x);
                        }
                    }
                    assert forall|t: int| 0 <= t < nf.len() implies #[trigger] nf[t] < c by {
                        assert(nf.contains(nf[t]));
                        assert(nk.contains(nf[t]));
                        let u = choose|u: int| 0 <= u < nk.len() && nk[u] == nf[t];
                    }
                    if ci < candidates@.len() {
                        assert(c <= candidates@[ci as int]);
                    }
                }
            },
            MergeStep::Finish => {
                proof {
                    assert(ks =~= known@);
                    assert(cs =~= candidates@);
                }
                break;
            },
        }
    }
    (new_known, new_frontier)
}

/// How many positions the runs still hold past their read positions `idx`, over the first `n`
/// runs.
spec fn left_in(runs: Seq<Vec<Pos>>, idx: Seq<usize>, n: int) -> int
    decreases n,
{
    if n <= 0 {
        0
    } else {
        left_in(runs, idx, n - 1) + (runs[n - 1]@.len() - idx[n - 1])
    }
}

/// Advancing one run's read position by one leaves one position fewer.
proof fn lemma_left_in_step(runs: Seq<Vec<Pos>>, idx: Seq<usize>, m: int, n: int)
    requires
        0 <= m < idx.len(),
        idx[m] < usize::MAX,
        n <= idx.len(),
    ensures
        left_in(runs, idx.update(m, (idx[m] + 1) as usize), n) == left_in(runs, idx, n) - (if m < n { 1int } else { 0int }),
    decreases n,
{
    if n > 0 {
        lemma_left_in_step(runs, idx, m, n - 1);
    }
}

/// Nothing is left when every run holds at most its read position.
proof fn lemma_left_in_nonneg(runs: Seq<Vec<Pos>>, idx: Seq<usize>, n: int)
    requires
        n <= idx.len(),
        n <= runs.len(),
        forall|r: int| 0 <= r < n ==> #[trigger] idx[r] <= runs[r]@.len(),
    ensures
        left_in(runs, idx, n) >= 0,
    decreases n,
{
    if n > 0 {
        lemma_left_in_nonneg(runs, idx, n - 1);
    }
}

/// The positions of the first `k` runs, each as often as it occurs in them.
pub open spec fn runs_multiset(runs: Seq<Vec<Pos>>, k: int) -> Multiset<Pos>
    decreases k,
{
    if k <= 0 {
        Multiset::empty()
    } else {
        runs_multiset(runs, k - 1).add(runs[k - 1]@.to_multiset())
    }
}

/// The positions the first `k` runs hold before their read positions `idx`.
spec fn taken(runs: Seq<Vec<Pos>>, idx: Seq<usize>, k: int) -> Multiset<Pos>
    decreases k,
{
    if k <= 0 {
        Multiset::empty()
    } else {
        taken(runs, idx, k - 1).add(runs[k - 1]@.subrange(0, idx[k - 1] as int).to_multiset())
    }
}

/// Reading one more position of run `m` takes that position.
proof fn lemma_taken_step(runs: Seq<Vec<Pos>>, idx: Seq<usize>, m: int, k: int)
    requires
        0 <= m < idx.len(),
        m < runs.len(),
        idx[m] < runs[m]@.len(),
        idx[m] < usize::MAX,
        k <= idx.len(),
        k <= runs.len(),
    ensures
        taken(runs, idx.update(m, (idx[m] + 1) as usize), k) == if m < k {
            taken(runs, idx, k).insert(runs[m]@[idx[m] as int])
        } else {
            taken(runs, idx, k)
        },
    decreases k,
{
    broadcast use {vstd::multiset::group_multiset_axioms, vstd::seq_lib::group_to_multiset_ensures};

    if k > 0 {
        lemma_taken_step(runs, idx, m, k - 1);
        let idx2 = idx.update(m, (idx[m] + 1) as usize);
        if k - 1 == m {
            let sub = runs[m]@.subrange(0, idx[m] as int);
            assert(runs[m]@.subrange(0, idx2[m] as int) =~= sub.push(runs[m]@[idx[m] as int]));
            assert(taken(runs, idx2, k) =~= taken(runs, idx, k).insert(runs[m]@[idx[m] as int]));
        } else if m < k - 1 {
            assert(taken(runs, idx2, k) =~= taken(runs, idx, k).insert(runs[m]@[idx[m] as int]));
        }
    }
}

/// Once every run is read to its end, everything is taken.
proof fn lemma_taken_all(runs: Seq<Vec<Pos>>, idx: Seq<usize>, k: int)
    requires
        k <= idx.len(),
        k <= runs.len(),
        forall|r: int| 0 <= r < k ==> #[trigger] idx[r] == runs[r]@.len(),
    ensures
        taken(runs, idx, k) == runs_multiset(runs, k),
    decreases k,
{
    if k > 0 {
        lemma_taken_all(runs, idx, k - 1);
        assert(runs[k - 1]@.subrange(0, idx[k - 1] as int) =~= runs[k - 1]@);
    }
}

/// Nothing is taken before any run is read.
proof fn lemma_taken_none(runs: Seq<Vec<Pos>>, idx: Seq<usize>, k: int)
    requires
        k <= idx.len(),
        k <= runs.len(),
        forall|r: int| 0 <= r < k ==> #[trigger] idx[r] == 0,
    ensures
        taken(runs, idx, k) == Multiset::<Pos>::empty(),
    decreases k,
{
    broadcast use {vstd::multiset::group_multiset_axioms, vstd::seq_lib::group_to_multiset_ensures};

    if k > 0 {
        lemma_taken_none(runs, idx, k - 1);
        vstd::multiset::lemma_multiset_empty_len(runs[k - 1]@.subrange(0, 0).to_multiset());
        assert(runs[k - 1]@.subrange(0, 0) =~= Seq::<Pos>::empty());
        assert(taken(runs, idx, k) =~= Multiset::<Pos>::empty());
    }
}

/// Merges sorted runs into one sorted sequence, taking each time the smallest head
/// (`min_head`) as the disk search's k-way merge does.
pub fn merge_runs(runs: &[Vec<Pos>]) -> (out: Vec<Pos>)
    requires
        forall|r: int| 0 <= r < runs@.len() ==> #[trigger] sorted(runs@[r]@),
    ensures
        sorted(out@),
        out@.to_multiset() == runs_multiset(runs@, runs@.len() as int),
        forall|x: Pos| #[trigger] out@.contains(x) <==> exists|r: int| 0 <= r < runs@.len() && #[trigger] runs@[r]@.contains(x),
{
    let k = runs.len();
    let mut idx: Vec<usize> = Vec::new();
    let mut heads: Vec<Option<Pos>> = Vec::new();
    for r in 0..k
        invariant
            k == runs@.len(),
            idx@.len() == r,
            heads@.len() == r,
            forall|t: int| 0 <= t < r ==> #[trigger] idx@[t] == 0,
            forall|t: int| 0 <= t < r ==> #[trigger] heads@[t] == (if runs@[t]@.len() > 0 { Some(runs@[t]@[0]) } else { None }),
    {
        idx.push(0);
        if runs[r].len() > 0 {
            heads.push(Some(runs[r][0]));
        } else {
            heads.push(None);
        }
    }
    let mut out: Vec<Pos> = Vec::new();
    proof {
        lemma_left_in_nonneg(runs@, idx@, k as int);
        lemma_taken_none(runs@, idx@, k as int);
        vstd::multiset::lemma_multiset_empty_len(out@.to_multiset());
    }
    loop
        invariant
            k == runs@.len(),
            forall|r: int| 0 <= r < k ==> #[trigger] sorted(runs@[r]@),
            idx@.len() == k,
            heads@.len() == k,
            forall|r: int| 0 <= r < k ==> #[trigger] idx@[r] <= runs@[r]@.len(),
            forall|r: int| 0 <= r < k ==> #[trigger] heads@[r] == (if idx@[r] < runs@[r]@.len() { Some(runs@[r]@[idx@[r] as int]) } else { None }),
            sorted(out@),
            out@.len() > 0 ==> forall|r: int, t: int| 0 <= r < k && idx@[r] <= t < runs@[r]@.len() ==> out@.last() <= #[trigger] runs@[r]@[t],
            forall|x: Pos| #[trigger] out@.contains(x) <==> exists|r: int| 0 <= r < k && #[trigger] runs@[r]@.subrange(0, idx@[r] as int).contains(x),
            left_in(runs@, idx@, k as int) >= 0,
            out@.to_multiset() == taken(runs@, idx@, k as int),
        ensures
            sorted(out@),
            out@.to_multiset() == runs_multiset(runs@, k as int),
            forall|x: Pos| #[trigger] out@.contains(x) <==> exists|r: int| 0 <= r < k && #[trigger] runs@[r]@.contains(x),
        decreases left_in(runs@, idx@, k as int),
    {
        match min_head(heads.as_slice()) {
            None => {
                proof {
                    assert forall|r: int| 0 <= r < k implies #[trigger] idx@[r] == runs@[r]@.len() by {
                        assert(heads@[r] is None);
                    }
                    lemma_taken_all(runs@, idx@, k as int);
                    assert forall|r: int| 0 <= r < k implies #[trigger] runs@[r]@.subrange(0, idx@[r] as int) == runs@[r]@ by {
                        assert(heads@[r] is None);
                        assert(runs@[r]@.subrange(0, idx@[r] as int) =~= runs@[r]@);
                    }
                    assert forall|x: Pos| #[trigger] out@.contains(x) <==> exists|r: int| 0 <= r < k && #[trigger] runs@[r]@.contains(x) by {
                        if out@.contains(x) {
                            let r = choose|r: int| 0 <= r < k && #[trigger] runs@[r]@.subrange(0, idx@[r] as int).contains(x);
                            assert(runs@[r]@.contains(x));
                        }
                        if exists|r: int| 0 <= r < k && #[trigger] runs@[r]@.contains(x) {
                            let r = choose|r: int| 0 <= r < k && #[trigger] runs@[r]@.contains(x);
                            assert(runs@[r]@.subrange(0, idx@[r] as int).contains(x));
                        }
                    }
                }
                break;
            },
            Some(m) => {
                let ghost o = out@;
                let ghost old_idx = idx@;
                let ghost old_heads = heads@;
                assert(heads@[m as int] is Some);
                let len_m = runs[m].len();
                assert(idx@[m as int] < len_m);
                let v = runs[m][idx[m]];
                out.push(v);
                let ni = idx[m] + 1;
                idx.set(m, ni);
                if ni < len_m {
                    heads.set(m, Some(runs[m][ni]));
                } else {
                    heads.set(m, None);
                }
                proof {
                    lemma_left_in_step(runs@, old_idx, m as int, k as int);
                    lemma_left_in_nonneg(runs@, idx@, k as int);
                    lemma_taken_step(runs@, old_idx, m as int, k as int);
                    assert(out@ == o.push(v));
                    assert(runs@[m as int]@[old_idx[m as int] as int] == v);
                    assert(out@.to_multiset() =~= o.to_multiset().insert(v));
                    assert(idx@ == old_idx.update(m as int, ni));
                    // v is the smallest of every remaining position.
                    assert forall|r: int, t: int| 0 <= r < k && old_idx[r] <= t < runs@[r]@.len() implies v <= #[trigger] runs@[r]@[t] by {
                        assert(old_heads[r] is Some);
                        assert(sorted(runs@[r]@));
                        assert(runs@[r]@[old_idx[r] as int] <= runs@[r]@[t]);
                    }
                    assert forall|r: int, t: int| 0 <= r < k && idx@[r] <= t < runs@[r]@.len() implies out@.last() <= #[trigger] runs@[r]@[t] by {
                        assert(old_idx[r] <= idx@[r]);
                    }
                    if o.len() > 0 {
                        assert(o.last() <= v);
                    }
                    assert forall|i: int, j: int| 0 <= i <= j < out@.len() implies out@[i] <= out@[j] by {
                        if j == o.len() && i < j {
                            assert(o[i] <= o.last());
                        }
                    }
                    let seg = runs@[m as int]@.subrange(0, ni as int);
                    let old_seg = runs@[m as int]@.subrange(0, old_idx[m as int] as int);
                    assert(seg =~= old_seg.push(v));
                    assert forall|x: Pos| #[trigger] out@.contains(x) <==> exists|r: int| 0 <= r < k && #[trigger] runs@[r]@.subrange(0, idx@[r] as int).contains(x) by {
                        if out@.contains(x) {
                            if x == v {
                                assert(seg[old_seg.len() as int] == x);
                                assert(runs@[m as int]@.subrange(0, idx@[m as int] as int).contains(x));
                            } else {
                                let t = choose|t: int| 0 <= t < out@.len() && out@[t] == x;
                                assert(o[t] == x);
                                assert(o.contains(x));
                                let r = choose|r: int| 0 <= r < k && #[trigger] runs@[r]@.subrange(0, old_idx[r] as int).contains(x);
                                if r == m {
                                    assert(old_seg.contains(x));
                                    let u = choose|u: int| 0 <= u < old_seg.len() && old_seg[u] == x;
                                    assert(seg[u] == x);
                                    assert(runs@[r]@.subrange(0, idx@[r] as int).contains(x));
                                } else {
                                    assert(runs@[r]@.subrange(0, idx@[r] as int).contains(x));
                                }
                            }
                        }
                        if exists|r: int| 0 <= r < k && #[trigger] runs@[r]@.subrange(0, idx@[r] as int).contains(x) {
                            let r = choose|r: int| 0 <= r < k && #[trigger] runs@[r]@.subrange(0, idx@[r] as int).contains(x);
                            if r == m {
                                let u = choose|u: int| 0 <= u < seg.len() && seg[u] == x;
                                if u < old_seg.len() {
                                    assert(old_seg[u] == x);
                                    assert(runs@[r]@.subrange(0, old_idx[r] as int).contains(x));
                                    assert(o.contains(x));
                                    let t = choose|t: int| 0 <= t < o.len() && o[t] == x;
                                    assert(out@[t] == x);
                                } else {
                                    assert(out@[o.len() as int] == x);
                                }
                            } else {
                                assert(runs@[r]@.subrange(0, old_idx[r] as int).contains(x));
                                assert(o.contains(x));
                                let t = choose|t: int| 0 <= t < o.len() && o[t] == x;
                                assert(out@[t] == x);
                            }
                        }
                    }
                }
            },
        }
    }
    out
}

/// Merges one level of the disk search in memory: the sorted runs of candidates are merged by
/// smallest head and then merged into the known positions. Gives the new known positions (the
/// known ones and the candidates, each once, in increasing order) and the new frontier (the
/// candidates that were not known, each once, in increasing order).
pub fn merge_level(known: &[Pos], runs: &[Vec<Pos>]) -> (res: (Vec<Pos>, Vec<Pos>))
    requires
        strictly_sorted(known@),
        forall|r: int| 0 <= r < runs@.len() ==> #[trigger] sorted(runs@[r]@),
    ensures
        strictly_sorted(res.0@),
        forall|x: Pos| #[trigger] res.0@.contains(x) <==> (known@.contains(x)
            || exists|r: int| 0 <= r < runs@.len() && #[trigger] runs@[r]@.contains(x)),
        strictly_sorted(res.1@),
        forall|x: Pos| #[trigger] res.1@.contains(x) <==> (!known@.contains(x)
            && exists|r: int| 0 <= r < runs@.len() && #[trigger] runs@[r]@.contains(x)),
{
    let candidates = merge_runs(runs);
    merge_candidates(known, candidates.as_slice())
}

} // verus!
