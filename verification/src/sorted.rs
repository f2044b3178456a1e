use vstd::prelude::*;
use crate::Pos;

verus! {

broadcast use vstd::seq_lib::group_to_multiset_ensures;

/// The sequence is in non-decreasing order.
pub open spec fn sorted(s: Seq<Pos>) -> bool {
    forall|a: int, b: int| 0 <= a < b < s.len() ==> s[a] <= s[b]
}

/// The sequence is in strictly increasing order (sorted, each value once).
pub open spec fn strictly_sorted(s: Seq<Pos>) -> bool {
    forall|a: int, b: int| 0 <= a < b < s.len() ==> s[a] < s[b]
}

proof fn lemma_sorted_cons(x: Pos, s: Seq<Pos>)
    requires
        sorted(s),
        s.len() > 0 ==> x <= s[0],
    ensures
        sorted(seq![x] + s),
{
    let t = seq![x] + s;
    assert forall|a: int, b: int| 0 <= a < b < t.len() implies t[a] <= t[b] by {
        if a == 0 {
            assert(t[b] == s[b - 1]);
            assert(s[0] <= s[b - 1]);
        } else {
            assert(t[a] == s[a - 1]);
            assert(t[b] == s[b - 1]);
        }
    }
}

/// Sorts positions in increasing order with the standard library's `slice::sort_unstable`.
/// Claimed: the result is sorted and holds the same positions as before, each as often.
#[verifier::external_body]
pub(crate) fn sort_positions(v: &mut Vec<Pos>)
    ensures
        sorted(final(v)@),
        final(v)@.to_multiset() == old(v)@.to_multiset(),
{
    v.sort_unstable();
}

/// Merges the sorted `new_sorted` into the sorted `known`, in place from the back.
pub fn merge_into(known: &mut Vec<Pos>, new_sorted: &[Pos])
    requires
        sorted(old(known)@),
        sorted(new_sorted@),
        old(known)@.len() + new_sorted@.len() <= usize::MAX,
    ensures
        sorted(final(known)@),
        final(known)@.to_multiset() == old(known)@.to_multiset().add(new_sorted@.to_multiset()),
        final(known)@.len() == old(known)@.len() + new_sorted@.len(),
{
    let ghost o = known@;
    let ghost nw = new_sorted@;
    let old_len = known.len();
    known.resize(old_len + new_sorted.len(), 0);
    let ghost total = known@.len();
    let mut i = old_len;
    let mut j = new_sorted.len();
    let mut k = known.len();
    assert(known@.subrange(k as int, total as int) =~= Seq::<Pos>::empty());
    assert(o.subrange(i as int, old_len as int) =~= Seq::<Pos>::empty());
    assert(nw.subrange(j as int, nw.len() as int) =~= Seq::<Pos>::empty());
    while i > 0 && j > 0
        invariant
            o.len() == old_len,
            nw == new_sorted@,
            sorted(o),
            sorted(nw),
            total == old_len + nw.len(),
            known@.len() == total,
            k == i + j,
            i <= old_len,
            j <= nw.len(),
            forall|t: int| 0 <= t < i ==> #[trigger] known@[t] == o[t],
            sorted(known@.subrange(k as int, total as int)),
            known@.subrange(k as int, total as int).to_multiset() == o.subrange(i as int, old_len as int).to_multiset().add(
                nw.subrange(j as int, nw.len() as int).to_multiset(),
            ),
            i > 0 && k < total ==> o[i - 1] <= known@[k as int],
            j > 0 && k < total ==> nw[j - 1] <= known@[k as int],
        decreases i + j,
    {
        let ghost prev = known@;
        k -= 1;
        if known[i - 1] >= new_sorted[j - 1] {
            let x = known[i - 1];
            known.set(k, x);
            proof {
                assert(known@.subrange(k as int, total as int) =~= seq![x] + prev.subrange(k + 1, total as int));
                assert(o.subrange(i - 1, old_len as int) =~= seq![x] + o.subrange(i as int, old_len as int));
                vstd::seq_lib::lemma_multiset_commutative(seq![x], prev.subrange(k + 1, total as int));
                lemma_sorted_cons(x, prev.subrange(k + 1, total as int));
                vstd::seq_lib::lemma_multiset_commutative(seq![x], o.subrange(i as int, old_len as int));
            }
            i -= 1;
        } else {
            let x = new_sorted[j - 1];
            known.set(k, x);
            proof {
                assert(known@.subrange(k as int, total as int) =~= seq![x] + prev.subrange(k + 1, total as int));
                assert(nw.subrange(j - 1, nw.len() as int) =~= seq![x] + nw.subrange(j as int, nw.len() as int));
                vstd::seq_lib::lemma_multiset_commutative(seq![x], prev.subrange(k + 1, total as int));
                lemma_sorted_cons(x, prev.subrange(k + 1, total as int));
                vstd::seq_lib::lemma_multiset_commutative(seq![x], nw.subrange(j as int, nw.len() as int));
            }
            j -= 1;
        }
    }
    while j > 0
        invariant
            o.len() == old_len,
            nw == new_sorted@,
            sorted(o),
            sorted(nw),
            total == old_len + nw.len(),
            known@.len() == total,
            k == i + j,
            i <= old_len,
            j <= nw.len(),
            i == 0 || j == 0,
            forall|t: int| 0 <= t < i ==> #[trigger] known@[t] == o[t],
            sorted(known@.subrange(k as int, total as int)),
            known@.subrange(k as int, total as int).to_multiset() == o.subrange(i as int, old_len as int).to_multiset().add(
                nw.subrange(j as int, nw.len() as int).to_multiset(),
            ),
            i > 0 && k < total ==> o[i - 1] <= known@[k as int],
            j > 0 && k < total ==> nw[j - 1] <= known@[k as int],
        decreases j,
    {
        let ghost prev = known@;
        k -= 1;
        let x = new_sorted[j - 1];
        known.set(k, x);
        proof {
            assert(known@.subrange(k as int, total as int) =~= seq![x] + prev.subrange(k + 1, total as int));
            assert(nw.subrange(j - 1, nw.len() as int) =~= seq![x] + nw.subrange(j as int, nw.len() as int));
            vstd::seq_lib::lemma_multiset_commutative(seq![x], prev.subrange(k + 1, total as int));
            lemma_sorted_cons(x, prev.subrange(k + 1, total as int));
            vstd::seq_lib::lemma_multiset_commutative(seq![x], nw.subrange(j as int, nw.len() as int));
        }
        j -= 1;
    }
    proof {
        let fin = known@;
        let tail = fin.subrange(i as int, total as int);
        assert(fin =~= o.subrange(0, i as int) + tail);
        assert(o =~= o.subrange(0, i as int) + o.subrange(i as int, old_len as int));
        assert(nw.subrange(0, nw.len() as int) =~= nw);
        vstd::seq_lib::lemma_multiset_commutative(o.subrange(0, i as int), tail);
        vstd::seq_lib::lemma_multiset_commutative(o.subrange(0, i as int), o.subrange(i as int, old_len as int));
        assert forall|a: int, b: int| 0 <= a < b < fin.len() implies fin[a] <= fin[b] by {
            if b < i {
            } else if a >= i {
                assert(tail[a - i] <= tail[b - i]);
            } else {
                assert(o[a] <= o[i - 1]);
                assert(tail[0] <= tail[b - i]);
            }
        }
        assert(fin.to_multiset() =~= o.to_multiset().add(nw.to_multiset()));
    }
}

/// The candidates that `known` does not hold, in their order.
pub open spec fn not_in(known: Seq<Pos>, candidates: Seq<Pos>) -> Seq<Pos> {
    candidates.filter(|c: Pos| !known.contains(c))
}

/// Writes to `out` the candidates that `known` does not hold, keeping their order; both
/// inputs sorted.
pub fn diff_sorted(known: &[Pos], candidates: &[Pos], out: &mut Vec<Pos>)
    requires
        sorted(known@),
        sorted(candidates@),
    ensures
        final(out)@ == not_in(known@, candidates@),
{
    out.clear();
    let mut ki: usize = 0;
    let mut ci: usize = 0;
    let ghost pred = |c: Pos| !known@.contains(c);
    assert(candidates@.subrange(0, 0).filter(pred) =~= Seq::<Pos>::empty()) by {
        reveal_with_fuel(Seq::<_>::filter, 1);
    }
    while ci < candidates.len()
        invariant
            sorted(known@),
            sorted(candidates@),
            ci <= candidates@.len(),
            ki <= known@.len(),
            pred == (|c: Pos| !known@.contains(c)),
            ci < candidates@.len() ==> forall|t: int| 0 <= t < ki ==> #[trigger] known@[t] < candidates@[ci as int],
            out@ == candidates@.subrange(0, ci as int).filter(pred),
        decreases candidates@.len() - ci,
    {
        let c = candidates[ci];
        while ki < known.len() && known[ki] < c
            invariant
                ki <= known@.len(),
                forall|t: int| 0 <= t < ki ==> #[trigger] known@[t] < c,
            decreases known@.len() - ki,
        {
            ki += 1;
        }
        let ghost before = out@;
        let absent = ki >= known.len() || known[ki] != c;
        if absent {
            out.push(c);
        }
        proof {
            assert(absent == !known@.contains(c)) by {
                if known@.contains(c) {
                    let t = choose|t: int| 0 <= t < known@.len() && known@[t] == c;
                    if t > ki as int {
                        assert(known@[ki as int] <= known@[t]);
                    }
                }
            }
            let sub = candidates@.subrange(0, ci as int);
            assert(candidates@.subrange(0, ci + 1) =~= sub.push(c));
            assert(sub.push(c).filter(pred) == if pred(c) { sub.filter(pred).push(c) } else { sub.filter(pred) }) by {
                reveal_with_fuel(Seq::<_>::filter, 1);
                assert(sub.push(c).drop_last() =~= sub);
            }
            if ci + 1 < candidates@.len() {
                assert(c <= candidates@[ci + 1]);
            }
        }
        ci += 1;
    }
    assert(candidates@.subrange(0, candidates@.len() as int) =~= candidates@);
}

/// Removes repeated values from a sorted vector, keeping one of each.
pub fn dedup_sorted(v: &mut Vec<Pos>)
    requires
        sorted(old(v)@),
    ensures
        strictly_sorted(final(v)@),
        forall|x: Pos| final(v)@.contains(x) <==> old(v)@.contains(x),
{
    let ghost o = v@;
    let n = v.len();
    let mut w: usize = 0;
    let mut r: usize = 0;
    while r < n
        invariant
            n == o.len(),
            v@.len() == n,
            sorted(o),
            w <= r <= n,
            forall|t: int| r <= t < n ==> #[trigger] v@[t] == o[t],
            strictly_sorted(v@.subrange(0, w as int)),
            forall|x: Pos| v@.subrange(0, w as int).contains(x) <==> o.subrange(0, r as int).contains(x),
            w > 0 ==> v@[w - 1] == o[r - 1],
            w == 0 ==> r == 0,
        decreases n - r,
    {
        let x = v[r];
        let ghost before = v@;
        if w == 0 || v[w - 1] != x {
            v.set(w, x);
            proof {
                let pre = before.subrange(0, w as int);
                assert(v@.subrange(0, w + 1) =~= pre.push(x));
                assert(o.subrange(0, r + 1) =~= o.subrange(0, r as int).push(x));
                if w > 0 {
                    assert(o[r - 1] <= o[r as int]);
                    assert forall|t: int| 0 <= t < w implies #[trigger] pre[t] < x by {
                        if t < w - 1 {
                            assert(pre[t] < pre[w - 1]);
                        }
                    }
                }
                let nv = v@.subrange(0, w + 1);
                assert forall|a: int, b: int| 0 <= a < b < w + 1 implies #[trigger] nv[a] < #[trigger] nv[b] by {
                    if b == w {
                        assert(pre[a] < x);
                    } else {
                        assert(pre[a] < pre[b]);
                    }
                }
                assert forall|y: Pos| #[trigger] v@.subrange(0, w + 1).contains(y) <==> o.subrange(0, r + 1).contains(y) by {
                    broadcast use vstd::seq_lib::lemma_seq_contains_after_push;
                    assert(pre.contains(y) <==> o.subrange(0, r as int).contains(y));
                }
            }
            w += 1;
        } else {
            proof {
                assert forall|y: Pos| #[trigger] v@.subrange(0, w as int).contains(y) <==> o.subrange(0, r + 1).contains(y) by {
                    assert(o.subrange(0, r + 1) =~= o.subrange(0, r as int).push(x));
                    if o.subrange(0, r as int).contains(y) {
                        let t = choose|t: int| 0 <= t < r && o.subrange(0, r as int)[t] == y;
                        assert(o.subrange(0, r + 1)[t] == y);
                    }
                    if y == x {
                        assert(v@.subrange(0, w as int)[w - 1] == y);
                    }
                }
            }
        }
        r += 1;
    }
    v.truncate(w);
    assert(v@ =~= v@.subrange(0, w as int));
    assert(o.subrange(0, n as int) =~= o);
}

/// What `not_in` holds, and that it keeps strict order.
pub proof fn lemma_not_in(known: Seq<Pos>, candidates: Seq<Pos>)
    ensures
        forall|x: Pos| #[trigger] not_in(known, candidates).contains(x) <==> (candidates.contains(x) && !known.contains(x)),
        strictly_sorted(candidates) ==> strictly_sorted(not_in(known, candidates)),
    decreases candidates.len(),
{
    let pred = |c: Pos| !known.contains(c);
    if candidates.len() == 0 {
        assert(not_in(known, candidates) =~= Seq::<Pos>::empty()) by {
            reveal_with_fuel(Seq::<_>::filter, 1);
        }
    } else {
        let init = candidates.drop_last();
        let x = candidates.last();
        lemma_not_in(known, init);
        assert(candidates =~= init.push(x));
        let fi = not_in(known, init);
        assert(not_in(known, candidates) == if pred(x) { fi.push(x) } else { fi }) by {
            reveal_with_fuel(Seq::<_>::filter, 1);
        }
        assert forall|y: Pos| #[trigger] not_in(known, candidates).contains(y) <==> (candidates.contains(y) && !known.contains(y)) by {
            if init.contains(y) {
                let t = choose|t: int| 0 <= t < init.len() && init[t] == y;
                assert(candidates[t] == y);
            }
            if candidates.contains(y) && y != x {
                let t = choose|t: int| 0 <= t < candidates.len() && candidates[t] == y;
                assert(init[t] == y);
            }
            if fi.contains(y) {
                let t = choose|t: int| 0 <= t < fi.len() && fi[t] == y;
                assert(fi.push(x)[t] == y);
            }
            if pred(x) && fi.push(x).contains(y) && y != x {
                let t = choose|t: int| 0 <= t < fi.len() + 1 && fi.push(x)[t] == y;
                assert(fi[t] == y);
            }
            if pred(x) && y == x {
                assert(fi.push(x)[fi.len() as int] == y);
            }
        }
        if strictly_sorted(candidates) {
            assert(strictly_sorted(init));
            if pred(x) {
                let r = fi.push(x);
                assert forall|a: int, b: int| 0 <= a < b < r.len() implies #[trigger] r[a] < #[trigger] r[b] by {
                    if b == fi.len() {
                        assert(fi.contains(fi[a]));
                        assert(init.contains(fi[a]));
                        let t = choose|t: int| 0 <= t < init.len() && init[t] == fi[a];
                        assert(candidates[t] < candidates[candidates.len() - 1]);
                    } else {
                        assert(fi[a] < fi[b]);
                    }
                }
            }
        }
    }
}

/// Two strictly increasing sequences that hold the same values are equal.
pub proof fn lemma_strictly_sorted_same(a: Seq<Pos>, b: Seq<Pos>)
    requires
        strictly_sorted(a),
        strictly_sorted(b),
        forall|x: Pos| #[trigger] a.contains(x) <==> b.contains(x),
    ensures
        a == b,
    decreases a.len(),
{
    if a.len() == 0 {
        if b.len() > 0 {
            assert(b.contains(b[0]));
            assert(a.contains(b[0]));
        }
        assert(a =~= b);
    } else {
        assert(a.contains(a[0]));
        assert(b.contains(a[0]));
        assert(b.contains(b[0]));
        assert(a.contains(b[0]));
        let k = choose|k: int| 0 <= k < b.len() && b[k] == a[0];
        let m = choose|m: int| 0 <= m < a.len() && a[m] == b[0];
        if m > 0 {
            assert(a[0] < a[m]);
        }
        if k > 0 {
            assert(b[0] < b[k]);
        }
        assert(a[0] == b[0]);
        let a2 = a.drop_first();
        let b2 = b.drop_first();
        assert forall|x: Pos| #[trigger] a2.contains(x) <==> b2.contains(x) by {
            if a2.contains(x) {
                let i = choose|i: int| 0 <= i < a2.len() && a2[i] == x;
                assert(a[i + 1] == x);
                assert(a.contains(x));
                let j = choose|j: int| 0 <= j < b.len() && b[j] == x;
                assert(a[0] < a[i + 1]);
                assert(j != 0);
                assert(b2[j - 1] == x);
            }
            if b2.contains(x) {
                let i = choose|i: int| 0 <= i < b2.len() && b2[i] == x;
                assert(b[i + 1] == x);
                assert(b.contains(x));
                assert(a.contains(x));
                let j = choose|j: int| 0 <= j < a.len() && a[j] == x;
                assert(b[0] < b[i + 1]);
                assert(j != 0);
                assert(a2[j - 1] == x);
            }
        }
        lemma_strictly_sorted_same(a2, b2);
        assert(a =~= b) by {
            assert forall|i: int| 0 <= i < a.len() implies a[i] == b[i] by {
                if i > 0 {
                    assert(a[i] == a2[i - 1]);
                    assert(b[i] == b2[i - 1]);
                }
            }
        }
    }
}

/// A sorted sequence in which every value occurs at most once is strictly sorted.
pub proof fn lemma_sorted_unique(s: Seq<Pos>)
    requires
        sorted(s),
        forall|x: Pos| #[trigger] s.to_multiset().count(x) <= 1,
    ensures
        strictly_sorted(s),
{
    assert forall|a: int, b: int| 0 <= a < b < s.len() implies s[a] < s[b] by {
        if s[a] == s[b] {
            let x = s[a];
            let pre = s.subrange(0, b);
            let rest = s.subrange(b, s.len() as int);
            assert(s =~= pre + rest);
            vstd::seq_lib::lemma_multiset_commutative(pre, rest);
            assert(pre.contains(x)) by {
                assert(pre[a] == x);
            }
            assert(rest.contains(x)) by {
                assert(rest[0] == x);
            }
            assert(pre.to_multiset().count(x) > 0);
            assert(rest.to_multiset().count(x) > 0);
            assert(s.to_multiset().count(x) >= 2);
        }
    }
}

/// A strictly sorted sequence holds each value at most once.
pub proof fn lemma_strict_counts(s: Seq<Pos>)
    requires
        strictly_sorted(s),
    ensures
        forall|x: Pos| #[trigger] s.to_multiset().count(x) <= 1,
{
    assert(s.no_duplicates()) by {
        assert forall|a: int, b: int| 0 <= a < s.len() && 0 <= b < s.len() && a != b implies s[a] != s[b] by {
            if a < b {
                assert(s[a] < s[b]);
            } else {
                assert(s[b] < s[a]);
            }
        }
    }
    s.lemma_multiset_has_no_duplicates();
    assert forall|x: Pos| #[trigger] s.to_multiset().count(x) <= 1 by {
        if s.to_multiset().contains(x) {
        }
    }
}

/// Merging two strictly sorted sequences with no value in common gives a strictly sorted
/// sequence that holds exactly the values of both.
pub proof fn lemma_merge_strict(a: Seq<Pos>, b: Seq<Pos>, m: Seq<Pos>)
    requires
        strictly_sorted(a),
        strictly_sorted(b),
        forall|x: Pos| a.contains(x) ==> !b.contains(x),
        sorted(m),
        m.to_multiset() == a.to_multiset().add(b.to_multiset()),
    ensures
        strictly_sorted(m),
        forall|x: Pos| #[trigger] m.contains(x) <==> (a.contains(x) || b.contains(x)),
{
    lemma_strict_counts(a);
    lemma_strict_counts(b);
    assert forall|x: Pos| #[trigger] m.to_multiset().count(x) <= 1 by {
        assert(a.to_multiset().count(x) <= 1);
        assert(b.to_multiset().count(x) <= 1);
        if a.to_multiset().count(x) > 0 {
            assert(a.contains(x));
            assert(!b.contains(x));
        }
    }
    lemma_sorted_unique(m);
    assert forall|x: Pos| #[trigger] m.contains(x) <==> (a.contains(x) || b.contains(x)) by {
        assert(m.contains(x) <==> m.to_multiset().count(x) > 0);
        assert(a.contains(x) <==> a.to_multiset().count(x) > 0);
        assert(b.contains(x) <==> b.to_multiset().count(x) > 0);
    }
}

/// Sorts positions in increasing order and keeps one of each.
pub fn sort_dedup(v: &mut Vec<Pos>)
    ensures
        strictly_sorted(final(v)@),
        forall|x: Pos| #[trigger] final(v)@.contains(x) <==> old(v)@.contains(x),
{
    let ghost given = v@;
    sort_positions(v);
    let ghost sorted_v = v@;
    dedup_sorted(v);
    proof {
        assert forall|x: Pos| #[trigger] v@.contains(x) <==> given.contains(x) by {
            assert(v@.contains(x) <==> sorted_v.contains(x));
            assert(sorted_v.contains(x) <==> sorted_v.to_multiset().count(x) > 0);
            assert(given.contains(x) <==> given.to_multiset().count(x) > 0);
        }
    }
}

/// The length of a slice of positions (the standard library's `slice::len`). Claimed: it is the
/// length of the slice's contents, and at most `isize::MAX / 16`, since the standard library
/// documents that a slice never spans more than `isize::MAX` bytes and a position takes 16.
#[verifier::external_body]
pub(crate) fn position_count(v: &[Pos]) -> (n: usize)
    ensures
        n == v@.len(),
        n <= isize::MAX as usize / 16,
{
    v.len()
}

/// The index of `pos` in the sorted `known`, if it is there (binary search).
pub fn index_of(known: &[Pos], pos: Pos) -> (res: Option<usize>)
    requires
        sorted(known@),
    ensures
        res matches Some(i) ==> i < known@.len() && known@[i as int] == pos,
        res is None ==> !known@.contains(pos),
{
    let mut lo: usize = 0;
    let mut hi: usize = known.len();
    while lo < hi
        invariant
            sorted(known@),
            0 <= lo <= hi <= known@.len(),
            forall|k: int| 0 <= k < lo ==> #[trigger] known@[k] < pos,
            forall|k: int| hi <= k < known@.len() ==> #[trigger] known@[k] > pos,
        decreases hi - lo,
    {
        let mid = lo + (hi - lo) / 2;
        let x = known[mid];
        if x == pos {
            return Some(mid);
        } else if x < pos {
            lo = mid + 1;
            assert forall|k: int| 0 <= k < lo implies #[trigger] known@[k] < pos by {
                if k < mid {
                    assert(known@[k] <= known@[mid as int]);
                }
            }
        } else {
            hi = mid;
            assert forall|k: int| hi <= k < known@.len() implies #[trigger] known@[k] > pos by {
                if k > mid {
                    assert(known@[mid as int] <= known@[k]);
                }
            }
        }
    }
    None
}

/// The candidates that the sorted `known` does not hold, in their order; each candidate is
/// looked up by binary search.
pub fn not_in_by_search(known: &[Pos], candidates: &[Pos]) -> (out: Vec<Pos>)
    requires
        sorted(known@),
    ensures
        out@ == not_in(known@, candidates@),
{
    let mut out: Vec<Pos> = Vec::new();
    let ghost pred = |c: Pos| !known@.contains(c);
    assert(candidates@.subrange(0, 0).filter(pred) =~= Seq::<Pos>::empty()) by {
        reveal_with_fuel(Seq::<_>::filter, 1);
    }
    for ci in 0..candidates.len()
        invariant
            sorted(known@),
            pred == (|c: Pos| !known@.contains(c)),
            out@ == candidates@.subrange(0, ci as int).filter(pred),
    {
        let c = candidates[ci];
        let found = index_of(known, c);
        if found.is_none() {
            out.push(c);
        }
        proof {
            let sub = candidates@.subrange(0, ci as int);
            assert(candidates@.subrange(0, ci + 1) =~= sub.push(c));
            assert(sub.push(c).filter(pred) == if pred(c) { sub.filter(pred).push(c) } else { sub.filter(pred) }) by {
                reveal_with_fuel(Seq::<_>::filter, 1);
                assert(sub.push(c).drop_last() =~= sub);
            }
        }
    }
    assert(candidates@.subrange(0, candidates@.len() as int) =~= candidates@);
    out
}

/// Filtering chunk by chunk and concatenating gives the filter of the whole.
pub proof fn lemma_not_in_flatten(known: Seq<Pos>, chunks: Seq<Seq<Pos>>)
    ensures
        not_in(known, chunks.flatten()) == chunks.map_values(|c: Seq<Pos>| not_in(known, c)).flatten(),
    decreases chunks.len(),
{
    let g = |c: Seq<Pos>| not_in(known, c);
    if chunks.len() == 0 {
        assert(chunks.map_values(g).len() == 0);
        assert(Seq::<Pos>::empty().filter(|c: Pos| !known.contains(c)) =~= Seq::<Pos>::empty()) by {
            reveal_with_fuel(Seq::<_>::filter, 1);
        }
    } else {
        let rest = chunks.drop_first();
        lemma_not_in_flatten(known, rest);
        Seq::filter_distributes_over_add(chunks.first(), rest.flatten(), |c: Pos| !known.contains(c));
        assert(chunks.map_values(g).drop_first() =~= rest.map_values(g));
        assert(chunks.map_values(g).first() == not_in(known, chunks.first()));
    }
}

/// A fresh vector with the same positions.
pub fn copy_positions(v: &Vec<Pos>) -> (r: Vec<Pos>)
    ensures
        r@ == v@,
{
    let mut r: Vec<Pos> = Vec::new();
    for i in 0..v.len()
        invariant
            r@ == v@.subrange(0, i as int),
    {
        r.push(v[i]);
        assert(r@ =~= v@.subrange(0, i + 1));
    }
    assert(v@.subrange(0, v@.len() as int) =~= v@);
    r
}

} // verus!
