use vstd::prelude::*;
use rayon::iter::{IntoParallelIterator, IntoParallelRefIterator, ParallelIterator};
use rayon::slice::{ParallelSlice, ParallelSliceMut};
use crate::{Pos, NUM_SQ};
use crate::layouts::{lion_layout, layouts_with_lion};
use crate::sorted::{sorted, not_in, not_in_by_search};
use crate::search::{all_succs, frontier_successors};
use crate::rules::has_white_lion;
use crate::solve::{initial_status, initial_remaining, classify_position};

verus! {

/// `out` is what gathering successors chunk by chunk gives for some cut of `whole` into
/// consecutive chunks, the chunks' results concatenated in order.
pub open spec fn succs_by_chunks(out: Seq<Pos>, whole: Seq<Pos>) -> bool {
    exists|chunks: Seq<Seq<Pos>>|
        #[trigger] chunks.flatten() == whole && out == chunks.map_values(|c: Seq<Pos>| all_succs(c)).flatten()
}

/// `out` is what filtering out the positions of `known` chunk by chunk gives for some cut of
/// `whole` into consecutive chunks, the chunks' results concatenated in order.
pub open spec fn not_in_by_chunks(out: Seq<Pos>, known: Seq<Pos>, whole: Seq<Pos>) -> bool {
    exists|chunks: Seq<Seq<Pos>>|
        #[trigger] chunks.flatten() == whole && out == chunks.map_values(|c: Seq<Pos>| not_in(known, c)).flatten()
}

/// Sorts positions in increasing order on rayon's thread pool
/// (`ParallelSliceMut::par_sort_unstable`). Claimed: the result is sorted and holds the same
/// positions as before, each as often.
#[verifier::external_body]
pub(crate) fn par_sort_positions(v: &mut Vec<Pos>)
    ensures
        sorted(final(v)@),
        final(v)@.to_multiset() == old(v)@.to_multiset(),
{
    v.par_sort_unstable();
}

/// The successors of the non-terminal positions of `frontier`, gathered on rayon's thread
/// pool: `ParallelSlice::par_chunks` cuts the slice into consecutive chunks, each chunk goes
/// through the verified `frontier_successors`, and `flat_map_iter(..).collect()` concatenates
/// the chunks' results in chunk order. Claimed: exactly that, for some cut of the slice.
#[verifier::external_body]
pub(crate) fn par_successors(frontier: &[Pos]) -> (out: Vec<Pos>)
    requires
        forall|i: int| 0 <= i < frontier@.len() ==> #[trigger] has_white_lion(frontier@[i]),
    ensures
        succs_by_chunks(out@, frontier@),
{
    frontier.par_chunks(8_192).flat_map_iter(|chunk| frontier_successors(chunk).into_iter()).collect()
}

/// The candidates that the sorted `known` does not hold, filtered on rayon's thread pool:
/// `ParallelSlice::par_chunks` cuts `candidates` into consecutive chunks, each chunk goes
/// through the verified `not_in_by_search`, and `flat_map_iter(..).collect()` concatenates the
/// results in chunk order. Claimed: exactly that, for some cut of the slice.
#[verifier::external_body]
pub(crate) fn par_not_in(known: &[Pos], candidates: &[Pos]) -> (out: Vec<Pos>)
    requires
        sorted(known@),
    ensures
        not_in_by_chunks(out@, known@, candidates@),
{
    candidates.par_chunks(65_536).flat_map_iter(|chunk| not_in_by_search(known, chunk).into_iter()).collect()
}

/// The starting status and successor count of every position, computed on rayon's thread
/// pool: `par_iter().map(..)` applies the verified `classify_position` to each position and
/// `unzip` collects the two halves of the results in the positions' order. Claimed: exactly
/// that.
#[verifier::external_body]
pub(crate) fn par_classify(known: &[Pos]) -> (res: (Vec<u8>, Vec<u8>))
    requires
        forall|i: int| 0 <= i < known@.len() ==> #[trigger] has_white_lion(known@[i]),
    ensures
        res.0@.len() == known@.len(),
        res.1@.len() == known@.len(),
        forall|i: int| 0 <= i < known@.len() ==> #[trigger] res.0@[i] == initial_status(known@[i]),
        forall|i: int| 0 <= i < known@.len() ==> #[trigger] res.1@[i] as nat == initial_remaining(known@[i]),
{
    known.par_iter().map(|&pos| classify_position(pos)).unzip()
}

/// `out` is the concatenation, over the board's squares in order, of parts each holding exactly
/// the representatives of the layouts whose Black lion stands on that square.
pub open spec fn layouts_by_lion(out: Seq<Pos>) -> bool {
    exists|parts: Seq<Seq<Pos>>|
        #[trigger] parts.flatten() == out && parts.len() == NUM_SQ && forall|l: int, x: Pos|
            0 <= l < NUM_SQ ==> (#[trigger] parts[l].contains(x) <==> lion_layout(l, x))
}

/// The representatives of all starting layouts, gathered on rayon's thread pool:
/// `into_par_iter` over the squares of Black's lion, the verified `layouts_with_lion` for each,
/// and `flat_map_iter(..).collect()`, which concatenates the results in square order. Claimed:
/// exactly that.
#[verifier::external_body]
pub(crate) fn par_lion_layouts() -> (out: Vec<Pos>)
    ensures
        layouts_by_lion(out@),
{
    (0..NUM_SQ).into_par_iter().flat_map_iter(|lion_sq| layouts_with_lion(lion_sq).into_iter()).collect()
}

} // verus!
