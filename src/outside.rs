//! Calls into outside crates, each with the contract relied on.

use vstd::prelude::*;
use crate::graph::Graph;
use crate::model::{motif_count, pair_seq};
use itertools::Itertools;
use rand::rngs::StdRng;
use rand::seq::{IndexedRandom, SliceRandom};
use rayon::iter::{IntoParallelRefIterator, ParallelIterator};

verus! {

/// `picks` holds two entries of `ids` taken from distinct positions.
pub open spec fn two_distinct_picks(ids: Seq<usize>, picks: Seq<usize>) -> bool {
    &&& picks.len() == 2
    &&& exists|i: int, j: int|
        #![trigger ids[i], ids[j]]
        0 <= i < ids.len() && 0 <= j < ids.len() && i != j && picks[0] == ids[i] && picks[1]
            == ids[j]
}

/// rand's seeded generator, carried through the library as an opaque value.
#[verifier::external_type_specification]
#[verifier::external_body]
pub struct ExStdRng(StdRng);

/// Relies on itertools' `Itertools::combinations`: the 2-combinations of
/// `0..n` come out in lexicographic order, each as a vector `[i, j]`.
#[verifier::external_body]
pub(crate) fn all_pairs(n: usize) -> (r: Vec<(usize, usize)>)
    ensures
        r@ == pair_seq(n as nat),
{
    (0..n).combinations(2).map(|c| (c[0], c[1])).collect()
}

/// Relies on rayon's `par_iter`, `filter` and `count`: the number of pairs of
/// the graph's pair list that pass the motif test, evaluated in parallel.
#[verifier::external_body]
pub(crate) fn count_motif_pairs(g: &Graph) -> (r: usize)
    requires
        g.wf(),
    ensures
        r == motif_count(g.adj(), g.node_pairs@),
{
    g.node_pairs.par_iter().filter(|p| g.neighbour_count_fits(p.0, p.1)).count()
}

/// Relies on rand's `SliceRandom::shuffle`: the ids are permuted in place.
#[verifier::external_body]
pub(crate) fn shuffle_ids(ids: &mut Vec<usize>, rng: &mut StdRng)
    ensures
        final(ids)@.to_multiset() == old(ids)@.to_multiset(),
{
    ids.shuffle(rng)
}

/// Relies on rand's `IndexedRandom::choose_multiple`: two elements taken
/// from distinct positions of `ids`.
#[verifier::external_body]
pub(crate) fn choose_two(ids: &Vec<usize>, rng: &mut StdRng) -> (r: Vec<usize>)
    requires
        ids.len() >= 2,
    ensures
        two_distinct_picks(ids@, r@),
{
    ids.choose_multiple(rng, 2).cloned().collect()
}

} // verus!
