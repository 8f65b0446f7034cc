//! Randomness for the tool: drawing sizes and indices, and shuffling the
//! index permutation. The draws come from the `rand` crate behind trusted
//! wrappers; everything stated of them holds of every outcome.

use vstd::prelude::*;

verus! {

#[verifier::external_type_specification]
#[verifier::external_body]
pub struct ExThreadRng(rand::rngs::ThreadRng);

/// Relies on rand::Rng::gen_range over lo..hi: returns a value drawn from
/// that half-open range. It panics only on an empty range, which the
/// precondition rules out.
#[verifier::external_body]
pub(crate) fn random_in_range(rng: &mut rand::rngs::ThreadRng, lo: usize, hi: usize) -> (r: usize)
    requires
        lo < hi,
    ensures
        lo <= r < hi,
{
    rand::Rng::gen_range(rng, lo..hi)
}

/// Relies on rand::seq::SliceRandom::shuffle: reorders the elements in place
/// by swaps, so the length and the multiset of elements are unchanged.
#[verifier::external_body]
pub(crate) fn shuffle(rng: &mut rand::rngs::ThreadRng, v: &mut Vec<usize>)
    ensures
        final(v)@.len() == old(v)@.len(),
        final(v)@.to_multiset() == old(v)@.to_multiset(),
{
    rand::seq::SliceRandom::shuffle(v.as_mut_slice(), rng)
}

/// Draw a uniformly random byte length in `[min, max)` for one generated
/// file.
pub fn random_size(rng: &mut rand::rngs::ThreadRng, min: usize, max: usize) -> (r: usize)
    requires
        min < max,
    ensures
        min <= r < max,
{
    random_in_range(rng, min, max)
}

/// Draw a fresh uniformly random index below `n`.
pub fn random_index(rng: &mut rand::rngs::ThreadRng, n: usize) -> (r: usize)
    requires
        n > 0,
    ensures
        r < n,
{
    random_in_range(rng, 0, n)
}

/// Build the permutation `0, 1, .., n-1` and shuffle it once: the result
/// holds exactly the indices below `n`, each once, in some order.
pub fn shuffled_indexes(rng: &mut rand::rngs::ThreadRng, n: usize) -> (r: Vec<usize>)
    ensures
        r@.len() == n,
        r@.to_multiset() == Seq::new(n as nat, |i: int| i as usize).to_multiset(),
{
    let mut v: Vec<usize> = Vec::new();
    let mut i: usize = 0;
    while i < n
        invariant
            i <= n,
            v@ == Seq::new(i as nat, |k: int| k as usize),
        decreases n - i,
    {
        v.push(i);
        i = i + 1;
        proof {
            assert(v@ =~= Seq::new(i as nat, |k: int| k as usize));
        }
    }
    shuffle(rng, &mut v);
    v
}

} // verus!
