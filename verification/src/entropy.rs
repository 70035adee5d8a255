//! The thread-local random generator.
//!
//! A draw is no function of its arguments, so none of these results has a
//! name: each declaration states what holds of every outcome, and the code
//! that consumes a draw is verified for all of them.

use rand::seq::SliceRandom;
use rand::Rng;
use vstd::prelude::*;

verus! {

/// Trusted: `thread_rng().gen::<u64>()`. Nothing is claimed of the value.
#[verifier::external_body]
pub(crate) fn random_u64() -> (value: u64) {
    rand::thread_rng().gen::<u64>()
}

/// Trusted: `thread_rng().gen_range(0..bound)`.
///
/// Claimed of it: the draw lies in the range. An empty range, on which
/// `gen_range` panics, is excluded.
#[verifier::external_body]
pub(crate) fn random_below(bound: u128) -> (draw: u128)
    requires
        bound > 0,
    ensures
        draw < bound,
{
    rand::thread_rng().gen_range(0..bound)
}

/// Whether `picked` lists the items found at pairwise different positions of
/// `items`.
pub open spec fn drawn_without_repetition(items: Seq<Seq<char>>, picked: Seq<Seq<char>>) -> bool {
    exists|at: Seq<int>|
        #![trigger at.len()]
        at.len() == picked.len() && at.no_duplicates() && forall|i: int|
            0 <= i < at.len() ==> 0 <= #[trigger] at[i] < items.len() && picked[i] == items[at[i]]
}

/// Trusted: `items.choose_multiple(&mut thread_rng(), amount)`, each chosen
/// item cloned.
///
/// Claimed of it: `amount` items come back, or all of them if there are
/// fewer, taken from pairwise different positions of `items`.
#[verifier::external_body]
pub(crate) fn choose_multiple(items: &Vec<String>, amount: usize) -> (picked: Vec<String>)
    ensures
        picked@.len() == if amount <= items@.len() { amount as nat } else { items@.len() },
        drawn_without_repetition(items.deep_view(), picked.deep_view()),
{
    items.choose_multiple(&mut rand::thread_rng(), amount).cloned().collect()
}

} // verus!
