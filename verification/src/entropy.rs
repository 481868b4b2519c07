//! The source of randomness, and the draws that the engine makes from it.
//!
//! Nothing in this file is proved. Each item states what the `rand` crate
//! does, and the engine's proofs rest on these statements.

use vstd::prelude::*;
use rand::distributions::{IndependentSample, Weighted, WeightedChoice};
use rand::{Rng, StdRng};

verus! {

/// `rand::StdRng`, the generator that is threaded through every operation
/// that needs randomness. Nothing is said of its state.
#[verifier::external_type_specification]
#[verifier::external_body]
pub struct ExStdRng(rand::StdRng);

/// `rand::distributions::Weighted`: an item together with its weight. Both
/// are public fields, and are read and written as such.
#[verifier::external_type_specification]
#[verifier::reject_recursive_types(T)]
pub struct ExWeighted<T>(rand::distributions::Weighted<T>);

/// `rand::distributions::WeightedChoice`: a table of weighted items from
/// which items are drawn in proportion to their weights.
#[verifier::external_type_specification]
#[verifier::external_body]
#[verifier::reject_recursive_types(T)]
pub struct ExWeightedChoice<'a, T: 'a>(rand::distributions::WeightedChoice<'a, T>);

/// The entries that a table was made of, each as its weight and its item,
/// in the order in which they were given.
pub uninterp spec fn table_entries(table: WeightedChoice<'_, usize>) -> Seq<(u32, usize)>;

/// Weighted items as pairs of weight and item.
pub open spec fn entries(items: Seq<Weighted<usize>>) -> Seq<(u32, usize)> {
    Seq::new(items.len(), |i: int| (items[i].weight, items[i].item))
}

/// The sum of the weights of `items`.
pub open spec fn total_weight(items: Seq<(u32, usize)>) -> int
    decreases items.len(),
{
    if items.len() == 0 {
        0
    } else {
        total_weight(items.drop_last()) + items.last().0
    }
}

/// `picked` is the item of an entry whose weight is positive.
pub open spec fn drawable(items: Seq<(u32, usize)>, picked: usize) -> bool {
    exists|k: int| 0 <= k < items.len() && (#[trigger] items[k]).0 > 0 && items[k].1 == picked
}

/// `WeightedChoice::new`: the table over `items`.
///
/// The call panics when there are no items, when all weights are zero and
/// when the weights add up to more than `u32::MAX`; the precondition keeps
/// these away. The table holds the items as they were given. The call
/// overwrites the weights in `items` with running totals; of that nothing
/// is stated, and the engine does not read `items` again.
#[verifier::external_body]
pub(crate) fn weighted_choice<'a>(items: &'a mut Vec<Weighted<usize>>) -> (table: WeightedChoice<
    'a,
    usize,
>)
    requires
        old(items).len() > 0,
        0 < total_weight(entries(old(items)@)) <= u32::MAX,
    ensures
        table_entries(table) == entries(old(items)@),
{
    WeightedChoice::new(items)
}

/// `WeightedChoice::ind_sample`: one draw from the table.
///
/// The call draws a number below the total weight and returns the item
/// whose share of the running totals holds that number. Such an item has a
/// positive weight. Which of these items comes out is left open.
#[verifier::external_body]
pub(crate) fn draw_weighted<'a>(table: &WeightedChoice<'a, usize>, rng: &mut StdRng) -> (picked:
    usize)
    ensures
        drawable(table_entries(*table), picked),
{
    table.ind_sample(rng)
}

/// `Rng::gen_range` from zero: a number below `bound`.
///
/// The call panics when `bound` is zero; the precondition keeps that away.
/// Which number below `bound` comes out is left open.
#[verifier::external_body]
pub(crate) fn draw_below(rng: &mut StdRng, bound: usize) -> (picked: usize)
    requires
        bound > 0,
    ensures
        picked < bound,
{
    rng.gen_range(0, bound)
}

} // verus!
