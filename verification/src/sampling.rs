//! Drawing the places of the mines at random.
//!
//! The random choice itself is made by the `rand` crate. What this module
//! takes on trust about it is stated on the items below; the rest is proved.

use vstd::prelude::*;
use rand::rngs::ThreadRng;
use rand::seq::SliceRandom;
use crate::setup::distinct_cells;

verus! {

/// The thread-local random number generator of the `rand` crate. Nothing is
/// known of what it holds.
#[verifier::external_type_specification]
#[verifier::external_body]
pub struct ExThreadRng(ThreadRng);

/// `rand::thread_rng` hands out the generator of the current thread. Nothing
/// is claimed of the generator.
pub assume_specification[ rand::thread_rng ]() -> (rng: ThreadRng);

/// `chosen` holds the candidates found at `places`, which are distinct
/// positions of `candidates`.
pub open spec fn drawn_at(chosen: Seq<usize>, candidates: Seq<usize>, places: Seq<int>) -> bool {
    &&& places.len() == chosen.len()
    &&& places.no_duplicates()
    &&& forall|i: int|
        0 <= i < places.len() ==> 0 <= #[trigger] places[i] < candidates.len() && chosen[i]
            == candidates[places[i]]
}

/// `SliceRandom::choose_multiple` of the `rand` crate, collected into a
/// vector. Trusted: asked for fewer items than there are candidates, it
/// picks that many of them, each from a different position of the slice.
/// Which positions, and in what order, is left to chance. Asking for all the
/// candidates or more is left out: on long slices the call does not accept it.
#[verifier::external_body]
fn choose_multiple(candidates: &Vec<usize>, rng: &mut ThreadRng, amount: usize) -> (chosen: Vec<
    usize,
>)
    requires
        amount < candidates@.len(),
    ensures
        chosen@.len() == amount,
        exists|places: Seq<int>| drawn_at(chosen@, candidates@, places),
{
    candidates.choose_multiple(rng, amount).copied().collect()
}

/// Draws `amount` distinct cell indices below `total` at random. Where
/// `amount` is `total` or more there is nothing to draw: every index below
/// `total` is given, in increasing order.
pub fn draw_mines(total: usize, amount: usize) -> (mines: Vec<usize>)
    ensures
        mines@.len() == if amount <= total {
            amount
        } else {
            total
        },
        distinct_cells(mines@, total as nat),
        amount >= total ==> forall|k: int| 0 <= k < total ==> mines@[k] == k,
{
    let mut candidates: Vec<usize> = Vec::new();
    let mut i: usize = 0;
    while i < total
        invariant
            0 <= i <= total,
            candidates@.len() == i,
            forall|k: int| 0 <= k < i ==> candidates@[k] == k,
        decreases total - i,
    {
        candidates.push(i);
        i += 1;
    }
    if amount >= total {
        return candidates;
    }
    let mut rng = rand::thread_rng();
    let mines = choose_multiple(&candidates, &mut rng, amount);
    proof {
        let places = choose|places: Seq<int>| drawn_at(mines@, candidates@, places);
        assert forall|i: int| 0 <= i < mines@.len() implies (#[trigger] mines@[i]) < total by {
            assert(mines@[i] == candidates@[places[i]]);
        }
        assert forall|i: int, j: int|
            0 <= i < mines@.len() && 0 <= j < mines@.len() && i != j implies mines@[i]
            != mines@[j] by {
            assert(mines@[i] == candidates@[places[i]]);
            assert(mines@[j] == candidates@[places[j]]);
        }
    }
    mines
}

} // verus!
