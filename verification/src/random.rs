//! The random source, and the weighted choice that draws from it.
//!
//! Randomness comes from the `rand` crate and is the one thing in this
//! library that is taken on trust: a draw is only known to stay below its
//! bound. Everything that is done with the number drawn is verified.

use crate::distribution::{chosen, count_of, Distribution};
use crate::symbol::lawful;
use rand::rngs::ThreadRng;
use rand::Rng;
use vstd::prelude::*;

verus! {

/// The thread-local generator of `rand`, opaque to the verifier.
#[verifier::external_type_specification]
#[verifier::external_body]
pub struct ExThreadRng(ThreadRng);

/// `rand::thread_rng` hands out the generator of the current thread. Nothing
/// is claimed of the generator. The first call on a thread seeds it from the
/// system, and panics if the system has no entropy to give.
pub assume_specification[ rand::thread_rng ]() -> (rng: ThreadRng)
;

/// Calls `Rng::gen_range(0, bound)`, which samples from the half-open range
/// and panics on an empty one: the number drawn is below `bound`, and `bound`
/// must be positive. Which number is drawn is left open. The sampler keeps
/// asking the generator for words until it accepts one; nothing is claimed
/// of a generator whose words it never accepts.
#[verifier::external_body]
fn draw_below<R: Rng>(rng: &mut R, bound: usize) -> (r: usize)
    requires
        bound > 0,
    ensures
        r < bound,
{
    rng.gen_range(0, bound)
}

/// Draws a key from `options`, each with a chance in proportion to its count:
/// a number below the total is drawn from `rng`, and the key is the one that
/// [`Distribution::pick`] selects for it.
pub fn weighted_choice<K: Ord + Clone, R: Rng>(rng: &mut R, options: &Distribution<K>) -> (key: K)
    requires
        lawful::<K>(),
        options.wf(),
        options.total_spec() > 0,
    ensures
        exists|r: nat| r < options.total_spec() && key == chosen(options@, r),
        count_of(options@, key) > 0,
{
    let r: usize = draw_below(rng, options.total());
    let key = options.pick(r);
    proof {
        assert(r < options.total_spec() && key == chosen(options@, r as nat));
    }
    key
}

} // verus!
