//! Random draws from a seeded generator.
//!
//! The generator has no input but its seed. What it draws follows from the seed
//! and from what was asked of it before, so each draw has a name over these two.

use rand::rngs::StdRng;
use rand::seq::SliceRandom;
use rand::{Rng, SeedableRng};
use vstd::prelude::*;

verus! {

/// The standard random number generator of rand.
#[verifier::external_type_specification]
#[verifier::external_body]
pub struct ExStdRng(rand::rngs::StdRng);

/// What a generator can be asked for.
pub enum Request {
    /// To shuffle so many items.
    Shuffle { len: nat },
    /// A number of so many bits, from `low` to `high`.
    Range { bits: nat, low: int, high: int },
    /// Whether something of a given chance comes true.
    Ratio { numerator: nat, denominator: nat },
}

/// The seed of a generator, and what was asked of it since.
pub type Past = (u64, Seq<Request>);

/// The past after one more request.
pub open spec fn after(past: Past, request: Request) -> Past {
    (past.0, past.1.push(request))
}

/// A generator, with its past. Only `seeded` makes one, and what draws from it
/// notes the request.
pub struct Draws {
    rng: StdRng,
    past: Ghost<Past>,
}

impl View for Draws {
    type V = Past;

    closed spec fn view(&self) -> Past {
        self.past@
    }
}

/// The order in which a generator seeded with `seed` shuffles `items` after the
/// requests `past`: the result of `SliceRandom::shuffle` of rand.
pub uninterp spec fn shuffled(seed: u64, past: Seq<Request>, items: Seq<u16>) -> Seq<u16>;

/// The number of `bits` bits, from `low` to `high`, that a generator seeded with
/// `seed` draws after the requests `past`: the result of `Rng::gen_range` of rand.
pub uninterp spec fn drawn_number(
    seed: u64,
    past: Seq<Request>,
    bits: nat,
    low: int,
    high: int,
) -> int;

/// Whether a chance of `numerator` in `denominator` comes true with a generator
/// seeded with `seed` after the requests `past`: the result of `Rng::gen_ratio` of
/// rand.
pub uninterp spec fn drawn_chance(
    seed: u64,
    past: Seq<Request>,
    numerator: nat,
    denominator: nat,
) -> bool;

/// A generator that starts from `seed`, by `SeedableRng::seed_from_u64` of rand.
///
/// Trusted of it: the generator depends on the seed alone; nothing was asked of it
/// yet. rand calls this generator deterministic, and may exchange its algorithm in
/// another version: the names below stand for the draws of the version in use.
#[verifier::external_body]
pub(crate) fn seeded(seed: u64) -> (draws: Draws)
    ensures
        draws@ == (seed, Seq::<Request>::empty()),
{
    Draws { rng: StdRng::seed_from_u64(seed), past: Ghost((seed, Seq::empty())) }
}

/// Puts the items in a random order, by `SliceRandom::shuffle` of rand.
///
/// Trusted of it: the items stay the same, and their order follows from the
/// generator's past and the items. It asks the generator for one place for each
/// item, so what it takes from the generator follows from their number.
#[verifier::external_body]
pub(crate) fn shuffle(items: &mut Vec<u16>, draws: &mut Draws)
    ensures
        final(items)@ == shuffled(old(draws)@.0, old(draws)@.1, old(items)@),
        final(items)@.to_multiset() == old(items)@.to_multiset(),
        final(draws)@ == after(old(draws)@, Request::Shuffle { len: old(items)@.len() }),
{
    draws.past = Ghost(after(draws.past@, Request::Shuffle { len: items@.len() }));
    items.shuffle(&mut draws.rng);
}

/// A random number from `low` to `high`, by `Rng::gen_range` of rand.
///
/// Trusted of it: the number lies in that range, and follows from the generator's
/// past, the range and the width of the type. `gen_range` panics on an empty range.
#[verifier::external_body]
pub(crate) fn draw_u8(draws: &mut Draws, low: u8, high: u8) -> (drawn: u8)
    requires
        low <= high,
    ensures
        drawn == drawn_number(old(draws)@.0, old(draws)@.1, 8, low as int, high as int),
        low <= drawn <= high,
        final(draws)@ == after(
            old(draws)@,
            Request::Range { bits: 8, low: low as int, high: high as int },
        ),
{
    draws.past = Ghost(
        after(
            draws.past@,
            Request::Range { bits: 8, low: low as int, high: high as int },
        ),
    );
    draws.rng.gen_range(low..=high)
}

/// A random 32-bit number from `low` to `high`, by `Rng::gen_range` of rand.
///
/// Trusted of it: the number lies in that range, and follows from the generator's
/// past, the range and the width of the type. `gen_range` panics on an empty range.
#[verifier::external_body]
pub(crate) fn draw_i32(draws: &mut Draws, low: i32, high: i32) -> (drawn: i32)
    requires
        low <= high,
    ensures
        drawn == drawn_number(old(draws)@.0, old(draws)@.1, 32, low as int, high as int),
        low <= drawn <= high,
        final(draws)@ == after(
            old(draws)@,
            Request::Range { bits: 32, low: low as int, high: high as int },
        ),
{
    draws.past = Ghost(
        after(
            draws.past@,
            Request::Range { bits: 32, low: low as int, high: high as int },
        ),
    );
    draws.rng.gen_range(low..=high)
}

/// A random size from `low` to `high`, by `Rng::gen_range` of rand.
///
/// Trusted of it: the size lies in that range, and follows from the generator's
/// past, the range and the width of a size. `gen_range` panics on an empty range.
#[verifier::external_body]
pub(crate) fn draw_usize(draws: &mut Draws, low: usize, high: usize) -> (drawn: usize)
    requires
        low <= high,
    ensures
        drawn == drawn_number(
            old(draws)@.0,
            old(draws)@.1,
            usize::BITS as nat,
            low as int,
            high as int,
        ),
        low <= drawn <= high,
        final(draws)@ == after(
            old(draws)@,
            Request::Range { bits: usize::BITS as nat, low: low as int, high: high as int },
        ),
{
    draws.past = Ghost(
        after(
            draws.past@,
            Request::Range { bits: usize::BITS as nat, low: low as int, high: high as int },
        ),
    );
    draws.rng.gen_range(low..=high)
}

/// `true` with a chance of `numerator` in `denominator`, by `Rng::gen_ratio` of
/// rand.
///
/// Trusted of it: what comes out follows from the generator's past and the chance;
/// a chance of one comes true and a chance of zero does not. `gen_ratio` panics
/// where the denominator is zero or smaller than the numerator.
#[verifier::external_body]
pub(crate) fn draw_ratio(draws: &mut Draws, numerator: u32, denominator: u32) -> (drawn: bool)
    requires
        0 < denominator,
        numerator <= denominator,
    ensures
        drawn == drawn_chance(
            old(draws)@.0,
            old(draws)@.1,
            numerator as nat,
            denominator as nat,
        ),
        numerator == denominator ==> drawn,
        numerator == 0 ==> !drawn,
        final(draws)@ == after(
            old(draws)@,
            Request::Ratio { numerator: numerator as nat, denominator: denominator as nat },
        ),
{
    draws.past = Ghost(
        after(
            draws.past@,
            Request::Ratio { numerator: numerator as nat, denominator: denominator as nat },
        ),
    );
    draws.rng.gen_ratio(numerator, denominator)
}

} // verus!
