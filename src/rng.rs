use rand::rngs::StdRng;
use rand::Rng as _;
use rand::SeedableRng as _;
use vstd::prelude::*;

verus! {

#[verifier::external_type_specification]
#[verifier::external_body]
pub struct ExStdRng(StdRng);

/// The value of the last draw `gen_range(0..bounds.last())` made on a `StdRng`
/// seeded with `seed`, after one draw for each earlier entry of `bounds`,
/// in order, with that entry as its exclusive upper bound.
pub uninterp spec fn seeded_draw(seed: u64, bounds: Seq<u64>) -> u64;

/// Where a seeded stream stands: the seed it started from and the exclusive
/// bounds of every draw taken from it so far.
pub struct RngState {
    pub seed: u64,
    pub bounds: Seq<u64>,
}

impl RngState {
    /// The value of the next draw below `bound`.
    pub open spec fn value(self, bound: u64) -> u64 {
        seeded_draw(self.seed, self.bounds.push(bound))
    }

    /// The stream after one more draw below `bound`.
    pub open spec fn advance(self, bound: u64) -> RngState {
        RngState { seed: self.seed, bounds: self.bounds.push(bound) }
    }
}

/// A random stream fixed entirely by its seed. Every draw of the generator
/// goes through `below`, so what the stream yields is a function of the seed
/// and of the bounds drawn so far.
pub struct SeededRng {
    rng: StdRng,
    seed: Ghost<u64>,
    bounds: Ghost<Seq<u64>>,
}

impl View for SeededRng {
    type V = RngState;

    closed spec fn view(&self) -> RngState {
        RngState { seed: self.seed@, bounds: self.bounds@ }
    }
}

/// Relies on rand's `SeedableRng::seed_from_u64` for `StdRng`: a ChaCha12
/// stream whose state is fixed by the seed.
#[verifier::external_body]
fn std_rng_from_seed(seed: u64) -> StdRng {
    StdRng::seed_from_u64(seed)
}

impl SeededRng {
    /// A fresh stream for `seed`, with nothing drawn yet.
    pub fn from_seed(seed: u64) -> (r: SeededRng)
        ensures
            r@ == (RngState { seed, bounds: Seq::empty() }),
    {
        SeededRng { rng: std_rng_from_seed(seed), seed: Ghost(seed), bounds: Ghost(Seq::empty()) }
    }

    /// Relies on rand's `Rng::gen_range` over `u64` on `StdRng`: a value in
    /// `0..bound`, which the algorithm (deterministic, per rand's documentation)
    /// fixes from the seed and the draws made before. It panics on an empty range.
    #[verifier::external_body]
    pub(crate) fn below(&mut self, bound: u64) -> (r: u64)
        requires
            0 < bound,
        ensures
            r < bound,
            r == seeded_draw(old(self)@.seed, old(self)@.bounds.push(bound)),
            final(self)@ == old(self)@.advance(bound),
    {
        self.rng.gen_range(0..bound)
    }
}

} // verus!
