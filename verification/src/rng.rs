use vstd::prelude::*;

verus! {

/// An injectable source of randomness. Generation and enemy movement draw
/// every random value through this trait, so a caller can supply either real
/// entropy or a seeded deterministic stream.
pub trait RngSource {
    /// A value drawn from `0 .. bound`.
    fn next_below(&mut self, bound: usize) -> (r: usize)
        requires
            bound >= 1,
        ensures
            r < bound,
    ;
}

/// A deterministic xorshift generator, for reproducible map generation and
/// enemy movement.
pub struct SeededRng {
    pub state: u32,
}

impl SeededRng {
    pub fn new(seed: u32) -> (r: SeededRng)
        ensures
            r.state == seed,
    {
        SeededRng { state: seed }
    }
}

impl RngSource for SeededRng {
    fn next_below(&mut self, bound: usize) -> (r: usize) {
        let mut s = self.state;
        if s == 0 {
            s = 0x9E3779B9;
        }
        s = s ^ (s << 13);
        s = s ^ (s >> 17);
        s = s ^ (s << 5);
        self.state = s;
        (s as usize) % bound
    }
}

/// A source backed by the thread-local generator of the `rand` crate.
pub struct ThreadRandom {
    rng: rand::rngs::ThreadRng,
}

#[verifier::external_type_specification]
#[verifier::external_body]
pub struct ExThreadRng(rand::rngs::ThreadRng);

impl ThreadRandom {
    /// Relies on rand::thread_rng: hands back the thread-local generator.
    #[verifier::external_body]
    pub fn new() -> (r: ThreadRandom) {
        ThreadRandom { rng: rand::thread_rng() }
    }

    /// Relies on rand::Rng::gen_range: a uniform value in `0 .. bound`,
    /// which panics only on an empty range.
    #[verifier::external_body]
    fn gen_below(&mut self, bound: usize) -> (r: usize)
        requires
            bound >= 1,
        ensures
            r < bound,
    {
        rand::Rng::gen_range(&mut self.rng, 0..bound)
    }
}

impl RngSource for ThreadRandom {
    fn next_below(&mut self, bound: usize) -> (r: usize) {
        self.gen_below(bound)
    }
}

} // verus!
