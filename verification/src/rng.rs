use vstd::prelude::*;

verus! {

/// A per-node xorshift pseudo-random generator. Eviction, sampling and
/// walk-target choices draw from it, so each node's choices are uniform over
/// the eligible candidates and independent of insertion order.
pub struct XorShiftRng {
    state: u64,
}

impl XorShiftRng {
    /// A zero state would be a fixed point of the xorshift step, so it is
    /// replaced by an arbitrary nonzero constant.
    pub fn new(seed: u64) -> (r: XorShiftRng) {
        let state: u64 = if seed == 0 {
            0x9e3779b97f4a7c15
        } else {
            seed
        };
        XorShiftRng { state }
    }

    pub fn next_u64(&mut self) -> u64 {
        let mut x = self.state;
        x = x ^ (x << 13);
        x = x ^ (x >> 7);
        x = x ^ (x << 17);
        self.state = x;
        x
    }

    /// A draw in `0 .. bound`.
    pub fn below(&mut self, bound: usize) -> (r: usize)
        requires
            bound > 0,
        ensures
            r < bound,
    {
        let x = self.next_u64();
        let r = x % (bound as u64);
        assert(r < bound as u64);
        r as usize
    }
}

} // verus!
