//! A deterministic xorshift-128 random number generator.
use vstd::prelude::*;

verus! {

/// State words of the generator.
pub type XorState = (u32, u32, u32, u32);

/// One step of the recurrence.
pub open spec fn xor_step(s: XorState) -> XorState {
    let t = s.0 ^ (s.0 << 11u32);
    (s.1, s.2, s.3, (s.3 ^ (s.3 >> 19u32)) ^ (t ^ (t >> 8u32)))
}

/// `n` steps of the recurrence.
pub open spec fn xor_steps(s: XorState, n: nat) -> XorState
    decreases n,
{
    if n == 0 {
        s
    } else {
        xor_step(xor_steps(s, (n - 1) as nat))
    }
}

/// The state right after seeding, before the warm-up steps.
pub open spec fn seeded(seed: u32) -> XorState {
    (123456789u32, 987654321u32, 1000000007u32, seed)
}

/// The value drawn on reaching state `s`: its last word without the top bit.
pub open spec fn drawn(s: XorState) -> u32 {
    s.3 & 0x7FFFFFFFu32
}

/// Stateful random number generator by the xorshift algorithm.
pub struct Xor128 {
    x: u32,
    y: u32,
    z: u32,
    w: u32,
}

impl View for Xor128 {
    type V = XorState;

    closed spec fn view(&self) -> XorState {
        (self.x, self.y, self.z, self.w)
    }
}

impl Xor128 {
    /// A generator seeded with `seed` and advanced 16 steps.
    pub fn from_seed(seed: u32) -> (res: Xor128)
        ensures
            res@ == xor_steps(seeded(seed), 16),
    {
        let mut res = Xor128 { x: 123456789, y: 987654321, z: 1000000007, w: seed };
        let mut i: u32 = 0;
        while i < 16
            invariant
                i <= 16,
                res@ == xor_steps(seeded(seed), i as nat),
            decreases 16 - i,
        {
            res.next();
            i = i + 1;
        }
        res
    }

    /// Advances the state by one step and returns a number below 2^31.
    pub fn next(&mut self) -> (r: u32)
        ensures
            final(self)@ == xor_step(old(self)@),
            r == drawn(final(self)@),
            r < 0x80000000,
    {
        let t = self.x ^ (self.x << 11);
        self.x = self.y;
        self.y = self.z;
        self.z = self.w;
        self.w = (self.w ^ (self.w >> 19)) ^ (t ^ (t >> 8));
        let r = self.w & 0x7FFFFFFF;
        proof {
            let w = self.w;
            assert(w & 0x7FFFFFFFu32 < 0x80000000u32) by (bit_vector);
        }
        r
    }
}

} // verus!
