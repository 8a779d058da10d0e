use vstd::prelude::*;

verus! {

/// Relies on getrandom::getrandom: fills four bytes from the operating
/// system's source; `None` where the source fails. Nothing is known of the bytes.
#[verifier::external_body]
fn os_random_u32() -> (r: Option<u32>) {
    let mut buf = [0u8; 4];
    match getrandom::getrandom(&mut buf) {
        Ok(()) => Some(u32::from_le_bytes(buf)),
        Err(_) => None,
    }
}

/// Fixed state used where a seed of zero is given: xorshift never leaves zero.
pub const FALLBACK_STATE: u64 = 0x9E37_79B9_7F4A_7C15;

/// A source of random numbers: the operating system's, or a seeded
/// xorshift generator for reproducible runs.
#[derive(Clone, Copy, Debug)]
pub struct Rng {
    state: u64,
    seeded: bool,
}

impl Rng {
    /// Draws from the operating system.
    pub fn from_os() -> (r: Rng)
        ensures
            !r.is_seeded(),
    {
        Rng { state: FALLBACK_STATE, seeded: false }
    }

    /// A reproducible generator: the same seed gives the same numbers.
    pub fn seeded(seed: u64) -> (r: Rng)
        ensures
            r.is_seeded(),
    {
        Rng { state: if seed == 0 { FALLBACK_STATE } else { seed }, seeded: true }
    }

    pub closed spec fn is_seeded(&self) -> bool {
        self.seeded
    }

    /// One step of xorshift64 on the internal state.
    fn step(&mut self) -> (r: u32)
        ensures
            final(self).seeded == old(self).seeded,
    {
        let mut x = self.state;
        x = x ^ (x << 13u64);
        x = x ^ (x >> 7u64);
        x = x ^ (x << 17u64);
        self.state = x;
        (x >> 32u64) as u32
    }

    /// The next 32 random bits.
    pub fn next_u32(&mut self) -> (r: u32)
        ensures
            final(self).is_seeded() == old(self).is_seeded(),
    {
        if !self.seeded {
            match os_random_u32() {
                Some(v) => {
                    return v;
                },
                None => {},
            }
        }
        self.step()
    }

    /// A number in `0..n`.
    pub fn below(&mut self, n: usize) -> (r: usize)
        requires
            n > 0,
        ensures
            r < n,
            final(self).is_seeded() == old(self).is_seeded(),
    {
        let v = self.next_u32() as u128;
        let m = n as u128;
        assert(v * m < 0x1_0000_0000 * m) by (nonlinear_arith)
            requires v < 0x1_0000_0000, m > 0;
        assert(0x1_0000_0000 * m <= 0x1_0000_0000 * 0xffff_ffff_ffff_ffff) by (nonlinear_arith)
            requires m <= 0xffff_ffff_ffff_ffff;
        let r = (v * m) / 0x1_0000_0000u128;
        assert(r < m) by (nonlinear_arith)
            requires v * m < 0x1_0000_0000 * m, r == (v * m) / 0x1_0000_0000, v >= 0;
        r as usize
    }

    /// A number in `0..scale`, for comparing against a probability given in
    /// parts of `scale`.
    pub fn fraction(&mut self, scale: u64) -> (r: u64)
        requires
            scale > 0,
        ensures
            r < scale,
            final(self).is_seeded() == old(self).is_seeded(),
    {
        let v = self.next_u32() as u64;
        v % scale
    }
}

} // verus!
