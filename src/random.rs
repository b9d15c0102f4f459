use vstd::prelude::*;

verus! {

/// Constant mixed into every seed of a xorshift stream.
pub const SEED_MASK: u32 = 123456789;

/// One step of the 32-bit xorshift generator (shifts 13, 7, 17).
pub open spec fn xorshift(x: u32) -> u32 {
    let a = x ^ ((x << 13u32) as u32);
    let b = a ^ (a >> 7u32);
    b ^ ((b << 17u32) as u32)
}

/// A xorshift pseudo-random stream.
pub struct XorRand {
    x: u32,
}

impl XorRand {
    /// The internal state; the next output is `xorshift(state())`.
    pub closed spec fn state(&self) -> u32 {
        self.x
    }

    pub fn new(seed: u32) -> (r: XorRand)
        ensures
            r.state() == seed ^ SEED_MASK,
    {
        XorRand { x: seed ^ SEED_MASK }
    }

    /// Advances the stream and returns the new state.
    pub fn nexti(&mut self) -> (r: u32)
        ensures
            r == xorshift(old(self).state()),
            final(self).state() == r,
    {
        let mut x = self.x;
        x = x ^ (x << 13u32);
        x = x ^ (x >> 7u32);
        x = x ^ (x << 17u32);
        self.x = x;
        x
    }
}

/// A xorshift step never maps a non-zero state to zero.
pub proof fn lemma_xorshift_nonzero(x: u32)
    requires
        x != 0,
    ensures
        xorshift(x) != 0,
{
    assert(x != 0 ==> (x ^ ((x << 13u32) as u32)) != 0) by (bit_vector);
    let a = x ^ ((x << 13u32) as u32);
    assert(a != 0 ==> (a ^ (a >> 7u32)) != 0) by (bit_vector);
    let b = a ^ (a >> 7u32);
    assert(b != 0 ==> (b ^ ((b << 17u32) as u32)) != 0) by (bit_vector);
}

/// A source of fresh identifiers: 0, 1, 2, ... in order of request.
pub struct FreshId {
    id: i32,
}

impl FreshId {
    #[verifier::type_invariant]
    spec fn counter_non_negative(self) -> bool {
        self.id >= 0
    }

    /// The identifier that the next request hands out.
    pub closed spec fn next(&self) -> i32 {
        self.id
    }

    pub fn new() -> (r: FreshId)
        ensures
            r.next() == 0,
    {
        FreshId { id: 0 }
    }

    pub fn gen_id(&mut self) -> (r: i32)
        requires
            old(self).next() < i32::MAX,
        ensures
            r == old(self).next(),
            r >= 0,
            final(self).next() == old(self).next() + 1,
    {
        proof {
            use_type_invariant(&*self);
        }
        let id = self.id;
        self.id = self.id + 1;
        id
    }
}

} // verus!
