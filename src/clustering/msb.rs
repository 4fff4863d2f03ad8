use vstd::prelude::*;

verus! {

/// Zero-based position of the most significant set bit of `n`; zero for zero.
pub open spec fn msb_of(n: nat) -> nat
    decreases n,
{
    if n <= 1 {
        0
    } else {
        1 + msb_of(n / 2)
    }
}

proof fn lemma_msb_below(n: nat, k: nat)
    requires
        k >= 1,
        n < vstd::arithmetic::power2::pow2(k),
    ensures
        msb_of(n) < k,
    decreases k,
{
    vstd::arithmetic::power2::lemma_pow2_unfold(k);
    if n > 1 {
        if k == 1 {
            vstd::arithmetic::power2::lemma2_to64();
        } else {
            lemma_msb_below(n / 2, (k - 1) as nat);
        }
    }
}

/// The position of the most significant set bit of an unsigned integer.
pub trait MostSignificantBit: Sized {
    /// The value as a natural number.
    spec fn spec_value(self) -> nat;

    /// Zero-based position of the most significant set bit; zero for zero.
    fn msb(self) -> (r: usize)
        ensures
            r == msb_of(self.spec_value()),
    ;
}

impl MostSignificantBit for u64 {
    open spec fn spec_value(self) -> nat {
        self as nat
    }

    fn msb(self) -> (r: usize) {
        proof {
            vstd::arithmetic::power2::lemma2_to64();
            lemma_msb_below(self as nat, 64);
        }
        let mut x = self;
        let mut position: usize = 0;
        while x > 1
            invariant
                msb_of(self as nat) == position + msb_of(x as nat),
                msb_of(self as nat) < 64,
            decreases x,
        {
            x = x / 2;
            position = position + 1;
        }
        position
    }
}

impl MostSignificantBit for u32 {
    open spec fn spec_value(self) -> nat {
        self as nat
    }

    fn msb(self) -> (r: usize) {
        (self as u64).msb()
    }
}

impl MostSignificantBit for u16 {
    open spec fn spec_value(self) -> nat {
        self as nat
    }

    fn msb(self) -> (r: usize) {
        (self as u64).msb()
    }
}

} // verus!
