//! Values of the field `Z / pZ` for a prime modulus given as a const
//! parameter.  The modulus is not checked for primality; the contracts
//! state the computed residues.

use vstd::prelude::*;
use vstd::arithmetic::power::pow;
use crate::repeated_squaring::mod_pow;

verus! {

/// A residue modulo `P`.
#[derive(Clone, Copy, Debug, PartialEq, Eq, Hash)]
pub struct GaloisField<const P: u64> {
    /// The canonical representative, always less than `P`.
    pub value: u64,
}

impl<const P: u64> GaloisField<P> {
    /// Construct the residue of `value` modulo `P`.
    pub fn new(value: u64) -> (r: Self)
        requires
            P >= 1,
        ensures
            r.value == value % P,
            r.value < P,
    {
        GaloisField { value: value % P }
    }

    /// The canonical representative.
    pub fn value(&self) -> (r: u64)
        ensures
            r == self.value,
    {
        self.value
    }

    /// Raise to the power `exp`, by repeated squaring.
    pub fn pow(&self, exp: u64) -> (r: Self)
        requires
            1 <= P,
            P <= 0xFFFF_FFFF,
        ensures
            r.value == pow(self.value as int, exp as nat) % (P as int),
            r.value < P,
    {
        GaloisField { value: mod_pow(self.value, exp, P) }
    }

    /// The multiplicative inverse by Fermat's little theorem: the value
    /// raised to `P - 2`.  Meaningful when `P` is prime and the value
    /// is a nonzero residue.
    pub fn inv(&self) -> (r: Self)
        requires
            2 <= P,
            P <= 0xFFFF_FFFF,
            self.value != 0,
        ensures
            r.value == pow(self.value as int, (P - 2) as nat) % (P as int),
            r.value < P,
    {
        self.pow(P - 2)
    }
}

} // verus!
