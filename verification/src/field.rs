//! The field layer: arithmetic in the prime field of `P` elements, with
//! reduced `u64` representatives. All table cells and gate evaluations
//! live in this field.
use vstd::prelude::*;
use crate::P;
use crate::math::lemma_inverse_exists;
use crate::math::lemma_inverse_unique;

verus! {

/// A prime-field element, kept reduced modulo `P`.
#[derive(Clone, Copy, Debug, PartialEq, Eq, Structural)]
pub struct Fe {
    pub v: u64,
}

/// The inverse of the residue of `a`, as the unique `b` in `[0, P)` with
/// `a * b == 1` modulo `P`; zero divisors (only the zero residue) map to 0.
pub open spec fn inv_p(a: int) -> int {
    if a % (P as int) == 0 {
        0
    } else {
        choose|b: int| 0 <= b < P && #[trigger] ((a * b) % (P as int)) == 1
    }
}

/// `inv_p` really is an inverse on nonzero residues.
pub proof fn lemma_inv_p(a: int)
    requires
        a % (P as int) != 0,
    ensures
        0 <= inv_p(a) < P,
        (a * inv_p(a)) % (P as int) == 1,
{
    let b = lemma_inverse_exists(a % (P as int));
    vstd::arithmetic::div_mod::lemma_mod_bound(a, P as int);
    vstd::arithmetic::div_mod::lemma_mul_mod_noop_general(a, b, P as int);
    assert((a * b) % (P as int) == 1);
}

impl Fe {
    /// The residue this element stands for.
    pub open spec fn val(self) -> int {
        self.v as int
    }

    /// Reduced representation.
    pub open spec fn wf(self) -> bool {
        self.v < P
    }

    pub fn zero() -> (r: Fe)
        ensures
            r.wf(),
            r.val() == 0,
    {
        Fe { v: 0 }
    }

    pub fn one() -> (r: Fe)
        ensures
            r.wf(),
            r.val() == 1,
    {
        Fe { v: 1 }
    }

    /// The field element standing for `v`; `v` must already be reduced.
    pub fn new(v: u64) -> (r: Fe)
        requires
            v < P,
        ensures
            r.wf(),
            r.val() == v,
    {
        Fe { v }
    }

    pub fn add(self, other: Fe) -> (r: Fe)
        requires
            self.wf(),
            other.wf(),
        ensures
            r.wf(),
            r.val() == (self.val() + other.val()) % (P as int),
    {
        let s: u64 = self.v + other.v;
        if s >= P {
            Fe { v: s - P }
        } else {
            Fe { v: s }
        }
    }

    pub fn sub(self, other: Fe) -> (r: Fe)
        requires
            self.wf(),
            other.wf(),
        ensures
            r.wf(),
            r.val() == (self.val() - other.val()) % (P as int),
    {
        let r: Fe = if self.v >= other.v {
            Fe { v: self.v - other.v }
        } else {
            Fe { v: self.v + P - other.v }
        };
        proof {
            if self.v < other.v {
                vstd::arithmetic::div_mod::lemma_mod_add_multiples_vanish(
                    self.val() - other.val(),
                    P as int,
                );
            }
        }
        r
    }

    pub fn neg(self) -> (r: Fe)
        requires
            self.wf(),
        ensures
            r.wf(),
            r.val() == (0 - self.val()) % (P as int),
    {
        Fe::zero().sub(self)
    }

    pub fn mul(self, other: Fe) -> (r: Fe)
        requires
            self.wf(),
            other.wf(),
        ensures
            r.wf(),
            r.val() == (self.val() * other.val()) % (P as int),
    {
        proof {
            assert(self.v * other.v < 0x1_0000_0000u64) by (nonlinear_arith)
                requires
                    self.v < 65521,
                    other.v < 65521,
            ;
        }
        let prod: u64 = self.v * other.v;
        Fe { v: prod % P }
    }

    pub fn equals(self, other: Fe) -> (r: bool)
        ensures
            r == (self.v == other.v),
    {
        self.v == other.v
    }

    /// Executable form of `wf`.
    pub fn is_reduced(self) -> (r: bool)
        ensures
            r == self.wf(),
    {
        self.v < P
    }

    pub fn is_zero(self) -> (r: bool)
        ensures
            r == (self.val() == 0),
    {
        self.v == 0
    }

    /// The multiplicative inverse of a nonzero element, found by search;
    /// `lemma_inverse_exists` guarantees the search succeeds.
    pub fn inv(self) -> (r: Fe)
        requires
            self.wf(),
            self.val() != 0,
        ensures
            r.wf(),
            (self.val() * r.val()) % (P as int) == 1,
            r.val() == inv_p(self.val()),
    {
        let a = self.v;
        proof {
            vstd::arithmetic::div_mod::lemma_small_mod(a as nat, P as nat);
            let b0 = lemma_inverse_exists(a as int);
        }
        let mut i: u64 = 0;
        while i < P
            invariant
                a == self.v,
                0 < a < P,
                i <= P,
                exists|b: int|
                    i <= b < P && #[trigger] ((a as int * b) % (P as int)) == 1,
            decreases P - i,
        {
            proof {
                assert(a * i < 0x1_0000_0000u64) by (nonlinear_arith)
                    requires
                        a < 65521,
                        i < 65521,
                ;
            }
            if (a * i) % P == 1 {
                proof {
                    lemma_inv_p(a as int);
                    lemma_inverse_unique(a as int, i as int, inv_p(a as int));
                }
                return Fe { v: i };
            }
            proof {
                let b = choose|b: int|
                    i <= b < P && #[trigger] ((a as int * b) % (P as int)) == 1;
                assert(b != i);
            }
            i = i + 1;
        }
        proof {
            assert(false);
        }
        Fe { v: 0 }
    }
}

} // verus!
