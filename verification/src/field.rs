//! The coefficient field of the symbolic engine.
//!
//! Expressions and monomial-expanded polynomials carry their constants as
//! elements of a fixed prime field, small enough that every operation can be
//! carried out (and reasoned about) in machine words.  The field is modelled
//! in specifications as the integers modulo `FIELD_MODULUS`, with every value
//! kept in canonical form `0 <= v < FIELD_MODULUS`.
//!
//! This is the engine's own field, not the proving backend's: coefficient
//! arithmetic agrees with a larger backend field only as long as no
//! intermediate coefficient wraps at `FIELD_MODULUS`.  The fused gate's
//! constraint carries only the coefficients zero and one (and minus one in
//! selector assignments), well inside that bound.

use vstd::prelude::*;

verus! {

use vstd::arithmetic::div_mod::{
    lemma_add_mod_noop, lemma_add_mod_noop_right, lemma_mod_bound, lemma_mod_twice,
    lemma_mul_mod_noop_general, lemma_small_mod,
};
use vstd::arithmetic::mul::{
    lemma_mul_is_associative, lemma_mul_is_commutative, lemma_mul_is_distributive_add,
};

/// The field modulus: the Mersenne prime `2^31 - 1`.
pub const FIELD_MODULUS: u64 = 2147483647;

/// The modulus as a mathematical integer.
pub open spec fn modulus() -> int {
    FIELD_MODULUS as int
}

/// Field addition on the mathematical model.
pub open spec fn fadd(a: int, b: int) -> int {
    (a + b) % modulus()
}

/// Field multiplication on the mathematical model.
pub open spec fn fmul(a: int, b: int) -> int {
    (a * b) % modulus()
}

/// Field negation on the mathematical model.
pub open spec fn fneg(a: int) -> int {
    (modulus() - a) % modulus()
}

/// Field exponentiation on the mathematical model.
pub open spec fn fpow(a: int, e: nat) -> int
    decreases e,
{
    if e == 0 {
        1
    } else {
        fmul(a, fpow(a, (e - 1) as nat))
    }
}

/// A value is in canonical form when it lies in `[0, modulus())`.
pub open spec fn canon(a: int) -> bool {
    0 <= a < modulus()
}

/// One element of the coefficient field, kept in canonical form.
#[derive(Clone, Copy, Debug, PartialEq, Eq, Structural)]
pub struct Fe {
    pub v: u64,
}

impl Fe {
    /// Well-formed: the representative is canonical.
    pub open spec fn wf(self) -> bool {
        self.v < FIELD_MODULUS
    }

    /// The mathematical value of this element.
    pub open spec fn as_int(self) -> int {
        self.v as int
    }

    /// The additive identity.
    pub fn zero() -> (r: Fe)
        ensures
            r.wf(),
            r.as_int() == 0,
    {
        Fe { v: 0 }
    }

    /// The multiplicative identity.
    pub fn one() -> (r: Fe)
        ensures
            r.wf(),
            r.as_int() == 1,
    {
        Fe { v: 1 }
    }

    /// Reduces an arbitrary machine word into the field.
    pub fn from_u64(v: u64) -> (r: Fe)
        ensures
            r.wf(),
            r.as_int() == v as int % modulus(),
    {
        Fe { v: v % FIELD_MODULUS }
    }

    /// Field addition.
    pub fn add(self, other: Fe) -> (r: Fe)
        requires
            self.wf(),
            other.wf(),
        ensures
            r.wf(),
            r.as_int() == fadd(self.as_int(), other.as_int()),
    {
        Fe { v: (self.v + other.v) % FIELD_MODULUS }
    }

    /// Field multiplication.
    pub fn mul(self, other: Fe) -> (r: Fe)
        requires
            self.wf(),
            other.wf(),
        ensures
            r.wf(),
            r.as_int() == fmul(self.as_int(), other.as_int()),
    {
        proof {
            assert(self.v * other.v < 0x4000_0000_0000_0000) by (nonlinear_arith)
                requires
                    self.v < 0x8000_0000,
                    other.v < 0x8000_0000,
            ;
        }
        Fe { v: (self.v * other.v) % FIELD_MODULUS }
    }

    /// Field negation.
    pub fn neg(self) -> (r: Fe)
        requires
            self.wf(),
        ensures
            r.wf(),
            r.as_int() == fneg(self.as_int()),
    {
        Fe { v: (FIELD_MODULUS - self.v) % FIELD_MODULUS }
    }
}

/// Every field operation yields a canonical value.
pub proof fn lemma_fadd_canon(a: int, b: int)
    ensures
        canon(fadd(a, b)),
{
    lemma_mod_bound(a + b, modulus());
}

/// See `lemma_fadd_canon`.
pub proof fn lemma_fmul_canon(a: int, b: int)
    ensures
        canon(fmul(a, b)),
{
    lemma_mod_bound(a * b, modulus());
}

/// See `lemma_fadd_canon`.
pub proof fn lemma_fpow_canon(a: int, e: nat)
    ensures
        e > 0 ==> canon(fpow(a, e)),
    decreases e,
{
    if e > 0 {
        lemma_fmul_canon(a, fpow(a, (e - 1) as nat));
    }
}

/// Adding zero leaves a canonical value unchanged.
pub proof fn lemma_fadd_zero(a: int)
    requires
        canon(a),
    ensures
        fadd(0, a) == a,
        fadd(a, 0) == a,
{
    lemma_small_mod(a as nat, FIELD_MODULUS as nat);
}

/// Multiplying by one leaves a canonical value unchanged.
pub proof fn lemma_fmul_one(a: int)
    requires
        canon(a),
    ensures
        fmul(1, a) == a,
        fmul(a, 1) == a,
{
    lemma_small_mod(a as nat, FIELD_MODULUS as nat);
}

/// Multiplying by zero yields zero.
pub proof fn lemma_fmul_zero(a: int)
    ensures
        fmul(0, a) == 0,
        fmul(a, 0) == 0,
{
    vstd::arithmetic::mul::lemma_mul_basics(a);
}

/// Field addition is commutative.
pub proof fn lemma_fadd_comm(a: int, b: int)
    ensures
        fadd(a, b) == fadd(b, a),
{
}

/// Field multiplication is commutative.
pub proof fn lemma_fmul_comm(a: int, b: int)
    ensures
        fmul(a, b) == fmul(b, a),
{
    lemma_mul_is_commutative(a, b);
}

/// Field addition is associative.
pub proof fn lemma_fadd_assoc(a: int, b: int, c: int)
    ensures
        fadd(fadd(a, b), c) == fadd(a, fadd(b, c)),
{
    let m = modulus();
    lemma_add_mod_noop(a + b, c, m);
    lemma_mod_twice(c, m);
    lemma_add_mod_noop_right(a, b + c, m);
}

/// Field multiplication is associative.
pub proof fn lemma_fmul_assoc(a: int, b: int, c: int)
    ensures
        fmul(fmul(a, b), c) == fmul(a, fmul(b, c)),
{
    let m = modulus();
    lemma_mul_mod_noop_general(a * b, c, m);
    lemma_mul_mod_noop_general(a, b * c, m);
    lemma_mul_is_associative(a, b, c);
}

/// Powers add when like bases multiply.
pub proof fn lemma_fpow_add(a: int, e1: nat, e2: nat)
    ensures
        fpow(a, e1 + e2) == fmul(fpow(a, e1), fpow(a, e2)),
    decreases e1,
{
    if e1 == 0 {
        lemma_fpow_canon(a, e2);
        if e2 == 0 {
            lemma_small_mod(1nat, FIELD_MODULUS as nat);
        } else {
            lemma_fmul_one(fpow(a, e2));
        }
    } else {
        lemma_fpow_add(a, (e1 - 1) as nat, e2);
        lemma_fmul_assoc(a, fpow(a, (e1 - 1) as nat), fpow(a, e2));
    }
}

/// A reduced sum of coefficients multiplies out over a common factor.
pub proof fn lemma_fmul_fadd_left(a: int, b: int, x: int)
    ensures
        fmul(fadd(a, b), x) == fadd(fmul(a, x), fmul(b, x)),
{
    let m = modulus();
    lemma_mul_mod_noop_general(a + b, x, m);
    lemma_mul_is_commutative(a + b, x);
    lemma_mul_is_distributive_add(x, a, b);
    lemma_mul_is_commutative(x, a);
    lemma_mul_is_commutative(x, b);
    lemma_add_mod_noop(a * x, b * x, m);
    lemma_mod_twice(a * x, m);
    lemma_mod_twice(b * x, m);
}

/// Four factors regroup pairwise.
pub proof fn lemma_fmul_reorder4(a: int, b: int, c: int, d: int)
    ensures
        fmul(fmul(a, b), fmul(c, d)) == fmul(fmul(a, c), fmul(b, d)),
{
    lemma_fmul_assoc(a, b, fmul(c, d));
    lemma_fmul_assoc(b, c, d);
    lemma_fmul_comm(b, c);
    lemma_fmul_assoc(c, b, d);
    lemma_fmul_assoc(a, c, fmul(b, d));
}

/// Multiplying by the canonical representative of minus one negates.
pub proof fn lemma_fmul_neg_one(a: int)
    ensures
        fmul(modulus() - 1, a) == fneg(a),
{
    let m = modulus();
    assert((m - 1) * a == m * a + (-a)) by (nonlinear_arith);
    vstd::arithmetic::div_mod::lemma_mod_multiples_vanish(a, -a, m);
    vstd::arithmetic::div_mod::lemma_mod_multiples_vanish(1, -a, m);
    assert(m * 1 + (-a) == m - a);
}

/// A sum with a negated term vanishes exactly when the terms agree.
pub proof fn lemma_fadd_neg_cancel(a: int, b: int)
    requires
        canon(a),
        canon(b),
    ensures
        fadd(a, fneg(b)) == 0 <==> a == b,
{
    let m = modulus();
    if b == 0 {
        lemma_small_mod(0nat, FIELD_MODULUS as nat);
        lemma_small_mod(a as nat, FIELD_MODULUS as nat);
    } else {
        lemma_small_mod((m - b) as nat, FIELD_MODULUS as nat);
        if a == b {
            lemma_small_mod(0nat, FIELD_MODULUS as nat);
            assert((a + (m - b)) % m == 0) by {
                assert(a + (m - b) == m);
            };
        } else if a < b {
            lemma_small_mod((a + m - b) as nat, FIELD_MODULUS as nat);
        } else {
            assert((a + (m - b)) % m == (a - b) % m) by {
                lemma_add_mod_noop_right(a - b, m, m);
                assert(m % m == 0) by {
                    lemma_small_mod(0nat, FIELD_MODULUS as nat);
                    assert(m == 1 * m);
                    assert((1 * m) % m == 0int % m) by {
                        vstd::arithmetic::div_mod::lemma_mod_multiples_basic(1, m);
                    };
                };
            };
            lemma_small_mod((a - b) as nat, FIELD_MODULUS as nat);
        }
    }
}

} // verus!
