//! The random-linear-combination gadget's row plan.
//!
//! Computing `sum_i r^i * terms[i]` takes one fused-gate row per Horner
//! step: the scalar in state column zero, the running accumulator in state
//! column one (wired by an equality constraint to the previous row's output
//! cell after the first step), the next unconsumed term in the input column
//! and the new accumulator in the output column.  This module computes that
//! plan over the proving backend's own field, so the synthesis pass only
//! copies cells out of it row by row.  Each row's output is pinned to
//! `term + r * acc` over named results of the backend field's addition and
//! multiplication; the same Horner arithmetic is verified exactly, over the
//! engine's own field, in [`crate::gate::rlc_value`].

use vstd::prelude::*;

verus! {

use halo2_proofs::pasta::Fp;

/// The proving backend's base field element, declared opaquely so that row
/// plans can carry backend values through verified code.
#[verifier::external_type_specification]
#[verifier::external_body]
pub struct ExFp(Fp);

/// The backend field element a machine word embeds to: what `Fp::from`
/// returns, a function of its argument alone.
pub uninterp spec fn fp_const_of(v: u64) -> Fp;

/// What the backend field's negation returns, a function of its argument
/// alone.
pub uninterp spec fn fp_neg_of(a: Fp) -> Fp;

/// What the backend field's addition returns, a function of its arguments
/// alone.
pub uninterp spec fn fp_add_of(a: Fp, b: Fp) -> Fp;

/// What the backend field's multiplication returns, a function of its
/// arguments alone.
pub uninterp spec fn fp_mul_of(a: Fp, b: Fp) -> Fp;

/// Relies on `Fp::from`, the embedding of machine words into the pasta
/// base field; one is its multiplicative identity.
#[verifier::external_body]
pub fn fp_one() -> (r: Fp)
    ensures
        r == fp_const_of(1),
{
    Fp::from(1)
}

/// Relies on `Fp::from`; zero is the field's additive identity.
#[verifier::external_body]
pub fn fp_zero() -> (r: Fp)
    ensures
        r == fp_const_of(0),
{
    Fp::from(0)
}

/// Relies on the field negation of the pasta base field.
#[verifier::external_body]
pub fn fp_neg(a: Fp) -> (r: Fp)
    ensures
        r == fp_neg_of(a),
{
    -a
}

/// Relies on the field addition of the pasta base field.
#[verifier::external_body]
fn fp_add(a: Fp, b: Fp) -> (r: Fp)
    ensures
        r == fp_add_of(a, b),
{
    a + b
}

/// Relies on the field multiplication of the pasta base field.
#[verifier::external_body]
fn fp_mul(a: Fp, b: Fp) -> (r: Fp)
    ensures
        r == fp_mul_of(a, b),
{
    a * b
}

/// Relies on the pasta base field element being plain copyable data.
#[verifier::external_body]
fn fp_dup(a: &Fp) -> (r: Fp)
    ensures
        r == *a,
{
    *a
}

/// The cell values and wiring of one Horner row.
pub struct RlcRow {
    /// State column zero: the scalar.
    pub scalar: Fp,
    /// State column one: the running accumulator.
    pub acc: Fp,
    /// The input column: the next unconsumed term.
    pub term: Fp,
    /// The output column: the new accumulator.
    pub out: Fp,
    /// Whether the accumulator cell must be wired to the previous row's
    /// output cell.
    pub wire_prev: bool,
}

/// Lays out the right-to-left Horner recursion for
/// `sum_i r^i * terms[i]`: one row per step, seeded with the last term,
/// consuming the terms from the end, each row's accumulator either the
/// second-to-last term (first step) or the previous row's output.
pub fn rlc_plan(terms: &Vec<Fp>, r: Fp) -> (rows: Vec<RlcRow>)
    requires
        terms@.len() >= 2,
    ensures
        rows@.len() == terms@.len() - 1,
        forall|k: int| 0 <= k < rows@.len() ==> (#[trigger] rows@[k]).scalar == r,
        forall|k: int| 0 <= k < rows@.len() ==> (#[trigger] rows@[k]).wire_prev == (k > 0),
        forall|k: int|
            0 <= k < rows@.len() ==> (#[trigger] rows@[k]).term == terms@[terms@.len() - 2 - k],
        rows@.len() > 0 ==> rows@[0].acc == terms@[terms@.len() - 1],
        forall|k: int| 1 <= k < rows@.len() ==> (#[trigger] rows@[k]).acc == rows@[k - 1].out,
        forall|k: int|
            0 <= k < rows@.len() ==> (#[trigger] rows@[k]).out == fp_add_of(
                rows@[k].term,
                fp_mul_of(r, rows@[k].acc),
            ),
{
    let d = terms.len();
    let mut rows: Vec<RlcRow> = Vec::new();
    let mut i: usize = 1;
    while i < d
        invariant
            1 <= i <= d,
            d == terms@.len(),
            d >= 2,
            rows@.len() == i - 1,
            forall|k: int| 0 <= k < rows@.len() ==> (#[trigger] rows@[k]).scalar == r,
            forall|k: int| 0 <= k < rows@.len() ==> (#[trigger] rows@[k]).wire_prev == (k > 0),
            forall|k: int|
                0 <= k < rows@.len() ==> (#[trigger] rows@[k]).term == terms@[d - 2 - k],
            rows@.len() > 0 ==> rows@[0].acc == terms@[d - 1],
            forall|k: int| 1 <= k < rows@.len() ==> (#[trigger] rows@[k]).acc == rows@[k - 1].out,
            forall|k: int|
                0 <= k < rows@.len() ==> (#[trigger] rows@[k]).out == fp_add_of(
                    rows@[k].term,
                    fp_mul_of(r, rows@[k].acc),
                ),
        decreases d - i,
    {
        let term = fp_dup(&terms[d - 1 - i]);
        let acc = if i == 1 {
            fp_dup(&terms[d - 1])
        } else {
            fp_dup(&rows[i - 2].out)
        };
        let out = fp_add(fp_dup(&term), fp_mul(fp_dup(&r), fp_dup(&acc)));
        rows.push(RlcRow { scalar: fp_dup(&r), acc, term, out, wire_prev: i > 1 });
        i = i + 1;
    }
    rows
}

} // verus!
