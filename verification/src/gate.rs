//! The fused gate's shape.
//!
//! One row of this gate enforces
//! `q_m*s[0]*s[1] + sum_k(q_1[k]*s[k]) + sum_k(q_5[k]*s[k]^5) + rc + q_i*input + q_o*out = 0`.
//! This module fixes the flat variable indexing (fixed columns first, then
//! instance columns, then advice columns), builds the constraint as a
//! symbolic [`Expression`], and carries the random-linear-combination
//! arithmetic that this gate's rows lay out.

use vstd::prelude::*;

verus! {

use crate::field::{
    canon, fadd, fmul, fpow, lemma_fadd_canon, lemma_fadd_comm, lemma_fadd_neg_cancel,
    lemma_fadd_zero, lemma_fmul_canon, lemma_fmul_one, lemma_fmul_zero, lemma_fpow_add, modulus,
    Fe,
};
use crate::polynomial::{expr_wdeg, valid_assign, Expression};

/// The flat variable indices of every column the fused gate touches,
/// together with the counts that fix the global variable ordering.
pub struct GateLayout {
    /// The state width; at least two.
    pub t: usize,
    /// How many fixed columns the surrounding system has.
    pub nf: usize,
    /// How many instance columns the surrounding system has.
    pub ni: usize,
    /// Column indices of the advice state columns, one per state slot.
    pub state: Vec<usize>,
    /// Column index of the advice input column.
    pub input: usize,
    /// Column index of the advice output column.
    pub out: usize,
    /// Column indices of the linear selectors.
    pub q_1: Vec<usize>,
    /// Column indices of the quintic selectors.
    pub q_5: Vec<usize>,
    /// Column index of the quadratic selector.
    pub q_m: usize,
    /// Column index of the input-coupling selector.
    pub q_i: usize,
    /// Column index of the output-coupling selector.
    pub q_o: usize,
    /// Column index of the constant selector.
    pub rc: usize,
}

impl GateLayout {
    /// The selector vectors match the state width, and the flat advice
    /// indices stay within the machine range.
    pub open spec fn wf(self) -> bool {
        &&& self.t >= 2
        &&& self.state@.len() == self.t
        &&& self.q_1@.len() == self.t
        &&& self.q_5@.len() == self.t
        &&& self.nf + self.ni + self.input < usize::MAX
        &&& self.nf + self.ni + self.out < usize::MAX
        &&& forall|k: int| 0 <= k < self.t ==> self.nf + self.ni + #[trigger] self.state@[k] < usize::MAX
        &&& forall|k: int| 0 <= k < self.t ==> #[trigger] self.q_1@[k] < self.nf
        &&& forall|k: int| 0 <= k < self.t ==> #[trigger] self.q_5@[k] < self.nf
        &&& self.q_m < self.nf
        &&& self.q_i < self.nf
        &&& self.q_o < self.nf
        &&& self.rc < self.nf
    }

    /// The flat variable index of a fixed column.
    pub open spec fn fixed_var(self, col: usize) -> usize {
        col
    }

    /// The flat variable index of an advice column.
    pub open spec fn advice_var(self, col: usize) -> usize {
        ((self.nf + self.ni + col) as usize)
    }
}

/// The value of the fused gate equation under an assignment: the quadratic
/// term, the input, constant and output couplings, and the linear and
/// quintic term of every state column.
pub open spec fn gate_equation(l: GateLayout, a: spec_fn(usize) -> int) -> int {
    gate_partial(l, a, l.t as int)
}

/// This gate equation with only the first `k` state columns' linear and
/// quintic terms added in.
pub open spec fn gate_partial(l: GateLayout, a: spec_fn(usize) -> int, k: int) -> int
    decreases k,
{
    if k <= 0 {
        gate_init(l, a)
    } else {
        fadd(
            gate_partial(l, a, k - 1),
            fadd(
                fmul(a(l.fixed_var(l.q_1@[k - 1])), a(l.advice_var(l.state@[k - 1]))),
                fmul(a(l.fixed_var(l.q_5@[k - 1])), fpow(a(l.advice_var(l.state@[k - 1])), 5)),
            ),
        )
    }
}

/// The state-independent part of this gate equation.
pub open spec fn gate_init(l: GateLayout, a: spec_fn(usize) -> int) -> int {
    fadd(
        fadd(
            fadd(
                fmul(fmul(a(l.fixed_var(l.q_m)), a(l.advice_var(l.state@[0]))), a(l.advice_var(l.state@[1]))),
                fmul(a(l.fixed_var(l.q_i)), a(l.advice_var(l.input))),
            ),
            a(l.fixed_var(l.rc)),
        ),
        fmul(a(l.fixed_var(l.q_o)), a(l.advice_var(l.out))),
    )
}


/// Every flat index the layout uses lies below the bound.
pub open spec fn layout_vars_lt(l: GateLayout, b: int) -> bool {
    &&& l.fixed_var(l.q_m) < b
    &&& l.fixed_var(l.q_i) < b
    &&& l.fixed_var(l.q_o) < b
    &&& l.fixed_var(l.rc) < b
    &&& l.advice_var(l.input) < b
    &&& l.advice_var(l.out) < b
    &&& forall|k: int| 0 <= k < l.t ==> l.fixed_var(#[trigger] l.q_1@[k]) < b
    &&& forall|k: int| 0 <= k < l.t ==> l.fixed_var(#[trigger] l.q_5@[k]) < b
    &&& forall|k: int| 0 <= k < l.t ==> l.advice_var(#[trigger] l.state@[k]) < b
}

/// The quintic power of a variable in the registered shape:
/// with `v2 = v * v`, the product `(v2 * v2) * v`.
pub open spec fn pow5_tree(v: usize) -> Expression {
    Expression::Product(
        Box::new(
            Expression::Product(
                Box::new(
                    Expression::Product(
                        Box::new(Expression::Var(v)),
                        Box::new(Expression::Var(v)),
                    ),
                ),
                Box::new(
                    Expression::Product(
                        Box::new(Expression::Var(v)),
                        Box::new(Expression::Var(v)),
                    ),
                ),
            ),
        ),
        Box::new(Expression::Var(v)),
    )
}

/// The state-independent part of the constraint tree.
pub open spec fn gate_init_tree(l: GateLayout) -> Expression {
    Expression::Sum(
        Box::new(
            Expression::Sum(
                Box::new(
                    Expression::Sum(
                        Box::new(
                            Expression::Product(
                                Box::new(
                                    Expression::Product(
                                        Box::new(Expression::Var(l.fixed_var(l.q_m))),
                                        Box::new(Expression::Var(l.advice_var(l.state@[0]))),
                                    ),
                                ),
                                Box::new(Expression::Var(l.advice_var(l.state@[1]))),
                            ),
                        ),
                        Box::new(
                            Expression::Product(
                                Box::new(Expression::Var(l.fixed_var(l.q_i))),
                                Box::new(Expression::Var(l.advice_var(l.input))),
                            ),
                        ),
                    ),
                ),
                Box::new(Expression::Var(l.fixed_var(l.rc))),
            ),
        ),
        Box::new(
            Expression::Product(
                Box::new(Expression::Var(l.fixed_var(l.q_o))),
                Box::new(Expression::Var(l.advice_var(l.out))),
            ),
        ),
    )
}

/// One state column's linear and quintic term.
pub open spec fn gate_term_tree(l: GateLayout, k: int) -> Expression {
    Expression::Sum(
        Box::new(
            Expression::Product(
                Box::new(Expression::Var(l.fixed_var(l.q_1@[k]))),
                Box::new(Expression::Var(l.advice_var(l.state@[k]))),
            ),
        ),
        Box::new(
            Expression::Product(
                Box::new(Expression::Var(l.fixed_var(l.q_5@[k]))),
                Box::new(pow5_tree(l.advice_var(l.state@[k]))),
            ),
        ),
    )
}

/// The constraint tree with the first `k` state columns' terms added.
pub open spec fn gate_tree_upto(l: GateLayout, k: int) -> Expression
    decreases k,
{
    if k <= 0 {
        gate_init_tree(l)
    } else {
        Expression::Sum(
            Box::new(gate_tree_upto(l, k - 1)),
            Box::new(gate_term_tree(l, k - 1)),
        )
    }
}

/// The fused constraint as a tree: the init term, then every state
/// column's linear and quintic term in column order.
pub open spec fn gate_tree(l: GateLayout) -> Expression {
    gate_tree_upto(l, l.t as int)
}

/// Every variable of the constraint tree lies below any bound on the
/// layout's flat indices.
pub proof fn lemma_gate_tree_vars_lt(l: GateLayout, b: int, k: int)
    requires
        l.wf(),
        layout_vars_lt(l, b),
        0 <= k <= l.t,
    ensures
        crate::polynomial::expr_vars_lt(gate_tree_upto(l, k), b),
    decreases k,
{
    reveal_with_fuel(crate::polynomial::expr_vars_lt, 12);
    if k == 0 {
        assert(crate::polynomial::expr_vars_lt(gate_init_tree(l), b));
    } else {
        lemma_gate_tree_vars_lt(l, b, k - 1);
        assert(crate::polynomial::expr_vars_lt(gate_term_tree(l, k - 1), b));
    }
}

/// With the first state terms added, the constraint's witness degree is
/// exactly five, carried by the quintic terms.
proof fn lemma_gate_wdeg_upto(l: GateLayout, k: int)
    requires
        l.wf(),
        0 <= k <= l.t,
    ensures
        expr_wdeg(gate_tree_upto(l, k), l.nf + l.ni) == if k == 0 {
            2int
        } else {
            5int
        },
    decreases k,
{
    reveal_with_fuel(crate::polynomial::expr_wdeg, 12);
    let w = l.nf + l.ni;
    if k == 0 {
        assert(l.advice_var(l.state@[0]) >= w);
        assert(l.advice_var(l.state@[1]) >= w);
        assert(l.advice_var(l.input) >= w);
        assert(l.advice_var(l.out) >= w);
        assert(expr_wdeg(gate_init_tree(l), w) == 2);
    } else {
        lemma_gate_wdeg_upto(l, k - 1);
        assert(l.advice_var(l.state@[k - 1]) >= w);
        assert(expr_wdeg(pow5_tree(l.advice_var(l.state@[k - 1])), w) == 5);
        assert(expr_wdeg(gate_term_tree(l, k - 1), w) == 5);
    }
}

/// Law: the fused constraint's witness degree is exactly five — the
/// quintic terms dominate, and selector columns only enter as
/// coefficients.
pub proof fn lemma_gate_tree_wdeg(l: GateLayout)
    requires
        l.wf(),
    ensures
        expr_wdeg(gate_tree(l), l.nf + l.ni) == 5,
{
    lemma_gate_wdeg_upto(l, l.t as int);
}

/// Builds the fused gate constraint as a symbolic expression over the flat
/// variable indices, in the same shape this gate is registered with the
/// backend.  Its value equals the documented gate equation under every
/// assignment.
pub fn gate_polynomial(l: &GateLayout) -> (r: Expression)
    requires
        l.wf(),
    ensures
        r == gate_tree(*l),
        r.wf(),
        r.deg() <= 6,
        forall|b: int| layout_vars_lt(*l, b) ==> crate::polynomial::expr_vars_lt(r, b),
        forall|a: spec_fn(usize) -> int|
            valid_assign(a) ==> #[trigger] r.eval(a) == gate_equation(*l, a),
{
    let s0 = l.nf + l.ni + l.state[0];
    let s1 = l.nf + l.ni + l.state[1];
    let inp = l.nf + l.ni + l.input;
    let outv = l.nf + l.ni + l.out;
    let mut acc = Expression::Sum(
        Box::new(
            Expression::Sum(
                Box::new(
                    Expression::Sum(
                        Box::new(
                            Expression::Product(
                                Box::new(
                                    Expression::Product(
                                        Box::new(Expression::Var(l.q_m)),
                                        Box::new(Expression::Var(s0)),
                                    ),
                                ),
                                Box::new(Expression::Var(s1)),
                            ),
                        ),
                        Box::new(
                            Expression::Product(
                                Box::new(Expression::Var(l.q_i)),
                                Box::new(Expression::Var(inp)),
                            ),
                        ),
                    ),
                ),
                Box::new(Expression::Var(l.rc)),
            ),
        ),
        Box::new(
            Expression::Product(
                Box::new(Expression::Var(l.q_o)),
                Box::new(Expression::Var(outv)),
            ),
        ),
    );
    proof {
        reveal_with_fuel(Expression::wf, 8);
        reveal_with_fuel(Expression::deg, 8);
        assert(acc == gate_tree_upto(*l, 0));
        assert(acc.wf());
        assert(acc.deg() <= 6);
        assert forall|a: spec_fn(usize) -> int| valid_assign(a) implies #[trigger] acc.eval(a)
            == gate_partial(*l, a, 0) by {
            reveal_with_fuel(Expression::eval, 8);
        }
    }
    let mut k: usize = 0;
    while k < l.t
        invariant
            l.wf(),
            k <= l.t,
            acc == gate_tree_upto(*l, k as int),
            acc.wf(),
            acc.deg() <= 6,
            forall|a: spec_fn(usize) -> int|
                valid_assign(a) ==> #[trigger] acc.eval(a) == gate_partial(*l, a, k as int),
        decreases l.t - k,
    {
        let sk = l.nf + l.ni + l.state[k];
        let quint = Expression::Product(
            Box::new(
                Expression::Product(
                    Box::new(
                        Expression::Product(
                            Box::new(Expression::Var(sk)),
                            Box::new(Expression::Var(sk)),
                        ),
                    ),
                    Box::new(
                        Expression::Product(
                            Box::new(Expression::Var(sk)),
                            Box::new(Expression::Var(sk)),
                        ),
                    ),
                ),
            ),
            Box::new(Expression::Var(sk)),
        );
        let term = Expression::Sum(
            Box::new(
                Expression::Product(
                    Box::new(Expression::Var(l.q_1[k])),
                    Box::new(Expression::Var(sk)),
                ),
            ),
            Box::new(
                Expression::Product(Box::new(Expression::Var(l.q_5[k])), Box::new(quint)),
            ),
        );
        let ghost accg = acc;
        let ghost termg = term;
        let next = Expression::Sum(Box::new(acc), Box::new(term));
        proof {
            reveal_with_fuel(Expression::wf, 10);
            reveal_with_fuel(Expression::deg, 10);
            assert(termg == gate_term_tree(*l, k as int));
            assert(next == gate_tree_upto(*l, k as int + 1));
            assert(next.wf());
            assert(next.deg() <= 6);
            assert forall|a: spec_fn(usize) -> int| valid_assign(a) implies #[trigger] next.eval(
                a,
            ) == gate_partial(*l, a, k as int + 1) by {
                reveal_with_fuel(Expression::eval, 10);
                assert(accg.eval(a) == gate_partial(*l, a, k as int));
                let x = a(sk);
                assert(canon(x));
                lemma_fmul_one(x);
                assert(fpow(x, 1) == fmul(x, fpow(x, 0)));
                assert(fpow(x, 0) == 1);
                assert(fpow(x, 1) == x);
                assert(fpow(x, 2) == fmul(x, fpow(x, 1)));
                lemma_fpow_add(x, 2, 2);
                lemma_fpow_add(x, 4, 1);
                assert(termg.eval(a) == fadd(
                    fmul(a(l.q_1@[k as int]), x),
                    fmul(a(l.q_5@[k as int]), fmul(fmul(fmul(x, x), fmul(x, x)), x)),
                ));
                assert(termg.eval(a) == fadd(
                    fmul(a(l.q_1@[k as int]), a(l.advice_var(l.state@[k as int]))),
                    fmul(a(l.q_5@[k as int]), fpow(a(l.advice_var(l.state@[k as int])), 5)),
                ));
            }
        }
        acc = next;
        k = k + 1;
    }
    proof {
        assert forall|b: int| layout_vars_lt(*l, b) implies crate::polynomial::expr_vars_lt(
            acc,
            b,
        ) by {
            lemma_gate_tree_vars_lt(*l, b, l.t as int);
        }
    }
    acc
}

/// The Horner value of an ordered list of terms under a scalar:
/// `terms[0] + r * (terms[1] + r * (...))`, that is
/// the sum of `r^i * terms[i]`.
pub open spec fn horner(ts: Seq<Fe>, r: Fe) -> int
    decreases ts.len(),
{
    if ts.len() == 0 {
        0
    } else if ts.len() == 1 {
        ts[0].as_int()
    } else {
        fadd(ts[0].as_int(), fmul(r.as_int(), horner(ts.drop_first(), r)))
    }
}

/// All elements are canonical.
pub open spec fn all_wf(ts: Seq<Fe>) -> bool {
    forall|k: int| 0 <= k < ts.len() ==> (#[trigger] ts[k]).wf()
}

/// Computes the random linear combination `sum_i r^i * terms[i]` by the
/// right-to-left Horner recursion this gate's rows lay out.
pub fn rlc_value(terms: &Vec<Fe>, r: Fe) -> (out: Fe)
    requires
        terms@.len() >= 1,
        all_wf(terms@),
        r.wf(),
    ensures
        out.wf(),
        out.as_int() == horner(terms@, r),
{
    let n = terms.len();
    let mut acc = terms[n - 1];
    let mut i: usize = n - 1;
    while i > 0
        invariant
            i < terms@.len(),
            all_wf(terms@),
            r.wf(),
            acc.wf(),
            acc.as_int() == horner(terms@.skip(i as int), r),
        decreases i,
    {
        proof {
            assert(terms@.skip(i as int - 1)[0] == terms@[i as int - 1]);
            assert(terms@.skip(i as int - 1).drop_first() =~= terms@.skip(i as int));
            assert(terms@.skip(i as int - 1).len() >= 2);
        }
        acc = terms[i - 1].add(r.mul(acc));
        i = i - 1;
    }
    proof {
        assert(terms@.skip(0) =~= terms@);
    }
    acc
}

/// The assignment of one random-linear-combination row: the scalar in state
/// column zero, the running accumulator in state column one, the next term
/// in the input column, the new accumulator in the output column; the
/// quadratic and input selectors at one, the output selector at minus one,
/// and every other selector at zero.
pub open spec fn rlc_row(l: GateLayout, a: spec_fn(usize) -> int) -> bool {
    &&& a(l.fixed_var(l.q_m)) == 1
    &&& a(l.fixed_var(l.q_i)) == 1
    &&& a(l.fixed_var(l.q_o)) == modulus() - 1
    &&& a(l.fixed_var(l.rc)) == 0
    &&& forall|k: int| 0 <= k < l.t ==> a(l.fixed_var(#[trigger] l.q_1@[k])) == 0
    &&& forall|k: int| 0 <= k < l.t ==> a(l.fixed_var(#[trigger] l.q_5@[k])) == 0
}

/// On a random-linear-combination row the fused gate equation vanishes
/// exactly when the output cell holds `input + r * previous`, the Horner
/// step the gadget assigns (the scalar sits in state column zero and the
/// previous accumulator in state column one).
pub proof fn lemma_rlc_row_gate(l: GateLayout, a: spec_fn(usize) -> int)
    requires
        l.wf(),
        valid_assign(a),
        rlc_row(l, a),
    ensures
        gate_equation(l, a) == 0 <==> a(l.advice_var(l.out)) == fadd(
            a(l.advice_var(l.input)),
            fmul(a(l.advice_var(l.state@[0])), a(l.advice_var(l.state@[1]))),
        ),
{
    let s0 = a(l.advice_var(l.state@[0]));
    let s1 = a(l.advice_var(l.state@[1]));
    let inp = a(l.advice_var(l.input));
    let outv = a(l.advice_var(l.out));
    lemma_gate_partial_zero_selectors(l, a, l.t as int);
    // the init term reduces to s0*s1 + input - out
    lemma_fmul_one(fmul(s0, s1));
    assert(fmul(fmul(1, s0), s1) == fmul(s0, s1)) by {
        lemma_fmul_one(s0);
    }
    lemma_fmul_one(inp);
    let m = fmul(s0, s1);
    lemma_fmul_canon(s0, s1);
    lemma_fadd_canon(m, inp);
    lemma_fadd_zero(fadd(m, inp));
    let neg_out = fmul(modulus() - 1, outv);
    // q_o * out is the negation of out
    crate::field::lemma_fmul_neg_one(outv);
    assert(neg_out == crate::field::fneg(outv));
    assert(gate_equation(l, a) == fadd(fadd(m, inp), neg_out));
    // associate: (m + inp) + (-out) == 0  <==>  out == m + inp ... with fadd commutativity
    lemma_fadd_canon(m, inp);
    lemma_fadd_neg_cancel(fadd(m, inp), outv);
    lemma_fadd_comm(m, inp);
    lemma_fadd_comm(inp, m);
}

/// With every linear and quintic selector at zero their terms vanish.
proof fn lemma_gate_partial_zero_selectors(l: GateLayout, a: spec_fn(usize) -> int, k: int)
    requires
        l.wf(),
        0 <= k <= l.t,
        forall|j: int| 0 <= j < l.t ==> a(l.fixed_var(#[trigger] l.q_1@[j])) == 0,
        forall|j: int| 0 <= j < l.t ==> a(l.fixed_var(#[trigger] l.q_5@[j])) == 0,
    ensures
        gate_partial(l, a, k) == gate_init(l, a),
    decreases k,
{
    if k > 0 {
        lemma_gate_partial_zero_selectors(l, a, k - 1);
        let sv = a(l.advice_var(l.state@[k - 1]));
        lemma_fmul_zero(sv);
        lemma_fmul_zero(fpow(sv, 5));
        lemma_fadd_zero(0);
        let g = gate_partial(l, a, k - 1);
        assert(canon(g)) by {
            lemma_gate_init_canon(l, a);
        }
        lemma_fadd_zero(g);
    }
}

/// The init term of this gate equation is canonical.
proof fn lemma_gate_init_canon(l: GateLayout, a: spec_fn(usize) -> int)
    ensures
        canon(gate_init(l, a)),
{
    lemma_fadd_canon(
        fadd(
            fadd(
                fmul(fmul(a(l.fixed_var(l.q_m)), a(l.advice_var(l.state@[0]))), a(l.advice_var(l.state@[1]))),
                fmul(a(l.fixed_var(l.q_i)), a(l.advice_var(l.input))),
            ),
            a(l.fixed_var(l.rc)),
        ),
        fmul(a(l.fixed_var(l.q_o)), a(l.advice_var(l.out))),
    );
}

} // verus!
