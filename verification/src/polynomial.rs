//! The symbolic expression engine.
//!
//! An [`Expression`] is an algebraic tree over field constants and flat
//! variable indices.  [`expand`] rewrites a tree into canonical
//! sum-of-monomials form ([`MultiPoly`]); the transformation is proved
//! value-preserving for every assignment of field values to the variables.

use vstd::prelude::*;

verus! {

use crate::field::{
    canon, fadd, fmul, fpow, lemma_fadd_assoc, lemma_fadd_canon, lemma_fadd_comm, lemma_fadd_zero,
    lemma_fmul_assoc, lemma_fmul_canon, lemma_fmul_comm, lemma_fmul_fadd_left, lemma_fmul_one,
    lemma_fmul_reorder4, lemma_fmul_zero, lemma_fpow_add, Fe,
};

/// A spec-level assignment of a field value to every variable index.
pub open spec fn valid_assign(a: spec_fn(usize) -> int) -> bool {
    forall|i: usize| canon(#[trigger] a(i))
}

/// An algebraic expression tree over field constants and variable indices.
pub enum Expression {
    /// A field constant.
    Constant(Fe),
    /// The variable with the given flat index.
    Var(usize),
    /// The sum of two sub-expressions.
    Sum(Box<Expression>, Box<Expression>),
    /// The product of two sub-expressions.
    Product(Box<Expression>, Box<Expression>),
    /// A sub-expression raised to a fixed exponent.
    Power(Box<Expression>, u64),
}

impl Expression {
    /// Every constant in the tree is canonical.
    pub open spec fn wf(self) -> bool
        decreases self,
    {
        match self {
            Expression::Constant(c) => c.wf(),
            Expression::Var(_) => true,
            Expression::Sum(l, r) => l.wf() && r.wf(),
            Expression::Product(l, r) => l.wf() && r.wf(),
            Expression::Power(b, _) => b.wf(),
        }
    }

    /// The value of the expression under an assignment.
    pub open spec fn eval(self, a: spec_fn(usize) -> int) -> int
        decreases self,
    {
        match self {
            Expression::Constant(c) => c.as_int(),
            Expression::Var(i) => a(i),
            Expression::Sum(l, r) => fadd(l.eval(a), r.eval(a)),
            Expression::Product(l, r) => fmul(l.eval(a), r.eval(a)),
            Expression::Power(b, k) => fpow(b.eval(a), k as nat),
        }
    }

    /// A bound on the total degree of any monomial of the expanded form.
    pub open spec fn deg(self) -> int
        decreases self,
    {
        match self {
            Expression::Constant(_) => 0,
            Expression::Var(_) => 1,
            Expression::Sum(l, r) => if l.deg() >= r.deg() {
                l.deg()
            } else {
                r.deg()
            },
            Expression::Product(l, r) => l.deg() + r.deg(),
            Expression::Power(b, k) => b.deg() * k,
        }
    }
}

/// The witness degree bound of a tree: variables at or above the boundary
/// `w` count towards the degree, variables below it are coefficients.
pub open spec fn expr_wdeg(e: Expression, w: int) -> int
    decreases e,
{
    match e {
        Expression::Constant(_) => 0,
        Expression::Var(v) => if v >= w {
            1
        } else {
            0
        },
        Expression::Sum(l, r) => if expr_wdeg(*l, w) >= expr_wdeg(*r, w) {
            expr_wdeg(*l, w)
        } else {
            expr_wdeg(*r, w)
        },
        Expression::Product(l, r) => expr_wdeg(*l, w) + expr_wdeg(*r, w),
        Expression::Power(b, k) => expr_wdeg(*b, w) * k,
    }
}

/// The degree bound of a tree is never negative.
pub proof fn lemma_expr_deg_nonneg(e: Expression)
    ensures
        e.deg() >= 0,
    decreases e,
{
    match e {
        Expression::Constant(_) => {},
        Expression::Var(_) => {},
        Expression::Sum(l, r) => {
            lemma_expr_deg_nonneg(*l);
            lemma_expr_deg_nonneg(*r);
        },
        Expression::Product(l, r) => {
            lemma_expr_deg_nonneg(*l);
            lemma_expr_deg_nonneg(*r);
        },
        Expression::Power(b, k) => {
            lemma_expr_deg_nonneg(*b);
            vstd::arithmetic::mul::lemma_mul_nonnegative(b.deg(), k as int);
        },
    }
}

/// One variable together with its exponent inside a monomial.
#[derive(Clone, Copy, Debug, PartialEq, Eq, Structural)]
pub struct VarPow {
    /// The flat variable index.
    pub var: usize,
    /// The exponent; always at least one.
    pub pow: u64,
}

/// One monomial: a coefficient and a product of variable powers, kept
/// sorted by ascending variable index with distinct variables.
#[derive(Debug)]
#[verifier::ext_equal]
pub struct Monomial {
    /// The field coefficient.
    pub coeff: Fe,
    /// The variable powers of the monomial.
    pub vars: Vec<VarPow>,
}

/// A polynomial in canonical sum-of-monomials form.
#[derive(Debug)]
#[verifier::ext_equal]
pub struct MultiPoly {
    /// The monomials, kept in the canonical order.
    pub monomials: Vec<Monomial>,
}

/// The value of a product of variable powers under an assignment.
pub open spec fn pows_eval(ps: Seq<VarPow>, a: spec_fn(usize) -> int) -> int
    decreases ps.len(),
{
    if ps.len() == 0 {
        1
    } else {
        fmul(fpow(a(ps[0].var), ps[0].pow as nat), pows_eval(ps.drop_first(), a))
    }
}

/// The value of a monomial under an assignment.
pub open spec fn mono_eval(m: Monomial, a: spec_fn(usize) -> int) -> int {
    fmul(m.coeff.as_int(), pows_eval(m.vars@, a))
}

/// The value of a sum of monomials under an assignment.
pub open spec fn poly_eval(ms: Seq<Monomial>, a: spec_fn(usize) -> int) -> int
    decreases ms.len(),
{
    if ms.len() == 0 {
        0
    } else {
        fadd(mono_eval(ms[0], a), poly_eval(ms.drop_first(), a))
    }
}

/// The total degree of a product of variable powers.
pub open spec fn pows_deg(ps: Seq<VarPow>) -> int
    decreases ps.len(),
{
    if ps.len() == 0 {
        0
    } else {
        ps[0].pow + pows_deg(ps.drop_first())
    }
}

/// The total degree of a monomial.
pub open spec fn mono_deg(m: Monomial) -> int {
    pows_deg(m.vars@)
}

/// All coefficients are canonical.
pub open spec fn poly_wf(ms: Seq<Monomial>) -> bool {
    forall|k: int| 0 <= k < ms.len() ==> (#[trigger] ms[k]).coeff.wf()
}

/// Every monomial has total degree at most `d`.
pub open spec fn poly_deg_le(ms: Seq<Monomial>, d: int) -> bool {
    forall|k: int| 0 <= k < ms.len() ==> mono_deg(#[trigger] ms[k]) <= d
}

/// Degrees of variable-power products are never negative.
pub proof fn lemma_pows_deg_nonneg(ps: Seq<VarPow>)
    ensures
        pows_deg(ps) >= 0,
    decreases ps.len(),
{
    if ps.len() > 0 {
        lemma_pows_deg_nonneg(ps.drop_first());
    }
}

/// The value of a variable-power product is canonical.
pub proof fn lemma_pows_eval_canon(ps: Seq<VarPow>, a: spec_fn(usize) -> int)
    ensures
        canon(pows_eval(ps, a)),
    decreases ps.len(),
{
    if ps.len() == 0 {
    } else {
        lemma_fmul_canon(fpow(a(ps[0].var), ps[0].pow as nat), pows_eval(ps.drop_first(), a));
    }
}

/// The value of a sum of monomials is canonical.
pub proof fn lemma_poly_eval_canon(ms: Seq<Monomial>, a: spec_fn(usize) -> int)
    ensures
        canon(poly_eval(ms, a)),
    decreases ms.len(),
{
    if ms.len() == 0 {
    } else {
        lemma_fadd_canon(mono_eval(ms[0], a), poly_eval(ms.drop_first(), a));
    }
}

/// Appending a monomial adds its value.
pub proof fn lemma_poly_eval_push(ms: Seq<Monomial>, m: Monomial, a: spec_fn(usize) -> int)
    ensures
        poly_eval(ms.push(m), a) == fadd(mono_eval(m, a), poly_eval(ms, a)),
    decreases ms.len(),
{
    if ms.len() == 0 {
        assert(ms.push(m).drop_first() =~= ms);
        lemma_fmul_canon(m.coeff.as_int(), pows_eval(m.vars@, a));
        lemma_fadd_comm(mono_eval(m, a), 0);
    } else {
        assert(ms.push(m).drop_first() =~= ms.drop_first().push(m));
        lemma_poly_eval_push(ms.drop_first(), m, a);
        let x = mono_eval(ms[0], a);
        let y = mono_eval(m, a);
        let z = poly_eval(ms.drop_first(), a);
        lemma_fadd_assoc(x, y, z);
        lemma_fadd_comm(x, y);
        lemma_fadd_assoc(y, x, z);
    }
}

/// Inserting a monomial anywhere adds its value.
pub proof fn lemma_poly_eval_insert(ms: Seq<Monomial>, j: int, m: Monomial, a: spec_fn(usize) -> int)
    requires
        0 <= j <= ms.len(),
    ensures
        poly_eval(ms.insert(j, m), a) == fadd(mono_eval(m, a), poly_eval(ms, a)),
    decreases j,
{
    if j == 0 {
        assert(ms.insert(0, m).drop_first() =~= ms);
    } else {
        assert(ms.insert(j, m).drop_first() =~= ms.drop_first().insert(j - 1, m));
        lemma_poly_eval_insert(ms.drop_first(), j - 1, m, a);
        let x = mono_eval(ms[0], a);
        let y = mono_eval(m, a);
        let z = poly_eval(ms.drop_first(), a);
        lemma_fadd_assoc(x, y, z);
        lemma_fadd_comm(x, y);
        lemma_fadd_assoc(y, x, z);
    }
}

/// Removing a monomial subtracts its value.
pub proof fn lemma_poly_eval_remove(ms: Seq<Monomial>, j: int, a: spec_fn(usize) -> int)
    requires
        0 <= j < ms.len(),
    ensures
        poly_eval(ms, a) == fadd(mono_eval(ms[j], a), poly_eval(ms.remove(j), a)),
    decreases j,
{
    if j == 0 {
        assert(ms.remove(0) =~= ms.drop_first());
    } else {
        assert(ms.remove(j).drop_first() =~= ms.drop_first().remove(j - 1));
        lemma_poly_eval_remove(ms.drop_first(), j - 1, a);
        let x = mono_eval(ms[0], a);
        let y = mono_eval(ms[j], a);
        let z = poly_eval(ms.drop_first().remove(j - 1), a);
        lemma_fadd_assoc(x, y, z);
        lemma_fadd_comm(x, y);
        lemma_fadd_assoc(y, x, z);
    }
}

/// Appending a variable power multiplies its value in.
pub proof fn lemma_pows_eval_push(ps: Seq<VarPow>, vp: VarPow, a: spec_fn(usize) -> int)
    ensures
        pows_eval(ps.push(vp), a) == fmul(pows_eval(ps, a), fpow(a(vp.var), vp.pow as nat)),
    decreases ps.len(),
{
    if ps.len() == 0 {
        assert(ps.push(vp).drop_first() =~= ps);
        let h = fpow(a(vp.var), vp.pow as nat);
        lemma_fmul_comm(h, 1);
    } else {
        assert(ps.push(vp).drop_first() =~= ps.drop_first().push(vp));
        lemma_pows_eval_push(ps.drop_first(), vp, a);
        let x = fpow(a(ps[0].var), ps[0].pow as nat);
        let y = pows_eval(ps.drop_first(), a);
        let h = fpow(a(vp.var), vp.pow as nat);
        lemma_fmul_assoc(x, y, h);
    }
}

/// Appending a variable power adds its exponent to the degree.
pub proof fn lemma_pows_deg_push(ps: Seq<VarPow>, vp: VarPow)
    ensures
        pows_deg(ps.push(vp)) == pows_deg(ps) + vp.pow,
    decreases ps.len(),
{
    if ps.len() == 0 {
        assert(ps.push(vp).drop_first() =~= ps);
    } else {
        assert(ps.push(vp).drop_first() =~= ps.drop_first().push(vp));
        lemma_pows_deg_push(ps.drop_first(), vp);
    }
}

/// Copies a list of variable powers.
fn clone_vars(v: &Vec<VarPow>) -> (r: Vec<VarPow>)
    ensures
        r@ == v@,
{
    let mut out: Vec<VarPow> = Vec::new();
    let mut i: usize = 0;
    while i < v.len()
        invariant
            i <= v.len(),
            out@ =~= v@.subrange(0, i as int),
        decreases v.len() - i,
    {
        out.push(v[i]);
        i = i + 1;
        proof {
            assert(out@ =~= v@.subrange(0, i as int));
        }
    }
    proof {
        assert(out@ =~= v@);
    }
    out
}

/// Decides the canonical order between two monomials: variable powers are
/// compared from the highest variable downwards.
fn mono_less(x: &Monomial, y: &Monomial) -> bool {
    let mut i = x.vars.len();
    let mut j = y.vars.len();
    while i > 0 && j > 0
        invariant
            i <= x.vars.len(),
            j <= y.vars.len(),
        decreases i,
    {
        let a = x.vars[i - 1];
        let b = y.vars[j - 1];
        if a.var != b.var {
            return a.var < b.var;
        }
        if a.pow != b.pow {
            return a.pow < b.pow;
        }
        i = i - 1;
        j = j - 1;
    }
    j > 0
}

/// Decides whether two variable-power lists are identical.
fn vars_eq(x: &Vec<VarPow>, y: &Vec<VarPow>) -> (r: bool)
    ensures
        r ==> x@ == y@,
{
    if x.len() != y.len() {
        return false;
    }
    let mut i: usize = 0;
    while i < x.len()
        invariant
            i <= x.len(),
            x.len() == y.len(),
            forall|k: int| 0 <= k < i ==> x@[k] == y@[k],
        decreases x.len() - i,
    {
        if x[i].var != y[i].var || x[i].pow != y[i].pow {
            return false;
        }
        i = i + 1;
    }
    proof {
        assert(x@ =~= y@);
    }
    true
}

/// Adds one monomial into a polynomial, merging it with an existing
/// monomial over the same variable powers and dropping a vanished result,
/// so that the canonical order is kept.
pub fn poly_insert(p: &mut MultiPoly, m: Monomial)
    requires
        poly_wf(old(p).monomials@),
        m.coeff.wf(),
    ensures
        poly_wf(final(p).monomials@),
        forall|a: spec_fn(usize) -> int|
            #[trigger] poly_eval(final(p).monomials@, a) == fadd(
                mono_eval(m, a),
                poly_eval(old(p).monomials@, a),
            ),
        forall|d: int|
            poly_deg_le(old(p).monomials@, d) && mono_deg(m) <= d ==> poly_deg_le(
                final(p).monomials@,
                d,
            ),
        forall|b: int|
            poly_vars_lt(old(p).monomials@, b) && pows_vars_lt(m.vars@, b) ==> poly_vars_lt(
                final(p).monomials@,
                b,
            ),
{
    let ghost orig = old(p).monomials@;
    let n = p.monomials.len();
    let mut i: usize = 0;
    while i < n && mono_less(&p.monomials[i], &m)
        invariant
            i <= n,
            n == p.monomials.len(),
            p.monomials@ == orig,
        decreases n - i,
    {
        i = i + 1;
    }
    if i < n && vars_eq(&p.monomials[i].vars, &m.vars) {
        let c = p.monomials[i].coeff.add(m.coeff);
        let hit = p.monomials.remove(i);
        proof {
            assert(hit.vars@ == orig[i as int].vars@);
        }
        let merged = Monomial { coeff: c, vars: hit.vars };
        let ghost mg = merged;
        if c.v != 0 {
            p.monomials.insert(i, merged);
            proof {
                let ch = orig[i as int].coeff.as_int();
                let cm = m.coeff.as_int();
                assert forall|a: spec_fn(usize) -> int| #[trigger] poly_eval(
                    p.monomials@,
                    a,
                ) == fadd(mono_eval(m, a), poly_eval(orig, a)) by {
                    lemma_poly_eval_insert(orig.remove(i as int), i as int, mg, a);
                    lemma_poly_eval_remove(orig, i as int, a);
                    let pw = pows_eval(m.vars@, a);
                    assert(orig[i as int].vars@ == m.vars@);
                    assert(mg.vars@ == m.vars@);
                    lemma_fmul_fadd_left(ch, cm, pw);
                    let hv = mono_eval(orig[i as int], a);
                    let mv = mono_eval(m, a);
                    let z = poly_eval(orig.remove(i as int), a);
                    assert(mono_eval(mg, a) == fadd(hv, mv));
                    lemma_fadd_comm(hv, mv);
                    lemma_fadd_assoc(mv, hv, z);
                }
                assert forall|k: int| 0 <= k < p.monomials@.len() && k != i implies #[trigger] p.monomials@[k] == orig[k] by {
                    if k < i {
                        assert(p.monomials@[k] == orig.remove(i as int)[k]);
                    } else {
                        assert(p.monomials@[k] == orig.remove(i as int)[k - 1]);
                    }
                }
                assert(mono_deg(mg) == mono_deg(orig[i as int]));
                assert forall|d: int|
                    poly_deg_le(orig, d) && mono_deg(m) <= d implies poly_deg_le(
                    p.monomials@,
                    d,
                ) by {
                    assert forall|k: int| 0 <= k < p.monomials@.len() implies mono_deg(
                        #[trigger] p.monomials@[k],
                    ) <= d by {
                        if k != i {
                            assert(p.monomials@[k] == orig[k]);
                        }
                    }
                }
                assert forall|b: int|
                    poly_vars_lt(orig, b) && pows_vars_lt(m.vars@, b) implies poly_vars_lt(
                    p.monomials@,
                    b,
                ) by {
                    assert forall|k: int| 0 <= k < p.monomials@.len() implies pows_vars_lt(
                        (#[trigger] p.monomials@[k]).vars@,
                        b,
                    ) by {
                        if k != i {
                            assert(p.monomials@[k] == orig[k]);
                        } else {
                            assert(p.monomials@[k].vars@ == m.vars@);
                        }
                    }
                }
            }
        } else {
            proof {
                let ch = orig[i as int].coeff.as_int();
                let cm = m.coeff.as_int();
                assert forall|a: spec_fn(usize) -> int| #[trigger] poly_eval(
                    p.monomials@,
                    a,
                ) == fadd(mono_eval(m, a), poly_eval(orig, a)) by {
                    lemma_poly_eval_remove(orig, i as int, a);
                    let pw = pows_eval(m.vars@, a);
                    assert(orig[i as int].vars@ == m.vars@);
                    lemma_fmul_fadd_left(ch, cm, pw);
                    assert(fadd(ch, cm) == 0);
                    lemma_fmul_zero(pw);
                    let hv = mono_eval(orig[i as int], a);
                    let mv = mono_eval(m, a);
                    let z = poly_eval(orig.remove(i as int), a);
                    lemma_fadd_comm(hv, mv);
                    lemma_fadd_assoc(mv, hv, z);
                    lemma_poly_eval_canon(orig.remove(i as int), a);
                    lemma_fadd_zero(z);
                }
                assert forall|b: int|
                    poly_vars_lt(orig, b) && pows_vars_lt(m.vars@, b) implies poly_vars_lt(
                    p.monomials@,
                    b,
                ) by {
                    assert forall|k: int| 0 <= k < p.monomials@.len() implies pows_vars_lt(
                        (#[trigger] p.monomials@[k]).vars@,
                        b,
                    ) by {
                        if k < i {
                            assert(p.monomials@[k] == orig[k]);
                        } else {
                            assert(p.monomials@[k] == orig[k + 1]);
                        }
                    }
                }
            }
        }
    } else {
        p.monomials.insert(i, m);
        proof {
            assert forall|a: spec_fn(usize) -> int| #[trigger] poly_eval(p.monomials@, a) == fadd(
                mono_eval(m, a),
                poly_eval(orig, a),
            ) by {
                lemma_poly_eval_insert(orig, i as int, m, a);
            }
            assert forall|d: int|
                poly_deg_le(orig, d) && mono_deg(m) <= d implies poly_deg_le(
                p.monomials@,
                d,
            ) by {
                assert forall|k: int| 0 <= k < p.monomials@.len() implies mono_deg(
                    #[trigger] p.monomials@[k],
                ) <= d by {
                    if k < i {
                        assert(p.monomials@[k] == orig[k]);
                    } else if k > i {
                        assert(p.monomials@[k] == orig[k - 1]);
                    }
                }
            }
            assert forall|k: int| 0 <= k < p.monomials@.len() implies (#[trigger] p.monomials@[k]).coeff.wf() by {
                if k < i {
                    assert(p.monomials@[k] == orig[k]);
                } else if k > i {
                    assert(p.monomials@[k] == orig[k - 1]);
                }
            }
            assert forall|b: int|
                poly_vars_lt(orig, b) && pows_vars_lt(m.vars@, b) implies poly_vars_lt(
                p.monomials@,
                b,
            ) by {
                assert forall|k: int| 0 <= k < p.monomials@.len() implies pows_vars_lt(
                    (#[trigger] p.monomials@[k]).vars@,
                    b,
                ) by {
                    if k < i {
                        assert(p.monomials@[k] == orig[k]);
                    } else if k > i {
                        assert(p.monomials@[k] == orig[k - 1]);
                    }
                }
            }
        }
    }
}


/// The largest total degree of any monomial, zero for the empty polynomial.
pub open spec fn poly_max_deg(ms: Seq<Monomial>) -> int
    decreases ms.len(),
{
    if ms.len() == 0 {
        0
    } else if mono_deg(ms[0]) >= poly_max_deg(ms.drop_first()) {
        mono_deg(ms[0])
    } else {
        poly_max_deg(ms.drop_first())
    }
}

/// The maximal degree bounds every monomial and is never negative.
pub proof fn lemma_poly_max_deg(ms: Seq<Monomial>)
    ensures
        poly_deg_le(ms, poly_max_deg(ms)),
        poly_max_deg(ms) >= 0,
    decreases ms.len(),
{
    if ms.len() > 0 {
        lemma_poly_max_deg(ms.drop_first());
        assert forall|k: int| 0 <= k < ms.len() implies mono_deg(#[trigger] ms[k])
            <= poly_max_deg(ms) by {
            if k > 0 {
                assert(ms[k] == ms.drop_first()[k - 1]);
            } else {
                lemma_pows_deg_nonneg(ms[0].vars@);
            }
        }
        lemma_pows_deg_nonneg(ms[0].vars@);
    }
}

/// A common degree bound also bounds the maximal degree.
pub proof fn lemma_deg_le_to_max(ms: Seq<Monomial>, d: int)
    requires
        poly_deg_le(ms, d),
        d >= 0,
    ensures
        poly_max_deg(ms) <= d,
    decreases ms.len(),
{
    if ms.len() > 0 {
        assert(mono_deg(ms[0]) <= d);
        assert forall|k: int| 0 <= k < ms.drop_first().len() implies mono_deg(
            #[trigger] ms.drop_first()[k],
        ) <= d by {
            assert(ms.drop_first()[k] == ms[k + 1]);
        }
        lemma_deg_le_to_max(ms.drop_first(), d);
    }
}

/// Adds two polynomials in canonical form.
pub fn poly_add(p: MultiPoly, q: MultiPoly) -> (r: MultiPoly)
    requires
        poly_wf(p.monomials@),
        poly_wf(q.monomials@),
    ensures
        poly_wf(r.monomials@),
        forall|a: spec_fn(usize) -> int| #[trigger] poly_eval(r.monomials@, a) == fadd(
            poly_eval(p.monomials@, a),
            poly_eval(q.monomials@, a),
        ),
        forall|d: int|
            poly_deg_le(p.monomials@, d) && poly_deg_le(q.monomials@, d) ==> poly_deg_le(
                r.monomials@,
                d,
            ),
        forall|b: int|
            poly_vars_lt(p.monomials@, b) && poly_vars_lt(q.monomials@, b) ==> poly_vars_lt(
                r.monomials@,
                b,
            ),
{
    let ghost porig = p.monomials@;
    let ghost qorig = q.monomials@;
    let mut out = p;
    let mut rest = q;
    let ghost mut k: int = 0;
    proof {
        assert(qorig.subrange(0, 0) =~= Seq::<Monomial>::empty());
        assert(rest.monomials@ =~= qorig.skip(0));
        assert forall|a: spec_fn(usize) -> int| #[trigger] poly_eval(out.monomials@, a) == fadd(
            poly_eval(porig, a),
            poly_eval(qorig.subrange(0, 0), a),
        ) by {
            assert(poly_eval(Seq::<Monomial>::empty(), a) == 0);
            lemma_poly_eval_canon(porig, a);
            lemma_fadd_zero(poly_eval(porig, a));
        }
    }
    while rest.monomials.len() > 0
        invariant
            poly_wf(out.monomials@),
            poly_wf(qorig),
            0 <= k <= qorig.len(),
            rest.monomials@ =~= qorig.skip(k),
            forall|a: spec_fn(usize) -> int| #[trigger] poly_eval(out.monomials@, a) == fadd(
                poly_eval(porig, a),
                poly_eval(qorig.subrange(0, k), a),
            ),
            forall|d: int|
                poly_deg_le(porig, d) && poly_deg_le(qorig, d) ==> poly_deg_le(
                    out.monomials@,
                    d,
                ),
            forall|b: int|
                poly_vars_lt(porig, b) && poly_vars_lt(qorig, b) ==> poly_vars_lt(
                    out.monomials@,
                    b,
                ),
        decreases rest.monomials.len(),
    {
        let m = rest.monomials.remove(0);
        proof {
            assert(m == qorig[k]);
            assert(rest.monomials@ =~= qorig.skip(k + 1));
        }
        let ghost before = out.monomials@;
        poly_insert(&mut out, m);
        proof {
            assert forall|a: spec_fn(usize) -> int| #[trigger] poly_eval(out.monomials@, a)
                == fadd(poly_eval(porig, a), poly_eval(qorig.subrange(0, k + 1), a)) by {
                assert(poly_eval(before, a) == fadd(
                    poly_eval(porig, a),
                    poly_eval(qorig.subrange(0, k), a),
                ));
                assert(qorig.subrange(0, k as int + 1) =~= qorig.subrange(0, k as int).push(
                    qorig[k as int],
                ));
                lemma_poly_eval_push(qorig.subrange(0, k as int), qorig[k as int], a);
                let mv = mono_eval(qorig[k as int], a);
                let pv = poly_eval(porig, a);
                let tv = poly_eval(qorig.subrange(0, k), a);
                lemma_fadd_assoc(mv, pv, tv);
                lemma_fadd_comm(mv, pv);
                lemma_fadd_assoc(pv, mv, tv);
            }
        }
        proof {
            k = k + 1;
        }
    }
    proof {
        assert(qorig.subrange(0, k) =~= qorig);
    }
    out
}

/// Multiplies two monomials, merging the variable powers.
pub fn mono_mul(x: &Monomial, y: &Monomial) -> (r: Monomial)
    requires
        x.coeff.wf(),
        y.coeff.wf(),
        mono_deg(*x) + mono_deg(*y) <= u64::MAX as int,
    ensures
        r.coeff.wf(),
        mono_deg(r) <= mono_deg(*x) + mono_deg(*y),
        forall|b: int|
            pows_vars_lt(x.vars@, b) && pows_vars_lt(y.vars@, b) ==> pows_vars_lt(r.vars@, b),
        forall|a: spec_fn(usize) -> int| #[trigger] mono_eval(r, a) == fmul(
            mono_eval(*x, a),
            mono_eval(*y, a),
        ),
{
    let xs = &x.vars;
    let ys = &y.vars;
    let mut vars: Vec<VarPow> = Vec::new();
    let mut i: usize = 0;
    let mut j: usize = 0;
    proof {
        assert(xs@.skip(0) =~= xs@);
        assert(ys@.skip(0) =~= ys@);
        assert(vars@ =~= Seq::<VarPow>::empty());
        assert forall|a: spec_fn(usize) -> int| #[trigger] fmul(
            pows_eval(vars@, a),
            fmul(pows_eval(xs@.skip(0), a), pows_eval(ys@.skip(0), a)),
        ) == fmul(pows_eval(xs@, a), pows_eval(ys@, a)) by {
            assert(pows_eval(Seq::<VarPow>::empty(), a) == 1);
            let w = fmul(pows_eval(xs@, a), pows_eval(ys@, a));
            lemma_fmul_canon(pows_eval(xs@, a), pows_eval(ys@, a));
            lemma_fmul_one(w);
        }
    }
    while i < xs.len() || j < ys.len()
        invariant
            i <= xs.len(),
            j <= ys.len(),
            xs@ == x.vars@,
            ys@ == y.vars@,
            mono_deg(*x) + mono_deg(*y) <= u64::MAX as int,
            pows_deg(vars@) + pows_deg(xs@.skip(i as int)) + pows_deg(ys@.skip(j as int))
                == pows_deg(xs@) + pows_deg(ys@),
            pows_deg(vars@) >= 0,
            forall|b: int|
                pows_vars_lt(x.vars@, b) && pows_vars_lt(y.vars@, b) ==> pows_vars_lt(vars@, b),
            forall|a: spec_fn(usize) -> int| #[trigger] fmul(
                pows_eval(vars@, a),
                fmul(pows_eval(xs@.skip(i as int), a), pows_eval(ys@.skip(j as int), a)),
            ) == fmul(pows_eval(xs@, a), pows_eval(ys@, a)),
        decreases xs.len() - i + ys.len() - j,
    {
        let ghost vold = vars@;
        if i < xs.len() && j < ys.len() && xs[i].var == ys[j].var {
            proof {
                assert(xs@.skip(i as int).drop_first() =~= xs@.skip(i as int + 1));
                assert(ys@.skip(j as int).drop_first() =~= ys@.skip(j as int + 1));
                assert(pows_deg(xs@.skip(i as int)) == xs@[i as int].pow + pows_deg(
                    xs@.skip(i as int + 1),
                ));
                assert(pows_deg(ys@.skip(j as int)) == ys@[j as int].pow + pows_deg(
                    ys@.skip(j as int + 1),
                ));
                lemma_pows_deg_nonneg(xs@.skip(i as int + 1));
                lemma_pows_deg_nonneg(ys@.skip(j as int + 1));
                assert(xs@ == x.vars@);
                assert(ys@ == y.vars@);
                assert(mono_deg(*x) == pows_deg(xs@));
                assert(mono_deg(*y) == pows_deg(ys@));
                assert(xs@[i as int].pow + ys@[j as int].pow <= u64::MAX as int);
            }
            let vp = VarPow { var: xs[i].var, pow: xs[i].pow + ys[j].pow };
            vars.push(vp);
            proof {
                assert forall|b: int|
                    pows_vars_lt(x.vars@, b) && pows_vars_lt(y.vars@, b) implies pows_vars_lt(
                    vars@,
                    b,
                ) by {
                    assert(pows_vars_lt(vold, b));
                    assert forall|t2: int| 0 <= t2 < vars@.len() implies (#[trigger] vars@[t2]).var
                        < b by {
                        if t2 < vold.len() {
                            assert(vars@[t2] == vold[t2]);
                        } else {
                            assert(vars@[t2] == vp);
                            assert(xs@[i as int].var < b);
                        }
                    }
                }
            }
            proof {
                assert(xs@.skip(i as int).drop_first() =~= xs@.skip(i as int + 1));
                assert(ys@.skip(j as int).drop_first() =~= ys@.skip(j as int + 1));
                lemma_pows_deg_push(vold, vp);
                assert forall|a: spec_fn(usize) -> int| #[trigger] fmul(
                    pows_eval(vars@, a),
                    fmul(
                        pows_eval(xs@.skip(i as int + 1), a),
                        pows_eval(ys@.skip(j as int + 1), a),
                    ),
                ) == fmul(pows_eval(xs@, a), pows_eval(ys@, a)) by {
                    assert(fmul(
                        pows_eval(vold, a),
                        fmul(pows_eval(xs@.skip(i as int), a), pows_eval(ys@.skip(j as int), a)),
                    ) == fmul(pows_eval(xs@, a), pows_eval(ys@, a)));
                    let o = pows_eval(vold, a);
                    let hx = fpow(a(xs@[i as int].var), xs@[i as int].pow as nat);
                    let hy = fpow(a(ys@[j as int].var), ys@[j as int].pow as nat);
                    let xr = pows_eval(xs@.skip(i as int + 1), a);
                    let yr = pows_eval(ys@.skip(j as int + 1), a);
                    let h = fpow(a(vp.var), vp.pow as nat);
                    lemma_fpow_add(a(vp.var), xs@[i as int].pow as nat, ys@[j as int].pow as nat);
                    assert(h == fmul(hx, hy));
                    lemma_pows_eval_push(vold, vp, a);
                    lemma_fmul_assoc(o, h, fmul(xr, yr));
                    lemma_fmul_reorder4(hx, hy, xr, yr);
                    assert(pows_eval(xs@.skip(i as int), a) == fmul(hx, xr));
                    assert(pows_eval(ys@.skip(j as int), a) == fmul(hy, yr));
                }
            }
            i = i + 1;
            j = j + 1;
        } else if j >= ys.len() || (i < xs.len() && xs[i].var < ys[j].var) {
            let vp = xs[i];
            vars.push(vp);
            proof {
                assert forall|b: int|
                    pows_vars_lt(x.vars@, b) && pows_vars_lt(y.vars@, b) implies pows_vars_lt(
                    vars@,
                    b,
                ) by {
                    assert(pows_vars_lt(vold, b));
                    assert forall|t2: int| 0 <= t2 < vars@.len() implies (#[trigger] vars@[t2]).var
                        < b by {
                        if t2 < vold.len() {
                            assert(vars@[t2] == vold[t2]);
                        } else {
                            assert(vars@[t2] == vp);
                            assert(xs@[i as int].var < b);
                        }
                    }
                }
            }
            proof {
                assert(xs@.skip(i as int).drop_first() =~= xs@.skip(i as int + 1));
                assert(pows_deg(xs@.skip(i as int)) == xs@[i as int].pow + pows_deg(
                    xs@.skip(i as int + 1),
                ));
                lemma_pows_deg_push(vold, vp);
                lemma_pows_deg_nonneg(vars@);
                assert forall|a: spec_fn(usize) -> int| #[trigger] fmul(
                    pows_eval(vars@, a),
                    fmul(pows_eval(xs@.skip(i as int + 1), a), pows_eval(ys@.skip(j as int), a)),
                ) == fmul(pows_eval(xs@, a), pows_eval(ys@, a)) by {
                    assert(fmul(
                        pows_eval(vold, a),
                        fmul(pows_eval(xs@.skip(i as int), a), pows_eval(ys@.skip(j as int), a)),
                    ) == fmul(pows_eval(xs@, a), pows_eval(ys@, a)));
                    let o = pows_eval(vold, a);
                    let h = fpow(a(vp.var), vp.pow as nat);
                    let xr = pows_eval(xs@.skip(i as int + 1), a);
                    let yv = pows_eval(ys@.skip(j as int), a);
                    lemma_pows_eval_push(vold, vp, a);
                    assert(pows_eval(xs@.skip(i as int), a) == fmul(h, xr));
                    lemma_fmul_assoc(o, h, fmul(xr, yv));
                    lemma_fmul_assoc(h, xr, yv);
                }
            }
            i = i + 1;
        } else {
            let vp = ys[j];
            vars.push(vp);
            proof {
                assert forall|b: int|
                    pows_vars_lt(x.vars@, b) && pows_vars_lt(y.vars@, b) implies pows_vars_lt(
                    vars@,
                    b,
                ) by {
                    assert(pows_vars_lt(vold, b));
                    assert forall|t2: int| 0 <= t2 < vars@.len() implies (#[trigger] vars@[t2]).var
                        < b by {
                        if t2 < vold.len() {
                            assert(vars@[t2] == vold[t2]);
                        } else {
                            assert(vars@[t2] == vp);
                            assert(ys@[j as int].var < b);
                        }
                    }
                }
            }
            proof {
                assert(ys@.skip(j as int).drop_first() =~= ys@.skip(j as int + 1));
                assert(pows_deg(ys@.skip(j as int)) == ys@[j as int].pow + pows_deg(
                    ys@.skip(j as int + 1),
                ));
                lemma_pows_deg_push(vold, vp);
                lemma_pows_deg_nonneg(vars@);
                assert forall|a: spec_fn(usize) -> int| #[trigger] fmul(
                    pows_eval(vars@, a),
                    fmul(pows_eval(xs@.skip(i as int), a), pows_eval(ys@.skip(j as int + 1), a)),
                ) == fmul(pows_eval(xs@, a), pows_eval(ys@, a)) by {
                    assert(fmul(
                        pows_eval(vold, a),
                        fmul(pows_eval(xs@.skip(i as int), a), pows_eval(ys@.skip(j as int), a)),
                    ) == fmul(pows_eval(xs@, a), pows_eval(ys@, a)));
                    let o = pows_eval(vold, a);
                    let h = fpow(a(vp.var), vp.pow as nat);
                    let xv = pows_eval(xs@.skip(i as int), a);
                    let yr = pows_eval(ys@.skip(j as int + 1), a);
                    lemma_pows_eval_push(vold, vp, a);
                    assert(pows_eval(ys@.skip(j as int), a) == fmul(h, yr));
                    lemma_fmul_assoc(o, h, fmul(xv, yr));
                    lemma_fmul_assoc(h, xv, yr);
                    lemma_fmul_comm(h, xv);
                    lemma_fmul_assoc(xv, h, yr);
                }
            }
            j = j + 1;
        }
    }
    let c = x.coeff.mul(y.coeff);
    let r = Monomial { coeff: c, vars };
    proof {
        assert(xs@.skip(i as int) =~= Seq::<VarPow>::empty());
        assert(ys@.skip(j as int) =~= Seq::<VarPow>::empty());
        assert forall|a: spec_fn(usize) -> int| #[trigger] mono_eval(r, a) == fmul(
            mono_eval(*x, a),
            mono_eval(*y, a),
        ) by {
            assert(fmul(
                pows_eval(r.vars@, a),
                fmul(pows_eval(xs@.skip(i as int), a), pows_eval(ys@.skip(j as int), a)),
            ) == fmul(pows_eval(xs@, a), pows_eval(ys@, a)));
            assert(pows_eval(Seq::<VarPow>::empty(), a) == 1);
            let o = pows_eval(r.vars@, a);
            lemma_fmul_one(1);
            lemma_pows_eval_canon(r.vars@, a);
            lemma_fmul_one(o);
            lemma_fmul_reorder4(
                x.coeff.as_int(),
                y.coeff.as_int(),
                pows_eval(xs@, a),
                pows_eval(ys@, a),
            );
        }
    }
    r
}

/// Multiplies two polynomials in canonical form.
pub fn poly_mul(p: &MultiPoly, q: &MultiPoly) -> (r: MultiPoly)
    requires
        poly_wf(p.monomials@),
        poly_wf(q.monomials@),
        poly_max_deg(p.monomials@) + poly_max_deg(q.monomials@) <= u64::MAX as int,
    ensures
        poly_wf(r.monomials@),
        poly_deg_le(r.monomials@, poly_max_deg(p.monomials@) + poly_max_deg(q.monomials@)),
        forall|b: int|
            poly_vars_lt(p.monomials@, b) && poly_vars_lt(q.monomials@, b) ==> poly_vars_lt(
                r.monomials@,
                b,
            ),
        forall|a: spec_fn(usize) -> int| #[trigger] poly_eval(r.monomials@, a) == fmul(
            poly_eval(p.monomials@, a),
            poly_eval(q.monomials@, a),
        ),
{
    let ghost dp = poly_max_deg(p.monomials@);
    let ghost dq = poly_max_deg(q.monomials@);
    proof {
        lemma_poly_max_deg(p.monomials@);
        lemma_poly_max_deg(q.monomials@);
    }
    let mut out = MultiPoly { monomials: Vec::new() };
    let mut i: usize = 0;
    proof {
        assert(p.monomials@.subrange(0, 0) =~= Seq::<Monomial>::empty());
        assert(out.monomials@ =~= Seq::<Monomial>::empty());
        assert forall|a: spec_fn(usize) -> int| #[trigger] poly_eval(out.monomials@, a) == fmul(
            poly_eval(p.monomials@.subrange(0, 0), a),
            poly_eval(q.monomials@, a),
        ) by {
            assert(poly_eval(Seq::<Monomial>::empty(), a) == 0);
            lemma_fmul_zero(poly_eval(q.monomials@, a));
        }
    }
    while i < p.monomials.len()
        invariant
            i <= p.monomials.len(),
            poly_wf(p.monomials@),
            poly_wf(q.monomials@),
            dp == poly_max_deg(p.monomials@),
            dq == poly_max_deg(q.monomials@),
            dp + dq <= u64::MAX as int,
            poly_deg_le(p.monomials@, dp),
            poly_deg_le(q.monomials@, dq),
            poly_wf(out.monomials@),
            poly_deg_le(out.monomials@, dp + dq),
            forall|b: int|
                poly_vars_lt(p.monomials@, b) && poly_vars_lt(q.monomials@, b) ==> poly_vars_lt(
                    out.monomials@,
                    b,
                ),
            forall|a: spec_fn(usize) -> int| #[trigger] poly_eval(out.monomials@, a) == fmul(
                poly_eval(p.monomials@.subrange(0, i as int), a),
                poly_eval(q.monomials@, a),
            ),
        decreases p.monomials.len() - i,
    {
        let ghost base = out.monomials@;
        let mut j: usize = 0;
        proof {
            assert(q.monomials@.subrange(0, 0) =~= Seq::<Monomial>::empty());
            assert forall|a: spec_fn(usize) -> int| #[trigger] poly_eval(out.monomials@, a)
                == fadd(
                poly_eval(base, a),
                fmul(
                    mono_eval(p.monomials@[i as int], a),
                    poly_eval(q.monomials@.subrange(0, 0), a),
                ),
            ) by {
                assert(poly_eval(Seq::<Monomial>::empty(), a) == 0);
                lemma_fmul_zero(mono_eval(p.monomials@[i as int], a));
                lemma_poly_eval_canon(base, a);
                lemma_fadd_zero(poly_eval(base, a));
            }
        }
        while j < q.monomials.len()
            invariant
                i < p.monomials.len(),
                j <= q.monomials.len(),
                poly_wf(p.monomials@),
                poly_wf(q.monomials@),
                dp == poly_max_deg(p.monomials@),
                dq == poly_max_deg(q.monomials@),
                dp + dq <= u64::MAX as int,
                poly_deg_le(p.monomials@, dp),
                poly_deg_le(q.monomials@, dq),
                poly_wf(out.monomials@),
                poly_deg_le(out.monomials@, dp + dq),
                forall|b: int|
                    poly_vars_lt(p.monomials@, b) && poly_vars_lt(q.monomials@, b)
                        ==> poly_vars_lt(out.monomials@, b),
                forall|a: spec_fn(usize) -> int| #[trigger] poly_eval(out.monomials@, a) == fadd(
                    poly_eval(base, a),
                    fmul(
                        mono_eval(p.monomials@[i as int], a),
                        poly_eval(q.monomials@.subrange(0, j as int), a),
                    ),
                ),
            decreases q.monomials.len() - j,
        {
            proof {
                lemma_pows_deg_nonneg(p.monomials@[i as int].vars@);
                lemma_pows_deg_nonneg(q.monomials@[j as int].vars@);
            }
            let mm = mono_mul(&p.monomials[i], &q.monomials[j]);
            let ghost before = out.monomials@;
            poly_insert(&mut out, mm);
            proof {
                assert forall|a: spec_fn(usize) -> int| #[trigger] poly_eval(out.monomials@, a)
                    == fadd(
                    poly_eval(base, a),
                    fmul(
                        mono_eval(p.monomials@[i as int], a),
                        poly_eval(q.monomials@.subrange(0, j as int + 1), a),
                    ),
                ) by {
                    assert(poly_eval(before, a) == fadd(
                        poly_eval(base, a),
                        fmul(
                            mono_eval(p.monomials@[i as int], a),
                            poly_eval(q.monomials@.subrange(0, j as int), a),
                        ),
                    ));
                    assert(q.monomials@.subrange(0, j as int + 1) =~= q.monomials@.subrange(
                        0,
                        j as int,
                    ).push(q.monomials@[j as int]));
                    lemma_poly_eval_push(
                        q.monomials@.subrange(0, j as int),
                        q.monomials@[j as int],
                        a,
                    );
                    let mi = mono_eval(p.monomials@[i as int], a);
                    let mj = mono_eval(q.monomials@[j as int], a);
                    let tj = poly_eval(q.monomials@.subrange(0, j as int), a);
                    let bv = poly_eval(base, a);
                    lemma_fmul_comm(mi, fadd(mj, tj));
                    lemma_fmul_fadd_left(mj, tj, mi);
                    lemma_fmul_comm(mj, mi);
                    lemma_fmul_comm(tj, mi);
                    let x1 = fmul(mi, mj);
                    let x2 = fmul(mi, tj);
                    assert(mono_eval(mm, a) == x1);
                    lemma_fadd_assoc(x1, bv, x2);
                    lemma_fadd_comm(x1, bv);
                    lemma_fadd_assoc(bv, x1, x2);
                }
            }
            j = j + 1;
        }
        proof {
            assert(q.monomials@.subrange(0, q.monomials@.len() as int) =~= q.monomials@);
            assert forall|a: spec_fn(usize) -> int| #[trigger] poly_eval(out.monomials@, a)
                == fmul(
                poly_eval(p.monomials@.subrange(0, i as int + 1), a),
                poly_eval(q.monomials@, a),
            ) by {
                assert(poly_eval(out.monomials@, a) == fadd(
                    poly_eval(base, a),
                    fmul(mono_eval(p.monomials@[i as int], a), poly_eval(q.monomials@, a)),
                ));
                assert(poly_eval(base, a) == fmul(
                    poly_eval(p.monomials@.subrange(0, i as int), a),
                    poly_eval(q.monomials@, a),
                ));
                assert(p.monomials@.subrange(0, i as int + 1) =~= p.monomials@.subrange(
                    0,
                    i as int,
                ).push(p.monomials@[i as int]));
                lemma_poly_eval_push(
                    p.monomials@.subrange(0, i as int),
                    p.monomials@[i as int],
                    a,
                );
                let mi = mono_eval(p.monomials@[i as int], a);
                let ti = poly_eval(p.monomials@.subrange(0, i as int), a);
                let qv = poly_eval(q.monomials@, a);
                lemma_fmul_fadd_left(mi, ti, qv);
                lemma_fadd_comm(fmul(mi, qv), fmul(ti, qv));
            }
        }
        i = i + 1;
    }
    proof {
        assert(p.monomials@.subrange(0, p.monomials@.len() as int) =~= p.monomials@);
    }
    out
}

/// The polynomial holding a single constant.
fn poly_const(c: Fe) -> (r: MultiPoly)
    requires
        c.wf(),
    ensures
        poly_wf(r.monomials@),
        poly_deg_le(r.monomials@, 0),
        forall|b: int| poly_vars_lt(r.monomials@, b),
        forall|a: spec_fn(usize) -> int| #[trigger] poly_eval(r.monomials@, a) == c.as_int(),
{
    let mut ms: Vec<Monomial> = Vec::new();
    if c.v != 0 {
        ms.push(Monomial { coeff: c, vars: Vec::new() });
    }
    let r = MultiPoly { monomials: ms };
    proof {
        assert forall|a: spec_fn(usize) -> int| #[trigger] poly_eval(r.monomials@, a)
            == c.as_int() by {
            if c.v != 0 {
                assert(r.monomials@.drop_first() =~= Seq::<Monomial>::empty());
                assert(r.monomials@[0].vars@ =~= Seq::<VarPow>::empty());
                assert(poly_eval(Seq::<Monomial>::empty(), a) == 0);
                assert(pows_eval(Seq::<VarPow>::empty(), a) == 1);
                assert(mono_eval(r.monomials@[0], a) == fmul(c.as_int(), 1));
                lemma_fmul_one(c.as_int());
                assert(poly_eval(r.monomials@, a) == fadd(c.as_int(), 0));
                lemma_fadd_zero(c.as_int());
            } else {
                assert(r.monomials@ =~= Seq::<Monomial>::empty());
            }
        }
        assert forall|k: int| 0 <= k < r.monomials@.len() implies mono_deg(
            #[trigger] r.monomials@[k],
        ) <= 0 by {
            assert(r.monomials@[k].vars@ =~= Seq::<VarPow>::empty());
            assert(pows_deg(Seq::<VarPow>::empty()) == 0);
        }
    }
    r
}

/// The polynomial holding the single constant one.
fn poly_one() -> (r: MultiPoly)
    ensures
        poly_wf(r.monomials@),
        poly_deg_le(r.monomials@, 0),
        forall|b: int| poly_vars_lt(r.monomials@, b),
        forall|a: spec_fn(usize) -> int| #[trigger] poly_eval(r.monomials@, a) == 1,
{
    let mut ms: Vec<Monomial> = Vec::new();
    ms.push(Monomial { coeff: Fe::one(), vars: Vec::new() });
    let r = MultiPoly { monomials: ms };
    proof {
        assert forall|a: spec_fn(usize) -> int| #[trigger] poly_eval(r.monomials@, a) == 1 by {
            assert(r.monomials@.drop_first() =~= Seq::<Monomial>::empty());
            assert(r.monomials@[0].vars@ =~= Seq::<VarPow>::empty());
            assert(poly_eval(Seq::<Monomial>::empty(), a) == 0);
            assert(pows_eval(Seq::<VarPow>::empty(), a) == 1);
            assert(mono_eval(r.monomials@[0], a) == fmul(1, 1));
            lemma_fmul_one(1);
            assert(poly_eval(r.monomials@, a) == fadd(1, 0));
            lemma_fadd_zero(1);
        }
        assert forall|k: int| 0 <= k < r.monomials@.len() implies mono_deg(
            #[trigger] r.monomials@[k],
        ) <= 0 by {
            assert(r.monomials@[k].vars@ =~= Seq::<VarPow>::empty());
            assert(pows_deg(Seq::<VarPow>::empty()) == 0);
        }
    }
    r
}

/// Raises a polynomial to a fixed exponent by repeated multiplication.
pub fn poly_pow(p: &MultiPoly, k: u64) -> (r: MultiPoly)
    requires
        poly_wf(p.monomials@),
        poly_max_deg(p.monomials@) * k <= u64::MAX as int,
    ensures
        poly_wf(r.monomials@),
        poly_deg_le(r.monomials@, poly_max_deg(p.monomials@) * k),
        forall|b: int| poly_vars_lt(p.monomials@, b) ==> poly_vars_lt(r.monomials@, b),
        forall|a: spec_fn(usize) -> int| #[trigger] poly_eval(r.monomials@, a) == fpow(
            poly_eval(p.monomials@, a),
            k as nat,
        ),
{
    let ghost d = poly_max_deg(p.monomials@);
    proof {
        lemma_poly_max_deg(p.monomials@);
    }
    let mut out = poly_one();
    let mut n: u64 = 0;
    proof {
        vstd::arithmetic::mul::lemma_mul_basics(d);
    }
    while n < k
        invariant
            n <= k,
            poly_wf(p.monomials@),
            d == poly_max_deg(p.monomials@),
            d >= 0,
            d * k <= u64::MAX as int,
            poly_deg_le(p.monomials@, d),
            poly_wf(out.monomials@),
            poly_deg_le(out.monomials@, d * n),
            forall|b: int| poly_vars_lt(p.monomials@, b) ==> poly_vars_lt(out.monomials@, b),
            forall|a: spec_fn(usize) -> int| #[trigger] poly_eval(out.monomials@, a) == fpow(
                poly_eval(p.monomials@, a),
                n as nat,
            ),
        decreases k - n,
    {
        proof {
            assert(d * n >= 0) by (nonlinear_arith)
                requires
                    d >= 0,
                    n >= 0,
            ;
            lemma_deg_le_to_max(out.monomials@, d * n);
            assert(d * n + d == d * (n + 1)) by (nonlinear_arith);
            assert(d * (n + 1) <= d * k) by (nonlinear_arith)
                requires
                    d >= 0,
                    n + 1 <= k,
            ;
        }
        let prev = out;
        out = poly_mul(&prev, p);
        proof {
            assert forall|a: spec_fn(usize) -> int| #[trigger] poly_eval(out.monomials@, a)
                == fpow(poly_eval(p.monomials@, a), (n + 1) as nat) by {
                assert(poly_eval(prev.monomials@, a) == fpow(poly_eval(p.monomials@, a), n as nat));
                let pv = poly_eval(p.monomials@, a);
                lemma_fmul_comm(fpow(pv, n as nat), pv);
            }
            assert forall|k2: int| 0 <= k2 < out.monomials@.len() implies mono_deg(
                #[trigger] out.monomials@[k2],
            ) <= d * (n + 1) by {
                assert(mono_deg(out.monomials@[k2]) <= poly_max_deg(prev.monomials@) + d);
            }
        }
        n = n + 1;
    }
    out
}

impl Expression {
    /// Rewrites the tree into canonical sum-of-monomials form.  The result
    /// takes the same value as the source expression under every assignment.
    #[verifier::rlimit(60)]
    pub fn expand(&self) -> (r: MultiPoly)
        requires
            self.wf(),
            self.deg() <= u64::MAX as int,
        ensures
            poly_wf(r.monomials@),
            poly_deg_le(r.monomials@, self.deg()),
            forall|b: int| expr_vars_lt(*self, b) ==> poly_vars_lt(r.monomials@, b),
            forall|a: spec_fn(usize) -> int|
                valid_assign(a) ==> #[trigger] poly_eval(r.monomials@, a) == self.eval(a),
        decreases self,
    {
        match self {
            Expression::Constant(c) => {
                let r = poly_const(*c);
                proof {
                    assert(poly_deg_le(r.monomials@, self.deg()));
                }
                r
            },
            Expression::Var(x) => {
                let mut vs: Vec<VarPow> = Vec::new();
                vs.push(VarPow { var: *x, pow: 1 });
                let mut ms: Vec<Monomial> = Vec::new();
                ms.push(Monomial { coeff: Fe::one(), vars: vs });
                let r = MultiPoly { monomials: ms };
                proof {
                    assert forall|a: spec_fn(usize) -> int| valid_assign(a) implies #[trigger] poly_eval(
                        r.monomials@,
                        a,
                    ) == self.eval(a) by {
                        assert(r.monomials@.drop_first() =~= Seq::<Monomial>::empty());
                        let ps = r.monomials@[0].vars@;
                        assert(ps.drop_first() =~= Seq::<VarPow>::empty());
                        assert(canon(a(*x)));
                        assert(poly_eval(Seq::<Monomial>::empty(), a) == 0);
                        assert(pows_eval(Seq::<VarPow>::empty(), a) == 1);
                        assert(fpow(a(*x), 0nat) == 1);
                        assert(fpow(a(*x), 1nat) == fmul(a(*x), fpow(a(*x), 0nat)));
                        lemma_fmul_one(a(*x));
                        assert(fpow(a(*x), 1nat) == a(*x));
                        assert(pows_eval(ps, a) == fmul(fpow(a(*x), 1nat), 1));
                        assert(pows_eval(ps, a) == a(*x));
                        assert(mono_eval(r.monomials@[0], a) == fmul(1, a(*x)));
                        assert(poly_eval(r.monomials@, a) == fadd(a(*x), 0));
                        lemma_fadd_zero(a(*x));
                    }
                    assert forall|k: int| 0 <= k < r.monomials@.len() implies mono_deg(
                        #[trigger] r.monomials@[k],
                    ) <= self.deg() by {
                        let ps = r.monomials@[k].vars@;
                        assert(ps.drop_first() =~= Seq::<VarPow>::empty());
                        assert(pows_deg(Seq::<VarPow>::empty()) == 0);
                        assert(pows_deg(ps) == ps[0].pow + 0);
                    }
                    assert forall|b: int| expr_vars_lt(*self, b) implies poly_vars_lt(
                        r.monomials@,
                        b,
                    ) by {
                        assert forall|k: int| 0 <= k < r.monomials@.len() implies pows_vars_lt(
                            (#[trigger] r.monomials@[k]).vars@,
                            b,
                        ) by {
                            assert forall|t: int|
                                0 <= t < r.monomials@[k].vars@.len() implies (
                            #[trigger] r.monomials@[k].vars@[t]).var < b by {
                                assert(r.monomials@[k].vars@[t] == VarPow { var: *x, pow: 1 });
                            }
                        }
                    }
                }
                r
            },
            Expression::Sum(l, rr) => {
                proof {
                    lemma_expr_deg_nonneg(**l);
                    lemma_expr_deg_nonneg(**rr);
                }
                let pl = l.expand();
                let pr = rr.expand();
                let ghost plg = pl.monomials@;
                let ghost prg = pr.monomials@;
                let r = poly_add(pl, pr);
                proof {
                    assert forall|b: int| expr_vars_lt(*self, b) implies poly_vars_lt(
                        r.monomials@,
                        b,
                    ) by {
                        assert(expr_vars_lt(**l, b));
                        assert(expr_vars_lt(**rr, b));
                        assert(poly_vars_lt(plg, b));
                        assert(poly_vars_lt(prg, b));
                    }
                }
                r
            },
            Expression::Product(l, rr) => {
                proof {
                    lemma_expr_deg_nonneg(**l);
                    lemma_expr_deg_nonneg(**rr);
                }
                let pl = l.expand();
                let pr = rr.expand();
                proof {
                    lemma_deg_le_to_max(pl.monomials@, l.deg());
                    lemma_deg_le_to_max(pr.monomials@, rr.deg());
                }
                let r = poly_mul(&pl, &pr);
                proof {
                    assert forall|b: int| expr_vars_lt(*self, b) implies poly_vars_lt(
                        r.monomials@,
                        b,
                    ) by {
                        assert(expr_vars_lt(**l, b));
                        assert(expr_vars_lt(**rr, b));
                        assert(poly_vars_lt(pl.monomials@, b));
                        assert(poly_vars_lt(pr.monomials@, b));
                    }
                }
                r
            },
            Expression::Power(b2, k) => {
                if *k == 0 {
                    let r = poly_one();
                    proof {
                        vstd::arithmetic::mul::lemma_mul_basics(b2.deg());
                        assert(self.deg() == 0);
                        assert forall|a: spec_fn(usize) -> int| valid_assign(
                            a,
                        ) implies #[trigger] poly_eval(r.monomials@, a) == self.eval(a) by {
                            assert(fpow(b2.eval(a), 0nat) == 1);
                        }
                    }
                    r
                } else {
                    proof {
                        lemma_expr_deg_nonneg(**b2);
                        assert(b2.deg() <= b2.deg() * (*k as int)) by (nonlinear_arith)
                            requires
                                b2.deg() >= 0,
                                *k >= 1,
                        ;
                    }
                    let pb = b2.expand();
                    proof {
                        lemma_deg_le_to_max(pb.monomials@, b2.deg());
                        assert(poly_max_deg(pb.monomials@) * (*k as int) <= b2.deg() * (
                        *k as int)) by (nonlinear_arith)
                            requires
                                poly_max_deg(pb.monomials@) <= b2.deg(),
                                *k >= 1,
                        ;
                        lemma_poly_max_deg(pb.monomials@);
                    }
                    let r = poly_pow(&pb, *k);
                    proof {
                        assert forall|k2: int| 0 <= k2 < r.monomials@.len() implies mono_deg(
                            #[trigger] r.monomials@[k2],
                        ) <= self.deg() by {
                            assert(mono_deg(r.monomials@[k2]) <= poly_max_deg(pb.monomials@) * (
                            *k as int));
                        }
                        assert forall|b: int| expr_vars_lt(*self, b) implies poly_vars_lt(
                            r.monomials@,
                            b,
                        ) by {
                            assert(expr_vars_lt(**b2, b));
                            assert(poly_vars_lt(pb.monomials@, b));
                        }
                    }
                    r
                }
            },
        }
    }
}


/// The exponent of `var` in a variable-power list: the power at its first
/// occurrence, zero when it does not occur.
pub open spec fn pows_var_pow(ps: Seq<VarPow>, var: usize) -> u64
    decreases ps.len(),
{
    if ps.len() == 0 {
        0
    } else if ps[0].var == var {
        ps[0].pow
    } else {
        pows_var_pow(ps.drop_first(), var)
    }
}

/// The exponent of `var` in a monomial.
pub open spec fn mono_var_pow(m: Monomial, var: usize) -> u64 {
    pows_var_pow(m.vars@, var)
}

/// The monomials whose exponent on `var` is exactly `k`.
pub open spec fn select_pow(ms: Seq<Monomial>, var: usize, k: u64) -> Seq<Monomial>
    decreases ms.len(),
{
    if ms.len() == 0 {
        Seq::empty()
    } else {
        let rest = select_pow(ms.drop_first(), var, k);
        if mono_var_pow(ms[0], var) == k {
            seq![ms[0]] + rest
        } else {
            rest
        }
    }
}

/// The first occurrence decides the exponent of a variable.
proof fn lemma_pows_var_pow_first(ps: Seq<VarPow>, var: usize, idx: int)
    requires
        0 <= idx < ps.len(),
        ps[idx].var == var,
        forall|j: int| 0 <= j < idx ==> (#[trigger] ps[j]).var != var,
    ensures
        pows_var_pow(ps, var) == ps[idx].pow,
    decreases idx,
{
    if idx > 0 {
        lemma_pows_var_pow_first(ps.drop_first(), var, idx - 1);
    }
}

/// A variable that never occurs has exponent zero.
proof fn lemma_pows_var_pow_none(ps: Seq<VarPow>, var: usize)
    requires
        forall|j: int| 0 <= j < ps.len() ==> (#[trigger] ps[j]).var != var,
    ensures
        pows_var_pow(ps, var) == 0,
    decreases ps.len(),
{
    if ps.len() > 0 {
        lemma_pows_var_pow_none(ps.drop_first(), var);
    }
}

/// Removing one variable power divides its value out.
proof fn lemma_pows_eval_remove(ps: Seq<VarPow>, idx: int, a: spec_fn(usize) -> int)
    requires
        0 <= idx < ps.len(),
    ensures
        pows_eval(ps, a) == fmul(
            fpow(a(ps[idx].var), ps[idx].pow as nat),
            pows_eval(ps.remove(idx), a),
        ),
    decreases idx,
{
    if idx == 0 {
        assert(ps.remove(0) =~= ps.drop_first());
    } else {
        assert(ps.remove(idx).drop_first() =~= ps.drop_first().remove(idx - 1));
        lemma_pows_eval_remove(ps.drop_first(), idx - 1, a);
        let x = fpow(a(ps[0].var), ps[0].pow as nat);
        let y = fpow(a(ps[idx].var), ps[idx].pow as nat);
        let z = pows_eval(ps.drop_first().remove(idx - 1), a);
        lemma_fmul_assoc(x, y, z);
        lemma_fmul_comm(x, y);
        lemma_fmul_assoc(y, x, z);
    }
}

/// Selection commutes with appending one monomial.
proof fn lemma_select_push(ms: Seq<Monomial>, m: Monomial, var: usize, k: u64, a: spec_fn(usize) -> int)
    ensures
        mono_var_pow(m, var) == k ==> poly_eval(select_pow(ms.push(m), var, k), a) == fadd(
            mono_eval(m, a),
            poly_eval(select_pow(ms, var, k), a),
        ),
        mono_var_pow(m, var) != k ==> poly_eval(select_pow(ms.push(m), var, k), a) == poly_eval(
            select_pow(ms, var, k),
            a,
        ),
    decreases ms.len(),
{
    if ms.len() == 0 {
        assert(ms.push(m).drop_first() =~= Seq::<Monomial>::empty());
        assert(ms.push(m)[0] == m);
        assert(select_pow(Seq::<Monomial>::empty(), var, k) =~= Seq::<Monomial>::empty());
        if mono_var_pow(m, var) == k {
            assert(select_pow(ms.push(m), var, k) =~= seq![m]);
            assert(seq![m].drop_first() =~= Seq::<Monomial>::empty());
            assert(select_pow(ms, var, k) =~= Seq::<Monomial>::empty());
            lemma_fmul_canon(m.coeff.as_int(), pows_eval(m.vars@, a));
            lemma_fadd_comm(mono_eval(m, a), 0);
        } else {
            assert(select_pow(ms.push(m), var, k) =~= Seq::<Monomial>::empty());
            assert(select_pow(ms, var, k) =~= Seq::<Monomial>::empty());
        }
    } else {
        assert(ms.push(m).drop_first() =~= ms.drop_first().push(m));
        lemma_select_push(ms.drop_first(), m, var, k, a);
        let rest = select_pow(ms.drop_first(), var, k);
        let restp = select_pow(ms.drop_first().push(m), var, k);
        if mono_var_pow(ms[0], var) == k {
            assert(select_pow(ms, var, k) =~= seq![ms[0]] + rest);
            assert(select_pow(ms.push(m), var, k) =~= seq![ms[0]] + restp);
            assert((seq![ms[0]] + rest).drop_first() =~= rest);
            assert((seq![ms[0]] + restp).drop_first() =~= restp);
            if mono_var_pow(m, var) == k {
                let x = mono_eval(ms[0], a);
                let y = mono_eval(m, a);
                let z = poly_eval(rest, a);
                lemma_fadd_assoc(x, y, z);
                lemma_fadd_comm(x, y);
                lemma_fadd_assoc(y, x, z);
            }
        }
    }
}

/// Locates the first occurrence of a variable in a factor list.
fn find_var(vars: &Vec<VarPow>, var: usize) -> (o: Option<usize>)
    ensures
        match o {
            Some(idx) => idx < vars@.len() && vars@[idx as int].var == var && pows_var_pow(
                vars@,
                var,
            ) == vars@[idx as int].pow,
            None => pows_var_pow(vars@, var) == 0,
        },
{
    let mut i: usize = 0;
    while i < vars.len()
        invariant
            i <= vars.len(),
            forall|j: int| 0 <= j < i ==> (#[trigger] vars@[j]).var != var,
        decreases vars.len() - i,
    {
        if vars[i].var == var {
            proof {
                lemma_pows_var_pow_first(vars@, var, i as int);
            }
            return Some(i);
        }
        i = i + 1;
    }
    proof {
        lemma_pows_var_pow_none(vars@, var);
    }
    None
}

impl MultiPoly {
    /// Extracts the coefficient sub-polynomial at the given power of the
    /// given variable: the monomials whose exponent on `var` is exactly `k`,
    /// with the factor `var^k` divided out.
    pub fn coeff_of(&self, var: usize, k: u64) -> (r: MultiPoly)
        requires
            poly_wf(self.monomials@),
        ensures
            poly_wf(r.monomials@),
            forall|b: int| poly_vars_lt(self.monomials@, b) ==> poly_vars_lt(r.monomials@, b),
            forall|a: spec_fn(usize) -> int| #[trigger] fmul(
                poly_eval(r.monomials@, a),
                fpow(a(var), k as nat),
            ) == poly_eval(select_pow(self.monomials@, var, k), a),
    {
        let ghost whole = self.monomials@;
        let mut out: Vec<Monomial> = Vec::new();
        let mut i: usize = 0;
        proof {
            assert(whole.subrange(0, 0) =~= Seq::<Monomial>::empty());
            assert(select_pow(Seq::<Monomial>::empty(), var, k) =~= Seq::<Monomial>::empty());
            assert forall|a: spec_fn(usize) -> int| #[trigger] fmul(
                poly_eval(out@, a),
                fpow(a(var), k as nat),
            ) == poly_eval(select_pow(whole.subrange(0, 0), var, k), a) by {
                assert(out@ =~= Seq::<Monomial>::empty());
                assert(poly_eval(Seq::<Monomial>::empty(), a) == 0);
                lemma_fmul_zero(fpow(a(var), k as nat));
            }
        }
        while i < self.monomials.len()
            invariant
                i <= self.monomials.len(),
                whole == self.monomials@,
                poly_wf(whole),
                poly_wf(out@),
                forall|b: int| poly_vars_lt(whole, b) ==> poly_vars_lt(out@, b),
                forall|a: spec_fn(usize) -> int| #[trigger] fmul(
                    poly_eval(out@, a),
                    fpow(a(var), k as nat),
                ) == poly_eval(select_pow(whole.subrange(0, i as int), var, k), a),
            decreases self.monomials.len() - i,
        {
            let m = &self.monomials[i];
            let found = find_var(&m.vars, var);
            let hit: bool = match found {
                Some(idx) => m.vars[idx].pow == k,
                None => k == 0,
            };
            let ghost outold = out@;
            if hit {
                let mut nv = clone_vars(&m.vars);
                match found {
                    Some(idx) => {
                        let _ = nv.remove(idx);
                    },
                    None => {},
                }
                let sm = Monomial { coeff: m.coeff, vars: nv };
                let ghost smg = sm;
                out.push(sm);
                proof {
                    assert(mono_var_pow(whole[i as int], var) == k);
                    assert forall|b: int| poly_vars_lt(whole, b) implies poly_vars_lt(out@, b) by {
                        assert(poly_vars_lt(outold, b));
                        assert(pows_vars_lt(whole[i as int].vars@, b));
                        assert forall|k2: int| 0 <= k2 < out@.len() implies pows_vars_lt(
                            (#[trigger] out@[k2]).vars@,
                            b,
                        ) by {
                            if k2 < outold.len() {
                                assert(out@[k2] == outold[k2]);
                            } else {
                                assert(out@[k2] == smg);
                                assert forall|t: int|
                                    0 <= t < smg.vars@.len() implies (#[trigger] smg.vars@[t]).var
                                    < b by {
                                    match found {
                                        Some(idx) => {
                                            assert(smg.vars@ =~= whole[i as int].vars@.remove(
                                                idx as int,
                                            ));
                                            if t < idx {
                                                assert(smg.vars@[t] == whole[i as int].vars@[t]);
                                            } else {
                                                assert(smg.vars@[t] == whole[i as int].vars@[t
                                                    + 1]);
                                            }
                                        },
                                        None => {
                                            assert(smg.vars@ =~= whole[i as int].vars@);
                                        },
                                    }
                                }
                            }
                        }
                    }
                    assert forall|a: spec_fn(usize) -> int| #[trigger] fmul(
                        poly_eval(out@, a),
                        fpow(a(var), k as nat),
                    ) == poly_eval(select_pow(whole.subrange(0, i as int + 1), var, k), a) by {
                        let x = fpow(a(var), k as nat);
                        assert(fmul(poly_eval(outold, a), x) == poly_eval(
                            select_pow(whole.subrange(0, i as int), var, k),
                            a,
                        ));
                        assert(whole.subrange(0, i as int + 1) =~= whole.subrange(
                            0,
                            i as int,
                        ).push(whole[i as int]));
                        lemma_select_push(whole.subrange(0, i as int), whole[i as int], var, k, a);
                        lemma_poly_eval_push(outold, smg, a);
                        // the stripped monomial times var^k gives the source monomial
                        match found {
                            Some(idx) => {
                                assert(smg.vars@ =~= whole[i as int].vars@.remove(idx as int));
                                lemma_pows_eval_remove(whole[i as int].vars@, idx as int, a);
                                let c = whole[i as int].coeff.as_int();
                                let pr = pows_eval(smg.vars@, a);
                                lemma_fmul_assoc(c, x, pr);
                                lemma_fmul_comm(x, pr);
                                lemma_fmul_assoc(c, pr, x);
                            },
                            None => {
                                assert(smg.vars@ =~= whole[i as int].vars@);
                                assert(fpow(a(var), 0nat) == 1);
                                lemma_fmul_canon(
                                    whole[i as int].coeff.as_int(),
                                    pows_eval(whole[i as int].vars@, a),
                                );
                                lemma_fmul_one(mono_eval(whole[i as int], a));
                            },
                        }
                        assert(mono_eval(whole[i as int], a) == fmul(mono_eval(smg, a), x));
                        let ov = poly_eval(outold, a);
                        let sv = mono_eval(smg, a);
                        lemma_fmul_fadd_left(sv, ov, x);
                    }
                }
            } else {
                proof {
                    assert(mono_var_pow(whole[i as int], var) != k);
                    assert forall|a: spec_fn(usize) -> int| #[trigger] fmul(
                        poly_eval(out@, a),
                        fpow(a(var), k as nat),
                    ) == poly_eval(select_pow(whole.subrange(0, i as int + 1), var, k), a) by {
                        assert(fmul(poly_eval(out@, a), fpow(a(var), k as nat)) == poly_eval(
                            select_pow(whole.subrange(0, i as int), var, k),
                            a,
                        ));
                        assert(whole.subrange(0, i as int + 1) =~= whole.subrange(
                            0,
                            i as int,
                        ).push(whole[i as int]));
                        lemma_select_push(whole.subrange(0, i as int), whole[i as int], var, k, a);
                    }
                }
            }
            i = i + 1;
        }
        proof {
            assert(whole.subrange(0, whole.len() as int) =~= whole);
        }
        MultiPoly { monomials: out }
    }
}


/// The witness degree of a factor list: exponents of variables at or above
/// the fixed-column boundary.
pub open spec fn pows_wdeg(ps: Seq<VarPow>, nf: usize) -> int
    decreases ps.len(),
{
    if ps.len() == 0 {
        0
    } else {
        (if ps[0].var >= nf {
            ps[0].pow as int
        } else {
            0
        }) + pows_wdeg(ps.drop_first(), nf)
    }
}

/// The witness degree of a monomial.
pub open spec fn mono_wdeg(m: Monomial, nf: usize) -> int {
    pows_wdeg(m.vars@, nf)
}

/// The largest witness degree of any monomial.
pub open spec fn poly_wdeg_max(ms: Seq<Monomial>, nf: usize) -> int
    decreases ms.len(),
{
    if ms.len() == 0 {
        0
    } else if mono_wdeg(ms[0], nf) >= poly_wdeg_max(ms.drop_first(), nf) {
        mono_wdeg(ms[0], nf)
    } else {
        poly_wdeg_max(ms.drop_first(), nf)
    }
}

/// Every variable of every monomial lies below the bound.
pub open spec fn pows_vars_lt(ps: Seq<VarPow>, b: int) -> bool {
    forall|t: int| 0 <= t < ps.len() ==> (#[trigger] ps[t]).var < b
}

/// See `pows_vars_lt`.
pub open spec fn poly_vars_lt(ms: Seq<Monomial>, b: int) -> bool {
    forall|k: int| 0 <= k < ms.len() ==> pows_vars_lt((#[trigger] ms[k]).vars@, b)
}

/// The assignment obtained by replacing every witness variable `v` (at or
/// above the fixed-column boundary `nf`) with `v1 + challenge * v2`, where
/// the first copy keeps the original index, the second copy lives `s`
/// places higher, and the challenge sits at `nf + 2 * s`.
pub open spec fn fold_assign(a: spec_fn(usize) -> int, nf: usize, s: usize) -> spec_fn(usize) -> int {
    |v: usize|
        if v < nf {
            a(v)
        } else {
            fadd(a(v), fmul(a(((nf + 2 * s) as usize)), a(((v + s) as usize))))
        }
}

/// The value of one monomial after the fold transform: the monomial under
/// the substituted assignment, homogenised by the relaxation slack raised
/// to the degree it is missing from the maximal witness degree `d`.
pub open spec fn mono_fold_eval(m: Monomial, a: spec_fn(usize) -> int, nf: usize, s: usize, d: int) -> int {
    fmul(
        mono_eval(m, fold_assign(a, nf, s)),
        fpow(fold_assign(a, nf, s)(((nf + s - 1) as usize)), (d - mono_wdeg(m, nf)) as nat),
    )
}

/// The value of a polynomial after the fold transform.
pub open spec fn fold_value(ms: Seq<Monomial>, a: spec_fn(usize) -> int, nf: usize, s: usize, d: int) -> int
    decreases ms.len(),
{
    if ms.len() == 0 {
        0
    } else {
        fadd(mono_fold_eval(ms[0], a, nf, s, d), fold_value(ms.drop_first(), a, nf, s, d))
    }
}

/// The total degree splits over a prefix and the matching suffix.
proof fn lemma_pows_deg_split(ps: Seq<VarPow>, j: int)
    requires
        0 <= j <= ps.len(),
    ensures
        pows_deg(ps) == pows_deg(ps.subrange(0, j)) + pows_deg(ps.skip(j)),
    decreases j,
{
    if j == 0 {
        assert(ps.subrange(0, 0) =~= Seq::<VarPow>::empty());
        assert(ps.skip(0) =~= ps);
    } else {
        assert(ps.subrange(0, j)[0] == ps[0]);
        assert(ps.subrange(0, j).drop_first() =~= ps.drop_first().subrange(0, j - 1));
        assert(ps.skip(j) =~= ps.drop_first().skip(j - 1));
        lemma_pows_deg_split(ps.drop_first(), j - 1);
    }
}

/// The witness degree never exceeds the total degree and is never negative.
proof fn lemma_pows_wdeg_le(ps: Seq<VarPow>, nf: usize)
    ensures
        0 <= pows_wdeg(ps, nf) <= pows_deg(ps),
    decreases ps.len(),
{
    if ps.len() > 0 {
        lemma_pows_wdeg_le(ps.drop_first(), nf);
    }
}

/// Appending one factor adds its witness contribution.
proof fn lemma_pows_wdeg_push(ps: Seq<VarPow>, vp: VarPow, nf: usize)
    ensures
        pows_wdeg(ps.push(vp), nf) == pows_wdeg(ps, nf) + (if vp.var >= nf {
            vp.pow as int
        } else {
            0
        }),
    decreases ps.len(),
{
    if ps.len() == 0 {
        assert(ps.push(vp).drop_first() =~= ps);
    } else {
        assert(ps.push(vp).drop_first() =~= ps.drop_first().push(vp));
        lemma_pows_wdeg_push(ps.drop_first(), vp, nf);
    }
}

/// Appending one monomial updates the maximal witness degree.
proof fn lemma_poly_wdeg_max_push(ms: Seq<Monomial>, m: Monomial, nf: usize)
    ensures
        poly_wdeg_max(ms.push(m), nf) == if mono_wdeg(m, nf) >= poly_wdeg_max(ms, nf) {
            mono_wdeg(m, nf)
        } else {
            poly_wdeg_max(ms, nf)
        },
    decreases ms.len(),
{
    if ms.len() == 0 {
        assert(ms.push(m).drop_first() =~= ms);
    } else {
        assert(ms.push(m).drop_first() =~= ms.drop_first().push(m));
        lemma_poly_wdeg_max_push(ms.drop_first(), m, nf);
    }
}

/// Appending one monomial adds its fold value.
proof fn lemma_fold_value_push(
    ms: Seq<Monomial>,
    m: Monomial,
    a: spec_fn(usize) -> int,
    nf: usize,
    s: usize,
    d: int,
)
    ensures
        fold_value(ms.push(m), a, nf, s, d) == fadd(
            mono_fold_eval(m, a, nf, s, d),
            fold_value(ms, a, nf, s, d),
        ),
    decreases ms.len(),
{
    if ms.len() == 0 {
        assert(ms.push(m).drop_first() =~= ms);
        lemma_fmul_canon(
            mono_eval(m, fold_assign(a, nf, s)),
            fpow(fold_assign(a, nf, s)(((nf + s - 1) as usize)), (d - mono_wdeg(m, nf)) as nat),
        );
        lemma_fadd_comm(mono_fold_eval(m, a, nf, s, d), 0);
    } else {
        assert(ms.push(m).drop_first() =~= ms.drop_first().push(m));
        lemma_fold_value_push(ms.drop_first(), m, a, nf, s, d);
        let x = mono_fold_eval(ms[0], a, nf, s, d);
        let y = mono_fold_eval(m, a, nf, s, d);
        let z = fold_value(ms.drop_first(), a, nf, s, d);
        lemma_fadd_assoc(x, y, z);
        lemma_fadd_comm(x, y);
        lemma_fadd_assoc(y, x, z);
    }
}

/// Computes the witness degree of one monomial.
fn mono_wdeg_exec(m: &Monomial, nf: usize) -> (w: u64)
    requires
        pows_deg(m.vars@) <= u64::MAX as int,
    ensures
        w as int == mono_wdeg(*m, nf),
{
    let mut w: u64 = 0;
    let mut t: usize = 0;
    proof {
        assert(m.vars@.subrange(0, 0) =~= Seq::<VarPow>::empty());
    }
    while t < m.vars.len()
        invariant
            t <= m.vars.len(),
            pows_deg(m.vars@) <= u64::MAX as int,
            w as int == pows_wdeg(m.vars@.subrange(0, t as int), nf),
        decreases m.vars.len() - t,
    {
        proof {
            lemma_pows_deg_split(m.vars@, t as int + 1);
            lemma_pows_deg_nonneg(m.vars@.skip(t as int + 1));
            assert(m.vars@.subrange(0, t as int + 1) =~= m.vars@.subrange(0, t as int).push(
                m.vars@[t as int],
            ));
            lemma_pows_deg_push(m.vars@.subrange(0, t as int), m.vars@[t as int]);
            lemma_pows_wdeg_push(m.vars@.subrange(0, t as int), m.vars@[t as int], nf);
            lemma_pows_wdeg_le(m.vars@.subrange(0, t as int), nf);
            lemma_pows_deg_nonneg(m.vars@.subrange(0, t as int));
        }
        if m.vars[t].var >= nf {
            w = w + m.vars[t].pow;
        }
        t = t + 1;
    }
    proof {
        assert(m.vars@.subrange(0, m.vars@.len() as int) =~= m.vars@);
    }
    w
}

impl MultiPoly {
    /// The fold transform: every witness variable is replaced by the affine
    /// combination of its two instance copies under a shared challenge, each
    /// monomial is homogenised to the maximal witness degree with the
    /// relaxation slack, and the result is expanded back into canonical
    /// form.  `meta` carries the counts of fixed, instance and advice
    /// variables.
    pub fn fold_transform(&self, meta: (usize, usize, usize)) -> (r: MultiPoly)
        requires
            poly_wf(self.monomials@),
            poly_vars_lt(self.monomials@, meta.0 + meta.1 + meta.2),
            meta.0 + 2 * (meta.1 + meta.2 + 1) <= usize::MAX as int,
            4 * poly_max_deg(self.monomials@) + 4 <= u64::MAX as int,
        ensures
            poly_wf(r.monomials@),
            forall|a: spec_fn(usize) -> int|
                valid_assign(a) ==> #[trigger] poly_eval(r.monomials@, a) == fold_value(
                    self.monomials@,
                    a,
                    meta.0,
                    ((meta.1 + meta.2 + 1) as usize),
                    poly_wdeg_max(self.monomials@, meta.0),
                ),
    {
        let (nf, ni, na) = meta;
        let s = ni + na + 1;
        let u = nf + ni + na;
        let ch = nf + 2 * s;
        let ghost whole = self.monomials@;
        let ghost maxdeg = poly_max_deg(whole);
        proof {
            lemma_poly_max_deg(whole);
        }
        // first pass: the maximal witness degree
        let mut dmax: u64 = 0;
        let mut i: usize = 0;
        proof {
            assert(whole.subrange(0, 0) =~= Seq::<Monomial>::empty());
        }
        while i < self.monomials.len()
            invariant
                i <= self.monomials.len(),
                whole == self.monomials@,
                poly_deg_le(whole, maxdeg),
                4 * maxdeg + 4 <= u64::MAX as int,
                maxdeg >= 0,
                nf == meta.0,
                dmax as int == poly_wdeg_max(whole.subrange(0, i as int), meta.0),
                dmax as int <= maxdeg,
            decreases self.monomials.len() - i,
        {
            proof {
                lemma_pows_wdeg_le(self.monomials@[i as int].vars@, nf);
            }
            let w = mono_wdeg_exec(&self.monomials[i], nf);
            if w > dmax {
                dmax = w;
            }
            proof {
                assert(whole.subrange(0, i as int + 1) =~= whole.subrange(0, i as int).push(
                    whole[i as int],
                ));
                lemma_poly_wdeg_max_push(whole.subrange(0, i as int), whole[i as int], nf);
            }
            i = i + 1;
        }
        proof {
            assert(whole.subrange(0, whole.len() as int) =~= whole);
        }
        let ghost d = poly_wdeg_max(whole, nf);
        // second pass: substitute and homogenise monomial by monomial
        let mut out = MultiPoly { monomials: Vec::new() };
        let mut mi: usize = 0;
        proof {
            assert(out.monomials@ =~= Seq::<Monomial>::empty());
            assert(whole.subrange(0, 0) =~= Seq::<Monomial>::empty());
            assert forall|a: spec_fn(usize) -> int| valid_assign(a) implies #[trigger] poly_eval(
                out.monomials@,
                a,
            ) == fold_value(whole.subrange(0, 0), a, nf, s, d as int) by {
                assert(poly_eval(Seq::<Monomial>::empty(), a) == 0);
            }
        }
        while mi < self.monomials.len()
            invariant
                mi <= self.monomials.len(),
                whole == self.monomials@,
                poly_wf(whole),
                poly_deg_le(whole, maxdeg),
                poly_vars_lt(whole, nf + ni + na),
                4 * maxdeg + 4 <= u64::MAX as int,
                maxdeg >= 0,
                nf == meta.0,
                ni == meta.1,
                na == meta.2,
                s == ni + na + 1,
                u == nf + ni + na,
                ch == nf + 2 * s,
                nf + 2 * s <= usize::MAX as int,
                dmax as int == d,
                d == poly_wdeg_max(whole, nf),
                d <= maxdeg,
                poly_deg_le(whole, maxdeg),
                poly_wf(out.monomials@),
                forall|a: spec_fn(usize) -> int|
                    valid_assign(a) ==> #[trigger] poly_eval(out.monomials@, a) == fold_value(
                        whole.subrange(0, mi as int),
                        a,
                        nf,
                        s,
                        d,
                    ),
            decreases self.monomials.len() - mi,
        {
            let m = &self.monomials[mi];
            proof {
                lemma_pows_wdeg_le(m.vars@, nf);
                assert(mono_deg(whole[mi as int]) <= maxdeg);
            }
            let wd = mono_wdeg_exec(m, nf);
            proof {
                // the maximal witness degree bounds this monomial's
                assert forall|k: int| 0 <= k < whole.len() implies mono_wdeg(
                    #[trigger] whole[k],
                    nf,
                ) <= d by {
                    lemma_wdeg_max_bounds(whole, nf, k);
                }
            }
            let ghost b = fold_assign(|v: usize| 0int, nf, s);
            // substituted polynomial for this monomial, factor by factor
            let mut mp = poly_const(m.coeff);
            let mut t: usize = 0;
            proof {
                assert(m.vars@.subrange(0, 0) =~= Seq::<VarPow>::empty());
                assert forall|a: spec_fn(usize) -> int| valid_assign(a) implies #[trigger] poly_eval(
                    mp.monomials@,
                    a,
                ) == fmul(
                    whole[mi as int].coeff.as_int(),
                    pows_eval(m.vars@.subrange(0, 0), fold_assign(a, nf, s)),
                ) by {
                    assert(pows_eval(Seq::<VarPow>::empty(), fold_assign(a, nf, s)) == 1);
                    lemma_fmul_one(whole[mi as int].coeff.as_int());
                }
            }
            while t < m.vars.len()
                invariant
                    t <= m.vars.len(),
                    whole == self.monomials@,
                    mi < whole.len(),
                    m == &self.monomials@[mi as int],
                    poly_wf(whole),
                    poly_deg_le(whole, maxdeg),
                    poly_vars_lt(whole, nf + ni + na),
                    4 * maxdeg + 4 <= u64::MAX as int,
                    maxdeg >= 0,
                    s == ni + na + 1,
                    ch == nf + 2 * s,
                    nf + 2 * s <= usize::MAX as int,
                    poly_wf(mp.monomials@),
                    poly_deg_le(mp.monomials@, 2 * pows_deg(m.vars@.subrange(0, t as int))),
                    forall|a: spec_fn(usize) -> int|
                        valid_assign(a) ==> #[trigger] poly_eval(mp.monomials@, a) == fmul(
                            whole[mi as int].coeff.as_int(),
                            pows_eval(m.vars@.subrange(0, t as int), fold_assign(a, nf, s)),
                        ),
                decreases m.vars.len() - t,
            {
                let vp = m.vars[t];
                proof {
                    assert(pows_vars_lt(m.vars@, nf + ni + na));
                    assert(vp.var < nf + ni + na);
                    lemma_pows_deg_split(m.vars@, t as int + 1);
                    lemma_pows_deg_nonneg(m.vars@.skip(t as int + 1));
                    assert(m.vars@.subrange(0, t as int + 1) =~= m.vars@.subrange(0, t as int).push(
                        m.vars@[t as int],
                    ));
                    lemma_pows_deg_push(m.vars@.subrange(0, t as int), m.vars@[t as int]);
                    lemma_pows_deg_nonneg(m.vars@.subrange(0, t as int));
                    assert(mono_deg(whole[mi as int]) <= maxdeg);
                    assert(vp.pow <= maxdeg);
                }
                let ftree = if vp.var < nf {
                    Expression::Power(Box::new(Expression::Var(vp.var)), vp.pow)
                } else {
                    Expression::Power(
                        Box::new(
                            Expression::Sum(
                                Box::new(Expression::Var(vp.var)),
                                Box::new(
                                    Expression::Product(
                                        Box::new(Expression::Var(ch)),
                                        Box::new(Expression::Var(vp.var + s)),
                                    ),
                                ),
                            ),
                        ),
                        vp.pow,
                    )
                };
                proof {
                    reveal_with_fuel(Expression::wf, 5);
                    reveal_with_fuel(Expression::deg, 5);
                    assert(ftree.wf());
                    assert(ftree.deg() <= 2 * vp.pow) by (nonlinear_arith)
                        requires
                            ftree.deg() == 1 * vp.pow || ftree.deg() == 2 * vp.pow,
                    ;
                }
                let fp = ftree.expand();
                proof {
                    lemma_expr_deg_nonneg(ftree);
                    lemma_deg_le_to_max(fp.monomials@, ftree.deg());
                    lemma_deg_le_to_max(
                        mp.monomials@,
                        2 * pows_deg(m.vars@.subrange(0, t as int)),
                    );
                }
                let mp2 = poly_mul(&mp, &fp);
                proof {
                    assert forall|a: spec_fn(usize) -> int| valid_assign(a) implies #[trigger] poly_eval(
                        mp2.monomials@,
                        a,
                    ) == fmul(
                        whole[mi as int].coeff.as_int(),
                        pows_eval(m.vars@.subrange(0, t as int + 1), fold_assign(a, nf, s)),
                    ) by {
                        let fa = fold_assign(a, nf, s);
                        assert(poly_eval(mp.monomials@, a) == fmul(
                            whole[mi as int].coeff.as_int(),
                            pows_eval(m.vars@.subrange(0, t as int), fa),
                        ));
                        assert(ftree.eval(a) == fpow(fa(vp.var), vp.pow as nat)) by {
                            reveal_with_fuel(Expression::eval, 5);
                            if vp.var < nf {
                                assert(fa(vp.var) == a(vp.var));
                            } else {
                                assert(fa(vp.var) == fadd(
                                    a(vp.var),
                                    fmul(a(((nf + 2 * s) as usize)), a(((vp.var + s) as usize))),
                                ));
                            }
                        }
                        lemma_pows_eval_push(m.vars@.subrange(0, t as int), m.vars@[t as int], fa);
                        let c = whole[mi as int].coeff.as_int();
                        let pv = pows_eval(m.vars@.subrange(0, t as int), fa);
                        let hv = fpow(fa(vp.var), vp.pow as nat);
                        lemma_fmul_assoc(c, pv, hv);
                    }
                    assert forall|k2: int| 0 <= k2 < mp2.monomials@.len() implies mono_deg(
                        #[trigger] mp2.monomials@[k2],
                    ) <= 2 * pows_deg(m.vars@.subrange(0, t as int + 1)) by {
                        assert(mono_deg(mp2.monomials@[k2]) <= poly_max_deg(mp.monomials@)
                            + poly_max_deg(fp.monomials@));
                    }
                }
                let mp3 = mp2;
                mp = mp3;
                t = t + 1;
            }
            proof {
                assert(m.vars@.subrange(0, m.vars@.len() as int) =~= m.vars@);
                assert(2 * pows_deg(m.vars@) <= 2 * maxdeg) by (nonlinear_arith)
                    requires
                        pows_deg(m.vars@) <= maxdeg,
                ;
            }
            // homogenise with the relaxation slack
            let htree = Expression::Power(
                Box::new(
                    Expression::Sum(
                        Box::new(Expression::Var(u)),
                        Box::new(
                            Expression::Product(
                                Box::new(Expression::Var(ch)),
                                Box::new(Expression::Var(u + s)),
                            ),
                        ),
                    ),
                ),
                dmax - wd,
            );
            proof {
                reveal_with_fuel(Expression::wf, 5);
                reveal_with_fuel(Expression::deg, 5);
                assert(htree.wf());
                assert(htree.deg() == 2 * ((dmax - wd) as int));
                assert(2 * ((dmax - wd) as int) <= 2 * maxdeg) by (nonlinear_arith)
                    requires
                        0 <= (dmax - wd) as int <= maxdeg,
                ;
            }
            let hp = htree.expand();
            proof {
                lemma_expr_deg_nonneg(htree);
                lemma_deg_le_to_max(hp.monomials@, htree.deg());
                lemma_deg_le_to_max(mp.monomials@, 2 * pows_deg(m.vars@));
            }
            let mfinal = poly_mul(&mp, &hp);
            let ghost outold = out.monomials@;
            let out2 = poly_add(out, mfinal);
            out = out2;
            proof {
                assert forall|a: spec_fn(usize) -> int| valid_assign(a) implies #[trigger] poly_eval(
                    out.monomials@,
                    a,
                ) == fold_value(whole.subrange(0, mi as int + 1), a, nf, s, d) by {
                    let fa = fold_assign(a, nf, s);
                    assert(poly_eval(outold, a) == fold_value(
                        whole.subrange(0, mi as int),
                        a,
                        nf,
                        s,
                        d,
                    ));
                    assert(htree.eval(a) == fpow(fa(((nf + s - 1) as usize)), (dmax - wd) as nat))
                        by {
                        reveal_with_fuel(Expression::eval, 5);
                        assert(u == (nf + s - 1) as usize);
                        assert(fa(u) == fadd(
                            a(u),
                            fmul(a(((nf + 2 * s) as usize)), a(((u + s) as usize))),
                        ));
                    }
                    assert(poly_eval(mp.monomials@, a) == mono_eval(whole[mi as int], fa));
                    assert((dmax - wd) as int == d - mono_wdeg(whole[mi as int], nf));
                    assert(poly_eval(mfinal.monomials@, a) == mono_fold_eval(
                        whole[mi as int],
                        a,
                        nf,
                        s,
                        d,
                    ));
                    assert(whole.subrange(0, mi as int + 1) =~= whole.subrange(0, mi as int).push(
                        whole[mi as int],
                    ));
                    lemma_fold_value_push(whole.subrange(0, mi as int), whole[mi as int], a, nf, s, d);
                    let x = mono_fold_eval(whole[mi as int], a, nf, s, d);
                    let y = poly_eval(outold, a);
                    lemma_fadd_comm(y, x);
                }
            }
            mi = mi + 1;
        }
        proof {
            assert(whole.subrange(0, whole.len() as int) =~= whole);
        }
        out
    }
}

/// The maximal witness degree bounds each monomial's witness degree.
proof fn lemma_wdeg_max_bounds(ms: Seq<Monomial>, nf: usize, k: int)
    requires
        0 <= k < ms.len(),
    ensures
        mono_wdeg(ms[k], nf) <= poly_wdeg_max(ms, nf),
    decreases k,
{
    if k == 0 {
    } else {
        assert(ms.drop_first()[k - 1] == ms[k]);
        lemma_wdeg_max_bounds(ms.drop_first(), nf, k - 1);
    }
}


/// One raised to any power is one.
proof fn lemma_fpow_one_base(e: nat)
    ensures
        fpow(1, e) == 1,
    decreases e,
{
    if e > 0 {
        lemma_fpow_one_base((e - 1) as nat);
        lemma_fmul_one(1);
    }
}

/// Law: evaluating the fold transform at challenge zero, with the first
/// copy's relaxation slack at one, gives exactly the base polynomial
/// evaluated on the first instance copy — which keeps the original
/// variable positions, so it is the base polynomial's own value.
pub proof fn lemma_fold_at_zero(
    ms: Seq<Monomial>,
    a: spec_fn(usize) -> int,
    nf: usize,
    s: usize,
    d: int,
)
    requires
        valid_assign(a),
        s >= 1,
        nf + 2 * s <= usize::MAX,
        a(((nf + 2 * s) as usize)) == 0,
        a(((nf + s - 1) as usize)) == 1,
    ensures
        fold_value(ms, a, nf, s, d) == poly_eval(ms, a),
    decreases ms.len(),
{
    let b = fold_assign(a, nf, s);
    assert forall|v: usize| #[trigger] b(v) == a(v) by {
        if v >= nf {
            lemma_fmul_zero(a(((v + s) as usize)));
            lemma_fadd_zero(a(v));
        }
    }
    assert(b =~= a);
    if ms.len() > 0 {
        lemma_fold_at_zero(ms.drop_first(), a, nf, s, d);
        let m = ms[0];
        lemma_fpow_one_base((d - mono_wdeg(m, nf)) as nat);
        lemma_fmul_canon(m.coeff.as_int(), pows_eval(m.vars@, a));
        lemma_fmul_one(mono_eval(m, a));
        assert(mono_fold_eval(m, a, nf, s, d) == mono_eval(m, a));
    }
}

/// The sum of the selected sub-polynomials at every power up to `kk`.
pub open spec fn select_sum(
    ms: Seq<Monomial>,
    var: usize,
    a: spec_fn(usize) -> int,
    kk: u64,
) -> int
    decreases kk,
{
    if kk == 0 {
        poly_eval(select_pow(ms, var, 0), a)
    } else {
        fadd(select_sum(ms, var, a, (kk - 1) as u64), poly_eval(select_pow(ms, var, kk), a))
    }
}

/// The empty polynomial decomposes to zero.
proof fn lemma_select_sum_empty(var: usize, a: spec_fn(usize) -> int, kk: u64)
    ensures
        select_sum(Seq::<Monomial>::empty(), var, a, kk) == 0,
    decreases kk,
{
    assert(select_pow(Seq::<Monomial>::empty(), var, kk) =~= Seq::<Monomial>::empty());
    assert(select_pow(Seq::<Monomial>::empty(), var, 0) =~= Seq::<Monomial>::empty());
    assert(poly_eval(Seq::<Monomial>::empty(), a) == 0);
    if kk > 0 {
        lemma_select_sum_empty(var, a, (kk - 1) as u64);
        lemma_fadd_zero(0);
    }
}

/// A leading monomial above every considered power does not contribute.
proof fn lemma_select_sum_skip_head(
    ms: Seq<Monomial>,
    var: usize,
    a: spec_fn(usize) -> int,
    kk: u64,
)
    requires
        ms.len() > 0,
        mono_var_pow(ms[0], var) > kk,
    ensures
        select_sum(ms, var, a, kk) == select_sum(ms.drop_first(), var, a, kk),
    decreases kk,
{
    if kk > 0 {
        lemma_select_sum_skip_head(ms, var, a, (kk - 1) as u64);
    }
}

/// The head monomial contributes its value once, at its own power.
proof fn lemma_select_sum_cons(ms: Seq<Monomial>, var: usize, a: spec_fn(usize) -> int, kk: u64)
    requires
        ms.len() > 0,
        mono_var_pow(ms[0], var) <= kk,
    ensures
        select_sum(ms, var, a, kk) == fadd(
            mono_eval(ms[0], a),
            select_sum(ms.drop_first(), var, a, kk),
        ),
    decreases kk,
{
    let m = ms[0];
    let rest = ms.drop_first();
    let k0 = mono_var_pow(m, var);
    if kk == 0 {
        assert(select_pow(ms, var, 0) =~= seq![m] + select_pow(rest, var, 0));
        assert((seq![m] + select_pow(rest, var, 0)).drop_first() =~= select_pow(rest, var, 0));
        assert((seq![m] + select_pow(rest, var, 0))[0] == m);
    } else if k0 == kk {
        lemma_select_sum_skip_head(ms, var, a, (kk - 1) as u64);
        assert(select_pow(ms, var, kk) =~= seq![m] + select_pow(rest, var, kk));
        assert((seq![m] + select_pow(rest, var, kk)).drop_first() =~= select_pow(rest, var, kk));
        assert((seq![m] + select_pow(rest, var, kk))[0] == m);
        let x = select_sum(rest, var, a, (kk - 1) as u64);
        let y = mono_eval(m, a);
        let z = poly_eval(select_pow(rest, var, kk), a);
        lemma_fadd_assoc(x, y, z);
        lemma_fadd_comm(x, y);
        lemma_fadd_assoc(y, x, z);
    } else {
        lemma_select_sum_cons(ms, var, a, (kk - 1) as u64);
        assert(select_pow(ms, var, kk) =~= select_pow(rest, var, kk));
        let x = mono_eval(m, a);
        let y = select_sum(rest, var, a, (kk - 1) as u64);
        let z = poly_eval(select_pow(rest, var, kk), a);
        lemma_fadd_assoc(x, y, z);
    }
}

/// Law: summing the sub-polynomial selected at each power of a variable,
/// over every power up to a bound on the variable's exponent, reconstructs
/// the polynomial's value exactly.  Together with the contract of
/// [`MultiPoly::coeff_of`] — whose result times `var^k` is the selected
/// sub-polynomial at power `k` — this says that summing
/// `coeff_of(var, k) * var^k` over all observed powers rebuilds the
/// expanded polynomial.
pub proof fn lemma_coeff_decomposition(
    ms: Seq<Monomial>,
    var: usize,
    a: spec_fn(usize) -> int,
    kk: u64,
)
    requires
        forall|j: int| 0 <= j < ms.len() ==> mono_var_pow(#[trigger] ms[j], var) <= kk,
    ensures
        select_sum(ms, var, a, kk) == poly_eval(ms, a),
    decreases ms.len(),
{
    if ms.len() == 0 {
        lemma_select_sum_empty(var, a, kk);
        assert(ms =~= Seq::<Monomial>::empty());
    } else {
        assert forall|j: int| 0 <= j < ms.drop_first().len() implies mono_var_pow(
            #[trigger] ms.drop_first()[j],
            var,
        ) <= kk by {
            assert(ms.drop_first()[j] == ms[j + 1]);
        }
        lemma_coeff_decomposition(ms.drop_first(), var, a, kk);
        lemma_select_sum_cons(ms, var, a, kk);
    }
}


/// The assignment that reads variable values out of a vector, zero beyond
/// its end.
pub open spec fn asg_of(s: Seq<Fe>) -> spec_fn(usize) -> int {
    |v: usize|
        if v < s.len() {
            s[v as int].as_int()
        } else {
            0
        }
}

/// All elements are canonical.
pub open spec fn all_fe_wf(s: Seq<Fe>) -> bool {
    forall|k: int| 0 <= k < s.len() ==> (#[trigger] s[k]).wf()
}

/// A vector of canonical values reads as a valid assignment.
pub proof fn lemma_asg_of_valid(s: Seq<Fe>)
    requires
        all_fe_wf(s),
    ensures
        valid_assign(asg_of(s)),
{
    assert forall|v: usize| canon(#[trigger] asg_of(s)(v)) by {
        if v < s.len() {
            assert(s[v as int].wf());
        }
    }
}

/// Every variable of the tree lies below the bound.
pub open spec fn expr_vars_lt(e: Expression, n: int) -> bool
    decreases e,
{
    match e {
        Expression::Constant(_) => true,
        Expression::Var(v) => v < n,
        Expression::Sum(l, r) => expr_vars_lt(*l, n) && expr_vars_lt(*r, n),
        Expression::Product(l, r) => expr_vars_lt(*l, n) && expr_vars_lt(*r, n),
        Expression::Power(b, _) => expr_vars_lt(*b, n),
    }
}

/// Raises a field element to a machine-word exponent.
fn fe_pow(b: Fe, e: u64) -> (r: Fe)
    requires
        b.wf(),
    ensures
        r.wf(),
        r.as_int() == fpow(b.as_int(), e as nat),
{
    let mut acc = Fe::one();
    let mut i: u64 = 0;
    while i < e
        invariant
            i <= e,
            b.wf(),
            acc.wf(),
            acc.as_int() == fpow(b.as_int(), i as nat),
        decreases e - i,
    {
        let next = b.mul(acc);
        acc = next;
        i = i + 1;
    }
    acc
}

impl Expression {
    /// Evaluates the tree at concrete variable values.
    pub fn eval_at(&self, vals: &Vec<Fe>) -> (r: Fe)
        requires
            self.wf(),
            expr_vars_lt(*self, vals@.len() as int),
            all_fe_wf(vals@),
        ensures
            r.wf(),
            r.as_int() == self.eval(asg_of(vals@)),
        decreases self,
    {
        match self {
            Expression::Constant(c) => *c,
            Expression::Var(v) => vals[*v],
            Expression::Sum(l, rr) => {
                let a = l.eval_at(vals);
                let b = rr.eval_at(vals);
                a.add(b)
            },
            Expression::Product(l, rr) => {
                let a = l.eval_at(vals);
                let b = rr.eval_at(vals);
                a.mul(b)
            },
            Expression::Power(b, k) => {
                let base = b.eval_at(vals);
                fe_pow(base, *k)
            },
        }
    }
}

impl MultiPoly {
    /// Evaluates the expanded polynomial at concrete variable values.
    pub fn eval_at(&self, vals: &Vec<Fe>) -> (r: Fe)
        requires
            poly_wf(self.monomials@),
            all_fe_wf(vals@),
            poly_vars_lt(self.monomials@, vals@.len() as int),
        ensures
            r.wf(),
            r.as_int() == poly_eval(self.monomials@, asg_of(vals@)),
    {
        let ghost a = asg_of(vals@);
        let mut acc = Fe::zero();
        let mut k: usize = 0;
        proof {
            assert(self.monomials@.subrange(0, 0) =~= Seq::<Monomial>::empty());
        }
        while k < self.monomials.len()
            invariant
                k <= self.monomials@.len(),
                poly_wf(self.monomials@),
                all_fe_wf(vals@),
                poly_vars_lt(self.monomials@, vals@.len() as int),
                a == asg_of(vals@),
                acc.wf(),
                acc.as_int() == poly_eval(self.monomials@.subrange(0, k as int), a),
            decreases self.monomials@.len() - k,
        {
            let m = &self.monomials[k];
            let mut mv = m.coeff;
            let mut t: usize = 0;
            proof {
                assert(m.vars@.subrange(0, 0) =~= Seq::<VarPow>::empty());
                lemma_fmul_one(m.coeff.as_int());
            }
            while t < m.vars.len()
                invariant
                    t <= m.vars@.len(),
                    all_fe_wf(vals@),
                    a == asg_of(vals@),
                    m == &self.monomials@[k as int],
                    k < self.monomials@.len(),
                    poly_wf(self.monomials@),
                    poly_vars_lt(self.monomials@, vals@.len() as int),
                    mv.wf(),
                    mv.as_int() == fmul(
                        m.coeff.as_int(),
                        pows_eval(m.vars@.subrange(0, t as int), a),
                    ),
                decreases m.vars@.len() - t,
            {
                proof {
                    assert(pows_vars_lt(self.monomials@[k as int].vars@, vals@.len() as int));
                    assert(m.vars@[t as int].var < vals@.len());
                    assert(vals@[m.vars@[t as int].var as int].wf());
                }
                let base = vals[m.vars[t].var];
                let f = fe_pow(base, m.vars[t].pow);
                let next = mv.mul(f);
                proof {
                    assert(m.vars@.subrange(0, t as int + 1) =~= m.vars@.subrange(0, t as int).push(
                        m.vars@[t as int],
                    ));
                    lemma_pows_eval_push(m.vars@.subrange(0, t as int), m.vars@[t as int], a);
                    assert(f.as_int() == fpow(a(m.vars@[t as int].var), m.vars@[t as int].pow as nat));
                    let c = m.coeff.as_int();
                    let pv = pows_eval(m.vars@.subrange(0, t as int), a);
                    lemma_fmul_assoc(c, pv, f.as_int());
                }
                mv = next;
                t = t + 1;
            }
            proof {
                assert(m.vars@.subrange(0, m.vars@.len() as int) =~= m.vars@);
                assert(mv.as_int() == mono_eval(self.monomials@[k as int], a));
            }
            let next_acc = mv.add(acc);
            proof {
                assert(self.monomials@.subrange(0, k as int + 1) =~= self.monomials@.subrange(
                    0,
                    k as int,
                ).push(self.monomials@[k as int]));
                lemma_poly_eval_push(
                    self.monomials@.subrange(0, k as int),
                    self.monomials@[k as int],
                    a,
                );
            }
            acc = next_acc;
            k = k + 1;
        }
        proof {
            assert(self.monomials@.subrange(0, self.monomials@.len() as int) =~= self.monomials@);
        }
        acc
    }
}

} // verus!
