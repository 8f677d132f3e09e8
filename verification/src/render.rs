//! Deterministic text rendering of expressions and expanded polynomials.
//!
//! Trees render fully parenthesised (`(Z_0 * Z_8)`, `(a + b)`, `(b^e)`);
//! an expanded polynomial renders each monomial as a run of parenthesised
//! variable powers (`(Z_2)(Z_8^5)`), with a coefficient different from one
//! rendered in front, and joins monomials with ` + `.  The grammar is fixed
//! by the spec functions [`expr_bytes`] and [`poly_bytes`]; both `to_text`
//! methods return exactly those characters.

use vstd::prelude::*;

verus! {

use crate::polynomial::{Expression, Monomial, MultiPoly, VarPow};

/// Every byte is plain ASCII.
pub open spec fn ascii_ok(s: Seq<u8>) -> bool {
    forall|i: int| 0 <= i < s.len() ==> s[i] < 128
}

/// The decimal digits of a machine word, most significant first.
pub open spec fn dec_bytes(v: u64) -> Seq<u8>
    decreases v,
{
    if v < 10 {
        seq![(48 + v) as u8]
    } else {
        dec_bytes(v / 10) + seq![(48 + v % 10) as u8]
    }
}

/// A variable: `Z_` and its index.
pub open spec fn var_bytes(v: usize) -> Seq<u8> {
    seq![90u8, 95u8] + dec_bytes(v as u64)
}

/// The fully parenthesised text of an expression tree.
pub open spec fn expr_bytes(e: Expression) -> Seq<u8>
    decreases e,
{
    match e {
        Expression::Constant(c) => dec_bytes(c.v),
        Expression::Var(v) => var_bytes(v),
        Expression::Sum(l, r) => seq![40u8] + expr_bytes(*l) + seq![32u8, 43u8, 32u8]
            + expr_bytes(*r) + seq![41u8],
        Expression::Product(l, r) => seq![40u8] + expr_bytes(*l) + seq![32u8, 42u8, 32u8]
            + expr_bytes(*r) + seq![41u8],
        Expression::Power(b, k) => seq![40u8] + expr_bytes(*b) + seq![94u8] + dec_bytes(k)
            + seq![41u8],
    }
}

/// One parenthesised variable power: `(Z_v)`, or `(Z_v^p)` for an exponent
/// other than one.
pub open spec fn vp_bytes(vp: VarPow) -> Seq<u8> {
    seq![40u8] + var_bytes(vp.var) + (if vp.pow != 1 {
        seq![94u8] + dec_bytes(vp.pow)
    } else {
        Seq::<u8>::empty()
    }) + seq![41u8]
}

/// The first `t` variable powers of a factor list, concatenated.
pub open spec fn factors_bytes_upto(ps: Seq<VarPow>, t: int) -> Seq<u8>
    decreases t,
{
    if t <= 0 {
        Seq::<u8>::empty()
    } else {
        factors_bytes_upto(ps, t - 1) + vp_bytes(ps[t - 1])
    }
}

/// One monomial: the coefficient in parentheses when it is not a bare one,
/// then every variable power.
pub open spec fn mono_bytes(m: Monomial) -> Seq<u8> {
    (if m.vars@.len() == 0 || m.coeff.v != 1 {
        seq![40u8] + dec_bytes(m.coeff.v) + seq![41u8]
    } else {
        Seq::<u8>::empty()
    }) + factors_bytes_upto(m.vars@, m.vars@.len() as int)
}

/// The first `k` monomials, joined by ` + `.
pub open spec fn poly_bytes_upto(ms: Seq<Monomial>, k: int) -> Seq<u8>
    decreases k,
{
    if k <= 0 {
        Seq::<u8>::empty()
    } else {
        poly_bytes_upto(ms, k - 1) + (if k - 1 > 0 {
            seq![32u8, 43u8, 32u8]
        } else {
            Seq::<u8>::empty()
        }) + mono_bytes(ms[k - 1])
    }
}

/// The text of an expanded polynomial: its monomials joined by ` + `, or
/// `0` when there are none.
pub open spec fn poly_bytes(ms: Seq<Monomial>) -> Seq<u8> {
    if ms.len() == 0 {
        seq![48u8]
    } else {
        poly_bytes_upto(ms, ms.len() as int)
    }
}

/// The characters spelled by a byte sequence.
pub open spec fn chars_of(s: Seq<u8>) -> Seq<char> {
    Seq::new(s.len(), |i: int| s[i] as char)
}

/// Two ASCII runs concatenate to an ASCII run.
proof fn lemma_ascii_concat(x: Seq<u8>, y: Seq<u8>)
    requires
        ascii_ok(x),
        ascii_ok(y),
    ensures
        ascii_ok(x + y),
{
    assert forall|i: int| 0 <= i < (x + y).len() implies (x + y)[i] < 128 by {
        if i < x.len() {
            assert((x + y)[i] == x[i]);
        } else {
            assert((x + y)[i] == y[i - x.len()]);
        }
    }
}

/// Decimal digits are ASCII.
proof fn lemma_dec_bytes_ascii(v: u64)
    ensures
        ascii_ok(dec_bytes(v)),
    decreases v,
{
    if v >= 10 {
        lemma_dec_bytes_ascii(v / 10);
        lemma_ascii_concat(dec_bytes(v / 10), seq![(48 + v % 10) as u8]);
    }
}

/// A rendered variable is ASCII.
proof fn lemma_var_bytes_ascii(v: usize)
    ensures
        ascii_ok(var_bytes(v)),
{
    lemma_dec_bytes_ascii(v as u64);
    lemma_ascii_concat(seq![90u8, 95u8], dec_bytes(v as u64));
}

/// A rendered tree is ASCII.
proof fn lemma_expr_bytes_ascii(e: Expression)
    ensures
        ascii_ok(expr_bytes(e)),
    decreases e,
{
    match e {
        Expression::Constant(c) => {
            lemma_dec_bytes_ascii(c.v);
        },
        Expression::Var(v) => {
            lemma_var_bytes_ascii(v);
        },
        Expression::Sum(l, r) => {
            lemma_expr_bytes_ascii(*l);
            lemma_expr_bytes_ascii(*r);
            lemma_ascii_concat(seq![40u8], expr_bytes(*l));
            lemma_ascii_concat(seq![40u8] + expr_bytes(*l), seq![32u8, 43u8, 32u8]);
            lemma_ascii_concat(
                seq![40u8] + expr_bytes(*l) + seq![32u8, 43u8, 32u8],
                expr_bytes(*r),
            );
            lemma_ascii_concat(
                seq![40u8] + expr_bytes(*l) + seq![32u8, 43u8, 32u8] + expr_bytes(*r),
                seq![41u8],
            );
        },
        Expression::Product(l, r) => {
            lemma_expr_bytes_ascii(*l);
            lemma_expr_bytes_ascii(*r);
            lemma_ascii_concat(seq![40u8], expr_bytes(*l));
            lemma_ascii_concat(seq![40u8] + expr_bytes(*l), seq![32u8, 42u8, 32u8]);
            lemma_ascii_concat(
                seq![40u8] + expr_bytes(*l) + seq![32u8, 42u8, 32u8],
                expr_bytes(*r),
            );
            lemma_ascii_concat(
                seq![40u8] + expr_bytes(*l) + seq![32u8, 42u8, 32u8] + expr_bytes(*r),
                seq![41u8],
            );
        },
        Expression::Power(b, k) => {
            lemma_expr_bytes_ascii(*b);
            lemma_dec_bytes_ascii(k);
            lemma_ascii_concat(seq![40u8], expr_bytes(*b));
            lemma_ascii_concat(seq![40u8] + expr_bytes(*b), seq![94u8]);
            lemma_ascii_concat(seq![40u8] + expr_bytes(*b) + seq![94u8], dec_bytes(k));
            lemma_ascii_concat(seq![40u8] + expr_bytes(*b) + seq![94u8] + dec_bytes(k), seq![41u8]);
        },
    }
}

/// A rendered variable power is ASCII.
proof fn lemma_vp_bytes_ascii(vp: VarPow)
    ensures
        ascii_ok(vp_bytes(vp)),
{
    lemma_var_bytes_ascii(vp.var);
    lemma_dec_bytes_ascii(vp.pow);
    lemma_ascii_concat(seq![40u8], var_bytes(vp.var));
    if vp.pow != 1 {
        lemma_ascii_concat(seq![94u8], dec_bytes(vp.pow));
        lemma_ascii_concat(seq![40u8] + var_bytes(vp.var), seq![94u8] + dec_bytes(vp.pow));
        lemma_ascii_concat(
            seq![40u8] + var_bytes(vp.var) + (seq![94u8] + dec_bytes(vp.pow)),
            seq![41u8],
        );
        assert(vp_bytes(vp) =~= seq![40u8] + var_bytes(vp.var) + (seq![94u8] + dec_bytes(vp.pow))
            + seq![41u8]);
    } else {
        lemma_ascii_concat(seq![40u8] + var_bytes(vp.var), Seq::<u8>::empty());
        lemma_ascii_concat(seq![40u8] + var_bytes(vp.var) + Seq::<u8>::empty(), seq![41u8]);
    }
}

/// A rendered monomial is ASCII.
proof fn lemma_mono_bytes_ascii(m: Monomial)
    ensures
        ascii_ok(mono_bytes(m)),
{
    lemma_factors_ascii(m.vars@, m.vars@.len() as int);
    if m.vars@.len() == 0 || m.coeff.v != 1 {
        lemma_dec_bytes_ascii(m.coeff.v);
        lemma_ascii_concat(seq![40u8], dec_bytes(m.coeff.v));
        lemma_ascii_concat(seq![40u8] + dec_bytes(m.coeff.v), seq![41u8]);
        lemma_ascii_concat(
            seq![40u8] + dec_bytes(m.coeff.v) + seq![41u8],
            factors_bytes_upto(m.vars@, m.vars@.len() as int),
        );
    } else {
        lemma_ascii_concat(
            Seq::<u8>::empty(),
            factors_bytes_upto(m.vars@, m.vars@.len() as int),
        );
    }
}

/// A rendered factor list is ASCII.
proof fn lemma_factors_ascii(ps: Seq<VarPow>, t: int)
    requires
        t <= ps.len(),
    ensures
        ascii_ok(factors_bytes_upto(ps, t)),
    decreases t,
{
    if t > 0 {
        lemma_factors_ascii(ps, t - 1);
        lemma_vp_bytes_ascii(ps[t - 1]);
        lemma_ascii_concat(factors_bytes_upto(ps, t - 1), vp_bytes(ps[t - 1]));
    }
}

/// A rendered polynomial prefix is ASCII.
proof fn lemma_poly_bytes_upto_ascii(ms: Seq<Monomial>, k: int)
    requires
        k <= ms.len(),
    ensures
        ascii_ok(poly_bytes_upto(ms, k)),
    decreases k,
{
    if k > 0 {
        lemma_poly_bytes_upto_ascii(ms, k - 1);
        lemma_mono_bytes_ascii(ms[k - 1]);
        let sep: Seq<u8> = if k - 1 > 0 {
            seq![32u8, 43u8, 32u8]
        } else {
            Seq::<u8>::empty()
        };
        lemma_ascii_concat(poly_bytes_upto(ms, k - 1), sep);
        lemma_ascii_concat(poly_bytes_upto(ms, k - 1) + sep, mono_bytes(ms[k - 1]));
    }
}

/// Relies on `String::from_utf8`: bytes below `0x80` are valid UTF-8 and
/// decode to exactly the characters with the same code points.
#[verifier::external_body]
fn ascii_string(bytes: Vec<u8>) -> (r: String)
    requires
        ascii_ok(bytes@),
    ensures
        r@.len() == bytes@.len(),
        forall|i: int| 0 <= i < bytes@.len() ==> r@[i] == bytes@[i] as char,
{
    String::from_utf8(bytes).unwrap()
}

/// Appends the decimal digits of a machine word.
fn push_dec(out: &mut Vec<u8>, v: u64)
    ensures
        final(out)@ == old(out)@ + dec_bytes(v),
    decreases v,
{
    if v >= 10 {
        proof {
            assert(v / 10 < v) by (nonlinear_arith)
                requires
                    v >= 10,
            ;
        }
        push_dec(out, v / 10);
    }
    let ghost mid = out@;
    out.push(48u8 + (v % 10) as u8);
    proof {
        if v < 10 {
            assert(out@ =~= old(out)@ + dec_bytes(v));
        } else {
            assert(mid == old(out)@ + dec_bytes(v / 10));
            assert(out@ =~= old(out)@ + dec_bytes(v));
        }
    }
}

/// Appends `Z_` and the variable's index.
fn push_var(out: &mut Vec<u8>, v: usize)
    ensures
        final(out)@ == old(out)@ + var_bytes(v),
{
    out.push(90u8);
    out.push(95u8);
    let ghost mid = out@;
    push_dec(out, v as u64);
    proof {
        assert(mid =~= old(out)@ + seq![90u8, 95u8]);
        assert(out@ =~= old(out)@ + var_bytes(v));
    }
}

/// Appends the fully parenthesised rendering of an expression tree.
fn push_expr(e: &Expression, out: &mut Vec<u8>)
    ensures
        final(out)@ == old(out)@ + expr_bytes(*e),
    decreases e,
{
    match e {
        Expression::Constant(c) => {
            push_dec(out, c.v);
        },
        Expression::Var(v) => {
            push_var(out, *v);
        },
        Expression::Sum(l, r) => {
            out.push(40u8);
            push_expr(l, out);
            out.push(32u8);
            out.push(43u8);
            out.push(32u8);
            push_expr(r, out);
            out.push(41u8);
            proof {
                assert(out@ =~= old(out)@ + expr_bytes(*e));
            }
        },
        Expression::Product(l, r) => {
            out.push(40u8);
            push_expr(l, out);
            out.push(32u8);
            out.push(42u8);
            out.push(32u8);
            push_expr(r, out);
            out.push(41u8);
            proof {
                assert(out@ =~= old(out)@ + expr_bytes(*e));
            }
        },
        Expression::Power(b, k) => {
            out.push(40u8);
            push_expr(b, out);
            out.push(94u8);
            push_dec(out, *k);
            out.push(41u8);
            proof {
                assert(out@ =~= old(out)@ + expr_bytes(*e));
            }
        },
    }
}

/// Appends one monomial: the coefficient when it is not a bare one, then
/// each variable power in its own parentheses.
fn push_mono(m: &Monomial, out: &mut Vec<u8>)
    ensures
        final(out)@ == old(out)@ + mono_bytes(*m),
{
    let ghost cpart: Seq<u8> = if m.vars@.len() == 0 || m.coeff.v != 1 {
        seq![40u8] + dec_bytes(m.coeff.v) + seq![41u8]
    } else {
        Seq::<u8>::empty()
    };
    if m.vars.len() == 0 || m.coeff.v != 1 {
        out.push(40u8);
        push_dec(out, m.coeff.v);
        out.push(41u8);
    }
    proof {
        assert(out@ =~= old(out)@ + cpart);
    }
    let ghost base = out@;
    let mut t: usize = 0;
    while t < m.vars.len()
        invariant
            t <= m.vars@.len(),
            out@ == base + factors_bytes_upto(m.vars@, t as int),
        decreases m.vars@.len() - t,
    {
        let ghost before = out@;
        out.push(40u8);
        push_var(out, m.vars[t].var);
        if m.vars[t].pow != 1 {
            out.push(94u8);
            push_dec(out, m.vars[t].pow);
        }
        out.push(41u8);
        proof {
            assert(out@ =~= before + vp_bytes(m.vars@[t as int]));
            assert(out@ =~= base + factors_bytes_upto(m.vars@, t as int + 1));
        }
        t = t + 1;
    }
    proof {
        assert(out@ =~= old(out)@ + mono_bytes(*m));
    }
}

impl Expression {
    /// The canonical text of the tree: exactly the characters of
    /// [`expr_bytes`].
    pub fn to_text(&self) -> (r: String)
        ensures
            r@ == chars_of(expr_bytes(*self)),
    {
        let mut out: Vec<u8> = Vec::new();
        push_expr(self, &mut out);
        proof {
            assert(out@ =~= expr_bytes(*self));
            lemma_expr_bytes_ascii(*self);
        }
        let r = ascii_string(out);
        proof {
            assert(r@ =~= chars_of(expr_bytes(*self)));
        }
        r
    }
}

impl MultiPoly {
    /// The canonical text of the expanded polynomial: exactly the
    /// characters of [`poly_bytes`].
    pub fn to_text(&self) -> (r: String)
        ensures
            r@ == chars_of(poly_bytes(self.monomials@)),
    {
        let mut out: Vec<u8> = Vec::new();
        if self.monomials.len() == 0 {
            out.push(48u8);
        }
        let mut k: usize = 0;
        while k < self.monomials.len()
            invariant
                k <= self.monomials@.len(),
                self.monomials@.len() > 0 ==> out@ == poly_bytes_upto(self.monomials@, k as int),
                self.monomials@.len() == 0 ==> out@ == poly_bytes(self.monomials@),
            decreases self.monomials@.len() - k,
        {
            let ghost before = out@;
            if k > 0 {
                out.push(32u8);
                out.push(43u8);
                out.push(32u8);
            }
            push_mono(&self.monomials[k], &mut out);
            proof {
                assert(out@ =~= poly_bytes_upto(self.monomials@, k as int + 1));
            }
            k = k + 1;
        }
        proof {
            assert(out@ =~= poly_bytes(self.monomials@));
            if self.monomials@.len() == 0 {
                assert(ascii_ok(out@));
            } else {
                lemma_poly_bytes_upto_ascii(self.monomials@, self.monomials@.len() as int);
            }
        }
        let r = ascii_string(out);
        proof {
            assert(r@ =~= chars_of(poly_bytes(self.monomials@)));
        }
        r
    }
}

} // verus!
