use aux_gate::field::{Fe, FIELD_MODULUS};
use aux_gate::gate::{gate_polynomial, rlc_value, GateLayout};
use aux_gate::polynomial::{poly_add, poly_mul, Expression, MultiPoly};
use aux_gate::rlc::{fp_one, fp_zero, rlc_plan};
use halo2_proofs::pasta::Fp;

/// The layout this gate gets when its columns are allocated first in a fresh
/// system with state width two: eight fixed columns (two linear selectors,
/// two quintic selectors, quadratic, input, output, constant), no instance
/// columns, four advice columns (two state, input, output).
fn layout_t2() -> GateLayout {
    GateLayout {
        t: 2,
        nf: 8,
        ni: 0,
        state: vec![0, 1],
        input: 2,
        out: 3,
        q_1: vec![0, 1],
        q_5: vec![2, 3],
        q_m: 4,
        q_i: 5,
        q_o: 6,
        rc: 7,
    }
}

#[test]
fn test_aux_gate_expr() {
    let poly = gate_polynomial(&layout_t2());
    assert_eq!(
        poly.to_text(),
        "(((((((Z_4 * Z_8) * Z_9) + (Z_5 * Z_10)) + Z_7) + (Z_6 * Z_11)) + ((Z_0 * Z_8) + (Z_2 * (((Z_8 * Z_8) * (Z_8 * Z_8)) * Z_8)))) + ((Z_1 * Z_9) + (Z_3 * (((Z_9 * Z_9) * (Z_9 * Z_9)) * Z_9))))"
    );
}

#[test]
fn test_aux_gate_cross_term() {
    let meta = (8usize, 0usize, 4usize);
    let expr = gate_polynomial(&layout_t2());
    let multipoly = expr.expand();
    let res = multipoly.fold_transform(meta);
    let r_index = meta.0 + 2 * (meta.1 + meta.2 + 1);
    let e1 = res.coeff_of(r_index, 0);
    let e2 = res.coeff_of(r_index, 5);
    assert_eq!(
        e1.to_text(),
        "(Z_2)(Z_8^5) + (Z_3)(Z_9^5) + (Z_4)(Z_8)(Z_9)(Z_12^3) + (Z_0)(Z_8)(Z_12^4) + (Z_1)(Z_9)(Z_12^4) + (Z_5)(Z_10)(Z_12^4) + (Z_6)(Z_11)(Z_12^4) + (Z_7)(Z_12^5)"
    );
    assert_eq!(
        e2.to_text(),
        "(Z_2)(Z_13^5) + (Z_3)(Z_14^5) + (Z_4)(Z_13)(Z_14)(Z_17^3) + (Z_0)(Z_13)(Z_17^4) + (Z_1)(Z_14)(Z_17^4) + (Z_5)(Z_15)(Z_17^4) + (Z_6)(Z_16)(Z_17^4) + (Z_7)(Z_17^5)"
    );
}

#[test]
fn rlc_value_horner_literal() {
    // 3 + 2*5 + 4*7 = 41, computed as out = t0 + r*(t1 + r*t2)
    let terms = vec![Fe { v: 3 }, Fe { v: 5 }, Fe { v: 7 }];
    let out = rlc_value(&terms, Fe { v: 2 });
    assert_eq!(out.v, 41);
}

#[test]
fn rlc_value_single_term() {
    let terms = vec![Fe { v: 9 }];
    assert_eq!(rlc_value(&terms, Fe { v: 5 }).v, 9);
}

#[test]
fn rlc_plan_rows_hold_horner_steps() {
    let terms = vec![Fp::from(3), Fp::from(5), Fp::from(7)];
    let rows = rlc_plan(&terms, Fp::from(2));
    assert_eq!(rows.len(), 2);
    // first row: seed with the last two terms: 5 + 2*7 = 19
    assert_eq!(rows[0].term, Fp::from(5));
    assert_eq!(rows[0].acc, Fp::from(7));
    assert_eq!(rows[0].out, Fp::from(19));
    assert!(!rows[0].wire_prev);
    // second row: 3 + 2*19 = 41
    assert_eq!(rows[1].term, Fp::from(3));
    assert_eq!(rows[1].acc, rows[0].out);
    assert_eq!(rows[1].out, Fp::from(41));
    assert!(rows[1].wire_prev);
    assert_eq!(rows[0].scalar, Fp::from(2));
}

#[test]
fn fp_wrappers_give_field_constants() {
    assert_eq!(fp_one(), Fp::from(1));
    assert_eq!(fp_zero(), Fp::from(0));
    assert_eq!(aux_gate::rlc::fp_neg(fp_one()) + fp_one(), Fp::from(0));
}

#[test]
fn field_arithmetic_wraps_at_the_modulus() {
    let a = Fe { v: FIELD_MODULUS - 1 };
    assert_eq!(a.add(Fe { v: 1 }).v, 0);
    assert_eq!(a.mul(Fe { v: 1 }).v, FIELD_MODULUS - 1);
    assert_eq!(a.neg().v, 1);
    assert_eq!(Fe::from_u64(FIELD_MODULUS).v, 0);
    assert_eq!(Fe::zero().v, 0);
    assert_eq!(Fe::one().v, 1);
}

#[test]
fn expand_merges_and_orders_monomials() {
    // (x + 1) * (x + 2) expands to 2 + 3x + x^2
    let x = || Box::new(Expression::Var(0));
    let e = Expression::Product(
        Box::new(Expression::Sum(x(), Box::new(Expression::Constant(Fe { v: 1 })))),
        Box::new(Expression::Sum(x(), Box::new(Expression::Constant(Fe { v: 2 })))),
    );
    let p = e.expand();
    assert_eq!(p.to_text(), "(2) + (3)(Z_0) + (Z_0^2)");
}

#[test]
fn expand_cancels_opposite_terms() {
    // x + (p - 1) * x expands to nothing
    let e = Expression::Sum(
        Box::new(Expression::Var(4)),
        Box::new(Expression::Product(
            Box::new(Expression::Constant(Fe { v: FIELD_MODULUS - 1 })),
            Box::new(Expression::Var(4)),
        )),
    );
    let p = e.expand();
    assert_eq!(p.to_text(), "0");
}

#[test]
fn expand_handles_powers() {
    // (2x)^3 = 8 x^3
    let e = Expression::Power(
        Box::new(Expression::Product(
            Box::new(Expression::Constant(Fe { v: 2 })),
            Box::new(Expression::Var(1)),
        )),
        3,
    );
    assert_eq!(e.expand().to_text(), "(8)(Z_1^3)");
}

#[test]
fn coeff_of_divides_the_power_out() {
    // x^2*y + 5*x^2 at power 2 of x gives y + 5
    let e = Expression::Sum(
        Box::new(Expression::Product(
            Box::new(Expression::Power(Box::new(Expression::Var(0)), 2)),
            Box::new(Expression::Var(1)),
        )),
        Box::new(Expression::Product(
            Box::new(Expression::Constant(Fe { v: 5 })),
            Box::new(Expression::Power(Box::new(Expression::Var(0)), 2)),
        )),
    );
    let p = e.expand();
    let c2 = p.coeff_of(0, 2);
    assert_eq!(c2.to_text(), "(5) + (Z_1)");
    let c0 = p.coeff_of(0, 0);
    assert_eq!(c0.to_text(), "0");
}

#[test]
fn fold_transform_keeps_copy_one_at_challenge_zero() {
    // a single witness variable x (one fixed column, one advice column):
    // fold of `x` is x1 + r * x2 with no homogenisation (degree one).
    let e = Expression::Var(1);
    let p = e.expand();
    let folded = p.fold_transform((1, 0, 1));
    // copy one keeps index 1, the slack is 2, copy two is 3, slack 4, r is 5
    let at_zero = folded.coeff_of(5, 0);
    assert_eq!(at_zero.to_text(), "(Z_1)");
    let at_one = folded.coeff_of(5, 1);
    assert_eq!(at_one.to_text(), "(Z_3)");
}

#[test]
fn gate_tree_renders_power_nodes() {
    let e = Expression::Power(Box::new(Expression::Var(2)), 5);
    assert_eq!(e.to_text(), "(Z_2^5)");
    let c = Expression::Constant(Fe { v: 1234567 });
    assert_eq!(c.to_text(), "1234567");
}

#[test]
fn coefficient_decomposition_reconstructs_the_polynomial() {
    // x^2*y + 5*x^2 + 3: summing coeff_of(x, k) * x^k over k = 0, 1, 2
    // rebuilds the expanded polynomial exactly
    let e = Expression::Sum(
        Box::new(Expression::Sum(
            Box::new(Expression::Product(
                Box::new(Expression::Power(Box::new(Expression::Var(0)), 2)),
                Box::new(Expression::Var(1)),
            )),
            Box::new(Expression::Product(
                Box::new(Expression::Constant(Fe { v: 5 })),
                Box::new(Expression::Power(Box::new(Expression::Var(0)), 2)),
            )),
        )),
        Box::new(Expression::Constant(Fe { v: 3 })),
    );
    let p = e.expand();
    let mut sum = MultiPoly { monomials: vec![] };
    for k in 0..3u64 {
        let ck = p.coeff_of(0, k);
        let xk = Expression::Power(Box::new(Expression::Var(0)), k).expand();
        sum = poly_add(sum, poly_mul(&ck, &xk));
    }
    assert_eq!(sum.to_text(), p.to_text());
}

#[test]
fn expand_is_value_equivalent_on_sample_assignments() {
    let e = gate_polynomial(&layout_t2());
    let p = e.expand();
    let samples: Vec<Vec<u64>> = vec![
        vec![1, 2, 3, 4, 5, 6, 7, 8, 9, 10, 11, 12],
        vec![0, 0, 0, 0, 0, 0, 0, 0, 0, 0, 0, 0],
        vec![1, 1, 1, 1, 1, 1, 1, 1, 1, 1, 1, 1],
        vec![2147483646, 17, 0, 99, 3, 2147483640, 5, 8, 13, 21, 34, 55],
        vec![7, 0, 2, 0, 1, 1, 2147483646, 0, 2, 7, 5, 19],
    ];
    for s in samples {
        let vals: Vec<Fe> = s.iter().map(|v| Fe::from_u64(*v)).collect();
        assert_eq!(e.eval_at(&vals).v, p.eval_at(&vals).v);
    }
}

#[test]
fn gate_vanishes_exactly_on_a_horner_row() {
    // selectors of a random-linear-combination row: q_m = q_i = 1,
    // q_o = -1, everything else 0; witness r = 2, acc = 7, term = 5
    let e = gate_polynomial(&layout_t2());
    let p = FIELD_MODULUS;
    let row = |out: u64| -> Vec<Fe> {
        vec![0, 0, 0, 0, 1, 1, p - 1, 0, 2, 7, 5, out]
            .iter()
            .map(|v| Fe::from_u64(*v))
            .collect()
    };
    // out = term + r * acc = 5 + 2 * 7 = 19 satisfies the equation
    assert_eq!(e.eval_at(&row(19)).v, 0);
    // any other output violates it
    assert_ne!(e.eval_at(&row(20)).v, 0);
    assert_ne!(e.eval_at(&row(0)).v, 0);
}

#[test]
fn fold_transform_exposes_the_cross_term() {
    // x * y over two advice variables and no fixed columns: substituting
    // x -> x1 + r*x2 and y -> y1 + r*y2 makes the coefficient at the first
    // challenge power the genuine cross term x1*y2 + x2*y1
    let e = Expression::Product(Box::new(Expression::Var(0)), Box::new(Expression::Var(1)));
    let p = e.expand();
    let folded = p.fold_transform((0, 0, 2));
    // copies keep indices 0 and 1; the second copy sits at 3 and 4; the
    // challenge is variable 6
    let cross = folded.coeff_of(6, 1);
    assert_eq!(cross.to_text(), "(Z_1)(Z_3) + (Z_0)(Z_4)");
    assert_eq!(folded.coeff_of(6, 0).to_text(), "(Z_0)(Z_1)");
    assert_eq!(folded.coeff_of(6, 2).to_text(), "(Z_3)(Z_4)");
}
