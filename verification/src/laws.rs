//! Laws of the regression engine.
//!
//! Each public proof function here states a property of the engine as a
//! whole, over the specification functions that the executable contracts
//! speak of: the fit is a function of the samples and the degree alone, the
//! evaluator is a function of the coefficients and the query point alone, a
//! degree-zero fit is the mean of the measured values, and the coefficients
//! of any successful fit solve, row by row, the upper-triangular system
//! that forward elimination makes of the normal equations.

use vstd::prelude::*;

use crate::rational::{
    lemma_deep_view_index, lemma_deep_view_len, lemma_pos_mul_pos, lemma_view_injective, odiv,
    opt_rat, rat_add_exact, rat_div_exact, rat_eq, rat_int, rat_mul_exact, rat_wf, Rat, Rational,
};
use crate::regress::{
    fit_spec, left_matrix_spec, left_ok, lemma_osum_x_wf, lemma_osum_xy_wf, lemma_sum_x_zero,
    oeval, pts_wf, right_ok, right_spec, sum_x_spec, sum_xy_spec, FitOut, RatPoint,
};
use crate::solver::{
    augmented, backward_spec, brhs, bsub_step, bsub_upto, elim_pass, elim_upto, forward_spec,
    is_rect, mat_wf, pass_factor, pass_row, pass_row_ok, red_entry, solve_spec, vec_wf,
    zero_coeffs, ElimOut, SubstOut,
};

verus! {

broadcast use lemma_deep_view_len, lemma_deep_view_index;

/// Idempotence of the fit: the coefficients are a function of the samples
/// and the degree alone, so two fits of the same samples at the same degree
/// return vectors that are equal entry for entry, numerator and denominator
/// alike.
pub proof fn lemma_fit_idempotent(
    pts: Seq<RatPoint>,
    d: nat,
    c1: Vec<Rational>,
    c2: Vec<Rational>,
)
    requires
        fit_spec(pts, d) == FitOut::Coeffs(c1.deep_view()),
        fit_spec(pts, d) == FitOut::Coeffs(c2.deep_view()),
    ensures
        c1@ == c2@,
{
    assert(c1.deep_view() == c2.deep_view());
    assert(c1@.len() == c2@.len());
    assert forall|i: int| 0 <= i < c1@.len() implies c1@[i] == c2@[i] by {
        assert(c1.deep_view()[i] == c2.deep_view()[i]);
        lemma_view_injective(c1@[i], c2@[i]);
    }
    assert(c1@ =~= c2@);
}

/// Determinism of the evaluator: its result is a function of the
/// coefficients and the query point alone, with no hidden state, so two
/// evaluations of the same polynomial at the same point agree exactly.
pub proof fn lemma_predict_deterministic(
    terms: Vec<Rational>,
    x: Rational,
    r1: Option<Rational>,
    r2: Option<Rational>,
)
    requires
        opt_rat(r1) == oeval(terms.deep_view(), x@),
        opt_rat(r2) == oeval(terms.deep_view(), x@),
    ensures
        r1 is Some <==> r2 is Some,
        r1 is Some ==> r1->0 == r2->0,
{
    if r1 is Some && r2 is Some {
        lemma_view_injective(r1->0, r2->0);
    }
}

/// The part of a row's weighted sum that uses already-known coefficients:
/// `a[k][k+s] * c[k+s]` summed over `s = 1 .. t`, as exact rationals.
pub open spec fn tail_sum(a: Seq<Seq<Rat>>, c: Seq<Rat>, k: int, t: nat) -> Rat
    decreases t,
{
    if t == 0 {
        rat_int(0)
    } else {
        rat_add_exact(
            tail_sum(a, c, k, (t - 1) as nat),
            rat_mul_exact(a[k][k + t], c[k + t]),
        )
    }
}

/// Row `k` of the augmented matrix is solved by the coefficients `c`: the
/// diagonal term plus the tail of known terms equals the row's right-hand
/// side, in value.
pub open spec fn row_solved(a: Seq<Seq<Rat>>, c: Seq<Rat>, k: int, rows: int) -> bool {
    rat_eq(
        rat_add_exact(rat_mul_exact(a[k][k], c[k]), tail_sum(a, c, k, (rows - 1 - k) as nat)),
        a[k][rows],
    )
}

/// A tail of known terms over well-formed entries is well formed.
proof fn lemma_tail_sum_wf(a: Seq<Seq<Rat>>, c: Seq<Rat>, k: int, t: nat, rows: int)
    requires
        is_rect(a, rows, rows + 1),
        mat_wf(a),
        vec_wf(c),
        c.len() == rows,
        0 <= k < rows,
        k + t < rows,
    ensures
        rat_wf(tail_sum(a, c, k, t)),
    decreases t,
{
    if t > 0 {
        lemma_tail_sum_wf(a, c, k, (t - 1) as nat, rows);
        assert(rat_wf(a[k][k + t]));
        assert(rat_wf(c[k + t]));
        lemma_pos_mul_pos(a[k][k + t].den, c[k + t].den);
        lemma_pos_mul_pos(
            tail_sum(a, c, k, (t - 1) as nat).den,
            rat_mul_exact(a[k][k + t], c[k + t]).den,
        );
    }
}

/// The tail of known terms reads only the coefficients above `k`.
proof fn lemma_tail_sum_congruent(a: Seq<Seq<Rat>>, c1: Seq<Rat>, c2: Seq<Rat>, k: int, t: nat)
    requires
        forall|j: int| k < j <= k + t ==> c1[j] == c2[j],
    ensures
        tail_sum(a, c1, k, t) == tail_sum(a, c2, k, t),
    decreases t,
{
    if t > 0 {
        lemma_tail_sum_congruent(a, c1, c2, k, (t - 1) as nat);
    }
}

/// The substituted right-hand side means what its name says: adding back the
/// subtracted tail returns the row's right-hand side, in value.
proof fn lemma_brhs_value(a: Seq<Seq<Rat>>, c: Seq<Rat>, k: int, rows: int, t: nat)
    requires
        is_rect(a, rows, rows + 1),
        mat_wf(a),
        vec_wf(c),
        c.len() == rows,
        0 <= k < rows,
        k + t < rows,
        brhs(a, c, k, rows, t) is Some,
    ensures
        rat_wf(brhs(a, c, k, rows, t)->0),
        rat_eq(
            rat_add_exact(brhs(a, c, k, rows, t)->0, tail_sum(a, c, k, t)),
            a[k][rows],
        ),
    decreases t,
{
    if t == 0 {
        assert(rat_wf(a[k][rows]));
        crate::rational::lemma_rat_add_zero(a[k][rows]);
    } else {
        assert(brhs(a, c, k, rows, (t - 1) as nat) is Some);
        lemma_brhs_value(a, c, k, rows, (t - 1) as nat);
        let r_prev = brhs(a, c, k, rows, (t - 1) as nat)->0;
        let term = crate::rational::omul(Some(a[k][k + t]), Some(c[k + t]));
        assert(term is Some);
        let m = term->0;
        assert(m == rat_mul_exact(a[k][k + t], c[k + t]));
        let r_t = brhs(a, c, k, rows, t)->0;
        assert(r_t == crate::rational::rat_sub_exact(r_prev, m));
        crate::rational::lemma_omul_wf(Some(a[k][k + t]), Some(c[k + t]));
        crate::rational::lemma_osub_wf(brhs(a, c, k, rows, (t - 1) as nat), term);
        let s_prev = tail_sum(a, c, k, (t - 1) as nat);
        crate::rational::lemma_rat_sub_add_cancel(r_prev, s_prev, m);
        assert(tail_sum(a, c, k, t) == rat_add_exact(s_prev, m));
        lemma_tail_sum_wf(a, c, k, (t - 1) as nat, rows);
        lemma_pos_mul_pos(r_prev.den, s_prev.den);
        crate::rational::lemma_rat_eq_trans(
            rat_add_exact(r_t, tail_sum(a, c, k, t)),
            rat_add_exact(r_prev, s_prev),
            a[k][rows],
        );
    }
}

/// After `t` steps of back substitution, every row already processed is
/// solved by the coefficients so far.
proof fn lemma_bsub_upto_solves(a: Seq<Seq<Rat>>, rows: int, t: nat, c: Seq<Rat>)
    requires
        rows >= 1,
        t <= rows,
        is_rect(a, rows, rows + 1),
        mat_wf(a),
        bsub_upto(a, rows, t) == SubstOut::Done(c),
    ensures
        c.len() == rows,
        vec_wf(c),
        forall|k: int| rows - t <= k < rows ==> #[trigger] row_solved(a, c, k, rows),
    decreases t,
{
    if t == 0 {
        assert(c == zero_coeffs(rows));
        assert forall|i: int| 0 <= i < c.len() implies rat_wf(#[trigger] c[i]) by {
            assert(c[i] == rat_int(0));
        }
    } else {
        let prev = bsub_upto(a, rows, (t - 1) as nat);
        assert(prev is Done);
        let cp = prev->Done_0;
        lemma_bsub_upto_solves(a, rows, (t - 1) as nat, cp);
        let k0 = rows - t;
        assert(a[k0][k0].num != 0);
        let full = (rows - 1 - k0) as nat;
        let rb = brhs(a, cp, k0, rows, full);
        assert(rb is Some);
        let r = rb->0;
        let piv = a[k0][k0];
        let q = odiv(rb, Some(piv));
        assert(q is Some);
        let v = q->0;
        assert(c == cp.update(k0, v));
        assert(rat_wf(piv));
        lemma_brhs_value(a, cp, k0, rows, full);
        crate::rational::lemma_odiv_wf(rb, Some(piv));
        assert(rat_wf(v));
        assert forall|i: int| 0 <= i < c.len() implies rat_wf(#[trigger] c[i]) by {
            if i != k0 {
                assert(c[i] == cp[i]);
            }
        }
        let s_prev = tail_sum(a, cp, k0, full);
        assert(rat_eq(rat_add_exact(r, s_prev), a[k0][rows]));
        lemma_tail_sum_wf(a, cp, k0, full, rows);
        crate::rational::lemma_rat_div_mul_cancel(r, piv);
        assert(rat_eq(rat_mul_exact(piv, v), r));
        crate::rational::lemma_rat_eq_add_congruent(rat_mul_exact(piv, v), r, s_prev);
        lemma_pos_mul_pos(r.den, s_prev.den);
        crate::rational::lemma_rat_eq_trans(
            rat_add_exact(rat_mul_exact(piv, v), s_prev),
            rat_add_exact(r, s_prev),
            a[k0][rows],
        );
        lemma_tail_sum_congruent(a, cp, c, k0, full);
        assert(row_solved(a, c, k0, rows));
        assert forall|k: int| rows - t <= k < rows implies #[trigger] row_solved(
            a,
            c,
            k,
            rows,
        ) by {
            if k != k0 {
                assert(row_solved(a, cp, k, rows));
                lemma_tail_sum_congruent(a, cp, c, k, (rows - 1 - k) as nat);
                assert(c[k] == cp[k]);
            }
        }
    }
}

/// One elimination pass keeps the matrix rectangular and its entries well
/// formed.
proof fn lemma_elim_pass_wf(m: Seq<Seq<Rat>>, p: int, rows: int, cols: int)
    requires
        is_rect(m, rows, cols),
        mat_wf(m),
        0 <= p < rows,
        p < cols,
    ensures
        elim_pass(m, p, rows, cols) is Done ==> is_rect(
            elim_pass(m, p, rows, cols)->Done_0,
            rows,
            cols,
        ) && mat_wf(elim_pass(m, p, rows, cols)->Done_0),
{
    if elim_pass(m, p, rows, cols) is Done {
        let out = elim_pass(m, p, rows, cols)->Done_0;
        assert forall|z: int| 0 <= z < rows implies (#[trigger] out[z]).len() == cols by {
            if z > p {
                assert(out[z] == pass_row(m, p, z, cols));
            }
        }
        assert forall|z: int, i: int| 0 <= z < rows && 0 <= i < out[z].len() implies rat_wf(
            #[trigger] out[z][i],
        ) by {
            if z > p {
                assert(pass_row_ok(m, p, z, cols));
                let f = pass_factor(m, p, z)->0;
                crate::rational::lemma_odiv_wf(Some(m[z][p]), Some(m[p][p]));
                assert(out[z][i] == red_entry(m[p], m[z], f, i)->0);
                crate::rational::lemma_omul_wf(Some(f), Some(m[p][i]));
                crate::rational::lemma_osub_wf(
                    Some(m[z][i]),
                    crate::rational::omul(Some(f), Some(m[p][i])),
                );
            }
        }
    }
}

/// Forward elimination keeps the matrix rectangular and its entries well
/// formed.
proof fn lemma_elim_upto_wf(m: Seq<Seq<Rat>>, rows: int, cols: int, k: nat)
    requires
        is_rect(m, rows, cols),
        mat_wf(m),
        rows >= 1,
        k < rows,
        rows <= cols,
    ensures
        elim_upto(m, rows, cols, k) is Done ==> is_rect(
            elim_upto(m, rows, cols, k)->Done_0,
            rows,
            cols,
        ) && mat_wf(elim_upto(m, rows, cols, k)->Done_0),
    decreases k,
{
    if k > 0 && elim_upto(m, rows, cols, k) is Done {
        assert(elim_upto(m, rows, cols, (k - 1) as nat) is Done);
        lemma_elim_upto_wf(m, rows, cols, (k - 1) as nat);
        lemma_elim_pass_wf(elim_upto(m, rows, cols, (k - 1) as nat)->Done_0, k - 1, rows, cols);
    }
}

/// Each elimination pass zeroes the pivot column below the diagonal: every
/// entry of column `p` below row `p` of the matrix it produces has a zero
/// numerator, that is, is zero in value.
pub proof fn lemma_elim_pass_zeroes_column(m: Seq<Seq<Rat>>, p: int, rows: int, cols: int)
    requires
        is_rect(m, rows, cols),
        0 <= p < rows,
        p < cols,
    ensures
        elim_pass(m, p, rows, cols) is Done ==> forall|z: int|
            p < z < rows ==> (#[trigger] elim_pass(m, p, rows, cols)->Done_0[z][p]).num == 0,
{
    if elim_pass(m, p, rows, cols) is Done {
        let out = elim_pass(m, p, rows, cols)->Done_0;
        assert forall|z: int| p < z < rows implies (#[trigger] out[z][p]).num == 0 by {
            assert(pass_row_ok(m, p, z, cols));
            let f = pass_factor(m, p, z)->0;
            assert(f == rat_div_exact(m[z][p], m[p][p]));
            assert(red_entry(m[p], m[z], f, p) is Some);
            assert(out[z] == pass_row(m, p, z, cols));
            assert(out[z][p] == crate::rational::rat_sub_exact(
                m[z][p],
                rat_mul_exact(f, m[p][p]),
            ));
            crate::rational::lemma_rat_sub_div_mul_zero(m[z][p], m[p][p]);
        }
    }
}

/// The columns left of `k` are zero in value below the diagonal.
pub open spec fn lower_zeroed(m: Seq<Seq<Rat>>, k: int) -> bool {
    forall|z: int, j: int| 0 <= j < k && j < z < m.len() ==> (#[trigger] m[z][j]).num == 0
}

/// The first `k` elimination passes zero the first `k` columns below the
/// diagonal: a pass zeroes its own pivot column, and keeps the zeroes of the
/// earlier columns, because the pivot row is itself already zero there.
proof fn lemma_elim_upto_zeroes(m: Seq<Seq<Rat>>, rows: int, cols: int, k: nat)
    requires
        is_rect(m, rows, cols),
        mat_wf(m),
        rows >= 1,
        k < rows,
        rows <= cols,
    ensures
        elim_upto(m, rows, cols, k) is Done ==> lower_zeroed(
            elim_upto(m, rows, cols, k)->Done_0,
            k as int,
        ),
    decreases k,
{
    if k > 0 && elim_upto(m, rows, cols, k) is Done {
        let prevo = elim_upto(m, rows, cols, (k - 1) as nat);
        assert(prevo is Done);
        let m1 = prevo->Done_0;
        lemma_elim_upto_zeroes(m, rows, cols, (k - 1) as nat);
        lemma_elim_upto_wf(m, rows, cols, (k - 1) as nat);
        let p = k - 1;
        assert(elim_upto(m, rows, cols, k) == elim_pass(m1, p, rows, cols));
        let out = elim_pass(m1, p, rows, cols)->Done_0;
        lemma_elim_pass_zeroes_column(m1, p, rows, cols);
        assert forall|z: int, j: int|
            0 <= j < k && j < z < out.len() implies (#[trigger] out[z][j]).num == 0 by {
            if z <= p {
                assert(out[z] == m1[z]);
                assert(m1[z][j].num == 0);
                assert(out[z][j].num == 0);
            } else if j == p {
                assert(out[z][j].num == 0);
            } else {
                assert(pass_row_ok(m1, p, z, cols));
                let f = pass_factor(m1, p, z)->0;
                assert(red_entry(m1[p], m1[z], f, j) is Some);
                assert(out[z] == pass_row(m1, p, z, cols));
                let scaled = rat_mul_exact(f, m1[p][j]);
                assert(out[z][j] == crate::rational::rat_sub_exact(m1[z][j], scaled));
                assert(m1[z][j].num == 0);
                assert(m1[p][j].num == 0);
                assert(scaled.num == 0) by (nonlinear_arith)
                    requires
                        scaled.num == f.num * m1[p][j].num,
                        m1[p][j].num == 0,
                ;
                assert(out[z][j].num == m1[z][j].num * scaled.den - scaled.num * m1[z][j].den);
                assert(out[z][j].num == 0) by (nonlinear_arith)
                    requires
                        out[z][j].num == m1[z][j].num * scaled.den - scaled.num * m1[z][j].den,
                        m1[z][j].num == 0,
                        scaled.num == 0,
                ;
            }
        }
    }
}

/// Forward elimination leaves the matrix upper-triangular in value: every
/// entry strictly below the diagonal of the matrix it produces is zero.
pub proof fn lemma_forward_upper_triangular(m: Seq<Seq<Rat>>, rows: int, cols: int)
    requires
        is_rect(m, rows, cols),
        mat_wf(m),
        rows >= 1,
        rows <= cols,
    ensures
        forward_spec(m, rows, cols) is Done ==> forall|z: int, j: int|
            0 <= j < z < rows ==> (#[trigger] forward_spec(m, rows, cols)->Done_0[z][j]).num == 0,
{
    if forward_spec(m, rows, cols) is Done {
        lemma_elim_upto_zeroes(m, rows, cols, (rows - 1) as nat);
        lemma_elim_upto_wf(m, rows, cols, (rows - 1) as nat);
    }
}

/// Back substitution solves the system it reads: for the coefficient vector
/// it returns, the diagonal term of every row plus that row's tail of known
/// terms equals the row's right-hand side, as rational values.  On the
/// upper-triangular matrix that forward elimination hands over, this says
/// the coefficients solve the reduced system.
pub proof fn lemma_backward_solves(a: Seq<Seq<Rat>>, rows: int, c: Seq<Rat>)
    requires
        rows >= 1,
        is_rect(a, rows, rows + 1),
        mat_wf(a),
        backward_spec(a, rows) == SubstOut::Done(c),
    ensures
        c.len() == rows,
        forall|k: int| 0 <= k < rows ==> #[trigger] row_solved(a, c, k, rows),
{
    lemma_bsub_upto_solves(a, rows, rows as nat, c);
}

/// The fitted coefficients solve the reduced normal-equation system: when a
/// fit returns coefficients, forward elimination of the augmented normal
/// equations succeeds, the matrix it produces is upper-triangular in value,
/// and the coefficients solve every one of its rows.
pub proof fn lemma_fit_solves_reduced(pts: Seq<RatPoint>, d: nat)
    requires
        pts_wf(pts),
        fit_spec(pts, d) is Coeffs,
    ensures
        ({
            let rows = d + 1;
            let aug = augmented(left_matrix_spec(pts, d), right_spec(pts, d));
            let red = forward_spec(aug, rows as int, rows as int + 1);
            let c = fit_spec(pts, d)->Coeffs_0;
            &&& red is Done
            &&& c.len() == rows
            &&& forall|z: int, j: int| 0 <= j < z < rows ==> (#[trigger] red->Done_0[z][j]).num
                == 0
            &&& forall|k: int| 0 <= k < rows ==> #[trigger] row_solved(red->Done_0, c, k, rows as int)
        }),
{
    let rows = d + 1;
    let lm = left_matrix_spec(pts, d);
    let b = right_spec(pts, d);
    assert(left_ok(pts, d) && right_ok(pts, d));
    assert(lm.len() == rows);
    assert forall|i: int| 0 <= i < rows implies (#[trigger] lm[i]).len() == rows by {}
    assert forall|i: int, j: int| 0 <= i < lm.len() && 0 <= j < lm[i].len() implies rat_wf(
        #[trigger] lm[i][j],
    ) by {
        assert(sum_x_spec(pts, (i + j) as nat) is Some);
        lemma_osum_x_wf(pts, (i + j) as nat, pts.len());
    }
    assert(b.len() == rows);
    assert forall|i: int| 0 <= i < b.len() implies rat_wf(#[trigger] b[i]) by {
        assert(sum_xy_spec(pts, i as nat) is Some);
        lemma_osum_xy_wf(pts, i as nat, pts.len());
    }
    let aug = augmented(lm, b);
    assert(aug.len() == rows);
    assert forall|i: int| 0 <= i < rows implies (#[trigger] aug[i]).len() == rows + 1 by {
        assert(aug[i] == lm[i].push(b[i]));
    }
    assert forall|i: int, j: int| 0 <= i < aug.len() && 0 <= j < aug[i].len() implies rat_wf(
        #[trigger] aug[i][j],
    ) by {
        assert(aug[i] == lm[i].push(b[i]));
        if j < rows {
            assert(aug[i][j] == lm[i][j]);
        } else {
            assert(aug[i][j] == b[i]);
        }
    }
    assert(is_rect(aug, rows as int, rows as int + 1));
    assert(mat_wf(aug));
    let red = forward_spec(aug, rows as int, rows as int + 1);
    assert(red is Done);
    lemma_elim_upto_wf(aug, rows as int, rows as int + 1, (rows - 1) as nat);
    lemma_forward_upper_triangular(aug, rows as int, rows as int + 1);
    let c = fit_spec(pts, d)->Coeffs_0;
    assert(backward_spec(red->Done_0, rows as int) == SubstOut::Done(c));
    lemma_backward_solves(red->Done_0, rows as int, c);
}

/// Exactness for degree zero: fitting a constant to a nonempty sample set
/// yields one coefficient, the mean of the measured values.  The
/// coefficient is the zero-power mixed sum — with `x^0 == 1` that is the
/// sum of the y-values — divided by the sample count, so the coefficient
/// times the sample count equals that sum.
pub proof fn lemma_degree_zero_is_mean(pts: Seq<RatPoint>)
    requires
        pts.len() > 0,
        pts_wf(pts),
        fit_spec(pts, 0) is Coeffs,
    ensures
        fit_spec(pts, 0)->Coeffs_0.len() == 1,
        sum_xy_spec(pts, 0) is Some,
        rat_wf(fit_spec(pts, 0)->Coeffs_0[0]),
        fit_spec(pts, 0)->Coeffs_0[0] == rat_div_exact(
            sum_xy_spec(pts, 0)->0,
            rat_int(pts.len() as int),
        ),
        rat_eq(
            rat_mul_exact(fit_spec(pts, 0)->Coeffs_0[0], rat_int(pts.len() as int)),
            sum_xy_spec(pts, 0)->0,
        ),
{
    let n = pts.len();
    assert(left_ok(pts, 0));
    assert(sum_x_spec(pts, 0) is Some);
    lemma_sum_x_zero(pts, n);
    assert(sum_x_spec(pts, 0) == Some(rat_int(n as int)));
    assert(right_ok(pts, 0));
    assert(sum_xy_spec(pts, 0) is Some);
    let sy = sum_xy_spec(pts, 0)->0;
    lemma_osum_xy_wf(pts, 0, n);
    assert(rat_wf(sy));
    let lm = left_matrix_spec(pts, 0);
    let b = right_spec(pts, 0);
    assert(lm.len() == 1);
    assert(lm[0].len() == 1);
    assert(lm[0][0] == rat_int(n as int));
    assert(b.len() == 1);
    assert(b[0] == sy);
    let aug = augmented(lm, b);
    assert(aug.len() == 1);
    assert(aug[0] == lm[0].push(b[0]));
    assert(aug[0].len() == 2);
    assert(aug[0][0] == rat_int(n as int));
    assert(aug[0][1] == sy);
    assert(forward_spec(aug, 1, 2) == ElimOut::Done(aug));
    assert(bsub_upto(aug, 1, 0) == SubstOut::Done(zero_coeffs(1)));
    assert(backward_spec(aug, 1) == bsub_step(aug, zero_coeffs(1), 0, 1));
    assert(aug[0][0].num == n as int);
    assert(brhs(aug, zero_coeffs(1), 0, 1, 0) == Some(sy));
    assert(solve_spec(lm, b) == bsub_step(aug, zero_coeffs(1), 0, 1));
    let q = odiv(Some(sy), Some(rat_int(n as int)));
    assert(q is Some);
    let v = q->0;
    assert(v == rat_div_exact(sy, rat_int(n as int)));
    assert(fit_spec(pts, 0)->Coeffs_0 == zero_coeffs(1).update(0, v));
    assert(fit_spec(pts, 0)->Coeffs_0[0] == v);
    assert(rat_int(n as int).num == n as int && rat_int(n as int).den == 1);
    assert(v.num == sy.num * 1);
    assert(v.den == sy.den * (n as int));
    assert(sy.num * 1 == sy.num) by (nonlinear_arith);
    assert(v.num == sy.num && v.den == sy.den * (n as int));
    lemma_pos_mul_pos(sy.den, n as int);
    assert(rat_wf(v));
    let prod = rat_mul_exact(v, rat_int(n as int));
    assert(prod.num == sy.num * (n as int) && prod.den == sy.den * (n as int));
    assert((sy.num * (n as int)) * sy.den == sy.num * (sy.den * (n as int)))
        by (nonlinear_arith);
    assert(rat_eq(prod, sy));
}

} // verus!
