//! The polynomial regression engine.
//!
//! From an ordered sequence of sample points and a degree `d`, the engine
//! builds the normal equations of the least-squares problem — the
//! `(d+1) x (d+1)` moment matrix `M[i][j] = sum of x^(i+j)` and the
//! right-hand side `b[i] = sum of x^i * y` — hands them to the Gaussian
//! solver, and returns the coefficient vector of the fitted polynomial,
//! constant term first.  The evaluator computes `sum of c[i] * x^i` for a
//! query point.

use vstd::prelude::*;

use crate::rational::{
    lemma_deep_view_index, lemma_deep_view_len, oadd, omul, opt_rat, rat_int, rat_wf, Rat,
    Rational,
};
use crate::solver::{
    gaussian_jordan_elimination, is_rect, mat_wf, solve_spec, vec_wf, FitError, Matrix, SubstOut,
};

verus! {

broadcast use lemma_deep_view_len, lemma_deep_view_index;

/// The mathematical value of a sample point: two rationals.
pub struct RatPoint {
    pub x: Rat,
    pub y: Rat,
}

/// A sample point: an x-coordinate and the value measured there.
#[derive(Clone, Copy, Debug, PartialEq, Eq, Structural)]
pub struct DataPoint {
    pub x: Rational,
    pub y: Rational,
}

impl View for DataPoint {
    type V = RatPoint;

    open spec fn view(&self) -> RatPoint {
        RatPoint { x: self.x@, y: self.y@ }
    }
}

impl DeepView for DataPoint {
    type V = RatPoint;

    open spec fn deep_view(&self) -> RatPoint {
        self.view()
    }
}

/// Both coordinates of every point are well formed.
pub open spec fn pts_wf(pts: Seq<RatPoint>) -> bool {
    forall|i: int| 0 <= i < pts.len() ==> rat_wf((#[trigger] pts[i]).x) && rat_wf(pts[i].y)
}

/// Checked power: `x^k`, multiplied up one factor at a time, `None` once a
/// product leaves `i128`.  By convention `x^0 == 1`, also for `x == 0`.
pub open spec fn opow(x: Rat, k: nat) -> Option<Rat>
    decreases k,
{
    if k == 0 {
        Some(rat_int(1))
    } else {
        omul(opow(x, (k - 1) as nat), Some(x))
    }
}

/// Once a power has overflowed, so has every higher power.
pub proof fn lemma_opow_stuck(x: Rat, s: nat, t: nat)
    requires
        s <= t,
        opow(x, s) is None,
    ensures
        opow(x, t) is None,
    decreases t,
{
    if t > s {
        lemma_opow_stuck(x, s, (t - 1) as nat);
    }
}

/// Checked sum of `x^p` over the first `n` points.
pub open spec fn osum_x(pts: Seq<RatPoint>, p: nat, n: nat) -> Option<Rat>
    decreases n,
{
    if n == 0 {
        Some(rat_int(0))
    } else {
        oadd(osum_x(pts, p, (n - 1) as nat), opow(pts[n - 1].x, p))
    }
}

/// Checked sum of `x^p` over all points.
pub open spec fn sum_x_spec(pts: Seq<RatPoint>, p: nat) -> Option<Rat> {
    osum_x(pts, p, pts.len())
}

/// Once a partial sum of powers has overflowed, so has every longer one.
pub proof fn lemma_osum_x_stuck(pts: Seq<RatPoint>, p: nat, s: nat, t: nat)
    requires
        s <= t,
        osum_x(pts, p, s) is None,
    ensures
        osum_x(pts, p, t) is None,
    decreases t,
{
    if t > s {
        lemma_osum_x_stuck(pts, p, s, (t - 1) as nat);
    }
}

/// Checked sum of `x^p * y` over the first `n` points.
pub open spec fn osum_xy(pts: Seq<RatPoint>, p: nat, n: nat) -> Option<Rat>
    decreases n,
{
    if n == 0 {
        Some(rat_int(0))
    } else {
        oadd(osum_xy(pts, p, (n - 1) as nat), omul(opow(pts[n - 1].x, p), Some(pts[n - 1].y)))
    }
}

/// Checked sum of `x^p * y` over all points.
pub open spec fn sum_xy_spec(pts: Seq<RatPoint>, p: nat) -> Option<Rat> {
    osum_xy(pts, p, pts.len())
}

/// Once a partial mixed sum has overflowed, so has every longer one.
pub proof fn lemma_osum_xy_stuck(pts: Seq<RatPoint>, p: nat, s: nat, t: nat)
    requires
        s <= t,
        osum_xy(pts, p, s) is None,
    ensures
        osum_xy(pts, p, t) is None,
    decreases t,
{
    if t > s {
        lemma_osum_xy_stuck(pts, p, s, (t - 1) as nat);
    }
}

/// A representable power of a well-formed rational is well formed.
pub proof fn lemma_opow_wf(x: Rat, k: nat)
    requires
        rat_wf(x),
    ensures
        opow(x, k) is Some ==> rat_wf(opow(x, k)->0),
    decreases k,
{
    if k > 0 {
        lemma_opow_wf(x, (k - 1) as nat);
        crate::rational::lemma_omul_wf(opow(x, (k - 1) as nat), Some(x));
    }
}

/// A representable moment sum over well-formed points is well formed.
pub proof fn lemma_osum_x_wf(pts: Seq<RatPoint>, p: nat, n: nat)
    requires
        pts_wf(pts),
        n <= pts.len(),
    ensures
        osum_x(pts, p, n) is Some ==> rat_wf(osum_x(pts, p, n)->0),
    decreases n,
{
    if n > 0 {
        lemma_osum_x_wf(pts, p, (n - 1) as nat);
        lemma_opow_wf(pts[n - 1].x, p);
        crate::rational::lemma_oadd_wf(osum_x(pts, p, (n - 1) as nat), opow(pts[n - 1].x, p));
    }
}

/// A representable mixed sum over well-formed points is well formed.
pub proof fn lemma_osum_xy_wf(pts: Seq<RatPoint>, p: nat, n: nat)
    requires
        pts_wf(pts),
        n <= pts.len(),
    ensures
        osum_xy(pts, p, n) is Some ==> rat_wf(osum_xy(pts, p, n)->0),
    decreases n,
{
    if n > 0 {
        lemma_osum_xy_wf(pts, p, (n - 1) as nat);
        lemma_opow_wf(pts[n - 1].x, p);
        crate::rational::lemma_omul_wf(opow(pts[n - 1].x, p), Some(pts[n - 1].y));
        crate::rational::lemma_oadd_wf(
            osum_xy(pts, p, (n - 1) as nat),
            omul(opow(pts[n - 1].x, p), Some(pts[n - 1].y)),
        );
    }
}

/// With the convention `x^0 == 1`, the moment sum of power zero counts the
/// samples: over the first `n` points it is the rational `n / 1` while that
/// count fits in `i128`, and it overflows beyond that.
pub proof fn lemma_sum_x_zero(pts: Seq<RatPoint>, n: nat)
    requires
        n <= pts.len(),
    ensures
        n as int <= i128::MAX as int ==> osum_x(pts, 0, n) == Some(rat_int(n as int)),
        n as int > i128::MAX as int ==> osum_x(pts, 0, n) is None,
    decreases n,
{
    if n > 0 {
        lemma_sum_x_zero(pts, (n - 1) as nat);
    }
}

/// Every moment sum the matrix needs is representable.
pub open spec fn left_ok(pts: Seq<RatPoint>, d: nat) -> bool {
    forall|q: nat| q <= 2 * d ==> (#[trigger] sum_x_spec(pts, q)) is Some
}

/// The moment matrix of the normal equations: `M[i][j] = sum of x^(i+j)`,
/// so `M[0][0]` is the sample count.
pub open spec fn left_matrix_spec(pts: Seq<RatPoint>, d: nat) -> Seq<Seq<Rat>> {
    Seq::new(d + 1, |i: int| Seq::new(d + 1, |j: int| sum_x_spec(pts, (i + j) as nat)->0))
}

/// Every right-hand-side sum is representable.
pub open spec fn right_ok(pts: Seq<RatPoint>, d: nat) -> bool {
    forall|q: nat| q <= d ==> (#[trigger] sum_xy_spec(pts, q)) is Some
}

/// The right-hand side of the normal equations: `b[i] = sum of x^i * y`.
pub open spec fn right_spec(pts: Seq<RatPoint>, d: nat) -> Seq<Rat> {
    Seq::new(d + 1, |i: int| sum_xy_spec(pts, i as nat)->0)
}

/// What a fit produces: the coefficients of the least-squares polynomial, or
/// the failure met on the way.
pub enum FitOut {
    EmptyInput,
    Overflow,
    Singular,
    Coeffs(Seq<Rat>),
}

/// The whole fit: reject an empty sample set, build the normal equations,
/// and solve them by Gaussian elimination.
pub open spec fn fit_spec(pts: Seq<RatPoint>, d: nat) -> FitOut {
    if pts.len() == 0 {
        FitOut::EmptyInput
    } else if !(left_ok(pts, d) && right_ok(pts, d)) {
        FitOut::Overflow
    } else {
        match solve_spec(left_matrix_spec(pts, d), right_spec(pts, d)) {
            SubstOut::Done(c) => FitOut::Coeffs(c),
            SubstOut::Singular => FitOut::Singular,
            SubstOut::Overflow => FitOut::Overflow,
        }
    }
}

/// Checked value of the polynomial with coefficients `c` at `x`, summed over
/// the first `n` terms in ascending power order: `sum of c[i] * x^i`.
pub open spec fn oeval_pfx(c: Seq<Rat>, x: Rat, n: nat) -> Option<Rat>
    decreases n,
{
    if n == 0 {
        Some(rat_int(0))
    } else {
        oadd(oeval_pfx(c, x, (n - 1) as nat), omul(Some(c[n - 1]), opow(x, (n - 1) as nat)))
    }
}

/// Checked value of the polynomial with coefficients `c` at `x`.
pub open spec fn oeval(c: Seq<Rat>, x: Rat) -> Option<Rat> {
    oeval_pfx(c, x, c.len())
}

/// Once a partial value has overflowed, so has every longer one.
pub proof fn lemma_oeval_stuck(c: Seq<Rat>, x: Rat, s: nat, t: nat)
    requires
        s <= t,
        oeval_pfx(c, x, s) is None,
    ensures
        oeval_pfx(c, x, t) is None,
    decreases t,
{
    if t > s {
        lemma_oeval_stuck(c, x, s, (t - 1) as nat);
    }
}

/// Checked power of a rational.
pub fn pow_rat(x: Rational, k: usize) -> (r: Option<Rational>)
    requires
        x.wf(),
    ensures
        opt_rat(r) == opow(x@, k as nat),
        r is Some ==> r->0.wf(),
{
    let mut acc = Rational::from_int(1);
    let mut i: usize = 0;
    while i < k
        invariant
            i <= k,
            x.wf(),
            acc.wf(),
            Some(acc@) == opow(x@, i as nat),
        decreases k - i,
    {
        acc = match acc.mul(x) {
            Some(v) => v,
            None => {
                proof {
                    lemma_opow_stuck(x@, (i + 1) as nat, k as nat);
                }
                return None;
            },
        };
        i += 1;
    }
    Some(acc)
}

/// The regression engine: the samples, the requested degree, and the
/// matrices of the most recent fit.
#[derive(Debug)]
pub struct PolynomialRegression {
    pub data: Vec<DataPoint>,
    pub degree: usize,
    pub matrix: Matrix,
    pub left_matrix: Matrix,
    pub right_matrix: Vec<Rational>,
}

impl PolynomialRegression {
    /// All sample coordinates are well formed.
    pub open spec fn wf(self) -> bool {
        pts_wf(self.data.deep_view())
    }

    /// A fresh engine over the given samples and degree, with no fit
    /// computed yet.
    pub fn new(data_points: Vec<DataPoint>, degree: usize) -> (r: PolynomialRegression)
        ensures
            r.data == data_points,
            r.degree == degree,
            r.matrix@.len() == 0,
            r.left_matrix@.len() == 0,
            r.right_matrix@.len() == 0,
    {
        PolynomialRegression {
            data: data_points,
            degree,
            matrix: Vec::new(),
            left_matrix: Vec::new(),
            right_matrix: Vec::new(),
        }
    }

    /// The sum of all x-coordinates raised to `power`, or `None` when a step
    /// of the sum leaves `i128`.
    pub fn sum_x(&self, power: usize) -> (r: Option<Rational>)
        requires
            self.wf(),
        ensures
            opt_rat(r) == sum_x_spec(self.data.deep_view(), power as nat),
            r is Some ==> r->0.wf(),
    {
        let ghost pts = self.data.deep_view();
        let mut acc = Rational::from_int(0);
        let mut i: usize = 0;
        while i < self.data.len()
            invariant
                i <= self.data@.len(),
                pts == self.data.deep_view(),
                pts_wf(pts),
                acc.wf(),
                Some(acc@) == osum_x(pts, power as nat, i as nat),
            decreases self.data@.len() - i,
        {
            proof {
                assert(pts[i as int] == self.data@[i as int]@);
            }
            let term = match pow_rat(self.data[i].x, power) {
                Some(v) => v,
                None => {
                    proof {
                        lemma_osum_x_stuck(pts, power as nat, (i + 1) as nat, pts.len());
                    }
                    return None;
                },
            };
            acc = match acc.add(term) {
                Some(v) => v,
                None => {
                    proof {
                        lemma_osum_x_stuck(pts, power as nat, (i + 1) as nat, pts.len());
                    }
                    return None;
                },
            };
            i += 1;
        }
        Some(acc)
    }

    /// The sum of `x^power * y` over all samples, or `None` when a step of
    /// the sum leaves `i128`.
    pub fn sum_x_times_y(&self, power: usize) -> (r: Option<Rational>)
        requires
            self.wf(),
        ensures
            opt_rat(r) == sum_xy_spec(self.data.deep_view(), power as nat),
            r is Some ==> r->0.wf(),
    {
        let ghost pts = self.data.deep_view();
        let mut acc = Rational::from_int(0);
        let mut i: usize = 0;
        while i < self.data.len()
            invariant
                i <= self.data@.len(),
                pts == self.data.deep_view(),
                pts_wf(pts),
                acc.wf(),
                Some(acc@) == osum_xy(pts, power as nat, i as nat),
            decreases self.data@.len() - i,
        {
            proof {
                assert(pts[i as int] == self.data@[i as int]@);
            }
            let xp = match pow_rat(self.data[i].x, power) {
                Some(v) => v,
                None => {
                    proof {
                        lemma_osum_xy_stuck(pts, power as nat, (i + 1) as nat, pts.len());
                    }
                    return None;
                },
            };
            let term = match xp.mul(self.data[i].y) {
                Some(v) => v,
                None => {
                    proof {
                        lemma_osum_xy_stuck(pts, power as nat, (i + 1) as nat, pts.len());
                    }
                    return None;
                },
            };
            acc = match acc.add(term) {
                Some(v) => v,
                None => {
                    proof {
                        lemma_osum_xy_stuck(pts, power as nat, (i + 1) as nat, pts.len());
                    }
                    return None;
                },
            };
            i += 1;
        }
        Some(acc)
    }

    /// The moment matrix of the normal equations, or `None` when one of its
    /// sums leaves `i128`.
    pub fn generate_left_matrix(&self) -> (r: Option<Matrix>)
        requires
            self.wf(),
            2 * self.degree + 2 <= usize::MAX,
        ensures
            r is Some <==> left_ok(self.data.deep_view(), self.degree as nat),
            r is Some ==> r->0.deep_view() == left_matrix_spec(
                self.data.deep_view(),
                self.degree as nat,
            ),
            r is Some ==> is_rect(
                r->0.deep_view(),
                self.degree + 1,
                self.degree + 1,
            ) && mat_wf(r->0.deep_view()),
    {
        let ghost pts = self.data.deep_view();
        let ghost d = self.degree as nat;
        let top = 2 * self.degree;
        let mut sums: Vec<Rational> = Vec::new();
        let mut q: usize = 0;
        while q <= top
            invariant
                q <= top + 1,
                top == 2 * self.degree,
                2 * self.degree + 2 <= usize::MAX,
                pts == self.data.deep_view(),
                pts_wf(pts),
                self.wf(),
                sums@.len() == q,
                forall|q2: nat|
                    q2 < q ==> (#[trigger] sum_x_spec(pts, q2)) is Some,
                forall|q2: int|
                    0 <= q2 < q ==> sums.deep_view()[q2] == sum_x_spec(pts, q2 as nat)->0,
                vec_wf(sums.deep_view()),
            decreases top + 1 - q,
        {
            let s = match self.sum_x(q) {
                Some(v) => v,
                None => {
                    return None;
                },
            };
            let ghost sprev = sums.deep_view();
            sums.push(s);
            proof {
                assert(sums.deep_view() =~= sprev.push(s@));
            }
            q += 1;
        }
        let size = self.degree + 1;
        let ghost goal = left_matrix_spec(pts, d);
        let mut out: Matrix = Vec::new();
        let mut i: usize = 0;
        while i < size
            invariant
                i <= size,
                size == self.degree + 1,
                top == 2 * self.degree,
                sums@.len() == top + 1,
                goal == left_matrix_spec(pts, d),
                d == self.degree as nat,
                forall|q2: nat| q2 <= 2 * d ==> (#[trigger] sum_x_spec(pts, q2)) is Some,
                forall|q2: int|
                    0 <= q2 <= 2 * d ==> sums.deep_view()[q2] == sum_x_spec(pts, q2 as nat)->0,
                vec_wf(sums.deep_view()),
                out.deep_view() == goal.take(i as int),
            decreases size - i,
        {
            let mut row: Vec<Rational> = Vec::new();
            let mut j: usize = 0;
            while j < size
                invariant
                    j <= size,
                    i < size,
                    size == self.degree + 1,
                    top == 2 * self.degree,
                    sums@.len() == top + 1,
                    goal == left_matrix_spec(pts, d),
                    d == self.degree as nat,
                    forall|q2: int|
                        0 <= q2 <= 2 * d ==> sums.deep_view()[q2] == sum_x_spec(pts, q2 as nat)->0,
                    vec_wf(sums.deep_view()),
                    row.deep_view() == goal[i as int].take(j as int),
                decreases size - j,
            {
                proof {
                    assert(sums.deep_view()[i + j] == sum_x_spec(pts, (i + j) as nat)->0);
                }
                row.push(sums[i + j]);
                proof {
                    assert(row.deep_view() =~= goal[i as int].take(j as int + 1));
                }
                j += 1;
            }
            proof {
                assert(row.deep_view() =~= goal[i as int]);
            }
            out.push(row);
            proof {
                assert(out.deep_view() =~= goal.take(i as int + 1));
            }
            i += 1;
        }
        proof {
            assert(out.deep_view() =~= goal);
            assert forall|i2: int, j2: int|
                0 <= i2 < out.deep_view().len() && 0 <= j2 < out.deep_view()[i2].len() implies rat_wf(
                #[trigger] out.deep_view()[i2][j2],
            ) by {
                assert(out.deep_view()[i2][j2] == sum_x_spec(pts, (i2 + j2) as nat)->0);
                assert(sums.deep_view()[i2 + j2] == sum_x_spec(pts, (i2 + j2) as nat)->0);
                assert(rat_wf(sums.deep_view()[i2 + j2]));
            }
        }
        Some(out)
    }

    /// The right-hand side of the normal equations, or `None` when one of
    /// its sums leaves `i128`.
    pub fn generate_right_matrix(&self) -> (r: Option<Vec<Rational>>)
        requires
            self.wf(),
            self.degree < usize::MAX,
        ensures
            r is Some <==> right_ok(self.data.deep_view(), self.degree as nat),
            r is Some ==> r->0.deep_view() == right_spec(
                self.data.deep_view(),
                self.degree as nat,
            ),
            r is Some ==> r->0@.len() == self.degree + 1 && vec_wf(r->0.deep_view()),
    {
        let ghost pts = self.data.deep_view();
        let ghost d = self.degree as nat;
        let ghost goal = right_spec(pts, d);
        let mut out: Vec<Rational> = Vec::new();
        let mut q: usize = 0;
        while q <= self.degree
            invariant
                q <= self.degree + 1,
                self.degree < usize::MAX,
                pts == self.data.deep_view(),
                pts_wf(pts),
                self.wf(),
                d == self.degree as nat,
                goal == right_spec(pts, d),
                out@.len() == q,
                forall|q2: nat| q2 < q ==> (#[trigger] sum_xy_spec(pts, q2)) is Some,
                out.deep_view() == goal.take(q as int),
                vec_wf(out.deep_view()),
            decreases self.degree + 1 - q,
        {
            let s = match self.sum_x_times_y(q) {
                Some(v) => v,
                None => {
                    return None;
                },
            };
            out.push(s);
            proof {
                assert(out.deep_view() =~= goal.take(q as int + 1));
            }
            q += 1;
        }
        proof {
            assert(out.deep_view() =~= goal);
        }
        Some(out)
    }

    /// Fit the least-squares polynomial of the requested degree to the
    /// samples: build the normal equations and solve them.  Returns the
    /// coefficient vector, constant term first, of length `degree + 1`; the
    /// matrices of the fit stay behind in `left_matrix` and `right_matrix`.
    pub fn get_terms(&mut self) -> (r: Result<Vec<Rational>, FitError>)
        requires
            old(self).wf(),
            2 * old(self).degree + 2 <= usize::MAX,
        ensures
            final(self).data == old(self).data,
            final(self).degree == old(self).degree,
            final(self).matrix == old(self).matrix,
            final(self).wf(),
            r is Ok <==> fit_spec(old(self).data.deep_view(), old(self).degree as nat) is Coeffs,
            r is Ok ==> fit_spec(old(self).data.deep_view(), old(self).degree as nat)
                == FitOut::Coeffs(r->Ok_0.deep_view()),
            r is Ok ==> r->Ok_0@.len() == old(self).degree + 1 && vec_wf(r->Ok_0.deep_view()),
            r == Result::<Vec<Rational>, FitError>::Err(FitError::EmptyInput) <==> fit_spec(
                old(self).data.deep_view(),
                old(self).degree as nat,
            ) is EmptyInput,
            r == Result::<Vec<Rational>, FitError>::Err(FitError::SingularSystem) <==> fit_spec(
                old(self).data.deep_view(),
                old(self).degree as nat,
            ) is Singular,
            r == Result::<Vec<Rational>, FitError>::Err(FitError::Overflow) <==> fit_spec(
                old(self).data.deep_view(),
                old(self).degree as nat,
            ) is Overflow,
            old(self).data.deep_view().len() > 0 && left_ok(
                old(self).data.deep_view(),
                old(self).degree as nat,
            ) && right_ok(old(self).data.deep_view(), old(self).degree as nat)
                ==> final(self).left_matrix.deep_view() == left_matrix_spec(
                old(self).data.deep_view(),
                old(self).degree as nat,
            ) && final(self).right_matrix.deep_view() == right_spec(
                old(self).data.deep_view(),
                old(self).degree as nat,
            ),
    {
        if self.data.len() == 0 {
            return Err(FitError::EmptyInput);
        }
        let left = match self.generate_left_matrix() {
            Some(m) => m,
            None => {
                return Err(FitError::Overflow);
            },
        };
        let right = match self.generate_right_matrix() {
            Some(v) => v,
            None => {
                return Err(FitError::Overflow);
            },
        };
        self.left_matrix = left;
        self.right_matrix = right;
        gaussian_jordan_elimination(&self.left_matrix, &self.right_matrix)
    }

    /// The fitted polynomial evaluated at `x`: `sum of terms[i] * x^i`, or
    /// `None` when a step of the evaluation leaves `i128`.
    pub fn predict_y(terms: &Vec<Rational>, x: Rational) -> (r: Option<Rational>)
        requires
            vec_wf(terms.deep_view()),
            x.wf(),
        ensures
            opt_rat(r) == oeval(terms.deep_view(), x@),
            r is Some ==> r->0.wf(),
    {
        let ghost c = terms.deep_view();
        let mut acc = Rational::from_int(0);
        let mut i: usize = 0;
        while i < terms.len()
            invariant
                i <= terms@.len(),
                c == terms.deep_view(),
                vec_wf(c),
                x.wf(),
                acc.wf(),
                Some(acc@) == oeval_pfx(c, x@, i as nat),
            decreases terms@.len() - i,
        {
            let xp = match pow_rat(x, i) {
                Some(v) => v,
                None => {
                    proof {
                        lemma_oeval_stuck(c, x@, (i + 1) as nat, c.len());
                    }
                    return None;
                },
            };
            let term = match terms[i].mul(xp) {
                Some(v) => v,
                None => {
                    proof {
                        lemma_oeval_stuck(c, x@, (i + 1) as nat, c.len());
                    }
                    return None;
                },
            };
            acc = match acc.add(term) {
                Some(v) => v,
                None => {
                    proof {
                        lemma_oeval_stuck(c, x@, (i + 1) as nat, c.len());
                    }
                    return None;
                },
            };
            i += 1;
        }
        Some(acc)
    }
}

} // verus!
