//! Exact rational numbers backed by `i128` pairs.
//!
//! A `Rational` keeps a numerator and a positive denominator and is never
//! reduced: every operation computes the textbook numerator and denominator
//! of the result.  Because the components live in `i128`, each operation is
//! checked and returns `None` exactly when one of those textbook products or
//! sums leaves the `i128` range.  The mathematical value of a `Rational` is
//! its view, a `Rat`: a pair of unbounded integers.

use vstd::prelude::*;

verus! {

/// The mathematical value of a rational: an unbounded numerator over an
/// unbounded denominator.  Well-formed values keep the denominator positive.
pub struct Rat {
    pub num: int,
    pub den: int,
}

/// A rational value is well formed when its denominator is positive.
pub open spec fn rat_wf(a: Rat) -> bool {
    a.den > 0
}

/// The rational with value `n`.
pub open spec fn rat_int(n: int) -> Rat {
    Rat { num: n, den: 1 }
}

/// Two rationals denote the same value when they cross-multiply equally.
pub open spec fn rat_eq(a: Rat, b: Rat) -> bool {
    a.num * b.den == b.num * a.den
}

/// Whether `n` fits in an `i128`.
pub open spec fn in_i128(n: int) -> bool {
    i128::MIN <= n <= i128::MAX
}

/// The textbook sum: numerators cross-multiplied over the product of the
/// denominators, with nothing reduced.
pub open spec fn rat_add_exact(a: Rat, b: Rat) -> Rat {
    Rat { num: a.num * b.den + b.num * a.den, den: a.den * b.den }
}

/// The textbook difference.
pub open spec fn rat_sub_exact(a: Rat, b: Rat) -> Rat {
    Rat { num: a.num * b.den - b.num * a.den, den: a.den * b.den }
}

/// The textbook product.
pub open spec fn rat_mul_exact(a: Rat, b: Rat) -> Rat {
    Rat { num: a.num * b.num, den: a.den * b.den }
}

/// The textbook quotient, with the sign moved into the numerator so that the
/// denominator stays positive.
pub open spec fn rat_div_exact(a: Rat, b: Rat) -> Rat {
    if b.num > 0 {
        Rat { num: a.num * b.den, den: a.den * b.num }
    } else {
        Rat { num: -(a.num * b.den), den: -(a.den * b.num) }
    }
}

/// Every intermediate value of the checked sum fits in `i128`.
pub open spec fn add_fits(a: Rat, b: Rat) -> bool {
    &&& in_i128(a.num * b.den)
    &&& in_i128(b.num * a.den)
    &&& in_i128(a.num * b.den + b.num * a.den)
    &&& in_i128(a.den * b.den)
}

/// Every intermediate value of the checked difference fits in `i128`.
pub open spec fn sub_fits(a: Rat, b: Rat) -> bool {
    &&& in_i128(a.num * b.den)
    &&& in_i128(b.num * a.den)
    &&& in_i128(a.num * b.den - b.num * a.den)
    &&& in_i128(a.den * b.den)
}

/// Every intermediate value of the checked product fits in `i128`.
pub open spec fn mul_fits(a: Rat, b: Rat) -> bool {
    &&& in_i128(a.num * b.num)
    &&& in_i128(a.den * b.den)
}

/// Every intermediate value of the checked quotient fits in `i128`.
pub open spec fn div_fits(a: Rat, b: Rat) -> bool {
    &&& in_i128(a.num * b.den)
    &&& in_i128(a.den * b.num)
    &&& in_i128(rat_div_exact(a, b).num)
    &&& in_i128(rat_div_exact(a, b).den)
}

/// Checked sum lifted to optional values: `None` marks an overflow that has
/// already happened or happens here.
pub open spec fn oadd(a: Option<Rat>, b: Option<Rat>) -> Option<Rat> {
    match (a, b) {
        (Some(x), Some(y)) => if add_fits(x, y) {
            Some(rat_add_exact(x, y))
        } else {
            None
        },
        _ => None,
    }
}

/// Checked difference lifted to optional values.
pub open spec fn osub(a: Option<Rat>, b: Option<Rat>) -> Option<Rat> {
    match (a, b) {
        (Some(x), Some(y)) => if sub_fits(x, y) {
            Some(rat_sub_exact(x, y))
        } else {
            None
        },
        _ => None,
    }
}

/// Checked product lifted to optional values.
pub open spec fn omul(a: Option<Rat>, b: Option<Rat>) -> Option<Rat> {
    match (a, b) {
        (Some(x), Some(y)) => if mul_fits(x, y) {
            Some(rat_mul_exact(x, y))
        } else {
            None
        },
        _ => None,
    }
}

/// Checked quotient lifted to optional values.  Division by a rational with
/// zero numerator yields `None`; the engine never relies on that case, it
/// tests the divisor first.
pub open spec fn odiv(a: Option<Rat>, b: Option<Rat>) -> Option<Rat> {
    match (a, b) {
        (Some(x), Some(y)) => if y.num != 0 && div_fits(x, y) {
            Some(rat_div_exact(x, y))
        } else {
            None
        },
        _ => None,
    }
}

/// An exact rational number: a numerator over a positive denominator, both
/// `i128`.  Values are never reduced, so equal mathematical values may have
/// different representations; `eq_value` compares by value.
#[derive(Clone, Copy, Debug, PartialEq, Eq, Structural)]
pub struct Rational {
    num: i128,
    den: i128,
}

impl View for Rational {
    type V = Rat;

    closed spec fn view(&self) -> Rat {
        Rat { num: self.num as int, den: self.den as int }
    }
}

impl DeepView for Rational {
    type V = Rat;

    open spec fn deep_view(&self) -> Rat {
        self.view()
    }
}

/// The views of a vector of optional rationals, used to state the contracts
/// of the checked operations.
pub open spec fn opt_rat(r: Option<Rational>) -> Option<Rat> {
    match r {
        Some(v) => Some(v@),
        None => None,
    }
}

impl Rational {
    /// Well-formedness of the stored representation.
    pub open spec fn wf(self) -> bool {
        rat_wf(self@)
    }

    /// The rational `n / 1`.
    pub fn from_int(n: i128) -> (r: Rational)
        ensures
            r@ == rat_int(n as int),
            r.wf(),
    {
        Rational { num: n, den: 1 }
    }

    /// The rational `num / den` for a positive denominator.
    pub fn new(num: i128, den: i128) -> (r: Rational)
        requires
            den > 0,
        ensures
            r@ == (Rat { num: num as int, den: den as int }),
            r.wf(),
    {
        Rational { num, den }
    }

    /// The stored numerator.
    pub fn numerator(&self) -> (n: i128)
        ensures
            n as int == self@.num,
    {
        self.num
    }

    /// The stored denominator.
    pub fn denominator(&self) -> (d: i128)
        ensures
            d as int == self@.den,
    {
        self.den
    }

    /// Whether the value is zero.
    pub fn is_zero(&self) -> (b: bool)
        ensures
            b <==> self@.num == 0,
    {
        self.num == 0
    }

    /// Checked addition.
    pub fn add(self, other: Rational) -> (r: Option<Rational>)
        requires
            self.wf(),
            other.wf(),
        ensures
            opt_rat(r) == oadd(Some(self@), Some(other@)),
            r is Some ==> r->0.wf(),
    {
        let p1 = match self.num.checked_mul(other.den) {
            Some(v) => v,
            None => {
                return None;
            },
        };
        let p2 = match other.num.checked_mul(self.den) {
            Some(v) => v,
            None => {
                return None;
            },
        };
        let n = match p1.checked_add(p2) {
            Some(v) => v,
            None => {
                return None;
            },
        };
        let d = match self.den.checked_mul(other.den) {
            Some(v) => v,
            None => {
                return None;
            },
        };
        proof {
            lemma_pos_mul_pos(self@.den, other@.den);
        }
        Some(Rational { num: n, den: d })
    }

    /// Checked subtraction.
    pub fn sub(self, other: Rational) -> (r: Option<Rational>)
        requires
            self.wf(),
            other.wf(),
        ensures
            opt_rat(r) == osub(Some(self@), Some(other@)),
            r is Some ==> r->0.wf(),
    {
        let p1 = match self.num.checked_mul(other.den) {
            Some(v) => v,
            None => {
                return None;
            },
        };
        let p2 = match other.num.checked_mul(self.den) {
            Some(v) => v,
            None => {
                return None;
            },
        };
        let n = match p1.checked_sub(p2) {
            Some(v) => v,
            None => {
                return None;
            },
        };
        let d = match self.den.checked_mul(other.den) {
            Some(v) => v,
            None => {
                return None;
            },
        };
        proof {
            lemma_pos_mul_pos(self@.den, other@.den);
        }
        Some(Rational { num: n, den: d })
    }

    /// Checked multiplication.
    pub fn mul(self, other: Rational) -> (r: Option<Rational>)
        requires
            self.wf(),
            other.wf(),
        ensures
            opt_rat(r) == omul(Some(self@), Some(other@)),
            r is Some ==> r->0.wf(),
    {
        let n = match self.num.checked_mul(other.num) {
            Some(v) => v,
            None => {
                return None;
            },
        };
        let d = match self.den.checked_mul(other.den) {
            Some(v) => v,
            None => {
                return None;
            },
        };
        proof {
            lemma_pos_mul_pos(self@.den, other@.den);
        }
        Some(Rational { num: n, den: d })
    }

    /// Checked division by a nonzero rational.
    pub fn div(self, other: Rational) -> (r: Option<Rational>)
        requires
            self.wf(),
            other.wf(),
            other@.num != 0,
        ensures
            opt_rat(r) == odiv(Some(self@), Some(other@)),
            r is Some ==> r->0.wf(),
    {
        let n = match self.num.checked_mul(other.den) {
            Some(v) => v,
            None => {
                return None;
            },
        };
        let d = match self.den.checked_mul(other.num) {
            Some(v) => v,
            None => {
                return None;
            },
        };
        proof {
            lemma_mul_sign(self@.den, other@.num);
        }
        if d < 0 {
            if n == i128::MIN {
                return None;
            }
            if d == i128::MIN {
                return None;
            }
            Some(Rational { num: -n, den: -d })
        } else {
            Some(Rational { num: n, den: d })
        }
    }

    /// Whether two rationals denote the same value; `None` when the
    /// cross-products needed for the comparison leave `i128`.
    pub fn eq_value(&self, other: &Rational) -> (r: Option<bool>)
        ensures
            r is Some <==> in_i128(self@.num * other@.den) && in_i128(other@.num * self@.den),
            r is Some ==> (r->0 <==> rat_eq(self@, other@)),
    {
        let p1 = match self.num.checked_mul(other.den) {
            Some(v) => v,
            None => {
                return None;
            },
        };
        let p2 = match other.num.checked_mul(self.den) {
            Some(v) => v,
            None => {
                return None;
            },
        };
        Some(p1 == p2)
    }
}

/// Equal views come from equal representations: a `Rational` is exactly its
/// numerator and denominator.
pub proof fn lemma_view_injective(a: Rational, b: Rational)
    requires
        a@ == b@,
    ensures
        a == b,
{
}

/// A checked sum of well-formed rationals is well formed.
pub proof fn lemma_oadd_wf(a: Option<Rat>, b: Option<Rat>)
    requires
        a is Some ==> rat_wf(a->0),
        b is Some ==> rat_wf(b->0),
    ensures
        oadd(a, b) is Some ==> rat_wf(oadd(a, b)->0),
{
    if a is Some && b is Some && add_fits(a->0, b->0) {
        lemma_pos_mul_pos(a->0.den, b->0.den);
    }
}

/// A checked difference of well-formed rationals is well formed.
pub proof fn lemma_osub_wf(a: Option<Rat>, b: Option<Rat>)
    requires
        a is Some ==> rat_wf(a->0),
        b is Some ==> rat_wf(b->0),
    ensures
        osub(a, b) is Some ==> rat_wf(osub(a, b)->0),
{
    if a is Some && b is Some && sub_fits(a->0, b->0) {
        lemma_pos_mul_pos(a->0.den, b->0.den);
    }
}

/// A checked product of well-formed rationals is well formed.
pub proof fn lemma_omul_wf(a: Option<Rat>, b: Option<Rat>)
    requires
        a is Some ==> rat_wf(a->0),
        b is Some ==> rat_wf(b->0),
    ensures
        omul(a, b) is Some ==> rat_wf(omul(a, b)->0),
{
    if a is Some && b is Some && mul_fits(a->0, b->0) {
        lemma_pos_mul_pos(a->0.den, b->0.den);
    }
}

/// A checked quotient of well-formed rationals is well formed.
pub proof fn lemma_odiv_wf(a: Option<Rat>, b: Option<Rat>)
    requires
        a is Some ==> rat_wf(a->0),
        b is Some ==> rat_wf(b->0),
    ensures
        odiv(a, b) is Some ==> rat_wf(odiv(a, b)->0),
{
    if a is Some && b is Some && b->0.num != 0 && div_fits(a->0, b->0) {
        lemma_mul_sign(a->0.den, b->0.num);
    }
}

/// Value equality of rationals is transitive when the middle denominator is
/// nonzero.
pub proof fn lemma_rat_eq_trans(a: Rat, b: Rat, c: Rat)
    requires
        rat_eq(a, b),
        rat_eq(b, c),
        b.den != 0,
    ensures
        rat_eq(a, c),
{
    assert(a.num * c.den == c.num * a.den) by (nonlinear_arith)
        requires
            a.num * b.den == b.num * a.den,
            b.num * c.den == c.num * b.den,
            b.den != 0,
    ;
}

/// Adding the same rational to both sides keeps value equality.
pub proof fn lemma_rat_eq_add_congruent(a: Rat, b: Rat, s: Rat)
    requires
        rat_eq(a, b),
        s.den != 0,
    ensures
        rat_eq(rat_add_exact(a, s), rat_add_exact(b, s)),
{
    assert((a.num * s.den + s.num * a.den) * (b.den * s.den) == (b.num * s.den + s.num * b.den) * (
    a.den * s.den)) by (nonlinear_arith)
        requires
            a.num * b.den == b.num * a.den,
    ;
}

/// The regrouping of products behind `lemma_rat_sub_add_cancel`, stated over
/// bare integers.
pub proof fn lemma_ring_regroup(a: int, b: int, c: int, d: int, e: int, f: int)
    ensures
        (a * f - e * b) * (d * f) + (c * f + e * d) * (b * f) == f * f * (a * d + c * b),
{
    assert((a * f - e * b) * (d * f) == a * f * d * f - e * b * d * f) by (nonlinear_arith);
    assert((c * f + e * d) * (b * f) == c * f * b * f + e * d * b * f) by (nonlinear_arith);
    assert(e * b * d * f == e * d * b * f) by (nonlinear_arith);
    assert(a * f * d * f == f * f * (a * d)) by (nonlinear_arith);
    assert(c * f * b * f == f * f * (c * b)) by (nonlinear_arith);
    assert(f * f * (a * d) + f * f * (c * b) == f * f * (a * d + c * b)) by (nonlinear_arith);
}

/// Subtracting a rational and adding it back on the other summand leaves the
/// value of the sum unchanged: `(x - m) + (s + m)` equals `x + s`.
#[verifier::rlimit(100)]
pub proof fn lemma_rat_sub_add_cancel(x: Rat, s: Rat, m: Rat)
    ensures
        rat_eq(rat_add_exact(rat_sub_exact(x, m), rat_add_exact(s, m)), rat_add_exact(x, s)),
{
    let lhs = rat_add_exact(rat_sub_exact(x, m), rat_add_exact(s, m));
    let rhs = rat_add_exact(x, s);
    lemma_ring_regroup(x.num, x.den, s.num, s.den, m.num, m.den);
    assert(lhs.num == m.den * m.den * (x.num * s.den + s.num * x.den));
    assert(lhs.den == m.den * m.den * (x.den * s.den)) by (nonlinear_arith)
        requires
            lhs.den == (x.den * m.den) * (s.den * m.den),
    ;
    assert((m.den * m.den * (x.num * s.den + s.num * x.den)) * (x.den * s.den) == (x.num * s.den
        + s.num * x.den) * (m.den * m.den * (x.den * s.den))) by (nonlinear_arith);
}

/// Subtracting from a rational the product of its own quotient by `y` with
/// `y` itself leaves exactly zero: the numerator of `x - (x/y)*y` vanishes.
pub proof fn lemma_rat_sub_div_mul_zero(x: Rat, y: Rat)
    requires
        y.num != 0,
    ensures
        rat_sub_exact(x, rat_mul_exact(rat_div_exact(x, y), y)).num == 0,
{
    if y.num > 0 {
        assert(x.num * ((x.den * y.num) * y.den) == ((x.num * y.den) * y.num) * x.den)
            by (nonlinear_arith);
    } else {
        assert(x.num * (-(x.den * y.num) * y.den) == (-(x.num * y.den) * y.num) * x.den)
            by (nonlinear_arith);
    }
}

/// Adding zero does not change a rational's value.
pub proof fn lemma_rat_add_zero(r: Rat)
    ensures
        rat_eq(rat_add_exact(r, rat_int(0)), r),
{
    assert((r.num * 1 + 0 * r.den) * r.den == r.num * (r.den * 1)) by (nonlinear_arith);
}

/// Multiplying a quotient back by its divisor returns the dividend, in
/// value.
pub proof fn lemma_rat_div_mul_cancel(x: Rat, y: Rat)
    requires
        y.num != 0,
    ensures
        rat_eq(rat_mul_exact(y, rat_div_exact(x, y)), x),
{
    let v = rat_div_exact(x, y);
    if y.num > 0 {
        assert((y.num * (x.num * y.den)) * x.den == x.num * (y.den * (x.den * y.num)))
            by (nonlinear_arith);
    } else {
        assert((y.num * -(x.num * y.den)) * x.den == x.num * (y.den * -(x.den * y.num)))
            by (nonlinear_arith);
    }
}

/// The element-wise view of a vector has the vector's length.
pub broadcast proof fn lemma_deep_view_len<T: DeepView>(v: Vec<T>)
    ensures
        (#[trigger] v.deep_view()).len() == v@.len(),
{
}

/// An entry of the element-wise view of a vector is the view of that entry.
pub broadcast proof fn lemma_deep_view_index<T: DeepView>(v: Vec<T>, i: int)
    requires
        0 <= i < v@.len(),
    ensures
        #[trigger] v.deep_view()[i] == v@[i].deep_view(),
{
}

/// The product of two positive integers is positive.
pub proof fn lemma_pos_mul_pos(a: int, b: int)
    requires
        a > 0,
        b > 0,
    ensures
        a * b > 0,
{
    assert(a * b > 0) by (nonlinear_arith)
        requires
            a > 0,
            b > 0,
    ;
}

/// The sign of a product of a positive integer with a nonzero integer
/// follows the sign of the nonzero factor.
pub proof fn lemma_mul_sign(a: int, b: int)
    requires
        a > 0,
        b != 0,
    ensures
        b > 0 ==> a * b > 0,
        b < 0 ==> a * b < 0,
{
    assert(b > 0 ==> a * b > 0) by (nonlinear_arith)
        requires
            a > 0,
    ;
    assert(b < 0 ==> a * b < 0) by (nonlinear_arith)
        requires
            a > 0,
    ;
}

} // verus!
