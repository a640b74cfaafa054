//! Gaussian elimination on the augmented normal-equation system.
//!
//! The solver takes a square coefficient matrix `M` and a right-hand side
//! `b`, augments them into one matrix, zeroes the entries below the diagonal
//! by forward elimination (no pivoting: rows are never reordered), and
//! recovers the solution of `M·c = b` by back substitution.  A zero pivot is
//! reported as a singular system; an arithmetic step whose exact value
//! leaves `i128` is reported as an overflow.

use vstd::prelude::*;

use crate::rational::{
    lemma_deep_view_index, lemma_deep_view_len, odiv, omul, osub, rat_int, rat_wf, Rat,
    Rational,
};

verus! {

broadcast use lemma_deep_view_len, lemma_deep_view_index;

/// A matrix: an ordered sequence of rows of rationals.
pub type Matrix = Vec<Vec<Rational>>;

/// How a fit can fail: no samples at all, a zero pivot during elimination or
/// back substitution, or an intermediate value that left the `i128` range.
#[derive(Clone, Copy, Debug, PartialEq, Eq, Structural)]
pub enum FitError {
    EmptyInput,
    SingularSystem,
    Overflow,
}

/// Every entry of every row is well formed.
pub open spec fn mat_wf(m: Seq<Seq<Rat>>) -> bool {
    forall|i: int, j: int| 0 <= i < m.len() && 0 <= j < m[i].len() ==> rat_wf(#[trigger] m[i][j])
}

/// Every entry is well formed.
pub open spec fn vec_wf(v: Seq<Rat>) -> bool {
    forall|i: int| 0 <= i < v.len() ==> rat_wf(#[trigger] v[i])
}

/// The matrix has exactly `rows` rows of `cols` entries each.
pub open spec fn is_rect(m: Seq<Seq<Rat>>, rows: int, cols: int) -> bool {
    &&& m.len() == rows
    &&& forall|i: int| 0 <= i < rows ==> (#[trigger] m[i]).len() == cols
}

/// The augmented matrix: each row of `left` with the matching entry of
/// `right` appended as its last column.
pub open spec fn augmented(left: Seq<Seq<Rat>>, right: Seq<Rat>) -> Seq<Seq<Rat>> {
    Seq::new(right.len(), |i: int| left[i].push(right[i]))
}

/// What forward elimination produces: the reduced matrix, or the failure met
/// on the way.
pub enum ElimOut {
    Overflow,
    Singular,
    Done(Seq<Seq<Rat>>),
}

/// Entry `i` of a row after one elimination step: the old entry minus
/// `factor` times the pivot-row entry.
pub open spec fn red_entry(prow: Seq<Rat>, row: Seq<Rat>, factor: Rat, i: int) -> Option<Rat> {
    osub(Some(row[i]), omul(Some(factor), Some(prow[i])))
}

/// The elimination factor for row `z` under pivot `p`.
pub open spec fn pass_factor(m: Seq<Seq<Rat>>, p: int, z: int) -> Option<Rat> {
    odiv(Some(m[z][p]), Some(m[p][p]))
}

/// Whether row `z` of pass `p` can be reduced without overflow.
pub open spec fn pass_row_ok(m: Seq<Seq<Rat>>, p: int, z: int, cols: int) -> bool {
    &&& pass_factor(m, p, z) is Some
    &&& forall|i: int|
        0 <= i < cols ==> (#[trigger] red_entry(m[p], m[z], pass_factor(m, p, z)->0, i)) is Some
}

/// Row `z` after pass `p`.
pub open spec fn pass_row(m: Seq<Seq<Rat>>, p: int, z: int, cols: int) -> Seq<Rat> {
    Seq::new(cols as nat, |i: int| red_entry(m[p], m[z], pass_factor(m, p, z)->0, i)->0)
}

/// The matrix in the middle of pass `p`: rows strictly between `p` and `z`
/// already reduced, every other row as it was.
pub open spec fn pass_state(m: Seq<Seq<Rat>>, p: int, z: int, cols: int) -> Seq<Seq<Rat>> {
    Seq::new(
        m.len(),
        |w: int|
            if p < w < z {
                pass_row(m, p, w, cols)
            } else {
                m[w]
            },
    )
}

/// One elimination pass: using pivot `p`, reduce every row below it.  A zero
/// pivot makes the system singular; an unrepresentable factor or entry is an
/// overflow.
pub open spec fn elim_pass(m: Seq<Seq<Rat>>, p: int, rows: int, cols: int) -> ElimOut {
    if m[p][p].num == 0 {
        ElimOut::Singular
    } else if forall|z: int| p < z < rows ==> pass_row_ok(m, p, z, cols) {
        ElimOut::Done(
            Seq::new(
                rows as nat,
                |z: int|
                    if z <= p {
                        m[z]
                    } else {
                        pass_row(m, p, z, cols)
                    },
            ),
        )
    } else {
        ElimOut::Overflow
    }
}

/// The first `k` elimination passes, applied in order.
pub open spec fn elim_upto(m: Seq<Seq<Rat>>, rows: int, cols: int, k: nat) -> ElimOut
    decreases k,
{
    if k == 0 {
        ElimOut::Done(m)
    } else {
        match elim_upto(m, rows, cols, (k - 1) as nat) {
            ElimOut::Done(m1) => elim_pass(m1, k - 1, rows, cols),
            o => o,
        }
    }
}

/// Forward elimination of a `rows x cols` matrix: passes `0 .. rows - 1`.
pub open spec fn forward_spec(m: Seq<Seq<Rat>>, rows: int, cols: int) -> ElimOut {
    elim_upto(m, rows, cols, (rows - 1) as nat)
}

/// Once a pass has failed, every longer prefix of passes reports the same
/// failure.
pub proof fn lemma_elim_upto_stuck(m: Seq<Seq<Rat>>, rows: int, cols: int, k: nat, t: nat)
    requires
        k <= t,
        !(elim_upto(m, rows, cols, k) is Done),
    ensures
        elim_upto(m, rows, cols, t) == elim_upto(m, rows, cols, k),
    decreases t,
{
    if t > k {
        lemma_elim_upto_stuck(m, rows, cols, k, (t - 1) as nat);
    }
}

/// What back substitution produces: the coefficient vector, or the failure
/// met on the way.
pub enum SubstOut {
    Overflow,
    Singular,
    Done(Seq<Rat>),
}

/// The right-hand side of row `k` after the first `t` of its known
/// coefficients have been substituted: `a[k][rows] - sum of a[k][k+s] *
/// c[k+s]` for `s = 1 .. t`.
pub open spec fn brhs(a: Seq<Seq<Rat>>, c: Seq<Rat>, k: int, rows: int, t: nat) -> Option<Rat>
    decreases t,
{
    if t == 0 {
        Some(a[k][rows])
    } else {
        osub(brhs(a, c, k, rows, (t - 1) as nat), omul(Some(a[k][k + t]), Some(c[k + t])))
    }
}

/// Once the partial right-hand side has overflowed, so has every longer one.
pub proof fn lemma_brhs_stuck(a: Seq<Seq<Rat>>, c: Seq<Rat>, k: int, rows: int, s: nat, t: nat)
    requires
        s <= t,
        brhs(a, c, k, rows, s) is None,
    ensures
        brhs(a, c, k, rows, t) is None,
    decreases t,
{
    if t > s {
        lemma_brhs_stuck(a, c, k, rows, s, (t - 1) as nat);
    }
}

/// The all-zero coefficient vector back substitution starts from.
pub open spec fn zero_coeffs(rows: int) -> Seq<Rat> {
    Seq::new(rows as nat, |i: int| rat_int(0))
}

/// Solve row `k` given the coefficients already known above `k`: divide the
/// substituted right-hand side by the diagonal entry.
pub open spec fn bsub_step(a: Seq<Seq<Rat>>, c: Seq<Rat>, k: int, rows: int) -> SubstOut {
    if a[k][k].num == 0 {
        SubstOut::Singular
    } else {
        match odiv(brhs(a, c, k, rows, (rows - 1 - k) as nat), Some(a[k][k])) {
            Some(v) => SubstOut::Done(c.update(k, v)),
            None => SubstOut::Overflow,
        }
    }
}

/// The last `t` rows solved, bottom row first.
pub open spec fn bsub_upto(a: Seq<Seq<Rat>>, rows: int, t: nat) -> SubstOut
    decreases t,
{
    if t == 0 {
        SubstOut::Done(zero_coeffs(rows))
    } else {
        match bsub_upto(a, rows, (t - 1) as nat) {
            SubstOut::Done(c) => bsub_step(a, c, rows - t, rows),
            o => o,
        }
    }
}

/// Back substitution over the whole reduced augmented matrix.
pub open spec fn backward_spec(a: Seq<Seq<Rat>>, rows: int) -> SubstOut {
    bsub_upto(a, rows, rows as nat)
}

/// Once a row has failed, solving further rows reports the same failure.
pub proof fn lemma_bsub_upto_stuck(a: Seq<Seq<Rat>>, rows: int, k: nat, t: nat)
    requires
        k <= t,
        !(bsub_upto(a, rows, k) is Done),
    ensures
        bsub_upto(a, rows, t) == bsub_upto(a, rows, k),
    decreases t,
{
    if t > k {
        lemma_bsub_upto_stuck(a, rows, k, (t - 1) as nat);
    }
}

/// The whole solve: augment, eliminate forward, substitute backward.
pub open spec fn solve_spec(left: Seq<Seq<Rat>>, right: Seq<Rat>) -> SubstOut {
    match forward_spec(augmented(left, right), right.len() as int, right.len() as int + 1) {
        ElimOut::Done(m2) => backward_spec(m2, right.len() as int),
        ElimOut::Singular => SubstOut::Singular,
        ElimOut::Overflow => SubstOut::Overflow,
    }
}

/// Append the right-hand side to a square matrix as one extra column.
pub fn combine_matrices(left: &Matrix, right: &Vec<Rational>) -> (r: Matrix)
    requires
        right@.len() >= 1,
        is_rect(left.deep_view(), right@.len() as int, right@.len() as int),
        mat_wf(left.deep_view()),
        vec_wf(right.deep_view()),
    ensures
        r.deep_view() == augmented(left.deep_view(), right.deep_view()),
        is_rect(r.deep_view(), right@.len() as int, right@.len() as int + 1),
        mat_wf(r.deep_view()),
{
    let ghost goal = augmented(left.deep_view(), right.deep_view());
    let rows = right.len();
    let cols = rows;
    let mut out: Matrix = Vec::new();
    let mut i: usize = 0;
    while i < rows
        invariant
            i <= rows,
            rows == right@.len(),
            cols == rows,
            is_rect(left.deep_view(), rows as int, cols as int),
            mat_wf(left.deep_view()),
            vec_wf(right.deep_view()),
            goal == augmented(left.deep_view(), right.deep_view()),
            out.deep_view() == goal.take(i as int),
        decreases rows - i,
    {
        let mut row: Vec<Rational> = Vec::new();
        let mut j: usize = 0;
        while j < cols
            invariant
                j <= cols,
                i < rows,
                rows == right@.len(),
                cols == rows,
                is_rect(left.deep_view(), rows as int, cols as int),
                mat_wf(left.deep_view()),
                row.deep_view() == left.deep_view()[i as int].take(j as int),
            decreases cols - j,
        {
            row.push(left[i][j]);
            proof {
                assert(row.deep_view() =~= left.deep_view()[i as int].take(j as int + 1));
            }
            j += 1;
        }
        row.push(right[i]);
        proof {
            assert(goal.len() == rows);
            assert(goal[i as int] == left.deep_view()[i as int].push(right.deep_view()[i as int]));
            assert(row.deep_view().len() == cols + 1);
            assert(goal[i as int].len() == cols + 1);
            assert forall|k: int| 0 <= k < cols + 1 implies row.deep_view()[k] == goal[
                i as int
            ][k] by {
                if k < cols {
                    assert(row.deep_view()[k] == left.deep_view()[i as int].take(cols as int)[k]);
                } else {
                    assert(row.deep_view()[k] == right.deep_view()[i as int]);
                }
            }
            assert(row.deep_view() =~= goal[i as int]);
        }
        out.push(row);
        proof {
            assert(out.deep_view() =~= goal.take(i as int + 1));
        }
        i += 1;
    }
    proof {
        assert(out.deep_view() =~= goal);
    }
    out
}

/// Forward elimination: for each pivot `p` in order, subtract from every row
/// below it the pivot row scaled by `row[p] / pivot`, so that the entries
/// below the diagonal become zero.  Rows are never reordered; a zero pivot
/// stops the elimination with `SingularSystem`.
pub fn forward_elimination(any_matrix: &Matrix) -> (r: Result<Matrix, FitError>)
    requires
        any_matrix@.len() >= 1,
        any_matrix.deep_view()[0].len() >= any_matrix@.len(),
        is_rect(
            any_matrix.deep_view(),
            any_matrix@.len() as int,
            any_matrix.deep_view()[0].len() as int,
        ),
        mat_wf(any_matrix.deep_view()),
    ensures
        r is Ok <==> forward_spec(
            any_matrix.deep_view(),
            any_matrix@.len() as int,
            any_matrix.deep_view()[0].len() as int,
        ) is Done,
        r is Ok ==> forward_spec(
            any_matrix.deep_view(),
            any_matrix@.len() as int,
            any_matrix.deep_view()[0].len() as int,
        ) == ElimOut::Done(r->Ok_0.deep_view()),
        r is Ok ==> is_rect(
            r->Ok_0.deep_view(),
            any_matrix@.len() as int,
            any_matrix.deep_view()[0].len() as int,
        ) && mat_wf(r->Ok_0.deep_view()),
        r == Result::<Matrix, FitError>::Err(FitError::SingularSystem) <==> forward_spec(
            any_matrix.deep_view(),
            any_matrix@.len() as int,
            any_matrix.deep_view()[0].len() as int,
        ) is Singular,
        r == Result::<Matrix, FitError>::Err(FitError::Overflow) <==> forward_spec(
            any_matrix.deep_view(),
            any_matrix@.len() as int,
            any_matrix.deep_view()[0].len() as int,
        ) is Overflow,
{
    let ghost dv0 = any_matrix.deep_view();
    let rows = any_matrix.len();
    let cols = any_matrix[0].len();
    let mut matrix: Matrix = Vec::new();
    let mut i: usize = 0;
    while i < rows
        invariant
            i <= rows,
            rows == dv0.len(),
            cols == dv0[0].len(),
            is_rect(dv0, rows as int, cols as int),
            dv0 == any_matrix.deep_view(),
            any_matrix@.len() == rows,
            matrix.deep_view() == dv0.take(i as int),
        decreases rows - i,
    {
        let mut row: Vec<Rational> = Vec::new();
        let mut j: usize = 0;
        while j < cols
            invariant
                j <= cols,
                i < rows,
                rows == dv0.len(),
                cols == dv0[0].len(),
                is_rect(dv0, rows as int, cols as int),
                dv0 == any_matrix.deep_view(),
                any_matrix@.len() == rows,
                row.deep_view() == dv0[i as int].take(j as int),
            decreases cols - j,
        {
            row.push(any_matrix[i][j]);
            proof {
                assert(row.deep_view() =~= dv0[i as int].take(j as int + 1));
            }
            j += 1;
        }
        proof {
            assert(row.deep_view() =~= dv0[i as int]);
        }
        matrix.push(row);
        proof {
            assert(matrix.deep_view() =~= dv0.take(i as int + 1));
        }
        i += 1;
    }
    proof {
        assert(matrix.deep_view() =~= dv0);
    }
    let mut p: usize = 0;
    while p + 1 < rows
        invariant
            p < rows,
            rows == dv0.len(),
            cols == dv0[0].len(),
            cols >= rows,
            rows >= 1,
            dv0 == any_matrix.deep_view(),
            any_matrix@.len() == rows,
            is_rect(dv0, rows as int, cols as int),
            is_rect(matrix.deep_view(), rows as int, cols as int),
            mat_wf(matrix.deep_view()),
            matrix@.len() == rows,
            elim_upto(dv0, rows as int, cols as int, p as nat) == ElimOut::Done(
                matrix.deep_view(),
            ),
        decreases rows - p,
    {
        let ghost snap = matrix.deep_view();
        let pivot = matrix[p][p];
        proof {
            assert(pivot@ == snap[p as int][p as int]);
        }
        if pivot.is_zero() {
            proof {
                assert(elim_upto(dv0, rows as int, cols as int, (p + 1) as nat)
                    == ElimOut::Singular);
                lemma_elim_upto_stuck(
                    dv0,
                    rows as int,
                    cols as int,
                    (p + 1) as nat,
                    (rows - 1) as nat,
                );
            }
            return Err(FitError::SingularSystem);
        }
        let mut z: usize = p + 1;
        proof {
            assert(matrix.deep_view() =~= pass_state(snap, p as int, p as int + 1, cols as int));
        }
        while z < rows
            invariant
                p < z <= rows,
                p + 1 < rows,
                rows == dv0.len(),
                cols == dv0[0].len(),
                cols >= rows,
                dv0 == any_matrix.deep_view(),
                any_matrix@.len() == rows,
                is_rect(snap, rows as int, cols as int),
                mat_wf(snap),
                is_rect(matrix.deep_view(), rows as int, cols as int),
                mat_wf(matrix.deep_view()),
                matrix@.len() == rows,
                snap[p as int][p as int].num != 0,
                pivot@ == snap[p as int][p as int],
                pivot.wf(),
                elim_upto(dv0, rows as int, cols as int, p as nat) == ElimOut::Done(snap),
                matrix.deep_view() == pass_state(snap, p as int, z as int, cols as int),
                forall|w: int| p < w < z ==> #[trigger] pass_row_ok(snap, p as int, w, cols as int),
            decreases rows - z,
        {
            proof {
                assert(matrix.deep_view()[z as int] == snap[z as int]);
                assert(matrix.deep_view()[p as int] == snap[p as int]);
            }
            let factor = match matrix[z][p].div(pivot) {
                Some(f) => f,
                None => {
                    proof {
                        assert(pass_factor(snap, p as int, z as int) is None);
                        assert(!pass_row_ok(snap, p as int, z as int, cols as int));
                        assert(elim_pass(snap, p as int, rows as int, cols as int)
                            == ElimOut::Overflow);
                        assert(elim_upto(dv0, rows as int, cols as int, (p + 1) as nat)
                            == ElimOut::Overflow);
                        lemma_elim_upto_stuck(
                            dv0,
                            rows as int,
                            cols as int,
                            (p + 1) as nat,
                            (rows - 1) as nat,
                        );
                    }
                    return Err(FitError::Overflow);
                },
            };
            proof {
                assert(pass_factor(snap, p as int, z as int) == Some(factor@));
            }
            let mut row: Vec<Rational> = Vec::new();
            let mut c2: usize = 0;
            while c2 < cols
                invariant
                    c2 <= cols,
                    p < z < rows,
                    rows == dv0.len(),
                    cols == dv0[0].len(),
                    cols >= rows,
                    dv0 == any_matrix.deep_view(),
                    any_matrix@.len() == rows,
                    is_rect(snap, rows as int, cols as int),
                    mat_wf(snap),
                    is_rect(matrix.deep_view(), rows as int, cols as int),
                    mat_wf(matrix.deep_view()),
                    matrix@.len() == rows,
                    snap[p as int][p as int].num != 0,
                    elim_upto(dv0, rows as int, cols as int, p as nat) == ElimOut::Done(snap),
                    matrix.deep_view() == pass_state(snap, p as int, z as int, cols as int),
                    matrix.deep_view()[p as int] == snap[p as int],
                    matrix.deep_view()[z as int] == snap[z as int],
                    forall|w: int|
                        p < w < z ==> #[trigger] pass_row_ok(snap, p as int, w, cols as int),
                    pass_factor(snap, p as int, z as int) == Some(factor@),
                    factor.wf(),
                    row.deep_view().len() == c2,
                    vec_wf(row.deep_view()),
                    forall|k: int|
                        0 <= k < c2 ==> (#[trigger] red_entry(
                            snap[p as int],
                            snap[z as int],
                            factor@,
                            k,
                        )) is Some && row.deep_view()[k] == red_entry(
                            snap[p as int],
                            snap[z as int],
                            factor@,
                            k,
                        )->0,
                decreases cols - c2,
            {
                let scaled = match factor.mul(matrix[p][c2]) {
                    Some(v) => v,
                    None => {
                        proof {
                            assert(red_entry(snap[p as int], snap[z as int], factor@, c2 as int)
                                is None);
                            assert(!pass_row_ok(snap, p as int, z as int, cols as int));
                            assert(elim_pass(snap, p as int, rows as int, cols as int)
                                == ElimOut::Overflow);
                            assert(elim_upto(dv0, rows as int, cols as int, (p + 1) as nat)
                                == ElimOut::Overflow);
                            lemma_elim_upto_stuck(
                                dv0,
                                rows as int,
                                cols as int,
                                (p + 1) as nat,
                                (rows - 1) as nat,
                            );
                        }
                        return Err(FitError::Overflow);
                    },
                };
                let entry = match matrix[z][c2].sub(scaled) {
                    Some(v) => v,
                    None => {
                        proof {
                            assert(red_entry(snap[p as int], snap[z as int], factor@, c2 as int)
                                is None);
                            assert(!pass_row_ok(snap, p as int, z as int, cols as int));
                            assert(elim_pass(snap, p as int, rows as int, cols as int)
                                == ElimOut::Overflow);
                            assert(elim_upto(dv0, rows as int, cols as int, (p + 1) as nat)
                                == ElimOut::Overflow);
                            lemma_elim_upto_stuck(
                                dv0,
                                rows as int,
                                cols as int,
                                (p + 1) as nat,
                                (rows - 1) as nat,
                            );
                        }
                        return Err(FitError::Overflow);
                    },
                };
                let ghost rprev = row.deep_view();
                row.push(entry);
                proof {
                    assert(row.deep_view() =~= rprev.push(entry@));
                }
                c2 += 1;
            }
            proof {
                assert(pass_row_ok(snap, p as int, z as int, cols as int));
                assert(row.deep_view() =~= pass_row(snap, p as int, z as int, cols as int));
            }
            let ghost mprev = matrix.deep_view();
            let ghost rowv = row.deep_view();
            matrix[z] = row;
            proof {
                assert(matrix.deep_view() =~= mprev.update(z as int, rowv));
                assert(matrix.deep_view() =~= pass_state(
                    snap,
                    p as int,
                    z as int + 1,
                    cols as int,
                ));
            }
            z += 1;
        }
        proof {
            let done = Seq::new(
                rows as nat,
                |w: int|
                    if w <= p {
                        snap[w]
                    } else {
                        pass_row(snap, p as int, w, cols as int)
                    },
            );
            assert(matrix.deep_view() =~= done);
            assert(elim_pass(snap, p as int, rows as int, cols as int) == ElimOut::Done(done));
        }

        p += 1;
    }
    proof {
        assert(p as int == rows - 1);
    }
    Ok(matrix)
}

/// Back substitution on the reduced augmented matrix: rows are processed
/// from the bottom up; each still-unknown coefficient is the row's
/// right-hand side, less the already-known terms, divided by the diagonal
/// entry.
pub fn backward_substitution(any_matrix: &Matrix) -> (r: Result<Vec<Rational>, FitError>)
    requires
        any_matrix@.len() >= 1,
        is_rect(any_matrix.deep_view(), any_matrix@.len() as int, any_matrix@.len() as int + 1),
        mat_wf(any_matrix.deep_view()),
    ensures
        r is Ok <==> backward_spec(any_matrix.deep_view(), any_matrix@.len() as int) is Done,
        r is Ok ==> backward_spec(any_matrix.deep_view(), any_matrix@.len() as int)
            == SubstOut::Done(r->Ok_0.deep_view()),
        r is Ok ==> r->Ok_0@.len() == any_matrix@.len() && vec_wf(r->Ok_0.deep_view()),
        r == Result::<Vec<Rational>, FitError>::Err(FitError::SingularSystem) <==> backward_spec(
            any_matrix.deep_view(),
            any_matrix@.len() as int,
        ) is Singular,
        r == Result::<Vec<Rational>, FitError>::Err(FitError::Overflow) <==> backward_spec(
            any_matrix.deep_view(),
            any_matrix@.len() as int,
        ) is Overflow,
{
    let ghost a = any_matrix.deep_view();
    let rows = any_matrix.len();
    let mut coeffs: Vec<Rational> = Vec::new();
    let mut i: usize = 0;
    while i < rows
        invariant
            i <= rows,
            coeffs.deep_view() == zero_coeffs(rows as int).take(i as int),
        decreases rows - i,
    {
        coeffs.push(Rational::from_int(0));
        proof {
            assert(coeffs.deep_view() =~= zero_coeffs(rows as int).take(i as int + 1));
        }
        i += 1;
    }
    proof {
        assert(coeffs.deep_view() =~= zero_coeffs(rows as int));
    }
    let mut t: usize = 0;
    while t < rows
        invariant
            t <= rows,
            rows == a.len(),
            rows >= 1,
            a == any_matrix.deep_view(),
            any_matrix@.len() == rows,
            is_rect(a, rows as int, rows as int + 1),
            mat_wf(a),
            coeffs@.len() == rows,
            vec_wf(coeffs.deep_view()),
            bsub_upto(a, rows as int, t as nat) == SubstOut::Done(coeffs.deep_view()),
        decreases rows - t,
    {
        let ghost cprev = coeffs.deep_view();
        let ghost cprev_vec = coeffs@;
        let k = rows - 1 - t;
        let pivot = any_matrix[k][k];
        proof {
            assert(pivot@ == a[k as int][k as int]);
        }
        if pivot.is_zero() {
            proof {
                assert(bsub_upto(a, rows as int, (t + 1) as nat) == SubstOut::Singular);
                lemma_bsub_upto_stuck(a, rows as int, (t + 1) as nat, rows as nat);
            }
            return Err(FitError::SingularSystem);
        }
        let mut acc = any_matrix[k][rows];
        let mut j: usize = k + 1;
        while j < rows
            invariant
                k < j <= rows,
                k == rows - 1 - t,
                t < rows,
                rows == a.len(),
                a == any_matrix.deep_view(),
                any_matrix@.len() == rows,
                is_rect(a, rows as int, rows as int + 1),
                mat_wf(a),
                coeffs@.len() == rows,
                vec_wf(coeffs.deep_view()),
                coeffs.deep_view() == cprev,
                bsub_upto(a, rows as int, t as nat) == SubstOut::Done(cprev),
                a[k as int][k as int].num != 0,
                pivot@ == a[k as int][k as int],
                pivot.wf(),
                acc.wf(),
                Some(acc@) == brhs(a, cprev, k as int, rows as int, (j - 1 - k) as nat),
            decreases rows - j,
        {
            let scaled = match any_matrix[k][j].mul(coeffs[j]) {
                Some(v) => v,
                None => {
                    proof {
                        assert(brhs(a, cprev, k as int, rows as int, (j - k) as nat) is None);
                        lemma_brhs_stuck(
                            a,
                            cprev,
                            k as int,
                            rows as int,
                            (j - k) as nat,
                            (rows - 1 - k) as nat,
                        );
                        assert(bsub_upto(a, rows as int, (t + 1) as nat) == SubstOut::Overflow);
                        lemma_bsub_upto_stuck(a, rows as int, (t + 1) as nat, rows as nat);
                    }
                    return Err(FitError::Overflow);
                },
            };
            acc = match acc.sub(scaled) {
                Some(v) => v,
                None => {
                    proof {
                        assert(brhs(a, cprev, k as int, rows as int, (j - k) as nat) is None);
                        lemma_brhs_stuck(
                            a,
                            cprev,
                            k as int,
                            rows as int,
                            (j - k) as nat,
                            (rows - 1 - k) as nat,
                        );
                        assert(bsub_upto(a, rows as int, (t + 1) as nat) == SubstOut::Overflow);
                        lemma_bsub_upto_stuck(a, rows as int, (t + 1) as nat, rows as nat);
                    }
                    return Err(FitError::Overflow);
                },
            };
            j += 1;
        }
        let value = match acc.div(pivot) {
            Some(v) => v,
            None => {
                proof {
                    assert(bsub_upto(a, rows as int, (t + 1) as nat) == SubstOut::Overflow);
                    lemma_bsub_upto_stuck(a, rows as int, (t + 1) as nat, rows as nat);
                }
                return Err(FitError::Overflow);
            },
        };
        coeffs[k] = value;
        proof {
            assert(coeffs@ == cprev_vec.update(k as int, value));
            assert(coeffs.deep_view() =~= cprev.update(k as int, value@));
            assert(bsub_upto(a, rows as int, (t + 1) as nat) == SubstOut::Done(
                coeffs.deep_view(),
            ));
        }
        t += 1;
    }
    Ok(coeffs)
}

/// Solve `M·c = b` by Gaussian elimination: augment `b` onto `M`, eliminate
/// forward, substitute backward.  Returns the coefficient vector, in index
/// order with the constant term first.
pub fn gaussian_jordan_elimination(left_matrix: &Matrix, right_matrix: &Vec<Rational>) -> (r:
    Result<Vec<Rational>, FitError>)
    requires
        right_matrix@.len() >= 1,
        is_rect(left_matrix.deep_view(), right_matrix@.len() as int, right_matrix@.len() as int),
        mat_wf(left_matrix.deep_view()),
        vec_wf(right_matrix.deep_view()),
    ensures
        r is Ok <==> solve_spec(left_matrix.deep_view(), right_matrix.deep_view()) is Done,
        r is Ok ==> solve_spec(left_matrix.deep_view(), right_matrix.deep_view())
            == SubstOut::Done(r->Ok_0.deep_view()),
        r is Ok ==> r->Ok_0@.len() == right_matrix@.len() && vec_wf(r->Ok_0.deep_view()),
        r == Result::<Vec<Rational>, FitError>::Err(FitError::SingularSystem) <==> solve_spec(
            left_matrix.deep_view(),
            right_matrix.deep_view(),
        ) is Singular,
        r == Result::<Vec<Rational>, FitError>::Err(FitError::Overflow) <==> solve_spec(
            left_matrix.deep_view(),
            right_matrix.deep_view(),
        ) is Overflow,
{
    let combined = combine_matrices(left_matrix, right_matrix);
    proof {
        assert(combined.deep_view()[0].len() == right_matrix@.len() + 1);
    }
    let reduced = match forward_elimination(&combined) {
        Ok(m) => m,
        Err(e) => {
            return Err(e);
        },
    };
    backward_substitution(&reduced)
}

} // verus!
