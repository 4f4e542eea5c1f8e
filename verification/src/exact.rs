use vstd::prelude::*;
use vstd::arithmetic::div_mod::{lemma_fundamental_div_mod, lemma_mod_multiples_basic};
use crate::model::{
    adaptive, assemble, difference, dot, is_power_of_two, lemma_cell, lemma_row_col, product,
    quadrant, strassen, sum,
};
use crate::scalar::{wrap64, Scalar};
use crate::strassen::recombined;

verus! {

/// The 64-bit integer `x` and the integer `e` differ by a multiple of 2^64.
pub open spec fn stands_for(x: i64, e: int) -> bool {
    (x - e) % 0x1_0000_0000_0000_0000 == 0
}

/// Wrapping an integer gives a 64-bit integer that stands for it.
pub proof fn lemma_wrap_stands(e: int)
    ensures
        stands_for(wrap64(e), e),
{
}

/// Two 64-bit integers that stand for one integer are equal.
pub proof fn lemma_stands_unique(x: i64, y: i64, e: int)
    requires
        stands_for(x, e),
        stands_for(y, e),
    ensures
        x == y,
{
}

/// A wrapping sum stands for the sum of what its operands stand for.
pub proof fn lemma_stands_plus(x: i64, y: i64, ex: int, ey: int)
    requires
        stands_for(x, ex),
        stands_for(y, ey),
    ensures
        stands_for(x.plus_spec(y), ex + ey),
{
}

/// A wrapping difference stands for the difference of what its operands
/// stand for.
pub proof fn lemma_stands_minus(x: i64, y: i64, ex: int, ey: int)
    requires
        stands_for(x, ex),
        stands_for(y, ey),
    ensures
        stands_for(x.minus_spec(y), ex - ey),
{
}

/// A wrapping product stands for the product of what its operands stand
/// for.
pub proof fn lemma_stands_times(x: i64, y: i64, ex: int, ey: int)
    requires
        stands_for(x, ex),
        stands_for(y, ey),
    ensures
        stands_for(x.times_spec(y), ex * ey),
{
    let m = 0x1_0000_0000_0000_0000int;
    let q1 = (x - ex) / m;
    let q2 = (y - ey) / m;
    lemma_fundamental_div_mod(x - ex, m);
    lemma_fundamental_div_mod(y - ey, m);
    assert(x - ex == m * q1);
    assert(y - ey == m * q2);
    assert(x * y - ex * ey == (x * q2 + ey * q1) * m) by (nonlinear_arith)
        requires
            x - ex == m * q1,
            y - ey == m * q2,
    ;
    lemma_mod_multiples_basic(x * q2 + ey * q1, m);
    let w = wrap64(x * y);
    lemma_wrap_stands(x * y);
    let q3 = (w - x * y) / m;
    lemma_fundamental_div_mod(w - x * y, m);
    assert(w - ex * ey == (q3 + x * q2 + ey * q1) * m) by (nonlinear_arith)
        requires
            w - x * y == m * q3,
            x * y - ex * ey == (x * q2 + ey * q1) * m,
    ;
    lemma_mod_multiples_basic(q3 + x * q2 + ey * q1, m);
}

/// The exact running sum for cell `(i, j)` of the product of two row-major
/// `n`-by-`n` matrices of integers: the first `k` terms.
pub open spec fn zdot(e: Seq<int>, f: Seq<int>, n: int, i: int, j: int, k: int) -> int
    decreases k,
{
    if k <= 0 {
        0
    } else {
        zdot(e, f, n, i, j, k - 1) + e[i * n + (k - 1)] * f[(k - 1) * n + j]
    }
}

/// The exact product of two row-major `n`-by-`n` matrices of integers.
pub open spec fn zproduct(e: Seq<int>, f: Seq<int>, n: int) -> Seq<int> {
    Seq::new((n * n) as nat, |q: int| zdot(e, f, n, q / n, q % n, n))
}

/// The exact cell-by-cell sum of two matrices of integers.
pub open spec fn zsum(e: Seq<int>, f: Seq<int>) -> Seq<int> {
    Seq::new(e.len(), |q: int| e[q] + f[q])
}

/// The exact cell-by-cell difference of two matrices of integers.
pub open spec fn zdifference(e: Seq<int>, f: Seq<int>) -> Seq<int> {
    Seq::new(e.len(), |q: int| e[q] - f[q])
}

/// The running sum is additive in its left operand.
pub proof fn lemma_zdot_sum_left(e1: Seq<int>, e2: Seq<int>, f: Seq<int>, n: int, i: int, j: int, k: int)
    requires
        0 <= i < n,
        0 <= j < n,
        0 <= k <= n,
        e1.len() == n * n,
        e2.len() == n * n,
    ensures
        zdot(zsum(e1, e2), f, n, i, j, k) == zdot(e1, f, n, i, j, k) + zdot(e2, f, n, i, j, k),
    decreases k,
{
    if k > 0 {
        lemma_zdot_sum_left(e1, e2, f, n, i, j, k - 1);
        lemma_cell(i, k - 1, n, n);
        let x1 = e1[i * n + (k - 1)];
        let x2 = e2[i * n + (k - 1)];
        let y = f[(k - 1) * n + j];
        assert((x1 + x2) * y == x1 * y + x2 * y) by (nonlinear_arith);
    }
}

/// The running sum of a difference on the left is the difference of the running sums.
pub proof fn lemma_zdot_difference_left(e1: Seq<int>, e2: Seq<int>, f: Seq<int>, n: int, i: int, j: int, k: int)
    requires
        0 <= i < n,
        0 <= j < n,
        0 <= k <= n,
        e1.len() == n * n,
        e2.len() == n * n,
    ensures
        zdot(zdifference(e1, e2), f, n, i, j, k) == zdot(e1, f, n, i, j, k) - zdot(e2, f, n, i, j, k),
    decreases k,
{
    if k > 0 {
        lemma_zdot_difference_left(e1, e2, f, n, i, j, k - 1);
        lemma_cell(i, k - 1, n, n);
        let x1 = e1[i * n + (k - 1)];
        let x2 = e2[i * n + (k - 1)];
        let y = f[(k - 1) * n + j];
        assert((x1 - x2) * y == x1 * y - x2 * y) by (nonlinear_arith);
    }
}

/// The running sum is additive in its right operand.
pub proof fn lemma_zdot_sum_right(f: Seq<int>, e1: Seq<int>, e2: Seq<int>, n: int, i: int, j: int, k: int)
    requires
        0 <= i < n,
        0 <= j < n,
        0 <= k <= n,
        e1.len() == n * n,
        e2.len() == n * n,
    ensures
        zdot(f, zsum(e1, e2), n, i, j, k) == zdot(f, e1, n, i, j, k) + zdot(f, e2, n, i, j, k),
    decreases k,
{
    if k > 0 {
        lemma_zdot_sum_right(f, e1, e2, n, i, j, k - 1);
        lemma_cell(k - 1, j, n, n);
        let x1 = e1[(k - 1) * n + j];
        let x2 = e2[(k - 1) * n + j];
        let y = f[i * n + (k - 1)];
        assert(y * (x1 + x2) == y * x1 + y * x2) by (nonlinear_arith);
    }
}

/// The running sum of a difference on the right is the difference of the running sums.
pub proof fn lemma_zdot_difference_right(f: Seq<int>, e1: Seq<int>, e2: Seq<int>, n: int, i: int, j: int, k: int)
    requires
        0 <= i < n,
        0 <= j < n,
        0 <= k <= n,
        e1.len() == n * n,
        e2.len() == n * n,
    ensures
        zdot(f, zdifference(e1, e2), n, i, j, k) == zdot(f, e1, n, i, j, k) - zdot(f, e2, n, i, j, k),
    decreases k,
{
    if k > 0 {
        lemma_zdot_difference_right(f, e1, e2, n, i, j, k - 1);
        lemma_cell(k - 1, j, n, n);
        let x1 = e1[(k - 1) * n + j];
        let x2 = e2[(k - 1) * n + j];
        let y = f[i * n + (k - 1)];
        assert(y * (x1 - x2) == y * x1 - y * x2) by (nonlinear_arith);
    }
}

/// The first half of the running sum for a cell of quadrant `(qi, qj)` of
/// a product runs over the left quadrant of that row of quadrants and the
/// upper quadrant of that column of quadrants.
pub proof fn lemma_zdot_first_half(
    e: Seq<int>,
    f: Seq<int>,
    n: int,
    qi: int,
    qj: int,
    i: int,
    j: int,
    k: int,
)
    requires
        0 < n,
        n % 2 == 0,
        0 <= qi <= 1,
        0 <= qj <= 1,
        0 <= i < n / 2,
        0 <= j < n / 2,
        0 <= k <= n / 2,
        e.len() == n * n,
        f.len() == n * n,
    ensures
        zdot(e, f, n, i + qi * (n / 2), j + qj * (n / 2), k) == zdot(
            quadrant(e, n, qi, 0),
            quadrant(f, n, 0, qj),
            n / 2,
            i,
            j,
            k,
        ),
    decreases k,
{
    let h = n / 2;
    assert(0 <= qi * h <= h && 0 <= qj * h <= h) by (nonlinear_arith)
        requires
            0 <= qi <= 1,
            0 <= qj <= 1,
            0 <= h,
    ;
    if k > 0 {
        lemma_zdot_first_half(e, f, n, qi, qj, i, j, k - 1);
        lemma_cell(i, k - 1, h, h);
        lemma_cell(k - 1, j, h, h);
        lemma_cell(i + qi * h, k - 1, n, n);
        lemma_cell(k - 1, j + qj * h, n, n);
        assert(quadrant(e, n, qi, 0)[i * h + (k - 1)] == e[(i + qi * h) * n + (k - 1)]);
        assert(quadrant(f, n, 0, qj)[(k - 1) * h + j] == f[(k - 1) * n + (j + qj * h)]);
    }
}

/// The second half of the running sum for a cell of quadrant `(qi, qj)` of
/// a product adds, onto the first half, the running sum over the right
/// quadrant of that row of quadrants and the lower quadrant of that column
/// of quadrants.
pub proof fn lemma_zdot_second_half(
    e: Seq<int>,
    f: Seq<int>,
    n: int,
    qi: int,
    qj: int,
    i: int,
    j: int,
    k: int,
)
    requires
        0 < n,
        n % 2 == 0,
        0 <= qi <= 1,
        0 <= qj <= 1,
        0 <= i < n / 2,
        0 <= j < n / 2,
        0 <= k <= n / 2,
        e.len() == n * n,
        f.len() == n * n,
    ensures
        zdot(e, f, n, i + qi * (n / 2), j + qj * (n / 2), n / 2 + k) == zdot(
            e,
            f,
            n,
            i + qi * (n / 2),
            j + qj * (n / 2),
            n / 2,
        ) + zdot(quadrant(e, n, qi, 1), quadrant(f, n, 1, qj), n / 2, i, j, k),
    decreases k,
{
    let h = n / 2;
    assert(0 <= qi * h <= h && 0 <= qj * h <= h) by (nonlinear_arith)
        requires
            0 <= qi <= 1,
            0 <= qj <= 1,
            0 <= h,
    ;
    if k > 0 {
        lemma_zdot_second_half(e, f, n, qi, qj, i, j, k - 1);
        lemma_cell(i, k - 1, h, h);
        lemma_cell(k - 1, j, h, h);
        lemma_cell(i + qi * h, h + k - 1, n, n);
        lemma_cell(h + k - 1, j + qj * h, n, n);
        assert(quadrant(e, n, qi, 1)[i * h + (k - 1)] == e[(i + qi * h) * n + (h + k - 1)]);
        assert(quadrant(f, n, 1, qj)[(k - 1) * h + j] == f[(h + k - 1) * n + (j + qj * h)]);
    }
}

/// Cell `(i, j)` of the exact product of quadrant `(a, b)` of `e` and
/// quadrant `(c, d)` of `f`.
pub open spec fn zblock(
    e: Seq<int>,
    f: Seq<int>,
    n: int,
    a: int,
    b: int,
    c: int,
    d: int,
    i: int,
    j: int,
) -> int {
    zdot(quadrant(e, n, a, b), quadrant(f, n, c, d), n / 2, i, j, n / 2)
}

/// A cell of quadrant `(qi, qj)` of an exact product is the sum of two
/// cells of products of quadrants.
pub proof fn lemma_zdot_blocks(e: Seq<int>, f: Seq<int>, n: int, qi: int, qj: int, i: int, j: int)
    requires
        0 < n,
        n % 2 == 0,
        0 <= qi <= 1,
        0 <= qj <= 1,
        0 <= i < n / 2,
        0 <= j < n / 2,
        e.len() == n * n,
        f.len() == n * n,
    ensures
        zdot(e, f, n, i + qi * (n / 2), j + qj * (n / 2), n) == zblock(e, f, n, qi, 0, 0, qj, i, j)
            + zblock(e, f, n, qi, 1, 1, qj, i, j),
{
    lemma_zdot_first_half(e, f, n, qi, qj, i, j, n / 2);
    lemma_zdot_second_half(e, f, n, qi, qj, i, j, n / 2);
}

/// The exact left operand of the half-size product of the given number.
pub open spec fn zleft(e: Seq<int>, n: int, which: int) -> Seq<int> {
    let e11 = quadrant(e, n, 0, 0);
    let e12 = quadrant(e, n, 0, 1);
    let e21 = quadrant(e, n, 1, 0);
    let e22 = quadrant(e, n, 1, 1);
    if which == 1 {
        zsum(e11, e22)
    } else if which == 2 {
        zsum(e21, e22)
    } else if which == 3 {
        e11
    } else if which == 4 {
        e22
    } else if which == 5 {
        zsum(e11, e12)
    } else if which == 6 {
        zdifference(e21, e11)
    } else {
        zdifference(e12, e22)
    }
}

/// The exact right operand of the half-size product of the given number.
pub open spec fn zright(f: Seq<int>, n: int, which: int) -> Seq<int> {
    let f11 = quadrant(f, n, 0, 0);
    let f12 = quadrant(f, n, 0, 1);
    let f21 = quadrant(f, n, 1, 0);
    let f22 = quadrant(f, n, 1, 1);
    if which == 1 {
        zsum(f11, f22)
    } else if which == 2 {
        f11
    } else if which == 3 {
        zdifference(f12, f22)
    } else if which == 4 {
        zdifference(f21, f11)
    } else if which == 5 {
        f22
    } else if which == 6 {
        zsum(f11, f12)
    } else {
        zsum(f21, f22)
    }
}

/// Cell `(i, j)` of the exact half-size product of the given number.
pub open spec fn zm(e: Seq<int>, f: Seq<int>, n: int, which: int, i: int, j: int) -> int {
    zdot(zleft(e, n, which), zright(f, n, which), n / 2, i, j, n / 2)
}

/// The recombination of quadrant `(qi, qj)` from seven integers.
pub open spec fn zrecombined(
    z1: int,
    z2: int,
    z3: int,
    z4: int,
    z5: int,
    z6: int,
    z7: int,
    qi: int,
    qj: int,
) -> int {
    if qi == 0 && qj == 0 {
        z1 + z4 - z5 + z7
    } else if qi == 0 {
        z3 + z5
    } else if qj == 0 {
        z2 + z4
    } else {
        z1 - z2 + z3 + z6
    }
}

/// Over the integers, the seven half-size products recombine to the
/// product: cell `(i, j)` of quadrant `(qi, qj)` of the recombination is
/// that cell of the exact product.
pub proof fn lemma_recombination_exact(
    e: Seq<int>,
    f: Seq<int>,
    n: int,
    qi: int,
    qj: int,
    i: int,
    j: int,
)
    requires
        0 < n,
        n % 2 == 0,
        0 <= qi <= 1,
        0 <= qj <= 1,
        0 <= i < n / 2,
        0 <= j < n / 2,
        e.len() == n * n,
        f.len() == n * n,
    ensures
        zrecombined(
            zm(e, f, n, 1, i, j),
            zm(e, f, n, 2, i, j),
            zm(e, f, n, 3, i, j),
            zm(e, f, n, 4, i, j),
            zm(e, f, n, 5, i, j),
            zm(e, f, n, 6, i, j),
            zm(e, f, n, 7, i, j),
            qi,
            qj,
        ) == zdot(e, f, n, i + qi * (n / 2), j + qj * (n / 2), n),
{
    let h = n / 2;
    assert(0 <= h * h) by (nonlinear_arith);
    let e11 = quadrant(e, n, 0, 0);
    let e12 = quadrant(e, n, 0, 1);
    let e21 = quadrant(e, n, 1, 0);
    let e22 = quadrant(e, n, 1, 1);
    let f11 = quadrant(f, n, 0, 0);
    let f12 = quadrant(f, n, 0, 1);
    let f21 = quadrant(f, n, 1, 0);
    let f22 = quadrant(f, n, 1, 1);
    lemma_zdot_blocks(e, f, n, qi, qj, i, j);

    lemma_zdot_sum_left(e11, e22, zsum(f11, f22), h, i, j, h);
    lemma_zdot_sum_right(e11, f11, f22, h, i, j, h);
    lemma_zdot_sum_right(e22, f11, f22, h, i, j, h);

    lemma_zdot_sum_left(e21, e22, f11, h, i, j, h);

    lemma_zdot_difference_right(e11, f12, f22, h, i, j, h);

    lemma_zdot_difference_right(e22, f21, f11, h, i, j, h);

    lemma_zdot_sum_left(e11, e12, f22, h, i, j, h);

    lemma_zdot_difference_left(e21, e11, zsum(f11, f12), h, i, j, h);
    lemma_zdot_sum_right(e21, f11, f12, h, i, j, h);
    lemma_zdot_sum_right(e11, f11, f12, h, i, j, h);

    lemma_zdot_difference_left(e12, e22, zsum(f21, f22), h, i, j, h);
    lemma_zdot_sum_right(e12, f21, f22, h, i, j, h);
    lemma_zdot_sum_right(e22, f21, f22, h, i, j, h);
}

/// Cell by cell, the 64-bit integers of `x` stand for the integers of `e`.
pub open spec fn stands(x: Seq<i64>, e: Seq<int>) -> bool {
    &&& x.len() == e.len()
    &&& forall|q: int| 0 <= q < x.len() ==> stands_for(#[trigger] x[q], e[q])
}

/// A wrapping sum of matrices stands for the exact sum of what they stand
/// for.
pub proof fn lemma_stands_sum(x: Seq<i64>, y: Seq<i64>, e: Seq<int>, f: Seq<int>)
    requires
        stands(x, e),
        stands(y, f),
        x.len() == y.len(),
    ensures
        stands(sum(x, y), zsum(e, f)),
{
    assert forall|q: int| 0 <= q < x.len() implies stands_for(#[trigger] sum(x, y)[q], zsum(e, f)[q]) by {
        lemma_stands_plus(x[q], y[q], e[q], f[q]);
    }
}

/// A wrapping difference of matrices stands for the exact difference of
/// what they stand for.
pub proof fn lemma_stands_difference(x: Seq<i64>, y: Seq<i64>, e: Seq<int>, f: Seq<int>)
    requires
        stands(x, e),
        stands(y, f),
        x.len() == y.len(),
    ensures
        stands(difference(x, y), zdifference(e, f)),
{
    assert forall|q: int| 0 <= q < x.len() implies stands_for(
        #[trigger] difference(x, y)[q],
        zdifference(e, f)[q],
    ) by {
        lemma_stands_minus(x[q], y[q], e[q], f[q]);
    }
}

/// A quadrant of a matrix stands for that quadrant of what the matrix
/// stands for.
pub proof fn lemma_stands_quadrant(x: Seq<i64>, e: Seq<int>, n: int, qi: int, qj: int)
    requires
        stands(x, e),
        x.len() == n * n,
        0 < n,
        n % 2 == 0,
        0 <= qi <= 1,
        0 <= qj <= 1,
    ensures
        stands(quadrant(x, n, qi, qj), quadrant(e, n, qi, qj)),
        quadrant(x, n, qi, qj).len() == (n / 2) * (n / 2),
{
    let h = n / 2;
    assert(0 <= h * h) by (nonlinear_arith);
    assert(0 <= qi * h <= h && 0 <= qj * h <= h) by (nonlinear_arith)
        requires
            0 <= qi <= 1,
            0 <= qj <= 1,
            0 <= h,
    ;
    assert forall|p: int| 0 <= p < h * h implies stands_for(
        #[trigger] quadrant(x, n, qi, qj)[p],
        quadrant(e, n, qi, qj)[p],
    ) by {
        lemma_row_col(p, h, h);
        lemma_cell(p / h + qi * h, p % h + qj * h, n, n);
    }
}

/// A wrapping running sum stands for the exact running sum of what the
/// matrices stand for.
pub proof fn lemma_stands_dot(
    x: Seq<i64>,
    y: Seq<i64>,
    e: Seq<int>,
    f: Seq<int>,
    n: int,
    i: int,
    j: int,
    k: int,
)
    requires
        stands(x, e),
        stands(y, f),
        x.len() == n * n,
        y.len() == n * n,
        0 <= i < n,
        0 <= j < n,
        0 <= k <= n,
    ensures
        stands_for(dot(x, y, n, i, j, k), zdot(e, f, n, i, j, k)),
    decreases k,
{
    if k > 0 {
        lemma_stands_dot(x, y, e, f, n, i, j, k - 1);
        lemma_cell(i, k - 1, n, n);
        lemma_cell(k - 1, j, n, n);
        let left = x[i * n + (k - 1)];
        let right = y[(k - 1) * n + j];
        lemma_stands_times(left, right, e[i * n + (k - 1)], f[(k - 1) * n + j]);
        lemma_stands_plus(
            dot(x, y, n, i, j, k - 1),
            left.times_spec(right),
            zdot(e, f, n, i, j, k - 1),
            e[i * n + (k - 1)] * f[(k - 1) * n + j],
        );
    }
}

/// A wrapping product of matrices stands for the exact product of what they
/// stand for.
pub proof fn lemma_stands_product(x: Seq<i64>, y: Seq<i64>, e: Seq<int>, f: Seq<int>, n: int)
    requires
        stands(x, e),
        stands(y, f),
        x.len() == n * n,
        y.len() == n * n,
        0 <= n,
    ensures
        stands(product(x, y, n), zproduct(e, f, n)),
{
    assert forall|q: int| 0 <= q < n * n implies stands_for(
        #[trigger] product(x, y, n)[q],
        zproduct(e, f, n)[q],
    ) by {
        lemma_row_col(q, n, n);
        lemma_stands_dot(x, y, e, f, n, q / n, q % n, n);
    }
}

/// A cell of a recombined quadrant stands for the exact recombination of
/// what the cells of the seven products stand for.
pub proof fn lemma_stands_recombined(
    m1: Seq<i64>,
    m2: Seq<i64>,
    m3: Seq<i64>,
    m4: Seq<i64>,
    m5: Seq<i64>,
    m6: Seq<i64>,
    m7: Seq<i64>,
    z1: int,
    z2: int,
    z3: int,
    z4: int,
    z5: int,
    z6: int,
    z7: int,
    qi: int,
    qj: int,
    c: int,
)
    requires
        0 <= c < m1.len(),
        m2.len() == m1.len(),
        m3.len() == m1.len(),
        m4.len() == m1.len(),
        m5.len() == m1.len(),
        m6.len() == m1.len(),
        m7.len() == m1.len(),
        stands_for(m1[c], z1),
        stands_for(m2[c], z2),
        stands_for(m3[c], z3),
        stands_for(m4[c], z4),
        stands_for(m5[c], z5),
        stands_for(m6[c], z6),
        stands_for(m7[c], z7),
    ensures
        recombined(m1, m2, m3, m4, m5, m6, m7, qi, qj).len() == m1.len(),
        stands_for(
            recombined(m1, m2, m3, m4, m5, m6, m7, qi, qj)[c],
            zrecombined(z1, z2, z3, z4, z5, z6, z7, qi, qj),
        ),
{
    if qi == 0 && qj == 0 {
        lemma_stands_plus(m1[c], m4[c], z1, z4);
        lemma_stands_minus(m1[c].plus_spec(m4[c]), m5[c], z1 + z4, z5);
        lemma_stands_plus(m1[c].plus_spec(m4[c]).minus_spec(m5[c]), m7[c], z1 + z4 - z5, z7);
    } else if qi == 0 {
        lemma_stands_plus(m3[c], m5[c], z3, z5);
    } else if qj == 0 {
        lemma_stands_plus(m2[c], m4[c], z2, z4);
    } else {
        lemma_stands_minus(m1[c], m2[c], z1, z2);
        lemma_stands_plus(m1[c].minus_spec(m2[c]), m3[c], z1 - z2, z3);
        lemma_stands_plus(m1[c].minus_spec(m2[c]).plus_spec(m3[c]), m6[c], z1 - z2 + z3, z6);
    }
}

/// What the recursive multiplication computes on 64-bit integers stands for
/// the exact product of what its operands stand for.
pub proof fn lemma_strassen_stands(
    x: Seq<i64>,
    y: Seq<i64>,
    e: Seq<int>,
    f: Seq<int>,
    n: nat,
    t: nat,
)
    requires
        1 <= t,
        n <= t || is_power_of_two(n as int),
        stands(x, e),
        stands(y, f),
        x.len() == n * n,
        y.len() == n * n,
    ensures
        stands(strassen(x, y, n, t), zproduct(e, f, n as int)),
    decreases n,
{
    let w = n as int;
    if n <= t {
        lemma_stands_product(x, y, e, f, w);
    } else {
        let h = w / 2;
        let hn = (n / 2) as nat;
        assert(0 <= h * h) by (nonlinear_arith);
        assert((2 * h) * (2 * h) == w * w) by (nonlinear_arith)
            requires
                2 * h == w,
        ;
        let x11 = quadrant(x, w, 0, 0);
        let x12 = quadrant(x, w, 0, 1);
        let x21 = quadrant(x, w, 1, 0);
        let x22 = quadrant(x, w, 1, 1);
        let y11 = quadrant(y, w, 0, 0);
        let y12 = quadrant(y, w, 0, 1);
        let y21 = quadrant(y, w, 1, 0);
        let y22 = quadrant(y, w, 1, 1);
        let e11 = quadrant(e, w, 0, 0);
        let e12 = quadrant(e, w, 0, 1);
        let e21 = quadrant(e, w, 1, 0);
        let e22 = quadrant(e, w, 1, 1);
        let f11 = quadrant(f, w, 0, 0);
        let f12 = quadrant(f, w, 0, 1);
        let f21 = quadrant(f, w, 1, 0);
        let f22 = quadrant(f, w, 1, 1);
        lemma_stands_quadrant(x, e, w, 0, 0);
        lemma_stands_quadrant(x, e, w, 0, 1);
        lemma_stands_quadrant(x, e, w, 1, 0);
        lemma_stands_quadrant(x, e, w, 1, 1);
        lemma_stands_quadrant(y, f, w, 0, 0);
        lemma_stands_quadrant(y, f, w, 0, 1);
        lemma_stands_quadrant(y, f, w, 1, 0);
        lemma_stands_quadrant(y, f, w, 1, 1);

        lemma_stands_sum(x11, x22, e11, e22);
        lemma_stands_sum(y11, y22, f11, f22);
        lemma_stands_sum(x21, x22, e21, e22);
        lemma_stands_difference(y12, y22, f12, f22);
        lemma_stands_difference(y21, y11, f21, f11);
        lemma_stands_sum(x11, x12, e11, e12);
        lemma_stands_difference(x21, x11, e21, e11);
        lemma_stands_sum(y11, y12, f11, f12);
        lemma_stands_difference(x12, x22, e12, e22);
        lemma_stands_sum(y21, y22, f21, f22);

        let m1 = strassen(sum(x11, x22), sum(y11, y22), hn, t);
        let m2 = strassen(sum(x21, x22), y11, hn, t);
        let m3 = strassen(x11, difference(y12, y22), hn, t);
        let m4 = strassen(x22, difference(y21, y11), hn, t);
        let m5 = strassen(sum(x11, x12), y22, hn, t);
        let m6 = strassen(difference(x21, x11), sum(y11, y12), hn, t);
        let m7 = strassen(difference(x12, x22), sum(y21, y22), hn, t);
        lemma_strassen_stands(sum(x11, x22), sum(y11, y22), zleft(e, w, 1), zright(f, w, 1), hn, t);
        lemma_strassen_stands(sum(x21, x22), y11, zleft(e, w, 2), zright(f, w, 2), hn, t);
        lemma_strassen_stands(x11, difference(y12, y22), zleft(e, w, 3), zright(f, w, 3), hn, t);
        lemma_strassen_stands(x22, difference(y21, y11), zleft(e, w, 4), zright(f, w, 4), hn, t);
        lemma_strassen_stands(sum(x11, x12), y22, zleft(e, w, 5), zright(f, w, 5), hn, t);
        lemma_strassen_stands(
            difference(x21, x11),
            sum(y11, y12),
            zleft(e, w, 6),
            zright(f, w, 6),
            hn,
            t,
        );
        lemma_strassen_stands(
            difference(x12, x22),
            sum(y21, y22),
            zleft(e, w, 7),
            zright(f, w, 7),
            hn,
            t,
        );
        let whole = strassen(x, y, n, t);
        assert(whole == assemble(
            recombined(m1, m2, m3, m4, m5, m6, m7, 0, 0),
            recombined(m1, m2, m3, m4, m5, m6, m7, 0, 1),
            recombined(m1, m2, m3, m4, m5, m6, m7, 1, 0),
            recombined(m1, m2, m3, m4, m5, m6, m7, 1, 1),
            h,
        ));
        assert(whole.len() == w * w);
        assert forall|q: int| 0 <= q < w * w implies stands_for(
            #[trigger] whole[q],
            zproduct(e, f, w)[q],
        ) by {
            lemma_row_col(q, w, w);
            let qi: int = if q / w < h {
                0
            } else {
                1
            };
            let qj: int = if q % w < h {
                0
            } else {
                1
            };
            let i = q / w - qi * h;
            let j = q % w - qj * h;
            lemma_cell(i, j, h, h);
            let c = i * h + j;
            lemma_stands_recombined(
                m1,
                m2,
                m3,
                m4,
                m5,
                m6,
                m7,
                zm(e, f, w, 1, i, j),
                zm(e, f, w, 2, i, j),
                zm(e, f, w, 3, i, j),
                zm(e, f, w, 4, i, j),
                zm(e, f, w, 5, i, j),
                zm(e, f, w, 6, i, j),
                zm(e, f, w, 7, i, j),
                qi,
                qj,
                c,
            );
            lemma_recombination_exact(e, f, w, qi, qj, i, j);
            assert(whole[q] == recombined(m1, m2, m3, m4, m5, m6, m7, qi, qj)[c]);
        }
    }
}

/// On 64-bit integers with wrapping arithmetic, the recursive
/// multiplication of two `n`-by-`n` matrices computes their product, for
/// every power of two `n` and every size at or below the cutover.
pub proof fn lemma_strassen_exact(a: Seq<i64>, b: Seq<i64>, n: nat, t: nat)
    requires
        1 <= t,
        n <= t || is_power_of_two(n as int),
        a.len() == n * n,
        b.len() == n * n,
    ensures
        strassen(a, b, n, t) == product(a, b, n as int),
{
    let e = Seq::new(a.len(), |q: int| a[q] as int);
    let f = Seq::new(b.len(), |q: int| b[q] as int);
    assert(stands(a, e));
    assert(stands(b, f));
    lemma_strassen_stands(a, b, e, f, n, t);
    lemma_stands_product(a, b, e, f, n as int);
    let fast = strassen(a, b, n, t);
    let direct = product(a, b, n as int);
    let exact = zproduct(e, f, n as int);
    assert forall|q: int| 0 <= q < fast.len() implies fast[q] == direct[q] by {
        lemma_stands_unique(fast[q], direct[q], exact[q]);
    }
    assert(fast =~= direct);
}

/// On 64-bit integers with wrapping arithmetic, the size-adaptive entry
/// point computes the product of its operands, whatever the size.
pub proof fn lemma_adaptive_exact(a: Seq<i64>, b: Seq<i64>, n: nat, t: nat)
    requires
        1 <= t,
        a.len() == n * n,
        b.len() == n * n,
    ensures
        adaptive(a, b, n, t) == product(a, b, n as int),
{
    if n > t && is_power_of_two(n as int) {
        lemma_strassen_exact(a, b, n, t);
    }
}

} // verus!
