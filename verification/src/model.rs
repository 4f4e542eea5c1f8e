use vstd::prelude::*;
use vstd::arithmetic::div_mod::{lemma_fundamental_div_mod, lemma_fundamental_div_mod_converse};
use crate::scalar::Scalar;

verus! {

/// The running sum for cell `(i, j)` of the product of two row-major
/// `n`-by-`n` matrices: the first `k` terms `a[i][l] * b[l][j]`, added onto
/// zero one after another in the order of `l`.
pub open spec fn dot<T: Scalar>(a: Seq<T>, b: Seq<T>, n: int, i: int, j: int, k: int) -> T
    decreases k,
{
    if k <= 0 {
        T::zero_spec()
    } else {
        dot(a, b, n, i, j, k - 1).plus_spec(a[i * n + (k - 1)].times_spec(b[(k - 1) * n + j]))
    }
}

/// The product of two row-major `n`-by-`n` matrices, each cell summed in
/// the order of the inner index.
pub open spec fn product<T: Scalar>(a: Seq<T>, b: Seq<T>, n: int) -> Seq<T> {
    Seq::new((n * n) as nat, |q: int| dot(a, b, n, q / n, q % n, n))
}

/// The cell-by-cell sum of two buffers of one length.
pub open spec fn sum<T: Scalar>(x: Seq<T>, y: Seq<T>) -> Seq<T> {
    Seq::new(x.len(), |q: int| x[q].plus_spec(y[q]))
}

/// The cell-by-cell difference of two buffers of one length.
pub open spec fn difference<T: Scalar>(x: Seq<T>, y: Seq<T>) -> Seq<T> {
    Seq::new(x.len(), |q: int| x[q].minus_spec(y[q]))
}

/// Quadrant `(qi, qj)` of a row-major `n`-by-`n` matrix, packed row-major
/// with its own width `n / 2`.
pub open spec fn quadrant<T>(m: Seq<T>, n: int, qi: int, qj: int) -> Seq<T> {
    let h = n / 2;
    Seq::new((h * h) as nat, |p: int| m[(p / h + qi * h) * n + (p % h + qj * h)])
}

/// The `2h`-by-`2h` matrix whose four quadrants are the packed `h`-by-`h`
/// matrices given.
pub open spec fn assemble<T>(c11: Seq<T>, c12: Seq<T>, c21: Seq<T>, c22: Seq<T>, h: int) -> Seq<
    T,
> {
    Seq::new(
        ((2 * h) * (2 * h)) as nat,
        |q: int|
            {
                let i = q / (2 * h);
                let j = q % (2 * h);
                if i < h {
                    if j < h {
                        c11[i * h + j]
                    } else {
                        c12[i * h + (j - h)]
                    }
                } else {
                    if j < h {
                        c21[(i - h) * h + j]
                    } else {
                        c22[(i - h) * h + (j - h)]
                    }
                }
            },
    )
}

/// `m` with the packed `n / 2`-wide matrix `s` written over its quadrant
/// `(qi, qj)`.
pub open spec fn with_quadrant<T>(m: Seq<T>, n: int, qi: int, qj: int, s: Seq<T>) -> Seq<T> {
    let h = n / 2;
    Seq::new(
        m.len(),
        |q: int|
            {
                let i = q / n - qi * h;
                let j = q % n - qj * h;
                if 0 <= i < h && 0 <= j < h {
                    s[i * h + j]
                } else {
                    m[q]
                }
            },
    )
}

/// `n` is 1, 2, 4, 8, ...
pub open spec fn is_power_of_two(n: int) -> bool
    decreases n,
{
    if n <= 1 {
        n == 1
    } else {
        n % 2 == 0 && is_power_of_two(n / 2)
    }
}

/// The number of scratch cells that the recursive multiplication of two
/// `n`-by-`n` matrices takes with cutover size `t`: seventeen buffers of
/// `(n / 2)^2` cells at each level above the cutover.
pub open spec fn required(n: nat, t: nat) -> nat
    decreases n,
{
    if n <= t {
        0
    } else {
        17 * ((n / 2) * (n / 2)) + required(n / 2, t)
    }
}

/// What the recursive multiplication computes for two `n`-by-`n` matrices
/// with cutover size `t`: the direct product at or below the cutover, and
/// above it the four quadrants recombined from seven half-size products.
pub open spec fn strassen<T: Scalar>(a: Seq<T>, b: Seq<T>, n: nat, t: nat) -> Seq<T>
    decreases n,
{
    if n <= t {
        product(a, b, n as int)
    } else {
        let h = n / 2;
        let a11 = quadrant(a, n as int, 0, 0);
        let a12 = quadrant(a, n as int, 0, 1);
        let a21 = quadrant(a, n as int, 1, 0);
        let a22 = quadrant(a, n as int, 1, 1);
        let b11 = quadrant(b, n as int, 0, 0);
        let b12 = quadrant(b, n as int, 0, 1);
        let b21 = quadrant(b, n as int, 1, 0);
        let b22 = quadrant(b, n as int, 1, 1);
        let m1 = strassen(sum(a11, a22), sum(b11, b22), h, t);
        let m2 = strassen(sum(a21, a22), b11, h, t);
        let m3 = strassen(a11, difference(b12, b22), h, t);
        let m4 = strassen(a22, difference(b21, b11), h, t);
        let m5 = strassen(sum(a11, a12), b22, h, t);
        let m6 = strassen(difference(a21, a11), sum(b11, b12), h, t);
        let m7 = strassen(difference(a12, a22), sum(b21, b22), h, t);
        assemble(
            sum(difference(sum(m1, m4), m5), m7),
            sum(m3, m5),
            sum(m2, m4),
            sum(sum(difference(m1, m2), m3), m6),
            h as int,
        )
    }
}

/// What the size-adaptive entry point computes: the recursive
/// multiplication for a power of two above the cutover, the direct product
/// for every other size.
pub open spec fn adaptive<T: Scalar>(a: Seq<T>, b: Seq<T>, n: nat, t: nat) -> Seq<T> {
    if n <= t || !is_power_of_two(n as int) {
        product(a, b, n as int)
    } else {
        strassen(a, b, n, t)
    }
}

/// Row `i`, column `j` of a row-major matrix of `m` rows of width `n` is
/// cell `i * n + j`, and no other pair names that cell.
pub proof fn lemma_cell(i: int, j: int, n: int, m: int)
    requires
        0 <= i < m,
        0 <= j < n,
    ensures
        0 <= i * n,
        i * n + j < m * n,
        (i * n + j) / n == i,
        (i * n + j) % n == j,
{
    assert(0 <= i * n) by (nonlinear_arith)
        requires
            0 <= i,
            0 < n,
    ;
    lemma_fundamental_div_mod_converse(i * n + j, n, i, j);
    assert((i + 1) * n <= m * n) by (nonlinear_arith)
        requires
            i + 1 <= m,
            0 < n,
    ;
    assert((i + 1) * n == i * n + n) by (nonlinear_arith);
}

/// Row `i` of a row-major matrix of `m` rows of width `n` ends where row
/// `i + 1` begins, within the matrix.
pub proof fn lemma_row(i: int, n: int, m: int)
    requires
        0 <= i < m,
        0 <= n,
    ensures
        0 <= i * n,
        (i + 1) * n == i * n + n,
        i * n + n <= m * n,
{
    assert(0 <= i * n && (i + 1) * n == i * n + n && (i + 1) * n <= m * n) by (nonlinear_arith)
        requires
            0 <= i,
            i + 1 <= m,
            0 <= n,
    ;
}

/// Cell `q` of a row-major matrix of width `n` lies in row `q / n` and
/// column `q % n`.
pub proof fn lemma_row_col(q: int, n: int, m: int)
    requires
        0 <= q < m * n,
        0 < n,
    ensures
        q == (q / n) * n + q % n,
        0 <= q % n < n,
        0 <= q / n < m,
{
    lemma_fundamental_div_mod(q, n);
    assert(n * (q / n) == (q / n) * n) by (nonlinear_arith);
    assert(0 <= q / n < m) by (nonlinear_arith)
        requires
            q == (q / n) * n + q % n,
            0 <= q % n < n,
            0 <= q < m * n,
            0 < n,
    ;
}

} // verus!
