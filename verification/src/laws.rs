use vstd::prelude::*;
use crate::model::{adaptive, dot, is_power_of_two, lemma_cell, lemma_row_col, product, required};
use crate::scalar::Scalar;
use crate::threshold::{clamp_spec, MAX_THRESHOLD, MIN_THRESHOLD};

verus! {

/// The row-major `n`-by-`n` identity matrix of 64-bit integers.
pub open spec fn identity(n: int) -> Seq<i64> {
    Seq::new(
        (n * n) as nat,
        |q: int|
            if q / n == q % n {
                1i64
            } else {
                0i64
            },
    )
}

/// A stored cutover size always lies within the two bounds, and a value
/// within them is stored as it is.
pub proof fn lemma_clamp(value: int)
    ensures
        MIN_THRESHOLD <= clamp_spec(value) <= MAX_THRESHOLD,
        MIN_THRESHOLD <= value <= MAX_THRESHOLD ==> clamp_spec(value) == value,
        value < MIN_THRESHOLD ==> clamp_spec(value) == MIN_THRESHOLD,
        value > MAX_THRESHOLD ==> clamp_spec(value) == MAX_THRESHOLD,
        clamp_spec(clamp_spec(value)) == clamp_spec(value),
{
}

/// For a size that is no power of two, and for one at or below the cutover
/// size, the size-adaptive entry point computes what `multiply` computes.
pub proof fn lemma_fallback<T: Scalar>(a: Seq<T>, b: Seq<T>, n: nat, t: nat)
    requires
        !is_power_of_two(n as int) || n <= t,
    ensures
        adaptive(a, b, n, t) == product(a, b, n as int),
{
}

/// At or below the cutover size the recursion takes no scratch cell; above
/// it, seventeen buffers of a quarter of the matrix each, and what the
/// recursion takes at half the size.
pub proof fn lemma_required(n: nat, t: nat)
    ensures
        n <= t ==> required(n, t) == 0,
        n > t ==> required(n, t) == 17 * ((n / 2) * (n / 2)) + required(n / 2, t),
        n > t ==> required(n, t) >= required(n / 2, t),
{
    if n > t {
        assert(17 * ((n / 2) * (n / 2)) >= 0) by (nonlinear_arith);
    }
}

/// Zero and one are neutral for wrapping addition and multiplication, and
/// zero absorbs in multiplication.
pub proof fn lemma_units(x: i64)
    ensures
        x.plus_spec(0i64) == x,
        0i64.plus_spec(x) == x,
        x.times_spec(1i64) == x,
        1i64.times_spec(x) == x,
        x.times_spec(0i64) == 0i64,
        0i64.times_spec(x) == 0i64,
{
    assert(x * 1 == x && 1 * x == x && x * 0 == 0 && 0 * x == 0) by (nonlinear_arith);
}

/// The running sum for cell `(i, j)` of a matrix times the identity is zero
/// until the walk has passed column `j` of row `i`, and that cell after.
pub proof fn lemma_dot_identity_right(a: Seq<i64>, n: int, i: int, j: int, k: int)
    requires
        0 <= i < n,
        0 <= j < n,
        0 <= k <= n,
        a.len() == n * n,
    ensures
        dot(a, identity(n), n, i, j, k) == if k > j {
            a[i * n + j]
        } else {
            0i64
        },
    decreases k,
{
    if k > 0 {
        lemma_dot_identity_right(a, n, i, j, k - 1);
        lemma_cell(k - 1, j, n, n);
        lemma_cell(i, k - 1, n, n);
        let before = dot(a, identity(n), n, i, j, k - 1);
        let left = a[i * n + (k - 1)];
        let right = identity(n)[(k - 1) * n + j];
        lemma_units(left);
        lemma_units(before);
        assert(dot(a, identity(n), n, i, j, k) == before.plus_spec(left.times_spec(right)));
    }
}

/// The running sum for cell `(i, j)` of the identity times a matrix is zero
/// until the walk has passed row `i` of column `j`, and that cell after.
pub proof fn lemma_dot_identity_left(a: Seq<i64>, n: int, i: int, j: int, k: int)
    requires
        0 <= i < n,
        0 <= j < n,
        0 <= k <= n,
        a.len() == n * n,
    ensures
        dot(identity(n), a, n, i, j, k) == if k > i {
            a[i * n + j]
        } else {
            0i64
        },
    decreases k,
{
    if k > 0 {
        lemma_dot_identity_left(a, n, i, j, k - 1);
        lemma_cell(k - 1, j, n, n);
        lemma_cell(i, k - 1, n, n);
        let before = dot(identity(n), a, n, i, j, k - 1);
        let left = identity(n)[i * n + (k - 1)];
        let right = a[(k - 1) * n + j];
        lemma_units(right);
        lemma_units(before);
        assert(dot(identity(n), a, n, i, j, k) == before.plus_spec(left.times_spec(right)));
    }
}

/// A matrix of 64-bit integers times the identity is the matrix itself.
pub proof fn lemma_identity_right(a: Seq<i64>, n: int)
    requires
        0 <= n,
        a.len() == n * n,
    ensures
        product(a, identity(n), n) == a,
{
    assert forall|q: int| 0 <= q < n * n implies product(a, identity(n), n)[q] == a[q] by {
        lemma_row_col(q, n, n);
        lemma_dot_identity_right(a, n, q / n, q % n, n);
    }
    assert(product(a, identity(n), n) =~= a);
}

/// The identity times a matrix of 64-bit integers is the matrix itself.
pub proof fn lemma_identity_left(a: Seq<i64>, n: int)
    requires
        0 <= n,
        a.len() == n * n,
    ensures
        product(identity(n), a, n) == a,
{
    assert forall|q: int| 0 <= q < n * n implies product(identity(n), a, n)[q] == a[q] by {
        lemma_row_col(q, n, n);
        lemma_dot_identity_left(a, n, q / n, q % n, n);
    }
    assert(product(identity(n), a, n) =~= a);
}

} // verus!
