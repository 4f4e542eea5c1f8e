use vstd::prelude::*;
use crate::model::{dot, lemma_cell, lemma_row, lemma_row_col, product};
use crate::scalar::Scalar;

verus! {

/// The largest size that `multiply` hands to the direct triple loop.
pub const BLOCK_THRESHOLD: usize = 512;

/// The edge of the cube blocks that `multiply_blocked` tiles the loops into.
pub const BLOCK_SIZE: usize = 32;

/// Multiplies two row-major `n`-by-`n` matrices by the direct triple loop:
/// rows of the output outermost, then the inner index, then the columns.
pub fn multiply_naive<T: Scalar>(a: &[T], b: &[T], c: &mut Vec<T>, n: usize)
    requires
        a@.len() == n * n,
        b@.len() == n * n,
        old(c)@.len() == n * n,
    ensures
        final(c)@ == product(a@, b@, n as int),
{
    let total = c.len();
    let mut i: usize = 0;
    while i < n
        invariant
            i <= n,
            total == n * n,
            a@.len() == n * n,
            b@.len() == n * n,
            c@.len() == n * n,
            forall|q: int|
                0 <= q < i * n ==> #[trigger] c@[q] == dot(
                    a@,
                    b@,
                    n as int,
                    q / (n as int),
                    q % (n as int),
                    n as int,
                ),
        decreases n - i,
    {
        proof {
            lemma_row(i as int, n as int, n as int);
        }
        let row = i * n;
        let mut j: usize = 0;
        while j < n
            invariant
                i < n,
                j <= n,
                row == i * n,
                row + n <= n * n,
                total == n * n,
                c@.len() == n * n,
                forall|q: int|
                    0 <= q < row ==> #[trigger] c@[q] == dot(
                        a@,
                        b@,
                        n as int,
                        q / (n as int),
                        q % (n as int),
                        n as int,
                    ),
                forall|q: int| row <= q < row + j ==> #[trigger] c@[q] == T::zero_spec(),
            decreases n - j,
        {
            c[row + j] = T::zero();
            j = j + 1;
        }
        let mut l: usize = 0;
        while l < n
            invariant
                i < n,
                l <= n,
                row == i * n,
                row + n <= n * n,
                total == n * n,
                a@.len() == n * n,
                b@.len() == n * n,
                c@.len() == n * n,
                forall|q: int|
                    0 <= q < row ==> #[trigger] c@[q] == dot(
                        a@,
                        b@,
                        n as int,
                        q / (n as int),
                        q % (n as int),
                        n as int,
                    ),
                forall|q: int|
                    row <= q < row + n ==> #[trigger] c@[q] == dot(
                        a@,
                        b@,
                        n as int,
                        i as int,
                        q - row,
                        l as int,
                    ),
            decreases n - l,
        {
            proof {
                lemma_row(l as int, n as int, n as int);
            }
            let left = a[row + l];
            let across = l * n;
            let mut j: usize = 0;
            while j < n
                invariant
                    i < n,
                    l < n,
                    j <= n,
                    row == i * n,
                    row + n <= n * n,
                    across == l * n,
                    across + n <= n * n,
                    left == a@[i * n + l],
                    total == n * n,
                    a@.len() == n * n,
                    b@.len() == n * n,
                    c@.len() == n * n,
                    forall|q: int|
                        0 <= q < row ==> #[trigger] c@[q] == dot(
                            a@,
                            b@,
                            n as int,
                            q / (n as int),
                            q % (n as int),
                            n as int,
                        ),
                    forall|q: int|
                        row <= q < row + j ==> #[trigger] c@[q] == dot(
                            a@,
                            b@,
                            n as int,
                            i as int,
                            q - row,
                            l + 1,
                        ),
                    forall|q: int|
                        row + j <= q < row + n ==> #[trigger] c@[q] == dot(
                            a@,
                            b@,
                            n as int,
                            i as int,
                            q - row,
                            l as int,
                        ),
                decreases n - j,
            {
                let right = b[across + j];
                let so_far = c[row + j];
                c[row + j] = so_far.plus(left.times(right));
                j = j + 1;
            }
            l = l + 1;
        }
        proof {
            assert forall|q: int| row <= q < row + n implies #[trigger] c@[q] == dot(
                a@,
                b@,
                n as int,
                q / (n as int),
                q % (n as int),
                n as int,
            ) by {
                lemma_cell(i as int, q - row, n as int, n as int);
            }
        }
        i = i + 1;
    }
    proof {
        assert(c@ =~= product(a@, b@, n as int));
    }
}

/// The number of terms that cell `(r, s)` has summed while the blocked
/// loops stand at row block `[ii, ie)`, inner block `[kk, ke)`, column block
/// `[jj, je)`, row `i`, inner index `k` and column `j`.
pub open spec fn terms(
    n: int,
    ii: int,
    ie: int,
    kk: int,
    ke: int,
    jj: int,
    je: int,
    i: int,
    k: int,
    j: int,
    r: int,
    s: int,
) -> int {
    if r < ii {
        n
    } else if r >= ie {
        0
    } else if s < jj {
        ke
    } else if s >= je {
        kk
    } else if r < i {
        ke
    } else if r > i {
        kk
    } else if s < j {
        k + 1
    } else {
        k
    }
}

/// Every cell of `c` holds the running sum of as many terms as the blocked
/// loops have added to it at the given stand.
pub open spec fn partial<T: Scalar>(
    c: Seq<T>,
    a: Seq<T>,
    b: Seq<T>,
    n: int,
    ii: int,
    ie: int,
    kk: int,
    ke: int,
    jj: int,
    je: int,
    i: int,
    k: int,
    j: int,
) -> bool {
    &&& c.len() == n * n
    &&& forall|q: int|
        0 <= q < n * n ==> #[trigger] c[q] == dot(
            a,
            b,
            n,
            q / n,
            q % n,
            terms(n, ii, ie, kk, ke, jj, je, i, k, j, q / n, q % n),
        )
}

/// Two stands of the blocked loops at which every cell has summed the same
/// number of terms describe the same output.
pub proof fn lemma_same_stand<T: Scalar>(
    c: Seq<T>,
    a: Seq<T>,
    b: Seq<T>,
    n: int,
    x: (int, int, int, int, int, int, int, int, int),
    y: (int, int, int, int, int, int, int, int, int),
)
    requires
        0 < n,
        partial(c, a, b, n, x.0, x.1, x.2, x.3, x.4, x.5, x.6, x.7, x.8),
        forall|r: int, s: int|
            0 <= r < n && 0 <= s < n ==> #[trigger] terms(
                n,
                x.0,
                x.1,
                x.2,
                x.3,
                x.4,
                x.5,
                x.6,
                x.7,
                x.8,
                r,
                s,
            ) == terms(n, y.0, y.1, y.2, y.3, y.4, y.5, y.6, y.7, y.8, r, s),
    ensures
        partial(c, a, b, n, y.0, y.1, y.2, y.3, y.4, y.5, y.6, y.7, y.8),
{
    assert forall|q: int| 0 <= q < n * n implies #[trigger] c[q] == dot(
        a,
        b,
        n,
        q / n,
        q % n,
        terms(n, y.0, y.1, y.2, y.3, y.4, y.5, y.6, y.7, y.8, q / n, q % n),
    ) by {
        lemma_row_col(q, n, n);
        assert(terms(n, x.0, x.1, x.2, x.3, x.4, x.5, x.6, x.7, x.8, q / n, q % n) == terms(
            n,
            y.0,
            y.1,
            y.2,
            y.3,
            y.4,
            y.5,
            y.6,
            y.7,
            y.8,
            q / n,
            q % n,
        ));
    }
}

/// Adding term `k` to cell `(i, j)` moves the stand one column on.
pub proof fn lemma_next_column<T: Scalar>(
    c: Seq<T>,
    a: Seq<T>,
    b: Seq<T>,
    n: int,
    x: (int, int, int, int, int, int, int, int, int),
)
    requires
        0 < n,
        partial(c, a, b, n, x.0, x.1, x.2, x.3, x.4, x.5, x.6, x.7, x.8),
        0 <= x.0 <= x.6 < x.1 <= n,
        0 <= x.2 <= x.7 < x.3 <= n,
        0 <= x.4 <= x.8 < x.5 <= n,
    ensures
        0 <= x.6 * n + x.8 < n * n,
        partial(
            c.update(
                x.6 * n + x.8,
                c[x.6 * n + x.8].plus_spec(a[x.6 * n + x.7].times_spec(b[x.7 * n + x.8])),
            ),
            a,
            b,
            n,
            x.0,
            x.1,
            x.2,
            x.3,
            x.4,
            x.5,
            x.6,
            x.7,
            x.8 + 1,
        ),
{
    let at = x.6 * n + x.8;
    lemma_cell(x.6, x.8, n, n);
    let value = c[at].plus_spec(a[x.6 * n + x.7].times_spec(b[x.7 * n + x.8]));
    let after = c.update(at, value);
    assert forall|q: int| 0 <= q < n * n implies #[trigger] after[q] == dot(
        a,
        b,
        n,
        q / n,
        q % n,
        terms(n, x.0, x.1, x.2, x.3, x.4, x.5, x.6, x.7, x.8 + 1, q / n, q % n),
    ) by {
        lemma_row_col(q, n, n);
        if q != at {
            assert(after[q] == c[q]);
        }
    }
}

/// Multiplies two row-major `n`-by-`n` matrices with the three loops tiled
/// into cube blocks of edge `tile`, the blocks walked rows first, then the
/// inner index, then the columns. The output is zero-filled first, since
/// each cell gathers its sum over several inner blocks.
pub fn multiply_tiled<T: Scalar>(a: &[T], b: &[T], c: &mut Vec<T>, n: usize, tile: usize)
    requires
        1 <= tile,
        a@.len() == n * n,
        b@.len() == n * n,
        old(c)@.len() == n * n,
    ensures
        final(c)@ == product(a@, b@, n as int),
{
    let total = c.len();
    if n == 0 {
        proof {
            assert(c@ =~= product(a@, b@, n as int));
        }
        return;
    }
    let mut q: usize = 0;
    while q < total
        invariant
            q <= total,
            c@.len() == total,
            forall|p: int| 0 <= p < q ==> #[trigger] c@[p] == T::zero_spec(),
        decreases total - q,
    {
        c[q] = T::zero();
        q = q + 1;
    }
    let ghost m = n as int;
    let mut ii: usize = 0;
    while ii < n
        invariant
            0 < n,
            m == n,
            1 <= tile,
            ii <= n,
            total == n * n,
            a@.len() == n * n,
            b@.len() == n * n,
            partial(c@, a@, b@, m, ii as int, ii as int, 0, 0, 0, 0, 0, 0, 0),
        decreases n - ii,
    {
        let ie = if n - ii <= tile {
            n
        } else {
            ii + tile
        };
        proof {
            lemma_same_stand(
                c@,
                a@,
                b@,
                m,
                (ii as int, ii as int, 0, 0, 0, 0, 0, 0, 0),
                (ii as int, ie as int, 0, 0, 0, 0, 0, 0, 0),
            );
        }
        let mut kk: usize = 0;
        while kk < n
            invariant
                0 < n,
                m == n,
                1 <= tile,
                ii < ie <= n,
                kk <= n,
                total == n * n,
                a@.len() == n * n,
                b@.len() == n * n,
                partial(c@, a@, b@, m, ii as int, ie as int, kk as int, kk as int, 0, 0, 0, 0, 0),
            decreases n - kk,
        {
            let ke = if n - kk <= tile {
                n
            } else {
                kk + tile
            };
            proof {
                lemma_same_stand(
                    c@,
                    a@,
                    b@,
                    m,
                    (ii as int, ie as int, kk as int, kk as int, 0, 0, 0, 0, 0),
                    (ii as int, ie as int, kk as int, ke as int, 0, 0, 0, 0, 0),
                );
            }
            let mut jj: usize = 0;
            while jj < n
                invariant
                    0 < n,
                    m == n,
                    1 <= tile,
                    ii < ie <= n,
                    kk < ke <= n,
                    jj <= n,
                    total == n * n,
                    a@.len() == n * n,
                    b@.len() == n * n,
                    partial(
                        c@,
                        a@,
                        b@,
                        m,
                        ii as int,
                        ie as int,
                        kk as int,
                        ke as int,
                        jj as int,
                        jj as int,
                        0,
                        0,
                        0,
                    ),
                decreases n - jj,
            {
                let je = if n - jj <= tile {
                    n
                } else {
                    jj + tile
                };
                proof {
                    lemma_same_stand(
                        c@,
                        a@,
                        b@,
                        m,
                        (ii as int, ie as int, kk as int, ke as int, jj as int, jj as int, 0, 0, 0),
                        (
                            ii as int,
                            ie as int,
                            kk as int,
                            ke as int,
                            jj as int,
                            je as int,
                            ii as int,
                            kk as int,
                            jj as int,
                        ),
                    );
                }
                let mut i: usize = ii;
                while i < ie
                    invariant
                        0 < n,
                        m == n,
                        ii <= i <= ie <= n,
                        kk < ke <= n,
                        jj < je <= n,
                        total == n * n,
                        a@.len() == n * n,
                        b@.len() == n * n,
                        partial(
                            c@,
                            a@,
                            b@,
                            m,
                            ii as int,
                            ie as int,
                            kk as int,
                            ke as int,
                            jj as int,
                            je as int,
                            i as int,
                            kk as int,
                            jj as int,
                        ),
                    decreases ie - i,
                {
                    proof {
                        lemma_row(i as int, m, m);
                    }
                    let row = i * n;
                    let mut k: usize = kk;
                    while k < ke
                        invariant
                            0 < n,
                            m == n,
                            ii <= i < ie <= n,
                            kk <= k <= ke <= n,
                            jj < je <= n,
                            row == i * n,
                            row + n <= n * n,
                            total == n * n,
                            a@.len() == n * n,
                            b@.len() == n * n,
                            partial(
                                c@,
                                a@,
                                b@,
                                m,
                                ii as int,
                                ie as int,
                                kk as int,
                                ke as int,
                                jj as int,
                                je as int,
                                i as int,
                                k as int,
                                jj as int,
                            ),
                        decreases ke - k,
                    {
                        proof {
                            lemma_row(k as int, m, m);
                        }
                        let left = a[row + k];
                        let across = k * n;
                        let mut j: usize = jj;
                        while j < je
                            invariant
                                0 < n,
                                m == n,
                                ii <= i < ie <= n,
                                kk <= k < ke <= n,
                                jj <= j <= je <= n,
                                row == i * n,
                                row + n <= n * n,
                                across == k * n,
                                across + n <= n * n,
                                left == a@[i * n + k],
                                total == n * n,
                                a@.len() == n * n,
                                b@.len() == n * n,
                                partial(
                                    c@,
                                    a@,
                                    b@,
                                    m,
                                    ii as int,
                                    ie as int,
                                    kk as int,
                                    ke as int,
                                    jj as int,
                                    je as int,
                                    i as int,
                                    k as int,
                                    j as int,
                                ),
                            decreases je - j,
                        {
                            proof {
                                lemma_next_column(
                                    c@,
                                    a@,
                                    b@,
                                    m,
                                    (
                                        ii as int,
                                        ie as int,
                                        kk as int,
                                        ke as int,
                                        jj as int,
                                        je as int,
                                        i as int,
                                        k as int,
                                        j as int,
                                    ),
                                );
                            }
                            let right = b[across + j];
                            let so_far = c[row + j];
                            c[row + j] = so_far.plus(left.times(right));
                            j = j + 1;
                        }
                        proof {
                            lemma_same_stand(
                                c@,
                                a@,
                                b@,
                                m,
                                (
                                    ii as int,
                                    ie as int,
                                    kk as int,
                                    ke as int,
                                    jj as int,
                                    je as int,
                                    i as int,
                                    k as int,
                                    je as int,
                                ),
                                (
                                    ii as int,
                                    ie as int,
                                    kk as int,
                                    ke as int,
                                    jj as int,
                                    je as int,
                                    i as int,
                                    k + 1,
                                    jj as int,
                                ),
                            );
                        }
                        k = k + 1;
                    }
                    proof {
                        lemma_same_stand(
                            c@,
                            a@,
                            b@,
                            m,
                            (
                                ii as int,
                                ie as int,
                                kk as int,
                                ke as int,
                                jj as int,
                                je as int,
                                i as int,
                                ke as int,
                                jj as int,
                            ),
                            (
                                ii as int,
                                ie as int,
                                kk as int,
                                ke as int,
                                jj as int,
                                je as int,
                                i + 1,
                                kk as int,
                                jj as int,
                            ),
                        );
                    }
                    i = i + 1;
                }
                proof {
                    lemma_same_stand(
                        c@,
                        a@,
                        b@,
                        m,
                        (
                            ii as int,
                            ie as int,
                            kk as int,
                            ke as int,
                            jj as int,
                            je as int,
                            ie as int,
                            kk as int,
                            jj as int,
                        ),
                        (ii as int, ie as int, kk as int, ke as int, je as int, je as int, 0, 0, 0),
                    );
                }
                jj = je;
            }
            proof {
                lemma_same_stand(
                    c@,
                    a@,
                    b@,
                    m,
                    (ii as int, ie as int, kk as int, ke as int, n as int, n as int, 0, 0, 0),
                    (ii as int, ie as int, ke as int, ke as int, 0, 0, 0, 0, 0),
                );
            }
            kk = ke;
        }
        proof {
            lemma_same_stand(
                c@,
                a@,
                b@,
                m,
                (ii as int, ie as int, n as int, n as int, 0, 0, 0, 0, 0),
                (ie as int, ie as int, 0, 0, 0, 0, 0, 0, 0),
            );
        }
        ii = ie;
    }
    proof {
        assert forall|q: int| 0 <= q < n * n implies #[trigger] c@[q] == product(
            a@,
            b@,
            n as int,
        )[q] by {
            lemma_row_col(q, m, m);
        }
        assert(c@ =~= product(a@, b@, n as int));
    }
}

/// Multiplies two row-major `n`-by-`n` matrices in cube blocks of edge
/// `BLOCK_SIZE`. Each cell sums its terms in the order of the inner index,
/// as the direct loop does.
pub fn multiply_blocked<T: Scalar>(a: &[T], b: &[T], c: &mut Vec<T>, n: usize)
    requires
        a@.len() == n * n,
        b@.len() == n * n,
        old(c)@.len() == n * n,
    ensures
        final(c)@ == product(a@, b@, n as int),
{
    multiply_tiled(a, b, c, n, BLOCK_SIZE);
}

/// Multiplies two row-major `n`-by-`n` matrices: by the direct loop up to
/// `BLOCK_THRESHOLD`, in blocks above it. For `n == 0` the output is left
/// as it is.
pub fn multiply<T: Scalar>(a: &[T], b: &[T], c: &mut Vec<T>, n: usize)
    requires
        a@.len() == n * n,
        b@.len() == n * n,
        old(c)@.len() == n * n,
    ensures
        final(c)@ == product(a@, b@, n as int),
        n == 0 ==> final(c)@ == old(c)@,
{
    if n == 0 {
        proof {
            assert(c@ =~= product(a@, b@, n as int));
        }
        return;
    }
    if n <= BLOCK_THRESHOLD {
        multiply_naive(a, b, c, n);
    } else {
        multiply_blocked(a, b, c, n);
    }
}

} // verus!
