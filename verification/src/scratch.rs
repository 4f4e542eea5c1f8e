use vstd::prelude::*;
use crate::arena::{Arena, Region};
use crate::model::{difference, dot, lemma_cell, lemma_row, lemma_row_col, product, quadrant, sum, with_quadrant};
use crate::scalar::Scalar;

verus! {

/// Writes the cell-by-cell sum of the regions `x` and `y` into `dst`.
pub fn add_into<T: Scalar>(arena: &mut Arena<T>, dst: Region, x: Region, y: Region)
    requires
        old(arena).wf(),
        x.len == dst.len,
        y.len == dst.len,
        dst.end() <= old(arena).capacity(),
        x.end() <= old(arena).capacity(),
        y.end() <= old(arena).capacity(),
        dst.disjoint(x),
        dst.disjoint(y),
    ensures
        final(arena).slice(dst) == sum(old(arena).slice(x), old(arena).slice(y)),
        old(arena).same_outside(final(arena), dst),
{
    let mut q: usize = 0;
    while q < dst.len
        invariant
            q <= dst.len,
            arena.wf(),
            x.len == dst.len,
            y.len == dst.len,
            dst.end() <= arena.capacity(),
            x.end() <= arena.capacity(),
            y.end() <= arena.capacity(),
            dst.disjoint(x),
            dst.disjoint(y),
            arena.used() == old(arena).used(),
            arena.peak() == old(arena).peak(),
            arena@.len() == old(arena)@.len(),
            forall|k: int|
                0 <= k < arena@.len() && !dst.contains(k) ==> #[trigger] arena@[k] == old(arena)@[k],
            forall|k: int|
                dst.start <= k < dst.start + q ==> #[trigger] arena@[k] == old(arena)@[k
                    - dst.start + x.start].plus_spec(old(arena)@[k - dst.start + y.start]),
        decreases dst.len - q,
    {
        let value = arena.get(x.start + q).plus(arena.get(y.start + q));
        arena.set(dst.start + q, value);
        q = q + 1;
    }
    proof {
        old(arena).lemma_same_outside(arena, dst);
        assert(arena.slice(dst) =~= sum(old(arena).slice(x), old(arena).slice(y)));
    }
}

/// Writes the cell-by-cell difference of the regions `x` and `y` into `dst`.
pub fn sub_into<T: Scalar>(arena: &mut Arena<T>, dst: Region, x: Region, y: Region)
    requires
        old(arena).wf(),
        x.len == dst.len,
        y.len == dst.len,
        dst.end() <= old(arena).capacity(),
        x.end() <= old(arena).capacity(),
        y.end() <= old(arena).capacity(),
        dst.disjoint(x),
        dst.disjoint(y),
    ensures
        final(arena).slice(dst) == difference(old(arena).slice(x), old(arena).slice(y)),
        old(arena).same_outside(final(arena), dst),
{
    let mut q: usize = 0;
    while q < dst.len
        invariant
            q <= dst.len,
            arena.wf(),
            x.len == dst.len,
            y.len == dst.len,
            dst.end() <= arena.capacity(),
            x.end() <= arena.capacity(),
            y.end() <= arena.capacity(),
            dst.disjoint(x),
            dst.disjoint(y),
            arena.used() == old(arena).used(),
            arena.peak() == old(arena).peak(),
            arena@.len() == old(arena)@.len(),
            forall|k: int|
                0 <= k < arena@.len() && !dst.contains(k) ==> #[trigger] arena@[k] == old(arena)@[k],
            forall|k: int|
                dst.start <= k < dst.start + q ==> #[trigger] arena@[k] == old(arena)@[k
                    - dst.start + x.start].minus_spec(old(arena)@[k - dst.start + y.start]),
        decreases dst.len - q,
    {
        let value = arena.get(x.start + q).minus(arena.get(y.start + q));
        arena.set(dst.start + q, value);
        q = q + 1;
    }
    proof {
        old(arena).lemma_same_outside(arena, dst);
        assert(arena.slice(dst) =~= difference(old(arena).slice(x), old(arena).slice(y)));
    }
}

/// The first row of the second half of a matrix of `2 * h` rows if `q` is
/// 1, the first row of all if `q` is 0.
fn half_offset(q: usize, h: usize) -> (o: usize)
    requires
        q <= 1,
    ensures
        o == q * h,
        o <= h,
{
    if q == 1 {
        h
    } else {
        0
    }
}

/// Packs quadrant `(qi, qj)` of the `n`-by-`n` matrix in the region `src`
/// into the region `dst`, row by row.
pub fn copy_quadrant<T: Scalar>(
    arena: &mut Arena<T>,
    dst: Region,
    src: Region,
    n: usize,
    qi: usize,
    qj: usize,
)
    requires
        old(arena).wf(),
        n % 2 == 0,
        qi <= 1,
        qj <= 1,
        src.len == n * n,
        dst.len == (n / 2) * (n / 2),
        src.end() <= old(arena).capacity(),
        dst.end() <= old(arena).capacity(),
        dst.disjoint(src),
    ensures
        final(arena).slice(dst) == quadrant(old(arena).slice(src), n as int, qi as int, qj as int),
        old(arena).same_outside(final(arena), dst),
{
    let h = n / 2;
    let oi = half_offset(qi, h);
    let oj = half_offset(qj, h);
    let mut i: usize = 0;
    while i < h
        invariant
            i <= h,
            h == n / 2,
            n == 2 * h,
            oi == qi * h,
            oj == qj * h,
            oi <= h,
            oj <= h,
            arena.wf(),
            src.len == n * n,
            dst.len == h * h,
            src.end() <= arena.capacity(),
            dst.end() <= arena.capacity(),
            dst.disjoint(src),
            arena.used() == old(arena).used(),
            arena.peak() == old(arena).peak(),
            arena@.len() == old(arena)@.len(),
            forall|k: int|
                0 <= k < arena@.len() && !dst.contains(k) ==> #[trigger] arena@[k] == old(arena)@[k],
            forall|k: int|
                dst.start <= k < dst.start + i * h ==> #[trigger] arena@[k] == old(arena)@[src.start
                    + ((k - dst.start) / (h as int) + oi) * n + ((k - dst.start) % (h as int) + oj)],
        decreases h - i,
    {
        proof {
            lemma_cell(i as int, 0, h as int, h as int);
        }
        let row = i * h;
        let mut j: usize = 0;
        while j < h
            invariant
                i < h,
                j <= h,
                row == i * h,
                h == n / 2,
                n == 2 * h,
                oi == qi * h,
                oj == qj * h,
                oi <= h,
                oj <= h,
                arena.wf(),
                src.len == n * n,
                dst.len == h * h,
                src.end() <= arena.capacity(),
                dst.end() <= arena.capacity(),
                dst.disjoint(src),
                arena.used() == old(arena).used(),
                arena.peak() == old(arena).peak(),
                arena@.len() == old(arena)@.len(),
                forall|k: int|
                    0 <= k < arena@.len() && !dst.contains(k) ==> #[trigger] arena@[k] == old(
                        arena,
                    )@[k],
                forall|k: int|
                    dst.start <= k < dst.start + row + j ==> #[trigger] arena@[k] == old(
                        arena,
                    )@[src.start + ((k - dst.start) / (h as int) + oi) * n + ((k - dst.start) % (
                    h as int) + oj)],
            decreases h - j,
        {
            proof {
                lemma_cell(i as int, j as int, h as int, h as int);
                lemma_cell(i + oi, j + oj, n as int, n as int);
            }
            let from = (i + oi) * n + (j + oj);
            let value = arena.get(src.start + from);
            arena.set(dst.start + (row + j), value);
            j = j + 1;
        }
        proof {
            assert((i + 1) * h == i * h + h) by (nonlinear_arith);
        }
        i = i + 1;
    }
    proof {
        old(arena).lemma_same_outside(arena, dst);
        let packed = quadrant(old(arena).slice(src), n as int, qi as int, qj as int);
        assert forall|p: int| 0 <= p < h * h implies arena.slice(dst)[p] == packed[p] by {
            lemma_row_col(p, h as int, h as int);
            lemma_cell(p / (h as int) + oi, p % (h as int) + oj, n as int, n as int);
        }
        assert(arena.slice(dst) =~= packed);
    }
}

/// Packs quadrant `(qi, qj)` of the `n`-by-`n` matrix `src` into the region
/// `dst`, row by row.
pub fn load_quadrant<T: Scalar>(
    arena: &mut Arena<T>,
    dst: Region,
    src: &[T],
    n: usize,
    qi: usize,
    qj: usize,
)
    requires
        old(arena).wf(),
        n % 2 == 0,
        qi <= 1,
        qj <= 1,
        src@.len() == n * n,
        dst.len == (n / 2) * (n / 2),
        dst.end() <= old(arena).capacity(),
    ensures
        final(arena).slice(dst) == quadrant(src@, n as int, qi as int, qj as int),
        old(arena).same_outside(final(arena), dst),
{
    let total = src.len();
    let h = n / 2;
    let oi = half_offset(qi, h);
    let oj = half_offset(qj, h);
    let mut i: usize = 0;
    while i < h
        invariant
            i <= h,
            h == n / 2,
            n == 2 * h,
            oi == qi * h,
            oj == qj * h,
            oi <= h,
            oj <= h,
            arena.wf(),
            src@.len() == n * n,
            total == n * n,
            dst.len == h * h,
            dst.end() <= arena.capacity(),
            arena.used() == old(arena).used(),
            arena.peak() == old(arena).peak(),
            arena@.len() == old(arena)@.len(),
            forall|k: int|
                0 <= k < arena@.len() && !dst.contains(k) ==> #[trigger] arena@[k] == old(arena)@[k],
            forall|k: int|
                dst.start <= k < dst.start + i * h ==> #[trigger] arena@[k] == src@[((k
                    - dst.start) / (h as int) + oi) * n + ((k - dst.start) % (h as int) + oj)],
        decreases h - i,
    {
        proof {
            lemma_cell(i as int, 0, h as int, h as int);
        }
        let row = i * h;
        let mut j: usize = 0;
        while j < h
            invariant
                i < h,
                j <= h,
                row == i * h,
                h == n / 2,
                n == 2 * h,
                oi == qi * h,
                oj == qj * h,
                oi <= h,
                oj <= h,
                arena.wf(),
                src@.len() == n * n,
                total == n * n,
            total == n * n,
                dst.len == h * h,
                dst.end() <= arena.capacity(),
                arena.used() == old(arena).used(),
                arena.peak() == old(arena).peak(),
                arena@.len() == old(arena)@.len(),
                forall|k: int|
                    0 <= k < arena@.len() && !dst.contains(k) ==> #[trigger] arena@[k] == old(
                        arena,
                    )@[k],
                forall|k: int|
                    dst.start <= k < dst.start + row + j ==> #[trigger] arena@[k] == src@[((k
                        - dst.start) / (h as int) + oi) * n + ((k - dst.start) % (h as int) + oj)],
            decreases h - j,
        {
            proof {
                lemma_cell(i as int, j as int, h as int, h as int);
                lemma_cell(i + oi, j + oj, n as int, n as int);
            }
            let from = (i + oi) * n + (j + oj);
            let value = src[from];
            arena.set(dst.start + (row + j), value);
            j = j + 1;
        }
        proof {
            assert((i + 1) * h == i * h + h) by (nonlinear_arith);
        }
        i = i + 1;
    }
    proof {
        old(arena).lemma_same_outside(arena, dst);
        let packed = quadrant(src@, n as int, qi as int, qj as int);
        assert forall|p: int| 0 <= p < h * h implies arena.slice(dst)[p] == packed[p] by {
            lemma_row_col(p, h as int, h as int);
            lemma_cell(p / (h as int) + oi, p % (h as int) + oj, n as int, n as int);
        }
        assert(arena.slice(dst) =~= packed);
    }
}

/// Cell `q` of an `n`-wide matrix `base` while the packed `h`-wide matrix
/// `s` is being written over the block whose first cell is `(oi, oj)`: the
/// cell of `s` once the walk has passed it, rows before `i` and row `i`
/// before column `j`, and the cell of `base` until then.
pub open spec fn placed<T>(
    base: Seq<T>,
    s: Seq<T>,
    n: int,
    h: int,
    oi: int,
    oj: int,
    i: int,
    j: int,
    q: int,
) -> T {
    let r = q / n - oi;
    let c = q % n - oj;
    if 0 <= c < h && (0 <= r < i || (r == i && c < j)) {
        s[r * h + c]
    } else {
        base[q]
    }
}

/// Writes the packed `n / 2`-wide matrix in the region `src` over quadrant
/// `(qi, qj)` of the `n`-by-`n` matrix in the region `dst`.
pub fn place_quadrant<T: Scalar>(
    arena: &mut Arena<T>,
    dst: Region,
    n: usize,
    qi: usize,
    qj: usize,
    src: Region,
)
    requires
        old(arena).wf(),
        n % 2 == 0,
        qi <= 1,
        qj <= 1,
        dst.len == n * n,
        src.len == (n / 2) * (n / 2),
        src.end() <= old(arena).capacity(),
        dst.end() <= old(arena).capacity(),
        dst.disjoint(src),
    ensures
        final(arena).slice(dst) == with_quadrant(
            old(arena).slice(dst),
            n as int,
            qi as int,
            qj as int,
            old(arena).slice(src),
        ),
        old(arena).same_outside(final(arena), dst),
{
    let h = n / 2;
    let oi = half_offset(qi, h);
    let oj = half_offset(qj, h);
    let ghost base = arena.slice(dst);
    let ghost packed = arena.slice(src);
    let mut i: usize = 0;
    while i < h
        invariant
            i <= h,
            h == n / 2,
            n == 2 * h,
            oi == qi * h,
            oj == qj * h,
            oi <= h,
            oj <= h,
            arena.wf(),
            dst.len == n * n,
            src.len == h * h,
            src.end() <= arena.capacity(),
            dst.end() <= arena.capacity(),
            dst.disjoint(src),
            base == old(arena).slice(dst),
            packed == old(arena).slice(src),
            arena.used() == old(arena).used(),
            arena.peak() == old(arena).peak(),
            arena@.len() == old(arena)@.len(),
            forall|k: int|
                0 <= k < arena@.len() && !dst.contains(k) ==> #[trigger] arena@[k] == old(arena)@[k],
            forall|k: int|
                dst.start <= k < dst.end() ==> #[trigger] arena@[k] == placed(
                    base,
                    packed,
                    n as int,
                    h as int,
                    oi as int,
                    oj as int,
                    i as int,
                    0,
                    k - dst.start,
                ),
        decreases h - i,
    {
        proof {
            lemma_cell(i as int, 0, h as int, h as int);
        }
        let row = i * h;
        let mut j: usize = 0;
        while j < h
            invariant
                i < h,
                j <= h,
                row == i * h,
                h == n / 2,
                n == 2 * h,
                oi == qi * h,
                oj == qj * h,
                oi <= h,
                oj <= h,
                arena.wf(),
                dst.len == n * n,
                src.len == h * h,
                src.end() <= arena.capacity(),
                dst.end() <= arena.capacity(),
                dst.disjoint(src),
                base == old(arena).slice(dst),
                packed == old(arena).slice(src),
                arena.used() == old(arena).used(),
                arena.peak() == old(arena).peak(),
                arena@.len() == old(arena)@.len(),
                forall|k: int|
                    0 <= k < arena@.len() && !dst.contains(k) ==> #[trigger] arena@[k] == old(
                        arena,
                    )@[k],
                forall|k: int|
                    dst.start <= k < dst.end() ==> #[trigger] arena@[k] == placed(
                        base,
                        packed,
                        n as int,
                        h as int,
                        oi as int,
                        oj as int,
                        i as int,
                        j as int,
                        k - dst.start,
                    ),
            decreases h - j,
        {
            proof {
                lemma_cell(i as int, j as int, h as int, h as int);
                lemma_cell(i + oi, j + oj, n as int, n as int);
            }
            let to = (i + oi) * n + (j + oj);
            let value = arena.get(src.start + (row + j));
            let ghost before = arena@;
            arena.set(dst.start + to, value);
            proof {
                assert forall|k: int| dst.start <= k < dst.end() implies #[trigger] arena@[k]
                    == placed(
                    base,
                    packed,
                    n as int,
                    h as int,
                    oi as int,
                    oj as int,
                    i as int,
                    j + 1,
                    k - dst.start,
                ) by {
                    lemma_row_col(k - dst.start, n as int, n as int);
                    if k != dst.start + to {
                        assert(arena@[k] == before[k]);
                    }
                }
            }
            j = j + 1;
        }
        i = i + 1;
    }
    proof {
        old(arena).lemma_same_outside(arena, dst);
        assert(arena.slice(dst) =~= with_quadrant(base, n as int, qi as int, qj as int, packed));
    }
}

/// Writes the packed `n / 2`-wide matrix in the region `src` over quadrant
/// `(qi, qj)` of the `n`-by-`n` matrix `dst`.
pub fn store_quadrant<T: Scalar>(
    arena: &Arena<T>,
    dst: &mut Vec<T>,
    n: usize,
    qi: usize,
    qj: usize,
    src: Region,
)
    requires
        arena.wf(),
        n % 2 == 0,
        qi <= 1,
        qj <= 1,
        old(dst)@.len() == n * n,
        src.len == (n / 2) * (n / 2),
        src.end() <= arena.capacity(),
    ensures
        final(dst)@ == with_quadrant(old(dst)@, n as int, qi as int, qj as int, arena.slice(src)),
{
    let total = dst.len();
    let h = n / 2;
    let oi = half_offset(qi, h);
    let oj = half_offset(qj, h);
    let ghost base = dst@;
    let ghost packed = arena.slice(src);
    let mut i: usize = 0;
    while i < h
        invariant
            i <= h,
            h == n / 2,
            n == 2 * h,
            oi == qi * h,
            oj == qj * h,
            oi <= h,
            oj <= h,
            arena.wf(),
            total == n * n,
            dst@.len() == n * n,
            src.len == h * h,
            src.end() <= arena.capacity(),
            base == old(dst)@,
            packed == arena.slice(src),
            forall|q: int|
                0 <= q < n * n ==> #[trigger] dst@[q] == placed(
                    base,
                    packed,
                    n as int,
                    h as int,
                    oi as int,
                    oj as int,
                    i as int,
                    0,
                    q,
                ),
        decreases h - i,
    {
        proof {
            lemma_cell(i as int, 0, h as int, h as int);
        }
        let row = i * h;
        let mut j: usize = 0;
        while j < h
            invariant
                i < h,
                j <= h,
                row == i * h,
                h == n / 2,
                n == 2 * h,
                oi == qi * h,
                oj == qj * h,
                oi <= h,
                oj <= h,
                arena.wf(),
                total == n * n,
                dst@.len() == n * n,
                src.len == h * h,
                src.end() <= arena.capacity(),
                base == old(dst)@,
                packed == arena.slice(src),
                forall|q: int|
                    0 <= q < n * n ==> #[trigger] dst@[q] == placed(
                        base,
                        packed,
                        n as int,
                        h as int,
                        oi as int,
                        oj as int,
                        i as int,
                        j as int,
                        q,
                    ),
            decreases h - j,
        {
            proof {
                lemma_cell(i as int, j as int, h as int, h as int);
                lemma_cell(i + oi, j + oj, n as int, n as int);
            }
            let to = (i + oi) * n + (j + oj);
            let value = arena.get(src.start + (row + j));
            let ghost before = dst@;
            dst[to] = value;
            proof {
                assert forall|q: int| 0 <= q < n * n implies #[trigger] dst@[q] == placed(
                    base,
                    packed,
                    n as int,
                    h as int,
                    oi as int,
                    oj as int,
                    i as int,
                    j + 1,
                    q,
                ) by {
                    lemma_row_col(q, n as int, n as int);
                    if q != to {
                        assert(dst@[q] == before[q]);
                    }
                }
            }
            j = j + 1;
        }
        i = i + 1;
    }
    proof {
        assert(dst@ =~= with_quadrant(base, n as int, qi as int, qj as int, packed));
    }
}

/// Multiplies the `n`-by-`n` matrices in the regions `a` and `b` into the
/// region `c` by the direct triple loop: rows of the output outermost, then
/// the inner index, then the columns.
pub fn multiply_into<T: Scalar>(arena: &mut Arena<T>, c: Region, a: Region, b: Region, n: usize)
    requires
        old(arena).wf(),
        a.len == n * n,
        b.len == n * n,
        c.len == n * n,
        a.end() <= old(arena).capacity(),
        b.end() <= old(arena).capacity(),
        c.end() <= old(arena).capacity(),
        c.disjoint(a),
        c.disjoint(b),
    ensures
        final(arena).slice(c) == product(old(arena).slice(a), old(arena).slice(b), n as int),
        old(arena).same_outside(final(arena), c),
{
    let ghost ma = arena.slice(a);
    let ghost mb = arena.slice(b);
    let mut i: usize = 0;
    while i < n
        invariant
            i <= n,
            arena.wf(),
            a.len == n * n,
            b.len == n * n,
            c.len == n * n,
            a.end() <= arena.capacity(),
            b.end() <= arena.capacity(),
            c.end() <= arena.capacity(),
            c.disjoint(a),
            c.disjoint(b),
            ma == old(arena).slice(a),
            mb == old(arena).slice(b),
            arena.used() == old(arena).used(),
            arena.peak() == old(arena).peak(),
            arena@.len() == old(arena)@.len(),
            forall|k: int|
                0 <= k < arena@.len() && !c.contains(k) ==> #[trigger] arena@[k] == old(arena)@[k],
            forall|k: int|
                c.start <= k < c.start + i * n ==> #[trigger] arena@[k] == dot(
                    ma,
                    mb,
                    n as int,
                    (k - c.start) / (n as int),
                    (k - c.start) % (n as int),
                    n as int,
                ),
        decreases n - i,
    {
        proof {
            lemma_row(i as int, n as int, n as int);
        }
        let row = i * n;
        let mut j: usize = 0;
        while j < n
            invariant
                i < n,
                j <= n,
                row == i * n,
                row + n <= n * n,
                arena.wf(),
                c.len == n * n,
                c.end() <= arena.capacity(),
                arena.used() == old(arena).used(),
                arena.peak() == old(arena).peak(),
                arena@.len() == old(arena)@.len(),
                forall|k: int|
                    0 <= k < arena@.len() && !c.contains(k) ==> #[trigger] arena@[k] == old(
                        arena,
                    )@[k],
                forall|k: int|
                    c.start <= k < c.start + row ==> #[trigger] arena@[k] == dot(
                        ma,
                        mb,
                        n as int,
                        (k - c.start) / (n as int),
                        (k - c.start) % (n as int),
                        n as int,
                    ),
                forall|k: int|
                    c.start + row <= k < c.start + row + j ==> #[trigger] arena@[k]
                        == T::zero_spec(),
            decreases n - j,
        {
            arena.set(c.start + (row + j), T::zero());
            j = j + 1;
        }
        let mut l: usize = 0;
        while l < n
            invariant
                i < n,
                l <= n,
                row == i * n,
                row + n <= n * n,
                arena.wf(),
                a.len == n * n,
                b.len == n * n,
                c.len == n * n,
                a.end() <= arena.capacity(),
                b.end() <= arena.capacity(),
                c.end() <= arena.capacity(),
                c.disjoint(a),
                c.disjoint(b),
                ma == old(arena).slice(a),
                mb == old(arena).slice(b),
                arena.used() == old(arena).used(),
                arena.peak() == old(arena).peak(),
                arena@.len() == old(arena)@.len(),
                forall|k: int|
                    0 <= k < arena@.len() && !c.contains(k) ==> #[trigger] arena@[k] == old(
                        arena,
                    )@[k],
                forall|k: int|
                    c.start <= k < c.start + row ==> #[trigger] arena@[k] == dot(
                        ma,
                        mb,
                        n as int,
                        (k - c.start) / (n as int),
                        (k - c.start) % (n as int),
                        n as int,
                    ),
                forall|k: int|
                    c.start + row <= k < c.start + row + n ==> #[trigger] arena@[k] == dot(
                        ma,
                        mb,
                        n as int,
                        i as int,
                        k - c.start - row,
                        l as int,
                    ),
            decreases n - l,
        {
            proof {
                lemma_row(l as int, n as int, n as int);
            }
            let left = arena.get(a.start + (row + l));
            let across = l * n;
            let mut j: usize = 0;
            while j < n
                invariant
                    i < n,
                    l < n,
                    j <= n,
                    row == i * n,
                    row + n <= n * n,
                    across == l * n,
                    across + n <= n * n,
                    left == ma[i * n + l],
                    arena.wf(),
                    a.len == n * n,
                    b.len == n * n,
                    c.len == n * n,
                    a.end() <= arena.capacity(),
                    b.end() <= arena.capacity(),
                    c.end() <= arena.capacity(),
                    c.disjoint(a),
                    c.disjoint(b),
                    ma == old(arena).slice(a),
                    mb == old(arena).slice(b),
                    arena.used() == old(arena).used(),
                    arena.peak() == old(arena).peak(),
                    arena@.len() == old(arena)@.len(),
                    forall|k: int|
                        0 <= k < arena@.len() && !c.contains(k) ==> #[trigger] arena@[k] == old(
                            arena,
                        )@[k],
                    forall|k: int|
                        c.start <= k < c.start + row ==> #[trigger] arena@[k] == dot(
                            ma,
                            mb,
                            n as int,
                            (k - c.start) / (n as int),
                            (k - c.start) % (n as int),
                            n as int,
                        ),
                    forall|k: int|
                        c.start + row <= k < c.start + row + j ==> #[trigger] arena@[k] == dot(
                            ma,
                            mb,
                            n as int,
                            i as int,
                            k - c.start - row,
                            l + 1,
                        ),
                    forall|k: int|
                        c.start + row + j <= k < c.start + row + n ==> #[trigger] arena@[k]
                            == dot(ma, mb, n as int, i as int, k - c.start - row, l as int),
                decreases n - j,
            {
                let right = arena.get(b.start + (across + j));
                let so_far = arena.get(c.start + (row + j));
                arena.set(c.start + (row + j), so_far.plus(left.times(right)));
                j = j + 1;
            }
            l = l + 1;
        }
        proof {
            assert forall|k: int| c.start + row <= k < c.start + row + n implies #[trigger] arena@[k]
                == dot(
                ma,
                mb,
                n as int,
                (k - c.start) / (n as int),
                (k - c.start) % (n as int),
                n as int,
            ) by {
                lemma_cell(i as int, k - c.start - row, n as int, n as int);
            }
        }
        i = i + 1;
    }
    proof {
        old(arena).lemma_same_outside(arena, c);
        assert(arena.slice(c) =~= product(ma, mb, n as int));
    }
}

} // verus!
