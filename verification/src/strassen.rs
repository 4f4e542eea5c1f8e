use vstd::prelude::*;
use crate::arena::{Arena, Region};
use crate::dense::multiply;
use crate::model::{
    adaptive, assemble, difference, is_power_of_two, lemma_row_col, quadrant, required, strassen,
    sum, with_quadrant,
};
use crate::scalar::Scalar;
use crate::scratch::{
    add_into, copy_quadrant, load_quadrant, multiply_into, place_quadrant, store_quadrant,
    sub_into,
};
use crate::threshold::Threshold;

verus! {

/// The seventeen scratch buffers of one level of the recursion: the eight
/// packed quadrants of the two operands, the seven products and two
/// temporaries for the sums and differences that the products take.
#[derive(Clone, Copy, Debug)]
pub struct Level {
    pub a11: Region,
    pub a12: Region,
    pub a21: Region,
    pub a22: Region,
    pub b11: Region,
    pub b12: Region,
    pub b21: Region,
    pub b22: Region,
    pub m1: Region,
    pub m2: Region,
    pub m3: Region,
    pub m4: Region,
    pub m5: Region,
    pub m6: Region,
    pub m7: Region,
    pub t1: Region,
    pub t2: Region,
}

impl Level {
    /// The first cell of the level.
    pub open spec fn base(&self) -> int {
        self.a11.start as int
    }

    /// The buffers lie one after another from the first cell of the level,
    /// each of `size` cells.
    pub open spec fn laid_out(&self, size: int) -> bool {
        let base = self.base();
        &&& self.a11.len == size
        &&& self.a12.start == base + size && self.a12.len == size
        &&& self.a21.start == base + 2 * size && self.a21.len == size
        &&& self.a22.start == base + 3 * size && self.a22.len == size
        &&& self.b11.start == base + 4 * size && self.b11.len == size
        &&& self.b12.start == base + 5 * size && self.b12.len == size
        &&& self.b21.start == base + 6 * size && self.b21.len == size
        &&& self.b22.start == base + 7 * size && self.b22.len == size
        &&& self.m1.start == base + 8 * size && self.m1.len == size
        &&& self.m2.start == base + 9 * size && self.m2.len == size
        &&& self.m3.start == base + 10 * size && self.m3.len == size
        &&& self.m4.start == base + 11 * size && self.m4.len == size
        &&& self.m5.start == base + 12 * size && self.m5.len == size
        &&& self.m6.start == base + 13 * size && self.m6.len == size
        &&& self.m7.start == base + 14 * size && self.m7.len == size
        &&& self.t1.start == base + 15 * size && self.t1.len == size
        &&& self.t2.start == base + 16 * size && self.t2.len == size
    }
}

/// Writing the four packed quadrants over a matrix, in any state, gives the
/// matrix assembled from them.
pub proof fn lemma_assemble<T>(
    m: Seq<T>,
    n: int,
    c11: Seq<T>,
    c12: Seq<T>,
    c21: Seq<T>,
    c22: Seq<T>,
)
    requires
        0 <= n,
        n % 2 == 0,
        m.len() == n * n,
    ensures
        with_quadrant(
            with_quadrant(with_quadrant(with_quadrant(m, n, 0, 0, c11), n, 0, 1, c12), n, 1, 0, c21),
            n,
            1,
            1,
            c22,
        ) == assemble(c11, c12, c21, c22, n / 2),
{
    let h = n / 2;
    let w1 = with_quadrant(m, n, 0, 0, c11);
    let w2 = with_quadrant(w1, n, 0, 1, c12);
    let w3 = with_quadrant(w2, n, 1, 0, c21);
    let w4 = with_quadrant(w3, n, 1, 1, c22);
    let whole = assemble(c11, c12, c21, c22, h);
    assert(2 * h == n);
    assert((2 * h) * (2 * h) == n * n);
    assert(w4.len() == whole.len());
    assert forall|q: int| 0 <= q < n * n implies w4[q] == whole[q] by {
        lemma_row_col(q, n, n);
    }
    assert(w4 =~= whole);
}

/// Whether `n` is 1, 2, 4, 8, ...
pub fn power_of_two(n: usize) -> (yes: bool)
    ensures
        yes == is_power_of_two(n as int),
{
    if n == 0 {
        return false;
    }
    let mut m: usize = n;
    while m % 2 == 0
        invariant
            1 <= m <= n,
            is_power_of_two(m as int) == is_power_of_two(n as int),
        decreases m,
    {
        m = m / 2;
    }
    assert(m > 1 ==> !is_power_of_two(m as int));
    m == 1
}

/// The number of scratch cells that the recursion takes for two `n`-by-`n`
/// matrices with cutover size `t`.
pub fn required_capacity(n: usize, t: usize) -> (cells: usize)
    requires
        required(n as nat, t as nat) <= usize::MAX,
    ensures
        cells == required(n as nat, t as nat),
    decreases n,
{
    if n <= t {
        0
    } else {
        let h = n / 2;
        assert(h * h <= 17 * (h * h)) by (nonlinear_arith);
        let below = required_capacity(h, t);
        17 * (h * h) + below
    }
}

/// The number of scratch cells that the recursion takes for two `n`-by-`n`
/// matrices with cutover size `t`, or `None` if that number is no length
/// that a buffer in memory can have.
pub fn try_required_capacity(n: usize, t: usize) -> (cells: Option<usize>)
    ensures
        match cells {
            Some(count) => count == required(n as nat, t as nat),
            None => required(n as nat, t as nat) > usize::MAX,
        },
    decreases n,
{
    if n <= t {
        return Some(0);
    }
    let h = n / 2;
    assert(h * h <= 17 * (h * h)) by (nonlinear_arith);
    let size = match h.checked_mul(h) {
        Some(size) => size,
        None => { return None; },
    };
    let level = match size.checked_mul(17) {
        Some(level) => level,
        None => { return None; },
    };
    match try_required_capacity(h, t) {
        Some(below) => level.checked_add(below),
        None => None,
    }
}

/// Moves the cursor past the seventeen buffers of one level.
pub fn allocate_level<T: Scalar>(arena: &mut Arena<T>, size: usize) -> (lv: Level)
    requires
        old(arena).wf(),
        old(arena).used() + 17 * size <= old(arena).capacity(),
    ensures
        final(arena).wf(),
        lv.base() == old(arena).used(),
        lv.laid_out(size as int),
        final(arena).used() == old(arena).used() + 17 * size,
        final(arena).peak() == if old(arena).peak() >= old(arena).used() + 17 * size {
            old(arena).peak()
        } else {
            old(arena).used() + 17 * size
        },
        final(arena)@ == old(arena)@,
        forall|s: Region| #[trigger] old(arena).slice(s) == final(arena).slice(s),
{
    let a11 = arena.allocate(size);
    let a12 = arena.allocate(size);
    let a21 = arena.allocate(size);
    let a22 = arena.allocate(size);
    let b11 = arena.allocate(size);
    let b12 = arena.allocate(size);
    let b21 = arena.allocate(size);
    let b22 = arena.allocate(size);
    let m1 = arena.allocate(size);
    let m2 = arena.allocate(size);
    let m3 = arena.allocate(size);
    let m4 = arena.allocate(size);
    let m5 = arena.allocate(size);
    let m6 = arena.allocate(size);
    let m7 = arena.allocate(size);
    let t1 = arena.allocate(size);
    let t2 = arena.allocate(size);
    Level { a11, a12, a21, a22, b11, b12, b21, b22, m1, m2, m3, m4, m5, m6, m7, t1, t2 }
}

/// Computes the seven half-size products of one level from its eight
/// packed quadrants, each by at most two sums or differences into the
/// temporaries and one recursive multiplication.
pub fn products<T: Scalar>(arena: &mut Arena<T>, lv: &Level, h: usize, t: usize)
    requires
        old(arena).wf(),
        1 <= t,
        h <= t || is_power_of_two(h as int),
        lv.laid_out(h * h),
        old(arena).used() == lv.base() + 17 * (h * h),
        old(arena).used() + required(h as nat, t as nat) <= old(arena).capacity(),
    ensures
        final(arena).wf(),
        final(arena).capacity() == old(arena).capacity(),
        final(arena).used() == old(arena).used(),
        final(arena).peak() == if old(arena).peak() >= old(arena).used() + required(
            h as nat,
            t as nat,
        ) {
            old(arena).peak()
        } else {
            old(arena).used() + required(h as nat, t as nat)
        },
        final(arena).slice(lv.m1) == strassen(
            sum(old(arena).slice(lv.a11), old(arena).slice(lv.a22)),
            sum(old(arena).slice(lv.b11), old(arena).slice(lv.b22)),
            h as nat,
            t as nat,
        ),
        final(arena).slice(lv.m2) == strassen(
            sum(old(arena).slice(lv.a21), old(arena).slice(lv.a22)),
            old(arena).slice(lv.b11),
            h as nat,
            t as nat,
        ),
        final(arena).slice(lv.m3) == strassen(
            old(arena).slice(lv.a11),
            difference(old(arena).slice(lv.b12), old(arena).slice(lv.b22)),
            h as nat,
            t as nat,
        ),
        final(arena).slice(lv.m4) == strassen(
            old(arena).slice(lv.a22),
            difference(old(arena).slice(lv.b21), old(arena).slice(lv.b11)),
            h as nat,
            t as nat,
        ),
        final(arena).slice(lv.m5) == strassen(
            sum(old(arena).slice(lv.a11), old(arena).slice(lv.a12)),
            old(arena).slice(lv.b22),
            h as nat,
            t as nat,
        ),
        final(arena).slice(lv.m6) == strassen(
            difference(old(arena).slice(lv.a21), old(arena).slice(lv.a11)),
            sum(old(arena).slice(lv.b11), old(arena).slice(lv.b12)),
            h as nat,
            t as nat,
        ),
        final(arena).slice(lv.m7) == strassen(
            difference(old(arena).slice(lv.a12), old(arena).slice(lv.a22)),
            sum(old(arena).slice(lv.b21), old(arena).slice(lv.b22)),
            h as nat,
            t as nat,
        ),
        forall|r: Region|
            #![trigger final(arena).slice(r)]
            #![trigger old(arena).slice(r)]
            r.end() <= lv.base() ==> final(arena).slice(r) == old(arena).slice(r),
    decreases h, 1nat,
{
    add_into(arena, lv.t1, lv.a11, lv.a22);
    add_into(arena, lv.t2, lv.b11, lv.b22);
    step(arena, lv.m1, lv.t1, lv.t2, h, t);

    add_into(arena, lv.t1, lv.a21, lv.a22);
    step(arena, lv.m2, lv.t1, lv.b11, h, t);

    sub_into(arena, lv.t2, lv.b12, lv.b22);
    step(arena, lv.m3, lv.a11, lv.t2, h, t);

    sub_into(arena, lv.t2, lv.b21, lv.b11);
    step(arena, lv.m4, lv.a22, lv.t2, h, t);

    add_into(arena, lv.t1, lv.a11, lv.a12);
    step(arena, lv.m5, lv.t1, lv.b22, h, t);

    sub_into(arena, lv.t1, lv.a21, lv.a11);
    add_into(arena, lv.t2, lv.b11, lv.b12);
    step(arena, lv.m6, lv.t1, lv.t2, h, t);

    sub_into(arena, lv.t1, lv.a12, lv.a22);
    add_into(arena, lv.t2, lv.b21, lv.b22);
    step(arena, lv.m7, lv.t1, lv.t2, h, t);
}

/// Quadrant `(qi, qj)` of the result, recombined from the seven products.
pub open spec fn recombined<T: Scalar>(
    m1: Seq<T>,
    m2: Seq<T>,
    m3: Seq<T>,
    m4: Seq<T>,
    m5: Seq<T>,
    m6: Seq<T>,
    m7: Seq<T>,
    qi: int,
    qj: int,
) -> Seq<T> {
    if qi == 0 && qj == 0 {
        sum(difference(sum(m1, m4), m5), m7)
    } else if qi == 0 {
        sum(m3, m5)
    } else if qj == 0 {
        sum(m2, m4)
    } else {
        sum(sum(difference(m1, m2), m3), m6)
    }
}

/// Packs the four quadrants of each of the `n`-by-`n` matrices in the
/// regions `a` and `b` into the level.
pub fn split_operands<T: Scalar>(arena: &mut Arena<T>, lv: &Level, a: Region, b: Region, n: usize)
    requires
        old(arena).wf(),
        n % 2 == 0,
        a.len == n * n,
        b.len == n * n,
        a.end() <= lv.base(),
        b.end() <= lv.base(),
        lv.laid_out((n / 2) * (n / 2)),
        lv.base() + 17 * ((n / 2) * (n / 2)) <= old(arena).capacity(),
    ensures
        final(arena).wf(),
        final(arena).capacity() == old(arena).capacity(),
        final(arena).used() == old(arena).used(),
        final(arena).peak() == old(arena).peak(),
        final(arena).slice(lv.a11) == quadrant(old(arena).slice(a), n as int, 0, 0),
        final(arena).slice(lv.a12) == quadrant(old(arena).slice(a), n as int, 0, 1),
        final(arena).slice(lv.a21) == quadrant(old(arena).slice(a), n as int, 1, 0),
        final(arena).slice(lv.a22) == quadrant(old(arena).slice(a), n as int, 1, 1),
        final(arena).slice(lv.b11) == quadrant(old(arena).slice(b), n as int, 0, 0),
        final(arena).slice(lv.b12) == quadrant(old(arena).slice(b), n as int, 0, 1),
        final(arena).slice(lv.b21) == quadrant(old(arena).slice(b), n as int, 1, 0),
        final(arena).slice(lv.b22) == quadrant(old(arena).slice(b), n as int, 1, 1),
        forall|r: Region|
            #![trigger final(arena).slice(r)]
            #![trigger old(arena).slice(r)]
            r.end() <= lv.base() ==> final(arena).slice(r) == old(arena).slice(r),
{
    copy_quadrant(arena, lv.a11, a, n, 0, 0);
    copy_quadrant(arena, lv.a12, a, n, 0, 1);
    copy_quadrant(arena, lv.a21, a, n, 1, 0);
    copy_quadrant(arena, lv.a22, a, n, 1, 1);
    copy_quadrant(arena, lv.b11, b, n, 0, 0);
    copy_quadrant(arena, lv.b12, b, n, 0, 1);
    copy_quadrant(arena, lv.b21, b, n, 1, 0);
    copy_quadrant(arena, lv.b22, b, n, 1, 1);
}

/// Recombines quadrant `(qi, qj)` of the result from the seven products of
/// the level into its first temporary.
pub fn combine<T: Scalar>(arena: &mut Arena<T>, lv: &Level, size: usize, qi: usize, qj: usize)
    requires
        old(arena).wf(),
        qi <= 1,
        qj <= 1,
        lv.laid_out(size as int),
        lv.base() + 17 * size <= old(arena).capacity(),
    ensures
        final(arena).wf(),
        final(arena).capacity() == old(arena).capacity(),
        final(arena).used() == old(arena).used(),
        final(arena).peak() == old(arena).peak(),
        final(arena).slice(lv.t1) == recombined(
            old(arena).slice(lv.m1),
            old(arena).slice(lv.m2),
            old(arena).slice(lv.m3),
            old(arena).slice(lv.m4),
            old(arena).slice(lv.m5),
            old(arena).slice(lv.m6),
            old(arena).slice(lv.m7),
            qi as int,
            qj as int,
        ),
        forall|r: Region|
            #![trigger final(arena).slice(r)]
            #![trigger old(arena).slice(r)]
            r.end() <= lv.t1.start ==> final(arena).slice(r) == old(arena).slice(r),
{
    if qi == 0 && qj == 0 {
        add_into(arena, lv.t1, lv.m1, lv.m4);
        sub_into(arena, lv.t2, lv.t1, lv.m5);
        add_into(arena, lv.t1, lv.t2, lv.m7);
    } else if qi == 0 {
        add_into(arena, lv.t1, lv.m3, lv.m5);
    } else if qj == 0 {
        add_into(arena, lv.t1, lv.m2, lv.m4);
    } else {
        sub_into(arena, lv.t1, lv.m1, lv.m2);
        add_into(arena, lv.t2, lv.t1, lv.m3);
        add_into(arena, lv.t1, lv.t2, lv.m6);
    }
}

/// Recombines the seven products of the level into the four quadrants of
/// the `n`-by-`n` matrix in the region `c`.
pub fn recombine<T: Scalar>(arena: &mut Arena<T>, lv: &Level, c: Region, n: usize)
    requires
        old(arena).wf(),
        n % 2 == 0,
        c.len == n * n,
        c.end() <= lv.base(),
        lv.laid_out((n / 2) * (n / 2)),
        lv.base() + 17 * ((n / 2) * (n / 2)) <= old(arena).capacity(),
    ensures
        final(arena).wf(),
        final(arena).capacity() == old(arena).capacity(),
        final(arena).used() == old(arena).used(),
        final(arena).peak() == old(arena).peak(),
        final(arena).slice(c) == assemble(
            sum(
                difference(
                    sum(old(arena).slice(lv.m1), old(arena).slice(lv.m4)),
                    old(arena).slice(lv.m5),
                ),
                old(arena).slice(lv.m7),
            ),
            sum(old(arena).slice(lv.m3), old(arena).slice(lv.m5)),
            sum(old(arena).slice(lv.m2), old(arena).slice(lv.m4)),
            sum(
                sum(
                    difference(old(arena).slice(lv.m1), old(arena).slice(lv.m2)),
                    old(arena).slice(lv.m3),
                ),
                old(arena).slice(lv.m6),
            ),
            (n / 2) as int,
        ),
        forall|r: Region|
            #![trigger final(arena).slice(r)]
            #![trigger old(arena).slice(r)]
            r.end() <= lv.base() && r.disjoint(c) ==> final(arena).slice(r) == old(arena).slice(
                r,
            ),
{
    let size = lv.a11.len;
    let ghost m1 = arena.slice(lv.m1);
    let ghost m2 = arena.slice(lv.m2);
    let ghost m3 = arena.slice(lv.m3);
    let ghost m4 = arena.slice(lv.m4);
    let ghost m5 = arena.slice(lv.m5);
    let ghost m6 = arena.slice(lv.m6);
    let ghost m7 = arena.slice(lv.m7);
    combine(arena, lv, size, 0, 0);
    place_quadrant(arena, c, n, 0, 0, lv.t1);
    combine(arena, lv, size, 0, 1);
    place_quadrant(arena, c, n, 0, 1, lv.t1);
    combine(arena, lv, size, 1, 0);
    place_quadrant(arena, c, n, 1, 0, lv.t1);
    combine(arena, lv, size, 1, 1);
    place_quadrant(arena, c, n, 1, 1, lv.t1);
    proof {
        lemma_assemble(
            old(arena).slice(c),
            n as int,
            recombined(m1, m2, m3, m4, m5, m6, m7, 0, 0),
            recombined(m1, m2, m3, m4, m5, m6, m7, 0, 1),
            recombined(m1, m2, m3, m4, m5, m6, m7, 1, 0),
            recombined(m1, m2, m3, m4, m5, m6, m7, 1, 1),
        );
    }
}

/// The recursive driver: multiplies the `n`-by-`n` matrices in the regions
/// `a` and `b` into the region `c`. At or below the cutover size `t` it
/// multiplies directly. Above it, it marks the arena, packs the quadrants of
/// both operands into a fresh level, computes the seven products,
/// recombines them into the quadrants of `c`, and moves the cursor back to
/// the mark.
pub fn step<T: Scalar>(arena: &mut Arena<T>, c: Region, a: Region, b: Region, n: usize, t: usize)
    requires
        old(arena).wf(),
        1 <= t,
        n <= t || is_power_of_two(n as int),
        a.len == n * n,
        b.len == n * n,
        c.len == n * n,
        a.end() <= old(arena).used(),
        b.end() <= old(arena).used(),
        c.end() <= old(arena).used(),
        c.disjoint(a),
        c.disjoint(b),
        old(arena).used() + required(n as nat, t as nat) <= old(arena).capacity(),
    ensures
        final(arena).wf(),
        final(arena).capacity() == old(arena).capacity(),
        final(arena).used() == old(arena).used(),
        final(arena).peak() == if old(arena).peak() >= old(arena).used() + required(
            n as nat,
            t as nat,
        ) {
            old(arena).peak()
        } else {
            old(arena).used() + required(n as nat, t as nat)
        },
        final(arena).slice(c) == strassen(
            old(arena).slice(a),
            old(arena).slice(b),
            n as nat,
            t as nat,
        ),
        forall|r: Region|
            #![trigger final(arena).slice(r)]
            #![trigger old(arena).slice(r)]
            r.end() <= old(arena).used() && r.disjoint(c) ==> final(arena).slice(r) == old(
                arena,
            ).slice(r),
    decreases n, 0nat,
{
    if n <= t {
        multiply_into(arena, c, a, b, n);
        return;
    }
    let h = n / 2;
    assert(0 <= h * h <= 17 * (h * h)) by (nonlinear_arith);
    let size = h * h;
    let mark = arena.mark();
    let lv = allocate_level(arena, size);
    split_operands(arena, &lv, a, b, n);
    products(arena, &lv, h, t);
    recombine(arena, &lv, c, n);
    arena.reset(mark);
}

/// Packs the four quadrants of each of the `n`-by-`n` matrices `a` and `b`
/// into the level.
pub fn load_operands<T: Scalar>(arena: &mut Arena<T>, lv: &Level, a: &[T], b: &[T], n: usize)
    requires
        old(arena).wf(),
        n % 2 == 0,
        a@.len() == n * n,
        b@.len() == n * n,
        lv.laid_out((n / 2) * (n / 2)),
        lv.base() + 17 * ((n / 2) * (n / 2)) <= old(arena).capacity(),
    ensures
        final(arena).wf(),
        final(arena).capacity() == old(arena).capacity(),
        final(arena).used() == old(arena).used(),
        final(arena).peak() == old(arena).peak(),
        final(arena).slice(lv.a11) == quadrant(a@, n as int, 0, 0),
        final(arena).slice(lv.a12) == quadrant(a@, n as int, 0, 1),
        final(arena).slice(lv.a21) == quadrant(a@, n as int, 1, 0),
        final(arena).slice(lv.a22) == quadrant(a@, n as int, 1, 1),
        final(arena).slice(lv.b11) == quadrant(b@, n as int, 0, 0),
        final(arena).slice(lv.b12) == quadrant(b@, n as int, 0, 1),
        final(arena).slice(lv.b21) == quadrant(b@, n as int, 1, 0),
        final(arena).slice(lv.b22) == quadrant(b@, n as int, 1, 1),
        forall|r: Region|
            #![trigger final(arena).slice(r)]
            #![trigger old(arena).slice(r)]
            r.end() <= lv.base() ==> final(arena).slice(r) == old(arena).slice(r),
{
    load_quadrant(arena, lv.a11, a, n, 0, 0);
    load_quadrant(arena, lv.a12, a, n, 0, 1);
    load_quadrant(arena, lv.a21, a, n, 1, 0);
    load_quadrant(arena, lv.a22, a, n, 1, 1);
    load_quadrant(arena, lv.b11, b, n, 0, 0);
    load_quadrant(arena, lv.b12, b, n, 0, 1);
    load_quadrant(arena, lv.b21, b, n, 1, 0);
    load_quadrant(arena, lv.b22, b, n, 1, 1);
}

/// Recombines the seven products of the level into the four quadrants of
/// the `n`-by-`n` matrix `c`.
pub fn recombine_out<T: Scalar>(arena: &mut Arena<T>, lv: &Level, c: &mut Vec<T>, n: usize)
    requires
        old(arena).wf(),
        n % 2 == 0,
        old(c)@.len() == n * n,
        lv.laid_out((n / 2) * (n / 2)),
        lv.base() + 17 * ((n / 2) * (n / 2)) <= old(arena).capacity(),
    ensures
        final(arena).wf(),
        final(arena).capacity() == old(arena).capacity(),
        final(arena).used() == old(arena).used(),
        final(arena).peak() == old(arena).peak(),
        final(c)@ == assemble(
            sum(
                difference(
                    sum(old(arena).slice(lv.m1), old(arena).slice(lv.m4)),
                    old(arena).slice(lv.m5),
                ),
                old(arena).slice(lv.m7),
            ),
            sum(old(arena).slice(lv.m3), old(arena).slice(lv.m5)),
            sum(old(arena).slice(lv.m2), old(arena).slice(lv.m4)),
            sum(
                sum(
                    difference(old(arena).slice(lv.m1), old(arena).slice(lv.m2)),
                    old(arena).slice(lv.m3),
                ),
                old(arena).slice(lv.m6),
            ),
            (n / 2) as int,
        ),
        forall|r: Region|
            #![trigger final(arena).slice(r)]
            #![trigger old(arena).slice(r)]
            r.end() <= lv.base() ==> final(arena).slice(r) == old(arena).slice(r),
{
    let size = lv.a11.len;
    let ghost m1 = arena.slice(lv.m1);
    let ghost m2 = arena.slice(lv.m2);
    let ghost m3 = arena.slice(lv.m3);
    let ghost m4 = arena.slice(lv.m4);
    let ghost m5 = arena.slice(lv.m5);
    let ghost m6 = arena.slice(lv.m6);
    let ghost m7 = arena.slice(lv.m7);
    combine(arena, lv, size, 0, 0);
    store_quadrant(arena, c, n, 0, 0, lv.t1);
    combine(arena, lv, size, 0, 1);
    store_quadrant(arena, c, n, 0, 1, lv.t1);
    combine(arena, lv, size, 1, 0);
    store_quadrant(arena, c, n, 1, 0, lv.t1);
    combine(arena, lv, size, 1, 1);
    store_quadrant(arena, c, n, 1, 1, lv.t1);
    proof {
        lemma_assemble(
            old(c)@,
            n as int,
            recombined(m1, m2, m3, m4, m5, m6, m7, 0, 0),
            recombined(m1, m2, m3, m4, m5, m6, m7, 0, 1),
            recombined(m1, m2, m3, m4, m5, m6, m7, 1, 0),
            recombined(m1, m2, m3, m4, m5, m6, m7, 1, 1),
        );
    }
}

/// Multiplies two row-major `n`-by-`n` matrices with cutover size `t` and
/// the scratch space of `arena` above its cursor. A power of two above the
/// cutover is split once here, with its quadrants packed into the arena,
/// and multiplied by the recursive driver; every other size goes to
/// `multiply`. The cursor ends where it began, and the high-water mark
/// shows how far it went.
pub fn multiply_strassen_with<T: Scalar>(
    a: &[T],
    b: &[T],
    c: &mut Vec<T>,
    n: usize,
    arena: &mut Arena<T>,
    t: usize,
)
    requires
        old(arena).wf(),
        1 <= t,
        a@.len() == n * n,
        b@.len() == n * n,
        old(c)@.len() == n * n,
        n > t && is_power_of_two(n as int) ==> old(arena).used() + required(n as nat, t as nat)
            <= old(arena).capacity(),
    ensures
        final(c)@ == adaptive(a@, b@, n as nat, t as nat),
        n == 0 ==> final(c)@ == old(c)@,
        final(arena).wf(),
        final(arena).capacity() == old(arena).capacity(),
        final(arena).used() == old(arena).used(),
        final(arena).peak() == if n > t && is_power_of_two(n as int) && old(arena).peak() < old(
            arena,
        ).used() + required(n as nat, t as nat) {
            old(arena).used() + required(n as nat, t as nat)
        } else {
            old(arena).peak()
        },
{
    if n <= t || !power_of_two(n) {
        multiply(a, b, c, n);
        return;
    }
    let h = n / 2;
    assert(0 <= h * h <= 17 * (h * h)) by (nonlinear_arith);
    let size = h * h;
    let mark = arena.mark();
    let lv = allocate_level(arena, size);
    load_operands(arena, &lv, a, b, n);
    products(arena, &lv, h, t);
    recombine_out(arena, &lv, c, n);
    arena.reset(mark);
}

/// Multiplies two row-major `n`-by-`n` matrices. A power of two above the
/// cutover size is multiplied recursively in one arena of exactly the
/// number of cells that the recursion takes, created here and dropped at
/// the end; every other size goes to `multiply`. For `n == 0` the output is
/// left as it is.
pub fn multiply_strassen<T: Scalar>(
    a: &[T],
    b: &[T],
    c: &mut Vec<T>,
    n: usize,
    threshold: &Threshold,
)
    requires
        threshold.wf(),
        a@.len() == n * n,
        b@.len() == n * n,
        old(c)@.len() == n * n,
        n > threshold@ && is_power_of_two(n as int) ==> required(n as nat, threshold@ as nat)
            <= usize::MAX,
    ensures
        final(c)@ == adaptive(a@, b@, n as nat, threshold@ as nat),
        n == 0 ==> final(c)@ == old(c)@,
{
    if n == 0 {
        proof {
            assert(c@ =~= adaptive(a@, b@, n as nat, threshold@ as nat));
        }
        return;
    }
    let t = threshold.get_threshold();
    if n <= t || !power_of_two(n) {
        multiply(a, b, c, n);
        return;
    }
    let capacity = required_capacity(n, t);
    let mut arena: Arena<T> = Arena::create(capacity);
    multiply_strassen_with(a, b, c, n, &mut arena, t);
}

} // verus!
