use matmul_engine::arena::{Arena, Region};
use matmul_engine::dense::{multiply, multiply_naive};
use matmul_engine::scalar::Scalar;
use matmul_engine::scratch::{
    add_into, copy_quadrant, load_quadrant, multiply_into, place_quadrant, store_quadrant,
    sub_into,
};
use matmul_engine::strassen::{
    multiply_strassen, multiply_strassen_with, power_of_two, required_capacity, step,
    try_required_capacity,
};
use matmul_engine::threshold::{Threshold, MAX_THRESHOLD, MIN_THRESHOLD};

fn ramp(n: usize, from: i64) -> Vec<i64> {
    (0..n * n).map(|q| from + (q as i64 * 7) % 13 - 6).collect()
}

fn reference(a: &[i64], b: &[i64], n: usize) -> Vec<i64> {
    let mut out = vec![0i64; n * n];
    for i in 0..n {
        for j in 0..n {
            for k in 0..n {
                out[i * n + j] += a[i * n + k] * b[k * n + j];
            }
        }
    }
    out
}

fn fill(arena: &mut Arena<i64>, r: Region, values: &[i64]) {
    for (q, v) in values.iter().enumerate() {
        arena.set(r.start + q, *v);
    }
}

fn read(arena: &Arena<i64>, r: Region) -> Vec<i64> {
    (0..r.len).map(|q| arena.get(r.start + q)).collect()
}

#[test]
fn scalar_operations_wrap() {
    assert_eq!(<i64 as Scalar>::zero(), 0);
    assert_eq!(3i64.plus(4), 7);
    assert_eq!(3i64.minus(4), -1);
    assert_eq!(3i64.times(4), 12);
    assert_eq!(i64::MAX.plus(1), i64::MIN);
    assert_eq!(i64::MIN.minus(1), i64::MAX);
    assert_eq!(i64::MAX.times(2), -2);
}

#[test]
fn threshold_clamps() {
    let mut t = Threshold::new();
    assert_eq!(t.get_threshold(), 64);
    for (value, want) in
        [(0usize, 64usize), (1, 64), (63, 64), (64, 64), (65, 65), (300, 300), (512, 512), (513, 512), (usize::MAX, 512)]
    {
        t.set_threshold(value);
        assert_eq!(t.get_threshold(), want);
    }
    assert_eq!(MIN_THRESHOLD, 64);
    assert_eq!(MAX_THRESHOLD, 512);
}

#[test]
fn power_of_two_cases() {
    for n in [1usize, 2, 4, 8, 64, 1024, 1 << 40] {
        assert!(power_of_two(n));
    }
    for n in [0usize, 3, 5, 6, 7, 12, 65, 96, 1000] {
        assert!(!power_of_two(n));
    }
}

#[test]
fn required_capacity_values() {
    assert_eq!(required_capacity(64, 64), 0);
    assert_eq!(required_capacity(0, 64), 0);
    assert_eq!(required_capacity(128, 64), 17 * 64 * 64);
    assert_eq!(required_capacity(256, 64), 17 * 128 * 128 + 17 * 64 * 64);
    assert_eq!(required_capacity(16, 2), 1428);
    assert_eq!(required_capacity(2, 1), 17);
}

#[test]
fn arena_cursor_discipline() {
    let mut arena: Arena<i64> = Arena::create(10);
    assert_eq!(arena.size(), 10);
    assert_eq!(arena.mark(), 0);
    assert_eq!(arena.high_water(), 0);
    let first = arena.allocate(4);
    let mark = arena.mark();
    let second = arena.allocate(3);
    assert_eq!((first.start, first.len), (0, 4));
    assert_eq!((second.start, second.len), (4, 3));
    assert_eq!(arena.mark(), 7);
    assert_eq!(arena.high_water(), 7);
    arena.set(second.start, 42);
    arena.reset(mark);
    assert_eq!(arena.mark(), 4);
    assert_eq!(arena.high_water(), 7);
    assert_eq!(arena.get(4), 42);
    let third = arena.allocate(6);
    assert_eq!((third.start, third.len), (4, 6));
    assert_eq!(arena.mark(), 10);
    assert_eq!(arena.high_water(), 10);
    for q in 0..4 {
        assert_eq!(arena.get(q), 0);
    }
}

#[test]
fn elementwise_kernels() {
    let mut arena: Arena<i64> = Arena::create(9);
    let x = arena.allocate(3);
    let y = arena.allocate(3);
    let z = arena.allocate(3);
    fill(&mut arena, x, &[1, 2, 3]);
    fill(&mut arena, y, &[10, 20, 30]);
    add_into(&mut arena, z, x, y);
    assert_eq!(read(&arena, z), vec![11, 22, 33]);
    sub_into(&mut arena, z, x, y);
    assert_eq!(read(&arena, z), vec![-9, -18, -27]);
    assert_eq!(read(&arena, x), vec![1, 2, 3]);
    assert_eq!(read(&arena, y), vec![10, 20, 30]);
}

#[test]
fn quadrant_kernels() {
    let whole: Vec<i64> = (1..=16).collect();
    let mut arena: Arena<i64> = Arena::create(16 + 4 + 16);
    let src = arena.allocate(16);
    let quad = arena.allocate(4);
    let out = arena.allocate(16);
    fill(&mut arena, src, &whole);
    let want = [[vec![1, 2, 5, 6], vec![3, 4, 7, 8]], [vec![9, 10, 13, 14], vec![11, 12, 15, 16]]];
    let mut external = vec![0i64; 16];
    for qi in 0..2 {
        for qj in 0..2 {
            copy_quadrant(&mut arena, quad, src, 4, qi, qj);
            assert_eq!(read(&arena, quad), want[qi][qj]);
            place_quadrant(&mut arena, out, 4, qi, qj, quad);
            store_quadrant(&arena, &mut external, 4, qi, qj, quad);
            load_quadrant(&mut arena, quad, &whole, 4, qi, qj);
            assert_eq!(read(&arena, quad), want[qi][qj]);
        }
    }
    assert_eq!(read(&arena, out), whole);
    assert_eq!(external, whole);
}

#[test]
fn direct_multiplication_in_the_arena() {
    let a = ramp(3, 1);
    let b = ramp(3, -2);
    let mut arena: Arena<i64> = Arena::create(27);
    let ra = arena.allocate(9);
    let rb = arena.allocate(9);
    let rc = arena.allocate(9);
    fill(&mut arena, ra, &a);
    fill(&mut arena, rb, &b);
    multiply_into(&mut arena, rc, ra, rb, 3);
    assert_eq!(read(&arena, rc), reference(&a, &b, 3));
    assert_eq!(read(&arena, ra), a);
}

#[test]
fn recursive_step_in_the_arena() {
    let n = 8;
    let t = 2;
    let a = ramp(n, 3);
    let b = ramp(n, -1);
    let need = required_capacity(n, t);
    let mut arena: Arena<i64> = Arena::create(3 * n * n + need);
    let ra = arena.allocate(n * n);
    let rb = arena.allocate(n * n);
    let rc = arena.allocate(n * n);
    fill(&mut arena, ra, &a);
    fill(&mut arena, rb, &b);
    step(&mut arena, rc, ra, rb, n, t);
    assert_eq!(read(&arena, rc), reference(&a, &b, n));
    assert_eq!(read(&arena, ra), a);
    assert_eq!(read(&arena, rb), b);
    assert_eq!(arena.mark(), 3 * n * n);
    assert_eq!(arena.high_water(), 3 * n * n + need);
}

#[test]
fn peak_usage_equals_required_capacity() {
    for (n, t) in [(2usize, 1usize), (8, 1), (16, 2), (32, 8), (128, 64)] {
        let a = ramp(n, 2);
        let b = ramp(n, 5);
        let need = required_capacity(n, t);
        let mut arena: Arena<i64> = Arena::create(need);
        let mut c = vec![0i64; n * n];
        multiply_strassen_with(&a, &b, &mut c, n, &mut arena, t);
        assert_eq!(c, reference(&a, &b, n));
        assert_eq!(arena.mark(), 0);
        assert_eq!(arena.high_water(), need);
        assert!(arena.high_water() <= arena.size());
    }
}

#[test]
fn fallback_leaves_the_arena_alone() {
    let n = 6;
    let a = ramp(n, 2);
    let b = ramp(n, 5);
    let mut arena: Arena<i64> = Arena::create(0);
    let mut c = vec![0i64; n * n];
    multiply_strassen_with(&a, &b, &mut c, n, &mut arena, 1);
    assert_eq!(c, reference(&a, &b, n));
    assert_eq!(arena.high_water(), 0);
}

#[test]
fn integer_products_agree_exactly() {
    for n in [1usize, 2, 3, 7, 8, 16, 33, 64, 65, 128] {
        let a = ramp(n, 1);
        let b = ramp(n, 4);
        let want = reference(&a, &b, n);
        let mut dense = vec![0i64; n * n];
        multiply(&a, &b, &mut dense, n);
        assert_eq!(dense, want);
        let mut naive = vec![1i64; n * n];
        multiply_naive(&a, &b, &mut naive, n);
        assert_eq!(naive, want);
        let mut fast = vec![0i64; n * n];
        multiply_strassen(&a, &b, &mut fast, n, &Threshold::new());
        assert_eq!(fast, want);
    }
}

#[test]
fn checked_capacity() {
    assert_eq!(try_required_capacity(64, 64), Some(0));
    assert_eq!(try_required_capacity(256, 64), Some(348160));
    assert_eq!(try_required_capacity(16, 2), Some(1428));
    assert_eq!(try_required_capacity(usize::MAX, 64), None);
    assert_eq!(try_required_capacity(1 << 40, 64), None);
}

#[test]
fn integer_identity_is_neutral() {
    for n in [1usize, 2, 4, 9, 64] {
        let a = ramp(n, -3);
        let mut unit = vec![0i64; n * n];
        for i in 0..n {
            unit[i * n + i] = 1;
        }
        let mut right = vec![5i64; n * n];
        multiply(&a, &unit, &mut right, n);
        assert_eq!(right, a);
        let mut left = vec![5i64; n * n];
        multiply(&unit, &a, &mut left, n);
        assert_eq!(left, a);
    }
}

#[test]
fn wrapping_products_agree() {
    let n = 4;
    let a: Vec<i64> = (0..16).map(|q| i64::MAX - q * 1_000_003).collect();
    let b: Vec<i64> = (0..16).map(|q| i64::MIN + q * 999_983).collect();
    let mut direct = vec![0i64; 16];
    multiply_naive(&a, &b, &mut direct, n);
    let mut fast = vec![0i64; 16];
    let mut arena: Arena<i64> = Arena::create(required_capacity(n, 1));
    multiply_strassen_with(&a, &b, &mut fast, n, &mut arena, 1);
    assert_eq!(fast, direct);
    let mut want = vec![0i64; 16];
    for i in 0..n {
        for j in 0..n {
            for k in 0..n {
                want[i * n + j] =
                    want[i * n + j].wrapping_add(a[i * n + k].wrapping_mul(b[k * n + j]));
            }
        }
    }
    assert_eq!(direct, want);
}
