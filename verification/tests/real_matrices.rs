use matmul_engine::arena::Arena;
use matmul_engine::dense::{multiply, multiply_blocked, multiply_naive, multiply_tiled};
use matmul_engine::scalar::Scalar;
use matmul_engine::strassen::{multiply_strassen, multiply_strassen_with, required_capacity};
use matmul_engine::threshold::Threshold;

#[derive(Clone, Copy, Debug, PartialEq)]
struct Real(f64);

impl Scalar for Real {
    fn zero_spec() -> Real {
        Real(0.0)
    }

    fn plus_spec(self, rhs: Real) -> Real {
        Real(self.0 + rhs.0)
    }

    fn minus_spec(self, rhs: Real) -> Real {
        Real(self.0 - rhs.0)
    }

    fn times_spec(self, rhs: Real) -> Real {
        Real(self.0 * rhs.0)
    }

    fn zero() -> Real {
        Real(0.0)
    }

    fn plus(self, rhs: Real) -> Real {
        Real(self.0 + rhs.0)
    }

    fn minus(self, rhs: Real) -> Real {
        Real(self.0 - rhs.0)
    }

    fn times(self, rhs: Real) -> Real {
        Real(self.0 * rhs.0)
    }
}

fn reals(values: &[f64]) -> Vec<Real> {
    values.iter().map(|v| Real(*v)).collect()
}

fn sample(n: usize, seed: u64) -> Vec<Real> {
    let mut state = seed.wrapping_mul(6364136223846793005).wrapping_add(1442695040888963407);
    let mut out = Vec::with_capacity(n * n);
    for _ in 0..n * n {
        state = state.wrapping_mul(6364136223846793005).wrapping_add(1442695040888963407);
        let unit = ((state >> 11) as f64) / ((1u64 << 53) as f64);
        out.push(Real(unit * 2.0 - 1.0));
    }
    out
}

fn identity(n: usize) -> Vec<Real> {
    let mut out = vec![Real(0.0); n * n];
    for i in 0..n {
        out[i * n + i] = Real(1.0);
    }
    out
}

fn reference(a: &[Real], b: &[Real], n: usize) -> Vec<Real> {
    let mut out = vec![Real(0.0); n * n];
    for i in 0..n {
        for j in 0..n {
            let mut sum = 0.0;
            for k in 0..n {
                sum += a[i * n + k].0 * b[k * n + j].0;
            }
            out[i * n + j] = Real(sum);
        }
    }
    out
}

fn close(x: &[Real], y: &[Real], n: usize) -> bool {
    let scale = (n.max(1)) as f64;
    x.len() == y.len()
        && x.iter().zip(y.iter()).all(|(p, q)| (p.0 - q.0).abs() <= 1e-9 * scale.max(q.0.abs()))
}

fn check_size(n: usize) {
    let a = sample(n, 11 + n as u64);
    let b = sample(n, 97 + n as u64);
    let want = reference(&a, &b, n);
    let mut dense = vec![Real(7.0); n * n];
    multiply(&a, &b, &mut dense, n);
    assert!(close(&dense, &want, n), "multiply, n = {}", n);
    let mut fast = vec![Real(7.0); n * n];
    multiply_strassen(&a, &b, &mut fast, n, &Threshold::new());
    assert!(close(&fast, &want, n), "multiply_strassen, n = {}", n);
}

#[test]
fn small_sizes_match_reference() {
    for n in [0usize, 1, 2, 3, 7, 8, 16, 33] {
        check_size(n);
    }
}

#[test]
fn sizes_at_the_cutover_match_reference() {
    check_size(64);
    check_size(65);
}

#[test]
fn size_128_matches_reference() {
    check_size(128);
}

#[test]
fn size_256_matches_reference() {
    check_size(256);
}

#[test]
fn identity_on_the_right_returns_the_matrix() {
    for n in [1usize, 2, 5, 16, 33] {
        let a = sample(n, 3);
        let mut c = vec![Real(9.0); n * n];
        multiply(&a, &identity(n), &mut c, n);
        assert_eq!(c, a);
    }
}

#[test]
fn identity_on_the_left_returns_the_matrix() {
    for n in [1usize, 2, 5, 16, 33] {
        let a = sample(n, 5);
        let mut c = vec![Real(9.0); n * n];
        multiply(&identity(n), &a, &mut c, n);
        assert_eq!(c, a);
    }
}

#[test]
fn size_zero_leaves_output_untouched() {
    let a: Vec<Real> = Vec::new();
    let b: Vec<Real> = Vec::new();
    let mut c: Vec<Real> = Vec::new();
    multiply(&a, &b, &mut c, 0);
    assert!(c.is_empty());
    multiply_strassen(&a, &b, &mut c, 0, &Threshold::new());
    assert!(c.is_empty());
    multiply_naive(&a, &b, &mut c, 0);
    assert!(c.is_empty());
    multiply_blocked(&a, &b, &mut c, 0);
    assert!(c.is_empty());
}

#[test]
fn other_sizes_fall_back_to_multiply() {
    for n in [3usize, 65, 96, 100] {
        let a = sample(n, 21);
        let b = sample(n, 22);
        let mut dense = vec![Real(0.0); n * n];
        multiply(&a, &b, &mut dense, n);
        let mut fast = vec![Real(1.0); n * n];
        multiply_strassen(&a, &b, &mut fast, n, &Threshold::new());
        assert_eq!(fast, dense);
    }
}

#[test]
fn four_by_four_times_identity() {
    let a = reals(&[
        1.0, 2.0, 3.0, 4.0, 5.0, 6.0, 7.0, 8.0, 9.0, 10.0, 11.0, 12.0, 13.0, 14.0, 15.0, 16.0,
    ]);
    let mut c = vec![Real(0.0); 16];
    multiply(&a, &identity(4), &mut c, 4);
    assert_eq!(c, a);
}

#[test]
fn two_by_two_paths_agree() {
    let mut threshold = Threshold::new();
    threshold.set_threshold(0);
    assert_eq!(threshold.get_threshold(), 64);
    let a = reals(&[1.0, 2.0, 3.0, 4.0]);
    let b = reals(&[5.0, 6.0, 7.0, 8.0]);
    let want = reals(&[19.0, 22.0, 43.0, 50.0]);
    let mut fast = vec![Real(0.0); 4];
    multiply_strassen(&a, &b, &mut fast, 2, &threshold);
    assert_eq!(fast, want);
    let mut naive = vec![Real(0.0); 4];
    multiply_naive(&a, &b, &mut naive, 2);
    assert_eq!(naive, want);
    let mut split = vec![Real(0.0); 4];
    let mut arena: Arena<Real> = Arena::create(required_capacity(2, 1));
    multiply_strassen_with(&a, &b, &mut split, 2, &mut arena, 1);
    assert_eq!(split, want);
}

#[test]
fn blocked_is_bit_identical_to_naive() {
    for n in [1usize, 31, 32, 33, 70] {
        let a = sample(n, 41);
        let b = sample(n, 42);
        let mut naive = vec![Real(0.0); n * n];
        multiply_naive(&a, &b, &mut naive, n);
        let mut blocked = vec![Real(5.0); n * n];
        multiply_blocked(&a, &b, &mut blocked, n);
        assert_eq!(blocked, naive);
        let mut tiled = vec![Real(5.0); n * n];
        multiply_tiled(&a, &b, &mut tiled, n, 7);
        assert_eq!(tiled, naive);
    }
}

#[test]
fn blocked_above_block_threshold() {
    let n = 520;
    let a = identity(n);
    let b = sample(n, 77);
    let mut c = vec![Real(3.0); n * n];
    multiply(&a, &b, &mut c, n);
    assert_eq!(c, b);
}

#[test]
fn deep_recursion_matches_reference() {
    for (n, t) in [(4usize, 1usize), (8, 1), (16, 2), (32, 4)] {
        let a = sample(n, 51);
        let b = sample(n, 52);
        let want = reference(&a, &b, n);
        let mut c = vec![Real(0.0); n * n];
        let mut arena: Arena<Real> = Arena::create(required_capacity(n, t));
        multiply_strassen_with(&a, &b, &mut c, n, &mut arena, t);
        assert!(close(&c, &want, n), "n = {}, t = {}", n, t);
    }
}
