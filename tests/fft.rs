use num_complex::Complex;
use ocean_fft::{fft_inplace, Swap, FFT};
use std::f64::consts::PI;

fn butterfly(
    e: Complex<f64>,
    o: Complex<f64>,
    k: usize,
    m: usize,
) -> (Complex<f64>, Complex<f64>) {
    let w = (-Complex::i() * PI * (2.0 * k as f64 / m as f64)).exp();
    let t = w * o;
    (e + t, e - t)
}

fn close(a: &[Complex<f64>], b: &[Complex<f64>], tol: f64) -> bool {
    a.len() == b.len() && a.iter().zip(b.iter()).all(|(x, y)| (x - y).norm() <= tol * (1.0 + y.norm()))
}

fn direct_dft(x: &[Complex<f64>]) -> Vec<Complex<f64>> {
    let n = x.len();
    (0..n)
        .map(|j| {
            let mut sum = Complex::new(0.0, 0.0);
            for (i, v) in x.iter().enumerate() {
                let angle = -2.0 * PI * ((i * j) % n) as f64 / n as f64;
                sum += v * Complex::new(0.0, angle).exp();
            }
            sum
        })
        .collect()
}

fn values(n: usize, seed: u64) -> Vec<Complex<f64>> {
    let mut state = seed;
    let mut next = move || {
        state = state.wrapping_mul(6364136223846793005).wrapping_add(1442695040888963407);
        ((state >> 33) % 2000) as f64 / 100.0 - 10.0
    };
    (0..n).map(|_| Complex::new(next(), next())).collect()
}

fn transform(x: &[Complex<f64>]) -> Vec<Complex<f64>> {
    let mut swap = Swap::from_ab(x.to_vec(), x.to_vec());
    swap.fft(&butterfly);
    swap.a
}

#[test]
fn four_points() {
    let input: Vec<Complex<f64>> = (1..=4).map(|i| Complex::new(i as f64, 0.0)).collect();
    let out = transform(&input);
    let expected = [
        Complex::new(10.0, 0.0),
        Complex::new(-2.0, 2.0),
        Complex::new(-2.0, 0.0),
        Complex::new(-2.0, -2.0),
    ];
    assert!(close(&out, &expected, 1e-12), "{:?}", out);
}

#[test]
fn matches_direct_dft_up_to_64() {
    let mut n = 1;
    while n <= 64 {
        let x = values(n, n as u64 + 7);
        let out = transform(&x);
        assert!(close(&out, &direct_dft(&x), 1e-9), "n = {}", n);
        n *= 2;
    }
}

#[test]
fn single_point_is_identity() {
    let x = vec![Complex::new(3.5, -1.25)];
    assert_eq!(transform(&x), x);
}

#[test]
fn linear_in_input() {
    let n = 16;
    let x = values(n, 1);
    let y = values(n, 2);
    let a = Complex::new(2.0, -0.5);
    let b = Complex::new(-1.5, 3.0);
    let mixed: Vec<Complex<f64>> = x.iter().zip(y.iter()).map(|(p, q)| a * p + b * q).collect();
    let fx = transform(&x);
    let fy = transform(&y);
    let combined: Vec<Complex<f64>> = fx.iter().zip(fy.iter()).map(|(p, q)| a * p + b * q).collect();
    assert!(close(&transform(&mixed), &combined, 1e-9));
}

#[test]
fn result_does_not_depend_on_scratch() {
    let x = values(32, 9);
    let mut first = Swap::from_ab(x.clone(), vec![Complex::new(0.0, 0.0); 32]);
    let mut second = Swap::from_ab(x.clone(), values(32, 99));
    first.fft(&butterfly);
    second.fft(&butterfly);
    assert_eq!(first.a, second.a);
}

#[test]
fn integer_butterfly_follows_the_recursion() {
    let mut swap = Swap::from_ab(vec![1i64, 2, 3, 4], vec![0; 4]);
    swap.fft(&|e: i64, o: i64, _k: usize, _m: usize| (e + o, e - o));
    assert_eq!(swap.a, vec![10, -4, -2, 0]);
}

#[test]
fn butterfly_sees_index_and_size() {
    let mut swap = Swap::from_ab(vec![(0usize, 0usize); 8], vec![(0usize, 0usize); 8]);
    swap.fft(&|e: (usize, usize), o: (usize, usize), k: usize, m: usize| {
        ((e.0 + o.0 + k, e.1 + o.1 + m), (e.0 + o.0 + 10 * k, e.1 + o.1 + 10 * m))
    });
    let ks: Vec<usize> = swap.a.iter().map(|p| p.0).collect();
    assert_eq!(ks, vec![0, 3, 2, 23, 0, 12, 20, 50]);
    let ms: Vec<usize> = swap.a.iter().map(|p| p.1).collect();
    assert_eq!(ms, vec![24, 96, 96, 168, 96, 168, 168, 240]);
}

#[test]
fn padded_input_grows_to_power_of_two() {
    let mut x = vec![Complex::new(1.0, 0.0), Complex::new(2.0, 0.0), Complex::new(3.0, 0.0)];
    fft_inplace(&mut x, None, Complex::new(0.0, 0.0), &butterfly);
    let padded = vec![
        Complex::new(1.0, 0.0),
        Complex::new(2.0, 0.0),
        Complex::new(3.0, 0.0),
        Complex::new(0.0, 0.0),
    ];
    assert_eq!(x.len(), 4);
    assert!(close(&x, &direct_dft(&padded), 1e-12));
}

#[test]
fn padded_with_given_scratch() {
    let input = values(5, 3);
    let mut x = input.clone();
    let mut scratch = vec![Complex::new(0.0, 0.0); 9];
    fft_inplace(&mut x, Some(&mut scratch), Complex::new(0.0, 0.0), &butterfly);
    let mut padded = input.clone();
    padded.resize(8, Complex::new(0.0, 0.0));
    assert_eq!(x.len(), 8);
    assert_eq!(scratch.len(), 9);
    assert!(close(&x, &direct_dft(&padded), 1e-9));
}

#[test]
fn power_of_two_input_keeps_length() {
    let input = values(16, 4);
    let mut x = input.clone();
    fft_inplace(&mut x, None, Complex::new(0.0, 0.0), &butterfly);
    assert_eq!(x.len(), 16);
    assert!(close(&x, &direct_dft(&input), 1e-9));
}

#[test]
fn empty_input_becomes_one_zero() {
    let mut x: Vec<i32> = vec![];
    fft_inplace(&mut x, None, 0, &|e: i32, o: i32, _k: usize, _m: usize| (e + o, e - o));
    assert_eq!(x, vec![0]);
}

#[test]
fn padding_uses_given_zero() {
    let mut x = vec![5i32, 6, 7];
    fft_inplace(&mut x, None, 100, &|e: i32, o: i32, _k: usize, _m: usize| (e + o, e - o));
    assert_eq!(x, vec![118, -96, -94, 92]);
}
