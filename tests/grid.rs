use num_complex::Complex;
use ocean_fft::{fft2d_inplace, transpose_to, Swap, FFT2D};
use std::f64::consts::PI;

fn butterfly(
    e: Complex<f64>,
    o: Complex<f64>,
    k: usize,
    m: usize,
) -> (Complex<f64>, Complex<f64>) {
    let w = (-Complex::i() * PI * (2.0 * k as f64 / m as f64)).exp();
    let t = w * o;
    (e + t, e - t)
}

fn close(a: &[Complex<f64>], b: &[Complex<f64>]) -> bool {
    a.len() == b.len() && a.iter().zip(b.iter()).all(|(x, y)| (x - y).norm() < 1e-9)
}

fn direct_dft2d(x: &[Complex<f64>], l: usize) -> Vec<Complex<f64>> {
    let mut out = vec![Complex::new(0.0, 0.0); l * l];
    for u in 0..l {
        for v in 0..l {
            let mut sum = Complex::new(0.0, 0.0);
            for r in 0..l {
                for c in 0..l {
                    let angle = -2.0 * PI * ((u * r) as f64 / l as f64 + (v * c) as f64 / l as f64);
                    sum += x[r * l + c] * Complex::new(0.0, angle).exp();
                }
            }
            out[u * l + v] = sum;
        }
    }
    out
}

fn grid_values(l: usize) -> Vec<Complex<f64>> {
    let mut state: u64 = 12345;
    (0..l * l)
        .map(|_| {
            state = state.wrapping_mul(6364136223846793005).wrapping_add(1442695040888963407);
            let re = ((state >> 33) % 1000) as f64 / 100.0 - 5.0;
            state = state.wrapping_mul(6364136223846793005).wrapping_add(1442695040888963407);
            let im = ((state >> 33) % 1000) as f64 / 100.0 - 5.0;
            Complex::new(re, im)
        })
        .collect()
}

#[test]
fn test_transpose() {
    let input = vec![1, 2, 3, 4, 5, 6, 7, 8, 9, 10, 11, 12, 13, 14, 15, 16];
    let mut out = vec![0; 16];

    transpose_to(&input, &mut out, 4);

    assert_eq!(out, [
        1, 5, 9,  13,
        2, 6, 10, 14,
        3, 7, 11, 15,
        4, 8, 12, 16,
    ]);
}

#[test]
fn transpose() {
    let buffer_a: Vec<Complex<f64>> = (0..4).map(|i| Complex::new(i as f64, 0.0)).collect();
    let buffer_b = buffer_a.clone();
    let mut swappable = Swap::from_ab(buffer_a, buffer_b);

    swappable.transpose();

    let buffer_a_ref = swappable.a;

    let answer_key: Vec<Complex<f64>> = [0, 2, 1, 3].iter().map(|i| Complex::new(*i as f64, 0.0)).collect();

    for (a, b) in buffer_a_ref.iter().zip(answer_key.iter()) {
        assert_eq!(a, b, "output: {:?}", buffer_a_ref);
    }
}

#[test]
fn transpose_keeps_tail_of_longer_output() {
    let input = vec![1, 2, 3, 4];
    let mut out = vec![0, 0, 0, 0, 9, 9];
    transpose_to(&input, &mut out, 2);
    assert_eq!(out, vec![1, 3, 2, 4, 9, 9]);
}

#[test]
fn transpose_twice_is_identity() {
    let input: Vec<u32> = (0..64).collect();
    let mut once = vec![0; 64];
    let mut twice = vec![0; 64];
    transpose_to(&input, &mut once, 8);
    transpose_to(&once, &mut twice, 8);
    assert_ne!(once, input);
    assert_eq!(twice, input);
}

#[test]
fn swap_transpose_keeps_input_grid_in_b() {
    let mut swap = Swap::from_ab(vec![1, 2, 3, 4, 5, 6, 7, 8, 9], vec![0; 9]);
    swap.transpose();
    assert_eq!(swap.a, vec![1, 4, 7, 2, 5, 8, 3, 6, 9]);
    assert_eq!(swap.b, vec![1, 2, 3, 4, 5, 6, 7, 8, 9]);
}

#[test]
fn fft2d_two_by_two_matches_direct() {
    let input: Vec<Complex<f64>> = (1..=4).map(|i| Complex::new(i as f64, 0.0)).collect();
    let expected = direct_dft2d(&input, 2);
    let mut grid = input.clone();
    let mut buffer = input.clone();
    fft2d_inplace(&mut grid, Some(&mut buffer), 2, &butterfly);
    assert!(close(&grid, &expected), "{:?}", grid);
    let exact = [
        Complex::new(10.0, 0.0),
        Complex::new(-2.0, 0.0),
        Complex::new(-4.0, 0.0),
        Complex::new(0.0, 0.0),
    ];
    assert!(close(&grid, &exact), "{:?}", grid);
}

#[test]
fn fft2d_matches_direct_on_larger_grids() {
    for l in [1usize, 2, 4, 8] {
        let input = grid_values(l);
        let expected = direct_dft2d(&input, l);
        let mut grid = input.clone();
        fft2d_inplace(&mut grid, None, l, &butterfly);
        assert!(close(&grid, &expected), "l = {}", l);
    }
}

#[test]
fn fft2d_equals_rows_transpose_rows_transpose() {
    let l = 4;
    let input = grid_values(l);

    let mut manual = Swap::from_ab(input.clone(), vec![Complex::new(0.0, 0.0); l * l]);
    manual.row_fft(&butterfly);
    let mut t = vec![Complex::new(0.0, 0.0); l * l];
    transpose_to(&manual.a, &mut t, l);
    let mut second = Swap::from_ab(t, vec![Complex::new(0.0, 0.0); l * l]);
    second.row_fft(&butterfly);
    let mut back = vec![Complex::new(0.0, 0.0); l * l];
    transpose_to(&second.a, &mut back, l);

    let mut grid = Swap::from_ab(input.clone(), input.clone());
    grid.fft2d(&butterfly);
    assert!(close(&grid.a, &back));

    let mut free = input.clone();
    let mut scratch = vec![Complex::new(7.0, -3.0); l * l + 5];
    fft2d_inplace(&mut free, Some(&mut scratch), l, &butterfly);
    assert!(close(&free, &back));
}

#[test]
fn row_fft_transforms_each_row() {
    let mut swap = Swap::from_ab(vec![1i64, 2, 3, 4, 5, 6, 7, 8, 9, 10, 11, 12, 13, 14, 15, 16], vec![0; 16]);
    swap.row_fft(&|e: i64, o: i64, _k: usize, _m: usize| (e + o, e - o));
    assert_eq!(
        swap.a,
        vec![10, -4, -2, 0, 26, -4, -2, 0, 42, -4, -2, 0, 58, -4, -2, 0]
    );
}

#[test]
fn swap_transpose_with_longer_scratch() {
    let mut swap = Swap::from_ab(vec![1, 2, 3, 4], vec![0, 0, 0, 0, 8, 9]);
    swap.transpose();
    assert_eq!(swap.a, vec![1, 3, 2, 4, 8, 9]);
    assert_eq!(swap.b, vec![1, 2, 3, 4]);
}

#[test]
fn row_fft_with_longer_scratch() {
    let mut swap = Swap::from_ab(vec![1i64, 2, 3, 4], vec![0; 7]);
    swap.row_fft(&|e: i64, o: i64, _k: usize, _m: usize| (e + o, e - o));
    assert_eq!(swap.a, vec![3, -1, 7, -1]);
    assert_eq!(swap.b.len(), 7);
}
