use fixed_trigonometry::complex::Complex;
use fixed_trigonometry::fft::{bitreverse_array_order, fft, ifft, is_power_of_two, log2, FftError, _reverse};
use fixed_trigonometry::scalar::Scalar;

fn val(s: Scalar) -> f64 {
    s.bits as f64 / (1u64 << s.frac) as f64
}

fn cpx(re: f64, im: f64, frac: u32) -> Complex {
    let scale = (1u64 << frac) as f64;
    Complex {
        re: Scalar::from_bits((re * scale).floor() as i32, frac),
        im: Scalar::from_bits((im * scale).floor() as i32, frac),
    }
}

fn close(a: f64, b: f64, eps: f64) -> bool {
    (a - b).abs() <= eps
}

#[test]
fn power_of_two_predicate() {
    assert_eq!(is_power_of_two(6), false);
    assert_eq!(is_power_of_two(4), true);
    assert_eq!(is_power_of_two(0), false);
    assert_eq!(is_power_of_two(1), true);
    assert_eq!(is_power_of_two(1024), true);
    assert_eq!(is_power_of_two(1023), false);
}

#[test]
fn log2_values() {
    assert_eq!(log2(8), 3);
    assert_eq!(log2(1), 0);
    assert_eq!(log2(2), 1);
    assert_eq!(log2(9), 3);
    assert_eq!(log2(1024), 10);
}

#[test]
fn bitreverse_natural_order() {
    let mut arr = vec![0, 1, 2, 3, 4, 5, 6, 7];
    bitreverse_array_order::<i32>(&mut arr);
    assert_eq!(arr, [0, 4, 2, 6, 1, 5, 3, 7]);
}

#[test]
fn bitreverse_len_sixteen() {
    let mut arr: Vec<usize> = (0..16).collect();
    bitreverse_array_order(&mut arr);
    let expect = vec![0usize, 8, 4, 12, 2, 10, 6, 14, 1, 9, 5, 13, 3, 11, 7, 15];
    assert_eq!(arr, expect);
}

#[test]
fn reverse_single_indices() {
    assert_eq!(_reverse(8, 0), 0);
    assert_eq!(_reverse(8, 1), 4);
    assert_eq!(_reverse(8, 3), 6);
    assert_eq!(_reverse(8, 7), 7);
    assert_eq!(_reverse(16, 1), 8);
}

#[test]
fn fft_dcish_pulse_length_four() {
    // A unit-amplitude DC-ish pulse with one zeroed sample.
    let frac = 22u32;
    let mut arr = vec![
        cpx(1.0, 0.0, frac),
        cpx(1.0, 0.0, frac),
        cpx(1.0, 0.0, frac),
        cpx(0.0, 0.0, frac),
    ];
    fft(&mut arr).unwrap();
    let expect = [
        (0.75, 0.0),
        (-0.0100546, -0.2503753),
        (0.250376, 0.0),
        (0.0145547, 0.2507293),
    ];
    for (got, want) in arr.iter().zip(expect.iter()) {
        assert!(close(val(got.re), want.0, 2e-2), "re {} vs {}", val(got.re), want.0);
        assert!(close(val(got.im), want.1, 2e-2), "im {} vs {}", val(got.im), want.1);
    }
}

#[test]
fn fft_rejects_non_power_of_two() {
    let frac = 20u32;
    let mut arr = vec![cpx(1.0, 0.0, frac), cpx(0.5, 0.0, frac), cpx(0.25, 0.0, frac)];
    let before = arr.clone();
    assert_eq!(fft(&mut arr), Err(FftError::InvalidLength));
    assert_eq!(arr, before);
    assert_eq!(ifft(&mut arr), Err(FftError::InvalidLength));
    assert_eq!(arr, before);
}

#[test]
fn fft_ifft_round_trip() {
    // The forward transform is 1/n-normalized and the inverse applies no
    // normalization, so the round trip reproduces the input buffer (up to
    // rounding error proportional to the stage count): the n-fold inverse
    // gain exactly cancels the forward 1/n scaling.
    let frac = 20u32;
    let input = [
        (0.5, 0.25),
        (-0.3, 0.1),
        (0.2, -0.4),
        (0.05, 0.6),
        (-0.7, -0.2),
        (0.9, 0.0),
        (0.0, -0.9),
        (0.33, 0.66),
    ];
    let mut arr: Vec<Complex> = input.iter().map(|&(re, im)| cpx(re, im, frac)).collect();
    fft(&mut arr).unwrap();
    ifft(&mut arr).unwrap();
    for (got, want) in arr.iter().zip(input.iter()) {
        assert!(close(val(got.re), want.0, 0.02), "re {} vs {}", val(got.re), want.0);
        assert!(close(val(got.im), want.1, 0.02), "im {} vs {}", val(got.im), want.1);
    }
}

#[test]
fn fft_is_linear_within_rounding() {
    // fft(a) + fft(b) == fft(a + b) elementwise, within rounding.
    let frac = 20u32;
    let a_in = [(0.5, 0.0), (-0.25, 0.3), (0.1, -0.1), (0.0, 0.45)];
    let b_in = [(-0.2, 0.15), (0.4, -0.3), (0.35, 0.2), (-0.1, -0.05)];

    let mut a: Vec<Complex> = a_in.iter().map(|&(re, im)| cpx(re, im, frac)).collect();
    let mut b: Vec<Complex> = b_in.iter().map(|&(re, im)| cpx(re, im, frac)).collect();
    let mut sum: Vec<Complex> = a
        .iter()
        .zip(b.iter())
        .map(|(&x, &y)| fixed_trigonometry::complex::add(x, y))
        .collect();

    fft(&mut a).unwrap();
    fft(&mut b).unwrap();
    fft(&mut sum).unwrap();

    for i in 0..a.len() {
        let lhs = fixed_trigonometry::complex::add(a[i], b[i]);
        assert!(close(val(lhs.re), val(sum[i].re), 0.01));
        assert!(close(val(lhs.im), val(sum[i].im), 0.01));
    }
}

#[test]
fn fft_concentrates_dc_exactly() {
    // An all-equal buffer transforms to energy in bin 0 alone; every
    // other bin is exactly zero in this fixed-point engine.
    let frac = 20u32;
    let c = cpx(0.5, 0.25, frac);
    let mut arr = vec![c; 8];
    fft(&mut arr).unwrap();
    // The mantissas of the input are even, so bin 0 reproduces the
    // sample exactly.
    assert_eq!(arr[0].re.bits, c.re.bits);
    assert_eq!(arr[0].im.bits, c.im.bits);
    for k in 1..8 {
        assert_eq!(arr[k].re.bits, 0, "bin {} re", k);
        assert_eq!(arr[k].im.bits, 0, "bin {} im", k);
    }
}

#[test]
fn ifft_of_single_bin_is_unscaled() {
    // The inverse direction applies no per-stage scaling: a lone unit in
    // bin 0 spreads to eight unit samples (n times the 1/n-sized DC).
    let frac = 20u32;
    let mut arr = vec![cpx(0.0, 0.0, frac); 8];
    arr[0] = cpx(1.0, 0.0, frac);
    ifft(&mut arr).unwrap();
    for k in 0..8 {
        assert!(close(val(arr[k].re), 1.0, 1e-3), "sample {}", k);
        assert!(close(val(arr[k].im), 0.0, 1e-3), "sample {}", k);
    }
}

#[test]
fn length_one_transform_is_identity() {
    let frac = 22u32;
    let mut arr = vec![cpx(0.625, -0.375, frac)];
    let before = arr.clone();
    fft(&mut arr).unwrap();
    assert_eq!(arr, before);
    ifft(&mut arr).unwrap();
    assert_eq!(arr, before);
}

#[test]
fn round_trip_of_all_equal_buffer_is_exact() {
    // For an all-equal buffer with even mantissas the forward halving
    // loses nothing, and the unscaled inverse brings back the input
    // bit for bit.
    let frac = 20u32;
    let c = Complex {
        re: Scalar::from_bits(524288, frac),
        im: Scalar::from_bits(-262144, frac),
    };
    let mut arr = vec![c; 4];
    fft(&mut arr).unwrap();
    ifft(&mut arr).unwrap();
    for k in 0..4 {
        assert_eq!(arr[k].re.bits, c.re.bits);
        assert_eq!(arr[k].im.bits, c.im.bits);
    }
}

#[test]
fn order_matches_in_place_reversal() {
    let frac = 20u32;
    let mut a: Vec<Complex> = (0..8).map(|k| cpx(k as f64 / 16.0, 0.0, frac)).collect();
    let mut b = a.clone();
    fixed_trigonometry::fft::_order(&mut a);
    bitreverse_array_order(&mut b);
    assert_eq!(a, b);
}
