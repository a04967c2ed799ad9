//! Float patterns against the machine's floats.
use karma::float::{f32_to_f64, f64_to_f32, number_key, round_to_double};

fn doubles() -> Vec<f64> {
    let mut out = vec![
        0.0, -0.0, 1.0, -1.0, 0.1, 1.5, 1e10, 1e-10, 3.4028234663852886e38, 3.4028235677973366e38,
        3.40282356e38, 1e39, -1e39, 1.1754943508222875e-38, 1.1754942e-38, 1.4012984643e-45, 7.006492321624085e-46,
        7.006492321624086e-46, 1e-46, 5e-324, f64::MAX, f64::MIN_POSITIVE, f64::INFINITY, f64::NEG_INFINITY,
        1.0000000596046448, 1.0000000596046449, 1.000000178813934,
    ];
    let mut x: u64 = 88172645463325252;
    for _ in 0..2000 {
        x ^= x << 13;
        x ^= x >> 7;
        x ^= x << 17;
        let f = f64::from_bits(x);
        if !f.is_nan() {
            out.push(f);
        }
        // The range of binary32, where rounding happens.
        out.push((x as u32 as f64 + 0.5) * 2f64.powi((x >> 40) as i32 % 300 - 180));
    }
    out
}

#[test]
fn narrowing_is_the_machines() {
    for f in doubles() {
        assert_eq!(f64_to_f32(f.to_bits()), (f as f32).to_bits(), "{f:e}");
    }
}

#[test]
fn widening_is_the_machines() {
    for f in doubles() {
        let g = f as f32;
        assert_eq!(f32_to_f64(g.to_bits()), (g as f64).to_bits(), "{g:e}");
        assert_eq!(f64_to_f32(f32_to_f64(g.to_bits())), g.to_bits(), "{g:e}");
    }
    for bits in [1u32, 2, 3, 0x7f_ffff, 0x80_0000, 0x8000_0001] {
        let g = f32::from_bits(bits);
        assert_eq!(f32_to_f64(bits), (g as f64).to_bits());
    }
}

#[test]
fn nans_stay_nans() {
    assert!(f32::from_bits(f64_to_f32(f64::NAN.to_bits())).is_nan());
    assert!(f64::from_bits(f32_to_f64(f32::NAN.to_bits())).is_nan());
    assert!(f32::from_bits(f64_to_f32(0xfff0_0000_0000_0001)).is_nan());
    assert_eq!(number_key(f64::NAN.to_bits()), None);
}

#[test]
fn keys_order_as_numbers() {
    let all = doubles();
    for w in all.windows(2) {
        let (a, b) = (number_key(w[0].to_bits()).unwrap(), number_key(w[1].to_bits()).unwrap());
        assert_eq!(a < b, w[0] < w[1]);
        assert_eq!(a == b, w[0] == w[1]);
    }
}

#[test]
fn whole_numbers_round_as_doubles() {
    let mut x: u64 = 1;
    for i in 0..2000u64 {
        x = x.wrapping_mul(6364136223846793005).wrapping_add(i);
        for v in [x, x >> 7, x >> 20, u64::MAX - (i % 4096), (1 << 53) + i, (1 << 60) + 128 * i] {
            assert_eq!(round_to_double(v as u128), (v as f64) as u128, "{v}");
        }
    }
}
