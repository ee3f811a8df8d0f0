use bmp::index::dense_ratio::DenseRatio;

/// The threshold in single-precision arithmetic.
fn by_floats(block_size: usize, dense_ratio: f32) -> usize {
    (block_size as f32 * dense_ratio.clamp(0.0, 1.0)).ceil() as usize
}

fn by_integers(block_size: usize, dense_ratio: f32) -> usize {
    DenseRatio::from_f32_bits(dense_ratio.to_bits()).threshold(block_size)
}

#[test]
fn a_quarter_is_rounded_up() {
    let quarter = DenseRatio::quarter();
    assert_eq!(quarter.threshold(0), 0);
    assert_eq!(quarter.threshold(1), 1);
    assert_eq!(quarter.threshold(4), 1);
    assert_eq!(quarter.threshold(5), 2);
    assert_eq!(quarter.threshold(32), 8);
    assert_eq!(quarter.threshold(16777216), 4194304);
    // The size itself is rounded to an even number before it is divided.
    assert_eq!(quarter.threshold(16777217), 4194304);
    assert_eq!(quarter.threshold(16777219), 4194305);
}

#[test]
fn thresholds_agree_with_single_precision() {
    let ratios = [
        0.0f32, -0.0, 0.25, 0.5, 0.75, 1.0, 0.1, 0.3, 0.9, 0.33333334, 0.99999994, 1.5, -1.0,
        1e-7, 1e-30, 1e-40, 1e-45, f32::MIN_POSITIVE, f32::MAX, f32::INFINITY,
        f32::NEG_INFINITY, f32::NAN,
    ];
    let mut sizes: Vec<usize> = (0..300).collect();
    for bit in 8..64 {
        for offset in [0usize, 1, 2, 3, 5, 127] {
            sizes.push((1usize << bit) + offset);
            sizes.push((1usize << bit) - offset);
            sizes.push((1usize << bit) / 3 * 2 + offset);
        }
    }
    sizes.push(usize::MAX);
    sizes.push(usize::MAX - 1);
    for size in &sizes {
        for value in &ratios {
            assert_eq!(by_integers(*size, *value), by_floats(*size, *value), "{} {}", size, value);
        }
    }
}

#[test]
fn thresholds_agree_with_single_precision_on_scattered_bits() {
    let mut state: u64 = 88172645463325252;
    for _ in 0..200000 {
        state ^= state << 13;
        state ^= state >> 7;
        state ^= state << 17;
        let bits = (state >> 33) as u32 % 0x3f90_0000;
        let size = (state as usize) >> (state % 64);
        let value = f32::from_bits(bits);
        assert_eq!(by_integers(size, value), by_floats(size, value), "{} {}", size, value);
    }
}

#[test]
fn extreme_ratios_are_brought_into_range() {
    assert_eq!(by_integers(10, 0.0), 0);
    assert_eq!(by_integers(10, 1.0), 10);
    assert_eq!(by_integers(10, 7.0), 10);
    assert_eq!(by_integers(10, -7.0), 0);
    assert_eq!(by_integers(10, f32::NAN), 0);
    assert_eq!(by_integers(usize::MAX, 1.0), usize::MAX);
    assert_eq!(by_integers(10, 1e-45), 1);
}
