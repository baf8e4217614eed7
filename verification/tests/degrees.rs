use rtz::degrees::{below_degrees, floor_degree, is_interior};

fn sample_patterns() -> Vec<u32> {
    let fractions: [u32; 12] = [
        0, 1, 2, 0x33_0000, 0x32_ffff, 0x33_0001, 0x40_0000, 0x3f_ffff, 0x7f_ffff, 0x7f_fffe, 0x12_3456, 0x55_5555,
    ];
    let mut out = Vec::new();
    for sign in 0..2u32 {
        for exponent in 0..256u32 {
            for fraction in fractions {
                out.push((sign << 31) | (exponent << 23) | fraction);
            }
        }
    }
    let mut state: u32 = 0x1234_5678;
    for _ in 0..200_000 {
        state = state.wrapping_mul(1_664_525).wrapping_add(1_013_904_223);
        out.push(state);
    }
    out
}

#[test]
fn floor_degree_is_the_floor_of_the_value_as_i16() {
    for bits in sample_patterns() {
        let value = f32::from_bits(bits);
        assert_eq!(floor_degree(bits), value.floor() as i16, "bits {:#x} value {}", bits, value);
    }
}

#[test]
fn floor_degree_on_values_near_whole_degrees() {
    for degree in -400..400i32 {
        for step in [-0.75f32, -0.5, -0.001, 0.0, 0.001, 0.5, 0.999] {
            let value = degree as f32 + step;
            assert_eq!(floor_degree(value.to_bits()), value.floor() as i16, "value {}", value);
        }
    }
}

#[test]
fn floor_degree_exact_values() {
    assert_eq!(floor_degree((-121.0f32).to_bits()), -121);
    assert_eq!(floor_degree((46.0f32).to_bits()), 46);
    assert_eq!(floor_degree((179.9968f32).to_bits()), 179);
    assert_eq!(floor_degree((-67.0959f32).to_bits()), -68);
    assert_eq!(floor_degree((-0.5f32).to_bits()), -1);
    assert_eq!(floor_degree((-0.0f32).to_bits()), 0);
    assert_eq!(floor_degree((0.0f32).to_bits()), 0);
    assert_eq!(floor_degree(1), 0);
    assert_eq!(floor_degree(0x8000_0001), -1);
}

#[test]
fn floor_degree_saturates_and_maps_nan_to_zero() {
    assert_eq!(floor_degree(f32::NAN.to_bits()), 0);
    assert_eq!(floor_degree(0x7fc0_0001), 0);
    assert_eq!(floor_degree(0xffc0_0000), 0);
    assert_eq!(floor_degree(f32::INFINITY.to_bits()), i16::MAX);
    assert_eq!(floor_degree(f32::NEG_INFINITY.to_bits()), i16::MIN);
    assert_eq!(floor_degree((1.0e9f32).to_bits()), i16::MAX);
    assert_eq!(floor_degree((-1.0e9f32).to_bits()), i16::MIN);
    assert_eq!(floor_degree((32767.5f32).to_bits()), 32767);
    assert_eq!(floor_degree((32768.0f32).to_bits()), 32767);
    assert_eq!(floor_degree((-32768.0f32).to_bits()), -32768);
    assert_eq!(floor_degree((-32768.5f32).to_bits()), -32768);
    assert_eq!(floor_degree((-32767.5f32).to_bits()), -32768);
}

#[test]
fn below_degrees_is_the_comparison_of_the_magnitude() {
    for bits in sample_patterns() {
        let value = f32::from_bits(bits);
        for limit in [1u32, 89, 90, 179, 180, 255] {
            let expected = value > -(limit as f32) && value < limit as f32;
            assert_eq!(below_degrees(bits, limit), expected, "bits {:#x} limit {}", bits, limit);
        }
    }
}

#[test]
fn interior_excludes_the_border_band() {
    let inside = |lng: f32, lat: f32| is_interior(lng.to_bits(), lat.to_bits());
    assert!(inside(-121.0, 46.0));
    assert!(inside(178.99998, 88.99999));
    assert!(inside(-178.99998, -88.99999));
    assert!(!inside(179.0, 0.0));
    assert!(!inside(-179.0, 0.0));
    assert!(!inside(0.0, 89.0));
    assert!(!inside(0.0, -89.0));
    assert!(!inside(179.9968, -67.0959));
    assert!(!inside(f32::NAN, 0.0));
    assert!(!inside(0.0, f32::NAN));
    assert!(!inside(f32::INFINITY, 0.0));
}

#[test]
fn interior_agrees_with_the_comparisons_on_a_sweep() {
    let mut state: u32 = 99;
    for _ in 0..100_000 {
        state = state.wrapping_mul(1_664_525).wrapping_add(1_013_904_223);
        let lng = (state >> 8) as f32 / (1u32 << 24) as f32 * 360.0 - 180.0;
        state = state.wrapping_mul(1_664_525).wrapping_add(1_013_904_223);
        let lat = (state >> 8) as f32 / (1u32 << 24) as f32 * 180.0 - 90.0;
        let expected = lng > -179.0 && lng < 179.0 && lat > -89.0 && lat < 89.0;
        assert_eq!(is_interior(lng.to_bits(), lat.to_bits()), expected, "({}, {})", lng, lat);
    }
}
