use rtkit::hlac::{check_image, u8_to_binary_array, HlacError, HlacExtractor, HlacFeature, HLAC_DIM};

/// A row-major image: `height` rows of `width` pixels.
struct Image<T> {
    height: usize,
    width: usize,
    data: Vec<T>,
}

impl<T: Copy> Image<T> {
    fn from_elem(height: usize, width: usize, value: T) -> Self {
        Image { height, width, data: vec![value; height * width] }
    }

    fn set(&mut self, y: usize, x: usize, value: T) {
        self.data[y * self.width + x] = value;
    }
}

fn build_image(height: usize, width: usize, points: &[(usize, usize)]) -> Image<bool> {
    let mut image = Image::from_elem(height, width, false);
    for &(y, x) in points {
        image.set(y, x, true);
    }
    image
}

fn merge_image(lhs: &Image<bool>, rhs: &Image<bool>) -> Image<bool> {
    assert_eq!((lhs.height, lhs.width), (rhs.height, rhs.width));
    let data = lhs.data.iter().zip(rhs.data.iter()).map(|(a, b)| *a || *b).collect();
    Image { height: lhs.height, width: lhs.width, data }
}

fn sum_feature(lhs: &HlacFeature, rhs: &HlacFeature) -> [u64; HLAC_DIM] {
    let mut sum = [0_u64; HLAC_DIM];
    for (idx, item) in sum.iter_mut().enumerate() {
        *item = lhs.counts[idx] + rhs.counts[idx];
    }
    sum
}

fn extract_bool(extractor: &HlacExtractor, image: &Image<bool>) -> Result<HlacFeature, HlacError> {
    extractor.extract_binary_bool(&image.data, image.width, image.height)
}

fn extract_u8(extractor: &HlacExtractor, image: &Image<u8>) -> Result<HlacFeature, HlacError> {
    extractor.extract_binary_u8(&image.data, image.width, image.height)
}

fn extract_u8_simd(extractor: &HlacExtractor, image: &Image<u8>) -> Result<HlacFeature, HlacError> {
    extractor.extract_binary_u8_simd(&image.data, image.width, image.height)
}

fn assert_counts_range(feature: &HlacFeature, valid_positions: u64, case_name: &str) {
    for (idx, value) in feature.counts.iter().enumerate() {
        assert!(
            *value <= valid_positions,
            "case={case_name}, pattern={idx}, value={value}, valid_positions={valid_positions}"
        );
    }
}

fn assert_feature_eq(actual: &HlacFeature, expected: &[u64; HLAC_DIM], case_name: &str) {
    assert_eq!(&actual.counts, expected, "case={case_name}");
}

fn assert_error_eq<T: std::fmt::Debug>(result: Result<T, HlacError>, expected: &HlacError, case_name: &str) {
    match result {
        Ok(value) => panic!("case={case_name}, expected error={expected:?}, actual={value:?}"),
        Err(actual) => assert_eq!(&actual, expected, "case={case_name}"),
    }
}

#[test]
fn hlac_binary_value_range_cases() {
    let cases = vec![
        ("all_zero_3x3", Image::from_elem(3, 3, false), false),
        ("all_one_3x3", Image::from_elem(3, 3, true), true),
        ("single_one_4x4", build_image(4, 4, &[(1, 1)]), false),
    ];

    let extractor = HlacExtractor::new_binary_25();

    for (name, image, require_center_dominance) in cases {
        let feature = extract_bool(&extractor, &image).unwrap();
        let valid_positions = ((image.height - 2) * (image.width - 2)) as u64;

        assert_counts_range(&feature, valid_positions, name);

        if require_center_dominance {
            let center = feature.counts[0];
            assert!(feature.counts[1..].iter().all(|value| center >= *value), "case={name}");
        }
    }
}

#[test]
fn hlac_binary_normal_cases() {
    let extractor = HlacExtractor::new_binary_25();

    // shift invariance
    let shift_base_points = &[(2, 2), (2, 3), (3, 2), (3, 3), (3, 4)];
    let shift_moved_points = &[(3, 4), (3, 5), (4, 4), (4, 5), (4, 6)];
    let lhs = extract_bool(&extractor, &build_image(9, 9, shift_base_points)).unwrap();
    let rhs = extract_bool(&extractor, &build_image(9, 9, shift_moved_points)).unwrap();
    assert_feature_eq(&lhs, &rhs.counts, "shift_invariance");

    // additivity
    let add_lhs = build_image(12, 12, &[(2, 2), (2, 3), (3, 2), (3, 3)]);
    let add_rhs = build_image(12, 12, &[(8, 8), (8, 9), (9, 8), (9, 9)]);
    let add_merged = merge_image(&add_lhs, &add_rhs);
    let lhs = extract_bool(&extractor, &add_lhs).unwrap();
    let rhs = extract_bool(&extractor, &add_rhs).unwrap();
    let merged = extract_bool(&extractor, &add_merged).unwrap();
    assert_feature_eq(&merged, &sum_feature(&lhs, &rhs), "additivity");

    // golden
    let feature = extract_bool(&extractor, &Image::from_elem(3, 3, true)).unwrap();
    assert_feature_eq(&feature, &[1; HLAC_DIM], "golden_all_one_3x3");
}

#[test]
fn hlac_binary_error_cases() {
    let extractor = HlacExtractor::new_binary_25();

    let result = extract_bool(&extractor, &Image::from_elem(2, 4, false));
    assert_error_eq(result, &HlacError::ImageTooSmall { width: 4, height: 2 }, "too_small_height");

    let result = extract_bool(&extractor, &Image::from_elem(4, 2, false));
    assert_error_eq(result, &HlacError::ImageTooSmall { width: 2, height: 4 }, "too_small_width");

    let result = extractor.extract_binary_bool(&vec![false; 8], 3, 3);
    assert_error_eq(
        result,
        &HlacError::InvalidBufferLength { width: 3, height: 3, len: 8 },
        "invalid_buffer_len",
    );

    let mut non_binary = Image::from_elem(3, 3, 0_u8);
    non_binary.set(1, 1, 2);
    let result = extract_u8(&extractor, &non_binary);
    assert_error_eq(result, &HlacError::NonBinaryValue { x: 1, y: 1, value: 2 }, "non_binary_u8");
}

#[test]
fn hlac_binary_simd_matches_scalar_cases() {
    let mut generated = Image::from_elem(32, 64, 0_u8);
    for y in 0..32 {
        for x in 0..64 {
            let value = if ((x * 31 + y * 17 + x * y) % 5) < 2 { 1 } else { 0 };
            generated.set(y, x, value);
        }
    }

    let cases = vec![
        (
            "small_width_tail_only",
            Image {
                height: 4,
                width: 6,
                data: vec![0, 1, 1, 0, 1, 0, 1, 1, 0, 1, 0, 1, 0, 1, 0, 1, 1, 0, 1, 0, 0, 1, 1, 0],
            },
        ),
        (
            "one_simd_chunk",
            Image {
                height: 5,
                width: 18,
                data: (0..90).map(|v| if (v % 3) == 0 { 1_u8 } else { 0_u8 }).collect(),
            },
        ),
        ("multi_chunk_generated", generated),
    ];

    let extractor = HlacExtractor::new_binary_25();

    for (name, image) in cases {
        let scalar = extract_u8(&extractor, &image).unwrap();
        let simd = extract_u8_simd(&extractor, &image).unwrap();
        assert_eq!(scalar, simd, "case={name}");
    }
}

#[test]
fn image_luma8_to_binary_ndarray_normal_cases() {
    let cases = vec![
        (
            "threshold_127_2x3",
            3usize,
            2usize,
            vec![0, 127, 128, 255, 1, 200],
            127u8,
            vec![false, false, true, true, false, true],
        ),
        ("threshold_0_2x2", 2, 2, vec![0, 1, 2, 0], 0, vec![false, true, true, false]),
    ];

    for (name, width, height, raw, threshold, expected) in cases {
        let actual = u8_to_binary_array(&raw, width, height, threshold).unwrap();
        assert_eq!(actual, expected, "case={name}");
    }
}

#[test]
fn image_luma8_to_binary_ndarray_error_cases() {
    let actual = u8_to_binary_array(&[0_u8, 1, 2], 2, 2, 0);
    assert_error_eq(
        actual,
        &HlacError::InvalidBufferLength { width: 2, height: 2, len: 3 },
        "invalid_buffer_len",
    );
}

#[test]
fn hlac_single_pixel_counts_only_center_pattern() {
    let extractor = HlacExtractor::new_binary_25();
    let feature = extract_bool(&extractor, &build_image(3, 3, &[(1, 1)])).unwrap();
    let mut expected = [0u64; HLAC_DIM];
    expected[0] = 1;
    assert_eq!(feature.counts, expected);
}

#[test]
fn hlac_feature_default_is_zero() {
    assert_eq!(HlacFeature::default().counts, [0u64; HLAC_DIM]);
    assert_eq!(HlacFeature::zeros(), HlacFeature::new([0u64; HLAC_DIM]));
}

#[test]
fn hlac_documented_examples() {
    let image = vec![false, false, false, false, true, true, false, true, true];
    let extractor = HlacExtractor::new_binary_25();
    let feature = extractor.extract_binary_bool(&image, 3, 3).unwrap();
    assert_eq!(feature.counts.len(), 25);
    assert_eq!(feature.counts[0], 1);

    let src = vec![0, 128, 255, 127];
    let bin = u8_to_binary_array(&src, 2, 2, 127).unwrap();
    assert_eq!(bin, vec![false, true, true, false]);
}

#[test]
fn hlac_check_image_errors() {

    assert_eq!(check_image(2, 5, 10), Err(HlacError::ImageTooSmall { width: 2, height: 5 }));
    assert_eq!(check_image(3, 3, 8), Err(HlacError::InvalidBufferLength { width: 3, height: 3, len: 8 }));
    assert_eq!(check_image(3, 4, 12), Ok(()));
}
