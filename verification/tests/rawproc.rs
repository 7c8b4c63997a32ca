use rtkit::rawproc::{BayerPattern, Matrix};

/// Sums a stack of equally sized row-major planes sample by sample.
fn sum_planes(planes: &[Vec<Vec<u16>>]) -> Matrix {
    let rows = planes[0].len();
    let cols = planes[0][0].len();
    let mut data = vec![0u16; rows * cols];
    for plane in planes {
        for (i, row) in plane.iter().enumerate() {
            for (j, v) in row.iter().enumerate() {
                data[i * cols + j] += *v;
            }
        }
    }
    Matrix { rows, cols, data }
}

#[test]
fn test_bayer_mask() {
    let arr = vec![
        vec![vec![1, 2, 3, 4], vec![5, 6, 7, 8]],
        vec![vec![3, 4, 5, 6], vec![7, 8, 9, 0]],
    ];
    let z_sum = sum_planes(&arr);

    let r = BayerPattern::RGGB.r().mask_vec(&z_sum);
    assert_eq!(r, vec![4, 8]);
    let r = BayerPattern::RGGB.g().mask_vec(&z_sum);
    assert_eq!(r, vec![6, 10, 12, 16]);
    let r = BayerPattern::RGGB.b().mask_vec(&z_sum);
    assert_eq!(r, vec![14, 8]);
}

#[test]
fn bayer_mask_zeroes_other_colours() {
    let src = Matrix { rows: 2, cols: 2, data: vec![10, 20, 30, 40] };
    let masked = BayerPattern::BGGR.r().mask(&src);
    assert_eq!(masked.data, vec![0, 0, 0, 40]);
    let masked = BayerPattern::GRBG.g().mask(&src);
    assert_eq!(masked.data, vec![10, 0, 0, 40]);
    assert_eq!((masked.rows, masked.cols), (2, 2));
}
