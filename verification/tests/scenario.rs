//! A fully worked four-dimensional example with the identity transform,
//! checking the sign code bit for bit, the extended-code reconstruction
//! step, and the exact coarse estimate for a query equal to the stored
//! vector (fixed-point scale 1000).

use rabitq::quantizer::{MetricType, quantize_split_single, reconstruct_vec};
use rabitq::rotator::Rotator;
use rabitq::{RabitqConfig, SingleEstimator};

#[test]
fn four_dim_identity_walkthrough() {
    let dim = 4usize;
    let v: Vec<i64> = vec![1000, -1000, 2000, -2000];
    let centroid = vec![0i64; dim];

    // Identity rotator: rotation reduces to zero-padding.
    let rotator = Rotator::identity(dim, dim).expect("identity rotator");
    let mut rotated = vec![0i64; dim];
    rotator.rotate(&v, &mut rotated);
    assert_eq!(rotated, v);

    // Coarse-only quantization: one sign bit per dimension, 1 for
    // non-negative coordinates, packed least significant bit first.
    let (bin0, _) = quantize_split_single(&rotated, &centroid, 0, MetricType::L2, &RabitqConfig::new());
    assert_eq!(bin0.bits.len(), 1);
    assert_eq!(bin0.bits[0], 0b0101);
    assert_eq!(bin0.f_add, 10_000_000); // squared norm
    assert_eq!(bin0.f_rescale, 6_000); // absolute sum
    assert_eq!(bin0.f_error, 2_000); // largest magnitude

    // Four extended bits: each reconstructed coordinate sits within one
    // quantization step (max|v_i| / 15) of the original.
    let (bin4, ex4) = quantize_split_single(&rotated, &centroid, 4, MetricType::L2, &RabitqConfig::new());
    let rec = reconstruct_vec(&bin4, &ex4);
    let step = 2_000 / 15;
    for i in 0..dim {
        assert!(
            (rec[i] - v[i]).abs() <= step,
            "i={} rec={} v={}",
            i,
            rec[i],
            v[i]
        );
    }

    // Query identical to the stored vector: the raw inner product
    // approximates the squared norm, and the estimate stays above its
    // lower bound.
    let query = SingleEstimator::new(&rotated, dim, 0, &RabitqConfig::new(), MetricType::L2);
    let g_add = 10_000_000i64; // squared norm of the query offset
    let g_err = 3_162i64; // its integer square root
    let (est, low, ip) = query.est_dist(&bin0, g_add, g_err);
    // ip = round(dot_signs * sum_abs / dim) = 6000 * 6000 / 4.
    assert_eq!(ip, 9_000_000);
    assert!((g_add - ip).abs() <= 2_000_000);
    // est = g_add + f_add - 2 * ip.
    assert_eq!(est, 2_000_000);
    assert!(low <= est);

    // Distance boosting on the four-bit code: the extended levels are
    // [8, 8, 15, 0], so the refined inner product is
    // round(2000 * (16*6000 + 2*30000) / 32) = 9_750_000 and the refined
    // estimate 10^7 + 10^7 - 2 * 9_750_000 = 500_000 -- closer to the true
    // distance (zero) than the coarse estimate.
    let mut query4 = SingleEstimator::new(&rotated, dim, 4, &RabitqConfig::new(), MetricType::L2);
    query4.set_g_add(10_000_000, 0);
    let boosted = query4.distance_boosting(&ex4, ip);
    assert_eq!(boosted, 500_000);
    assert!(boosted <= est);
}
