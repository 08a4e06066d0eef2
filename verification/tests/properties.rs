//! Behavioural checks on concrete values: determinism and norm preservation
//! of the rotation, refinement of the reconstruction error, batch/single
//! and centroid/origin agreement, lower-bound soundness, and the rejection
//! of malformed requests.

use rabitq::estimator::{K_BATCH_SIZE, SingleCentroidEstimator, select_excode_ipfunc, ExIpFunc};
use rabitq::quantizer::{
    MetricType, RabitqError, quantize_split_checked, quantize_split_single, reconstruct_vec,
    split_full_code,
};
use rabitq::rotator::Rotator;
use rabitq::{BatchBinEstimator, RabitqConfig, SingleEstimator, SplitBatchEstimator,
    quantize_full_single};

fn lcg_next(state: &mut u64) -> u64 {
    *state = state
        .wrapping_mul(6364136223846793005)
        .wrapping_add(1442695040888963407);
    *state
}

fn random_vector(state: &mut u64, dim: usize, spread: i64) -> Vec<i64> {
    let mut v = Vec::new();
    for _ in 0..dim {
        let x = (lcg_next(state) % (2 * spread as u64 + 1)) as i64 - spread;
        v.push(x);
    }
    v
}

fn sum_sq(v: &[i64]) -> i64 {
    v.iter().map(|x| x * x).sum()
}

#[test]
fn rotation_is_deterministic() {
    let rotator = Rotator::new(100, 128).expect("rotator");
    let mut rng: u64 = 7;
    for _ in 0..10 {
        let v = random_vector(&mut rng, 100, 1024);
        let mut out1 = vec![0i64; 128];
        let mut out2 = vec![0i64; 128];
        rotator.rotate(&v, &mut out1);
        rotator.rotate(&v, &mut out2);
        assert_eq!(out1, out2);
    }
}

#[test]
fn rotation_preserves_norm_exactly() {
    let rotator = Rotator::new(100, 128).expect("rotator");
    let mut rng: u64 = 11;
    for _ in 0..20 {
        let v = random_vector(&mut rng, 100, 1024);
        let mut out = vec![0i64; 128];
        rotator.rotate(&v, &mut out);
        assert_eq!(sum_sq(&out), sum_sq(&v));
    }
}

#[test]
fn reconstruction_error_shrinks_with_ex_bits() {
    let v: Vec<i64> = vec![977, -1000, 313, -2000, 1500, 1, -7, 640];
    let zeros = vec![0i64; 8];
    let m: i64 = 2000;
    let mut previous_worst: i64 = i64::MAX;
    for bits in 1..=7usize {
        let (bin, ex) =
            quantize_split_single(&v, &zeros, bits, MetricType::L2, &RabitqConfig::new());
        let rec = reconstruct_vec(&bin, &ex);
        let step_bound = m / (2 * (1i64 << bits)) + 1;
        let mut worst: i64 = 0;
        for i in 0..8 {
            let err = (rec[i] - v[i]).abs();
            assert!(err <= step_bound, "bits={} i={} err={} bound={}", bits, i, err, step_bound);
            if err > worst {
                worst = err;
            }
        }
        // On this vector the worst-case error falls as the code refines.
        assert!(worst <= previous_worst, "bits={} worst={} prev={}", bits, worst, previous_worst);
        previous_worst = worst;
    }
}

#[test]
fn full_dist_margin_within_est_dist_margin() {
    let mut rng: u64 = 23;
    let dim = 64usize;
    let q = random_vector(&mut rng, dim, 2000);
    let v = random_vector(&mut rng, dim, 2000);
    let zeros = vec![0i64; dim];
    let (bin, ex) = quantize_split_single(&v, &zeros, 5, MetricType::L2, &RabitqConfig::new());
    let est = SingleEstimator::new(&q, dim, 5, &RabitqConfig::new(), MetricType::L2);
    let g_add = sum_sq(&q);
    let g_err = (g_add as f64).sqrt() as i64;
    let coarse = est.est_dist(&bin, g_add, g_err);
    let full = est.full_dist(&bin, &ex, g_add, g_err);
    // The refined path's error margin never exceeds the coarse margin.
    assert!(full.0 - full.1 <= coarse.0 - coarse.1);
}

#[test]
fn batch_estimates_match_single_estimates() {
    let mut rng: u64 = 31;
    let dim = 128usize;
    let q = random_vector(&mut rng, dim, 1500);
    let zeros = vec![0i64; dim];
    let mut codes = Vec::new();
    for _ in 0..K_BATCH_SIZE {
        let v = random_vector(&mut rng, dim, 1500);
        let (bin, _) = quantize_split_single(&v, &zeros, 4, MetricType::L2, &RabitqConfig::new());
        codes.push(bin);
    }
    let g_add = sum_sq(&q);

    let mut batch = BatchBinEstimator::new(&q, dim);
    batch.set_g_add(g_add);
    let mut batch_out = vec![0i64; K_BATCH_SIZE];
    batch.batch_est(&codes, &mut batch_out);

    let single = SingleEstimator::new(&q, dim, 4, &RabitqConfig::new(), MetricType::L2);
    for j in 0..K_BATCH_SIZE {
        let (est, _, _) = single.est_dist(&codes[j], g_add, 0);
        assert_eq!(batch_out[j], est, "candidate {}", j);
    }
}

#[test]
fn split_batch_estimates_match_single_estimates() {
    let mut rng: u64 = 37;
    let dim = 96usize;
    let q = random_vector(&mut rng, dim, 1500);
    let zeros = vec![0i64; dim];
    let mut codes = Vec::new();
    for _ in 0..K_BATCH_SIZE {
        let v = random_vector(&mut rng, dim, 1500);
        let (bin, _) = quantize_split_single(&v, &zeros, 4, MetricType::L2, &RabitqConfig::new());
        codes.push(bin);
    }
    let g_add = sum_sq(&q);

    let mut batch = SplitBatchEstimator::new(&q, dim, 4, MetricType::L2, true);
    batch.set_g_add(g_add, 0);
    let out = batch.estdist(&codes, true);
    assert_eq!(out.len(), K_BATCH_SIZE);

    let single = SingleEstimator::new(&q, dim, 4, &RabitqConfig::new(), MetricType::L2);
    for j in 0..K_BATCH_SIZE {
        let triple = single.est_dist(&codes[j], g_add, batch.g_sqrt);
        assert_eq!(out[j], triple, "candidate {}", j);
        assert!(out[j].1 <= out[j].0);
    }
}

#[test]
fn zero_centroid_reduces_to_origin_estimator() {
    let mut rng: u64 = 41;
    let dim = 80usize;
    let q = random_vector(&mut rng, dim, 1800);
    let v = random_vector(&mut rng, dim, 1800);
    let zeros = vec![0i64; dim];
    let (bin, ex) = quantize_split_single(&v, &zeros, 3, MetricType::L2, &RabitqConfig::new());
    let g_add = sum_sq(&q);
    let g_err = (g_add as f64).sqrt() as i64;

    let mut with_centroid = SingleCentroidEstimator::new(
        &q,
        &zeros,
        dim,
        3,
        &RabitqConfig::new(),
        MetricType::L2,
    );
    let mut origin = SingleEstimator::new(&q, dim, 3, &RabitqConfig::new(), MetricType::L2);

    assert_eq!(
        with_centroid.est_dist(&bin, g_add, g_err),
        origin.est_dist(&bin, g_add, g_err)
    );
    assert_eq!(
        with_centroid.full_dist(&bin, &ex, g_add, g_err),
        origin.full_dist(&bin, &ex, g_add, g_err)
    );
    with_centroid.set_g_add(g_err, 5);
    origin.set_g_add(g_err, 5);
    let (_, _, ip) = origin.est_dist(&bin, g_add, g_err);
    assert_eq!(
        with_centroid.distance_boosting(&ex, ip),
        origin.distance_boosting(&ex, ip)
    );
}

#[test]
fn estimate_never_below_lower_bound() {
    let mut rng: u64 = 47;
    for round in 0..8 {
        let dim = 32 + 8 * round;
        let q = random_vector(&mut rng, dim, 2000);
        let v = random_vector(&mut rng, dim, 2000);
        let c = random_vector(&mut rng, dim, 500);
        for metric in [MetricType::L2, MetricType::InnerProduct] {
            let (bin, ex) = quantize_split_single(&v, &c, 4, metric, &RabitqConfig::new());
            let est = SingleEstimator::new(&q, dim, 4, &RabitqConfig::new(), metric);
            let g_add = sum_sq(&q);
            let g_err = (g_add as f64).sqrt() as i64;
            let coarse = est.est_dist(&bin, g_add, g_err);
            assert!(coarse.1 <= coarse.0);
            let full = est.full_dist(&bin, &ex, g_add, g_err);
            assert!(full.1 <= full.0);
        }
    }
}

#[test]
fn split_of_full_code_scores_like_split_quantization() {
    let mut rng: u64 = 53;
    let dim = 48usize;
    let q = random_vector(&mut rng, dim, 1500);
    let v = random_vector(&mut rng, dim, 1500);
    let zeros = vec![0i64; dim];

    let full = quantize_full_single(&v, 4, MetricType::L2, &RabitqConfig::new());
    let (bin_a, ex_a) = split_full_code(&full);
    let (bin_b, ex_b) = quantize_split_single(&v, &zeros, 4, MetricType::L2, &RabitqConfig::new());

    assert_eq!(bin_a.bits, bin_b.bits);
    assert_eq!(bin_a.f_add, bin_b.f_add);
    assert_eq!(bin_a.f_rescale, bin_b.f_rescale);
    assert_eq!(bin_a.f_error, bin_b.f_error);
    assert_eq!(ex_a.levels, ex_b.levels);
    assert_eq!(ex_a.range, ex_b.range);

    let est = SingleEstimator::new(&q, dim, 4, &RabitqConfig::new(), MetricType::L2);
    let g_add = sum_sq(&q);
    let g_err = (g_add as f64).sqrt() as i64;
    assert_eq!(
        est.est_dist(&bin_a, g_add, g_err),
        est.est_dist(&bin_b, g_add, g_err)
    );
    assert_eq!(
        est.full_dist(&bin_a, &ex_a, g_add, g_err),
        est.full_dist(&bin_b, &ex_b, g_add, g_err)
    );
}

#[test]
fn construction_rejects_bad_requests() {
    assert!(matches!(
        Rotator::new(10, 5),
        Err(RabitqError::DimensionMismatch)
    ));
    assert!(matches!(
        Rotator::new(0, 5),
        Err(RabitqError::UnsupportedDimension)
    ));
    assert!(matches!(
        Rotator::new(10, 5000),
        Err(RabitqError::UnsupportedDimension)
    ));
    assert!(Rotator::identity(4, 4).is_ok());

    let v = vec![1i64, 2, 3];
    let short = vec![0i64; 2];
    let zeros = vec![0i64; 3];
    let cfg = RabitqConfig::new();
    assert!(matches!(
        quantize_split_checked(&v, &short, 2, MetricType::L2, &cfg),
        Err(RabitqError::DimensionMismatch)
    ));
    assert!(matches!(
        quantize_split_checked(&v, &zeros, 9, MetricType::L2, &cfg),
        Err(RabitqError::UnsupportedExBits)
    ));
    let huge = vec![1i64 << 40, 0, 0];
    assert!(matches!(
        quantize_split_checked(&huge, &zeros, 2, MetricType::L2, &cfg),
        Err(RabitqError::CoordinateOutOfRange)
    ));
    assert!(quantize_split_checked(&v, &zeros, 2, MetricType::L2, &cfg).is_ok());

    assert!(matches!(
        SingleEstimator::try_new(&v, 4, 2, &cfg, MetricType::L2),
        Err(RabitqError::DimensionMismatch)
    ));
    assert!(matches!(
        SingleEstimator::try_new(&huge, 3, 2, &cfg, MetricType::L2),
        Err(RabitqError::CoordinateOutOfRange)
    ));
    assert!(SingleEstimator::try_new(&v, 3, 2, &cfg, MetricType::L2).is_ok());
}

#[test]
fn strategy_selection_follows_ex_bits() {
    assert_eq!(select_excode_ipfunc(0), ExIpFunc::CoarseOnly);
    assert_eq!(select_excode_ipfunc(4), ExIpFunc::Uniform);
    let est = SingleEstimator::new(
        &vec![1i64, -2, 3, -4],
        4,
        0,
        &RabitqConfig::new(),
        MetricType::L2,
    );
    assert_eq!(est.ip_func, ExIpFunc::CoarseOnly);
}
