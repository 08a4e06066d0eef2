//! End-to-end runs of the rotate/quantize/estimate pipeline on random
//! vectors, handled as fixed-point coordinates at scale 1024.

use rabitq::estimator::SingleCentroidEstimator;
use rabitq::quantizer::{MetricType, quantize_split_single};
use rabitq::rotator::Rotator;
use rabitq::{BatchBinEstimator, RabitqConfig, SingleEstimator};

const SCALE: f64 = 1024.0;

fn lcg_next(state: &mut u64) -> u64 {
    *state = state
        .wrapping_mul(6364136223846793005)
        .wrapping_add(1442695040888963407);
    *state
}

/// Uniform fixed-point coordinate in (-SCALE, SCALE).
fn uniform_coord(state: &mut u64) -> i64 {
    let x = lcg_next(state) >> 11;
    let f = (x as f64 / (1u64 << 53) as f64) * 2.0 - 1.0;
    (f * SCALE).round() as i64
}

fn random_vector(state: &mut u64, dim: usize) -> Vec<i64> {
    let mut v = Vec::new();
    for _ in 0..dim {
        v.push(uniform_coord(state));
    }
    v
}

fn sqr_norm_of_diff(a: &[i64], b: &[i64]) -> i64 {
    let mut acc: i64 = 0;
    for i in 0..a.len() {
        let d = a[i] - b[i];
        acc += d * d;
    }
    acc
}

fn int_sqrt(n: i64) -> i64 {
    (n as f64).sqrt() as i64
}

fn dist_f(fixed_sqr: i64) -> f64 {
    (fixed_sqr as f64 / (SCALE * SCALE)).max(0.0).sqrt()
}

#[test]
fn test_quantization_and_estimation() {
    const DIM: usize = 1024;
    const PADDED_DIM: usize = 1024;
    const NUM_VECTORS: usize = 100;
    const EX_BITS: usize = 4;

    // 1. Generate random vectors
    let mut rng: u64 = 0x1234_5678;
    let mut vectors: Vec<Vec<i64>> = Vec::new();
    for _ in 0..NUM_VECTORS {
        vectors.push(random_vector(&mut rng, DIM));
    }
    let query_vec = random_vector(&mut rng, DIM);

    // 2. Create a rotator and rotate vectors
    let rotator = Rotator::new(DIM, PADDED_DIM).expect("Failed to create rotator");
    let mut rotated_vectors: Vec<Vec<i64>> = Vec::new();
    for i in 0..NUM_VECTORS {
        let mut row = vec![0i64; rotator.padded_dim()];
        rotator.rotate(&vectors[i], &mut row);
        rotated_vectors.push(row);
    }
    let mut rotated_query = vec![0i64; rotator.padded_dim()];
    rotator.rotate(&query_vec, &mut rotated_query);

    // 3. Quantize with a random centroid
    let centroid = random_vector(&mut rng, rotator.padded_dim());

    let (bin_codes, ex_codes) = quantize_split_single(
        &rotated_vectors[0],
        &centroid,
        EX_BITS,
        MetricType::L2,
        &RabitqConfig::new(),
    );

    // 4. Query
    let mut query = SingleEstimator::new(
        &rotated_query,
        rotator.padded_dim(),
        EX_BITS,
        &RabitqConfig::new(),
        MetricType::L2,
    );

    // 4.1 estimate using 1-bit encoding
    println!("rotator dim: {:?}", bin_codes.bits.len());
    let g_add = sqr_norm_of_diff(&rotated_query, &centroid);
    let g_err = int_sqrt(g_add);
    let (dist, low_dist, ip) = query.est_dist(&bin_codes, g_add, g_err);
    assert!(low_dist <= dist);
    // Calculate the exact distance
    let l2_dist = dist_f(sqr_norm_of_diff(&query_vec, &rotated_vectors[0]));
    println!("acc dist: {:}", l2_dist);
    println!(
        "1-bit dist: {:?}, low_dist: {:?}, ip: {:?}",
        dist_f(dist),
        dist_f(low_dist),
        ip
    );

    query.set_g_add(g_err, 0);
    let estimated_dist = query.distance_boosting(&ex_codes, ip);

    println!("5-bit estimated dist: {:}", dist_f(estimated_dist));
}

#[test]
fn test_batch_bin_estimator() {
    const DIM: usize = 1024;
    const PADDED_DIM: usize = 1024;
    const NUM_VECTORS: usize = 32; // the fixed batch width
    const EX_BITS: usize = 4;

    // 1. Generate random vectors
    let mut rng: u64 = 0x9abc_def0;
    let mut vectors: Vec<Vec<i64>> = Vec::new();
    for _ in 0..NUM_VECTORS {
        vectors.push(random_vector(&mut rng, DIM));
    }
    let query_vec = random_vector(&mut rng, DIM);

    // 2. Create a rotator and rotate vectors
    let rotator = Rotator::new(DIM, PADDED_DIM).expect("Failed to create rotator");
    let mut rotated_vectors: Vec<Vec<i64>> = Vec::new();
    for i in 0..NUM_VECTORS {
        let mut row = vec![0i64; rotator.padded_dim()];
        rotator.rotate(&vectors[i], &mut row);
        rotated_vectors.push(row);
    }
    let mut rotated_query = vec![0i64; rotator.padded_dim()];
    rotator.rotate(&query_vec, &mut rotated_query);

    // 3. Quantize vectors
    let centroid = vec![0i64; rotator.padded_dim()];
    let mut batch_bin_codes = Vec::new();
    let config = RabitqConfig::new();

    for i in 0..NUM_VECTORS {
        let (bin_codes, _) = quantize_split_single(
            &rotated_vectors[i],
            &centroid,
            EX_BITS,
            MetricType::L2,
            &config,
        );
        batch_bin_codes.push(bin_codes);
    }

    // 4. Create BatchBinEstimator and estimate
    let mut estimator = BatchBinEstimator::new(&rotated_query, rotator.padded_dim());
    let g_add = int_sqrt(sqr_norm_of_diff(&rotated_query, &centroid));
    estimator.set_g_add(g_add);

    let mut estimated_distances = vec![0i64; NUM_VECTORS];
    estimator.batch_est(&batch_bin_codes, &mut estimated_distances);

    // 5. Calculate exact distances and compare
    println!("Batch Bin Estimator Results:");
    for i in 0..NUM_VECTORS {
        let l2_dist = dist_f(sqr_norm_of_diff(&query_vec, &vectors[i]));
        println!(
            "Vector {}: Exact L2 Dist = {:.4}, Estimated Dist = {:.4}",
            i,
            l2_dist,
            dist_f(estimated_distances[i])
        );
    }
}

#[test]
fn test_single_centroid_estimator() {
    const DIM: usize = 1024;
    const PADDED_DIM: usize = 1024;
    const EX_BITS: usize = 4;

    // 1. Generate random vectors
    let mut rng: u64 = 0x0f0f_2323;
    let vector = random_vector(&mut rng, DIM);
    let query_vec = random_vector(&mut rng, DIM);

    // 2. Create a rotator and rotate vectors
    let rotator = Rotator::new(DIM, PADDED_DIM).expect("Failed to create rotator");
    let mut rotated_vector = vec![0i64; rotator.padded_dim()];
    rotator.rotate(&vector, &mut rotated_vector);

    let mut rotated_query = vec![0i64; rotator.padded_dim()];
    rotator.rotate(&query_vec, &mut rotated_query);

    // 3. Quantize with centroid
    let centroid = random_vector(&mut rng, rotator.padded_dim());

    let (bin_codes, ex_codes) = quantize_split_single(
        &rotated_vector,
        &centroid,
        EX_BITS,
        MetricType::L2,
        &RabitqConfig::new(),
    );

    // 4. Query using SingleCentroidEstimator
    let mut centroid_query = SingleCentroidEstimator::new(
        &rotated_query,
        &centroid,
        rotator.padded_dim(),
        EX_BITS,
        &RabitqConfig::new(),
        MetricType::L2,
    );

    // 4.1 estimate using 1-bit encoding
    let g_add = sqr_norm_of_diff(&rotated_query, &centroid);
    let g_err = int_sqrt(g_add);

    let (dist, low_dist, ip) = centroid_query.est_dist(&bin_codes, g_add, g_err);
    assert!(low_dist <= dist);

    // Calculate the exact distance
    let l2_dist = sqr_norm_of_diff(&query_vec, &vector);
    println!("[SingleCentroidEstimator] acc dist: {:}", l2_dist);
    println!(
        "[SingleCentroidEstimator] 1-bit dist: {:?}, low_dist: {:?}, ip: {:?}",
        dist, low_dist, ip
    );
    // calculate the exact inner product
    let mut exact_ip: i64 = 0;
    for i in 0..rotator.padded_dim() {
        exact_ip += (rotated_query[i] - centroid[i]) * rotated_vector[i];
    }
    println!("ip: {:?}", exact_ip);

    // 4.2 distance boosting
    centroid_query.set_g_add(g_err, 0);
    let estimated_dist = centroid_query.distance_boosting(&ex_codes, ip);
    println!(
        "[SingleCentroidEstimator] 5-bit estimated dist: {:}",
        dist_f(estimated_dist)
    );
    let full_dist = centroid_query.full_dist(&bin_codes, &ex_codes, g_add, g_err);
    assert!(full_dist.1 <= full_dist.0);
    println!(
        "[SingleCentroidEstimator] full dist: {:}, {:}, {:}",
        full_dist.0, full_dist.1, full_dist.2
    );

    // 5. Query using SingleEstimator for comparison
    let mut single_query = SingleEstimator::new(
        &rotated_query,
        rotator.padded_dim(),
        EX_BITS,
        &RabitqConfig::new(),
        MetricType::L2,
    );
    single_query.set_g_add(g_err, 0); // g_err is norm, ip is 0 for L2

    let (single_dist, single_low_dist, single_ip) = single_query.est_dist(&bin_codes, g_add, g_err);
    println!(
        "[SingleEstimator] 1-bit dist: {:?}, low_dist: {:?}, ip: {:?}",
        single_dist, single_low_dist, single_ip
    );

    let single_full_dist_res = single_query.full_dist(&bin_codes, &ex_codes, g_add, g_err);
    println!(
        "[SingleEstimator] Full estimated dist: {:}, {:}, {:}",
        single_full_dist_res.0, single_full_dist_res.1, single_full_dist_res.2
    );
}
