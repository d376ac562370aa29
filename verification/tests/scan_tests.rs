use hedgecut::dataset::{GiveMeSomeCreditSample, Sample, ShoppingSample};
use hedgecut::scan::{
    scan, scan_mlpack, scan_simd_categorical, scan_simd_numerical, scan_with_branches, simd_sum_mlpack,
};
use hedgecut::split_stats::SplitStats;
use hedgecut::tree::Split;

struct Numbers {
    state: u64,
}

impl Numbers {
    fn next(&mut self, bound: u8) -> u8 {
        self.state = self.state.wrapping_mul(6364136223846793005).wrapping_add(1442695040888963407);
        ((self.state >> 33) % (bound as u64 + 1)) as u8
    }
}

fn credit_samples(count: usize) -> Vec<GiveMeSomeCreditSample> {
    let mut numbers = Numbers { state: 42 };
    let mut samples = Vec::new();
    for _ in 0..count {
        let revolving_util = numbers.next(14);
        let age = numbers.next(1);
        let past_due = numbers.next(15);
        let debt_ratio = numbers.next(15);
        let income = numbers.next(15);
        let lines = numbers.next(13);
        let real_estate = numbers.next(3);
        let dependents = numbers.next(3);
        let label = numbers.next(9) < 3;
        samples.push(GiveMeSomeCreditSample {
            revolving_util,
            age,
            past_due,
            debt_ratio,
            income,
            lines,
            real_estate,
            dependents,
            label,
        });
    }
    samples
}

fn shopping_samples(count: usize) -> Vec<ShoppingSample> {
    let mut numbers = Numbers { state: 7 };
    let mut samples = Vec::new();
    for _ in 0..count {
        samples.push(ShoppingSample {
            administrative: numbers.next(7),
            administrative_duration: numbers.next(8),
            informational: numbers.next(3),
            informational_duration: numbers.next(3),
            product_related: numbers.next(15),
            product_related_duration: numbers.next(15),
            bounce_rates: numbers.next(8),
            exit_rates: numbers.next(15),
            page_values: numbers.next(3),
            special_day: numbers.next(1),
            month: numbers.next(9),
            operating_systems: numbers.next(7),
            browser: numbers.next(12),
            region: numbers.next(8),
            traffic_type: numbers.next(19),
            visitor_type: numbers.next(2),
            weekend: numbers.next(1),
            label: numbers.next(5) == 0,
        });
    }
    samples
}

fn counts(stats: &SplitStats) -> (u32, u32, u32, u32) {
    (stats.num_plus_left, stats.num_minus_left, stats.num_plus_right, stats.num_minus_right)
}

fn counts_by_hand<S: Sample>(samples: &[S], split: &Split) -> (u32, u32, u32, u32) {
    let mut found = (0, 0, 0, 0);
    for sample in samples {
        match (sample.true_label(), sample.is_left_of(split)) {
            (true, true) => found.0 += 1,
            (false, true) => found.1 += 1,
            (true, false) => found.2 += 1,
            (false, false) => found.3 += 1,
        }
    }
    found
}

#[test]
fn mlpack_impl() {
    let samples = credit_samples(1003);

    let split = Split::Numerical { attribute_index: 3, cut_off: 5 };

    let stats = scan(&samples, &split);
    let stats_mlpack = scan_mlpack(&samples, &split);

    assert_eq!(stats.num_plus_left, stats_mlpack.num_plus_left);
    assert_eq!(stats.num_plus_right, stats_mlpack.num_plus_right);
    assert_eq!(stats.num_minus_left, stats_mlpack.num_minus_left);
    assert_eq!(stats.num_minus_right, stats_mlpack.num_minus_right);
}

#[test]
fn same_result_numerical() {
    let samples = credit_samples(1003);

    let split = Split::Numerical { attribute_index: 3, cut_off: 5 };

    let stats = scan(&samples, &split);
    let stats_simd = scan_simd_numerical(&samples, &split);

    assert_eq!(stats.num_plus_left, stats_simd.num_plus_left);
    assert_eq!(stats.num_plus_right, stats_simd.num_plus_right);
    assert_eq!(stats.num_minus_left, stats_simd.num_minus_left);
    assert_eq!(stats.num_minus_right, stats_simd.num_minus_right);
}

#[test]
fn same_result_categorical() {
    let samples = shopping_samples(1001);

    let possible_values = vec![0, 7, 12];

    let mut subset: u64 = 0;
    for bit_to_set in possible_values.iter() {
        subset |= 1_u64 << *bit_to_set as u64
    }

    let split = Split::Categorical { attribute_index: 14, subset };

    let stats = scan(&samples, &split);
    let stats_simd = scan_simd_categorical(&samples, &split);

    assert_eq!(stats.num_plus_left, stats_simd.num_plus_left);
    assert_eq!(stats.num_plus_right, stats_simd.num_plus_right);
    assert_eq!(stats.num_minus_left, stats_simd.num_minus_left);
    assert_eq!(stats.num_minus_right, stats_simd.num_minus_right);
}

#[test]
fn every_scan_counts_what_a_count_by_hand_finds() {
    for count in [0usize, 1, 3, 4, 15, 16, 17, 31, 32, 33, 250] {
        let samples = credit_samples(count);
        for attribute_index in 0..8u8 {
            for cut_off in [0u8, 1, 2, 7, 14, 16, 255] {
                let split = Split::new_numerical(attribute_index, cut_off);
                let expected = counts_by_hand(&samples, &split);
                assert_eq!(expected.0 + expected.1 + expected.2 + expected.3, count as u32);
                assert_eq!(counts(&scan(&samples, &split)), expected);
                assert_eq!(counts(&scan_with_branches(&samples, &split)), expected);
                assert_eq!(counts(&scan_mlpack(&samples, &split)), expected);
                assert_eq!(counts(&scan_simd_numerical(&samples, &split)), expected);
            }
        }
        let samples = shopping_samples(count);
        for attribute_index in 10..17u8 {
            for subset in [0u64, 1, 2, 0b1011, 0x1081, u64::MAX, 1 << 19] {
                let split = Split::new_categorical(attribute_index, subset);
                let expected = counts_by_hand(&samples, &split);
                assert_eq!(counts(&scan(&samples, &split)), expected);
                assert_eq!(counts(&scan_with_branches(&samples, &split)), expected);
                assert_eq!(counts(&scan_mlpack(&samples, &split)), expected);
                assert_eq!(counts(&scan_simd_categorical(&samples, &split)), expected);
            }
        }
    }
}

#[test]
fn scans_return_unscored_statistics() {
    let samples = credit_samples(40);
    let split = Split::new_numerical(0, 7);
    let stats = scan(&samples, &split);
    assert_eq!(stats.score, None);
    assert_eq!(stats.impurity_left, 0);
    assert_eq!(stats.impurity_right, 0);
    let some_left = stats.num_plus_left + stats.num_minus_left;
    assert!(some_left > 0 && some_left < 40);
}

#[test]
fn labels_are_summed_in_batches_of_four() {
    assert_eq!(simd_sum_mlpack(&[]), [0, 0]);
    assert_eq!(simd_sum_mlpack(&[true]), [0, 1]);
    assert_eq!(simd_sum_mlpack(&[false, true]), [1, 1]);
    assert_eq!(simd_sum_mlpack(&[false, true, true]), [1, 2]);
    assert_eq!(simd_sum_mlpack(&[false, true, true, false]), [2, 2]);
    assert_eq!(simd_sum_mlpack(&[true, true, true, true, false]), [1, 4]);
    assert_eq!(simd_sum_mlpack(&[false, false, true, false, true, true, false, true, true, true, false]), [5, 6]);
}
