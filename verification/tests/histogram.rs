use rhisto::{clamp_index, Histogram};

/// The driver's scaling step: one raw bin index per value, scaled against a
/// divisor one representable step above the range so the maximum lands just
/// inside the last bin.
fn bin_indices(values: &[f64], num_bins: usize) -> Vec<usize> {
    let (min, max) = values
        .iter()
        .fold((f64::INFINITY, f64::NEG_INFINITY), |(mn, mx), &v| {
            (mn.min(v), mx.max(v))
        });
    values
        .iter()
        .map(|&x| ((x - min) / (max.next_up() - min) * num_bins as f64).floor() as usize)
        .collect()
}

#[test]
fn histogram_counts_from_values() {
    let values = vec![2.0, 1.0, 2.0, 3.0, 3.0, 2.0, 0.0, 1.0, 1.0, 1.0];
    let histogram = Histogram::from_indices(&bin_indices(&values, 3), 3);
    assert_eq!(histogram.into_counts(), vec![5, 3, 2]);
}

#[test]
fn empty_values_make_empty_histogram() {
    let histogram = Histogram::from_indices(&Vec::new(), 5);
    assert_eq!(histogram.into_counts(), Vec::<usize>::new());
}

#[test]
fn identical_values_all_land_in_first_bin() {
    let values = vec![5.0; 10];
    let histogram = Histogram::from_indices(&bin_indices(&values, 4), 4);
    assert_eq!(histogram.into_counts(), vec![10, 0, 0, 0]);
}

#[test]
fn counts_sum_to_value_count() {
    let values = vec![-3.5, 0.0, 0.25, 7.0, 7.0, 2.5, -1.0, 6.75, 3.0];
    let histogram = Histogram::from_indices(&bin_indices(&values, 4), 4);
    let counts = histogram.into_counts();
    assert_eq!(counts.len(), 4);
    assert_eq!(counts.iter().sum::<usize>(), values.len());
}

#[test]
fn rebuilding_yields_identical_counts() {
    let values = vec![0.5, 0.25, 9.75, 3.5, 3.5, 1.0];
    let first = Histogram::from_indices(&bin_indices(&values, 3), 3).into_counts();
    let second = Histogram::from_indices(&bin_indices(&values, 3), 3).into_counts();
    assert_eq!(first, second);
}

#[test]
fn clamp_keeps_indices_inside_the_bins() {
    assert_eq!(clamp_index(0, 3), 0);
    assert_eq!(clamp_index(2, 3), 2);
    assert_eq!(clamp_index(3, 3), 2);
    assert_eq!(clamp_index(100, 3), 2);
}
