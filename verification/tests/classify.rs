use cfdtcp::jenks::get_jenks_classification;
use cfdtcp::jenks::JenksError;
use cfdtcp::utilities::breaks_to_classification;
use cfdtcp::utilities::classify_val;
use cfdtcp::utilities::create_unique_val_mapping;
use cfdtcp::utilities::unique_to_normal_breaks;
use cfdtcp::utilities::Bin;
use cfdtcp::utilities::UniqueVal;

#[test]
fn breaks_to_classification_worked_example() {
    // data [1,2,4,5,7,8] with breaks [2,5]: bins [1,2) count 1, [2,5)
    // count 2, [5,8] count 3 (last bin inclusive of the maximum)
    let data: Vec<u64> = vec![1, 2, 4, 5, 7, 8];
    let breaks: Vec<u64> = vec![2, 5];
    let class = breaks_to_classification(&breaks, &data);
    let expected = vec![
        Bin { bin_start: 1, bin_end: 2, count: 1 },
        Bin { bin_start: 2, bin_end: 5, count: 2 },
        Bin { bin_start: 5, bin_end: 8, count: 3 },
    ];
    assert_eq!(class, expected);
}

#[test]
fn classification_counts_sum_to_data_length() {
    let data: Vec<u64> = vec![3, 1, 4, 1, 5, 9, 2, 6, 5, 3];
    let breaks: Vec<u64> = vec![3, 5];
    let class = breaks_to_classification(&breaks, &data);
    let total: u64 = class.iter().map(|b| b.count).sum();
    assert_eq!(total as usize, data.len());
}

#[test]
fn classify_val_finds_containing_bin() {
    let data: Vec<u64> = vec![1, 2, 4, 5, 7, 8];
    let breaks: Vec<u64> = vec![2, 5];
    let class = breaks_to_classification(&breaks, &data);
    assert_eq!(classify_val(1, &class), Some(0));
    assert_eq!(classify_val(4, &class), Some(1));
    assert_eq!(classify_val(7, &class), Some(2));
    // the dataset maximum falls in the last bin, closed on both ends
    assert_eq!(classify_val(8, &class), Some(2));
    // values outside the classification's range are not found
    assert_eq!(classify_val(0, &class), None);
    assert_eq!(classify_val(9, &class), None);
    // every classified value lies inside its bin
    for &x in &data {
        let i = classify_val(x, &class).unwrap();
        assert!(class[i].bin_start <= x);
        assert!(x < class[i].bin_end || (i == class.len() - 1 && x <= class[i].bin_end));
    }
}

#[test]
fn unique_value_mapping_records_runs() {
    let vals: Vec<u64> = vec![1, 1, 2, 2, 2, 3];
    let mut map: Vec<UniqueVal> = Vec::new();
    create_unique_val_mapping(&mut map, &vals);
    let expected = vec![
        UniqueVal { val: 1, first: 0, last: 1 },
        UniqueVal { val: 2, first: 2, last: 4 },
        UniqueVal { val: 3, first: 5, last: 5 },
    ];
    assert_eq!(map, expected);
}

#[test]
fn unique_breaks_translate_to_first_occurrences() {
    let vals: Vec<u64> = vec![1, 1, 2, 2, 2, 3];
    let mut map: Vec<UniqueVal> = Vec::new();
    create_unique_val_mapping(&mut map, &vals);
    let u_breaks: Vec<usize> = vec![1, 2];
    let mut normal: Vec<usize> = Vec::new();
    unique_to_normal_breaks(&u_breaks, &map, &mut normal);
    assert_eq!(normal, vec![2, 5]);
}

#[test]
fn jenks_three_tight_groups() {
    let data: Vec<u64> = vec![1, 2, 4, 5, 7, 8];
    let class = get_jenks_classification(3, &data).unwrap();
    let expected = vec![
        Bin { bin_start: 1, bin_end: 4, count: 2 },
        Bin { bin_start: 4, bin_end: 7, count: 2 },
        Bin { bin_start: 7, bin_end: 8, count: 2 },
    ];
    assert_eq!(class, expected);
}

#[test]
fn jenks_single_bin_spans_everything() {
    let data: Vec<u64> = vec![2, 2, 9];
    let class = get_jenks_classification(1, &data).unwrap();
    assert_eq!(class.len(), 1);
    assert_eq!(class[0].bin_start, 2);
    assert_eq!(class[0].bin_end, 9);
    assert_eq!(class[0].count, 3);
}

#[test]
fn jenks_rejects_bad_bin_counts() {
    let data: Vec<u64> = vec![1, 1, 2];
    assert_eq!(get_jenks_classification(0, &data), Err(JenksError::OutOfRangeBin));
    // only two distinct values: three bins cannot all be non-empty
    assert_eq!(get_jenks_classification(3, &data), Err(JenksError::OutOfRangeBin));
    assert!(get_jenks_classification(2, &data).is_ok());
    let empty: Vec<u64> = Vec::new();
    assert_eq!(get_jenks_classification(1, &empty), Err(JenksError::EmptyInput));
}

#[test]
fn mode_prefers_first_seen_on_ties() {
    assert_eq!(cfdtcp::mode(&vec![5, 5, 3, 3]), Some((5, 2)));
    assert_eq!(cfdtcp::mode(&vec![7, 3, 3, 7, 3]), Some((3, 3)));
    assert_eq!(cfdtcp::mode(&Vec::new()), None);
}

#[test]
fn statistics_on_empty_collection_are_absent() {
    let empty: Vec<u64> = Vec::new();
    assert_eq!(cfdtcp::mean(&empty), None);
    assert_eq!(cfdtcp::variance(&empty), None);
}

#[test]
fn mean_and_variance_exact_values() {
    let data: Vec<u64> = vec![2, 4, 6];
    let m = cfdtcp::mean(&data).unwrap();
    assert_eq!((m.num, m.den), (12, 3));
    // variance (8/3): sum of (3 * x - 12)^2 over x = 36 + 0 + 36, over 27
    let v = cfdtcp::variance(&data).unwrap();
    assert_eq!((v.num, v.den), (72, 27));
}

#[test]
fn jenks_two_bins_minimize_within_bin_spread() {
    // splitting [1,2,4] from [5,7,8] gives the smallest total within-bin
    // sum of squared deviations of all two-bin partitions
    let data: Vec<u64> = vec![1, 2, 4, 5, 7, 8];
    let class = get_jenks_classification(2, &data).unwrap();
    let expected = vec![
        Bin { bin_start: 1, bin_end: 5, count: 3 },
        Bin { bin_start: 5, bin_end: 8, count: 3 },
    ];
    assert_eq!(class, expected);
}
