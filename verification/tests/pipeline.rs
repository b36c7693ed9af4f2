use cfdtcp::text_processing::Processing;
use cfdtcp::vectorization::Vectorization;
use cfdtcp::CFDTCP;
use cfdtcp::Ratio;

#[test]
fn end_to_end_distances() {
    // center "ab", list ["ab", "ac", "xy"]: vocabulary {a:2, b:1, c:1, x:1, y:1},
    // distances 0, 2 and 4, sorted ascending.
    let mut v = Vectorization::new();
    v.centor("ab".to_string());
    v.list(vec!["ab".to_string(), "ac".to_string(), "xy".to_string()]);
    let dt = v.get_dt();
    assert_eq!(dt, vec![0, 2, 4]);
    assert_eq!(v.get_word_len(), 5);
}

#[test]
fn end_to_end_statistics() {
    let mut c = CFDTCP::new();
    c.centor("ab".to_string());
    c.list(vec!["ab".to_string(), "ac".to_string(), "xy".to_string()]);
    let dt = c.get_dt();
    assert_eq!(dt, vec![0, 2, 4]);
    // mean 2.0
    let m = cfdtcp::mean(&dt).unwrap();
    assert_eq!(m, Ratio { num: 6, den: 3 });
    // population standard deviation ~ 1.633
    let var = cfdtcp::variance(&dt).unwrap();
    assert_eq!(var, Ratio { num: 72, den: 27 });
    let std_dev = (var.num as f64 / var.den as f64).sqrt();
    assert!((std_dev - 1.633).abs() < 0.001);
    // coefficient of variation ~ 0.816
    let cv2 = c.distribution().unwrap();
    assert_eq!(cv2, Ratio { num: 72, den: 108 });
    let cv = (cv2.num as f64 / cv2.den as f64).sqrt();
    assert!((cv - 0.816).abs() < 0.001);
}

#[test]
fn distance_symmetry() {
    // distance("ab" -> "ac") equals distance("ac" -> "ab")
    let mut v1 = Vectorization::new();
    v1.centor("ab".to_string());
    v1.list(vec!["ac".to_string()]);
    let mut v2 = Vectorization::new();
    v2.centor("ac".to_string());
    v2.list(vec!["ab".to_string()]);
    assert_eq!(v1.get_dt(), v2.get_dt());
}

#[test]
fn distance_to_self_is_zero_and_bounded() {
    let mut v = Vectorization::new();
    v.centor("hello".to_string());
    v.list(vec!["hello".to_string(), "zzz".to_string()]);
    let dt = v.get_dt();
    assert_eq!(dt[0], 0);
    // bounded by the vocabulary size
    assert!(dt[1] <= v.get_word_len() as u64);
}

#[test]
fn mode_of_distances() {
    let mut c = CFDTCP::new();
    c.centor("ab".to_string());
    c.list(vec!["ab".to_string(), "ac".to_string(), "xy".to_string()]);
    // distances 0, 2, 4 are each seen once; the first one wins the tie
    assert_eq!(c.mode(), Some((0, 1)));
}

#[test]
fn empty_list_gives_absent_statistics() {
    let mut c = CFDTCP::new();
    c.centor("ab".to_string());
    assert_eq!(c.get_dt(), Vec::<u64>::new());
    assert_eq!(c.mode(), None);
    assert_eq!(c.distribution(), None);
    assert_eq!(c.jenks_classify(5), None);
}

#[test]
fn zero_mean_gives_absent_dispersion() {
    let mut c = CFDTCP::new();
    c.centor("aa".to_string());
    c.list(vec!["a".to_string(), "aaa".to_string()]);
    // both texts have character set {a}: all distances are zero
    assert_eq!(c.get_dt(), vec![0, 0]);
    assert_eq!(c.distribution(), None);
}

#[test]
fn jenks_trivial_case_single_bin() {
    let mut c = CFDTCP::new();
    c.centor("a".to_string());
    c.list(vec!["a".to_string(), "a".to_string(), "a".to_string()]);
    assert_eq!(c.get_dt(), vec![0, 0, 0]);
    for max_bins in 1..6usize {
        let (n, class) = c.jenks_classify(max_bins).unwrap();
        assert_eq!(n, 1);
        assert_eq!(class.len(), 1);
        assert_eq!(class[0].bin_start, 0);
        assert_eq!(class[0].bin_end, 0);
        assert_eq!(class[0].count, 3);
        // the single bin's standard deviation is zero
        let var = cfdtcp::variance(&c.get_dt()).unwrap();
        assert_eq!(var.num, 0);
    }
}

#[test]
fn stop_word_blanking() {
    let mut p = Processing::new();
    p.add_stop_word("cd".to_string());
    p.set_ac();
    assert_eq!(p.parse("abcde".to_string()), "ab__e".to_string());
    assert_eq!(p.parse("cdcd".to_string()), "____".to_string());
    assert_eq!(p.parse("xyz".to_string()), "xyz".to_string());
}

#[test]
fn stop_word_passthrough_without_automaton() {
    let p = Processing::new();
    assert_eq!(p.parse("abcde".to_string()), "abcde".to_string());
}

#[test]
fn facade_filters_center() {
    let mut p = Processing::new();
    p.add_stop_word("xy".to_string());
    p.set_ac();
    let mut c = CFDTCP::new_with_processing(p);
    c.centor("xyab".to_string());
    c.list(vec!["ab".to_string()]);
    // center becomes "__ab"; its character set is {_, a, b}, the text's is
    // {a, b}, so the distance is 1
    assert_eq!(c.get_dt(), vec![1]);
}

#[test]
fn clear_keeps_state() {
    let mut c = CFDTCP::new();
    c.centor("ab".to_string());
    c.list(vec!["ab".to_string()]);
    c.clear();
    assert_eq!(c.get_dt(), vec![0]);
}

#[test]
fn add_appends_comparison_texts() {
    let mut v = Vectorization::new();
    v.centor("ab".to_string());
    v.add("ab".to_string());
    v.add("xy".to_string());
    assert_eq!(v.get_dt(), vec![0, 4]);
}

#[test]
fn empty_stop_word_list_is_passthrough() {
    // an automaton built over zero patterns reports no span
    let mut p = Processing::new();
    p.set_ac();
    assert_eq!(p.parse("abcde".to_string()), "abcde".to_string());
}

#[test]
fn blanking_works_on_bytes() {
    // a multi-byte character inside a stop word becomes one placeholder
    // per byte: the byte length is preserved, not the char count
    let mut p = Processing::new();
    p.add_stop_word("é".to_string());
    p.set_ac();
    assert_eq!(p.parse("aéb".to_string()), "a__b".to_string());
}
