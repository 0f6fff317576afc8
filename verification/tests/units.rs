use sortcount::parse::{parse_i32, parse_input};
use sortcount::render::render_output;
use sortcount::sort::bubble_sort;

#[test]
fn sorts_in_place_and_counts_every_pair() {
    let mut data = vec![10, 9, 8, 7, 6, 5, 4, 3, 2, 1];
    let count = bubble_sort(&mut data);
    assert_eq!(data, vec![1, 2, 3, 4, 5, 6, 7, 8, 9, 10]);
    assert_eq!(count, 55);
}

#[test]
fn count_ignores_the_input_order() {
    let mut data = vec![1, 2, 3, 4];
    let count = bubble_sort(&mut data);
    assert_eq!(data, vec![1, 2, 3, 4]);
    assert_eq!(count, 10);
}

#[test]
fn empty_list_makes_no_comparisons() {
    let mut data: Vec<i32> = Vec::new();
    let count = bubble_sort(&mut data);
    assert!(data.is_empty());
    assert_eq!(count, 0);
}

#[test]
fn single_element_compares_once_with_itself() {
    let mut data = vec![5];
    let count = bubble_sort(&mut data);
    assert_eq!(data, vec![5]);
    assert_eq!(count, 1);
}

#[test]
fn duplicates_survive_sorting() {
    let mut data = vec![3, 1, 3, 2];
    let count = bubble_sort(&mut data);
    assert_eq!(data, vec![1, 2, 3, 3]);
    assert_eq!(count, 10);
}

#[test]
fn parses_plain_and_signed_literals() {
    assert_eq!(parse_i32(&b"0".to_vec()), Some(0));
    assert_eq!(parse_i32(&b"42".to_vec()), Some(42));
    assert_eq!(parse_i32(&b"-17".to_vec()), Some(-17));
    assert_eq!(parse_i32(&b"+7".to_vec()), Some(7));
    assert_eq!(parse_i32(&b"007".to_vec()), Some(7));
    assert_eq!(parse_i32(&b"-0".to_vec()), Some(0));
}

#[test]
fn parses_the_range_ends_exactly() {
    assert_eq!(parse_i32(&b"2147483647".to_vec()), Some(i32::MAX));
    assert_eq!(parse_i32(&b"-2147483648".to_vec()), Some(i32::MIN));
    assert_eq!(parse_i32(&b"2147483648".to_vec()), None);
    assert_eq!(parse_i32(&b"-2147483649".to_vec()), None);
}

#[test]
fn rejects_malformed_literals() {
    assert_eq!(parse_i32(&b"".to_vec()), None);
    assert_eq!(parse_i32(&b"-".to_vec()), None);
    assert_eq!(parse_i32(&b"+".to_vec()), None);
    assert_eq!(parse_i32(&b"12a".to_vec()), None);
    assert_eq!(parse_i32(&b"+-3".to_vec()), None);
    assert_eq!(parse_i32(&b" 7".to_vec()), None);
}

#[test]
fn parse_input_splits_trims_and_skips_blank_lines() {
    assert_eq!(
        parse_input(&b" 42 \n\n  \n-3".to_vec()),
        Some(vec![42, -3])
    );
    assert_eq!(parse_input(&Vec::new()), Some(Vec::new()));
    assert_eq!(parse_input(&b"1\nx\n2\n".to_vec()), None);
}

#[test]
fn renders_values_then_the_count_line() {
    assert_eq!(
        render_output(&vec![-5, 0, 12], 6),
        b"-5\n0\n12\nComparisons made: 6.\n".to_vec()
    );
    assert_eq!(
        render_output(&Vec::new(), 0),
        b"Comparisons made: 0.\n".to_vec()
    );
}
