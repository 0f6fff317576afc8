use sortcount::pipeline::{default_seed_bytes, effective_input, process};

#[test]
fn empty_input_yields_no_values_and_zero_count() {
    let out = process(&Vec::new()).unwrap();
    assert_eq!(out, b"Comparisons made: 0.\n".to_vec());
}

#[test]
fn blank_lines_yield_no_values_and_zero_count() {
    let out = process(&b"\n   \n\t\n".to_vec()).unwrap();
    assert_eq!(out, b"Comparisons made: 0.\n".to_vec());
}

#[test]
fn single_value_yields_one_comparison() {
    let out = process(&b"5\n".to_vec()).unwrap();
    assert_eq!(out, b"5\nComparisons made: 1.\n".to_vec());
}

#[test]
fn default_seed_sorts_to_one_through_ten() {
    let seed = default_seed_bytes();
    assert_eq!(seed, b"10\n9\n8\n7\n6\n5\n4\n3\n2\n1\n".to_vec());
    let out = process(&seed).unwrap();
    assert_eq!(
        out,
        b"1\n2\n3\n4\n5\n6\n7\n8\n9\n10\nComparisons made: 55.\n".to_vec()
    );
}

#[test]
fn non_numeric_line_aborts_with_no_output() {
    assert_eq!(process(&b"1\nabc\n2\n".to_vec()), None);
}

#[test]
fn duplicates_are_kept_and_count_follows_the_formula() {
    let out = process(&b"3\n1\n3\n2\n".to_vec()).unwrap();
    assert_eq!(out, b"1\n2\n3\n3\nComparisons made: 10.\n".to_vec());
}

#[test]
fn surrounding_whitespace_is_trimmed() {
    let out = process(&b"  2 \n\t-1\n".to_vec()).unwrap();
    assert_eq!(out, b"-1\n2\nComparisons made: 3.\n".to_vec());
}

#[test]
fn missing_final_newline_is_accepted() {
    let out = process(&b"2\n1".to_vec()).unwrap();
    assert_eq!(out, b"1\n2\nComparisons made: 3.\n".to_vec());
}

#[test]
fn out_of_range_value_aborts() {
    assert_eq!(process(&b"2147483648\n".to_vec()), None);
    assert_eq!(process(&b"999999999999999999999999\n".to_vec()), None);
}

#[test]
fn extreme_values_are_handled() {
    let out = process(&b"2147483647\n-2147483648\n".to_vec()).unwrap();
    assert_eq!(
        out,
        b"-2147483648\n2147483647\nComparisons made: 3.\n".to_vec()
    );
}

#[test]
fn empty_input_is_replaced_by_the_seed() {
    let (buf, seeded) = effective_input(Vec::new());
    assert!(seeded);
    assert_eq!(buf, b"10\n9\n8\n7\n6\n5\n4\n3\n2\n1\n".to_vec());
}

#[test]
fn non_empty_input_is_kept_unchanged() {
    let (buf, seeded) = effective_input(b"7\n".to_vec());
    assert!(!seeded);
    assert_eq!(buf, b"7\n".to_vec());
}
