use advent_of_code::year_2015::day_04::find_number;

#[test]
fn test_find_number_with_five_leading_zeroes() {
    let number = find_number(b"abcdef", 5).unwrap();
    assert_eq!(number, 609043);

    let number = find_number(b"pqrstuv", 5).unwrap();
    assert_eq!(number, 1048970);
}

#[test]
fn test_find_number_with_five_leading_zeroes_input() {
    let key = b"iwrupvqb";

    let number = find_number(key, 5).unwrap();
    assert_eq!(number, 346386);
}

#[test]
fn test_find_number_rejects_large_counts() {
    assert_eq!(find_number(b"abcdef", 129), None);
}

#[test]
fn test_find_number_zero_count() {
    // Zero leading zeroes: the very first number already qualifies.
    assert_eq!(find_number(b"abcdef", 0), Some(0));
}
