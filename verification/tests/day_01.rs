use advent_of_code::year_2015::day_01::{floor, position};
use advent_of_code::year_2015_day_1::{calculate_final_count, calculate_operations_to_value, Counter};

#[test]
fn test_calculate_final_count() {
    let value = calculate_final_count("(())");
    assert_eq!(value, 0);

    let value = calculate_final_count("()()");
    assert_eq!(value, 0);

    let value = calculate_final_count("(((");
    assert_eq!(value, 3);

    let value = calculate_final_count("(()(()(");
    assert_eq!(value, 3);

    let value = calculate_final_count("))(((((");
    assert_eq!(value, 3);

    let value = calculate_final_count("())");
    assert_eq!(value, -1);

    let value = calculate_final_count("))(");
    assert_eq!(value, -1);

    let value = calculate_final_count(")))");
    assert_eq!(value, -3);

    let value = calculate_final_count(")())())");
    assert_eq!(value, -3);
}

#[test]
fn test_calculate_operations_to_value() {
    let moves = calculate_operations_to_value(")", -1);
    assert_eq!(moves, 1);

    let moves = calculate_operations_to_value("()())", -1);
    assert_eq!(moves, 5);
}

#[test]
fn test_apply_bad_input() {
    let mut counter = Counter::new();
    counter.apply('f');
    assert_eq!(counter.count, 0);
    assert_eq!(counter.operations, 0);
}

#[test]
fn test_floor_bad_input() {
    let floor = floor(b"pancakes");
    assert_eq!(floor, 0);
}

#[test]
fn test_floor_empty() {
    let floor = floor(b"");
    assert_eq!(floor, 0);
}

#[test]
fn test_position_bad_input_and_basement_floor() {
    let position = position(b"pancakes", -1);
    assert_eq!(position, None);
}

#[test]
fn test_position_empty_and_basement_floor() {
    let position = position(b"", -1);
    assert_eq!(position, None);
}

#[test]
fn test_position_bad_input_and_ground_floor() {
    let position = position(b"pancakes", 0);
    assert_eq!(position, Some(0));
}

#[test]
fn test_position_empty_and_ground_floor() {
    let position = position(b"", 0);
    assert_eq!(position, Some(0));
}

#[test]
fn test_floor_examples() {
    assert_eq!(floor(b"(())"), 0);
    assert_eq!(floor(b"()()"), 0);
    assert_eq!(floor(b"((("), 3);
    assert_eq!(floor(b"(()(()("), 3);
    assert_eq!(floor(b"))((((("), 3);
    assert_eq!(floor(b"())"), -1);
    assert_eq!(floor(b"))("), -1);
    assert_eq!(floor(b")))"), -3);
    assert_eq!(floor(b")())())"), -3);
}

#[test]
fn test_position_examples() {
    assert_eq!(position(b")", -1), Some(1));
    assert_eq!(position(b"()())", -1), Some(5));
    assert_eq!(position(b"x()x)", -1), Some(3));
}
