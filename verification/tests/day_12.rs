use advent_of_code::year_2015::day_12::{sum_numbers_in_str, sum_value, JsonNode};

#[test]
fn test_sum_numbers() {
    let sum = sum_numbers_in_str("[1,2,3]");
    assert_eq!(sum, 6);

    let sum = sum_numbers_in_str(r#"{"a":2,"b":4}"#);
    assert_eq!(sum, 6);

    let sum = sum_numbers_in_str("[[[3]]]");
    assert_eq!(sum, 3);

    let sum = sum_numbers_in_str(r#"{"a":{"b":4},"c":-1}"#);
    assert_eq!(sum, 3);

    let sum = sum_numbers_in_str(r#"{"a":[-1,1]}"#);
    assert_eq!(sum, 0);

    let sum = sum_numbers_in_str(r#"[-1,{"a":1}]"#);
    assert_eq!(sum, 0);

    let sum = sum_numbers_in_str("[]");
    assert_eq!(sum, 0);

    let sum = sum_numbers_in_str("{}");
    assert_eq!(sum, 0);
}

fn obj(fields: Vec<(&str, JsonNode)>) -> JsonNode {
    JsonNode::Obj(fields.into_iter().map(|(k, v)| (String::from(k), v)).collect())
}

#[test]
fn test_sum_value() {
    let value = JsonNode::Arr(vec![JsonNode::Num(1), JsonNode::Num(2), JsonNode::Num(3)]);
    assert_eq!(sum_value(&value), 6);

    let value = JsonNode::Arr(vec![
        JsonNode::Num(1),
        obj(vec![
            ("c", JsonNode::Str(String::from("red"))),
            ("b", JsonNode::Num(2)),
        ]),
        JsonNode::Num(3),
    ]);
    assert_eq!(sum_value(&value), 4);

    let value = obj(vec![
        ("d", JsonNode::Str(String::from("red"))),
        (
            "e",
            JsonNode::Arr(vec![
                JsonNode::Num(1),
                JsonNode::Num(2),
                JsonNode::Num(3),
                JsonNode::Num(4),
            ]),
        ),
        ("f", JsonNode::Num(5)),
    ]);
    assert_eq!(sum_value(&value), 0);

    let value = JsonNode::Arr(vec![
        JsonNode::Num(1),
        JsonNode::Str(String::from("red")),
        JsonNode::Num(5),
    ]);
    assert_eq!(sum_value(&value), 6);
}

#[test]
fn test_sum_value_red_key_does_not_hide() {
    // Only a "red" property *value* hides an object; a "red" key does not.
    let value = obj(vec![("red", JsonNode::Num(3))]);
    assert_eq!(sum_value(&value), 3);
}

#[test]
fn test_sum_numbers_signs() {
    assert_eq!(sum_numbers_in_str("a-12b34"), 22);
    assert_eq!(sum_numbers_in_str("--5"), -5);
    assert_eq!(sum_numbers_in_str("1-2"), -1);
    assert_eq!(sum_numbers_in_str("-"), 0);
    assert_eq!(sum_numbers_in_str(""), 0);
}
