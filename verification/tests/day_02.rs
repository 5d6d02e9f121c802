use advent_of_code::year_2015::day_02::Present;

#[test]
fn test_present_from_str_bad_input() {
    match Present::from_str("hjhjxjhjhxikjk") {
        Ok(_) => panic!(),
        Err(_) => (),
    }

    match Present::from_str("1x1") {
        Ok(_) => panic!(),
        Err(_) => (),
    }

    match Present::from_str("1x1x1x1") {
        Ok(_) => panic!(),
        Err(_) => (),
    }

    match Present::from_str("-1x-1x-1") {
        Ok(_) => panic!(),
        Err(_) => (),
    }
}

#[test]
fn test_present_from_str_zero() {
    let present = Present::from_str("0x0x0").unwrap();
    assert_eq!(present.wrapping_paper_needed(), 0);
    assert_eq!(present.ribbon_needed(), 0);
}

#[test]
fn test_present_from_string_bad_input() {
    match Present::from_str("hjhjxjhjhxikjk") {
        Ok(_) => panic!(),
        Err(_) => (),
    }

    match Present::from_str("1x1") {
        Ok(_) => panic!(),
        Err(_) => (),
    }

    match Present::from_str("1x1x1x1") {
        Ok(_) => panic!(),
        Err(_) => (),
    }

    match Present::from_str("-1x-1x-1") {
        Ok(_) => panic!(),
        Err(_) => (),
    }
}

#[test]
fn test_present_from_string_zero() {
    let present = Present::from_str("0x0x0").unwrap();
    assert_eq!(present.wrapping_paper_needed(), 0);
    assert_eq!(present.ribbon_needed(), 0);
}

#[test]
fn test_wrapping_paper_needed() {
    let present = Present::from_str("2x3x4").unwrap();
    assert_eq!(present.wrapping_paper_needed(), 58);

    let present = Present::from_str("1x1x10").unwrap();
    assert_eq!(present.wrapping_paper_needed(), 43);
}

#[test]
fn test_ribbon_needed() {
    let present = Present::from_str("2x3x4").unwrap();
    assert_eq!(present.ribbon_needed(), 34);

    let present = Present::from_str("1x1x10").unwrap();
    assert_eq!(present.ribbon_needed(), 14);
}

#[test]
fn test_present_fields() {
    let present = Present::from_str("2x3x4").unwrap();
    assert_eq!(present.length, 2);
    assert_eq!(present.width, 3);
    assert_eq!(present.height, 4);
}
