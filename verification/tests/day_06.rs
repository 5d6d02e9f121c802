use advent_of_code::year_2015::day_06::{AdjustableBulb, LightGrid, LightInstruction, SimpleBulb};

#[test]
fn test_light_grid_follow_instruction_bad_input() {
    match LightInstruction::from_str("pancakes") {
        Ok(_) => panic!(),
        Err(_) => (),
    };

    match LightInstruction::from_str("switch 0,0 through 999,0") {
        Ok(_) => panic!(),
        Err(_) => (),
    };

    match LightInstruction::from_str("switch -1,0 through 999,0") {
        Ok(_) => panic!(),
        Err(_) => (),
    };

    match LightInstruction::from_str("turn on 1000,1001 through 1000,1002") {
        Ok(_) => panic!(),
        Err(_) => (),
    };
}

#[test]
fn test_light_grid_apply_operation() {
    let mut grid = LightGrid::<SimpleBulb>::new();
    if let Ok(instruction) = LightInstruction::from_str("turn on 0,0 through 999,999") {
        grid.apply_operation(instruction);
    };
    assert_eq!(grid.total_brightness(), 1000000);

    if let Ok(instruction) = LightInstruction::from_str("turn off 499,499 through 500,500") {
        grid.apply_operation(instruction);
    };
    assert_eq!(grid.total_brightness(), 999996);

    let mut grid = LightGrid::<SimpleBulb>::new();
    if let Ok(instruction) = LightInstruction::from_str("toggle 0,0 through 999,0") {
        grid.apply_operation(instruction);
    };
    assert_eq!(grid.total_brightness(), 1000);
}

#[test]
fn test_light_grid_increase_brightness() {
    let mut grid = LightGrid::<AdjustableBulb>::new();
    if let Ok(instruction) = LightInstruction::from_str("turn on 0,0 through 0,0") {
        grid.apply_operation(instruction);
    };
    assert_eq!(grid.total_brightness(), 1);

    let mut grid = LightGrid::<AdjustableBulb>::new();
    if let Ok(instruction) = LightInstruction::from_str("toggle 0,0 through 999,999") {
        grid.apply_operation(instruction);
    };
    assert_eq!(grid.total_brightness(), 2000000);
}

#[test]
fn test_light_grid_turn_off_floor() {
    // An adjustable bulb never goes below zero.
    let mut grid = LightGrid::<AdjustableBulb>::new();
    if let Ok(instruction) = LightInstruction::from_str("turn off 0,0 through 0,0") {
        grid.apply_operation(instruction);
    };
    assert_eq!(grid.total_brightness(), 0);
}

#[test]
fn test_light_instruction_fields() {
    let instruction = LightInstruction::from_str("turn on 1,2 through 33,444").unwrap();
    assert_eq!(instruction.start_point.x, 1);
    assert_eq!(instruction.start_point.y, 2);
    assert_eq!(instruction.end_point.x, 33);
    assert_eq!(instruction.end_point.y, 444);
}
