use advent_of_code::year_2015::day_13::{SeatingPlan, SeatingPreference};

fn sample_plan() -> SeatingPlan {
    let lines = [
        "Alice would gain 54 happiness units by sitting next to Bob.",
        "Alice would lose 79 happiness units by sitting next to Carol.",
        "Alice would lose 2 happiness units by sitting next to David.",
        "Bob would gain 83 happiness units by sitting next to Alice.",
        "Bob would lose 7 happiness units by sitting next to Carol.",
        "Bob would lose 63 happiness units by sitting next to David.",
        "Carol would lose 62 happiness units by sitting next to Alice.",
        "Carol would gain 60 happiness units by sitting next to Bob.",
        "Carol would gain 55 happiness units by sitting next to David.",
        "David would gain 46 happiness units by sitting next to Alice.",
        "David would lose 7 happiness units by sitting next to Bob.",
        "David would gain 41 happiness units by sitting next to Carol.",
    ];
    let mut plan = SeatingPlan::new();
    for line in lines {
        plan.add_preference(SeatingPreference::from_str(line).unwrap());
    }
    plan
}

#[test]
fn test_happiest_table_sample() {
    let plan = sample_plan();
    assert_eq!(plan.happiest_table(), 330);
}

#[test]
fn test_seating_preference_from_str() {
    let p =
        SeatingPreference::from_str("Alice would gain 54 happiness units by sitting next to Bob.")
            .unwrap();
    assert_eq!(p.guest, "Alice");
    assert_eq!(p.neighbour, "Bob");
    assert_eq!(p.happiness, 54);

    let p =
        SeatingPreference::from_str("Bob would lose 63 happiness units by sitting next to David.")
            .unwrap();
    assert_eq!(p.guest, "Bob");
    assert_eq!(p.neighbour, "David");
    assert_eq!(p.happiness, -63);
}

#[test]
fn test_seating_preference_bad_input() {
    assert!(SeatingPreference::from_str("").is_err());
    assert!(SeatingPreference::from_str("pancakes").is_err());
    assert!(
        SeatingPreference::from_str(
            "Alice would win 54 happiness units by sitting next to Bob."
        )
        .is_err()
    );
    assert!(
        SeatingPreference::from_str(
            "Alice would gain 54 happiness units by sitting next to Bob"
        )
        .is_err()
    );
}

#[test]
fn test_happiest_table_two_guests() {
    // With two guests each pairing counts twice: once on each side.
    let mut plan = SeatingPlan::new();
    plan.add_preference(
        SeatingPreference::from_str("A would gain 1 happiness units by sitting next to B.")
            .unwrap(),
    );
    plan.add_preference(
        SeatingPreference::from_str("B would gain 2 happiness units by sitting next to A.")
            .unwrap(),
    );
    assert_eq!(plan.happiest_table(), 6);
}

#[test]
fn test_happiest_table_empty() {
    let plan = SeatingPlan::new();
    assert_eq!(plan.happiest_table(), 0);
}
