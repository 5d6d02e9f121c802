use advent_of_code::year_2015::day_14::{
    distance_winning_reindeer_traveled, points_awarded_winning_reindeer, Reindeer,
};

#[test]
fn test_distance_winning_reindeer_traveled() {
    let mut reindeer = Vec::new();

    if let Ok(comet) = Reindeer::from_str(
        "Comet can fly 14 km/s for 10 seconds, but then must rest for 127 seconds.",
    ) {
        reindeer.push(comet);
    };

    if let Ok(dancer) = Reindeer::from_str(
        "Dancer can fly 16 km/s for 11 seconds, but then must rest for 162 seconds.",
    ) {
        reindeer.push(dancer);
    };

    let max = distance_winning_reindeer_traveled(&reindeer, 1000);
    assert_eq!(max, 1120);
}

#[test]
fn test_points_awarded_winning_reindeer() {
    let mut reindeer = Vec::new();

    if let Ok(comet) = Reindeer::from_str(
        "Comet can fly 14 km/s for 10 seconds, but then must rest for 127 seconds.",
    ) {
        reindeer.push(comet);
    };

    if let Ok(dancer) = Reindeer::from_str(
        "Dancer can fly 16 km/s for 11 seconds, but then must rest for 162 seconds.",
    ) {
        reindeer.push(dancer);
    };

    let max = points_awarded_winning_reindeer(&reindeer, 1000);
    assert_eq!(max, 689);
}

#[test]
fn test_reindeer_from_str_fields() {
    let deer = Reindeer::from_str(
        "Comet can fly 14 km/s for 10 seconds, but then must rest for 127 seconds.",
    )
    .unwrap();
    assert_eq!(deer.name, "Comet");
    assert_eq!(deer.flying_speed, 14);
    assert_eq!(deer.flying_time, 10);
    assert_eq!(deer.rest_time, 127);
}

#[test]
fn test_reindeer_from_str_bad_input() {
    assert!(Reindeer::from_str("").is_err());
    assert!(Reindeer::from_str("Comet can fly fast").is_err());
    assert!(
        Reindeer::from_str(
            "Comet can fly 14 km/s for 10 seconds but then must rest for 127 seconds."
        )
        .is_err()
    );
}

#[test]
fn test_distance_short_race() {
    let deer = Reindeer::from_str(
        "Comet can fly 14 km/s for 10 seconds, but then must rest for 127 seconds.",
    )
    .unwrap();
    // After one second Comet has flown 14 km; after 12 it is resting at 140.
    assert_eq!(distance_winning_reindeer_traveled(&[deer], 1), 14);
    let deer = Reindeer::from_str(
        "Comet can fly 14 km/s for 10 seconds, but then must rest for 127 seconds.",
    )
    .unwrap();
    assert_eq!(distance_winning_reindeer_traveled(&[deer], 12), 140);
}
