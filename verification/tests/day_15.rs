use advent_of_code::year_2015::day_15::Ingredient;

#[test]
fn test_ingredient_from_str() {
    let ingredient = Ingredient::from_str(
        "Butterscotch: capacity -1, durability -2, flavor 6, texture 3, calories 8",
    )
    .unwrap();
    assert_eq!(ingredient.name, "Butterscotch");
    assert_eq!(ingredient.capacity, -1);
    assert_eq!(ingredient.durability, -2);
    assert_eq!(ingredient.flavor, 6);
    assert_eq!(ingredient.texture, 3);
    assert_eq!(ingredient.calories, 8);

    let ingredient = Ingredient::from_str(
        "Cinnamon: capacity 2, durability 3, flavor -2, texture -1, calories 3",
    )
    .unwrap();
    assert_eq!(ingredient.name, "Cinnamon");
    assert_eq!(ingredient.capacity, 2);
    assert_eq!(ingredient.calories, 3);
}

#[test]
fn test_ingredient_from_str_bad_input() {
    assert!(Ingredient::from_str("").is_err());
    assert!(Ingredient::from_str("pancakes").is_err());
    assert!(
        Ingredient::from_str("Butterscotch capacity -1, durability -2, flavor 6, texture 3, calories 8")
            .is_err()
    );
    assert!(
        Ingredient::from_str("Butterscotch: capacity -, durability -2, flavor 6, texture 3, calories 8")
            .is_err()
    );
    assert!(
        Ingredient::from_str("Butterscotch: capacity -1 durability -2, flavor 6, texture 3, calories 8")
            .is_err()
    );
}
