use packet_router::food_ratings::FoodRatings;

fn strings(v: &[&str]) -> Vec<String> {
    v.iter().map(|s| s.to_string()).collect()
}

fn sample() -> FoodRatings {
    FoodRatings::new(
        strings(&["kimchi", "miso", "sushi", "moussaka", "ramen", "bulgogi"]),
        strings(&["korean", "japanese", "japanese", "greek", "japanese", "korean"]),
        vec![9, 12, 8, 15, 14, 7],
    )
}

#[test]
fn highest_rated_per_cuisine() {
    let f = sample();
    assert_eq!(f.highest_rated("korean".to_string()), "kimchi");
    assert_eq!(f.highest_rated("japanese".to_string()), "ramen");
    assert_eq!(f.highest_rated("greek".to_string()), "moussaka");
}

#[test]
fn change_rating_reorders() {
    let mut f = sample();
    f.change_rating("sushi".to_string(), 16);
    assert_eq!(f.highest_rated("japanese".to_string()), "sushi");
    f.change_rating("ramen".to_string(), 16);
    assert_eq!(f.highest_rated("japanese".to_string()), "ramen");
    f.change_rating("ramen".to_string(), 1);
    assert_eq!(f.highest_rated("japanese".to_string()), "sushi");
}

#[test]
fn lowering_the_top_food() {
    let mut f = sample();
    f.change_rating("kimchi".to_string(), 0);
    assert_eq!(f.highest_rated("korean".to_string()), "bulgogi");
}

#[test]
fn equal_ratings_prefer_smaller_name() {
    let f = FoodRatings::new(
        strings(&["b", "ab", "abc", "Z"]),
        strings(&["x", "x", "x", "y"]),
        vec![5, 5, 5, 1],
    );
    assert_eq!(f.highest_rated("x".to_string()), "ab");
}

#[test]
fn lists_of_different_lengths_are_cut_to_shortest() {
    let f = FoodRatings::new(strings(&["a", "b", "c"]), strings(&["x", "x"]), vec![1, 2, 3]);
    assert_eq!(f.highest_rated("x".to_string()), "b");
}

#[test]
fn negative_ratings() {
    let mut f = FoodRatings::new(strings(&["p", "q"]), strings(&["x", "x"]), vec![-3, -1]);
    assert_eq!(f.highest_rated("x".to_string()), "q");
    f.change_rating("p".to_string(), i32::MAX);
    assert_eq!(f.highest_rated("x".to_string()), "p");
}
