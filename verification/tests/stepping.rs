use relation::Relation;

fn triple_minus_one(x: i64) -> i64 {
    3 * x - 1
}

#[test]
fn new_stands_at_the_starter() {
    let relation = Relation::new(7i32, |x| x * 10);
    assert_eq!(relation.current_number(), 7);

    let negative = Relation::new(-5i64, |x| x - 1);
    assert_eq!(negative.current_number(), -5);

    let float = Relation::new(-0.25f64, |x| x * x);
    assert_eq!(float.current_number(), -0.25);
}

#[test]
fn calculate_next_leaves_the_relation_in_place() {
    let mut relation = Relation::new(3i32, |x| 2 * x + 1);
    assert_eq!(relation.calculate_next(), 7);
    assert_eq!(relation.calculate_next(), 7);
    assert_eq!(relation.calculate_next(), 7);
    assert_eq!(relation.current_number(), 3);

    relation.next();
    assert_eq!(relation.current_number(), 7);
    assert_eq!(relation.calculate_next(), 15);
    assert_eq!(relation.calculate_next(), 15);
    assert_eq!(relation.nth(2), 31);
}

#[test]
fn next_applies_the_transition_once() {
    let mut relation = Relation::new(2i64, triple_minus_one);
    relation.next();
    assert_eq!(relation.current_number(), 5);
    relation.next();
    assert_eq!(relation.current_number(), 14);
    relation.next();
    assert_eq!(relation.current_number(), 41);
}

#[test]
fn nth_zero_changes_nothing() {
    let mut relation = Relation::new(9i32, |x| x - 4);
    assert_eq!(relation.nth(0), 9);
    assert_eq!(relation.current_number(), 9);
    assert_eq!(relation.nth(0), 9);
    assert_eq!(relation.calculate_next(), 5);

    let mut float = Relation::new(1.5f64, |x| x / 3.);
    assert_eq!(float.nth(0), 1.5);
    assert_eq!(float.current_number(), 1.5);
}

#[test]
fn nth_one_is_next() {
    let mut by_nth = Relation::new(2i64, triple_minus_one);
    let mut by_next = Relation::new(2i64, triple_minus_one);
    assert_eq!(by_nth.nth(1), 5);
    by_next.next();
    assert_eq!(by_next.current_number(), 5);
}

#[test]
fn nth_is_next_repeated() {
    let mut by_nth = Relation::new(2i64, triple_minus_one);
    let mut by_next = Relation::new(2i64, triple_minus_one);
    for _ in 0..6 {
        by_next.next();
    }
    assert_eq!(by_nth.nth(6), 1094);
    assert_eq!(by_next.current_number(), 1094);
    assert_eq!(by_nth.current_number(), 1094);
}

#[test]
fn nth_then_calculate_next_is_one_more_step() {
    let mut relation = Relation::new(2i64, triple_minus_one);
    let mut further = Relation::new(2i64, triple_minus_one);
    assert_eq!(relation.nth(4), 122);
    assert_eq!(relation.calculate_next(), 365);
    assert_eq!(further.nth(5), 365);
    relation.next();
    assert_eq!(relation.current_number(), 365);
}

#[test]
fn nth_twice_is_nth_of_the_sum() {
    let mut in_two = Relation::new(1i64, |x| 2 * x - 3);
    let mut at_once = Relation::new(1i64, |x| 2 * x - 3);
    assert_eq!(in_two.nth(3), -13);
    assert_eq!(in_two.nth(4), -253);
    assert_eq!(at_once.nth(7), -253);
    assert_eq!(in_two.current_number(), at_once.current_number());

    let mut halves = Relation::new(1.0f64, |x| x / 2.);
    let mut halves_at_once = Relation::new(1.0f64, |x| x / 2.);
    halves.nth(1);
    assert_eq!(halves.nth(100), halves_at_once.nth(101));
}

#[test]
fn nth_returns_the_new_current_value() {
    let mut relation = Relation::new(-1i32, |x| -2 * x);
    assert_eq!(relation.nth(5), 32);
    assert_eq!(relation.current_number(), 32);
    assert_eq!(relation.nth(1), -64);
    assert_eq!(relation.current_number(), -64);
}

#[test]
fn transition_may_capture_its_surroundings() {
    let stride = 12i32;
    let mut relation = Relation::new(-30, move |x| x + stride);
    assert_eq!(relation.calculate_next(), -18);
    assert_eq!(relation.nth(5), 30);
}

#[test]
fn a_copy_steps_on_its_own() {
    let mut relation = Relation::new(4i32, |x| x * x - 10);
    let mut copy = relation;
    let mut clone = relation.clone();
    relation.next();
    assert_eq!(relation.current_number(), 6);
    assert_eq!(copy.current_number(), 4);
    assert_eq!(clone.current_number(), 4);
    assert_eq!(copy.nth(2), 26);
    assert_eq!(clone.nth(3), 666);
    assert_eq!(relation.current_number(), 6);
}

#[test]
fn float_special_values_pass_through() {
    let mut grows = Relation::new(1.0e300f64, |x| x * 1.0e10);
    assert_eq!(grows.nth(1), f64::INFINITY);
    assert_eq!(grows.nth(3), f64::INFINITY);

    let mut undefined = Relation::new(0.0f64, |x| x / x);
    assert!(undefined.calculate_next().is_nan());
    assert!(undefined.nth(2).is_nan());
}

#[test]
fn integer_steps_may_wrap_where_the_transition_says_so() {
    let mut relation = Relation::new(i8::MAX, |x: i8| x.wrapping_add(1));
    assert_eq!(relation.calculate_next(), i8::MIN);
    assert_eq!(relation.nth(2), -127);
}
