use colony::chance::{by_probability, decide, pick_by_probability, probability, rand_in, rand_in2d, random, spread_at, PARTS};

#[test]
fn roll_stays_below_the_whole() {
    for _ in 0..1000 {
        assert!(random() < PARTS);
    }
}

#[test]
fn event_happens_below_its_probability() {
    assert!(decide(0, 1));
    assert!(!decide(0, 0));
    assert!(decide(499_999, 500_000));
    assert!(!decide(500_000, 500_000));
    assert!(!probability(0));
    assert!(probability(PARTS));
    assert!(probability(u32::MAX));
}

#[test]
fn spread_goes_from_one_end_short_of_the_other() {
    assert_eq!(spread_at(10, 20, 0), 10);
    assert_eq!(spread_at(10, 20, 500_000), 15);
    assert_eq!(spread_at(10, 20, 999_999), 19);
    assert_eq!(spread_at(-1024, 1024, 250_000), -512);
    assert_eq!(spread_at(20, 10, 500_000), 15);
    assert_eq!(spread_at(20, 10, 1), 19);
    assert_eq!(spread_at(20, 10, 0), 20);
    assert_eq!(spread_at(7, 7, 123_456), 7);
    assert_eq!(spread_at(i32::MIN, i32::MAX, 999_999), i32::MAX - 4295);
    assert_eq!(spread_at(i32::MAX, i32::MIN, 999_999), i32::MIN + 4294);
}

#[test]
fn random_point_stays_in_its_range() {
    for _ in 0..1000 {
        let x = rand_in(-5, 5);
        assert!((-5..=5).contains(&x));
        let y = rand_in(9, 3);
        assert!((3..=9).contains(&y));
        let p = rand_in2d(-1024, 1024);
        assert!((-1024..=1024).contains(&p.0) && (-1024..=1024).contains(&p.1));
    }
    assert_eq!(rand_in(4, 4), 4);
}

#[test]
fn table_is_walked_with_what_is_left_of_the_roll() {
    let table = vec![('a', 200_000), ('b', 300_000), ('c', 100_000)];
    assert_eq!(pick_by_probability(&table, 0, 'z'), 'a');
    assert_eq!(pick_by_probability(&table, 199_999, 'z'), 'a');
    assert_eq!(pick_by_probability(&table, 200_000, 'z'), 'b');
    assert_eq!(pick_by_probability(&table, 499_999, 'z'), 'b');
    assert_eq!(pick_by_probability(&table, 500_000, 'z'), 'c');
    assert_eq!(pick_by_probability(&table, 599_999, 'z'), 'c');
    assert_eq!(pick_by_probability(&table, 600_000, 'z'), 'z');
    assert_eq!(pick_by_probability(&Vec::new(), 5, 'z'), 'z');
    assert_eq!(by_probability(&Vec::new(), 'z'), 'z');
    assert_eq!(by_probability(&vec![('a', PARTS)], 'z'), 'a');
}
