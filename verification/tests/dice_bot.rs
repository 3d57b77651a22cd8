use commandbot::dice::DiceBot;

#[test]
fn single_die_with_given_roll() {
    assert_eq!(DiceBot::dice_with("6".to_string(), 7), "2");
    assert_eq!(DiceBot::dice_with("6".to_string(), 5), "6");
    assert_eq!(DiceBot::dice_with("20".to_string(), 0), "1");
    assert_eq!(DiceBot::dice_with("100".to_string(), 12345), "46");
    assert_eq!(DiceBot::dice_with("1".to_string(), u64::MAX), "1");
    assert_eq!(DiceBot::dice_with(u64::MAX.to_string(), u64::MAX - 1), u64::MAX.to_string());
}

#[test]
fn single_die_defaults_to_six_sides() {
    assert_eq!(DiceBot::single_die_sides(&"abc".to_string()), 6);
    assert_eq!(DiceBot::single_die_sides(&"".to_string()), 6);
    assert_eq!(DiceBot::single_die_sides(&"-3".to_string()), 6);
    assert_eq!(DiceBot::single_die_sides(&"+12".to_string()), 12);
    assert_eq!(DiceBot::single_die_sides(&"0".to_string()), 0);
    assert_eq!(DiceBot::dice_with("abc".to_string(), 5), "6");
    assert_eq!(DiceBot::dice_with(" 6".to_string(), 6), "1");
}

#[test]
fn single_die_stays_in_range() {
    for _ in 0..200 {
        let v: u64 = DiceBot::dice("20".to_string()).parse().unwrap();
        assert!((1..=20).contains(&v));
    }
    let seen: std::collections::HashSet<String> =
        (0..200).map(|_| DiceBot::dice("1000000".to_string())).collect();
    assert!(seen.len() > 1);
}

fn calc(term: &str, rolls: &[u32]) -> Option<i64> {
    DiceBot::calc_dice_with(term.to_string(), &rolls.to_vec())
}

#[test]
fn plain_numbers() {
    assert_eq!(calc("42", &[]), Some(42));
    assert_eq!(calc("0", &[]), Some(0));
    assert_eq!(calc("9223372036854775807", &[]), Some(i64::MAX));
    assert_eq!(calc("9223372036854775808", &[]), Some(0));
    assert_eq!(calc("abc", &[]), Some(0));
    assert_eq!(calc("", &[]), Some(0));
    assert_eq!(calc(" 4", &[]), Some(0));
}

#[test]
fn dice_pieces() {
    assert_eq!(calc("2d6", &[4]), Some(10));
    assert_eq!(calc("d20", &[19]), Some(20));
    assert_eq!(calc("d20", &[20]), Some(1));
    assert_eq!(calc("3d", &[77]), Some(3));
    assert_eq!(calc("xd4", &[2]), Some(3));
    assert_eq!(calc("2d6d", &[5]), Some(2));
    assert_eq!(calc("0d6", &[3]), Some(0));
    assert_eq!(calc("1d4294967295", &[4294967294]), Some(4294967295));
}

#[test]
fn sums_and_differences() {
    assert_eq!(calc("2d6+3", &[4]), Some(13));
    assert_eq!(calc("10-2-3", &[]), Some(5));
    assert_eq!(calc("-5", &[]), Some(-5));
    assert_eq!(calc("1+", &[]), Some(1));
    assert_eq!(calc("+", &[]), Some(0));
    assert_eq!(calc("1d6-1d4+2", &[0, 3]), Some(1 - 4 + 2));
    assert_eq!(calc("5-d4+1d6-2", &[1, 5]), Some(5 - 2 + 6 - 2));
    assert_eq!(calc("1d2+1d2+1d2", &[0, 1, 2]), Some(1 + 2 + 1));
}

#[test]
fn failing_terms() {
    assert_eq!(calc("9223372036854775807+1", &[]), None);
    assert_eq!(calc("0-9223372036854775807-2", &[]), None);
    assert_eq!(calc("9223372036854775807d2", &[1]), None);
    assert_eq!(calc("9223372036854775807d2", &[0]), Some(i64::MAX));
}

#[test]
fn zero_sided_dice() {
    for t in ["d0", "2d0", "1+d0", "5-3d00", "+0d0", "4+1-d0+2"] {
        assert!(DiceBot::has_zero_sided_die(&t.to_string()), "{}", t);
    }
    for t in ["d", "2d6", "0", "0d6", "d-0", "d 0", "10-2", "", "d1"] {
        assert!(!DiceBot::has_zero_sided_die(&t.to_string()), "{}", t);
    }
}

#[test]
fn sum_law_general() {
    let cases: [(&str, &str, &[u32]); 4] = [
        ("1+2d6", "3-1d4", &[4, 2]),
        ("10-3+1", "7+7", &[]),
        ("5", "1d2+1d2", &[0, 1]),
        ("1d6+1d6", "", &[2, 3]),
    ];
    for (a, b, rolls) in cases {
        let first = calc(a, rolls).unwrap();
        let a_rolls = a.matches('d').count();
        let second = calc(b, &rolls[a_rolls..]).unwrap();
        assert_eq!(calc(&format!("{}+{}", a, b), rolls), Some(first + second));
    }
}

#[test]
fn sum_of_two_law() {
    let cases: [(&str, &str, &[u32]); 4] =
        [("2d6", "3", &[4]), ("1d4-1", "1d8", &[2, 6]), ("7", "2d10", &[9]), ("", "5", &[])];
    for (a, b, rolls) in cases {
        let first = calc(a, rolls).unwrap();
        let a_rolls = a.matches('d').count();
        let second = calc(b, &rolls[a_rolls..]).unwrap();
        assert_eq!(calc(&format!("{}+{}", a, b), rolls), Some(first + second));
    }
}

#[test]
fn die_range_law() {
    for x in [0u32, 1, 5, 6, 1000, u32::MAX] {
        let v = calc("3d6", &[x]).unwrap();
        assert!((3..=18).contains(&v));
        assert_eq!(v % 3, 0);
    }
}

#[test]
fn number_term_law() {
    for n in [0i64, 7, 10, 99, 123456789, i64::MAX] {
        assert_eq!(calc(&n.to_string(), &[]), Some(n));
    }
}

#[test]
fn roll_with_given_rolls() {
    assert_eq!(DiceBot::roll_with(" 2d6 + 3 ".to_string(), &vec![4]), Some("13".to_string()));
    assert_eq!(DiceBot::roll_with("1 0 - 2 5".to_string(), &vec![]), Some("-15".to_string()));
    assert_eq!(
        DiceBot::roll_with("0-9223372036854775807-1".to_string(), &vec![]),
        Some(i64::MIN.to_string())
    );
}

#[test]
fn roll_ignores_spaces_law() {
    let terms = ["2 d 6 + 1", " 1d20-3", "4 2", "  "];
    for t in terms {
        let stripped: String = t.chars().filter(|c| *c != ' ').collect();
        assert_eq!(DiceBot::strip_spaces(&t.to_string()), stripped);
        assert_eq!(
            DiceBot::roll_with(t.to_string(), &vec![3]),
            DiceBot::roll_with(stripped, &vec![3])
        );
    }
}

#[test]
fn random_rolls() {
    assert_eq!(DiceBot::roll("5 + 2".to_string()), Some("7".to_string()));
    assert_eq!(DiceBot::calc_dice("7".to_string()), Some(7));
    for _ in 0..100 {
        let v = DiceBot::calc_dice("2d6+1".to_string()).unwrap();
        assert!((3..=13).contains(&v));
        let r: i64 = DiceBot::roll("1d4 - 1d4".to_string()).unwrap().parse().unwrap();
        assert!((-3..=3).contains(&r));
    }
    let seen: std::collections::HashSet<i64> =
        (0..100).map(|_| DiceBot::calc_dice("d1000000".to_string()).unwrap()).collect();
    assert!(seen.len() > 1);
}
