use dndice::{Dice, DiceParseError, DiceSet, Die, Scores, SignedDice, Stats};

fn parse_ok(text: &str) -> DiceSet {
    DiceSet::parse(text).unwrap()
}

fn const_of(d: &DiceSet) -> i32 {
    match d {
        DiceSet::Const(n) => *n,
        _ => panic!("not a constant"),
    }
}

fn die_of(d: &DiceSet) -> (i32, i32) {
    match d {
        DiceSet::Die(x) => (x.number, x.sides),
        _ => panic!("not a die group"),
    }
}

#[test]
fn die_group_rolls_within_count_and_count_times_faces() {
    for (n, s) in [(0, 1), (0, 7), (1, 1), (3, 1), (4, 6), (2, 10), (7, 20)] {
        let d = parse_ok(&format!("{}d{}", n, s));
        assert_eq!(die_of(&d), (n, s));
        for _ in 0..50 {
            let r = d.roll();
            assert!(r.num() >= n && r.num() <= n * s);
            if s == 1 {
                assert_eq!(r.num(), n);
            }
            assert_eq!(r.log.len(), 1);
            assert_eq!(r.log[0].rolls.len() as i32, n);
            assert_eq!(r.log[0].size, s);
        }
    }
}

#[test]
fn zero_count_group_rolls_zero_with_an_empty_log() {
    let d = parse_ok("0d3");
    let r = d.roll();
    assert_eq!(r.num(), 0);
    assert_eq!(r.log[0].rolls.len(), 0);
}

#[test]
fn die_draws_vary() {
    let d = Die::new(1, 20);
    let mut seen_other_than_one = false;
    for _ in 0..200 {
        if d.roll().num() != 1 {
            seen_other_than_one = true;
        }
    }
    assert!(seen_other_than_one);
}

#[test]
fn render_then_parse_is_a_fixpoint() {
    let texts = [
        "-1d8+2*-4-3",
        "+5",
        "d20+3",
        "-",
        "-+3",
        "8 *6d12 -4 + 3d6 ",
        "2 * 1d4x4d16",
        "4*1D7*3 + 20",
        "0d3 - 4*0",
        "-2*3",
        "007",
        "3x-4x5",
        "12",
        "1d1",
    ];
    for t in texts {
        let first = parse_ok(t).to_string();
        let second = parse_ok(&first).to_string();
        assert_eq!(first, second, "text {}", t);
    }
}

#[test]
fn canonical_text_of_signed_product() {
    let d = parse_ok("-1d8+2*-4-3");
    assert_eq!(d.to_string(), "-1d8 + 2x-4 - 3");
    assert_eq!(parse_ok("2x-4").to_string(), "2x-4");
    match parse_ok("2x-4") {
        DiceSet::Mult(v) => {
            assert!(matches!(&v[1], SignedDice::Neg(DiceSet::Const(4))));
        }
        _ => panic!(),
    }
}

#[test]
fn leading_plus_adds_a_d20() {
    match parse_ok("+5") {
        DiceSet::Sum(v) => {
            assert_eq!(v.len(), 2);
            match &v[0] {
                SignedDice::Pos(d) => assert_eq!(die_of(d), (1, 20)),
                _ => panic!(),
            }
            match &v[1] {
                SignedDice::Pos(d) => assert_eq!(const_of(d), 5),
                _ => panic!(),
            }
        }
        _ => panic!(),
    }
    match parse_ok("d20+3") {
        DiceSet::Sum(v) => {
            assert_eq!(v.len(), 2);
            match &v[0] {
                SignedDice::Pos(d) => assert_eq!(die_of(d), (1, 20)),
                _ => panic!(),
            }
            match &v[1] {
                SignedDice::Pos(d) => assert_eq!(const_of(d), 3),
                _ => panic!(),
            }
        }
        _ => panic!(),
    }
    assert_eq!(parse_ok("+5").to_string(), "1d20 + 5");
}

#[test]
fn trailing_operator_is_invalid_math() {
    match DiceSet::parse("1d4+") {
        Err(DiceParseError::InvalidMath(s)) => assert_eq!(s, "1d4+"),
        other => panic!("{:?}", other),
    }
    match DiceSet::parse("2*") {
        Err(DiceParseError::InvalidMath(s)) => assert_eq!(s, "2*"),
        other => panic!("{:?}", other),
    }
}

#[test]
fn letter_after_d_is_invalid_char() {
    match DiceSet::parse("1da") {
        Err(DiceParseError::InvalidChar(c)) => assert_eq!(c, 'a'),
        other => panic!("{:?}", other),
    }
}

#[test]
fn bad_face_count_is_invalid_number() {
    match DiceSet::parse("1d") {
        Err(DiceParseError::InvalidNumber(s)) => assert_eq!(s, ""),
        other => panic!("{:?}", other),
    }
    match DiceSet::parse("1d0") {
        Err(DiceParseError::InvalidNumber(s)) => assert_eq!(s, "0"),
        other => panic!("{:?}", other),
    }
    match DiceSet::parse("99999999999") {
        Err(DiceParseError::InvalidNumber(s)) => assert_eq!(s, "99999999999"),
        other => panic!("{:?}", other),
    }
}

#[test]
fn constants_at_the_edge_of_i32() {
    assert_eq!(const_of(&parse_ok("2147483647")), 2147483647);
    assert_eq!(const_of(&parse_ok("0")), 0);
    match DiceSet::parse("2147483648") {
        Err(DiceParseError::InvalidNumber(s)) => assert_eq!(s, "2147483648"),
        other => panic!("{:?}", other),
    }
    match DiceSet::parse("3 ") {
        Err(DiceParseError::InvalidNumber(s)) => assert_eq!(s, "3 "),
        other => panic!("{:?}", other),
    }
}

#[test]
fn lone_signs() {
    match DiceSet::parse("+") {
        Err(DiceParseError::InvalidMath(s)) => assert_eq!(s, "+"),
        other => panic!("{:?}", other),
    }
    assert_eq!(parse_ok("-").to_string(), "1d20");
    assert_eq!(parse_ok("-+3").to_string(), "1d20 + 3");
    match DiceSet::parse("") {
        Err(DiceParseError::InvalidNumber(s)) => assert_eq!(s, ""),
        other => panic!("{:?}", other),
    }
    assert_eq!(DiceSet::new().to_string(), "0");
}

#[test]
fn unknown_character_is_invalid_char() {
    match DiceSet::parse("1f4") {
        Err(DiceParseError::InvalidChar(c)) => assert_eq!(c, 'f'),
        other => panic!("{:?}", other),
    }
}

#[test]
fn three_die_slices_is_invalid_die() {
    match DiceSet::parse("1d2d3") {
        Err(DiceParseError::InvalidDie(s)) => assert_eq!(s, "1d2d3"),
        other => panic!("{:?}", other),
    }
}

#[test]
fn error_messages() {
    assert_eq!(DiceParseError::InvalidNumber(String::from("a")).to_string(), "Invalid number 'a'");
    assert_eq!(DiceParseError::InvalidDie(String::from("1d2d3")).to_string(), "Invalid die '1d2d3'");
    assert_eq!(DiceParseError::InvalidChar('f').to_string(), "Invalid character 'f'");
    assert_eq!(DiceParseError::InvalidMath(String::from("1+")).to_string(), "Invalid expression '1+'");
}

#[test]
fn every_roll_of_a_mixed_sum_is_in_range() {
    let d = parse_ok("5d6-1d8+7");
    assert_eq!(d.range(), Some((4, 36)));
    for _ in 0..100 {
        let v = d.roll().num();
        assert!(v >= 4 && v <= 36);
    }
}

#[test]
fn log_of_two_groups_names_their_faces() {
    let mut d = Dice::from("5d6+1d8").unwrap();
    d.roll();
    let log = d.log(0);
    assert!(log.starts_with("| d6: "));
    let parts: Vec<&str> = log.split(" | d8: ").collect();
    assert_eq!(parts.len(), 2);
    let sixes: Vec<i32> = parts[0]["| d6: ".len()..].split_whitespace().map(|w| w.parse().unwrap()).collect();
    let eights: Vec<i32> = parts[1].split_whitespace().map(|w| w.parse().unwrap()).collect();
    assert_eq!(sixes.len(), 5);
    assert_eq!(eights.len(), 1);
    assert!(sixes.iter().all(|v| *v >= 1 && *v <= 6));
    assert!(eights.iter().all(|v| *v >= 1 && *v <= 8));
    assert!(log.ends_with(' '));
}

#[test]
fn log_value_matches_roll() {
    let mut d = Dice::from("2d6").unwrap();
    let v = d.roll();
    let log = d.log(0);
    let faces: Vec<i32> = log[2..].split_whitespace().map(|w| w.parse().unwrap()).collect();
    assert_eq!(faces.iter().sum::<i32>(), v);
}

#[test]
fn named_dice_text() {
    let mut d = Dice::from("1d6 + 3").unwrap();
    assert_eq!(d.to_string(), "1d6 + 3");
    d.name("attack");
    assert_eq!(d.to_string(), "attack: 1d6 + 3");
}

#[test]
fn overflowing_expressions_cannot_be_rolled() {
    let d = Dice::from("100000d100000").unwrap();
    assert!(!d.can_roll());
    let d = Dice::from("2147483647 + 1").unwrap();
    assert!(!d.can_roll());
    let d = Dice::from("3d4 - 1").unwrap();
    assert!(d.can_roll());
    assert_eq!(d.set.range(), Some((2, 11)));
    assert_eq!(parse_ok("2*-3").range(), Some((-6, -6)));
}

#[test]
fn product_with_negative_factor_rolls_negated() {
    let d = parse_ok("-2*3");
    assert_eq!(d.roll().num(), -6);
    let d = parse_ok("3x-4x5");
    assert_eq!(d.roll().num(), -60);
}

#[test]
fn scores_presets_are_sorted_and_bounded() {
    assert_eq!(Scores::from("std").unwrap().nums, [15, 14, 13, 12, 10, 8]);
    for _ in 0..20 {
        let s = Scores::from("4d6").unwrap().nums;
        for i in 0..6 {
            assert!(s[i] >= 3 && s[i] <= 18);
            if i > 0 {
                assert!(s[i - 1] >= s[i]);
            }
        }
        let s = Scores::from("1d20").unwrap().nums;
        for i in 0..6 {
            assert!(s[i] >= 1 && s[i] <= 20);
            if i > 0 {
                assert!(s[i - 1] >= s[i]);
            }
        }
    }
    assert!(Scores::from("go").is_err());
    assert!(Stats::new("go").is_err());
}

#[test]
fn scores_text_has_fields_of_two() {
    assert_eq!(Scores::from("std").unwrap().to_string(), "15 14 13 12 10  8");
    assert_eq!(Stats::new("std").unwrap().to_string(), "15 14 13 12 10  8");
}

#[test]
fn best_three_drops_the_lowest_face() {
    assert_eq!(dndice::stats::best_three([1, 2, 3, 4]), 9);
    assert_eq!(dndice::stats::best_three([6, 6, 6, 6]), 18);
    assert_eq!(dndice::stats::best_three([1, 1, 1, 1]), 3);
    assert_eq!(dndice::stats::best_three([5, 1, 3, 2]), 10);
    assert_eq!(dndice::stats::best_three([2, 2, 2, 6]), 10);
}

#[test]
fn scores_from_draws_are_best_three_sums_highest_first() {
    let faces = [[1, 2, 3, 4], [6, 6, 6, 6], [1, 1, 1, 1], [5, 1, 3, 2], [2, 2, 2, 6], [4, 3, 2, 1]];
    assert_eq!(Stats::from_draws(faces).nums, [18, 10, 10, 9, 9, 3]);
    assert_eq!(Scores::from_draws(faces).nums, [18, 10, 10, 9, 9, 3]);
}

#[test]
fn stats_presets_are_sorted_highest_first() {
    for _ in 0..20 {
        for m in ["d20", "4d6"] {
            let s = Stats::new(m).unwrap().nums;
            for i in 1..6 {
                assert!(s[i - 1] >= s[i]);
            }
        }
    }
}
