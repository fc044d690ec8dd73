use dndice::{DiceParseError, DiceSet, Die, SignedDice};

#[test]
fn test_dice_set_new() {
    let x = match DiceSet::new() {
        DiceSet::Const(n) => n,
        _ => panic!(),
    };
    assert!(x == 0);
}

#[test]
fn test_dice_set_parse() {
    let ds = DiceSet::parse("-1d8+2*-4-3").unwrap();
    match ds {
        DiceSet::Sum(s) => {
            // -1d8
            match &s[0] {
                SignedDice::Neg(x) => match x {
                    DiceSet::Die(d) => {
                        if d.to_string() != "1d8" {
                            panic!();
                        }
                    }
                    _ => panic!(),
                },
                _ => panic!(),
            }
            // 2*-4
            match &s[1] {
                SignedDice::Pos(x) => match x {
                    DiceSet::Mult(arr) => {
                        match &arr[0] {
                            SignedDice::Pos(n) => match n {
                                DiceSet::Const(i) => assert!(*i == 2),
                                _ => panic!(),
                            },
                            _ => panic!(),
                        }
                        match &arr[1] {
                            SignedDice::Neg(n) => match n {
                                DiceSet::Const(i) => assert!(*i == 4),
                                _ => panic!(),
                            },
                            _ => panic!(),
                        }
                    }
                    _ => panic!(),
                },
                _ => panic!(),
            }
            // -3
            match &s[2] {
                SignedDice::Neg(x) => match x {
                    DiceSet::Const(i) => assert!(*i == 3),
                    _ => panic!(),
                },
                _ => panic!(),
            }
        }
        _ => panic!(),
    }
}

#[test]
fn test_dice_set_parse_err() {
    let ds = DiceSet::parse("1f4+ 2");
    assert!(match ds {
        Ok(_) => false,
        Err(e) => match e {
            DiceParseError::InvalidChar(c) => c == 'f',
            _ => false,
        },
    });
}

#[test]
fn test_dice_set_roll() {
    let ds = DiceSet::parse("5d6 - 1d8 + 7").unwrap();
    let mut sum: i32 = 0;
    for _ in 1..100 {
        sum += ds.roll().num();
    }
    assert!(sum <= 36 * 100);
    assert!(sum >= 4 * 100);
}

#[test]
fn test_dice_set_fmt() {
    let ds = DiceSet::parse("5*3d4 + 1d12").unwrap();
    assert!(ds.to_string() == "5x3d4 + 1d12")
}

#[test]
fn test_signed_dice_pos() {
    let sd = SignedDice::parse_pos("4").unwrap();
    assert!(match sd {
        SignedDice::Pos(p) => match p {
            DiceSet::Const(x) => x == 4,
            _ => false,
        },
        SignedDice::Neg(_) => false,
    });
}

#[test]
fn test_signed_dice_neg() {
    let sd = SignedDice::parse_neg("7d8").unwrap();
    println!("{:?}", sd);
    assert!(match sd {
        SignedDice::Pos(_) => false,
        SignedDice::Neg(p) => match p {
            DiceSet::Die(d) => "7d8" == &d.to_string(),
            _ => false,
        },
    });
}

#[test]
fn test_die_new() {
    let d = Die::new(1, 6);
    assert_eq!(d.number, 1);
    assert_eq!(d.sides, 6);
}

#[test]
fn test_die_roll() {
    let d = Die::new(2, 10);
    let mut sum: i32 = 0;
    for _ in 1..100 {
        sum += d.roll().num();
    }
    assert!(sum <= 20 * 100);
    assert!(sum >= 2 * 100);
}

#[test]
fn test_die_fmt() {
    let d = Die::new(3, 4);
    assert!("3d4" == d.to_string());
}
