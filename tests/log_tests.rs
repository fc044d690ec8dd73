use dndice::{DiceRoll, RollLog};

#[test]
fn test_dice_roll_new() {
    let dr = DiceRoll::new(13);
    assert!(dr.num() == 13);
}

#[test]
fn test_dice_roll_new_roll() {
    let mut rl = RollLog::new(4);
    rl.log(2);
    let dr = DiceRoll::new_roll(13, rl);
    assert!(dr.num() == 13);
    assert!(dr.log[0].rolls[0] == 2);
}

#[test]
fn test_dice_roll_full_log() {
    let mut rl4 = RollLog::new(4);
    rl4.log(2);
    let dr4 = DiceRoll::new_roll(2, rl4);
    let mut rl8 = RollLog::new(8);
    rl8.log(7);
    rl8.log(3);
    let mut dr8 = DiceRoll::new_roll(10, rl8);
    dr8.join(&dr4);
    assert!("| d8: 7 3 | d4: 2 " == &dr8.full_log());
}

#[test]
fn test_dice_roll_join() {
    let mut rl4 = RollLog::new(3);
    rl4.log(2);
    rl4.log(1);
    rl4.log(3);
    let dr3 = DiceRoll::new_roll(6, rl4);
    let mut rl12 = RollLog::new(12);
    rl12.log(10);
    let mut dr12 = DiceRoll::new_roll(10, rl12);
    dr12.join(&dr3);
    assert!(dr12.log[0].rolls[0] == 10);
    assert!(dr12.log[1].rolls[0] == 2);
    assert!(dr12.log[1].rolls[1] == 1);
    assert!(dr12.log[1].rolls[2] == 3);
}

#[test]
fn test_dice_roll_add() {
    let mut dr7 = DiceRoll::new(7);
    let dr1 = DiceRoll::new(1);
    dr7.add(&dr1);
    assert!(dr7.num() == 8);
}

#[test]
fn test_dice_roll_sub() {
    let mut dr9 = DiceRoll::new(9);
    let dr4 = DiceRoll::new(4);
    dr9.sub(&dr4);
    assert!(dr9.num() == 5);
}

#[test]
fn test_dice_roll_mult() {
    let mut dr8 = DiceRoll::new(8);
    let dr2 = DiceRoll::new(2);
    dr8.mult(&dr2);
    assert!(dr8.num() == 16);
}

#[test]
fn test_dice_roll_mult_neg() {
    let mut dr8 = DiceRoll::new(12);
    let dr2 = DiceRoll::new(3);
    dr8.mult_neg(&dr2);
    assert!(dr8.num() == -36);
}

#[test]
fn test_dice_roll_fmt() {
    let dr = DiceRoll::new(5);
    assert!("5" == dr.to_string());
}

#[test]
fn test_roll_log_new() {
    let rl = RollLog::new(7);
    assert!(rl.size == 7);
    assert!(rl.rolls.len() == 0)
}

#[test]
fn test_roll_log_log() {
    let mut rl = RollLog::new(12);
    rl.log(4);
    rl.log(1);
    rl.log(12);
    assert!(rl.rolls.len() == 3);
    assert!(rl.rolls[0] == 4);
    assert!(rl.rolls[1] == 1);
    assert!(rl.rolls[2] == 12);
}

#[test]
fn test_roll_log_fmt() {
    let mut rl = RollLog::new(6);
    rl.log(2);
    rl.log(5);
    assert_eq!("2 5 ", &rl.to_string());
}

#[test]
fn test_roll_log_clone() {
    let mut rl = RollLog::new(20);
    rl.log(3);
    rl.log(1);
    rl.log(20);
    rl.log(19);
    let new_rl = rl.clone();
    assert!(rl.size == new_rl.size);
    assert!(rl.rolls.len() == new_rl.rolls.len());
    for i in 0..3 {
        assert!(rl.rolls[i] == new_rl.rolls[i]);
    }
}
