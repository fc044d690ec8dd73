use dndice::Scores;

#[test]
fn test_scores_std() {
    let expected = [15, 14, 13, 12, 10, 8];
    assert_eq!(expected, Scores::from("std").unwrap().nums);
    assert_eq!(expected, Scores::from("standard").unwrap().nums);
}

#[test]
fn test_scores_1d20() {
    for _ in 1..10 {
        let result = Scores::from("1d20").unwrap().nums;
        for i in 0..6 {
            assert!(result[i] > 0);
            assert!(result[i] <= 20);
        }
    }
}

#[test]
fn test_scores_d20() {
    for _ in 1..10 {
        let result = Scores::from("d20").unwrap().nums;
        for i in 0..6 {
            assert!(result[i] > 0);
            assert!(result[i] <= 20);
        }
    }
}

#[test]
fn test_scores_4d6() {
    for _ in 1..10 {
        let result = Scores::from("4d6").unwrap().nums;
        for i in 0..6 {
            assert!(result[i] >= 3);
            assert!(result[i] <= 18);
        }
    }
}

#[test]
fn test_scores_3d6() {
    for _ in 1..10 {
        let result = Scores::from("3d6").unwrap().nums;
        for i in 0..6 {
            assert!(result[i] >= 3);
            assert!(result[i] <= 18);
        }
    }
}
