use dndice::Stats;

#[test]
fn stats_test_stats_std() {
    let expected = [15, 14, 13, 12, 10, 8];
    assert_eq!(expected, Stats::new("std").unwrap().nums);
    assert_eq!(expected, Stats::new("standard").unwrap().nums);
}

#[test]
fn test_stats_1d20() {
    for _ in 1..10 {
        let result = Stats::new("1d20").unwrap().nums;
        for i in 0..6 {
            assert!(result[i] > 0);
            assert!(result[i] <= 20);
        }
    }
}

#[test]
fn stats_test_stats_d20() {
    for _ in 1..10 {
        let result = Stats::new("d20").unwrap().nums;
        for i in 0..6 {
            assert!(result[i] > 0);
            assert!(result[i] <= 20);
        }
    }
}

#[test]
fn stats_test_stats_4d6() {
    for _ in 1..10 {
        let result = Stats::new("4d6").unwrap().nums;
        for i in 0..6 {
            assert!(result[i] >= 3);
            assert!(result[i] <= 18);
        }
    }
}

#[test]
fn test_stats_3d6() {
    for _ in 1..10 {
        let result = Stats::new("3d6").unwrap().nums;
        for i in 0..6 {
            assert!(result[i] >= 3);
            assert!(result[i] <= 18);
        }
    }
}
