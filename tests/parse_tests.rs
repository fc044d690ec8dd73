use dndice::{ParseKind, ParseState};

#[test]
fn test_parse_state_new() {
    let ps = ParseState::new();
    assert!(ps.split.len() == 0);
    assert!(ps.history == "");
    assert!(ps.current == "");
    assert!(ps.breakchar == '+');
    match ps.kind {
        ParseKind::Const => (),
        _ => panic!(),
    }
}

#[test]
fn test_parse_state_next_mult() {
    let mut ps = ParseState {
        split: vec![],
        kind: ParseKind::Const,
        history: String::from("history"),
        current: String::from("current"),
        breakchar: '+',
        previous: ' ',
    };
    ps.next('*').unwrap();
    assert!(ps.split[0].0 == '*');
    assert!(ps.split[0].1 == "history");
    match ps.kind {
        ParseKind::Mult => (),
        _ => panic!(),
    }
}

#[test]
fn test_parse_state_next_sum() {
    let mut ps = ParseState {
        split: vec![('-', String::from("4"))],
        kind: ParseKind::Sum,
        history: String::from("x"),
        current: String::from("3"),
        breakchar: '+',
        previous: ' ',
    };
    ps.next('+').unwrap();
    assert!(ps.split.len() == 2);
    assert!(ps.split[1].0 == '+');
    assert!(ps.split[1].1 == "3");
}

#[test]
fn test_parse_state_next_die() {
    let mut ps = ParseState {
        split: vec![('+', String::from("1d4"))],
        kind: ParseKind::Sum,
        history: String::from("1d4+"),
        current: String::from("2"),
        breakchar: '+',
        previous: ' ',
    };
    ps.next('D').unwrap();
    assert!(ps.split.len() == 1);
    assert!(ps.current == "2d");
}

#[test]
fn test_parse_state_next_digit() {
    let mut ps = ParseState::new();
    ps.current = String::from("1234");
    ps.next('5').unwrap();
    assert!(ps.current == "12345");
}

#[test]
fn test_parse_state_next_space() {
    let mut ps = ParseState::new();
    ps.current = String::from("1234");
    ps.next(' ').unwrap();
    assert!(ps.current == "1234");
}

#[test]
fn test_parse_state_next_error() {
    let mut ps = ParseState::new();
    assert!(ps.next('g').is_err());
}

#[test]
fn test_parse_state_close() {
    let mut ps = ParseState {
        split: vec![('1', String::from("test1"))],
        kind: ParseKind::Const,
        history: String::new(),
        current: String::from("test2"),
        breakchar: '2',
        previous: ' ',
    };
    ps.close();
    assert!(ps.split.len() == 2);
    assert!(ps.split[1].0 == '2');
    assert!(ps.split[1].1 == "test2");
}
