use bkgm::{Move, Step};

#[test]
fn parse_move() {
    let m = Move::from("1/2 3/4 5/6").unwrap();
    assert_eq!(m.to_string(), "1/2 3/4 5/6");
}

#[test]
fn step_from_text() {
    assert_eq!(Step::from("24/18"), Some(Step { from: 24, to: 18, hit: false }));
    assert_eq!(Step::from("25/20*"), Some(Step { from: 25, to: 20, hit: true }));
    assert_eq!(Step::from("06/01"), Some(Step { from: 6, to: 1, hit: false }));
}

#[test]
fn step_from_text_that_is_no_step() {
    for text in [
        "", "/", "24", "24/", "/18", "24/18/12", "24-18", "a/b", "24/18**", "*24/18", "24*/18",
        "0/5", "5/0", "26/20", "24/ 18", " 24/18", "24/18 ", "+24/18", "24/99999999999999999999",
    ] {
        assert_eq!(Step::from(text), None, "{}", text);
    }
}

#[test]
fn step_as_text() {
    assert_eq!(Step { from: 24, to: 18, hit: false }.to_string(), "24/18");
    assert_eq!(Step { from: 13, to: 7, hit: true }.to_string(), "13/7*");
    assert_eq!(Step { from: 0, to: 123, hit: false }.to_string(), "0/123");
}

#[test]
fn move_from_text_that_is_no_move() {
    assert_eq!(Move::from(""), None);
    assert_eq!(Move::from("24/18  13/11"), None);
    assert_eq!(Move::from("24/18 "), None);
    assert_eq!(Move::from(" 24/18"), None);
    assert_eq!(Move::from("24/18 13"), None);
}

#[test]
fn move_text_draws_the_steps_of_one_checker_together() {
    let m = Move::from("24/23 23/18").unwrap();
    assert_eq!(m.len(), 2);
    assert_eq!(m.to_string(), "24/18");
    let m = Move::from("24/23 23/18*").unwrap();
    assert_eq!(m.to_string(), "24/18*");
    let m = Move::from("24/23* 23/18").unwrap();
    assert_eq!(m.to_string(), "24/23* 23/18");
    let m = Move::from("13/11 24/18 18/12 12/10").unwrap();
    assert_eq!(m.to_string(), "13/11 24/10");
}

#[test]
fn move_of_steps() {
    let steps = vec![
        Step { from: 24, to: 18, hit: false },
        Step { from: 13, to: 11, hit: true },
    ];
    let m = Move::new(steps.clone());
    assert_eq!(m.len(), 2);
    assert!(!m.is_empty());
    assert_eq!(m.iter(), &steps);
    assert_eq!(m, Move::from("24/18 13/11*").unwrap());
    let empty = Move::new(vec![]);
    assert!(empty.is_empty());
    assert_eq!(empty.len(), 0);
    assert_eq!(empty.to_string(), "");
}
