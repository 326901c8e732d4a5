use bkgm::{comb, mcomb};

#[test]
fn test_comb() {
    assert_eq!(comb(10, 4), 210);
    assert_eq!(comb(52, 5), 2598960);
}

#[test]
fn test_mcomb() {
    assert_eq!(mcomb(7, 15), 54264);
    assert_eq!(mcomb(26, 3), 3276);
    assert_eq!(mcomb(25, 3), 2925);
    assert_eq!(mcomb(24, 3), 2600);
    assert_eq!(mcomb(23, 3), 2300);
}

#[test]
fn comb_at_the_edges() {
    assert_eq!(comb(0, 0), 0);
    assert_eq!(comb(0, 3), 0);
    assert_eq!(comb(5, 0), 1);
    assert_eq!(comb(5, 5), 1);
    assert_eq!(comb(3, 5), 0);
    assert_eq!(comb(5, 1), 5);
    assert_eq!(mcomb(1, 0), 0);
    assert_eq!(mcomb(2, 0), 1);
    assert_eq!(mcomb(3, 2), 6);
}
