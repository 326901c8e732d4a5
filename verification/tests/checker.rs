use bkgm::dice::RegularDice;
use bkgm::{Dice, Position, O_BAR, X_BAR};

fn pos_of(x: &[(usize, i8)], o: &[(usize, i8)]) -> Position<15> {
    let mut pips = [0i8; 26];
    for &(pip, checkers) in x {
        pips[pip] = checkers;
    }
    for &(pip, checkers) in o {
        pips[pip] = -checkers;
    }
    Position::<15>::try_from(pips).unwrap()
}

#[test]
fn a_checker_on_the_bar_moves_first() {
    let given = pos_of(&[(X_BAR, 1), (13, 2)], &[(20, 2)]);
    assert!(!given.can_move(13, 3));
    assert!(given.can_move(X_BAR, 3));
    assert!(!given.can_move(X_BAR, 5));
    assert!(given.can_enter(3));
    assert!(!given.can_enter(5));
    // without a checker on the bar nothing moves from there
    let given = pos_of(&[(13, 2)], &[(20, 2)]);
    assert!(!given.can_move(X_BAR, 3));
    assert!(given.can_move(13, 3));
}

#[test]
fn entering_hits_a_single_checker() {
    let given = pos_of(&[(X_BAR, 2)], &[(22, 1)]);
    let entered = given.clone_and_enter_single_checker(3);
    assert_eq!(entered, pos_of(&[(X_BAR, 1), (22, 1)], &[(O_BAR, 1)]));
    let mut scratch = given;
    scratch.enter_single_checker(3);
    assert_eq!(scratch, entered);
    scratch.enter_single_checker(3);
    assert_eq!(scratch, pos_of(&[(22, 2)], &[(O_BAR, 1)]));
}

#[test]
fn no_move_with_what_is_no_die_or_no_point() {
    let given = pos_of(&[(13, 2), (3, 1)], &[(20, 2)]);
    assert!(!given.can_move(13, 0));
    assert!(!given.can_move(13, 7));
    assert!(!given.can_move(0, 1));
    assert!(!given.can_move(26, 1));
    assert!(!given.can_move(usize::MAX, 1));
    assert_eq!(given.try_move_single_checker(13, 7), None);
    assert_eq!(given.try_move_single_checker(26, 1), None);
}

#[test]
fn try_move_single_checker_moves_if_it_may() {
    let given = pos_of(&[(13, 2), (3, 1)], &[(10, 1), (7, 2)]);
    assert_eq!(
        given.try_move_single_checker(13, 3),
        Some(pos_of(&[(13, 1), (10, 1), (3, 1)], &[(O_BAR, 1), (7, 2)]))
    );
    assert_eq!(given.try_move_single_checker(13, 6), None);
    assert_eq!(given.try_move_single_checker(12, 3), None);
    // bearing off needs every checker in the home board
    assert_eq!(given.try_move_single_checker(3, 3), None);
    let home = pos_of(&[(5, 1), (3, 1)], &[(10, 1)]);
    assert_eq!(home.try_move_single_checker(3, 3), Some(pos_of(&[(5, 1)], &[(10, 1)])));
    assert_eq!(home.try_move_single_checker(3, 3).unwrap().x_off(), 14);
    // with a bigger die only the checker farthest back is borne off
    assert_eq!(home.try_move_single_checker(3, 6), None);
    assert_eq!(home.try_move_single_checker(5, 6), Some(pos_of(&[(3, 1)], &[(10, 1)])));
    assert!(home.try_move_single_checker(5, 6).unwrap().turn());
}

#[test]
fn the_search_for_a_checker_starts_where_one_can_move() {
    // a checker outside the home board: nothing is borne off
    let given = pos_of(&[(13, 1), (3, 1)], &[]);
    assert_eq!(given.smallest_pip_to_check(4), 5);
    assert_eq!(given.smallest_pip_to_check(1), 2);
    // all at home, the highest on 5
    let given = pos_of(&[(5, 1), (3, 1)], &[]);
    assert_eq!(given.smallest_pip_to_check(6), 5);
    assert_eq!(given.smallest_pip_to_check(5), 5);
    assert_eq!(given.smallest_pip_to_check(4), 4);
    assert_eq!(given.smallest_pip_to_check(2), 2);
    // no checker left
    let given = pos_of(&[], &[(3, 1)]);
    assert_eq!(given.smallest_pip_to_check(4), 26);
    // a checker on the bar is outside the home board
    let given = pos_of(&[(X_BAR, 1), (3, 1)], &[]);
    assert_eq!(given.smallest_pip_to_check(4), 5);
    // from that point on a move is legal if a bear-off is taken to be legal
    let given = pos_of(&[(5, 1), (3, 1)], &[(1, 2)]);
    for die in 1..=6 {
        for from in given.smallest_pip_to_check(die)..=24 {
            assert_eq!(
                given.can_move_when_bearoff_is_legal(from, die),
                given.can_move(from, die)
            );
        }
        for from in 1..given.smallest_pip_to_check(die) {
            assert!(!given.can_move(from, die));
        }
    }
    assert!(given.can_move_when_bearoff_is_legal(3, 6));
    assert!(!given.can_move(3, 6));
    assert!(!given.can_move_when_bearoff_is_legal(3, 2));
    assert!(given.can_move_internally(5, 5));
    assert!(!given.can_move_internally(4, 4));
    assert!(given.no_x_above(5));
    assert!(!given.no_x_above(4));
}

#[test]
fn a_double_is_played_as_often_as_it_can_be() {
    // one checker, blocked after two steps
    let given = pos_of(&[(13, 1)], &[(4, 2)]);
    let all = given.all_positions_after_double_move(3);
    assert_eq!(all, vec![pos_of(&[(4 + 3, 1)], &[(4, 2)])]);
    // four steps
    let given = pos_of(&[(13, 1)], &[(20, 2)]);
    let all = given.all_positions_after_double_move(3);
    assert_eq!(all, vec![pos_of(&[(1, 1)], &[(20, 2)])]);
    // bearing off on the way
    let given = pos_of(&[(7, 1), (3, 1)], &[(20, 2)]);
    let all = given.all_positions_after_double_move(4);
    assert_eq!(all, vec![pos_of(&[], &[(20, 2)])]);
    assert_eq!(all[0].x_off(), 15);
    // nothing moves
    let given = pos_of(&[(X_BAR, 1), (13, 1)], &[(19, 2)]);
    let all = given.all_positions_after_double_move(6);
    assert_eq!(all, vec![given]);
    // four checkers enter
    let given = pos_of(&[(X_BAR, 5)], &[(19, 2)]);
    let all = given.all_positions_after_double_move(2);
    assert_eq!(all, vec![pos_of(&[(X_BAR, 1), (23, 4)], &[(19, 2)])]);
}

#[test]
fn one_more_move_from_every_position() {
    let given = pos_of(&[(13, 1), (8, 1)], &[(20, 2)]);
    let first = given.one_more_move(&vec![given], 2);
    assert_eq!(
        first,
        vec![pos_of(&[(13, 1), (6, 1)], &[(20, 2)]), pos_of(&[(11, 1), (8, 1)], &[(20, 2)])]
    );
    let second = given.one_more_move(&first, 2);
    assert_eq!(
        second,
        vec![
            pos_of(&[(13, 1), (4, 1)], &[(20, 2)]),
            pos_of(&[(11, 1), (6, 1)], &[(20, 2)]),
            pos_of(&[(9, 1), (8, 1)], &[(20, 2)]),
        ]
    );
    assert_eq!(given.one_more_move(&vec![], 2), vec![]);
}

#[test]
fn moves_of_one_checker_and_of_two() {
    let given = pos_of(&[(13, 1), (8, 1)], &[(20, 2)]);
    let dice = RegularDice::new(2, 1);
    let mut moves = vec![];
    given.one_checker_moves(2, &mut moves);
    assert_eq!(moves.len(), 2);
    given.one_checker_moves(2, &mut moves);
    assert_eq!(moves.len(), 2);
    given.one_checker_moves(1, &mut moves);
    assert_eq!(moves.len(), 4);
    let two = given.two_checker_moves(&dice);
    // 13/10, 8/5, and one step each in either order
    assert_eq!(two.len(), 4);
    assert_eq!(two, given.moves_with_0_checkers_on_bar(&dice));
    assert_eq!(two, given.all_positions_after_mixed_move(&dice));
    let flipped: Vec<Position<15>> = two.iter().map(|p| p.flip()).collect();
    assert_eq!(flipped, given.possible_positions(&Dice::Regular(dice)));
}
