use bkgm::dice::RegularDice;
use bkgm::{Position, O_BAR, X_BAR};

fn pos_of(x: &[(usize, i8)], o: &[(usize, i8)]) -> Position<15> {
    let mut pips = [0i8; 26];
    for &(pip, checkers) in x {
        pips[pip] = checkers;
    }
    for &(pip, checkers) in o {
        pips[pip] = -checkers;
    }
    Position::<15>::try_from(pips).unwrap()
}

#[test]
fn cannot_enter_with_two_checkers_on_bar() {
    // Given
    let position = pos_of(&[(X_BAR, 2), (10, 2)], &[(22, 2), (20, 2)]);
    // When
    let resulting_positions =
        position.all_positions_after_mixed_move(&RegularDice { big: 5, small: 3 });
    // Then
    assert_eq!(resulting_positions, vec![position]);
}

#[test]
fn can_enter_bigger_die_with_two_on_the_bar() {
    // Given
    let position = pos_of(&[(X_BAR, 2), (10, 2)], &[(22, 2)]);
    // When
    let resulting_positions = position.all_positions_after_mixed_move(&RegularDice::new(5, 3));
    // Then
    let expected = pos_of(&[(X_BAR, 1), (20, 1), (10, 2)], &[(22, 2)]);
    assert_eq!(resulting_positions, vec![expected]);
}

#[test]
fn can_enter_smaller_die_with_two_on_the_bar() {
    // Given
    let position = pos_of(&[(X_BAR, 2), (10, 2)], &[(22, 1), (20, 2)]);
    // When
    let resulting_positions = position.all_positions_after_mixed_move(&RegularDice::new(5, 3));
    // Then
    let expected = pos_of(&[(X_BAR, 1), (22, 1), (10, 2)], &[(20, 2), (O_BAR, 1)]);
    assert_eq!(resulting_positions, vec![expected]);
}

#[test]
fn can_enter_both_with_three_on_the_bar() {
    // Given
    let position = pos_of(&[(X_BAR, 3), (10, 2)], &[(20, 1)]);
    // When
    let resulting_positions = position.all_positions_after_mixed_move(&RegularDice::new(5, 3));
    // Then
    let expected = pos_of(&[(X_BAR, 1), (22, 1), (20, 1), (10, 2)], &[(O_BAR, 1)]);
    assert_eq!(resulting_positions, vec![expected]);
}

#[test]
fn cannot_enter_with_one_checker_on_bar() {
    // Given
    let position = pos_of(&[(X_BAR, 1), (10, 2)], &[(22, 2), (20, 2)]);
    // When
    let resulting_positions = position.all_positions_after_mixed_move(&RegularDice::new(5, 3));
    // Then
    assert_eq!(resulting_positions, vec![position]);
}

#[test]
fn can_enter_with_bigger_die_but_no_other_movement() {
    // Given
    let position = pos_of(&[(X_BAR, 1), (10, 2)], &[(22, 2), (20, 1), (17, 2), (7, 3)]);
    // When
    let resulting_positions = position.all_positions_after_mixed_move(&RegularDice::new(5, 3));
    // Then
    let expected = pos_of(&[(20, 1), (10, 2)], &[(22, 2), (17, 2), (7, 3), (O_BAR, 1)]);
    assert_eq!(resulting_positions, vec![expected]);
}

#[test]
fn can_enter_with_smaller_die_but_no_other_movement() {
    // Given
    let position = pos_of(&[(X_BAR, 1)], &[(19, 2), (14, 2)]);
    // When
    let resulting_positions = position.all_positions_after_mixed_move(&RegularDice::new(6, 5));
    // Then
    let expected = pos_of(&[(20, 1)], &[(19, 2), (14, 2)]);
    assert_eq!(resulting_positions, vec![expected]);
}

#[test]
fn could_enter_with_either_die_but_must_use_bigger_one() {
    // Given
    let position = pos_of(&[(X_BAR, 1)], &[(20, 2)]);
    // When
    let resulting_positions = position.all_positions_after_mixed_move(&RegularDice::new(3, 2));
    // Then
    let expected = pos_of(&[(22, 1)], &[(20, 2)]);
    assert_eq!(resulting_positions, vec![expected]);
}

#[test]
fn only_entering_with_smaller_die_allows_two_checkers_to_move() {
    // Given
    let position = pos_of(&[(X_BAR, 1), (12, 1)], &[(20, 2), (10, 2)]);
    // When
    let resulting_positions = position.all_positions_after_mixed_move(&RegularDice::new(3, 2));
    // Then
    let expected = pos_of(&[(23, 1), (9, 1)], &[(20, 2), (10, 2)]);
    assert_eq!(resulting_positions, vec![expected]);
}

#[test]
fn only_entering_with_bigger_die_allows_two_checkers_to_move() {
    // Given
    let position = pos_of(&[(X_BAR, 1), (12, 1)], &[(20, 2), (9, 2)]);
    // When
    let resulting_positions = position.all_positions_after_mixed_move(&RegularDice::new(3, 2));
    // Then
    let expected = pos_of(&[(22, 1), (10, 1)], &[(20, 2), (9, 2)]);
    assert_eq!(resulting_positions, vec![expected]);
}

#[test]
fn entering_with_either_die_allowed_but_only_one_final_position() {
    // Given
    let position = pos_of(&[(X_BAR, 1)], &[(9, 2)]);
    // When
    let resulting_positions = position.all_positions_after_mixed_move(&RegularDice::new(3, 2));
    // Then
    let expected = pos_of(&[(20, 1)], &[(9, 2)]);
    assert_eq!(resulting_positions, vec![expected]);
}

#[test]
fn final_position_but_different_move_because_die1_hits_opponent() {
    // Given
    let position = pos_of(&[(X_BAR, 1)], &[(22, 1)]);
    // When
    let resulting_positions = position.all_positions_after_mixed_move(&RegularDice::new(3, 2));
    // Then
    let expected1 = pos_of(&[(20, 1)], &[(O_BAR, 1)]);
    let expected2 = pos_of(&[(20, 1)], &[(22, 1)]);
    assert_eq!(resulting_positions, vec![expected1, expected2]);
}

#[test]
fn final_position_but_different_move_because_die2_hits_opponent() {
    // Given
    let position = pos_of(&[(X_BAR, 1)], &[(23, 1)]);
    // When
    let resulting_positions = position.all_positions_after_mixed_move(&RegularDice::new(3, 2));
    // Then
    let expected1 = pos_of(&[(20, 1)], &[(23, 1)]);
    let expected2 = pos_of(&[(20, 1)], &[(O_BAR, 1)]);
    assert_eq!(resulting_positions, vec![expected1, expected2]);
}

#[test]
fn cannot_user_either_die() {
    // Given
    let position = pos_of(&[(10, 2), (2, 3)], &[(8, 2), (6, 2)]);
    // When
    let resulting_positions = position.all_positions_after_mixed_move(&RegularDice::new(4, 2));
    // Then
    assert_eq!(resulting_positions, vec![position]);
}

#[test]
fn forced_only_smaller_die() {
    // Given
    let position = pos_of(&[(7, 2)], &[(2, 2)]);
    // When
    let resulting_positions = position.all_positions_after_mixed_move(&RegularDice::new(5, 2));
    // Then
    let expected = pos_of(&[(7, 1), (5, 1)], &[(2, 2)]);
    assert_eq!(resulting_positions, vec![expected]);
}

#[test]
fn forced_smaller_die_first_then_bear_off() {
    // Given
    let position = pos_of(&[(8, 1), (4, 3)], &[(1, 2)]);
    // When
    let resulting_positions = position.all_positions_after_mixed_move(&RegularDice::new(4, 3));
    // Then
    let expected = pos_of(&[(5, 1), (4, 2)], &[(1, 2)]);
    assert_eq!(resulting_positions, vec![expected]);
}

#[test]
fn bigger_die_cannot_move_initially() {
    // Given
    let position = pos_of(&[(20, 1)], &[(16, 3)]);
    // When
    let resulting_positions = position.all_positions_after_mixed_move(&RegularDice::new(4, 3));
    // Then
    let expected = pos_of(&[(13, 1)], &[(16, 3)]);
    assert_eq!(resulting_positions, vec![expected]);
}

#[test]
fn smaller_first_allows_bear_off() {
    // Given
    let position = pos_of(&[(9, 1), (5, 1)], &[(20, 2)]);
    // When
    let resulting_positions = position.all_positions_after_mixed_move(&RegularDice::new(5, 3));
    // Then
    let expected1 = pos_of(&[(4, 1), (2, 1)], &[(20, 2)]);
    let expected2 = pos_of(&[(5, 1), (1, 1)], &[(20, 2)]);
    let expected3 = pos_of(&[(6, 1)], &[(20, 2)]);
    assert_eq!(resulting_positions, vec![expected2, expected3, expected1]);
}

#[test]
fn could_bear_off_but_could_do_other_moves_as_well() {
    // Given
    let position = pos_of(&[(5, 2), (4, 3), (3, 1)], &[(20, 1)]);
    // When
    let resulting_positions = position.all_positions_after_mixed_move(&RegularDice::new(4, 3));
    // Then
    let expected1 = pos_of(&[(4, 3), (3, 1), (2, 1), (1, 1)], &[(20, 1)]);
    let expected2 = pos_of(&[(5, 1), (4, 2), (3, 1), (1, 2)], &[(20, 1)]);
    let expected3 = pos_of(&[(5, 1), (4, 3), (1, 1)], &[(20, 1)]);
    let expected4 = pos_of(&[(5, 1), (4, 2), (3, 1), (2, 1)], &[(20, 1)]);
    let expected5 = pos_of(&[(5, 2), (4, 1), (3, 1), (1, 1)], &[(20, 1)]);
    let expected6 = pos_of(&[(5, 2), (4, 2)], &[(20, 1)]);
    assert_eq!(
        resulting_positions,
        vec![expected1, expected4, expected5, expected6, expected3, expected2]
    );
}

#[test]
fn only_one_move_if_order_is_not_important() {
    // Given
    let position = pos_of(&[(20, 1)], &[(22, 2)]);
    // When
    let resulting_positions = position.all_positions_after_mixed_move(&RegularDice::new(4, 3));
    // Then
    let expected = pos_of(&[(13, 1)], &[(22, 2)]);
    assert_eq!(resulting_positions, vec![expected]);
}

#[test]
fn only_one_move_in_home_board_if_order_is_not_important() {
    // Given
    let position = pos_of(&[(5, 1)], &[(22, 2)]);
    // When
    let resulting_positions = position.all_positions_after_mixed_move(&RegularDice::new(2, 1));
    // Then
    let expected = pos_of(&[(2, 1)], &[(22, 2)]);
    assert_eq!(resulting_positions, vec![expected]);
}

#[test]
fn two_moves_if_bigger_die_hits_opponent() {
    // Given
    let position = pos_of(&[(10, 1)], &[(6, 1)]);
    // When
    let resulting_positions = position.all_positions_after_mixed_move(&RegularDice::new(4, 2));
    // Then
    let expected1 = pos_of(&[(4, 1)], &[(O_BAR, 1)]);
    let expected2 = pos_of(&[(4, 1)], &[(6, 1)]);
    assert_eq!(resulting_positions, vec![expected2, expected1]);
}

#[test]
fn two_moves_if_smaller_die_hits_opponent() {
    // Given
    let position = pos_of(&[(5, 1)], &[(4, 1)]);
    // When
    let resulting_positions = position.all_positions_after_mixed_move(&RegularDice::new(3, 1));
    // Then
    let expected1 = pos_of(&[(1, 1)], &[(4, 1)]);
    let expected2 = pos_of(&[(1, 1)], &[(O_BAR, 1)]);
    assert_eq!(resulting_positions, vec![expected2, expected1]);
}

#[test]
fn two_bear_offs_from_same_pip() {
    // Given
    let position = pos_of(&[(1, 5)], &[(24, 8)]);
    // When
    let resulting_positions = position.all_positions_after_mixed_move(&RegularDice::new(6, 4));
    // Then
    let expected = pos_of(&[(1, 3)], &[(24, 8)]);
    assert_eq!(resulting_positions, vec![expected]);
}

#[test]
fn bear_off_from_same_pip_with_either_big_or_small_die() {
    // Given
    let position = pos_of(&[(2, 1), (1, 5)], &[]);
    // When
    let resulting_positions = position.all_positions_after_mixed_move(&RegularDice::new(6, 1));
    // Then
    let expected1 = pos_of(&[(1, 4)], &[]);
    let expected2 = pos_of(&[(1, 5)], &[]);
    assert_eq!(resulting_positions, vec![expected2, expected1]);
}

#[test]
fn use_smaller_die_from_bigger_pip_case_when_bigger_pip_in_last_quarter() {
    // Given
    let position = pos_of(&[(7, 1), (6, 3)], &[(2, 2)]);
    // When
    let resulting_positions = position.all_positions_after_mixed_move(&RegularDice::new(5, 4));
    // Then
    let expected = pos_of(&[(6, 2), (3, 1), (1, 1)], &[(2, 2)]);
    assert_eq!(resulting_positions, vec![expected]);
}

#[test]
fn use_smaller_die_from_bigger_pip_case_when_bigger_in_first_quarter() {
    // Given
    let position = pos_of(&[(24, 1), (8, 1), (6, 5)], &[(20, 4), (19, 3), (18, 4), (16, 2), (4, 2)]);
    // When
    let resulting_positions = position.all_positions_after_mixed_move(&RegularDice::new(6, 2));
    // Then
    let expected = pos_of(&[(22, 1), (6, 5), (2, 1)], &[(20, 4), (19, 3), (18, 4), (16, 2), (4, 2)]);
    assert_eq!(resulting_positions, vec![expected]);
}

#[test]
fn bearoff_with_same_checker_after_moving_small_first() {
    // Given
    let position = pos_of(&[(9, 1), (5, 3), (3, 2)], &[(24, 10), (23, 3), (1, 2)]);
    // When
    let resulting_positions = position.all_positions_after_mixed_move(&RegularDice::new(6, 4));
    // Then
    let expected = pos_of(&[(5, 3), (3, 2)], &[(24, 10), (23, 3), (1, 2)]);
    assert_eq!(resulting_positions, vec![expected]);
}

