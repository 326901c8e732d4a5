use bkgm::GameResult::{LoseBackgammon, LoseGammon, LoseNormal, WinBackgammon, WinGammon, WinNormal};
use bkgm::GameState::{GameOver, Ongoing};
use bkgm::OngoingPhase::{Contact, Race};
use bkgm::variants::backgammon;
use bkgm::{Dice, GamePhase, Position, O_BAR, X_BAR};

fn pos_of(x: &[(usize, i8)], o: &[(usize, i8)]) -> Position<15> {
    let mut pips = [0i8; 26];
    for &(pip, checkers) in x {
        pips[pip] = checkers;
    }
    for &(pip, checkers) in o {
        pips[pip] = -checkers;
    }
    Position::<15>::try_from(pips).unwrap()
}

#[test]
fn x_off() {
    let given = pos_of(&[(3, 15)], &[(1, 1)]);
    assert_eq!(given.x_off(), 0);
    let given = pos_of(&[(3, 10)], &[(1, 1)]);
    assert_eq!(given.x_off(), 5);
}

#[test]
fn o_off() {
    let given = pos_of(&[(1, 1)], &[(3, 15)]);
    assert_eq!(given.o_off(), 0);
    let given = pos_of(&[(1, 1)], &[(3, 10)]);
    assert_eq!(given.o_off(), 5);
}

#[test]
fn position_game_state_bg_when_on_bar() {
    let given = pos_of(&[(25, 1), (1, 14)], &[]);
    assert_eq!(given.game_state(), GameOver(LoseBackgammon));
    assert_eq!(
        given.flip().game_state(),
        GameOver(LoseBackgammon.reverse())
    );
}

#[test]
fn position_game_state_bg_when_not_on_bar() {
    let given = pos_of(&[(19, 15)], &[]);
    assert_eq!(given.game_state(), GameOver(LoseBackgammon));
    assert_eq!(
        given.flip().game_state(),
        GameOver(LoseBackgammon.reverse())
    );
}

#[test]
fn position_game_state_gammon() {
    let given = pos_of(&[(18, 15)], &[]);
    assert_eq!(given.game_state(), GameOver(LoseGammon));
    assert_eq!(given.flip().game_state(), GameOver(LoseGammon.reverse()));
}

#[test]
fn position_game_state_ongoing() {
    let given = pos_of(&[(19, 14)], &[(1, 4)]);
    assert_eq!(given.game_state(), Ongoing);
    assert_eq!(given.flip().game_state(), Ongoing);
}

#[test]
fn game_phase_win_or_lose_normal() {
    let given = pos_of(&[(1, 1)], &[]);
    assert_eq!(given.phase(), GamePhase::GameOver(LoseNormal));
    assert_eq!(given.flip().phase(), GamePhase::GameOver(WinNormal));
}

#[test]
fn game_phase_win_or_lose_gammon() {
    let given = pos_of(&[(12, 15)], &[]);
    assert_eq!(given.phase(), GamePhase::GameOver(LoseGammon));
    assert_eq!(given.flip().phase(), GamePhase::GameOver(WinGammon));
}

#[test]
fn game_phase_win_or_lose_bg() {
    let given = pos_of(&[(20, 15)], &[]);
    assert_eq!(given.phase(), GamePhase::GameOver(LoseBackgammon));
    assert_eq!(given.flip().phase(), GamePhase::GameOver(WinBackgammon));
}

#[test]
fn game_phase_contact() {
    let given = pos_of(&[(12, 1)], &[(2, 1)]);
    assert_eq!(given.phase(), GamePhase::Ongoing(Contact));
}

#[test]
fn game_phase_contact_enclosing() {
    let given = pos_of(&[(12, 1)], &[(20, 1), (2, 1)]);
    assert_eq!(given.phase(), GamePhase::Ongoing(Contact));

    let given = pos_of(&[(20, 1), (2, 1)], &[(12, 1)]);
    assert_eq!(given.phase(), GamePhase::Ongoing(Contact));
}

#[test]
fn game_phase_contact_when_x_on_bar() {
    let given = pos_of(&[(X_BAR, 1)], &[(2, 1)]);
    assert_eq!(given.phase(), GamePhase::Ongoing(Contact));
}

#[test]
fn game_phase_contact_when_o_on_bar() {
    let given = pos_of(&[(1, 1)], &[(O_BAR, 1)]);
    assert_eq!(given.phase(), GamePhase::Ongoing(Contact));
}

#[test]
fn game_phase_race() {
    let given = pos_of(&[(1, 1)], &[(2, 1)]);
    assert_eq!(given.phase(), GamePhase::Ongoing(Race));
}

#[test]
fn all_positions_after_moving_double() {
    // Given
    let pos = pos_of(&[(X_BAR, 2), (4, 1), (3, 1)], &[(24, 2)]);
    // When
    let positions = pos.possible_positions(&Dice::new(3, 3));
    // Then
    let expected1 = pos_of(&[(1, 2)], &[(6, 2), (21, 1), (22, 1)]);
    let expected2 = pos_of(&[(1, 2)], &[(3, 1), (9, 1), (21, 1), (22, 1)]);
    let expected3 = pos_of(&[(1, 2)], &[(3, 1), (6, 1), (22, 1), (24, 1)]);
    assert_eq!(positions, [expected3, expected2, expected1]);
}

#[test]
fn all_positions_after_moving_mixed() {
    let pos = pos_of(&[(X_BAR, 1)], &[(22, 1)]);
    // When
    let positions = pos.possible_positions(&Dice::new(2, 3));
    // Then
    let expected1 = pos_of(&[(X_BAR, 1)], &[(5, 1)]);
    let expected2 = pos_of(&[(3, 1)], &[(5, 1)]);
    assert_eq!(positions, [expected1, expected2]);
}

#[test]
fn try_from_legal() {
    // Given
    let mut pips = [0_i8; 26];
    pips[X_BAR] = 2;
    pips[10] = 10;
    pips[11] = -11;
    pips[O_BAR] = -3;
    // When
    let position = Position::<15>::try_from(pips);
    // Then
    let position = position.unwrap();
    assert_eq!(position.pip(X_BAR), 2);
    assert_eq!(position.pip(10), 10);
    assert_eq!(position.x_off(), 3);
    assert_eq!(position.pip(11), -11);
    assert_eq!(position.pip(O_BAR), -3);
    assert_eq!(position.o_off(), 1);
}

#[test]
fn try_from_fails_too_many_x_checkers() {
    // Given
    let mut pips = [0_i8; 26];
    pips[X_BAR] = 10;
    pips[10] = 10;
    pips[11] = -10;
    // When
    let position = Position::<15>::try_from(pips);
    // Then
    assert_eq!(
        position,
        Err("Player x has more than 15 checkers on the board.")
    );
}

#[test]
fn try_from_fails_too_many_o_checkers() {
    // Given
    let mut pips = [0_i8; 26];
    pips[10] = 10;
    pips[11] = -10;
    pips[O_BAR] = -10;
    // When
    let position = Position::<15>::try_from(pips);
    // Then
    assert_eq!(
        position,
        Err("Player o has more than 15 checkers on the board.")
    );
}

#[test]
fn try_from_fails_o_checker_on_x_bar() {
    // Given
    let mut pips = [0_i8; 26];
    pips[X_BAR] = -10;
    pips[10] = 1;
    pips[11] = -1;
    // When
    let position = Position::<15>::try_from(pips);
    // Then
    assert_eq!(
        position,
        Err("Index 25 is the bar for player x, number of checkers needs to be positive.")
    );
}

#[test]
fn try_from_fails_x_checker_on_o_bar() {
    // Given
    let mut pips = [0_i8; 26];
    pips[10] = 1;
    pips[11] = -1;
    pips[O_BAR] = 10;
    // When
    let position = Position::<15>::try_from(pips);
    // Then
    assert_eq!(
        position,
        Err("Index 0 is the bar for player o, number of checkers needs to be negative.")
    );
}

#[test]
fn move_single_checker_mixed_move() {
    let before = pos_of(&[(4, 10)], &[]);
    let actual = before.clone_and_move_single_checker(4, 2);
    let expected = pos_of(&[(4, 9), (2, 1)], &[]);
    assert_eq!(actual, expected);
}

#[test]
fn move_single_checker_hit_opponent() {
    let before = pos_of(&[(4, 10)], &[(2, 1)]);
    let actual = before.clone_and_move_single_checker(4, 2);
    let expected = pos_of(&[(4, 9), (2, 1)], &[(O_BAR, 1)]);
    assert_eq!(actual, expected);
}

#[test]
fn move_single_checker_bearoff_mixed() {
    let before = pos_of(&[(4, 10)], &[]);
    let actual = before.clone_and_move_single_checker(4, 4);
    let expected = pos_of(&[(4, 9)], &[]);
    assert_eq!(actual, expected);
}

#[test]
fn move_single_checker_bearoff_from_lower_pip() {
    let before = pos_of(&[(4, 10)], &[]);
    let actual = before.clone_and_move_single_checker(4, 5);
    let expected = pos_of(&[(4, 9)], &[]);
    assert_eq!(actual, expected);
}

#[test]
fn cannot_move_no_checker() {
    let given = pos_of(&[(4, 10)], &[]);
    assert!(!given.can_move(5, 2));
}

#[test]
fn cannot_move_would_land_on_two_opposing_checkers() {
    let given = pos_of(&[(4, 10)], &[(2, 2)]);
    assert!(!given.can_move(4, 2));
}

#[test]
fn can_move_will_land_on_one_opposing_checker() {
    let given = pos_of(&[(4, 10)], &[(2, 1)]);
    assert!(given.can_move(4, 2));
}

#[test]
fn can_move_will_land_on_checkers() {
    let given = pos_of(&[(4, 10)], &[(2, 1)]);
    assert!(given.can_move(4, 2));
}

#[test]
fn cannot_move_bear_off_illegal_because_other_checkers() {
    let given = pos_of(&[(10, 2), (4, 10)], &[]);
    assert!(!given.can_move(4, 4));
}

#[test]
fn can_move_will_bear_off_exactly() {
    let given = pos_of(&[(4, 10)], &[]);
    assert!(given.can_move(4, 4));
}

#[test]
fn cannot_move_bear_off_skipping_illegal_because_other_checkers() {
    let given = pos_of(&[(10, 2), (4, 10)], &[]);
    assert!(!given.can_move(4, 6));
}

#[test]
fn can_move_will_bear_off_skipping() {
    let given = pos_of(&[(4, 10)], &[]);
    assert!(given.can_move(4, 6));
}

#[test]
fn switch_sides() {
    // Given
    let given = Position::<15>::from_raw(
        true,
        [
            2, 2, 1, 1, 1, 1, 1, 1, 1, 1, 1, 1, 1, 0, -2, 0, -2, 0, -2, 0, -2, 0, -2, 0, -2, 0,
        ],
        0,
        3,
    );
    // When
    let actual = given.flip();
    // Then
    let expected = Position::<15>::from_raw(
        false,
        [
            0, 2, 0, 2, 0, 2, 0, 2, 0, 2, 0, 2, 0, -1, -1, -1, -1, -1, -1, -1, -1, -1, -1, -1,
            -2, -2,
        ],
        3,
        0,
    );
    assert_eq!(actual, expected);
}

#[test]
fn from() {
    let actual = pos_of(&[(X_BAR, 2), (3, 2), (1, 1)], &[(24, 5), (23, 4), (22, 6)]);
    let expected = Position::<15>::from_raw(
        true,
        [
            0, 1, 0, 2, 0, 0, 0, 0, 0, 0, 0, 0, 0, 0, 0, 0, 0, 0, 0, 0, 0, 0, -6, -4, -5, 2,
        ],
        10,
        0,
    );
    assert_eq!(actual, expected);
}

#[test]
fn starting_position_is_correct_and_symmetric() {
    let expected = pos_of(
        &[(24, 2), (13, 5), (8, 3), (6, 5)],
        &[(19, 5), (17, 3), (12, 5), (1, 2)],
    );
    let starting = backgammon();
    assert_eq!(starting, expected);
    assert_eq!(starting, starting.flip());
}

#[test]
fn cannot_move_opposing_checker() {
    let given = pos_of(&[], &[(4, 10)]);
    assert!(!given.can_move(4, 2));
}

#[test]
fn debug() {
    let actual = pos_of(&[(X_BAR, 2), (3, 5), (1, 1)], &[(24, 7), (23, 4), (O_BAR, 3)]).describe();
    let expected = "Position:\nx: {bar:2, 3:5, 1:1, off:7}\no: {off:1, 24:7, 23:4, bar:3}";
    assert_eq!(actual, expected);
}

#[test]
fn cells_into_a_position_and_back() {
    let mut pips = [0_i8; 26];
    pips[X_BAR] = 2;
    pips[10] = 10;
    pips[11] = -11;
    pips[O_BAR] = -3;
    let position: Result<Position<15>, &'static str> = pips.try_into();
    let position = position.unwrap();
    assert_eq!(position, Position::<15>::try_from(pips).unwrap());
    assert!(position.turn());
    let back: [i8; 26] = position.into();
    assert_eq!(back, pips);
    pips[12] = 4;
    let position: Result<Position<15>, &'static str> = pips.try_into();
    assert_eq!(position, Err("Player x has more than 15 checkers on the board."));
}
