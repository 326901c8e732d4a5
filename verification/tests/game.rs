use bkgm::variants::{backgammon, hypergammon, hypergammon2, hypergammon4, hypergammon5};
use bkgm::GameResult::{LoseBackgammon, LoseGammon, LoseNormal, WinBackgammon, WinGammon, WinNormal};
use bkgm::{Dice, GamePhase, GameResult, GameState, OngoingPhase, Position, State};
use std::collections::HashSet;

fn plays_of<S: State>(state: &S, dice: &Dice) -> usize {
    state.possible_positions(dice).len()
}

fn id_round_trip<S: State + PartialEq>(state: &S) -> bool {
    S::from_id(&state.position_id()) == Some(state.flip().flip())
        && S::decode(state.encode()) == S::from_id(&state.position_id())
}

#[test]
fn a_position_is_a_state() {
    let start = backgammon();
    assert_eq!(<Position<15> as State>::num_checkers(), 15);
    assert_eq!(<Position<3> as State>::num_checkers(), 3);
    assert_eq!(plays_of(&start, &Dice::new(4, 4)), 52);
    assert_eq!(plays_of(&hypergammon(), &Dice::new(6, 5)), by_hand_hypergammon_65());
    assert!(id_round_trip(&start));
    assert!(id_round_trip(&hypergammon()));
    assert_eq!(State::game_state(&start), GameState::Ongoing);
    assert_eq!(State::phase(&start), GamePhase::Ongoing(OngoingPhase::Contact));
    assert_eq!(State::x_bar(&start), 0);
    assert_eq!(State::o_bar(&start), 0);
    assert_eq!(State::x_off(&start), 0);
    assert_eq!(State::o_off(&start), 0);
    assert_eq!(State::pip(&start, 24), 2);
    assert!(State::turn(&start));
    assert!(!State::turn(&State::flip(&start)));
    assert_eq!(State::dbhash(&hypergammon()), hypergammon().dbhash());
}

/// Hypergammon starts with x on 24, 23 and 22 and o on 1, 2 and 3. With 6 and
/// 5, a checker can do both steps (3 checkers, all landing points free), or
/// two checkers one step each (3 * 3 = 9 ways, less the 3 where both are the
/// same checker, counted before): 3 + 6 = 9 positions.
fn by_hand_hypergammon_65() -> usize {
    9
}

#[test]
fn starting_positions_are_consistent_and_symmetric() {
    assert!(backgammon().is_consistent());
    assert_eq!(hypergammon2().flip(), hypergammon2());
    assert_eq!(hypergammon4().flip(), hypergammon4());
    assert_eq!(hypergammon5().flip(), hypergammon5());
    assert!(hypergammon2().is_consistent());
    assert!(hypergammon4().is_consistent());
    assert!(hypergammon5().is_consistent());
    assert_eq!(hypergammon5().pip(20), 1);
    assert_eq!(hypergammon5().pip(5), -1);
    assert_eq!(hypergammon2().x_off(), 0);
}

#[test]
fn equal_positions_hash_alike() {
    let start = backgammon();
    let other_side_on_turn = Position::<15>::from_raw(false, start.pips(), 0, 0);
    assert_eq!(start, other_side_on_turn);
    let mut set = HashSet::new();
    set.insert(start);
    set.insert(other_side_on_turn);
    set.insert(start.flip());
    assert_eq!(set.len(), 1);
    set.insert(Position::<15>::from_id("0HPwATDgc/ABMA").unwrap());
    assert_eq!(set.len(), 2);
}

#[test]
fn a_position_made_of_raw_parts_need_not_be_consistent() {
    let start = backgammon();
    assert!(Position::<15>::from_raw(true, start.pips(), 0, 0).is_consistent());
    assert!(!Position::<15>::from_raw(true, start.pips(), 1, 0).is_consistent());
    assert!(!Position::<15>::from_raw(true, start.pips(), 0, 1).is_consistent());
    assert!(!Position::<14>::from_raw(true, start.pips(), 0, 0).is_consistent());
    let mut pips = [0i8; 26];
    pips[25] = -1;
    assert!(!Position::<15>::from_raw(true, pips, 15, 14).is_consistent());
    assert!(!Position::<200>::from_raw(true, [0i8; 26], 200, 200).is_consistent());
    assert!(Position::<127>::from_raw(true, [0i8; 26], 127, 127).is_consistent());
}

#[test]
fn a_key_has_room_for_31_checkers() {
    let mut pips = [0i8; 26];
    pips[24] = 16;
    pips[1] = -15;
    let position = Position::<16>::try_from(pips).unwrap();
    assert!(position.has_key());
    assert_eq!(Position::<16>::decode(position.encode()), Some(position));
    pips[1] = -16;
    let position = Position::<16>::try_from(pips).unwrap();
    assert!(!position.has_key());
}

#[test]
fn results_and_their_values() {
    let all = [WinNormal, WinGammon, WinBackgammon, LoseNormal, LoseGammon, LoseBackgammon];
    let values = [1, 2, 3, -1, -2, -3];
    for (result, value) in all.iter().zip(values) {
        assert_eq!(result.value(), value);
        assert_eq!(result.is_win(), value > 0);
        assert_eq!(result.reverse().value(), -value);
        assert_eq!(result.reverse().reverse(), *result);
    }
}

#[test]
fn a_won_game() {
    // x has borne off all: o, with a checker in the home board of x, loses a backgammon
    let mut pips = [0i8; 26];
    pips[3] = -15;
    let position = Position::<15>::try_from(pips).unwrap();
    assert_eq!(position.game_state(), GameState::GameOver(GameResult::WinBackgammon));
    pips[3] = 0;
    pips[7] = -15;
    let position = Position::<15>::try_from(pips).unwrap();
    assert_eq!(position.game_state(), GameState::GameOver(GameResult::WinGammon));
    assert_eq!(position.phase(), GamePhase::GameOver(GameResult::WinGammon));
    pips[7] = -14;
    let position = Position::<15>::try_from(pips).unwrap();
    assert_eq!(position.game_state(), GameState::GameOver(GameResult::WinNormal));
    pips[7] = 0;
    pips[0] = -15;
    let position = Position::<15>::try_from(pips).unwrap();
    assert_eq!(position.game_state(), GameState::GameOver(GameResult::WinBackgammon));
}
