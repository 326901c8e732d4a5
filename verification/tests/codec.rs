use bkgm::variants::{backgammon, hypergammon};
use bkgm::{Dice, Position};

fn pos_of(x: &[(usize, i8)], o: &[(usize, i8)]) -> Position<15> {
    let mut pips = [0i8; 26];
    for &(pip, checkers) in x {
        pips[pip] = checkers;
    }
    for &(pip, checkers) in o {
        pips[pip] = -checkers;
    }
    Position::<15>::try_from(pips).unwrap()
}

#[test]
fn number_of_moves_for_various_positions_and_dice() {
    // Thanks to Øystein for his test positions
    let positions = [
        ("4HPwATDgc/ABMA", (4, 4), 52),
        ("4HPwATDgc/ABMA", (3, 1), 16),
        ("4HPwATDgc/ABMA", (1, 3), 16),
        ("0HPwATDgc/ABMA", (6, 4), 15),
        ("0HPwATDgc/ABMA", (4, 6), 15),
        ("4DnyATDgc/ABMA", (6, 4), 14),
        ("4DnyATDgc/ABMA", (4, 6), 14),
        ("AACAkCRJqqoAAA", (1, 1), 2220),
        /* From The Bar */
        ("4HPwATDgc/ABUA", (6, 6), 0),
        ("4HPwATDgc/ABUA", (5, 6), 4),
        ("4HPwATDgc/ABUA", (5, 2), 7),
        ("0HPwATDgc/ABUA", (5, 2), 8),
        ("4HPwATDgc/ABYA", (5, 2), 1),
        ("sHPwATDgc/ABYA", (5, 2), 1),
        ("hnPwATDgc/ABYA", (5, 2), 1),
        ("sHPwATDgc/ABYA", (2, 2), 12),
        ("sHPwATDgOfgAcA", (2, 2), 4),
        ("sHPwATDgHHwAeA", (2, 2), 1),
        ("sHPwATDgHDwAfA", (2, 2), 1),
        ("sHPwATDgHDwAfA", (2, 1), 1),
        ("sHPwATDgHDwAfA", (6, 1), 1),
        ("xOfgATDgc/ABUA", (4, 3), 10),
        ("lOfgATDgc/ABUA", (4, 3), 10),
        /* Unable to play full roll */
        ("sNvBATBw38ABMA", (6, 6), 1),
        ("YNsWADZsuzsAAA", (6, 5), 1),
        ("YNsWADNm7zkAAA", (6, 5), 1),
        ("4BwcMBvgAYABAA", (4, 3), 1),
        ("4DgcMBvgAYABAA", (4, 3), 1),
        ("wAYAMBsAAAQAAA", (4, 3), 1),
        ("GBsAmA0EACAAAA", (4, 3), 2),
        ("MBsAsA0EACAAAA", (4, 3), 2),
        /* Bearoff */
        ("2G4bADDOAgAAAA", (5, 1), 2),
        ("2G4bADDObgAAAA", (4, 2), 7),
        ("AwAACAAAAAAAAA", (4, 2), 1),
        ("AwAAYDsAAAAAAA", (6, 5), 1),
        ("AwAAYDsAAAAAAA", (6, 2), 3),
        ("2+4OAADs3hcAAA", (4, 3), 12),
        ("tN0dAATb3AMAAA", (4, 2), 9),
        ("tN0dAATb3AMAAA", (2, 2), 38),
        ("2L07AAC274YAAA", (6, 5), 3),
        ("2L07AAC23wYBAA", (6, 5), 2),
        ("27ZFAAR7swEAAA", (6, 2), 4),
        ("27ZFAAR7swEAAA", (2, 6), 4),
        ("v0MChgK7HwgAAA", (5, 6), 1),
        ("u20DAAP77hEAAA", (6, 3), 3),
        ("u20DYAD77hEAAA", (6, 3), 3),
        ("ABDAEBIAAAAAAA", (6, 2), 1),
    ];
    fn number_of_moves(position: &Position<15>, dice: &Dice) -> usize {
        let all = position.possible_positions(dice);
        if all.len() == 1 && all.first().unwrap().flip() == *position {
            0
        } else {
            all.len()
        }
    }
    for (id, dice, number) in positions {
        let position = Position::<15>::from_id(id).unwrap();
        let dice = Dice::new(dice.0, dice.1);
        assert_eq!(
            number_of_moves(&position, &dice),
            number,
            "failing position is {}",
            id
        );
    }
}

#[test]
fn starting_position_has_the_known_id() {
    assert_eq!(backgammon().position_id(), "4HPwATDgc/ABMA");
}

#[test]
fn starting_position_has_the_known_key() {
    let key = backgammon().encode();
    assert_eq!(key, [0xe0, 0x73, 0xf0, 0x01, 0x30, 0xe0, 0x73, 0xf0, 0x01, 0x30]);
}

#[test]
fn id_of_the_starting_position_decodes_to_it() {
    let position = Position::<15>::from_id("4HPwATDgc/ABMA").unwrap();
    assert_eq!(position, backgammon());
    assert!(position.turn());
}

#[test]
fn decode_of_encode_is_the_position() {
    let given = pos_of(&[(25, 2), (13, 5), (8, 3), (6, 4)], &[(19, 5), (17, 3), (12, 5), (0, 1)]);
    let decoded = Position::<15>::decode(given.encode()).unwrap();
    assert_eq!(decoded, given);
    assert_eq!(decoded.x_off(), 1);
    assert_eq!(decoded.o_off(), 1);
    assert!(decoded.turn());
}

#[test]
fn encode_takes_the_view_of_the_side_on_roll() {
    let given = pos_of(&[(24, 2), (3, 1)], &[(20, 4), (1, 1)]);
    let flipped = given.flip();
    assert!(!flipped.turn());
    assert_eq!(flipped.encode(), given.encode());
    assert_eq!(flipped.position_id(), given.position_id());
    assert_eq!(Position::<15>::decode(flipped.encode()).unwrap(), given);
}

#[test]
fn key_of_an_empty_board_is_zero() {
    let given = pos_of(&[], &[]);
    assert_eq!(given.encode(), [0u8; 10]);
    assert_eq!(given.position_id(), "AAAAAAAAAAAAAA");
}

#[test]
fn key_with_fifteen_checkers_on_both_bars() {
    let given = pos_of(&[(25, 15)], &[(0, 15)]);
    let key = given.encode();
    // bits 24 to 38 are the checkers of o, bits 64 to 78 those of x
    assert_eq!(key, [0, 0, 0, 0xff, 0x7f, 0, 0, 0, 0xff, 0x7f]);
    assert_eq!(Position::<15>::decode(key).unwrap(), given);
}

#[test]
fn decode_refuses_too_many_checkers() {
    // 16 checkers of o on point 24
    let key = [0xff, 0xff, 0, 0, 0, 0, 0, 0, 0, 0];
    assert_eq!(Position::<15>::decode(key), None);
    // three checkers are too many for hypergammon with two per side
    let mut pips = [0i8; 26];
    pips[24] = 3;
    let three = Position::<15>::try_from(pips).unwrap();
    assert_eq!(Position::<2>::decode(three.encode()), None);
    assert!(Position::<3>::decode(three.encode()).is_some());
}

#[test]
fn decode_refuses_both_sides_on_one_point() {
    // one checker of o on point 24: bit 0; one checker of x on point 24: run 48
    // starts after 1 + 24 closing bits of o, the bar's, and 23 closing bits of x
    let mut key = [0u8; 10];
    key[0] |= 1;
    let bit = 1 + 24 + 1 + 23;
    key[bit / 8] |= 1 << (bit % 8);
    assert_eq!(Position::<15>::decode(key), None);
}

#[test]
fn from_id_refuses_malformed_text() {
    assert_eq!(Position::<15>::from_id(""), None);
    assert_eq!(Position::<15>::from_id("4HPwATDgc/ABM"), None);
    assert_eq!(Position::<15>::from_id("4HPwATDgc/ABMAA"), None);
    assert_eq!(Position::<15>::from_id("4HPwATDgc*ABMA"), None);
    assert_eq!(Position::<15>::from_id("////////////////"), None);
    assert_eq!(Position::<15>::from_id("4HPwATDgc/ABMÄ"), None);
    assert_eq!(Position::<15>::from_id("4HPwATDgc/ABM="), None);
    // 16 checkers of o on point 24: a text that is base64, but no position
    assert_eq!(Position::<15>::from_id("//8AAAAAAAAAAA"), None);
}

#[test]
fn from_key_bytes_wants_ten_bytes() {
    assert_eq!(Position::<15>::from_key_bytes(&vec![0u8; 9]), None);
    assert_eq!(Position::<15>::from_key_bytes(&vec![0u8; 11]), None);
    assert_eq!(Position::<15>::from_key_bytes(&vec![0u8; 10]), Some(pos_of(&[], &[])));
}

#[test]
fn hypergammon_id_round_trip() {
    let start = hypergammon();
    let id = start.position_id();
    assert_eq!(id.len(), 14);
    assert_eq!(Position::<3>::from_id(&id), Some(start));
}
