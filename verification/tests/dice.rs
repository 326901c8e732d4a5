use bkgm::dice::RegularDice;
use bkgm::Dice;

#[test]
fn all_36() {
    let all_36 = Dice::all_36();

    let smallest_double = Dice::new(1, 1);
    assert_eq!(all_36.iter().filter(|x| x == &&smallest_double).count(), 1);

    let biggest_double = Dice::new(6, 6);
    assert_eq!(all_36.iter().filter(|x| x == &&biggest_double).count(), 1);

    let regular = Dice::new(1, 6);
    assert_eq!(all_36.iter().filter(|x| x == &&regular).count(), 2);
}

#[test]
fn all_1296() {
    let all_1296 = Dice::all_1296();

    let double_double = (Dice::new(1, 1), Dice::new(6, 6));
    assert_eq!(all_1296.iter().filter(|x| x == &&double_double).count(), 1);

    let double_regular = (Dice::new(2, 2), Dice::new(5, 4));
    assert_eq!(all_1296.iter().filter(|x| x == &&double_regular).count(), 2);

    let regular_double = (Dice::new(2, 3), Dice::new(5, 5));
    assert_eq!(all_1296.iter().filter(|x| x == &&regular_double).count(), 2);

    let regular_regular = (Dice::new(2, 3), Dice::new(3, 5));
    assert_eq!(
        all_1296.iter().filter(|x| x == &&regular_regular).count(),
        4
    );
}

#[test]
fn new_orders_the_dice() {
    assert_eq!(Dice::new(3, 3), Dice::Double(3));
    assert_eq!(Dice::new(2, 5), Dice::Regular(RegularDice { big: 5, small: 2 }));
    assert_eq!(Dice::new(5, 2), Dice::Regular(RegularDice { big: 5, small: 2 }));
    assert_eq!(RegularDice::new(1, 6), RegularDice { big: 6, small: 1 });
}

#[test]
fn try_from_refuses_values_that_no_die_shows() {
    let error = Err("Dice values must be between 1 and 6.");
    assert_eq!(Dice::try_from((0, 3)), error);
    assert_eq!(Dice::try_from((3, 0)), error);
    assert_eq!(Dice::try_from((7, 3)), error);
    assert_eq!(Dice::try_from((3, 7)), error);
    assert_eq!(Dice::try_from((1, 6)), Ok(Dice::new(6, 1)));
    assert_eq!(Dice::try_from((6, 6)), Ok(Dice::Double(6)));
}

#[test]
fn all_singles_holds_each_mixed_roll_once() {
    let all = Dice::all_singles();
    assert_eq!(all[0], Dice::new(1, 2));
    assert_eq!(all[4], Dice::new(1, 6));
    assert_eq!(all[5], Dice::new(2, 3));
    assert_eq!(all[14], Dice::new(5, 6));
    for small in 1..=6 {
        for big in (small + 1)..=6 {
            let dice = Dice::new(small, big);
            assert_eq!(all.iter().filter(|x| **x == dice).count(), 1);
        }
    }
}

#[test]
fn all_21_weighs_each_roll_by_its_ways() {
    let all = Dice::all_21();
    assert_eq!(all[0], (Dice::Double(1), 1));
    assert_eq!(all[1], (Dice::new(1, 2), 2));
    assert_eq!(all[6], (Dice::Double(2), 1));
    assert_eq!(all[20], (Dice::Double(6), 1));
    let ways: u32 = all.iter().map(|(_, weight)| *weight as u32).sum();
    assert_eq!(ways, 36);
}

#[test]
fn dice_as_text() {
    assert_eq!(Dice::new(2, 5).to_string(), "(5,2)");
    assert_eq!(Dice::new(4, 4).to_string(), "(4,4)");
}
