use staffa::dice::{all_1296, all_21, all_singles, Dice, DiceGen, DiceGenMock, FastrandDice};
use std::cmp::Ordering;

#[test]
fn all_numbers_are_occurring() {
    // Given
    let mut gen = FastrandDice::with_seed(123);
    let mut count = [[0_u32; 6]; 6];
    // When
    for _ in 0..360_000 {
        let dice = gen.roll();
        match dice {
            Dice::Double(die) => {
                count[die - 1][die - 1] += 1;
            }
            Dice::Regular(dice) => {
                count[dice.big - 1][dice.small - 1] += 1;
            }
        }
    }

    // Check regular rolls
    for i in 0..6 {
        for j in 0..6 {
            let count = count[i][j];
            match i.cmp(&j) {
                Ordering::Less => {
                    // This makes sure that dice.big is not smaller than dice.small
                    assert_eq!(count, 0);
                }
                Ordering::Equal => {
                    assert!(count > 9_000 && count < 11_000);
                }
                Ordering::Greater => {
                    assert!(count > 18_000 && count < 22_000);
                }
            }
        }
    }
}

#[test]
fn roll_returns_given_dice() {
    let mut dice_gen = DiceGenMock::new(&[Dice::new(3, 2), Dice::new(1, 6)]);
    assert_eq!(dice_gen.roll(), Dice::new(3, 2));
    assert_eq!(dice_gen.roll(), Dice::new(1, 6));
    assert!(dice_gen.assert_all_dice_were_used());
}

#[test]
fn roll_tables() {
    let rolls = all_21();
    assert_eq!(rolls.len(), 21);
    let mut weights: u32 = 0;
    for &(die, w) in &rolls {
        weights += w;
        match die {
            Dice::Double(_) => assert_eq!(w, 1),
            Dice::Regular(_) => assert_eq!(w, 2),
        }
    }
    assert_eq!(weights, 36);

    let singles = all_singles();
    assert_eq!(singles.len(), 15);
    for die in &singles {
        assert!(matches!(die, Dice::Regular(_)));
    }

    assert_eq!(all_1296().len(), 1296);
}

#[test]
fn dice_new_orders_values() {
    match Dice::new(2, 5) {
        Dice::Regular(d) => {
            assert_eq!(d.big, 5);
            assert_eq!(d.small, 2);
        }
        Dice::Double(_) => panic!("not a double"),
    }
    assert_eq!(Dice::new(4, 4), Dice::Double(4));
}
