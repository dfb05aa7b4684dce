use staffa::position::{Action, GameResult, GameState, State};
use staffa::moves::perft;
use staffa::Error;

fn bpos(xs: &[(usize, i8)], os: &[(usize, i8)]) -> State {
    let mut pips = [0i8; 26];
    let mut x_sum: i8 = 0;
    let mut o_sum: i8 = 0;
    for &(p, c) in xs {
        pips[p] = c;
        x_sum += c;
    }
    for &(p, c) in os {
        pips[p] = -c;
        o_sum += c;
    }
    State {
        pips,
        x_off: (15 - x_sum) as u8,
        o_off: (15 - o_sum) as u8,
    }
}

#[test]
fn start_id() {
    let game = State::new();
    let id = game.position_id();
    assert_eq!(id, "4HPwATDgc/ABMA");
}

#[test]
fn matching_ids() {
    let pids = [
        "4HPwATDgc/ABMA", // starting position
        "jGfkASjg8wcBMA", // random position
        "zGbiIQgxH/AAWA", // X bar
        "zGbiIYCYD3gALA", // O off
    ];
    for pid in pids {
        let game = State::from_id(pid, 15).unwrap();
        assert_eq!(pid, game.position_id());
    }
}

#[test]
fn test_perft() {
    // Depth counts full 21-roll levels here: one level from the start
    // reaches 447 boards, finished games counted as leaves.
    let total = perft(&State::new(), 1);
    assert_eq!(total, 447);
}

#[test]
fn move_counts_from_start() {
    let start = State::new();
    assert_eq!(
        start.possible_positions(&staffa::dice::Dice::new(3, 1)).len(),
        16
    );
    assert_eq!(
        start.possible_positions(&staffa::dice::Dice::new(2, 1)).len(),
        15
    );
    assert_eq!(
        start.possible_positions(&staffa::dice::Dice::new(6, 6)).len(),
        11
    );
}

#[test]
fn key_round_trip() {
    let start = State::new();
    let key = start.encode();
    assert_eq!(State::decode(key, 15), Ok(start));
    let hyper = State::hypergammon_new();
    assert_eq!(State::decode(hyper.encode(), 3), Ok(hyper));
}

#[test]
fn from_id_rejects_garbage() {
    assert_eq!(State::from_id("abc", 15), Err(Error::InvalidPositionId));
    assert_eq!(
        State::from_id("!!!!!!!!!!!!!!", 15),
        Err(Error::InvalidPositionId)
    );
    // More ones than fifteen checkers a side allow.
    assert_eq!(
        State::from_id("//////////////", 15),
        Err(Error::InvalidPositionId)
    );
    // Bits where the dropped padding would sit.
    assert_eq!(
        State::from_id("4HPwATDgc/ABMB", 15),
        Err(Error::InvalidPositionId)
    );
}

#[test]
fn flip_involution() {
    let start = State::new();
    assert_eq!(start.flip().flip(), start);
    let pos = bpos(&[(6, 1), (13, 4)], &[(19, 2), (1, 3)]);
    assert_eq!(pos.flip().flip(), pos);
}

#[test]
fn flip_swaps_sides() {
    let pos = bpos(&[(6, 2)], &[(19, 3)]);
    let flipped = pos.flip();
    assert_eq!(flipped.pips[25 - 6], -2);
    assert_eq!(flipped.pips[25 - 19], 3);
    assert_eq!(flipped.x_off, pos.o_off);
    assert_eq!(flipped.o_off, pos.x_off);
}

#[test]
fn conservation_over_moves() {
    let start = State::new();
    let dice = staffa::dice::Dice::new(3, 1);
    let children = start.possible_positions(&dice);
    assert!(children.len() >= 1);
    for child in &children {
        assert_eq!(child.count_x() as u8 + child.x_off, 15);
        assert_eq!(child.count_o() as u8 + child.o_off, 15);
    }
    // Deduplicated: all identifiers distinct.
    for i in 0..children.len() {
        for j in i + 1..children.len() {
            assert_ne!(children[i].position_id(), children[j].position_id());
        }
    }
}

#[test]
fn dancing_on_the_bar_passes_the_turn() {
    // One checker on the bar, every entry point closed: the only "move" is
    // the flipped position itself.
    let mut pips = [0i8; 26];
    pips[25] = 1;
    pips[10] = 14;
    for p in 19..=24 {
        pips[p] = -2;
    }
    pips[1] = -3;
    let pos = State { pips, x_off: 0, o_off: 0 };
    let dice = staffa::dice::Dice::new(3, 1);
    let children = pos.possible_positions(&dice);
    assert_eq!(children.len(), 1);
    assert_eq!(children[0], pos.flip());
}

#[test]
fn action_parsing() {
    let a = Action::from("6/5").unwrap();
    assert_eq!(a.from, 5);
    assert_eq!(a.to, 4);
    let b = Action::from("13/7/1").unwrap();
    assert_eq!(b.from, 12);
    assert_eq!(b.to, 6);
    let c = Action::from("12345678/1").unwrap();
    assert_eq!(c.from, 12345677);
    assert_eq!(c.to, 0);
    assert!(Action::from("99999999999999999999/1").is_none());
    assert!(Action::from("bar/20").is_none());
    assert!(Action::from("0/5").is_none());
    assert!(Action::from("6").is_none());
    assert!(Action::from("").is_none());
}

#[test]
fn action_new_is_zero_based() {
    let a = Action::new(24, 23);
    assert_eq!(a.from, 23);
    assert_eq!(a.to, 22);
}

#[test]
fn apply_action_moves_one_checker() {
    let start = State::new();
    let next = start.apply_action(Action::new(24, 23));
    assert_eq!(next.pips[24], 1);
    assert_eq!(next.pips[23], 1);
    assert_eq!(next.x_off, 0);
}

#[test]
fn try_apply_action_rejects_illegal() {
    let start = State::new();
    // Point 19 holds five opposing checkers.
    assert_eq!(
        start.try_apply_action(Action::new(24, 19)),
        Err(Error::InvalidMove)
    );
    // No checker on point 2.
    assert_eq!(
        start.try_apply_action(Action::new(2, 1)),
        Err(Error::InvalidMove)
    );
}

#[test]
fn game_states() {
    let running = State::new();
    assert_eq!(running.game_state(), GameState::Ongoing);

    let mut pips = [0i8; 26];
    pips[20] = -3;
    let win_normal = State { pips, x_off: 15, o_off: 12 };
    assert_eq!(
        win_normal.game_state(),
        GameState::GameOver(GameResult::WinNormal)
    );

    let mut pips = [0i8; 26];
    pips[20] = -15;
    let win_gammon = State { pips, x_off: 15, o_off: 0 };
    assert_eq!(
        win_gammon.game_state(),
        GameState::GameOver(GameResult::WinGammon)
    );

    let mut pips = [0i8; 26];
    pips[3] = -15;
    let win_bg = State { pips, x_off: 15, o_off: 0 };
    assert_eq!(
        win_bg.game_state(),
        GameState::GameOver(GameResult::WinBackgammon)
    );

    let mut pips = [0i8; 26];
    pips[5] = 14;
    let lose_normal = State { pips, x_off: 1, o_off: 15 };
    assert_eq!(
        lose_normal.game_state(),
        GameState::GameOver(GameResult::LoseNormal)
    );
}

#[test]
fn result_reversal() {
    assert_eq!(GameResult::WinGammon.reverse(), GameResult::LoseGammon);
    assert_eq!(
        GameResult::LoseBackgammon.reverse(),
        GameResult::WinBackgammon
    );
    assert!(GameResult::WinNormal.is_win());
    assert!(!GameResult::LoseNormal.is_win());
}
