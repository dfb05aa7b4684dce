use staffa::evaluator::RandomEvaluator;
use staffa::finder::PositionFinder;
use staffa::hyper::{posmap_entries, split_positions};
use staffa::position::State;

fn hpos(xs: &[(usize, i8)], os: &[(usize, i8)]) -> State {
    let mut pips = [0i8; 26];
    let mut x_sum: i8 = 0;
    let mut o_sum: i8 = 0;
    for &(p, c) in xs {
        pips[p] = c;
        x_sum += c;
    }
    for &(p, c) in os {
        pips[p] = -c;
        o_sum += c;
    }
    State {
        pips,
        x_off: (3 - x_sum) as u8,
        o_off: (3 - o_sum) as u8,
    }
}

#[test]
fn dbhash_of_start() {
    let start = State::hypergammon_new();
    assert_eq!(start.dbhash(), 10683413);
}

#[test]
fn dbhash_distinguishes_positions() {
    let start = State::hypergammon_new();
    let mut seen = vec![start.dbhash()];
    let rolls = staffa::dice::all_singles();
    for die in &rolls {
        for child in start.possible_positions(die) {
            let h = child.dbhash();
            assert!(h < 3276 * 3276);
            if !seen.contains(&h) {
                seen.push(h);
            }
        }
    }
    assert!(seen.len() > 15);
}

#[test]
fn split_separates_finished_games() {
    let running = State::hypergammon_new();
    let won = hpos(&[], &[(1, 1), (2, 1), (3, 1)]);
    let (ongoing, gameover) = split_positions(vec![running, won]);
    assert_eq!(ongoing.len(), 1);
    assert_eq!(gameover.len(), 1);
    assert_eq!(ongoing[0], running);
    assert_eq!(gameover[0], won);
}

#[test]
fn posmap_weights_sum_to_36() {
    let start = State::hypergammon_new();
    let entries = posmap_entries(&vec![start]);
    assert_eq!(entries.len(), 1);
    let (hash, rolls) = &entries[0];
    assert_eq!(*hash, 10683413);
    assert_eq!(rolls.len(), 21);
    let weight_total: u32 = rolls.iter().map(|e| e.0).sum();
    assert_eq!(weight_total, 36);
    for (_, children) in rolls {
        assert!(!children.is_empty());
        for &h in children {
            assert!(h < 3276 * 3276);
        }
    }
}

#[test]
fn table_shape_is_checked() {
    assert!(staffa::hyper::check_table_len(3276 * 3276).is_ok());
    assert_eq!(
        staffa::hyper::check_table_len(7),
        Err(staffa::Error::DatabaseShapeMismatch)
    );
}

#[test]
fn input_features_are_bucketed_counts() {
    let start = State::new();
    let features = staffa::inputs::input_counts(&start);
    assert_eq!(features.len(), 202);
    assert_eq!(features[0], 0);
    assert_eq!(features[1], 0);
    // The mover's bar is empty: a zero bucket.
    assert_eq!(&features[2..6], &[0, 0, 0, 0]);
    // Point 6 holds five checkers: overflow bucket 5 - 3.
    let p6 = 2 + 4 * 6;
    assert_eq!(&features[p6..p6 + 4], &[0, 0, 1, 2]);
    // Point 24 holds two checkers.
    let p24 = 2 + 4 * 24;
    assert_eq!(&features[p24..p24 + 4], &[0, 1, 0, 0]);
    // The opponent's point 19 (slot 25 + 19) holds five checkers.
    let o19 = 2 + 4 * (25 + 19);
    assert_eq!(&features[o19..o19 + 4], &[0, 0, 1, 2]);
}

#[test]
fn finder_returns_distinct_positions() {
    let mut finder = PositionFinder::new(RandomEvaluator::new());
    let found = finder.find_positions(5);
    assert_eq!(found.len(), 5);
    for i in 0..found.len() {
        for j in i + 1..found.len() {
            assert_ne!(found[i], found[j]);
        }
    }
}
