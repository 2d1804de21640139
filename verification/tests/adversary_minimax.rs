use side_stacker::codec::GameStateSerialized;
use side_stacker::game::Player::{Blue, Red};
use side_stacker::game::Side::{Left, Right};
use side_stacker::adversary_minimax::{expectimax, minimax};
use side_stacker::game::State;

const GAME_OPPORTUNITY: &str = r#"
1 9 8  2
3 4 10 11
5 6 7  12
0 0 14  13
    "#;
const GAME_OPPORTUNITY2: &str = r#"
0 0 0 0 0
0 0 8 6 2
0 0 4 3 1
0 0 0 7 5
0 0 0 0 9
    "#;
const GAME_BLOCKER: &str = r#"
8 9 10 11 0
0 0 0  0  4
0 0 7  5  3
0 0 0  2  1
0 0 0  0  6
    "#;
const GAME_OPPORTUNITY_BIGGER: &str = r#"
1 0 0 2
3 4 0 0
5 6 0 0
0 0 0 0
    "#;
const GAME_OPPORTUNITY_REAL: &str = r#"
0 0 0 0 6
0 1 0 0 2
0 0 3 0 0
0 0 0 0 4
0 0 0 0 5
    "#;
const GAME_EMPTY: &str = r#"
0 0 0 0 0
0 0 0 0 0
0 0 0 0 0
0 0 0 0 0
0 0 0 0 0
    "#;
const GAME_WINNING_WINDOW: &str = r#"
0 0 0 0 0 0 0
0 0 0 0 0 0 0
4 0 0 0 0 0 3
2 0 0 0 0 5 1
0 0 0 0 0 0 0
6 0 0 0 0 0 0
0 0 0 0 0 0 0
    "#;
const GAME_WINNING_WINDOWS: &str = r#"
0 0 0 0 0 0 0
0 0 0 0 0 0 0
4 0 0 0 0 0 3
2 0 0 0 0 0 1
0 0 0 0 0 0 5
6 0 0 0 0 0 0
0 0 0 0 0 0 0
    "#;
// with more optimisations, uncover more 0s!
const PERFORMANCE_TEST: &str = r#"
0 0 0 0
0 0 0 0
0 0 0 0
0 0 0 1
    "#;
// when bot returns a turn None for that one
const BUG_1: &str = r#"
0 0 0 0
1 2 0 0
4 0 0 0
3 0 0 7
5 6 0 0
    "#;

fn load(s: &str) -> State {
    State::deserialize(&GameStateSerialized(s.to_string())).unwrap()
}

#[test]
fn expectimax_none() {
    let game = load(GAME_EMPTY);
    assert_eq!(expectimax(&game, Red), 0);
}

#[test]
fn expectimax_three_better_than_many_two() {
    // when there are 3 already on a winning window, many of 2s of the other
    // player aren't better
    let game = load(GAME_WINNING_WINDOW);
    assert_eq!(expectimax(&game, Red).signum(), -1);
}

#[test]
fn expectimax_winning_windows_aint_equal() {
    // a winning sequence that goes into several winning windows will be
    // stronger
    let game = load(GAME_WINNING_WINDOWS);
    assert_eq!(expectimax(&game, Red).signum(), 1);
}

#[test]
fn minimax_opportunity() {
    let r = minimax(&load(GAME_OPPORTUNITY));
    assert_eq!(r, Some((3, Left)));
}

#[test]
fn minimax_opportunity2() {
    let r = minimax(&load(GAME_OPPORTUNITY2));
    assert_eq!(r, Some((1, Right)));
}

#[test]
fn minimax_blocker() {
    let r = minimax(&load(GAME_BLOCKER));
    assert_eq!(r, Some((2, Right)));
}

#[test]
fn minimax_bigger_opportunity() {
    let r = minimax(&load(GAME_OPPORTUNITY_BIGGER));
    assert_eq!(r, Some((3, Left)));
}

#[test]
fn minimax_real_opportunity() {
    let r = minimax(&load(GAME_OPPORTUNITY_REAL));
    assert_eq!(r, Some((3, Right)));
}

#[test]
fn performance() {
    let _r = minimax(&load(PERFORMANCE_TEST));
}

#[test]
fn bug_1() {
    let r = minimax(&load(BUG_1));
    assert_eq!(r, Some((3, Left)));
}

#[test]
fn expectimax_is_zero_sum() {
    let game = load(GAME_WINNING_WINDOW);
    assert_eq!(expectimax(&game, Red), -expectimax(&game, Blue));
}
