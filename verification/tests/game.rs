use side_stacker::codec::GameStateSerialized;
use side_stacker::game::Player::{Blue, Red};
use side_stacker::game::Side::Right;
use side_stacker::game::GameOperations;
use side_stacker::game::State;

// players are taking turns exclusively in the middle of the board, red going
// only left, blue going only right
const GAME_NAIVE_HORIZONTAL_WON: &str = r#"
0 0 0 0 0 0 0
0 0 0 0 0 0 0
0 0 0 0 0 0 0
1 3 5 7 6 4 2
0 0 0 0 0 0 0
0 0 0 0 0 0 0
0 0 0 0 0 0 0
    "#;
const GAME_NAIVE_VERTICAL_WON: &str = r#"
1 0 0 0 0 0 2
3 0 0 0 0 0 4
5 0 0 0 0 0 6
7 0 0 0 0 0 0
0 0 0 0 0 0 0
0 0 0 0 0 0 0
0 0 0 0 0 0 0
    "#;
const GAME_VERTICAL_BLUE_WON: &str = r#"
1 0 0 0 0 0 2
3 0 0 0 0 0 4
5 0 0 0 0 0 6
0 0 0 0 0 0 8
7 0 0 0 0 0 0
0 0 0 0 0 0 0
0 0 0 0 0 0 0
    "#;
const GAME_ONGOING: &str = r#"
1  0  0  0  0 0  2
3  9  11 12 0 10 4
5  0  0  0  0 16 6
14 0  0  0  0 0 0
7  0  0  0  0 0 8
13 15 17 0  0 0 18
0  0  0  0  0 0 0
    "#;
const GAME_STALEMATE: &str = r#"
1 2
3 4
    "#;
const GAME_BLUE_WINNING: &str = r#"
1 0 0 0 0 0 0
5 0 0 0 0 0 2
3 0 0 0 0 0 4
0 0 0 0 0 0 6
0 0 0 0 0 0 7
0 0 0 0 0 0 0
0 0 0 0 0 0 0
    "#;
const GAME_EMPTY: &str = r#"
0 0 0 0 0
0 0 0 0 0
0 0 0 0 0
0 0 0 0 0
0 0 0 0 0
    "#;
// when a "column" (or a "row") isn't reset properly
// it could cause a column square to be counted into row squares or vice versa
const GAME_WINNER_ALGORITHM_BUG_1: &str = r#"
15 13 12 7 3  2  1
11 10 9  8 6  5  4
16 18 20 0 19 17 14
0  0  0  0 0  0  0
0  0  0  0 0  0  0
0  0  0  0 0  0  0
0  0  0  0 0  0  0
    "#;

fn load(s: &str) -> State {
    State::deserialize(&GameStateSerialized(s.to_string())).unwrap()
}

#[test]
fn serializations() {
    let state = load(GAME_NAIVE_HORIZONTAL_WON);
    assert_eq!(GAME_NAIVE_HORIZONTAL_WON.to_string().trim(), state.serialize().0)
}

#[test]
fn winner_horizontal() {
    let state = load(GAME_NAIVE_HORIZONTAL_WON);
    assert!(!state.is_stalemate());
    assert_eq!(Some(Red), state.try_winner())
}

#[test]
fn winner_vertical() {
    let state = load(GAME_NAIVE_VERTICAL_WON);
    assert!(!state.is_stalemate());
    assert_eq!(Some(Red), state.try_winner())
}

#[test]
fn winner_vertical_blue() {
    let state = load(GAME_VERTICAL_BLUE_WON);
    assert!(!state.is_stalemate());
    assert_eq!(Some(Blue), state.try_winner())
}

#[test]
fn game_ongoing() {
    let state = load(GAME_ONGOING);
    assert!(!state.is_stalemate());
    assert!(!state.is_finished());
    assert_eq!(None, state.try_winner())
}

#[test]
fn game_stalemate() {
    let state = load(GAME_STALEMATE);
    assert!(state.is_stalemate())
}

#[test]
fn winning_turn() {
    let mut state = load(GAME_BLUE_WINNING);
    assert!(!state.is_finished());
    state.push((Blue, 0, Right)).unwrap();
    assert!(state.is_finished());
    assert_eq!(Some(Blue), state.try_winner())
}

#[test]
fn bug1() {
    let state = load(GAME_WINNER_ALGORITHM_BUG_1);
    assert_eq!(None, state.try_winner())
}

#[test]
fn many_turns() {
    let mut state = load(GAME_EMPTY);
    state.push((Red, 0, Right)).unwrap();
    state.push((Blue, 1, Right)).unwrap();
    state.push((Red, 0, Right)).unwrap();
    state.push((Blue, 1, Right)).unwrap();
    state.push((Red, 0, Right)).unwrap();
    state.push((Blue, 1, Right)).unwrap();
    assert!(!state.is_finished());
    state.push((Red, 0, Right)).unwrap();
    assert!(state.is_finished());
}
