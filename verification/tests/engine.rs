use side_stacker::adversary::{bot_move, BotId};
use side_stacker::codec::{
    deserialize_intermediate_history, empty_state, split_row, validate_continuous,
    validate_serialized_dimensions, GameStateSerialized,
};
use side_stacker::game::Player::{Blue, Red};
use side_stacker::game::Side::{Left, Right};
use side_stacker::game::{GameError, GameOperations, MatrixOperations, State};

fn load(s: &str) -> State {
    State::deserialize(&GameStateSerialized(s.to_string())).unwrap()
}

fn decode(s: &str) -> Result<State, GameError> {
    State::deserialize(&GameStateSerialized(s.to_string()))
}

#[test]
fn empty_input_rejected() {
    assert_eq!(decode("").unwrap_err(), GameError::InvalidDimensions);
}

#[test]
fn ragged_grid_rejected() {
    assert_eq!(decode("1 2\n3").unwrap_err(), GameError::InvalidDimensions);
}

#[test]
fn blank_input_rejected() {
    assert_eq!(decode("   \n  ").unwrap_err(), GameError::InvalidDimensions);
}

#[test]
fn word_token_rejected() {
    assert_eq!(decode("1 x\n0 0").unwrap_err(), GameError::InvalidToken);
}

#[test]
fn duplicate_turn_rejected() {
    assert_eq!(decode("1 1\n0 0").unwrap_err(), GameError::DuplicateTurn);
}

#[test]
fn gap_in_history_rejected() {
    assert_eq!(decode("0 2\n0 0").unwrap_err(), GameError::NonContiguousHistory);
}

#[test]
fn oversized_turn_rejected() {
    assert_eq!(decode("9 1\n0 0").unwrap_err(), GameError::NonContiguousHistory);
}

#[test]
fn push_out_of_bounds() {
    let mut s = State::new(3, 3);
    assert_eq!(s.push((Red, 7, Left)).unwrap_err(), GameError::OutOfBounds);
}

#[test]
fn push_wrong_player() {
    let mut s = State::new(3, 3);
    assert_eq!(s.push((Blue, 0, Left)).unwrap_err(), GameError::WrongPlayer);
}

#[test]
fn push_row_full() {
    let mut s = State::new(2, 2);
    s.push((Red, 0, Left)).unwrap();
    s.push((Blue, 0, Left)).unwrap();
    assert_eq!(s.push((Red, 0, Left)).unwrap_err(), GameError::RowFull);
}

#[test]
fn push_after_win_rejected() {
    let mut s = load("1 3 5 7 0\n2 4 6 0 0\n0 0 0 0 0\n0 0 0 0 0\n0 0 0 0 0");
    assert_eq!(s.try_winner(), Some(Red));
    assert_eq!(s.push((Red, 2, Left)).unwrap_err(), GameError::GameOver);
}

#[test]
fn pop_empty_rejected() {
    let mut s = State::new(2, 2);
    assert_eq!(s.pop().unwrap_err(), GameError::NoMoves);
}

#[test]
fn push_then_pop_restores() {
    let mut s = load("1 2\n0 0\n0 0");
    let before = s.clone();
    s.push((Red, 1, Right)).unwrap();
    assert_ne!(s, before);
    s.pop().unwrap();
    assert_eq!(s, before);
}

#[test]
fn hash_regression() {
    let s = load("0 0 0 0 0\n0 0 0 0 4\n0 0 7 5 3\n0 0 0 2 1\n0 0 0 0 6");
    assert_eq!(
        s.hash_non_historical(),
        "_ _ _ _ _\n_ _ _ _ B\n_ _ R R R\n_ _ _ B R\n_ _ _ _ B".to_string()
    );
}

#[test]
fn hash_ignores_move_order() {
    let a = load("1 2 3 4\n0 0 0 0\n0 0 0 0\n0 0 0 0");
    let b = load("3 2 1 4\n0 0 0 0\n0 0 0 0\n0 0 0 0");
    assert_eq!(a.hash_non_historical(), b.hash_non_historical());
    assert_ne!(a.serialize().0, b.serialize().0);
}

#[test]
fn seven_alternating_pushes_win_red() {
    let mut s = State::new(7, 7);
    s.push((Red, 0, Right)).unwrap();
    s.push((Blue, 1, Right)).unwrap();
    s.push((Red, 0, Right)).unwrap();
    s.push((Blue, 1, Right)).unwrap();
    s.push((Red, 0, Right)).unwrap();
    s.push((Blue, 1, Right)).unwrap();
    s.push((Red, 0, Right)).unwrap();
    assert!(s.is_finished());
    assert_eq!(s.try_winner(), Some(Red));
}

#[test]
fn two_by_two_stalemate() {
    let s = load("1 2\n3 4");
    assert!(s.is_stalemate());
    assert_eq!(s.try_winner(), None);
}

#[test]
fn move_ordering_center_out() {
    let s = State::new(7, 7);
    let moves = s.possible_moves();
    assert_eq!(
        moves,
        vec![
            (3, Left),
            (3, Right),
            (2, Left),
            (2, Right),
            (4, Left),
            (4, Right),
            (1, Left),
            (1, Right),
            (5, Left),
            (5, Right),
            (0, Left),
            (0, Right),
            (6, Left),
            (6, Right),
        ]
    );
}

#[test]
fn serialize_then_deserialize_is_identity() {
    let mut s = State::new(5, 4);
    s.push((Red, 2, Left)).unwrap();
    s.push((Blue, 2, Right)).unwrap();
    s.push((Red, 0, Right)).unwrap();
    let back = State::deserialize(&s.serialize()).unwrap();
    assert_eq!(back, s);
}

#[test]
fn deserialize_then_serialize_trims() {
    let text = "\n1 0 2\n3 0 0\n0 0 4\n";
    let s = decode(text).unwrap();
    assert_eq!(s.serialize().0, text.trim());
}

#[test]
fn empty_state_layout() {
    assert_eq!(empty_state(2, 2), "0 0 \n0 0 \n".to_string());
    let s = decode(empty_state(7, 7).trim()).unwrap();
    assert_eq!(s.current_depth(), 0);
    assert_eq!(s.max_depth(), 49);
}

#[test]
fn depth_accessors() {
    let mut s = State::new(3, 2);
    assert_eq!(s.max_depth(), 6);
    assert_eq!(s.current_depth(), 0);
    assert_eq!(s.depth_left(), 6);
    s.push((Red, 1, Left)).unwrap();
    assert_eq!(s.current_depth(), 1);
    assert_eq!(s.depth_left(), 5);
}

#[test]
fn player_accessors() {
    let mut s = State::new(3, 3);
    assert_eq!(s.last_player(), None);
    assert_eq!(s.next_player().unwrap(), Red);
    s.push((Red, 0, Left)).unwrap();
    assert_eq!(s.last_player(), Some(Red));
    assert_eq!(s.next_player().unwrap(), Blue);
}

#[test]
fn get_cell_bounds() {
    let s = load("1 0\n0 2");
    assert_eq!(s.get_cell(0, 0).unwrap(), Some(Red));
    assert_eq!(s.get_cell(1, 1).unwrap(), Some(Blue));
    assert_eq!(s.get_cell(0, 1).unwrap(), None);
    assert_eq!(s.get_cell(2, 0).unwrap_err(), GameError::OutOfBounds);
}

#[test]
fn next_cell_towards_both_sides() {
    let s = load("0 1 0\n0 0 0\n0 0 0");
    assert_eq!(s.next_cell_towards(Left, 0).unwrap(), Some((0, 0)));
    assert_eq!(s.next_cell_towards(Right, 0).unwrap(), Some((2, 0)));
    assert_eq!(s.next_cell_towards(Left, 5).unwrap_err(), GameError::OutOfBounds);
}

#[test]
fn turn_winning_probe() {
    let mut s = load("1 3 5 0 0\n2 4 6 0 0\n0 0 0 0 0\n0 0 0 0 0\n0 0 0 0 0");
    assert!(s.is_turn_winning((Red, 0, Left)));
    assert!(!s.is_turn_winning((Red, 2, Left)));
    // The probe leaves the state alone.
    assert_eq!(s.try_winner(), None);
    s.push((Red, 0, Left)).unwrap();
    assert_eq!(s.try_winner(), Some(Red));
}

#[test]
fn to_rows_grid() {
    let s = load("1 0\n0 2");
    let rows = s.to_rows();
    assert_eq!(rows, vec![vec![Some(Red), None], vec![None, Some(Blue)]]);
}

#[test]
fn random_bot_moves_and_move_is_legal() {
    let s = State::new(4, 4);
    let m = bot_move(&BotId::RANDY, &s).unwrap();
    let mut s2 = s.clone();
    s2.push_move(m).unwrap();
    assert_eq!(s2.current_depth(), 1);
}

#[test]
fn smart_bot_openers_are_random() {
    // An empty 7x7 board has more room than the search budget, so the smart
    // bot still answers (randomly).
    let s = State::new(7, 7);
    let m = bot_move(&BotId::SMART, &s).unwrap();
    let mut s2 = s.clone();
    s2.push_move(m).unwrap();
}

#[test]
fn smart_bot_blocks_with_search() {
    let s = load("8 9 10 11 0\n0 0 0  0  4\n0 0 7  5  3\n0 0 0  2  1\n0 0 0  0  6");
    assert_eq!(bot_move(&BotId::SMART, &s), Some((2, Right)));
}

#[test]
fn bots_stay_silent_when_over() {
    let s = load("1 2\n3 4");
    assert_eq!(bot_move(&BotId::RANDY, &s), None);
    assert_eq!(bot_move(&BotId::SMART, &s), None);
}

#[test]
fn split_row_tokenizes() {
    let row: Vec<u8> = b"  10 2\t 300 ".to_vec();
    let toks = split_row(&row);
    assert_eq!(toks, vec![b"10".to_vec(), b"2".to_vec(), b"300".to_vec()]);
}

#[test]
fn validate_dimensions_reads_grid() {
    assert_eq!(
        validate_serialized_dimensions(&"1 0 2\n3 0 0".to_string()).unwrap(),
        (3, 2)
    );
    assert_eq!(
        validate_serialized_dimensions(&"1 0\n3".to_string()).unwrap_err(),
        GameError::InvalidDimensions
    );
}

#[test]
fn validate_continuous_prefixes() {
    let ok: Vec<Option<u8>> = vec![Some(7), Some(9), None];
    assert_eq!(validate_continuous(&ok).unwrap(), vec![7, 9]);
    let gap: Vec<Option<u8>> = vec![Some(7), None, Some(9)];
    assert_eq!(validate_continuous(&gap).unwrap_err(), GameError::NonContiguousHistory);
}

#[test]
fn intermediate_history_order() {
    let hist = deserialize_intermediate_history(&"2 1\n0 0".to_string()).unwrap();
    assert_eq!(hist, vec![((1, 0), Red), ((0, 0), Blue)]);
}

#[test]
fn validate_turn_matches_push() {
    let s = load("1 2\n0 0");
    assert_eq!(s.validate_turn((Red, 1, Left)), Ok(()));
    assert_eq!(s.validate_turn((Blue, 1, Left)), Err(GameError::WrongPlayer));
    assert_eq!(s.validate_turn((Red, 5, Left)), Err(GameError::OutOfBounds));
    assert_eq!(s.validate_turn((Red, 0, Left)), Err(GameError::RowFull));
}

#[test]
fn lines_cover_the_square() {
    let s = State::new(3, 3);
    let fams = s.lines();
    assert_eq!(fams.len(), 4);
    assert_eq!(fams[0][1], vec![(0, 1), (1, 1), (2, 1)]);
    assert_eq!(fams[1][2], vec![(2, 0), (2, 1), (2, 2)]);
    assert_eq!(fams[2].len(), 5);
    assert_eq!(fams[2][2], vec![(2, 0), (1, 1), (0, 2)]);
    assert_eq!(fams[3][2], vec![(2, 2), (1, 1), (0, 0)]);
}
