use rudoku::codec;
use rudoku::error::Error;
use rudoku::game::{Cell, Difficulty, Game, Token};
use rudoku::options;
use rudoku::ops;

#[test]
fn encode_decode_round_trip() {
    let game = Game::from_array(ops::consistent_board());
    let encoded = codec::encode(&game);
    let decoded = codec::decode(&encoded).expect("the encoding decodes");
    for index in 0..81 {
        let cell = Cell::from_index(index);
        assert_eq!(decoded.get(cell), game.get(cell));
    }
}

#[test]
fn encode_decode_round_trip_with_gaps() {
    let mut game = Game::from_array(ops::consistent_board());
    game.set_internal(Cell::new(0, 0), Token::Empty);
    game.set_internal(Cell::new(8, 8), Token::Empty);
    let encoded = codec::encode(&game);
    assert_eq!(encoded[0], 0);
    assert_eq!(encoded[80], 0);
    let decoded = codec::decode(&encoded).expect("the encoding decodes");
    for index in 0..81 {
        let cell = Cell::from_index(index);
        assert_eq!(decoded.get(cell), game.get(cell));
    }
}

#[test]
fn decode_rejects_wrong_length() {
    let too_short: Vec<u8> = vec![0; 80];
    assert!(matches!(codec::decode(&too_short), Err(Error::InvalidLength)));
    let too_long: Vec<u8> = vec![0; 82];
    assert!(matches!(codec::decode(&too_long), Err(Error::InvalidLength)));
}

#[test]
fn decode_rejects_out_of_range_value() {
    let mut values: Vec<u8> = vec![0; 81];
    values[40] = 10;
    assert!(matches!(codec::decode(&values), Err(Error::InvalidToken)));
}

#[test]
fn to_game_reads_the_flat_encoding() {
    let text = "1,2,3,4,5,6,7,8,9,4,5,6,7,8,9,1,2,3,7,8,9,1,2,3,4,5,6,2,3,4,5,6,7,8,9,1,5,6,7,8,9,1,2,3,4,8,9,1,2,3,4,5,6,7,3,4,5,6,7,8,9,1,2,6,7,8,9,1,2,3,4,5,9,1,2,3,4,5,6,7,8";
    let game = options::to_game(text).expect("81 digits parse");
    let reference = ops::consistent_board();
    for index in 0..81 {
        let cell = Cell::from_index(index);
        assert_eq!(game.get(cell).value(), reference[index]);
    }
}

#[test]
fn to_game_rejects_wrong_digit_count() {
    assert!(matches!(options::to_game("123"), Err(Error::InvalidLength)));
    assert!(matches!(options::to_game(""), Err(Error::InvalidLength)));
}

#[test]
fn to_difficulty_accepts_both_cases_and_shorthands() {
    assert_eq!(options::to_difficulty("easy"), Ok(Difficulty::Easy));
    assert_eq!(options::to_difficulty("EASY"), Ok(Difficulty::Easy));
    assert_eq!(options::to_difficulty("e"), Ok(Difficulty::Easy));
    assert_eq!(options::to_difficulty("Medium"), Ok(Difficulty::Medium));
    assert_eq!(options::to_difficulty("m"), Ok(Difficulty::Medium));
    assert_eq!(options::to_difficulty("hard"), Ok(Difficulty::Hard));
    assert_eq!(options::to_difficulty("H"), Ok(Difficulty::Hard));
    assert_eq!(options::to_difficulty("tricky"), Err(Error::InvalidToken));
    assert_eq!(options::to_difficulty(""), Err(Error::InvalidToken));
}

#[test]
fn duplicate_in_row_fails_at_both_cells() {
    // row 3 holds two 1s, at (3, 4) and (3, 8)
    let jig = Game::from_array([
        0, 0, 0, 0, 0, 0, 0, 0, 0,
        0, 0, 0, 0, 0, 0, 0, 0, 0,
        0, 0, 0, 0, 0, 0, 0, 0, 0,
        0, 0, 0, 0, 1, 0, 0, 0, 1,
        0, 0, 0, 0, 0, 0, 0, 0, 0,
        0, 0, 0, 0, 0, 0, 0, 0, 0,
        0, 0, 0, 0, 0, 0, 0, 0, 0,
        0, 0, 0, 0, 0, 0, 0, 0, 0,
        0, 0, 0, 0, 0, 0, 0, 0, 0,
    ]);

    assert!(!ops::consistent(&jig, Cell::new(3, 4), jig.get(Cell::new(3, 4))));
    assert!(!ops::consistent(&jig, Cell::new(3, 8), jig.get(Cell::new(3, 8))));
}
