use frame_sequence::parse_frame_sequence;
use frame_sequence::{ParseError, SyntaxError, Token};

fn syntax(position: usize, expected: Vec<Token>) -> Result<Vec<isize>, ParseError> {
    Err(ParseError::Syntax(SyntaxError { position, expected }))
}

#[test]
fn test_individual_frames() {
    let frames = parse_frame_sequence("1,2,3,5,8,13").unwrap();
    assert_eq!([1, 2, 3, 5, 8, 13], frames.as_slice());
}

#[test]
fn test_frame_sequence() {
    let frames = parse_frame_sequence("10-15").unwrap();
    assert_eq!([10, 11, 12, 13, 14, 15], frames.as_slice());
}

#[test]
fn test_fram_sequence_with_step() {
    let frames = parse_frame_sequence("10-20@2").unwrap();
    assert_eq!([10, 12, 14, 16, 18, 20], frames.as_slice());
}

#[test]
fn test_frame_sequence_with_step_reversed() {
    let frames = parse_frame_sequence("42-33@3").unwrap();
    assert_eq!([42, 39, 36, 33], frames.as_slice());
}

#[test]
fn test_binary_frame_sequence() {
    let frames = parse_frame_sequence("10-20@b").unwrap();
    assert_eq!(
        [10, 20, 15, 12, 17, 11, 13, 16, 18, 14, 19],
        frames.as_slice()
    );
}

#[test]
fn step_that_misses_the_end() {
    let frames = parse_frame_sequence("80-70@4").unwrap();
    assert_eq!([80, 76, 72], frames.as_slice());
}

#[test]
fn step_that_misses_the_end_ascending() {
    assert_eq!(parse_frame_sequence("1-10@4").unwrap(), vec![1, 5, 9]);
}

#[test]
fn descending_range() {
    assert_eq!(parse_frame_sequence("15-10").unwrap(), vec![15, 14, 13, 12, 11, 10]);
}

#[test]
fn equal_bounds() {
    assert_eq!(parse_frame_sequence("7-7").unwrap(), vec![7]);
    assert_eq!(parse_frame_sequence("7-7@3").unwrap(), vec![7]);
    assert_eq!(parse_frame_sequence("7-7@b").unwrap(), vec![7]);
}

#[test]
fn negative_frames() {
    assert_eq!(parse_frame_sequence("-3--1").unwrap(), vec![-3, -2, -1]);
    assert_eq!(parse_frame_sequence("-1--3").unwrap(), vec![-1, -2, -3]);
    assert_eq!(parse_frame_sequence("-5-5@5").unwrap(), vec![-5, 0, 5]);
    assert_eq!(parse_frame_sequence("-4").unwrap(), vec![-4]);
}

#[test]
fn binary_descending_is_reversed() {
    assert_eq!(
        parse_frame_sequence("20-10@b").unwrap(),
        vec![19, 14, 18, 16, 13, 11, 17, 12, 15, 20, 10]
    );
}

#[test]
fn binary_covers_small_ranges() {
    assert_eq!(parse_frame_sequence("0-1@b").unwrap(), vec![0, 1]);
    assert_eq!(parse_frame_sequence("0-2@b").unwrap(), vec![0, 2, 1]);
    assert_eq!(parse_frame_sequence("0-3@b").unwrap(), vec![0, 3, 1, 2]);
}

#[test]
fn binary_with_negative_bounds() {
    assert_eq!(parse_frame_sequence("-5--2@b").unwrap(), vec![-5, -2, -4, -3]);
}

#[test]
fn binary_is_a_permutation() {
    let mut frames = parse_frame_sequence("3-40@b").unwrap();
    assert_eq!(&frames[..2], &[3, 40]);
    frames.sort();
    assert_eq!(frames, (3..=40).collect::<Vec<isize>>());
}

#[test]
fn repeats_keep_first_occurrence() {
    assert_eq!(parse_frame_sequence("1,2,1,3").unwrap(), vec![1, 2, 3]);
    assert_eq!(parse_frame_sequence("5,1-6").unwrap(), vec![5, 1, 2, 3, 4, 6]);
    assert_eq!(parse_frame_sequence("1-4,4-1").unwrap(), vec![1, 2, 3, 4]);
}

#[test]
fn leading_zeros_are_read_as_decimal() {
    assert_eq!(parse_frame_sequence("007,1-3@02").unwrap(), vec![7, 1, 3]);
}

#[test]
fn empty_input_is_rejected() {
    assert_eq!(parse_frame_sequence(""), syntax(0, vec![Token::Minus, Token::Digit]));
}

#[test]
fn missing_right_bound() {
    assert_eq!(parse_frame_sequence("1-"), syntax(2, vec![Token::Minus, Token::Digit]));
}

#[test]
fn sign_without_digits() {
    assert_eq!(parse_frame_sequence("-x"), syntax(1, vec![Token::Digit]));
}

#[test]
fn zero_step_is_rejected() {
    let expected = vec![Token::PositiveNumber, Token::BinarySymbol];
    assert_eq!(parse_frame_sequence("1-2@0"), syntax(4, expected.clone()));
    assert_eq!(parse_frame_sequence("1-2@"), syntax(4, expected.clone()));
    assert_eq!(parse_frame_sequence("1-2@c"), syntax(4, expected));
}

#[test]
fn misplaced_commas() {
    assert_eq!(parse_frame_sequence("1,,2"), syntax(2, vec![Token::Minus, Token::Digit]));
    assert_eq!(parse_frame_sequence("1,"), syntax(2, vec![Token::Minus, Token::Digit]));
    assert_eq!(parse_frame_sequence(",1"), syntax(0, vec![Token::Minus, Token::Digit]));
}

#[test]
fn trailing_garbage() {
    assert_eq!(
        parse_frame_sequence("1 "),
        syntax(1, vec![Token::Minus, Token::Comma, Token::EndOfInput])
    );
    assert_eq!(
        parse_frame_sequence("1-2x"),
        syntax(3, vec![Token::At, Token::Comma, Token::EndOfInput])
    );
    assert_eq!(
        parse_frame_sequence("1-2@3x"),
        syntax(5, vec![Token::Comma, Token::EndOfInput])
    );
    assert_eq!(
        parse_frame_sequence("1-2@bb"),
        syntax(5, vec![Token::Comma, Token::EndOfInput])
    );
}

#[test]
fn whitespace_is_not_allowed() {
    assert_eq!(parse_frame_sequence(" 1"), syntax(0, vec![Token::Minus, Token::Digit]));
    assert_eq!(
        parse_frame_sequence("1, 2"),
        syntax(2, vec![Token::Minus, Token::Digit])
    );
}

#[test]
fn numbers_out_of_range() {
    let big = format!("{}0", isize::MAX);
    assert_eq!(
        parse_frame_sequence(&big),
        Err(ParseError::OutOfRange { position: 0 })
    );
    let step = format!("1-2@{}0", isize::MAX);
    assert_eq!(
        parse_frame_sequence(&step),
        Err(ParseError::OutOfRange { position: 4 })
    );
    let above = format!("{}", isize::MAX as u64 + 1);
    assert_eq!(
        parse_frame_sequence(&above),
        Err(ParseError::OutOfRange { position: 0 })
    );
    let right = format!("1-{}", isize::MAX as u64 + 1);
    assert_eq!(
        parse_frame_sequence(&right),
        Err(ParseError::OutOfRange { position: 2 })
    );
}

#[test]
fn extreme_frames() {
    let lowest = format!("{}", isize::MIN);
    assert_eq!(parse_frame_sequence(&lowest).unwrap(), vec![isize::MIN]);
    let top = format!("{}-{}", isize::MAX - 1, isize::MAX);
    assert_eq!(parse_frame_sequence(&top).unwrap(), vec![isize::MAX - 1, isize::MAX]);
    let top_binary = format!("{}-{}@b", isize::MAX - 2, isize::MAX);
    assert_eq!(
        parse_frame_sequence(&top_binary).unwrap(),
        vec![isize::MAX - 2, isize::MAX, isize::MAX - 1]
    );
    let bottom_step = format!("{}-{}@2", isize::MIN + 4, isize::MIN);
    assert_eq!(
        parse_frame_sequence(&bottom_step).unwrap(),
        vec![isize::MIN + 4, isize::MIN + 2, isize::MIN]
    );
    let far = format!("{}-{}@{}", isize::MIN, isize::MAX, isize::MAX);
    assert_eq!(
        parse_frame_sequence(&far).unwrap(),
        vec![isize::MIN, -1, isize::MAX - 1]
    );
}
