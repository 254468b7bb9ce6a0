use rdl::FrameSequenceError;
use rdl::expand::{binary_seq, remove_duplicates};
use rdl::frame_sequence_parser::parse_frame_sequence;

#[test]
fn single_frames_collapse_to_first_occurrence() {
    assert_eq!(parse_frame_sequence("5,5,5").unwrap(), vec![5isize]);
    assert_eq!(parse_frame_sequence("5").unwrap(), vec![5isize]);
    assert_eq!(parse_frame_sequence("3,1,2,1,3").unwrap(), vec![3isize, 1, 2]);
}

#[test]
fn mixed_expression_expands_in_source_order() {
    assert_eq!(
        parse_frame_sequence("1,2,10-20,40-30@2").unwrap(),
        vec![
            1isize, 2, 10, 11, 12, 13, 14, 15, 16, 17, 18, 19, 20, 40, 38, 36, 34, 32, 30
        ]
    );
}

#[test]
fn plain_ranges_mirror() {
    assert_eq!(parse_frame_sequence("1-3").unwrap(), vec![1isize, 2, 3]);
    assert_eq!(parse_frame_sequence("3-1").unwrap(), vec![3isize, 2, 1]);
}

#[test]
fn step_does_not_force_the_final_bound() {
    assert_eq!(parse_frame_sequence("80-70@4").unwrap(), vec![80isize, 76, 72]);
    assert_eq!(parse_frame_sequence("10-20@2").unwrap(), vec![10isize, 12, 14, 16, 18, 20]);
    assert_eq!(parse_frame_sequence("42-33@3").unwrap(), vec![42isize, 39, 36, 33]);
}

#[test]
fn binary_split_of_ascending_range() {
    assert_eq!(
        binary_seq((10, 20)),
        vec![10isize, 20, 15, 12, 17, 11, 13, 16, 18, 14, 19]
    );
    assert_eq!(
        parse_frame_sequence("10-20@b").unwrap(),
        vec![10isize, 20, 15, 12, 17, 11, 13, 16, 18, 14, 19]
    );
}

#[test]
fn binary_split_of_descending_range_is_reversed() {
    assert_eq!(
        parse_frame_sequence("20-10@b").unwrap(),
        vec![19isize, 14, 18, 16, 13, 11, 17, 12, 15, 20, 10]
    );
}

#[test]
fn binary_split_covers_negative_spans() {
    // Midpoints round towards the lower bound, so every value appears
    // exactly once even across zero.
    assert_eq!(
        parse_frame_sequence("-4-3@b").unwrap(),
        vec![-4isize, 3, -1, -3, 1, -2, 0, 2]
    );
}

#[test]
fn binary_split_of_equal_bounds() {
    assert_eq!(binary_seq((5, 5)), vec![5isize]);
    assert_eq!(parse_frame_sequence("5-5@b").unwrap(), vec![5isize]);
}

#[test]
fn deduplication_keeps_first_occurrences() {
    assert_eq!(parse_frame_sequence("5,1-3,5").unwrap(), vec![5isize, 1, 2, 3]);
    assert_eq!(remove_duplicates(vec![3isize, 1, 3, 2, 1]), vec![3isize, 1, 2]);
}

#[test]
fn deduplication_is_idempotent() {
    let once = remove_duplicates(vec![4isize, 4, 2, 7, 2, 4]);
    let twice = remove_duplicates(once.clone());
    assert_eq!(once, twice);
    assert_eq!(once, vec![4isize, 2, 7]);
}

#[test]
fn equal_bounds_give_one_frame() {
    assert_eq!(parse_frame_sequence("5-5").unwrap(), vec![5isize]);
    assert_eq!(parse_frame_sequence("5-5@3").unwrap(), vec![5isize]);
}

#[test]
fn negative_bounds_parse() {
    assert_eq!(parse_frame_sequence("-3--1").unwrap(), vec![-3isize, -2, -1]);
    assert_eq!(parse_frame_sequence("-5").unwrap(), vec![-5isize]);
    assert_eq!(parse_frame_sequence("1--5@2").unwrap(), vec![1isize, -1, -3, -5]);
}

#[test]
fn whitespace_between_tokens_is_insignificant() {
    assert_eq!(parse_frame_sequence("1 - 3").unwrap(), vec![1isize, 2, 3]);
    assert_eq!(parse_frame_sequence(" 1 , 2 ").unwrap(), vec![1isize, 2]);
    assert_eq!(parse_frame_sequence("10-20 @ 2").unwrap(), vec![10isize, 12, 14, 16, 18, 20]);
}

#[test]
fn leading_zeros_do_not_change_values() {
    assert_eq!(parse_frame_sequence("007").unwrap(), vec![7isize]);
    assert_eq!(parse_frame_sequence("1-9@04").unwrap(), vec![1isize, 5, 9]);
}

#[test]
fn malformed_input_is_a_syntax_error() {
    assert_eq!(
        parse_frame_sequence("1-"),
        Err(FrameSequenceError::SyntaxError { position: 0 })
    );
    assert_eq!(
        parse_frame_sequence(""),
        Err(FrameSequenceError::SyntaxError { position: 0 })
    );
    assert_eq!(
        parse_frame_sequence("1-5@0"),
        Err(FrameSequenceError::SyntaxError { position: 0 })
    );
    assert_eq!(
        parse_frame_sequence("1-5@-2"),
        Err(FrameSequenceError::SyntaxError { position: 0 })
    );
}

#[test]
fn syntax_error_reports_the_failing_piece() {
    assert_eq!(
        parse_frame_sequence("1,2-,3"),
        Err(FrameSequenceError::SyntaxError { position: 2 })
    );
    assert_eq!(
        parse_frame_sequence("1,"),
        Err(FrameSequenceError::SyntaxError { position: 2 })
    );
}

#[test]
fn trailing_garbage_is_a_syntax_error() {
    assert!(parse_frame_sequence("1-2@b3").is_err());
    assert!(parse_frame_sequence("1 2").is_err());
    assert!(parse_frame_sequence("1-2-3").is_err());
    assert!(parse_frame_sequence("- 5").is_err());
}

#[test]
fn platform_width_literals_parse_exactly() {
    assert_eq!(
        parse_frame_sequence("9223372036854775807").unwrap(),
        vec![isize::MAX]
    );
    assert_eq!(
        parse_frame_sequence("-9223372036854775808").unwrap(),
        vec![isize::MIN]
    );
}

#[test]
fn oversized_literals_are_an_expansion_error() {
    assert_eq!(
        parse_frame_sequence("9223372036854775808"),
        Err(FrameSequenceError::ExpansionError)
    );
    assert_eq!(
        parse_frame_sequence("1-2@99999999999999999999999999"),
        Err(FrameSequenceError::ExpansionError)
    );
}

#[test]
fn syntax_errors_outrank_overflow() {
    // The grammar is checked over the whole text before overflow is
    // reported.
    assert_eq!(
        parse_frame_sequence("99999999999999999999999999,1-"),
        Err(FrameSequenceError::SyntaxError { position: 27 })
    );
}
