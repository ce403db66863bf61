use repak::stream::{positioned, seek_arguments, transferred, Position};

#[test]
fn seeking_tells_the_callback_from_where_to_count() {
    assert_eq!(seek_arguments(Position::Start(5)), (5, 0));
    assert_eq!(seek_arguments(Position::Current(-5)), (-5, 1));
    assert_eq!(seek_arguments(Position::End(-1)), (-1, 2));
    assert_eq!(seek_arguments(Position::Start(u64::MAX)), (-1, 0));
}

#[test]
fn a_negative_answer_is_an_error_code() {
    assert_eq!(transferred(0), Ok(0));
    assert_eq!(transferred(9), Ok(9));
    assert_eq!(transferred(-9), Err(-9));
    assert_eq!(positioned(1 << 40), Ok(1 << 40));
    assert_eq!(positioned(-2), Err(-2));
}
