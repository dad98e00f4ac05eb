use sapphire::chars::{is_digit, is_lower, is_number_char, is_space, is_word_char, to_chars, Class};
use sapphire::cursor::Cursor;
use sapphire::message::{
    invalid_message, truncated_message, unexpected_message, Expected, Literal,
};
use sapphire::stream::SaphStream;

#[test]
fn character_classes() {
    for c in [' ', '\t', '\n'] {
        assert!(is_space(c));
    }
    assert!(!is_space('\r'));
    assert!(is_lower('a') && is_lower('z') && !is_lower('A') && !is_lower('{') && !is_lower('`'));
    assert!(is_digit('0') && is_digit('9') && !is_digit('/') && !is_digit(':'));
    assert!(is_number_char('.') && is_number_char('5') && !is_number_char('-'));
    for c in ['a', 'z', 'A', 'Z', '+', '*', '/', '%'] {
        assert!(is_word_char(c));
    }
    for c in ['-', '0', '$', '(', ')', ' ', '[', '@'] {
        assert!(!is_word_char(c));
    }
    assert!(Class::Lower.has('q') && !Class::Lower.has('Q'));
    assert!(Class::Digit.has('4') && !Class::Digit.has('.'));
    assert!(Class::NumberChar.has('.') && !Class::NumberChar.has('a'));
    assert!(Class::WordChar.has('%') && !Class::WordChar.has('1'));
}

#[test]
fn characters_of_a_string() {
    assert_eq!(to_chars("a→b"), vec!['a', '→', 'b']);
    assert_eq!(to_chars(""), Vec::<char>::new());
}

#[test]
fn cursor_walks_the_text() {
    let mut cursor = Cursor::new("ab");
    assert_eq!(cursor.offset(), 0);
    assert_eq!(cursor.peek(), Some('a'));
    assert_eq!(cursor.peek(), Some('a'));
    assert_eq!(cursor.next(), Some('a'));
    assert_eq!(cursor.offset(), 1);
    assert_eq!(cursor.next(), Some('b'));
    assert_eq!(cursor.peek(), None);
    assert_eq!(cursor.next(), None);
    assert_eq!(cursor.offset(), 2);
}

#[test]
fn cursor_counts_characters_not_bytes() {
    let mut cursor = Cursor::new("é1");
    assert_eq!(cursor.next(), Some('é'));
    assert_eq!(cursor.offset(), 1);
    assert_eq!(cursor.next(), Some('1'));
}

#[test]
fn cursor_skips_a_run() {
    let mut cursor = Cursor::new("abc12.5 x");
    assert_eq!(cursor.skip_run(Class::Digit), 0);
    assert_eq!(cursor.skip_run(Class::Lower), 3);
    assert_eq!(cursor.skip_run(Class::NumberChar), 4);
    assert_eq!(cursor.peek(), Some(' '));
    assert_eq!(cursor.skip_run(Class::WordChar), 0);
    cursor.next();
    assert_eq!(cursor.skip_run(Class::WordChar), 1);
    assert_eq!(cursor.skip_run(Class::WordChar), 0);
    assert_eq!(cursor.peek(), None);
}

#[test]
fn messages() {
    assert_eq!(
        unexpected_message(Expected::ListMember, '?'),
        "Expected list member, found '?'"
    );
    assert_eq!(
        truncated_message(Expected::StreamEnd),
        "Expected end of stream ']', got end of input."
    );
    assert_eq!(
        invalid_message(Literal::Number, "1.2.3"),
        "Found invalid number literal: '1.2.3'"
    );
    assert_eq!(invalid_message(Literal::Index, ""), "Found invalid index literal: ''");
}

#[test]
fn wording_of_every_expectation() {
    let all = [
        (Expected::StreamStart, "stream start '['"),
        (Expected::StreamEnd, "end of stream ']'"),
        (Expected::Command, "cmd: 'a' ... 'z'"),
        (Expected::CommandName, "cmd_name: 'a' ... 'z'"),
        (Expected::Argument, "argument"),
        (Expected::DigitOrArrow, "'0' ... '9' or ->"),
        (Expected::Number, "number: '0' ... '9'"),
        (Expected::ListStart, "list start '('"),
        (Expected::ListMember, "list member"),
        (Expected::ListEnd, "end of list ')'"),
        (Expected::Digit, "'0' ... '9'"),
        (Expected::IndexSign, "index sign '$'"),
        (Expected::Index, "index: '0' ... '9' or list end ')'"),
        (Expected::Word, "word or list end ')'"),
    ];
    for (expected, words) in all {
        assert_eq!(expected.describe(), words);
    }
    assert_eq!(Literal::Number.describe(), "number");
    assert_eq!(Literal::Index.describe(), "index");
}

#[test]
fn new_stream_is_empty() {
    let stream: SaphStream<u32> = SaphStream::new(8);
    assert_eq!(stream.get_items().len(), 0);
    let stream: SaphStream<String> = SaphStream::new(0);
    assert!(stream.get_items().is_empty());
}
