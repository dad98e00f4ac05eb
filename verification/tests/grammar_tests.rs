use sapphire::cursor::Cursor;
use sapphire::decimal::Decimal;
use sapphire::parse::SaphTree;

fn number(text: &str) -> SaphTree {
    let negative = text.starts_with('-');
    let literal = if negative { &text[1..] } else { text };
    SaphTree::Number(Decimal::from_literal(literal, negative).unwrap())
}

fn word(text: &str) -> SaphTree {
    SaphTree::Word(String::from(text))
}

fn name(text: &str) -> SaphTree {
    SaphTree::CmdName(String::from(text))
}

fn error(text: &str) -> SaphTree {
    SaphTree::Error(String::from(text))
}

fn parse(text: &str) -> SaphTree {
    SaphTree::parse(&String::from(text))
}

#[test]
fn empty_text_is_null() {
    assert_eq!(parse(""), SaphTree::Null);
}

#[test]
fn whitespace_alone_is_no_program() {
    assert_eq!(parse(" "), error("Expected stream start '[', found ' '"));
}

#[test]
fn stream_of_whitespace_is_empty() {
    assert_eq!(parse("[ \t\n ]"), SaphTree::Stream(vec![]));
}

#[test]
fn text_after_the_stream_is_not_read() {
    assert_eq!(parse("[] ?"), SaphTree::Stream(vec![]));
}

#[test]
fn program_without_brackets_is_rejected() {
    assert_eq!(parse("5 6 3 -> out"), error("Expected stream start '[', found '5'"));
}

#[test]
fn stream_of_two_commands() {
    let expected = SaphTree::Stream(vec![
        SaphTree::Cmd(vec![name("in"), number("4"), number("3"), number("2")]),
        SaphTree::CmdPipe,
        SaphTree::Cmd(vec![name("map"), number("2.3")]),
    ]);
    assert_eq!(parse("[in 4 3 2 | map 2.3]"), expected);
}

#[test]
fn arrow_is_a_pipe() {
    let expected = SaphTree::Stream(vec![
        SaphTree::Cmd(vec![name("in"), number("4")]),
        SaphTree::CmdPipe,
        SaphTree::Cmd(vec![name("out")]),
    ]);
    assert_eq!(parse("[in 4 -> out ]"), expected);
}

#[test]
fn bare_greater_than_is_a_pipe_between_stages() {
    let expected = SaphTree::Stream(vec![
        SaphTree::CmdPipe,
        SaphTree::Cmd(vec![name("out")]),
        SaphTree::CmdPipe,
    ]);
    assert_eq!(parse("[> out |]"), expected);
}

#[test]
fn greater_than_among_arguments_is_rejected() {
    assert_eq!(parse("[in 4 > out ]"), error("Expected argument, found '>'"));
}

#[test]
fn nested_stream_and_list_are_arguments() {
    let expected = SaphTree::Stream(vec![SaphTree::Cmd(vec![
        name("zip"),
        SaphTree::Stream(vec![SaphTree::Cmd(vec![name("in"), number("-1.5")])]),
        SaphTree::List(vec![word("add"), SaphTree::StreamIdx(0), number("2")]),
    ])]);
    assert_eq!(parse("[zip [in -1.5 ] (add $0 2) ]"), expected);
}

#[test]
fn command_name_must_end_with_whitespace() {
    assert_eq!(parse("[map]"), error("Expected cmd_name: 'a' ... 'z', found ']'"));
    assert_eq!(parse("[mAp ]"), error("Expected cmd_name: 'a' ... 'z', found 'A'"));
}

#[test]
fn stage_must_start_with_a_letter() {
    assert_eq!(parse("[5]"), error("Expected cmd: 'a' ... 'z', found '5'"));
    assert_eq!(parse("[Map ]"), error("Expected cmd: 'a' ... 'z', found 'M'"));
}

#[test]
fn unterminated_stream_is_an_error() {
    assert_eq!(parse("["), error("Expected end of stream ']', got end of input."));
    assert_eq!(parse("[in 4 3 2"), error("Expected end of stream ']', got end of input."));
    assert_eq!(parse("[in 4 | "), error("Expected end of stream ']', got end of input."));
    assert_eq!(parse("[a [b 1 ] "), error("Expected end of stream ']', got end of input."));
    assert_eq!(parse("[a [b 1 "), error("Expected end of stream ']', got end of input."));
}

#[test]
fn stream_on_empty_input() {
    let mut cursor = Cursor::new("");
    assert_eq!(
        SaphTree::parse_stream(&mut cursor),
        error("Expected stream start '[', got end of input.")
    );
    assert_eq!(cursor.offset(), 0);
}

#[test]
fn command_may_end_with_the_input() {
    let mut cursor = Cursor::new("in 4 3");
    assert_eq!(
        SaphTree::parse_cmd(&mut cursor),
        SaphTree::Cmd(vec![name("in"), number("4"), number("3")])
    );
    assert_eq!(cursor.offset(), 6);
    assert_eq!(SaphTree::parse_cmd(&mut Cursor::new("in")), SaphTree::Cmd(vec![name("in")]));
    assert_eq!(SaphTree::parse_cmd(&mut Cursor::new("")), SaphTree::Cmd(vec![name("")]));
}

#[test]
fn command_stops_before_what_ends_it() {
    let mut cursor = Cursor::new("in 4 | out");
    assert_eq!(SaphTree::parse_cmd(&mut cursor), SaphTree::Cmd(vec![name("in"), number("4")]));
    assert_eq!(cursor.peek(), Some('|'));

    let mut cursor = Cursor::new("in 4 ]");
    assert_eq!(SaphTree::parse_cmd(&mut cursor), SaphTree::Cmd(vec![name("in"), number("4")]));
    assert_eq!(cursor.peek(), Some(']'));

    let mut cursor = Cursor::new("in 4 -> out");
    assert_eq!(SaphTree::parse_cmd(&mut cursor), SaphTree::Cmd(vec![name("in"), number("4")]));
    assert_eq!(cursor.peek(), Some('>'));
    assert_eq!(cursor.offset(), 6);
}

#[test]
fn minus_among_arguments() {
    assert_eq!(
        SaphTree::parse_cmd(&mut Cursor::new("in -4 -0.5")),
        SaphTree::Cmd(vec![name("in"), number("-4"), number("-0.5")])
    );
    assert_eq!(
        SaphTree::parse_cmd(&mut Cursor::new("in -")),
        error("Expected '0' ... '9' or ->, got end of input.")
    );
    let mut cursor = Cursor::new("in -x 3");
    assert_eq!(
        SaphTree::parse_cmd(&mut cursor),
        error("Expected '0' ... '9' or ->, found 'x'")
    );
    assert_eq!(cursor.offset(), 5);
    assert_eq!(
        SaphTree::parse_cmd(&mut Cursor::new("in -(1)")),
        error("Expected '0' ... '9' or ->, found '('")
    );
}

#[test]
fn argument_must_be_a_number_a_list_or_a_stream() {
    assert_eq!(
        SaphTree::parse_cmd(&mut Cursor::new("in x")),
        error("Expected argument, found 'x'")
    );
    assert_eq!(
        SaphTree::parse_cmd(&mut Cursor::new("in $1 ")),
        error("Expected argument, found '$'")
    );
}

#[test]
fn command_name_ends() {
    let mut cursor = Cursor::new("map 5");
    assert_eq!(SaphTree::parse_cmd_name(&mut cursor), name("map"));
    assert_eq!(cursor.offset(), 4);

    let mut cursor = Cursor::new("map\n5");
    assert_eq!(SaphTree::parse_cmd_name(&mut cursor), name("map"));
    assert_eq!(cursor.offset(), 4);

    let mut cursor = Cursor::new("map");
    assert_eq!(SaphTree::parse_cmd_name(&mut cursor), name("map"));
    assert_eq!(cursor.offset(), 3);

    let mut cursor = Cursor::new("map(1)");
    assert_eq!(
        SaphTree::parse_cmd_name(&mut cursor),
        error("Expected cmd_name: 'a' ... 'z', found '('")
    );
    assert_eq!(cursor.offset(), 4);

    let mut cursor = Cursor::new(" map");
    assert_eq!(SaphTree::parse_cmd_name(&mut cursor), name(""));
    assert_eq!(cursor.offset(), 1);
}

#[test]
fn number_is_its_decimal_value() {
    let mut cursor = Cursor::new("5.332 ");
    match SaphTree::parse_number(&mut cursor, true) {
        SaphTree::Number(n) => {
            assert!(!n.is_negative());
            assert_eq!(*n.digits(), vec![5u8, 3, 3, 2]);
            assert_eq!(n.scale(), 3);
            assert_eq!(n.to_string(), "5.332");
        }
        other => panic!("not a number: {:?}", other),
    }
    assert_eq!(cursor.offset(), 5);
}

#[test]
fn number_after_a_minus_sign_is_negated() {
    match SaphTree::parse_number(&mut Cursor::new("12.5"), false) {
        SaphTree::Number(n) => {
            assert!(n.is_negative());
            assert_eq!(*n.digits(), vec![1u8, 2, 5]);
            assert_eq!(n.scale(), 1);
            assert_eq!(n.to_string().parse::<f32>().unwrap(), -12.5f32);
        }
        other => panic!("not a number: {:?}", other),
    }
}

#[test]
fn number_ends() {
    for (text, left) in [("7 ", ' '), ("7\t", '\t'), ("7\n", '\n'), ("7)", ')'), ("7]", ']')] {
        let mut cursor = Cursor::new(text);
        assert_eq!(SaphTree::parse_number(&mut cursor, true), number("7"));
        assert_eq!(cursor.peek(), Some(left));
    }
    let mut cursor = Cursor::new("7");
    assert_eq!(SaphTree::parse_number(&mut cursor, true), number("7"));
    assert_eq!(cursor.peek(), None);
}

#[test]
fn number_met_by_another_character() {
    let mut cursor = Cursor::new("4| map");
    assert_eq!(
        SaphTree::parse_number(&mut cursor, true),
        error("Expected number: '0' ... '9', found '|'")
    );
    assert_eq!(cursor.offset(), 2);
    assert_eq!(
        SaphTree::parse_number(&mut Cursor::new("4x"), true),
        error("Expected number: '0' ... '9', found 'x'")
    );
}

#[test]
fn number_with_a_point_at_either_end() {
    assert_eq!(SaphTree::parse_number(&mut Cursor::new("5."), true), number("5."));
    assert_eq!(SaphTree::parse_number(&mut Cursor::new(".5"), true), number(".5"));
}

#[test]
fn number_that_is_no_literal() {
    assert_eq!(
        SaphTree::parse_number(&mut Cursor::new("1.2.3 "), true),
        error("Found invalid number literal: '1.2.3'")
    );
    assert_eq!(
        SaphTree::parse_number(&mut Cursor::new(". "), true),
        error("Found invalid number literal: '.'")
    );
    assert_eq!(
        SaphTree::parse_number(&mut Cursor::new(""), true),
        error("Found invalid number literal: ''")
    );
    assert_eq!(
        SaphTree::parse_number(&mut Cursor::new(")"), false),
        error("Found invalid number literal: ''")
    );
}

#[test]
fn stream_index_at_the_end_of_input() {
    let mut cursor = Cursor::new("$10");
    assert_eq!(SaphTree::parse_stream_idx(&mut cursor), SaphTree::StreamIdx(10));
    assert_eq!(cursor.offset(), 3);
}

#[test]
fn stream_index_ends() {
    let mut cursor = Cursor::new("$7)");
    assert_eq!(SaphTree::parse_stream_idx(&mut cursor), SaphTree::StreamIdx(7));
    assert_eq!(cursor.peek(), Some(')'));
    let mut cursor = Cursor::new("$007\n");
    assert_eq!(SaphTree::parse_stream_idx(&mut cursor), SaphTree::StreamIdx(7));
    assert_eq!(cursor.peek(), Some('\n'));
}

#[test]
fn stream_index_failures() {
    assert_eq!(
        SaphTree::parse_stream_idx(&mut Cursor::new("")),
        error("Expected index sign '$', got end of input.")
    );
    assert_eq!(
        SaphTree::parse_stream_idx(&mut Cursor::new("10")),
        error("Expected index sign '$', found '1'")
    );
    assert_eq!(
        SaphTree::parse_stream_idx(&mut Cursor::new("$")),
        error("Expected index: '0' ... '9' or list end ')', got end of input.")
    );
    assert_eq!(
        SaphTree::parse_stream_idx(&mut Cursor::new("$1x")),
        error("Expected index: '0' ... '9' or list end ')', found 'x'")
    );
    assert_eq!(
        SaphTree::parse_stream_idx(&mut Cursor::new("$1]")),
        error("Expected index: '0' ... '9' or list end ')', found ']'")
    );
    assert_eq!(
        SaphTree::parse_stream_idx(&mut Cursor::new("$ ")),
        error("Found invalid index literal: ''")
    );
    assert_eq!(
        SaphTree::parse_stream_idx(&mut Cursor::new("$99999999999999999999999999 ")),
        error("Found invalid index literal: '99999999999999999999999999'")
    );
}

#[test]
fn stream_index_at_the_limit() {
    let text = format!("${} ", usize::MAX);
    assert_eq!(SaphTree::parse_stream_idx(&mut Cursor::new(&text)), SaphTree::StreamIdx(usize::MAX));
    let text = format!("${}0 ", usize::MAX);
    assert!(matches!(SaphTree::parse_stream_idx(&mut Cursor::new(&text)), SaphTree::Error(_)));
}

#[test]
fn word_ends() {
    let mut cursor = Cursor::new("fooBar%)");
    assert_eq!(SaphTree::parse_word(&mut cursor), word("fooBar%"));
    assert_eq!(cursor.peek(), Some(')'));
    let mut cursor = Cursor::new("+*/ x");
    assert_eq!(SaphTree::parse_word(&mut cursor), word("+*/"));
    assert_eq!(cursor.offset(), 3);
    assert_eq!(SaphTree::parse_word(&mut Cursor::new(" x")), word(""));
}

#[test]
fn word_failures() {
    let mut cursor = Cursor::new("foo");
    assert_eq!(
        SaphTree::parse_word(&mut cursor),
        error("Expected word or list end ')', got end of input.")
    );
    assert_eq!(cursor.offset(), 3);
    let mut cursor = Cursor::new("foo1 ");
    assert_eq!(
        SaphTree::parse_word(&mut cursor),
        error("Expected word or list end ')', found '1'")
    );
    assert_eq!(cursor.offset(), 4);
    assert_eq!(
        SaphTree::parse_word(&mut Cursor::new("a-b ")),
        error("Expected word or list end ')', found '-'")
    );
}

#[test]
fn list_of_every_kind_of_member() {
    let mut cursor = Cursor::new("( - 3 -4.5 $2 + foo -)]");
    let expected = SaphTree::List(vec![
        word("-"),
        number("3"),
        number("-4.5"),
        SaphTree::StreamIdx(2),
        word("+"),
        word("foo"),
        word("-"),
    ]);
    assert_eq!(SaphTree::parse_list(&mut cursor), expected);
    assert_eq!(cursor.peek(), Some(']'));
}

#[test]
fn empty_list() {
    assert_eq!(SaphTree::parse_list(&mut Cursor::new("()")), SaphTree::List(vec![]));
    assert_eq!(SaphTree::parse_list(&mut Cursor::new("( \n)")), SaphTree::List(vec![]));
}

#[test]
fn unterminated_list_is_an_error() {
    assert_eq!(
        SaphTree::parse_list(&mut Cursor::new("")),
        error("Expected list start '(', got end of input.")
    );
    assert_eq!(
        SaphTree::parse_list(&mut Cursor::new("(")),
        error("Expected end of list ')', got end of input.")
    );
    assert_eq!(
        SaphTree::parse_list(&mut Cursor::new("(foo 3")),
        error("Expected end of list ')', got end of input.")
    );
    assert_eq!(
        SaphTree::parse_list(&mut Cursor::new("(foo $1")),
        error("Expected end of list ')', got end of input.")
    );
    assert_eq!(
        SaphTree::parse_list(&mut Cursor::new("(foo")),
        error("Expected word or list end ')', got end of input.")
    );
    assert_eq!(
        SaphTree::parse_list(&mut Cursor::new("(foo $")),
        error("Expected index: '0' ... '9' or list end ')', got end of input.")
    );
    assert_eq!(
        SaphTree::parse_list(&mut Cursor::new("(foo -")),
        error("Expected '0' ... '9', got end of input.")
    );
    assert_eq!(parse("[in (1 2"), error("Expected end of list ')', got end of input."));
}

#[test]
fn list_failures() {
    assert_eq!(
        SaphTree::parse_list(&mut Cursor::new("[1]")),
        error("Expected list start '(', found '['")
    );
    assert_eq!(
        SaphTree::parse_list(&mut Cursor::new("(1 [2])")),
        error("Expected list member, found '['")
    );
    let mut cursor = Cursor::new("(a -x)");
    assert_eq!(SaphTree::parse_list(&mut cursor), error("Expected '0' ... '9', found 'x'"));
    assert_eq!(cursor.offset(), 5);
    assert_eq!(
        SaphTree::parse_list(&mut Cursor::new("(1.2.3)")),
        error("Found invalid number literal: '1.2.3'")
    );
    assert_eq!(
        SaphTree::parse_list(&mut Cursor::new("(1 (2))")),
        error("Expected list member, found '('")
    );
}

#[test]
fn parsing_twice_gives_the_same_tree() {
    for text in ["", "[]", "[in 4 3 2 | map (x $1 -2) [out ] -> out ]", "[in 4", "[in (a ?)]"] {
        assert_eq!(parse(text), parse(text));
    }
}

#[test]
fn error_is_all_that_comes_back() {
    match parse("[in 1 2 | map (a b ?) ]") {
        SaphTree::Error(message) => assert_eq!(message, "Expected list member, found '?'"),
        other => panic!("not an error: {:?}", other),
    }
}

#[test]
fn is_error_tells_errors_apart() {
    assert!(error("x").is_error());
    assert!(!SaphTree::Null.is_error());
    assert!(!SaphTree::Stream(vec![]).is_error());
    assert!(!parse("[]").is_error());
    assert!(parse("]").is_error());
}

#[test]
fn every_cut_of_a_program_lacks_its_end() {
    let text = "[in 4 3.5 -2 | map (x $12 -2 - +) [out 1 ] -> out ]";
    assert!(matches!(parse(text), SaphTree::Stream(_)));
    for n in 1..text.len() {
        match parse(&text[..n]) {
            SaphTree::Error(message) => {
                assert!(message.ends_with(", got end of input."), "{:?}: {}", &text[..n], message)
            }
            other => panic!("{:?} gave {:?}", &text[..n], other),
        }
    }
}

#[test]
fn every_cut_of_a_list_lacks_its_end() {
    let text = "( a 1.5 $3 -4 - )";
    assert!(matches!(SaphTree::parse_list(&mut Cursor::new(text)), SaphTree::List(_)));
    for n in 0..text.len() {
        let mut cursor = Cursor::new(&text[..n]);
        match SaphTree::parse_list(&mut cursor) {
            SaphTree::Error(message) => assert!(message.ends_with(", got end of input.")),
            other => panic!("{:?} gave {:?}", &text[..n], other),
        }
        assert_eq!(cursor.offset(), n);
    }
}

#[test]
fn every_cut_of_a_command_is_a_command_or_lacks_its_end() {
    let text = "map 4 (a b) -2.5 [in 1 ] 7";
    for n in 0..=text.len() {
        let mut cursor = Cursor::new(&text[..n]);
        match SaphTree::parse_cmd(&mut cursor) {
            SaphTree::Cmd(parts) => assert!(matches!(parts[0], SaphTree::CmdName(_))),
            SaphTree::Error(message) => assert!(message.ends_with(", got end of input.")),
            other => panic!("{:?} gave {:?}", &text[..n], other),
        }
        assert_eq!(cursor.offset(), n);
    }
}

#[test]
fn command_cut_before_an_arrow_is_the_same_command() {
    let whole = SaphTree::parse_cmd(&mut Cursor::new("in 4 | out"));
    assert_eq!(SaphTree::parse_cmd(&mut Cursor::new("in 4 ")), whole);
    assert_eq!(SaphTree::parse_cmd(&mut Cursor::new("in 4 |")), whole);
}

#[test]
fn errors_name_the_character_consumed_last() {
    for text in ["[in 4 ?]", "[in (a ~)]", "[In]", "[in 4x ]", "[in ($x)]", "[in (a1)]", "x", "[in -x]"] {
        let mut cursor = Cursor::new(text);
        match SaphTree::parse_stream(&mut cursor) {
            SaphTree::Error(message) => {
                let last = text.chars().nth(cursor.offset() - 1).unwrap();
                assert!(message.starts_with("Expected "), "{}", message);
                assert!(message.ends_with(&format!(", found '{}'", last)), "{}", message);
            }
            other => panic!("{:?} gave {:?}", text, other),
        }
    }
}
