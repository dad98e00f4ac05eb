use sapphire::cursor::Cursor;
use sapphire::decimal::Decimal;
use sapphire::parse::SaphTree;

fn value(number: &Decimal) -> f32 {
    number.to_string().parse::<f32>().unwrap()
}

#[test]
fn parse_number_works() {
    let code = String::from("1004");
    let mut state = Cursor::new(&code);
    match SaphTree::parse_number(&mut state, true) {
        SaphTree::Number(num) => assert_eq!(value(&num), 1004 as f32),
        SaphTree::Error(e) => panic!("test failed got err {}", e),
        _ => panic!("Test parse number failed"),
    }
}

#[test]
fn parse_stream_idx_works() {
    let code = String::from("$10 ");
    match SaphTree::parse_stream_idx(&mut Cursor::new(&code)) {
        SaphTree::StreamIdx(i) => assert_eq!(i, 10),
        SaphTree::Error(e) => panic!("test failed got err {}", e),
        _ => panic!("Test parse_stream_idx failed"),
    }
}

#[test]
fn parse_word_works() {
    let code = String::from("++ ");
    match SaphTree::parse_word(&mut Cursor::new(&code)) {
        SaphTree::Word(w) => assert_eq!(w.as_str(), "++"),
        SaphTree::Error(e) => panic!("Test failed got err {}", e),
        _ => panic!("parsing word test failed"),
    }
}

#[test]
fn parse_list_works() {
    let code = String::from("(foo 3)");
    match SaphTree::parse_list(&mut Cursor::new(&code)) {
        SaphTree::List(lst) => {
            match &lst[0] {
                SaphTree::Word(w) => assert_eq!(w.as_str(), "foo"),
                SaphTree::Error(e) => panic!("Test failed got err {}", e),
                _ => panic!("parsing first list member failed"),
            }
            match &lst[1] {
                SaphTree::Number(n) => assert_eq!(value(n), 3 as f32),
                SaphTree::Error(e) => panic!("Test failed got err {}", e),
                _ => panic!("parsing second list member failed"),
            }
        }
        SaphTree::Error(e) => panic!("test failed got err {}", e),
        _ => panic!("Test parse_list failed"),
    }
}

#[test]
fn parse_cmd_name_works() {
    let code = String::from("map");
    match SaphTree::parse_cmd_name(&mut Cursor::new(&code)) {
        SaphTree::CmdName(name) => assert_eq!(name, String::from("map")),
        SaphTree::Error(e) => panic!("test failed got err {}", e),
        _ => panic!("Test parse cmd name failed"),
    }
}

#[test]
fn parse_cmd_works() {
    let code = String::from("map 5.332");
    match SaphTree::parse_cmd(&mut Cursor::new(&code)) {
        SaphTree::Cmd(children) => {
            assert!(children.len() == 2);
            match &children[0] {
                SaphTree::CmdName(name) => assert_eq!(*name, String::from("map")),
                SaphTree::Error(e) => panic!("test failed got err {}", e),
                _ => panic!("Failed to parse cmd name inside cmd"),
            }

            match &children[1] {
                SaphTree::Number(num) => assert_eq!(5.332, value(num)),
                SaphTree::Error(e) => panic!("test failed got err {}", e),
                _ => panic!("Failed to find a parsed number"),
            }
        }
        SaphTree::Error(e) => panic!("test failed got err {}", e),
        _ => panic!("Test parse cmd failed"),
    }
}

#[test]
fn parse_stream_works() {
    let code = String::from("[in 4 3 2  | map 2.3]");
    match SaphTree::parse_stream(&mut Cursor::new(&code)) {
        SaphTree::Stream(nodes) => {
            assert!(nodes.len() == 3);
            match &nodes[0] {
                SaphTree::Cmd(_) => (),
                SaphTree::Error(e) => panic!("test failed got err {}", e),
                _ => panic!("Failed to parse first command"),
            }

            match &nodes[1] {
                SaphTree::CmdPipe => (),
                SaphTree::Error(e) => panic!("test failed got err {}", e),
                _ => panic!("Failed to parse command pipe"),
            }

            match &nodes[2] {
                SaphTree::Cmd(_) => (),
                SaphTree::Error(e) => panic!("test failed got err {}", e),
                _ => panic!("Failed to parse second command"),
            }
        }
        SaphTree::Error(e) => panic!("test failed got err {}", e),
        _ => panic!("test for parse_stream failed"),
    }
}

#[test]
fn empty_stream_test() {
    let code = String::from("[]");
    match SaphTree::parse(&code) {
        SaphTree::Stream(nodes) => assert!(nodes.len() == 0),
        SaphTree::Error(e) => panic!("test failed got error {}", e),
        _ => panic!("Test for empty stream parsing failed"),
    }
}
