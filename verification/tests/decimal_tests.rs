use sapphire::decimal::{index_from_literal, Decimal};

#[test]
fn literal_of_digits() {
    let n = Decimal::from_literal("1004", false).unwrap();
    assert!(!n.is_negative());
    assert_eq!(*n.digits(), vec![1u8, 0, 0, 4]);
    assert_eq!(n.scale(), 0);
    assert_eq!(n.to_string(), "1004");
}

#[test]
fn literal_with_a_point() {
    let n = Decimal::from_literal("3.25", true).unwrap();
    assert!(n.is_negative());
    assert_eq!(*n.digits(), vec![3u8, 2, 5]);
    assert_eq!(n.scale(), 2);
    assert_eq!(n.to_string(), "-3.25");
}

#[test]
fn literal_with_a_point_at_an_end() {
    let n = Decimal::from_literal("5.", false).unwrap();
    assert_eq!(*n.digits(), vec![5u8]);
    assert_eq!(n.scale(), 0);
    assert_eq!(n.to_string(), "5");

    let n = Decimal::from_literal(".5", false).unwrap();
    assert_eq!(*n.digits(), vec![5u8]);
    assert_eq!(n.scale(), 1);
    assert_eq!(n.to_string(), ".5");
    assert_eq!(n.to_string().parse::<f32>().unwrap(), 0.5f32);
}

#[test]
fn leading_zeros_are_kept() {
    let n = Decimal::from_literal("007.10", false).unwrap();
    assert_eq!(*n.digits(), vec![0u8, 0, 7, 1, 0]);
    assert_eq!(n.scale(), 2);
    assert_eq!(n.to_string(), "007.10");
}

#[test]
fn long_literal_loses_nothing() {
    let text = "123456789012345678901234567890.000000000000000000001";
    let n = Decimal::from_literal(text, false).unwrap();
    assert_eq!(n.digits().len(), 51);
    assert_eq!(n.scale(), 21);
    assert_eq!(n.to_string(), text);
}

#[test]
fn what_is_no_literal() {
    for text in ["", ".", "..", "1.2.3", "1..2", "-1", "+1", "1e5", "1 ", "a", "1,5", "٣"] {
        assert_eq!(Decimal::from_literal(text, false), None, "{:?}", text);
    }
}

#[test]
fn written_out_and_read_again() {
    for text in ["0", "10", "0.5", ".5", "12.034", "000"] {
        let n = Decimal::from_literal(text, false).unwrap();
        let again = Decimal::from_literal(&n.to_string(), false).unwrap();
        assert_eq!(n, again);
    }
}

#[test]
fn index_of_digits() {
    assert_eq!(index_from_literal("0"), Some(0));
    assert_eq!(index_from_literal("10"), Some(10));
    assert_eq!(index_from_literal("0042"), Some(42));
    assert_eq!(index_from_literal(&usize::MAX.to_string()), Some(usize::MAX));
}

#[test]
fn what_is_no_index() {
    assert_eq!(index_from_literal(""), None);
    assert_eq!(index_from_literal("1.0"), None);
    assert_eq!(index_from_literal("-1"), None);
    assert_eq!(index_from_literal("+1"), None);
    assert_eq!(index_from_literal("12a"), None);
    assert_eq!(index_from_literal(&format!("{}0", usize::MAX)), None);
    assert_eq!(index_from_literal("340282366920938463463374607431768211456"), None);
}
