use lineup::{to_iter, InputItemSeparator};

#[test]
fn to_iter_explicit() {
    let istream = "1;2a;3bbb;";
    let sep = InputItemSeparator::Explicit(";".to_string());
    let mut it = to_iter(istream, &sep).into_iter();
    assert_eq!(Some("1"), it.next());
    assert_eq!(Some("2a"), it.next());
    assert_eq!(Some("3bbb"), it.next());
    assert_eq!(None, it.next());
}

#[test]
fn to_iter_byte_count_ok() {
    let istream = "a1b2c3d4";
    let sep = InputItemSeparator::ByteCount(2);
    let mut it = to_iter(istream, &sep).into_iter();
    assert_eq!(Some("a1"), it.next());
    assert_eq!(Some("b2"), it.next());
    assert_eq!(Some("c3"), it.next());
    assert_eq!(Some("d4"), it.next());
    assert_eq!(None, it.next());
}

#[test]
fn to_iter_keeps_empty_items_and_short_last_run() {
    let sep = InputItemSeparator::Explicit(",".to_string());
    assert_eq!(to_iter("a,,b,", &sep), vec!["a", "", "b"]);
    assert_eq!(to_iter(",a", &sep), vec!["", "a"]);
    assert_eq!(to_iter("", &sep), Vec::<&str>::new());
    let sep = InputItemSeparator::ByteCount(2);
    assert_eq!(to_iter("abcde", &sep), vec!["ab", "cd", "e"]);
}

#[test]
fn to_iter_empty_delimiter() {
    let sep = InputItemSeparator::Explicit(String::new());
    assert_eq!(to_iter("aé", &sep), vec!["", "a", "é"]);
    assert_eq!(to_iter("", &sep), vec![""]);
}
