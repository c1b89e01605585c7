use lineup::{
    read, read_all, FormatError, InFormat, InFormatBuilder, ItemReader, ItemSeparator,
    LineSeparator, OutFormatBuilder, ReadError,
};

#[test]
fn reader_explicit() {
    let input = "a,bb,ccc,,";
    let mut reader = ItemReader::new(
        input,
        InFormatBuilder::default()
            .item_separator(ItemSeparator::Explicit(",".to_string()))
            .build()
            .unwrap(),
    );
    assert_eq!(Some("a"), reader.next());
    assert_eq!(Some("bb"), reader.next());
    assert_eq!(Some("ccc"), reader.next());
    assert_eq!(None, reader.next());
}

#[test]
fn reader_byte_count() {
    let input = "aaaabbbbccccddd";
    let mut reader = ItemReader::new(
        input,
        InFormatBuilder::default()
            .item_separator(ItemSeparator::ByteCount(4))
            .build()
            .unwrap(),
    );
    assert_eq!(Some("aaaa"), reader.next());
    assert_eq!(Some("bbbb"), reader.next());
    assert_eq!(Some("cccc"), reader.next());
    assert_eq!(None, reader.next());
}

#[test]
fn reader_explicit_multiline() {
    let input = "aa,vvv,cccc,\nd,ee\n,a\n";
    let mut reader = ItemReader::new(
        input,
        InFormatBuilder::default()
            .item_separator(ItemSeparator::Explicit(",".to_string()))
            .line_separator(Some(LineSeparator {
                items_per_line: 3,
                line_separator: "\n".to_string(),
            }))
            .build()
            .unwrap(),
    );
    assert_eq!(Some("aa"), reader.next());
    assert_eq!(Some("vvv"), reader.next());
    assert_eq!(Some("cccc,"), reader.next());
    assert_eq!(Some("d"), reader.next());
    assert_eq!(Some("ee\n"), reader.next());
    assert_eq!(Some("a"), reader.next());
    assert_eq!(None, reader.next());
}

#[test]
fn reader_byte_count_multiline() {
    let input = "aavvcc;ddeebb;";
    let mut reader = ItemReader::new(
        input,
        InFormatBuilder::default()
            .item_separator(ItemSeparator::ByteCount(2))
            .line_separator(Some(LineSeparator {
                items_per_line: 3,
                line_separator: ";".to_string(),
            }))
            .build()
            .unwrap(),
    );
    assert_eq!(Some("aa"), reader.next());
    assert_eq!(Some("vv"), reader.next());
    assert_eq!(Some("cc"), reader.next());
    assert_eq!(Some("dd"), reader.next());
    assert_eq!(Some("ee"), reader.next());
    assert_eq!(Some("bb"), reader.next());
    assert_eq!(None, reader.next());
}

#[test]
fn example_byte_count() {
    let input = "aabbccdd";
    let fmt = InFormatBuilder::default()
        .item_separator(ItemSeparator::ByteCount(2))
        .build()
        .unwrap();
    let mut it = read(input, fmt);
    assert_eq!(Some("aa"), it.next());
    assert_eq!(Some("bb"), it.next());
    assert_eq!(Some("cc"), it.next());
    assert_eq!(Some("dd"), it.next());
    assert_eq!(None, it.next());
}

#[test]
fn example_explicit() {
    let input = "👉👉👉SEP😊😊SEP🖖SEP💼💼💼";
    let fmt = InFormatBuilder::default()
        .item_separator(ItemSeparator::Explicit("SEP".to_string()))
        .build()
        .unwrap();
    let mut it = read(input, fmt);
    assert_eq!(Some("👉👉👉"), it.next());
    assert_eq!(Some("😊😊"), it.next());
    assert_eq!(Some("🖖"), it.next());
    assert_eq!(Some("💼💼💼"), it.next());
    assert_eq!(None, it.next());
}

fn explicit(sep: &str) -> InFormat {
    InFormatBuilder::default()
        .item_separator(ItemSeparator::Explicit(sep.to_string()))
        .build()
        .unwrap()
}

fn bytes(n: usize) -> InFormat {
    InFormatBuilder::default()
        .item_separator(ItemSeparator::ByteCount(n))
        .build()
        .unwrap()
}

#[test]
fn explicit_separator_scenario() {
    let items = read_all("AAASEPBBSEPCSEPDDD", explicit("SEP")).unwrap();
    assert_eq!(items, vec!["AAA", "BB", "C", "DDD"]);
}

#[test]
fn default_input_separator_is_a_comma() {
    let fmt = InFormatBuilder::default().build().unwrap();
    match &fmt.item_separator {
        ItemSeparator::Explicit(s) => assert_eq!(s, ","),
        ItemSeparator::ByteCount(_) => panic!("expected a delimiter"),
    }
    assert!(fmt.line_separator.is_none());
    assert_eq!(read_all("x,y", fmt).unwrap(), vec!["x", "y"]);
}

#[test]
fn byte_count_exact_multiple() {
    let input = "aabbccddee";
    let items = read_all(input, bytes(2)).unwrap();
    assert_eq!(items.len(), input.len() / 2);
    assert!(items.iter().all(|i| i.len() == 2));
    assert_eq!(items, vec!["aa", "bb", "cc", "dd", "ee"]);
}

#[test]
fn byte_count_drops_short_remainder() {
    let input = "abcdefg";
    let items = read_all(input, bytes(3)).unwrap();
    assert_eq!(items.len(), input.len() / 3);
    assert_eq!(items, vec!["abc", "def"]);
}

#[test]
fn byte_count_on_multibyte_boundaries() {
    let items = read_all("éàü", bytes(2)).unwrap();
    assert_eq!(items, vec!["é", "à", "ü"]);
}

#[test]
fn empty_item_stops_reading() {
    assert_eq!(read_all(",a,b", explicit(",")).unwrap(), Vec::<&str>::new());
    assert_eq!(read_all("a,,b", explicit(",")).unwrap(), vec!["a"]);
    let mut reader = read("a,,b", explicit(","));
    assert_eq!(reader.next(), Some("a"));
    assert_eq!(reader.next(), None);
    assert_eq!(reader.next(), None);
}

#[test]
fn empty_delimiter_gives_no_items() {
    assert_eq!(read_all("abc", explicit("")).unwrap(), Vec::<&str>::new());
}

#[test]
fn missing_delimiter_gives_whole_input() {
    assert_eq!(read_all("a b c", explicit(",")).unwrap(), vec!["a b c"]);
}

#[test]
fn empty_input_gives_no_items_and_no_output() {
    let formats = [
        explicit(","),
        bytes(3),
        InFormatBuilder::default()
            .item_separator(ItemSeparator::ByteCount(1))
            .line_separator(Some(LineSeparator::new(2, "\n".to_string())))
            .build()
            .unwrap(),
    ];
    for fmt in formats {
        let items = read_all("", fmt).unwrap();
        assert!(items.is_empty());
        let mut out = String::new();
        lineup::write(&items, &mut out, OutFormatBuilder::default().build().unwrap());
        assert_eq!(out, "");
    }
}

#[test]
fn explicit_round_trip() {
    for (input, d) in [("a,bb,ccc", ","), ("x--y--z", "--"), ("😊SEP👶", "SEP"), ("single", ";")] {
        let items = read_all(input, explicit(d)).unwrap();
        let mut out = String::new();
        let fmt = OutFormatBuilder::default()
            .item_separator(d.to_string())
            .build()
            .unwrap();
        lineup::write(&items, &mut out, fmt);
        assert_eq!(out, input);
    }
}

#[test]
fn split_inside_a_character_is_reported() {
    assert_eq!(read_all("a🍺cd", bytes(1)), Err(ReadError::SplitInsideChar));
    let reader = read("a🍺cd", bytes(2));
    assert!(!reader.next_is_text());
}

#[test]
fn next_is_text_on_clean_splits() {
    let reader = read("a🍺cd", bytes(1));
    assert!(reader.next_is_text());
    let reader = read("🍺", explicit(","));
    assert!(reader.next_is_text());
}

#[test]
fn refused_input_formats() {
    let f = InFormat {
        item_separator: ItemSeparator::ByteCount(0),
        line_separator: None,
    };
    assert_eq!(read_all("abc", f), Err(ReadError::Format(FormatError::ZeroByteCount)));
    let f = InFormat {
        item_separator: ItemSeparator::Explicit(",".to_string()),
        line_separator: Some(LineSeparator::new(0, "\n".to_string())),
    };
    assert_eq!(read_all("abc", f), Err(ReadError::Format(FormatError::ZeroItemsPerLine)));
    let r = InFormatBuilder::default()
        .item_separator(ItemSeparator::ByteCount(0))
        .build();
    assert_eq!(r.err(), Some(FormatError::ZeroByteCount));
}

#[test]
fn next_item_with_given_separator() {
    let mut reader = read("ab|cd|ef", explicit(","));
    assert_eq!(reader.next_item(ItemSeparator::Explicit("|".to_string())), Some("ab"));
    assert_eq!(reader.next_item(ItemSeparator::ByteCount(1)), Some("c"));
    assert_eq!(reader.next_item(ItemSeparator::ByteCount(1)), Some("d"));
    assert_eq!(reader.next(), Some("|ef"));
    assert_eq!(reader.next(), None);
}
