use lineup::{Anchor, FormatError, ItemSpan, ItemWriter, LineSeparator, OutFormatBuilder};

#[test]
fn test() {
    let input = ["001", "01", "1"];
    let expected = "_001|__01;___1*";
    let mut output = [0u8; 15];
    output[14] = b'*';
    let format = OutFormatBuilder::default()
        .span(Some(ItemSpan::new(4, '_', Anchor::Right)))
        .item_separator("|".to_string())
        .line_separator(Some(LineSeparator::new(2, ";".to_string())))
        .build()
        .unwrap();
    let mut written = String::new();
    lineup::write(&input, &mut written, format);
    output[..written.len()].copy_from_slice(written.as_bytes());
    assert_eq!(String::from_utf8(output.to_vec()).unwrap(), expected);
}

#[test]
fn example() {
    let input = ["😊😊", "👶", "💼💼💼"];
    let format = OutFormatBuilder::default()
        .span(Some(ItemSpan::new(4, '👉', Anchor::Right)))
        .item_separator("🖖".to_string())
        .line_separator(Some(LineSeparator::new(2, "🔩\n".to_string())))
        .build()
        .unwrap();
    let expected = "👉👉😊😊🖖👉👉👉👶🔩\n👉💼💼💼";
    let mut output = vec![0u8; 100];
    let mut written = String::new();
    lineup::write(&input, &mut written, format);
    output[..written.len()].copy_from_slice(written.as_bytes());
    let eof = output
        .iter()
        .position(|x| *x == 0u8)
        .unwrap_or(output.len());
    let output = output.split_at(eof).0;
    assert_eq!(String::from_utf8(output.to_vec()).unwrap(), expected);
}

#[test]
fn writer_item_by_item() {
    let format = OutFormatBuilder::default()
        .span(Some(ItemSpan::new(4, '👉', Anchor::Right)))
        .item_separator("🖖".to_string())
        .line_separator(Some(LineSeparator::new(2, "🔩\n".to_string())))
        .build()
        .unwrap();
    let mut writer = ItemWriter::new(format);
    let mut out = String::new();
    for item in ["😊😊", "👶", "💼💼💼"] {
        writer.write(item, &mut out);
    }
    assert_eq!(out, "👉👉😊😊🖖👉👉👉👶🔩\n👉💼💼💼");
}

#[test]
fn default_output_format_joins_with_space() {
    let format = OutFormatBuilder::default().build().unwrap();
    assert!(format.span.is_none());
    assert!(format.line_separator.is_none());
    assert_eq!(format.item_separator, " ");
    let mut out = String::new();
    lineup::write(&["a", "bb", "c"], &mut out, format);
    assert_eq!(out, "a bb c");
}

#[test]
fn left_anchor_pads_after_the_item() {
    let format = OutFormatBuilder::default()
        .span(Some(ItemSpan::new(3, '.', Anchor::Left)))
        .item_separator(",".to_string())
        .build()
        .unwrap();
    let mut out = String::new();
    lineup::write(&["a", "bb", "ccc"], &mut out, format);
    assert_eq!(out, "a..,bb.,ccc");
}

#[test]
fn long_items_are_not_truncated() {
    let format = OutFormatBuilder::default()
        .span(Some(ItemSpan::new(2, '_', Anchor::Right)))
        .item_separator("|".to_string())
        .build()
        .unwrap();
    let mut out = String::new();
    lineup::write(&["abcd", "x", "日本語"], &mut out, format);
    assert_eq!(out, "abcd|_x|日本語");
}

#[test]
fn padding_fills_the_span_exactly() {
    let items = ["", "a", "éé", "日本語", "abcd"];
    let format = OutFormatBuilder::default()
        .span(Some(ItemSpan::new(4, 'ß', Anchor::Right)))
        .item_separator("\n".to_string())
        .build()
        .unwrap();
    let mut out = String::new();
    lineup::write(&items, &mut out, format);
    for line in out.split('\n') {
        assert_eq!(line.chars().count(), 4);
    }
    assert_eq!(out, "ßßßß\nßßßa\nßßéé\nß日本語\nabcd");
}

#[test]
fn line_separator_after_every_kth_item() {
    let format = OutFormatBuilder::default()
        .item_separator("-".to_string())
        .line_separator(Some(LineSeparator::new(3, "\n".to_string())))
        .build()
        .unwrap();
    let mut out = String::new();
    lineup::write(&["1", "2", "3", "4", "5", "6", "7"], &mut out, format);
    assert_eq!(out, "1-2-3\n4-5-6\n7");
}

#[test]
fn one_item_per_line() {
    let format = OutFormatBuilder::default()
        .line_separator(Some(LineSeparator::new(1, ";".to_string())))
        .build()
        .unwrap();
    let mut out = String::new();
    lineup::write(&["a", "b", "c"], &mut out, format);
    assert_eq!(out, "a;b;c");
}

#[test]
fn no_items_write_nothing() {
    let formats = [
        OutFormatBuilder::default().build().unwrap(),
        OutFormatBuilder::default()
            .span(Some(ItemSpan::new(5, '*', Anchor::Left)))
            .line_separator(Some(LineSeparator::new(2, "\n".to_string())))
            .build()
            .unwrap(),
    ];
    for format in formats {
        let mut out = "kept".to_string();
        lineup::write(&[], &mut out, format);
        assert_eq!(out, "kept");
    }
}

#[test]
fn output_format_with_zero_span_is_refused() {
    let r = OutFormatBuilder::default()
        .span(Some(ItemSpan::new(0, ' ', Anchor::Left)))
        .build();
    assert_eq!(r.err(), Some(FormatError::ZeroSpan));
}

#[test]
fn output_format_with_zero_items_per_line_is_refused() {
    let r = OutFormatBuilder::default()
        .line_separator(Some(LineSeparator::new(0, "\n".to_string())))
        .build();
    assert_eq!(r.err(), Some(FormatError::ZeroItemsPerLine));
}
