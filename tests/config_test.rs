use lineup::{Anchor, Args, Config, InputItemSeparator, ItemSeparator};

#[test]
fn parse_byte_count() {
    assert_eq!(InputItemSeparator::parse("3"), Ok(InputItemSeparator::ByteCount(3)));
    assert_eq!(InputItemSeparator::parse("+12"), Ok(InputItemSeparator::ByteCount(12)));
}

#[test]
fn parse_zero_is_refused() {
    assert_eq!(
        InputItemSeparator::parse("0"),
        Err("number of bytes per item must be > 0".to_string())
    );
    assert!(InputItemSeparator::parse("000").is_err());
}

#[test]
fn parse_delimiter() {
    for s in [",", "", "-1", "+", "1a", "99999999999999999999999999"] {
        assert_eq!(
            InputItemSeparator::parse(s),
            Ok(InputItemSeparator::Explicit(s.to_string()))
        );
    }
}

fn args() -> Args {
    Args {
        in_separator: InputItemSeparator::ByteCount(2),
        in_line_n: 0,
        in_line_separator: String::new(),
        out_span: 0,
        out_pad: ' ',
        out_anchor: Anchor::Left,
        out_separator: " ".to_string(),
        out_line_n: 3,
        out_line_separator: "\n".to_string(),
    }
}

#[test]
fn config_resolves_formats() {
    let cfg = Config::new(args());
    assert_eq!(cfg.in_fmt().item_separator, ItemSeparator::ByteCount(2));
    assert!(cfg.in_fmt().line_separator.is_none());
    let out = cfg.out_format();
    assert!(out.span.is_none());
    assert_eq!(out.item_separator, " ");
    let ls = out.line_separator.unwrap();
    assert_eq!(ls.items_per_line, 3);
    assert_eq!(ls.line_separator, "\n");
}

#[test]
fn config_with_span_and_input_lines() {
    let mut a = args();
    a.in_separator = InputItemSeparator::Explicit(";".to_string());
    a.in_line_n = 2;
    a.in_line_separator = "|".to_string();
    a.out_span = 5;
    a.out_pad = '0';
    a.out_anchor = Anchor::Right;
    a.out_line_n = 0;
    let cfg = Config::new(a);
    assert_eq!(cfg.in_fmt().item_separator, ItemSeparator::Explicit(";".to_string()));
    let ls = cfg.in_fmt().line_separator.clone().unwrap();
    assert_eq!((ls.items_per_line, ls.line_separator.as_str()), (2, "|"));
    let out = cfg.out_format();
    let span = out.span.unwrap();
    assert_eq!((span.span, span.pad, span.anchor), (5, '0', Anchor::Right));
    assert!(out.line_separator.is_none());
}

#[test]
fn separator_from_user_separator() {
    assert_eq!(
        ItemSeparator::from(InputItemSeparator::ByteCount(7)),
        ItemSeparator::ByteCount(7)
    );
    assert_eq!(
        ItemSeparator::from(InputItemSeparator::Explicit("x".to_string())),
        ItemSeparator::Explicit("x".to_string())
    );
}
