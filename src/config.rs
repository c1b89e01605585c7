//! The settings of one run: the input separator as a user writes it, and the
//! input and output formats resolved from all settings.

use vstd::prelude::*;
use vstd::string::*;

use crate::format::{Anchor, InFormat, ItemSeparator, ItemSpan, LineSeparator, OutFormat};

verus! {

/// The input separator as a user gives it: a number of bytes, or a delimiter.
#[derive(Clone, PartialEq, Eq, PartialOrd, Ord, Debug)]
pub enum InputItemSeparator {
    /// Items are separated by this literal text.
    Explicit(String),
    /// Each item is this many bytes long; there is no separator text.
    ByteCount(usize),
}

/// The ASCII digit `0`.
pub const ZERO: u8 = 0x30;

/// The ASCII digit `9`.
pub const NINE: u8 = 0x39;

/// The ASCII plus sign.
pub const PLUS: u8 = 0x2b;

pub open spec fn is_digit(b: u8) -> bool {
    ZERO <= b <= NINE
}

/// The value of a run of decimal digits.
pub open spec fn decimal_value(digits: Seq<u8>) -> int
    decreases digits.len(),
{
    if digits.len() == 0 {
        0
    } else {
        decimal_value(digits.drop_last()) * 10 + (digits.last() - ZERO)
    }
}

/// The digits of a numeral: the text after a leading `+`, if there is one.
pub open spec fn numeral_digits(s: Seq<u8>) -> Seq<u8> {
    if s.len() > 0 && s[0] == PLUS {
        s.drop_first()
    } else {
        s
    }
}

/// The value of `s` read as a `usize` numeral: one or more ASCII digits after an
/// optional `+`, and a value within range.
pub open spec fn usize_value(s: Seq<u8>) -> Option<int> {
    let d = numeral_digits(s);
    if d.len() > 0 && (forall|i: int| 0 <= i < d.len() ==> is_digit(#[trigger] d[i]))
        && decimal_value(d) <= usize::MAX {
        Some(decimal_value(d))
    } else {
        None
    }
}

proof fn lemma_decimal_prefix(d: Seq<u8>, k: int)
    requires
        0 <= k <= d.len(),
        forall|i: int| 0 <= i < d.len() ==> is_digit(#[trigger] d[i]),
    ensures
        0 <= decimal_value(d.take(k)) <= decimal_value(d),
    decreases d.len(),
{
    if k < d.len() {
        let dl = d.drop_last();
        assert(dl.take(k) =~= d.take(k));
        lemma_decimal_prefix(dl, k);
        assert(dl.take(dl.len() as int) =~= dl);
        lemma_decimal_prefix(dl, dl.len() as int);
    } else {
        assert(d.take(k) =~= d);
        if d.len() > 0 {
            let dl = d.drop_last();
            assert(dl.take(dl.len() as int) =~= dl);
            lemma_decimal_prefix(dl, dl.len() as int);
        }
    }
}

/// Reads `s` as a `usize` numeral, as `usize::from_str` does.
fn parse_usize(s: &str) -> (r: Option<usize>)
    ensures
        match r {
            Some(n) => usize_value(s.spec_bytes()) == Some(n as int),
            None => usize_value(s.spec_bytes()) is None,
        },
{
    let ghost b = s.spec_bytes();
    let bytes = s.as_bytes();
    let len = bytes.len();
    let mut start: usize = 0;
    if len > 0 && bytes[0] == PLUS {
        start = 1;
    }
    let ghost d = numeral_digits(b);
    assert(d =~= b.subrange(start as int, len as int));
    if start == len {
        return None;
    }
    let mut value: usize = 0;
    let mut i: usize = start;
    while i < len
        invariant
            b == s.spec_bytes(),
            d == numeral_digits(b),
            start < len,
            len == b.len(),
            bytes@ == b,
            start <= i <= len,
            d == b.subrange(start as int, len as int),
            forall|k: int| 0 <= k < i - start ==> is_digit(#[trigger] d[k]),
            value == decimal_value(d.take(i - start)),
        decreases len - i,
    {
        let c = bytes[i];
        assert(d[i - start] == c);
        if c < ZERO || c > NINE {
            assert(!is_digit(d[i - start]));
            return None;
        }
        let ghost next = d.take(i - start + 1);
        assert(next.drop_last() =~= d.take(i - start));
        assert(next.last() == c);
        assert(decimal_value(next) == value * 10 + (c - ZERO));
        match value.checked_mul(10) {
            None => {
                proof {
                    if forall|k: int| 0 <= k < d.len() ==> is_digit(#[trigger] d[k]) {
                        lemma_decimal_prefix(d, i - start + 1);
                    }
                }
                return None;
            },
            Some(tens) => match tens.checked_add((c - ZERO) as usize) {
                None => {
                    proof {
                        if forall|k: int| 0 <= k < d.len() ==> is_digit(#[trigger] d[k]) {
                            lemma_decimal_prefix(d, i - start + 1);
                        }
                    }
                    return None;
                },
                Some(v) => {
                    value = v;
                },
            },
        }
        i += 1;
    }
    assert(d.take(len - start) =~= d);
    Some(value)
}

impl InputItemSeparator {
    /// Reads a separator as a user writes it: a `usize` numeral is a byte count,
    /// which must be above zero; any other text is a delimiter.
    pub fn parse(arg: &str) -> (r: Result<Self, String>)
        ensures
            match usize_value(arg.spec_bytes()) {
                Some(n) => if n > 0 {
                    r == Ok::<Self, String>(InputItemSeparator::ByteCount(n as usize))
                } else {
                    r matches Err(m) && m@ == "number of bytes per item must be > 0"@
                },
                None => r matches Ok(InputItemSeparator::Explicit(s)) && s@ == arg@,
            },
    {
        if let Some(char_count) = parse_usize(arg) {
            if char_count > 0 {
                Ok(Self::ByteCount(char_count))
            } else {
                Err(String::from_str("number of bytes per item must be > 0"))
            }
        } else {
            Ok(Self::Explicit(String::from_str(arg)))
        }
    }
}

/// The separator that the reader uses for what a user gave.
pub open spec fn as_item_separator(s: InputItemSeparator) -> ItemSeparator {
    match s {
        InputItemSeparator::Explicit(e) => ItemSeparator::Explicit(e),
        InputItemSeparator::ByteCount(b) => ItemSeparator::ByteCount(b),
    }
}

impl vstd::std_specs::convert::FromSpecImpl<InputItemSeparator> for ItemSeparator {
    open spec fn obeys_from_spec() -> bool {
        true
    }

    open spec fn from_spec(s: InputItemSeparator) -> Self {
        as_item_separator(s)
    }
}

impl From<InputItemSeparator> for ItemSeparator {
    fn from(s: InputItemSeparator) -> Self {
        match s {
            InputItemSeparator::Explicit(e) => ItemSeparator::Explicit(e),
            InputItemSeparator::ByteCount(b) => ItemSeparator::ByteCount(b),
        }
    }
}

/// All settings of one run, as a user gives them.
pub struct Args {
    /// The input item separator.
    pub in_separator: InputItemSeparator,
    /// Input items per line; 0 puts all items on a single line.
    pub in_line_n: usize,
    /// The text between input lines.
    pub in_line_separator: String,
    /// The width that output items are padded to; 0 leaves them as they are.
    pub out_span: usize,
    /// The character that pads a short output item.
    pub out_pad: char,
    /// Where a padded output item stands within its field.
    pub out_anchor: Anchor,
    /// The text between output items of one line.
    pub out_separator: String,
    /// Output items per line; 0 puts all items on a single line.
    pub out_line_n: usize,
    /// The text between output lines.
    pub out_line_separator: String,
}

/// Grouping into lines of `n` items, where `n` is not 0.
pub open spec fn line_grouping(n: usize, sep: String) -> Option<LineSeparator> {
    if n > 0 {
        Some(LineSeparator { items_per_line: n, line_separator: sep })
    } else {
        None
    }
}

/// The input format that `args` ask for.
pub open spec fn in_format_of(args: Args) -> InFormat {
    InFormat {
        item_separator: as_item_separator(args.in_separator),
        line_separator: line_grouping(args.in_line_n, args.in_line_separator),
    }
}

/// The output format that `args` ask for.
pub open spec fn out_format_of(args: Args) -> OutFormat {
    OutFormat {
        span: if args.out_span == 0 {
            None
        } else {
            Some(ItemSpan { span: args.out_span, pad: args.out_pad, anchor: args.out_anchor })
        },
        item_separator: args.out_separator,
        line_separator: line_grouping(args.out_line_n, args.out_line_separator),
    }
}

/// The formats of one run.
pub struct Config {
    in_fmt: InFormat,
    out_fmt: OutFormat,
}

fn copy_line_separator(ls: &Option<LineSeparator>) -> (r: Option<LineSeparator>)
    ensures
        r == *ls,
{
    match ls {
        Some(l) => Some(LineSeparator {
            items_per_line: l.items_per_line,
            line_separator: l.line_separator.clone(),
        }),
        None => None,
    }
}

impl Config {
    pub closed spec fn input_format(&self) -> InFormat {
        self.in_fmt
    }

    pub closed spec fn output_format(&self) -> OutFormat {
        self.out_fmt
    }

    /// Resolves the formats from all settings.
    pub fn new(args: Args) -> (r: Self)
        ensures
            r.input_format() == in_format_of(args),
            r.output_format() == out_format_of(args),
    {
        let Args {
            in_separator,
            in_line_n,
            in_line_separator,
            out_span,
            out_pad,
            out_anchor,
            out_separator,
            out_line_n,
            out_line_separator,
        } = args;
        Self {
            in_fmt: InFormat {
                item_separator: ItemSeparator::from(in_separator),
                line_separator: Self::line_separator(in_line_n, in_line_separator),
            },
            out_fmt: OutFormat {
                span: if out_span == 0 {
                    None
                } else {
                    Some(ItemSpan::new(out_span, out_pad, out_anchor))
                },
                item_separator: out_separator,
                line_separator: Self::line_separator(out_line_n, out_line_separator),
            },
        }
    }

    pub fn in_fmt(&self) -> (r: &InFormat)
        ensures
            *r == self.input_format(),
    {
        &self.in_fmt
    }

    pub fn out_format(&self) -> (r: OutFormat)
        ensures
            r == self.output_format(),
    {
        OutFormat {
            span: self.out_fmt.span,
            item_separator: self.out_fmt.item_separator.clone(),
            line_separator: copy_line_separator(&self.out_fmt.line_separator),
        }
    }

    fn line_separator(n: usize, sep: String) -> (r: Option<LineSeparator>)
        ensures
            r == line_grouping(n, sep),
    {
        if n > 0 {
            Some(LineSeparator::new(n, sep))
        } else {
            None
        }
    }
}

} // verus!
