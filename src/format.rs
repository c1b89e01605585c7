//! The values that describe how input is cut into items and how items are laid out.

use vstd::prelude::*;

verus! {

/// How the input is cut into items.
#[derive(Clone, PartialEq, Eq, PartialOrd, Ord, Debug)]
pub enum ItemSeparator {
    /// Items are separated by this literal text.
    Explicit(String),
    /// Each item is this many bytes long; there is no separator text.
    ByteCount(usize),
}

/// Grouping of items into lines: after every `items_per_line` items the
/// `line_separator` stands in place of the ordinary item separator.
#[derive(Clone, PartialEq, Eq, PartialOrd, Ord, Debug)]
pub struct LineSeparator {
    pub items_per_line: usize,
    pub line_separator: String,
}

/// Which side of the field an item keeps when it is padded.
#[derive(Clone, Copy, Debug, PartialEq, Eq)]
pub enum Anchor {
    /// The padding goes before the item.
    Right,
    /// The padding goes after the item.
    Left,
}

/// Fixed width of an output item, counted in characters.
#[derive(Clone, Copy, Debug, PartialEq, Eq)]
pub struct ItemSpan {
    /// The width; shorter items are padded up to it, longer ones are kept whole.
    pub span: usize,
    /// The character that pads a shorter item.
    pub pad: char,
    /// Where the item stands within its field.
    pub anchor: Anchor,
}

/// How the input is cut into items.
#[derive(Clone, Debug)]
pub struct InFormat {
    pub item_separator: ItemSeparator,
    /// Grouping of the input into lines, if any.
    pub line_separator: Option<LineSeparator>,
}

/// How items are laid out in the output.
#[derive(Clone, Debug)]
pub struct OutFormat {
    /// Padding of short items, if any.
    pub span: Option<ItemSpan>,
    /// The text between two items of one line.
    pub item_separator: String,
    /// Grouping of the output into lines, if any.
    pub line_separator: Option<LineSeparator>,
}

/// Why a format was refused.
#[derive(Clone, Copy, Debug, PartialEq, Eq)]
pub enum FormatError {
    /// An item of zero bytes was asked for.
    ZeroByteCount,
    /// A line of zero items was asked for.
    ZeroItemsPerLine,
    /// A field of zero characters was asked for.
    ZeroSpan,
}

impl ItemSeparator {
    pub open spec fn wf(&self) -> bool {
        match self {
            ItemSeparator::ByteCount(n) => *n > 0,
            ItemSeparator::Explicit(_) => true,
        }
    }
}

impl Default for ItemSeparator {
    /// A comma.
    fn default() -> (r: Self)
        ensures
            r matches ItemSeparator::Explicit(s) && s@ == seq![','],
    {
        proof {
            reveal_strlit(",");
        }
        ItemSeparator::Explicit(String::from_str(","))
    }
}

impl LineSeparator {
    pub fn new(items_per_line: usize, line_separator: String) -> (r: Self)
        ensures
            r.items_per_line == items_per_line,
            r.line_separator == line_separator,
    {
        LineSeparator { items_per_line, line_separator }
    }
}

impl ItemSpan {
    pub fn new(span: usize, pad: char, anchor: Anchor) -> (r: Self)
        ensures
            r == (ItemSpan { span, pad, anchor }),
    {
        ItemSpan { span, pad, anchor }
    }
}

/// Whether `sep` asks for items of zero bytes.
pub open spec fn zero_byte_count(sep: ItemSeparator) -> bool {
    sep matches ItemSeparator::ByteCount(n) && n == 0
}

/// Whether `ls` asks for lines of zero items.
pub open spec fn zero_line_length(ls: Option<LineSeparator>) -> bool {
    ls matches Some(l) && l.items_per_line == 0
}

/// Whether `span` asks for fields of zero characters.
pub open spec fn zero_span(span: Option<ItemSpan>) -> bool {
    span matches Some(sp) && sp.span == 0
}

/// The first fault of an input format, if it has one.
pub open spec fn in_format_fault(fmt: InFormat) -> Option<FormatError> {
    if zero_byte_count(fmt.item_separator) {
        Some(FormatError::ZeroByteCount)
    } else if zero_line_length(fmt.line_separator) {
        Some(FormatError::ZeroItemsPerLine)
    } else {
        None
    }
}

/// The first fault of an output format, if it has one.
pub open spec fn out_format_fault(fmt: OutFormat) -> Option<FormatError> {
    if zero_span(fmt.span) {
        Some(FormatError::ZeroSpan)
    } else if zero_line_length(fmt.line_separator) {
        Some(FormatError::ZeroItemsPerLine)
    } else {
        None
    }
}

impl InFormat {
    pub open spec fn wf(&self) -> bool {
        in_format_fault(*self) is None
    }

    /// Checks that items have at least one byte and lines at least one item.
    pub fn validate(&self) -> (r: Result<(), FormatError>)
        ensures
            r == (match in_format_fault(*self) {
                None => Ok(()),
                Some(e) => Err(e),
            }),
    {
        if let ItemSeparator::ByteCount(n) = &self.item_separator {
            if *n == 0 {
                return Err(FormatError::ZeroByteCount);
            }
        }
        if let Some(ls) = &self.line_separator {
            if ls.items_per_line == 0 {
                return Err(FormatError::ZeroItemsPerLine);
            }
        }
        Ok(())
    }
}

impl OutFormat {
    pub open spec fn wf(&self) -> bool {
        out_format_fault(*self) is None
    }

    /// Checks that fields have at least one character and lines at least one item.
    pub fn validate(&self) -> (r: Result<(), FormatError>)
        ensures
            r == (match out_format_fault(*self) {
                None => Ok(()),
                Some(e) => Err(e),
            }),
    {
        if let Some(sp) = &self.span {
            if sp.span == 0 {
                return Err(FormatError::ZeroSpan);
            }
        }
        if let Some(ls) = &self.line_separator {
            if ls.items_per_line == 0 {
                return Err(FormatError::ZeroItemsPerLine);
            }
        }
        Ok(())
    }
}


/// Builds an input format; a field not set takes its default: a comma as the
/// item separator, and no lines.
pub struct InFormatBuilder {
    pub item_separator: Option<ItemSeparator>,
    pub line_separator: Option<Option<LineSeparator>>,
}

impl Default for InFormatBuilder {
    fn default() -> (r: Self)
        ensures
            r.item_separator is None,
            r.line_separator is None,
    {
        InFormatBuilder { item_separator: None, line_separator: None }
    }
}

impl InFormatBuilder {
    pub fn item_separator(self, value: ItemSeparator) -> (r: Self)
        ensures
            r.item_separator == Some(value),
            r.line_separator == self.line_separator,
    {
        InFormatBuilder { item_separator: Some(value), ..self }
    }

    pub fn line_separator(self, value: Option<LineSeparator>) -> (r: Self)
        ensures
            r.item_separator == self.item_separator,
            r.line_separator == Some(value),
    {
        InFormatBuilder { line_separator: Some(value), ..self }
    }

    /// The format, or the first fault that it would have.
    pub fn build(self) -> (r: Result<InFormat, FormatError>)
        ensures
            match r {
                Ok(f) => {
                    &&& f.wf()
                    &&& match self.item_separator {
                        Some(sep) => f.item_separator == sep,
                        None => f.item_separator matches ItemSeparator::Explicit(s) && s@ == seq![','],
                    }
                    &&& f.line_separator == self.line_separator.unwrap_or(None)
                },
                Err(e) => e == if self.item_separator matches Some(sep) && zero_byte_count(sep) {
                    FormatError::ZeroByteCount
                } else {
                    FormatError::ZeroItemsPerLine
                },
            },
            r is Err <==> (self.item_separator matches Some(sep) && zero_byte_count(sep))
                || zero_line_length(self.line_separator.unwrap_or(None)),
    {
        let item_separator = match self.item_separator {
            Some(sep) => sep,
            None => ItemSeparator::default(),
        };
        let line_separator = match self.line_separator {
            Some(ls) => ls,
            None => None,
        };
        let fmt = InFormat { item_separator, line_separator };
        match fmt.validate() {
            Ok(()) => Ok(fmt),
            Err(e) => Err(e),
        }
    }
}

/// Builds an output format; a field not set takes its default: no padding, a
/// space as the item separator, and no lines.
pub struct OutFormatBuilder {
    pub span: Option<Option<ItemSpan>>,
    pub item_separator: Option<String>,
    pub line_separator: Option<Option<LineSeparator>>,
}

impl Default for OutFormatBuilder {
    fn default() -> (r: Self)
        ensures
            r.span is None,
            r.item_separator is None,
            r.line_separator is None,
    {
        OutFormatBuilder { span: None, item_separator: None, line_separator: None }
    }
}

impl OutFormatBuilder {
    pub fn span(self, value: Option<ItemSpan>) -> (r: Self)
        ensures
            r.span == Some(value),
            r.item_separator == self.item_separator,
            r.line_separator == self.line_separator,
    {
        OutFormatBuilder { span: Some(value), ..self }
    }

    pub fn item_separator(self, value: String) -> (r: Self)
        ensures
            r.span == self.span,
            r.item_separator == Some(value),
            r.line_separator == self.line_separator,
    {
        OutFormatBuilder { item_separator: Some(value), ..self }
    }

    pub fn line_separator(self, value: Option<LineSeparator>) -> (r: Self)
        ensures
            r.span == self.span,
            r.item_separator == self.item_separator,
            r.line_separator == Some(value),
    {
        OutFormatBuilder { line_separator: Some(value), ..self }
    }

    /// The format, or the first fault that it would have.
    pub fn build(self) -> (r: Result<OutFormat, FormatError>)
        ensures
            match r {
                Ok(f) => {
                    &&& f.wf()
                    &&& f.span == self.span.unwrap_or(None)
                    &&& match self.item_separator {
                        Some(sep) => f.item_separator == sep,
                        None => f.item_separator@ == seq![' '],
                    }
                    &&& f.line_separator == self.line_separator.unwrap_or(None)
                },
                Err(e) => e == if zero_span(self.span.unwrap_or(None)) {
                    FormatError::ZeroSpan
                } else {
                    FormatError::ZeroItemsPerLine
                },
            },
            r is Err <==> zero_span(self.span.unwrap_or(None)) || zero_line_length(
                self.line_separator.unwrap_or(None),
            ),
    {
        let span = match self.span {
            Some(sp) => sp,
            None => None,
        };
        let item_separator = match self.item_separator {
            Some(sep) => sep,
            None => {
                proof {
                    reveal_strlit(" ");
                }
                String::from_str(" ")
            },
        };
        let line_separator = match self.line_separator {
            Some(ls) => ls,
            None => None,
        };
        let fmt = OutFormat { span, item_separator, line_separator };
        match fmt.validate() {
            Ok(()) => Ok(fmt),
            Err(e) => Err(e),
        }
    }
}

} // verus!
