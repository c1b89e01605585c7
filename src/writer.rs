//! Laying items out: separators between them, padding of short items, and
//! grouping into lines.

use vstd::prelude::*;

use crate::format::{Anchor, ItemSpan, OutFormat};

verus! {

/// `n` copies of `c`.
pub open spec fn repeat(c: char, n: nat) -> Seq<char> {
    Seq::new(n, |_i: int| c)
}

/// An item as it stands in the output: an item shorter than the span is padded up
/// to it, on the side that the anchor leaves free; any other item stands as it is.
pub open spec fn padded(item: Seq<char>, span: Option<ItemSpan>) -> Seq<char> {
    match span {
        Some(sp) => if item.len() < sp.span {
            let pad = repeat(sp.pad, (sp.span - item.len()) as nat);
            match sp.anchor {
                Anchor::Left => item + pad,
                Anchor::Right => pad + item,
            }
        } else {
            item
        },
        None => item,
    }
}

/// How many items the current line holds after `m` items were written.
pub open spec fn line_count_after(fmt: OutFormat, m: nat) -> nat
    decreases m,
{
    if m == 0 {
        0
    } else {
        let c = line_count_after(fmt, (m - 1) as nat);
        match fmt.line_separator {
            Some(ls) => if c + 1 < ls.items_per_line {
                (c + 1) as nat
            } else {
                0
            },
            None => 0,
        }
    }
}

/// Whether the item that follows `m` items starts a new line.
pub open spec fn starts_line(fmt: OutFormat, m: nat) -> bool {
    m > 0 && fmt.line_separator is Some && line_count_after(fmt, m) == 0
}

/// The text written before the item that follows `m` items: nothing before the
/// first item, the line separator where a line ends, the item separator elsewhere.
pub open spec fn separator_before(fmt: OutFormat, m: nat) -> Seq<char> {
    if m == 0 {
        seq![]
    } else if starts_line(fmt, m) {
        fmt.line_separator->0.line_separator@
    } else {
        fmt.item_separator@
    }
}

/// The output for `items`, written one after another.
pub open spec fn layout(items: Seq<Seq<char>>, fmt: OutFormat) -> Seq<char>
    decreases items.len(),
{
    if items.len() == 0 {
        seq![]
    } else {
        layout(items.drop_last(), fmt) + separator_before(fmt, (items.len() - 1) as nat) + padded(
            items.last(),
            fmt.span,
        )
    }
}

/// Relies on `String::push`: appends the one character at the end.
#[verifier::external_body]
fn push_char(s: &mut String, c: char)
    ensures
        final(s)@ == old(s)@.push(c),
{
    s.push(c);
}

enum EmittingSeparator {
    Nothing,
    Item,
    Line,
}

/// Writes items one at a time, keeping track of the separator due before the next.
pub struct ItemWriter {
    separator: EmittingSeparator,
    fmt: OutFormat,
    items_in_line: usize,
    written: Ghost<nat>,
}

proof fn lemma_line_count_bound(fmt: OutFormat, m: nat)
    ensures
        match fmt.line_separator {
            Some(ls) => ls.items_per_line == 0 ==> line_count_after(fmt, m) == 0,
            None => line_count_after(fmt, m) == 0,
        },
        fmt.line_separator matches Some(ls) ==> (ls.items_per_line > 0 ==> line_count_after(fmt, m)
            < ls.items_per_line),
    decreases m,
{
    if m > 0 {
        lemma_line_count_bound(fmt, (m - 1) as nat);
    }
}

impl ItemWriter {
    pub closed spec fn format(&self) -> OutFormat {
        self.fmt
    }

    /// How many items have been written.
    pub closed spec fn count(&self) -> nat {
        self.written@
    }

    pub closed spec fn wf(&self) -> bool {
        &&& self.items_in_line == line_count_after(self.fmt, self.written@)
        &&& match self.separator {
            EmittingSeparator::Nothing => self.written@ == 0,
            EmittingSeparator::Line => self.written@ > 0 && starts_line(self.fmt, self.written@),
            EmittingSeparator::Item => self.written@ > 0 && !starts_line(self.fmt, self.written@),
        }
    }

    pub fn new(fmt: OutFormat) -> (r: Self)
        ensures
            r.wf(),
            r.format() == fmt,
            r.count() == 0,
    {
        ItemWriter {
            separator: EmittingSeparator::Nothing,
            fmt,
            items_in_line: 0,
            written: Ghost(0),
        }
    }

    /// Appends the separator due before `item`, then `item`, padded where it is
    /// shorter than the span.
    pub fn write(&mut self, item: &str, out: &mut String)
        requires
            old(self).wf(),
        ensures
            final(self).wf(),
            final(self).format() == old(self).format(),
            final(self).count() == old(self).count() + 1,
            final(out)@ == old(out)@ + separator_before(old(self).format(), old(self).count())
                + padded(item@, old(self).format().span),
    {
        let ghost start = out@;
        let ghost m = self.written@;
        proof {
            lemma_line_count_bound(self.fmt, m);
            lemma_line_count_bound(self.fmt, m + 1);
        }
        // the separator due from the previous item
        match self.separator {
            EmittingSeparator::Nothing => {},
            EmittingSeparator::Item => {
                out.append(self.fmt.item_separator.as_str());
            },
            EmittingSeparator::Line => {
                if let Some(ls) = &self.fmt.line_separator {
                    out.append(ls.line_separator.as_str());
                }
            },
        }
        assert(out@ == start + separator_before(self.fmt, m));
        let ghost with_separator = out@;
        // the item, padded where it is short
        let input_chars = item.unicode_len();
        let mut done = false;
        if let Some(span) = &self.fmt.span {
            if input_chars < span.span {
                let pad_count = span.span - input_chars;
                let mut pad = String::new();
                let mut i: usize = 0;
                while i < pad_count
                    invariant
                        i <= pad_count,
                        pad@ =~= repeat(span.pad, i as nat),
                    decreases pad_count - i,
                {
                    push_char(&mut pad, span.pad);
                    i += 1;
                }
                match span.anchor {
                    Anchor::Left => {
                        out.append(item);
                        out.append(pad.as_str());
                        assert(out@ =~= with_separator + (item@ + pad@));
                    },
                    Anchor::Right => {
                        out.append(pad.as_str());
                        out.append(item);
                        assert(out@ =~= with_separator + (pad@ + item@));
                    },
                }
                done = true;
            }
        }
        if !done {
            out.append(item);
        }
        // the separator due before the next item
        match &self.fmt.line_separator {
            Some(ls) => {
                if self.items_in_line + 1 < ls.items_per_line {
                    self.separator = EmittingSeparator::Item;
                    self.items_in_line = self.items_in_line + 1;
                } else {
                    self.separator = EmittingSeparator::Line;
                    self.items_in_line = 0;
                }
            },
            None => {
                self.separator = EmittingSeparator::Item;
                self.items_in_line = 0;
            },
        }
        self.written = Ghost(m + 1);
    }
}

/// Padding to a span at least as wide as every item gives every item exactly the
/// width of the span.
pub proof fn lemma_padding_fills_span(items: Seq<Seq<char>>, span: ItemSpan)
    requires
        forall|j: int| 0 <= j < items.len() ==> (#[trigger] items[j]).len() <= span.span,
    ensures
        forall|j: int|
            0 <= j < items.len() ==> (#[trigger] padded(items[j], Some(span))).len() == span.span,
{
}

proof fn lemma_line_count_modulo(fmt: OutFormat, m: nat)
    requires
        fmt.line_separator is Some,
        fmt.line_separator->0.items_per_line > 0,
    ensures
        line_count_after(fmt, m) == m % (fmt.line_separator->0.items_per_line as nat),
    decreases m,
{
    let k = fmt.line_separator->0.items_per_line as int;
    if m == 0 {
        assert(0int % k == 0) by (nonlinear_arith)
            requires
                k > 0,
        ;
    } else {
        lemma_line_count_modulo(fmt, (m - 1) as nat);
        let mi = m as int;
        assert((mi - 1) % k + 1 < k ==> mi % k == (mi - 1) % k + 1) by (nonlinear_arith)
            requires
                k > 0,
                mi > 0,
        ;
        assert((mi - 1) % k + 1 >= k ==> mi % k == 0) by (nonlinear_arith)
            requires
                k > 0,
                mi > 0,
        ;
        let c = line_count_after(fmt, (m - 1) as nat);
        assert(c == (mi - 1) % k);
        if c + 1 < k {
            assert(line_count_after(fmt, m) == c + 1);
        } else {
            assert(line_count_after(fmt, m) == 0);
        }
    }
}

/// With `k` items per line, the line separator follows every `k`-th item and the
/// item separator follows every other item.
pub proof fn lemma_line_breaks(fmt: OutFormat, m: nat)
    requires
        fmt.line_separator is Some,
        fmt.line_separator->0.items_per_line > 0,
        m > 0,
    ensures
        separator_before(fmt, m) == if m % (fmt.line_separator->0.items_per_line as nat) == 0 {
            fmt.line_separator->0.line_separator@
        } else {
            fmt.item_separator@
        },
{
    lemma_line_count_modulo(fmt, m);
}

} // verus!
