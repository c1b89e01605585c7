//! Cutting an input text into items.
//!
//! The model works on the UTF-8 bytes of the input (`spec_bytes`): an item is a
//! run of those bytes, and the reader hands it out as a `&str` whose bytes are
//! exactly that run.

use vstd::prelude::*;
use vstd::string::*;
use vstd::utf8::*;

use crate::format::{in_format_fault, FormatError, InFormat, ItemSeparator};
use crate::text::{lemma_first_byte_not_continuation, lemma_valid_prefix_ends_on_boundary};

verus! {

/// The first position at or after `i` where `needle` occurs in `hay`.
pub open spec fn find_from(hay: Seq<u8>, needle: Seq<u8>, i: int) -> Option<int>
    decreases hay.len() + 1 - i,
{
    if i < 0 || i + needle.len() > hay.len() {
        None
    } else if hay.subrange(i, i + needle.len()) == needle {
        Some(i)
    } else {
        find_from(hay, needle, i + 1)
    }
}

/// Where the next item ends and where the rest of the input begins, when `rest`
/// is cut by `sep`; `None` where no item comes, and the reader stops.
///
/// An explicit delimiter cuts at its first occurrence, or takes the whole rest
/// where it does not occur; a delimiter at the very start would give an empty
/// item, which ends the items instead. A byte count takes that many bytes, and
/// a shorter rest is dropped.
pub open spec fn cut(rest: Seq<u8>, sep: ItemSeparator) -> Option<(int, int)> {
    if rest.len() == 0 {
        None
    } else {
        match sep {
            ItemSeparator::Explicit(d) => match find_from(rest, encode_utf8(d@), 0) {
                None => Some((rest.len() as int, rest.len() as int)),
                Some(i) => if i == 0 {
                    None
                } else {
                    Some((i, i + encode_utf8(d@).len()))
                },
            },
            ItemSeparator::ByteCount(n) => if rest.len() >= n {
                Some((n as int, n as int))
            } else {
                None
            },
        }
    }
}

/// Whether the step taken after `count` items of the current line closes the line.
pub open spec fn closes_line(fmt: InFormat, count: nat) -> bool {
    fmt.line_separator matches Some(ls) && count == ls.items_per_line - 1
}

/// The separator that ends the item read after `count` items of the current line.
pub open spec fn step_separator(fmt: InFormat, count: nat) -> ItemSeparator {
    if closes_line(fmt, count) {
        ItemSeparator::Explicit(fmt.line_separator->0.line_separator)
    } else {
        fmt.item_separator
    }
}

/// The count of items in the current line after one more step.
pub open spec fn step_count(fmt: InFormat, count: nat) -> nat {
    if closes_line(fmt, count) {
        0
    } else if fmt.line_separator is Some {
        count + 1
    } else {
        count
    }
}

/// The items that `rest` still holds, read with `fmt` after `count` items of the
/// current line. A cut that would not move forward (a byte count of zero) ends
/// the items.
pub open spec fn tokens(rest: Seq<u8>, fmt: InFormat, count: nat) -> Seq<Seq<u8>>
    decreases rest.len(),
    via tokens_decreases
{
    match cut(rest, step_separator(fmt, count)) {
        None => seq![],
        Some((e, s)) => if 0 < s <= rest.len() {
            seq![rest.subrange(0, e)] + tokens(
                rest.subrange(s, rest.len() as int),
                fmt,
                step_count(fmt, count),
            )
        } else {
            seq![]
        },
    }
}

/// Whether every item is UTF-8 text by itself: no byte count splits a character.
pub open spec fn all_text(items: Seq<Seq<u8>>) -> bool {
    forall|j: int| 0 <= j < items.len() ==> valid_utf8(#[trigger] items[j])
}

/// The items of a whole input.
pub open spec fn items_of(input: Seq<char>, fmt: InFormat) -> Seq<Seq<u8>> {
    tokens(encode_utf8(input), fmt, 0)
}

/// Why a whole input could not be read.
#[derive(Clone, Copy, Debug, PartialEq, Eq)]
pub enum ReadError {
    /// The input format is refused.
    Format(FormatError),
    /// A byte count would cut a character in two.
    SplitInsideChar,
}

#[via_fn]
proof fn tokens_decreases(rest: Seq<u8>, fmt: InFormat, count: nat) {
    if let Some((e, s)) = cut(rest, step_separator(fmt, count)) {
        if 0 < s <= rest.len() {
            assert(rest.subrange(s, rest.len() as int).len() < rest.len());
        }
    }
}

pub(crate) proof fn lemma_find_from_found(hay: Seq<u8>, needle: Seq<u8>, k: int)
    requires
        find_from(hay, needle, k) is Some,
    ensures
        ({
            let i = find_from(hay, needle, k)->0;
            &&& 0 <= k <= i
            &&& i + needle.len() <= hay.len()
            &&& hay.subrange(i, i + needle.len()) == needle
        }),
    decreases hay.len() + 1 - k,
{
    if !(k < 0 || k + needle.len() > hay.len()) && hay.subrange(k, k + needle.len()) != needle {
        lemma_find_from_found(hay, needle, k + 1);
    }
}

/// Where an explicit delimiter occurs in valid UTF-8 text, away from its start, both
/// ends of the occurrence are character boundaries.
pub(crate) proof fn lemma_delimiter_on_boundaries(b: Seq<u8>, d: Seq<u8>, i: int)
    requires
        valid_utf8(b),
        valid_utf8(d),
        find_from(b, d, 0) == Some(i),
        i > 0,
    ensures
        d.len() > 0,
        i + d.len() <= b.len(),
        b.subrange(i, i + d.len()) == d,
        is_char_boundary(b, i),
        valid_utf8(b.subrange(0, i)),
        valid_utf8(b.subrange(i, b.len() as int)),
        is_char_boundary(b.subrange(i, b.len() as int), d.len() as int),
{
    lemma_find_from_found(b, d, 0);
    if d.len() == 0 {
        assert(b.subrange(0, 0) =~= d);
    }
    assert(b[i] == d[0]) by {
        assert(b.subrange(i, i + d.len())[0] == b[i]);
    }
    lemma_first_byte_not_continuation(d);
    is_char_boundary_iff_not_is_continuation_byte(b, i);
    valid_utf8_split(b, i);
    let tail = b.subrange(i, b.len() as int);
    assert(tail.subrange(0, d.len() as int) =~= d);
    lemma_valid_prefix_ends_on_boundary(tail, d.len() as int);
}

/// A cut by a valid separator moves forward and stays within the input.
proof fn lemma_cut_progress(rest: Seq<u8>, sep: ItemSeparator)
    requires
        sep.wf(),
        cut(rest, sep) is Some,
    ensures
        ({
            let (e, s) = cut(rest, sep)->0;
            0 < e <= s <= rest.len()
        }),
{
    if let ItemSeparator::Explicit(d) = sep {
        if let Some(i) = find_from(rest, encode_utf8(d@), 0) {
            lemma_find_from_found(rest, encode_utf8(d@), 0);
        }
    }
}

/// One step of `tokens`, unfolded.
pub(crate) proof fn lemma_tokens_step(rest: Seq<u8>, fmt: InFormat, count: nat)
    requires
        fmt.wf(),
    ensures
        ({
            let sep = step_separator(fmt, count);
            match cut(rest, sep) {
                None => tokens(rest, fmt, count) == Seq::<Seq<u8>>::empty(),
                Some((e, s)) => tokens(rest, fmt, count) == seq![rest.subrange(0, e)] + tokens(
                    rest.subrange(s, rest.len() as int),
                    fmt,
                    step_count(fmt, count),
                ),
            }
        }),
{
    let sep = step_separator(fmt, count);
    assert(sep.wf());
    if cut(rest, sep) is Some {
        lemma_cut_progress(rest, sep);
    }
}

/// The first position where `needle` occurs in `hay`.
pub(crate) fn find(hay: &[u8], needle: &[u8]) -> (r: Option<usize>)
    ensures
        match r {
            Some(i) => find_from(hay@, needle@, 0) == Some(i as int),
            None => find_from(hay@, needle@, 0) is None,
        },
{
    if needle.len() == 0 {
        assert(hay@.subrange(0, 0) =~= needle@);
        return Some(0);
    }
    if needle.len() > hay.len() {
        return None;
    }
    let hay_len = hay.len();
    let last = hay_len - needle.len();
    let mut i: usize = 0;
    while i <= last
        invariant
            hay_len == hay@.len(),
            i <= last + 1,
            last + needle@.len() == hay@.len(),
            needle@.len() > 0,
            find_from(hay@, needle@, 0) == find_from(hay@, needle@, i as int),
        decreases last + 1 - i,
    {
        let mut j: usize = 0;
        let mut same = true;
        while j < needle.len() && same
            invariant
                hay_len == hay@.len(),
                i <= last,
                last + needle@.len() == hay@.len(),
                j <= needle@.len(),
                same ==> hay@.subrange(i as int, i + j) =~= needle@.subrange(0, j as int),
                !same ==> hay@.subrange(i as int, i + needle@.len()) != needle@,
            decreases needle@.len() - j + (if same { 1int } else { 0int }),
        {
            if hay[i + j] != needle[j] {
                assert(hay@.subrange(i as int, i + needle@.len())[j as int] != needle@[j as int]);
                same = false;
            } else {
                j += 1;
            }
        }
        if same {
            assert(needle@.subrange(0, needle@.len() as int) =~= needle@);
            return Some(i);
        }
        i += 1;
    }
    None
}

/// Cuts an input text into items, one at a time.
pub struct ItemReader<'i> {
    input: &'i str,
    fmt: InFormat,
    items_in_current_line: usize,
}

fn duplicate(sep: &ItemSeparator) -> (r: ItemSeparator)
    ensures
        r == *sep,
{
    match sep {
        ItemSeparator::Explicit(s) => ItemSeparator::Explicit(s.clone()),
        ItemSeparator::ByteCount(n) => ItemSeparator::ByteCount(*n),
    }
}

impl<'i> ItemReader<'i> {
    /// The bytes not read yet.
    pub closed spec fn rest(&self) -> Seq<u8> {
        self.input.spec_bytes()
    }

    pub closed spec fn format(&self) -> InFormat {
        self.fmt
    }

    /// How many items of the current line have been read.
    pub closed spec fn line_count(&self) -> nat {
        self.items_in_current_line as nat
    }

    pub closed spec fn wf(&self) -> bool {
        &&& self.fmt.wf()
        &&& match self.fmt.line_separator {
            Some(ls) => self.items_in_current_line < ls.items_per_line,
            None => self.items_in_current_line == 0,
        }
    }

    /// The items still to come.
    pub open spec fn pending(&self) -> Seq<Seq<u8>> {
        tokens(self.rest(), self.format(), self.line_count())
    }

    /// Whether the next item, if any, is UTF-8 text by itself.
    pub open spec fn next_is_valid_text(&self) -> bool {
        self.pending().len() > 0 ==> valid_utf8(self.pending()[0])
    }

    pub fn new(input: &'i str, fmt: InFormat) -> (r: Self)
        ensures
            r.rest() == input.spec_bytes(),
            r.format() == fmt,
            r.line_count() == 0,
            r.wf() == fmt.wf(),
    {
        ItemReader { input, fmt, items_in_current_line: 0 }
    }

    /// Cuts the next item off the input with `separator`. An empty item is not
    /// handed out: it ends the items, and the rest of the input is dropped.
    pub fn next_item(&mut self, separator: ItemSeparator) -> (r: Option<&'i str>)
        requires
            separator matches ItemSeparator::ByteCount(n) ==> (old(self).rest().len() >= n
                ==> is_char_boundary(old(self).rest(), n as int)),
        ensures
            final(self).format() == old(self).format(),
            final(self).line_count() == old(self).line_count(),
            final(self).wf() == old(self).wf(),
            match cut(old(self).rest(), separator) {
                Some((e, s)) => {
                    &&& r matches Some(x)
                    &&& x.spec_bytes() == old(self).rest().subrange(0, e)
                    &&& final(self).rest() == old(self).rest().subrange(s, old(self).rest().len() as int)
                },
                None => r is None && final(self).rest().len() == 0,
            },
    {
        proof {
            reveal_strlit("");
            assert("".spec_bytes() =~= Seq::<u8>::empty());
            encode_utf8_valid_utf8(self.input@);
        }
        let ghost b = self.input.spec_bytes();
        let bytes = self.input.as_bytes();
        let len = bytes.len();
        if len == 0 {
            return None;
        }
        match &separator {
            ItemSeparator::Explicit(sep) => {
                let needle = sep.as_str().as_bytes();
                assert(needle@ == encode_utf8(sep@));
                match find(bytes, needle) {
                    None => {
                        let last = self.input;
                        self.input = "";
                        Some(last)
                    },
                    Some(i) => {
                        if i == 0 {
                            self.input = "";
                            None
                        } else {
                            proof {
                                encode_utf8_valid_utf8(sep@);
                                lemma_delimiter_on_boundaries(b, needle@, i as int);
                            }
                            let (item, tail) = self.input.split_at(i);
                            let (_, rest) = tail.split_at(needle.len());
                            proof {
                                assert(rest.spec_bytes() =~= b.subrange(
                                    i + needle@.len(),
                                    b.len() as int,
                                ));
                            }
                            self.input = rest;
                            Some(item)
                        }
                    },
                }
            },
            ItemSeparator::ByteCount(count) => {
                if len >= *count {
                    let (item, rest) = self.input.split_at(*count);
                    self.input = rest;
                    Some(item)
                } else {
                    self.input = "";
                    None
                }
            },
        }
    }
}


impl<'i> ItemReader<'i> {
    /// Whether the next item, read as `next` would read it, is UTF-8 text by itself.
    pub fn next_is_text(&self) -> (r: bool)
        requires
            self.wf(),
        ensures
            r == self.next_is_valid_text(),
    {
        proof {
            encode_utf8_valid_utf8(self.input@);
            lemma_tokens_step(self.rest(), self.fmt, self.line_count());
        }
        let ghost b = self.rest();
        let closing = match &self.fmt.line_separator {
            Some(ls) => self.items_in_current_line == ls.items_per_line - 1,
            None => false,
        };
        if closing {
            proof {
                self.lemma_explicit_step_is_text();
            }
            return true;
        }
        match &self.fmt.item_separator {
            ItemSeparator::Explicit(_) => {
                proof {
                    self.lemma_explicit_step_is_text();
                }
                true
            },
            ItemSeparator::ByteCount(n) => {
                let bytes = self.input.as_bytes();
                if bytes.len() >= *n {
                    proof {
                        if is_char_boundary(b, *n as int) {
                            valid_utf8_split(b, *n as int);
                        } else if valid_utf8(b.subrange(0, *n as int)) {
                            lemma_valid_prefix_ends_on_boundary(b, *n as int);
                        }
                    }
                    self.input.is_char_boundary(*n)
                } else {
                    true
                }
            },
        }
    }

    proof fn lemma_explicit_step_is_text(&self)
        requires
            self.wf(),
            step_separator(self.fmt, self.line_count()) is Explicit,
        ensures
            self.next_is_valid_text(),
    {
        let b = self.rest();
        let sep = step_separator(self.fmt, self.line_count());
        let d = sep->Explicit_0;
        encode_utf8_valid_utf8(self.input@);
        encode_utf8_valid_utf8(d@);
        lemma_tokens_step(b, self.fmt, self.line_count());
        if b.len() > 0 {
            match find_from(b, encode_utf8(d@), 0) {
                None => {
                    assert(cut(b, sep) == Some((b.len() as int, b.len() as int)));
                    assert(b.subrange(0, b.len() as int) =~= b);
                    assert(self.pending()[0] == b);
                },
                Some(i) => {
                    if i > 0 {
                        lemma_delimiter_on_boundaries(b, encode_utf8(d@), i);
                        assert(self.pending()[0] == b.subrange(0, i));
                    } else {
                        lemma_find_from_found(b, encode_utf8(d@), 0);
                    }
                },
            }
        }
    }

    /// Reads the next item. After every `items_per_line - 1` items of a line the
    /// line separator ends the item; elsewhere the item separator does.
    pub fn next(&mut self) -> (r: Option<&'i str>)
        requires
            old(self).wf(),
            old(self).next_is_valid_text(),
        ensures
            final(self).wf(),
            final(self).format() == old(self).format(),
            match r {
                Some(x) => {
                    &&& old(self).pending().len() > 0
                    &&& x.spec_bytes() == old(self).pending()[0]
                    &&& final(self).pending() == old(self).pending().drop_first()
                },
                None => old(self).pending().len() == 0 && final(self).pending().len() == 0,
            },
    {
        let ghost b = self.rest();
        let ghost count = self.line_count();
        let ghost fmt = self.fmt;
        proof {
            encode_utf8_valid_utf8(self.input@);
            lemma_tokens_step(b, fmt, count);
        }
        let separator = match &self.fmt.line_separator {
            Some(ls) => {
                if self.items_in_current_line == ls.items_per_line - 1 {
                    self.items_in_current_line = 0;
                    ItemSeparator::Explicit(ls.line_separator.clone())
                } else {
                    self.items_in_current_line += 1;
                    duplicate(&self.fmt.item_separator)
                }
            },
            None => duplicate(&self.fmt.item_separator),
        };
        assert(separator == step_separator(fmt, count));
        assert(self.line_count() == step_count(fmt, count));
        proof {
            if let ItemSeparator::ByteCount(n) = separator {
                if b.len() >= n {
                    lemma_valid_prefix_ends_on_boundary(b, n as int);
                }
            }
        }
        let r = self.next_item(separator);
        proof {
            if r is None {
                lemma_tokens_step(self.rest(), fmt, self.line_count());
            }
        }
        r
    }
}

/// Starts reading `input` item by item.
pub fn read<'i>(input: &'i str, format: InFormat) -> (r: ItemReader<'i>)
    ensures
        r.pending() == items_of(input@, format),
        r.format() == format,
        r.wf() == format.wf(),
{
    ItemReader::new(input, format)
}

/// Reads all items of `input`, or says why they cannot be read: the format is
/// refused, or a byte count would cut a character in two.
pub fn read_all<'i>(input: &'i str, format: InFormat) -> (r: Result<Vec<&'i str>, ReadError>)
    ensures
        match r {
            Ok(items) => {
                &&& format.wf()
                &&& all_text(items_of(input@, format))
                &&& items@.len() == items_of(input@, format).len()
                &&& forall|j: int|
                    0 <= j < items@.len() ==> (#[trigger] items@[j]).spec_bytes() == items_of(
                        input@,
                        format,
                    )[j]
            },
            Err(ReadError::Format(e)) => in_format_fault(format) == Some(e),
            Err(ReadError::SplitInsideChar) => format.wf() && !all_text(
                items_of(input@, format),
            ),
        },
{
    if let Err(e) = format.validate() {
        return Err(ReadError::Format(e));
    }
    let ghost all = items_of(input@, format);
    let mut reader = ItemReader::new(input, format);
    let mut items: Vec<&'i str> = Vec::new();
    loop
        invariant
            format.wf(),
            reader.wf(),
            reader.format() == format,
            all == items_of(input@, format),
            items@.len() + reader.pending().len() == all.len(),
            reader.pending() == all.subrange(items@.len() as int, all.len() as int),
            forall|j: int| 0 <= j < items@.len() ==> (#[trigger] items@[j]).spec_bytes() == all[j],
            forall|j: int| 0 <= j < items@.len() ==> valid_utf8(#[trigger] all[j]),
        ensures
            format.wf(),
            items@.len() == all.len(),
            forall|j: int| 0 <= j < items@.len() ==> (#[trigger] items@[j]).spec_bytes() == all[j],
            all_text(all),
        decreases reader.pending().len(),
    {
        if !reader.next_is_text() {
            assert(!valid_utf8(all[items@.len() as int]));
            return Err(ReadError::SplitInsideChar);
        }
        match reader.next() {
            Some(x) => {
                items.push(x);
                assert(reader.pending() =~= all.subrange(items@.len() as int, all.len() as int));
            },
            None => {
                break;
            },
        }
    }
    Ok(items)
}


proof fn lemma_byte_count_runs(b: Seq<u8>, fmt: InFormat, n: usize)
    requires
        fmt.item_separator == ItemSeparator::ByteCount(n),
        n > 0,
        fmt.line_separator is None,
    ensures
        tokens(b, fmt, 0).len() == b.len() / (n as nat),
        forall|j: int|
            0 <= j < b.len() / (n as nat) ==> #[trigger] tokens(b, fmt, 0)[j] == b.subrange(j * n, j * n + n),
    decreases b.len(),
{
    assert(fmt.wf());
    lemma_tokens_step(b, fmt, 0);
    if b.len() < n {
        assert(b.len() / (n as nat) == 0) by (nonlinear_arith)
            requires
                0 <= b.len() < n,
        ;
    } else {
        let rest = b.subrange(n as int, b.len() as int);
        lemma_byte_count_runs(rest, fmt, n);
        let t = tokens(b, fmt, 0);
        let tr = tokens(rest, fmt, 0);
        assert(t == seq![b.subrange(0, n as int)] + tr);
        let len = b.len() as int;
        let ni = n as int;
        let rl = rest.len() as int;
        assert(rl / ni == len / ni - 1) by (nonlinear_arith)
            requires
                rl == len - ni,
                ni > 0,
                len >= ni,
        ;
        assert forall|j: int| 0 <= j < b.len() / (n as nat) implies #[trigger] t[j] == b.subrange(
            j * n,
            j * n + n,
        ) by {
            if j == 0 {
                assert(t[0] == b.subrange(0, ni));
            } else {
                assert(t[j] == tr[j - 1]);
                assert((j - 1) * ni + ni == j * ni) by (nonlinear_arith);
                assert(0 <= (j - 1) * ni && (j - 1) * ni + ni <= rl) by (nonlinear_arith)
                    requires
                        0 <= j - 1 < rl / ni,
                        ni > 0,
                        rl >= 0,
                ;
                assert(tr[j - 1] == rest.subrange((j - 1) * ni, (j - 1) * ni + ni));
                assert(tr[j - 1] =~= b.subrange(j * ni, j * ni + ni));
            }
        }
    }
}

/// Cutting by a byte count `n`, without lines, an input whose length is a multiple
/// of `n` gives `length / n` items of exactly `n` bytes each.
pub proof fn lemma_byte_count_exact(input: Seq<char>, fmt: InFormat, n: usize)
    requires
        fmt.item_separator == ItemSeparator::ByteCount(n),
        n > 0,
        fmt.line_separator is None,
        encode_utf8(input).len() % (n as nat) == 0,
    ensures
        items_of(input, fmt).len() == encode_utf8(input).len() / (n as nat),
        forall|j: int|
            0 <= j < items_of(input, fmt).len() ==> (#[trigger] items_of(input, fmt)[j]).len()
                == n,
{
    let b = encode_utf8(input);
    lemma_byte_count_runs(b, fmt, n);
    assert forall|j: int| 0 <= j < items_of(input, fmt).len() implies (#[trigger] items_of(
        input,
        fmt,
    )[j]).len() == n by {
        let ni = n as int;
        let q = b.len() / (n as nat);
        assert(j * ni + ni <= b.len()) by (nonlinear_arith)
            requires
                0 <= j < q,
                q == b.len() as int / ni,
                ni > 0,
        ;
        assert(0 <= j * ni) by (nonlinear_arith)
            requires
                0 <= j,
                ni > 0,
        ;
    }
}

/// Cutting by a byte count `n`, without lines, an input whose length is not a
/// multiple of `n` gives `length / n` items, rounded down: the runs of `n` bytes
/// from the start, and the shorter rest is in none of them.
pub proof fn lemma_byte_count_drops_remainder(input: Seq<char>, fmt: InFormat, n: usize)
    requires
        fmt.item_separator == ItemSeparator::ByteCount(n),
        n > 0,
        fmt.line_separator is None,
        encode_utf8(input).len() % (n as nat) != 0,
    ensures
        items_of(input, fmt).len() == encode_utf8(input).len() / (n as nat),
        forall|j: int|
            0 <= j < items_of(input, fmt).len() ==> #[trigger] items_of(input, fmt)[j]
                == encode_utf8(input).subrange(j * n, j * n + n),
        items_of(input, fmt).len() * n < encode_utf8(input).len(),
{
    let b = encode_utf8(input);
    lemma_byte_count_runs(b, fmt, n);
    let ni = n as int;
    let len = b.len() as int;
    assert((len / ni) * ni < len) by (nonlinear_arith)
        requires
            len % ni != 0,
            ni > 0,
            len >= 0,
    ;
}

/// An empty input gives no items, whatever the format.
pub proof fn lemma_empty_input_no_items(fmt: InFormat)
    ensures
        items_of(Seq::<char>::empty(), fmt) == Seq::<Seq<u8>>::empty(),
{
    assert(encode_utf8(Seq::<char>::empty()) =~= Seq::<u8>::empty());
}

} // verus!
