//! Reading and writing together: items cut at a delimiter and joined with the
//! same delimiter give the input back.

use vstd::prelude::*;
use vstd::utf8::*;

use crate::format::{InFormat, ItemSeparator, OutFormat};
use crate::reader::{
    find_from, items_of, lemma_delimiter_on_boundaries, lemma_empty_input_no_items, lemma_find_from_found,
    lemma_tokens_step, tokens,
};
use crate::text::{lemma_encode_concat, lemma_encode_empty};
use crate::util::pieces;
use crate::writer::layout;

verus! {

/// `items` with `sep` between each two of them.
pub open spec fn join<A>(items: Seq<Seq<A>>, sep: Seq<A>) -> Seq<A>
    decreases items.len(),
{
    if items.len() == 0 {
        seq![]
    } else if items.len() == 1 {
        items[0]
    } else {
        join(items.drop_last(), sep) + sep + items.last()
    }
}

proof fn lemma_join_front<A>(x: Seq<A>, rest: Seq<Seq<A>>, sep: Seq<A>)
    ensures
        join(seq![x] + rest, sep) == if rest.len() == 0 {
            x
        } else {
            x + sep + join(rest, sep)
        },
    decreases rest.len(),
{
    let all = seq![x] + rest;
    if rest.len() == 0 {
        assert(all =~= seq![x]);
    } else if rest.len() == 1 {
        assert(all.drop_last() =~= seq![x]);
        assert(all.last() == rest[0]);
        assert(join(all.drop_last(), sep) == x);
        assert(join(rest, sep) == rest[0]);
    } else {
        assert(all.drop_last() =~= seq![x] + rest.drop_last());
        assert(all.last() == rest.last());
        lemma_join_front(x, rest.drop_last(), sep);
        assert(join(all, sep) =~= x + sep + join(rest, sep));
    }
}

/// Without padding and lines, the output is the items joined by the item separator.
proof fn lemma_layout_plain(items: Seq<Seq<char>>, fmt: OutFormat)
    requires
        fmt.span is None,
        fmt.line_separator is None,
    ensures
        layout(items, fmt) == join(items, fmt.item_separator@),
    decreases items.len(),
{
    if items.len() > 0 {
        lemma_layout_plain(items.drop_last(), fmt);
        if items.len() == 1 {
            assert(layout(items, fmt) =~= items[0]);
        }
    }
}

proof fn lemma_pieces_not_empty(hay: Seq<u8>, d: Seq<u8>)
    ensures
        pieces(hay, d).len() > 0,
{
}

/// Joining the pieces between the occurrences of a delimiter with that delimiter
/// gives the text back.
proof fn lemma_join_pieces(hay: Seq<u8>, d: Seq<u8>)
    requires
        d.len() > 0,
    ensures
        join(pieces(hay, d), d) == hay,
    decreases hay.len(),
{
    if let Some(i) = find_from(hay, d, 0) {
        lemma_find_from_found(hay, d, 0);
        let rest = hay.subrange(i + d.len(), hay.len() as int);
        lemma_join_pieces(rest, d);
        lemma_pieces_not_empty(rest, d);
        lemma_join_front(hay.subrange(0, i), pieces(rest, d), d);
        assert(hay.subrange(0, i) + d + rest =~= hay);
    }
}

/// Where no piece is empty, the reader's items are the pieces between the
/// occurrences of the delimiter, and each is UTF-8 text.
proof fn lemma_items_are_pieces(b: Seq<u8>, d: String, fmt: InFormat)
    requires
        fmt.item_separator == ItemSeparator::Explicit(d),
        fmt.line_separator is None,
        valid_utf8(b),
        b.len() > 0,
        encode_utf8(d@).len() > 0,
        forall|j: int|
            0 <= j < pieces(b, encode_utf8(d@)).len() ==> (#[trigger] pieces(
                b,
                encode_utf8(d@),
            )[j]).len() > 0,
    ensures
        tokens(b, fmt, 0) == pieces(b, encode_utf8(d@)),
        forall|j: int|
            0 <= j < tokens(b, fmt, 0).len() ==> valid_utf8(#[trigger] tokens(b, fmt, 0)[j]),
    decreases b.len(),
{
    let dn = encode_utf8(d@);
    encode_utf8_valid_utf8(d@);
    assert(fmt.wf());
    lemma_tokens_step(b, fmt, 0);
    match find_from(b, dn, 0) {
        None => {
            assert(b.subrange(0, b.len() as int) =~= b);
            assert(b.subrange(b.len() as int, b.len() as int) =~= Seq::<u8>::empty());
            assert(tokens(Seq::<u8>::empty(), fmt, 0) =~= Seq::<Seq<u8>>::empty());
            assert(tokens(b, fmt, 0) =~= seq![b]);
        },
        Some(i) => {
            lemma_find_from_found(b, dn, 0);
            assert(pieces(b, dn)[0] == b.subrange(0, i));
            assert(i > 0);
            lemma_delimiter_on_boundaries(b, dn, i);
            let tail = b.subrange(i, b.len() as int);
            let rest = b.subrange(i + dn.len(), b.len() as int);
            valid_utf8_split(tail, dn.len() as int);
            assert(tail.subrange(dn.len() as int, tail.len() as int) =~= rest);
            let pr = pieces(rest, dn);
            assert(pieces(b, dn) == seq![b.subrange(0, i)] + pr);
            assert forall|j: int| 0 <= j < pr.len() implies (#[trigger] pr[j]).len() > 0 by {
                assert(pr[j] == pieces(b, dn)[j + 1]);
            }
            if rest.len() == 0 {
                assert(pr[0] == rest);
            }
            lemma_items_are_pieces(rest, d, fmt);
            let t = tokens(b, fmt, 0);
            assert forall|j: int| 0 <= j < t.len() implies valid_utf8(#[trigger] t[j]) by {
                if j > 0 {
                    assert(t[j] == tokens(rest, fmt, 0)[j - 1]);
                }
            }
        },
    }
}

/// Decoding each item, joining the texts and encoding the result joins the items.
proof fn lemma_encode_join(p: Seq<Seq<u8>>, d: Seq<char>)
    requires
        forall|j: int| 0 <= j < p.len() ==> valid_utf8(#[trigger] p[j]),
    ensures
        encode_utf8(join(p.map_values(|t: Seq<u8>| decode_utf8(t)), d)) == join(p, encode_utf8(d)),
    decreases p.len(),
{
    let texts = p.map_values(|t: Seq<u8>| decode_utf8(t));
    if p.len() == 0 {
    } else if p.len() == 1 {
        decode_utf8_encode_utf8(p[0]);
    } else {
        let front = p.drop_last();
        assert(texts.drop_last() =~= front.map_values(|t: Seq<u8>| decode_utf8(t)));
        lemma_encode_join(front, d);
        decode_utf8_encode_utf8(p.last());
        let jf = join(texts.drop_last(), d);
        lemma_encode_concat(jf, d);
        lemma_encode_concat(jf + d, texts.last());
    }
}

/// Cutting a text at each occurrence of a delimiter `d` and joining the items with
/// `d`, without padding or lines, gives the text back, where `d` never stands at the
/// start or at the end of the text nor twice in a row: that is, where no item
/// between two occurrences is empty.
pub proof fn lemma_explicit_round_trip(
    input: Seq<char>,
    d: String,
    in_fmt: InFormat,
    out_fmt: OutFormat,
)
    requires
        in_fmt.item_separator == ItemSeparator::Explicit(d),
        in_fmt.line_separator is None,
        out_fmt.span is None,
        out_fmt.item_separator@ == d@,
        out_fmt.line_separator is None,
        input.len() > 0 ==> d@.len() > 0,
        forall|j: int|
            0 <= j < pieces(encode_utf8(input), encode_utf8(d@)).len() && input.len() > 0
                ==> (#[trigger] pieces(encode_utf8(input), encode_utf8(d@))[j]).len() > 0,
    ensures
        layout(items_of(input, in_fmt).map_values(|t: Seq<u8>| decode_utf8(t)), out_fmt) == input,
{
    let texts = items_of(input, in_fmt).map_values(|t: Seq<u8>| decode_utf8(t));
    if input.len() == 0 {
        lemma_empty_input_no_items(in_fmt);
        assert(texts =~= Seq::<Seq<char>>::empty());
    } else {
        let b = encode_utf8(input);
        let dn = encode_utf8(d@);
        lemma_encode_empty(d@);
        lemma_encode_empty(input);
        encode_utf8_valid_utf8(input);
        lemma_items_are_pieces(b, d, in_fmt);
        lemma_join_pieces(b, dn);
        lemma_encode_join(pieces(b, dn), d@);
        lemma_layout_plain(texts, out_fmt);
        let out = layout(texts, out_fmt);
        assert(encode_utf8(out) == b);
        encode_utf8_decode_utf8(out);
        encode_utf8_decode_utf8(input);
    }
}

/// An empty input gives no items and no output, whatever the formats.
pub proof fn lemma_empty_input(in_fmt: InFormat, out_fmt: OutFormat)
    ensures
        items_of(Seq::<char>::empty(), in_fmt) == Seq::<Seq<u8>>::empty(),
        layout(
            items_of(Seq::<char>::empty(), in_fmt).map_values(|t: Seq<u8>| decode_utf8(t)),
            out_fmt,
        ) == Seq::<char>::empty(),
{
    lemma_empty_input_no_items(in_fmt);
    assert(items_of(Seq::<char>::empty(), in_fmt).map_values(|t: Seq<u8>| decode_utf8(t))
        =~= Seq::<Seq<char>>::empty());
}

} // verus!
