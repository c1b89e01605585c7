//! Facts about UTF-8 text that cutting and joining items rely on.

use vstd::prelude::*;
use vstd::utf8::*;

verus! {

/// In valid UTF-8, a prefix that is valid UTF-8 by itself ends on a character boundary.
pub proof fn lemma_valid_prefix_ends_on_boundary(b: Seq<u8>, j: int)
    requires
        valid_utf8(b),
        0 <= j <= b.len(),
        valid_utf8(b.subrange(0, j)),
    ensures
        is_char_boundary(b, j),
    decreases j,
{
    if j > 0 {
        let d = b.subrange(0, j);
        let l = length_of_first_scalar(b);
        assert(length_of_first_scalar(d) == l);
        let pb = pop_first_scalar(b);
        assert(pb.subrange(0, j - l) =~= pop_first_scalar(d));
        lemma_valid_prefix_ends_on_boundary(pb, j - l);
    }
}

/// In valid UTF-8, the first byte of a non-empty valid UTF-8 text starts a character
/// wherever it stands.
pub proof fn lemma_first_byte_not_continuation(d: Seq<u8>)
    requires
        valid_utf8(d),
        d.len() > 0,
    ensures
        !is_continuation_byte(d[0]),
{
}

/// Only empty text encodes to no bytes.
pub proof fn lemma_encode_empty(c: Seq<char>)
    ensures
        encode_utf8(c).len() == 0 <==> c.len() == 0,
{
    if c.len() > 0 {
        assert(encode_scalar(c[0] as u32).len() > 0);
        assert(encode_utf8(c) == encode_scalar(c[0] as u32) + encode_utf8(c.drop_first()));
    }
}

/// Encoding a concatenation encodes each part.
pub proof fn lemma_encode_concat(a: Seq<char>, b: Seq<char>)
    ensures
        encode_utf8(a + b) == encode_utf8(a) + encode_utf8(b),
    decreases a.len(),
{
    if a.len() > 0 {
        assert((a + b).drop_first() =~= a.drop_first() + b);
        lemma_encode_concat(a.drop_first(), b);
        assert(encode_utf8(a + b) =~= encode_utf8(a) + encode_utf8(b));
    } else {
        assert(a + b =~= b);
        assert(encode_utf8(a) + encode_utf8(b) =~= encode_utf8(b));
    }
}

} // verus!
