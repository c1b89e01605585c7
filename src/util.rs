//! Cutting a whole input at once, as a user writes the separator: every
//! occurrence of a delimiter cuts, and a byte count keeps a shorter last item.

use vstd::prelude::*;
use vstd::string::*;
use vstd::utf8::*;

use crate::config::InputItemSeparator;
use crate::reader::{
    all_text, find, find_from, lemma_delimiter_on_boundaries, lemma_find_from_found,
};
use crate::text::{lemma_encode_empty, lemma_valid_prefix_ends_on_boundary};

verus! {

/// The pieces of `hay` between the occurrences of a non-empty `d`, found left to
/// right; the last piece is what follows the last occurrence.
pub open spec fn pieces(hay: Seq<u8>, d: Seq<u8>) -> Seq<Seq<u8>>
    decreases hay.len(),
    via pieces_decreases
{
    match find_from(hay, d, 0) {
        Some(i) => if d.len() > 0 && 0 <= i && i + d.len() <= hay.len() {
            seq![hay.subrange(0, i)] + pieces(hay.subrange(i + d.len(), hay.len() as int), d)
        } else {
            seq![hay]
        },
        None => seq![hay],
    }
}

#[via_fn]
proof fn pieces_decreases(hay: Seq<u8>, d: Seq<u8>) {
    if let Some(i) = find_from(hay, d, 0) {
        if d.len() > 0 && 0 <= i && i + d.len() <= hay.len() {
            assert(hay.subrange(i + d.len(), hay.len() as int).len() < hay.len());
        }
    }
}

/// `p` without its last piece where that piece is empty.
pub open spec fn without_trailing_empty(p: Seq<Seq<u8>>) -> Seq<Seq<u8>> {
    if p.len() > 0 && p.last().len() == 0 {
        p.drop_last()
    } else {
        p
    }
}

/// `b` in runs of `n` bytes; the last run may be shorter.
pub open spec fn chunks(b: Seq<u8>, n: nat) -> Seq<Seq<u8>>
    decreases b.len(),
    via chunks_decreases
{
    if b.len() == 0 || n == 0 {
        seq![]
    } else if b.len() <= n {
        seq![b]
    } else {
        seq![b.subrange(0, n as int)] + chunks(b.subrange(n as int, b.len() as int), n)
    }
}

#[via_fn]
proof fn chunks_decreases(b: Seq<u8>, n: nat) {
    if b.len() > n && n > 0 {
        assert(b.subrange(n as int, b.len() as int).len() < b.len());
    }
}

/// Cuts all of `istream` by `sep`. A delimiter cuts at each occurrence, and a
/// trailing empty item is dropped; an empty delimiter gives an empty item and
/// then each character on its own. A byte count cuts runs of that many bytes,
/// and the last run may be shorter.
pub fn to_iter<'i>(istream: &'i str, sep: &'i InputItemSeparator) -> (r: Vec<&'i str>)
    requires
        sep matches InputItemSeparator::ByteCount(n) ==> (n > 0 && all_text(
            chunks(istream.spec_bytes(), n as nat),
        )),
    ensures
        match *sep {
            InputItemSeparator::Explicit(d) => if d@.len() == 0 {
                &&& r@.len() == istream@.len() + 1
                &&& r@[0]@.len() == 0
                &&& forall|k: int| 0 <= k < istream@.len() ==> (#[trigger] r@[k + 1])@ == seq![istream@[k]]
            } else {
                let p = without_trailing_empty(pieces(istream.spec_bytes(), encode_utf8(d@)));
                &&& r@.len() == p.len()
                &&& forall|k: int| 0 <= k < p.len() ==> (#[trigger] r@[k]).spec_bytes() == p[k]
            },
            InputItemSeparator::ByteCount(n) => {
                let c = chunks(istream.spec_bytes(), n as nat);
                &&& r@.len() == c.len()
                &&& forall|k: int| 0 <= k < c.len() ==> (#[trigger] r@[k]).spec_bytes() == c[k]
            },
        },
{
    let mut items: Vec<&'i str> = Vec::new();
    match sep {
        InputItemSeparator::Explicit(d) => {
            if d.as_str().is_empty() {
                proof {
                    reveal_strlit("");
                }
                items.push("");
                let n = istream.unicode_len();
                let mut k: usize = 0;
                while k < n
                    invariant
                        n == istream@.len(),
                        k <= n,
                        items@.len() == k + 1,
                        items@[0]@.len() == 0,
                        forall|j: int| 0 <= j < k ==> (#[trigger] items@[j + 1])@ == seq![istream@[j]],
                    decreases n - k,
                {
                    let one = istream.substring_char(k, k + 1);
                    assert(one@ =~= seq![istream@[k as int]]);
                    items.push(one);
                    k += 1;
                }
            } else {
                let needle = d.as_str().as_bytes();
                proof {
                    lemma_encode_empty(d@);
                    encode_utf8_valid_utf8(d@);
                }
                let ghost all = pieces(istream.spec_bytes(), needle@);
                let mut rest = istream;
                loop
                    invariant_except_break
                        all == items@.map_values(|s: &str| s.spec_bytes()) + pieces(
                            rest.spec_bytes(),
                            needle@,
                        ),
                    invariant
                        needle@ == encode_utf8(d@),
                        needle@.len() > 0,
                        valid_utf8(needle@),
                    ensures
                        all == items@.map_values(|s: &str| s.spec_bytes()),
                    decreases rest.spec_bytes().len(),
                {
                    let ghost b = rest.spec_bytes();
                    let ghost done = items@.map_values(|s: &str| s.spec_bytes());
                    proof {
                        encode_utf8_valid_utf8(rest@);
                    }
                    match find(rest.as_bytes(), needle) {
                        None => {
                            items.push(rest);
                            assert(items@.map_values(|s: &str| s.spec_bytes()) =~= done + seq![b]);
                            break;
                        },
                        Some(i) => {
                            proof {
                                lemma_find_from_found(b, needle@, 0);
                                if i > 0 {
                                    lemma_delimiter_on_boundaries(b, needle@, i as int);
                                } else {
                                    assert(b.subrange(0, b.len() as int) =~= b);
                                    assert(b.subrange(0, needle@.len() as int) =~= needle@);
                                    lemma_valid_prefix_ends_on_boundary(b, needle@.len() as int);
                                }
                            }
                            let (item, tail) = rest.split_at(i);
                            let (_, after) = tail.split_at(needle.len());
                            assert(after.spec_bytes() =~= b.subrange(
                                i + needle@.len(),
                                b.len() as int,
                            ));
                            items.push(item);
                            assert(items@.map_values(|s: &str| s.spec_bytes()) =~= done + seq![
                                b.subrange(0, i as int),
                            ]);
                            rest = after;
                        },
                    }
                }
                let count = items.len();
                if count > 0 && items[count - 1].as_bytes().len() == 0 {
                    items.pop();
                    assert(items@.map_values(|s: &str| s.spec_bytes()) =~= all.drop_last());
                }
            }
        },
        InputItemSeparator::ByteCount(count) => {
            let ghost all = chunks(istream.spec_bytes(), *count as nat);
            let mut rest = istream;
            loop
                invariant
                    *count > 0,
                    all_text(all),
                    all == items@.map_values(|s: &str| s.spec_bytes()) + chunks(
                        rest.spec_bytes(),
                        *count as nat,
                    ),
                ensures
                    all == items@.map_values(|s: &str| s.spec_bytes()),
                decreases rest.spec_bytes().len(),
            {
                let ghost b = rest.spec_bytes();
                let ghost done = items@.map_values(|s: &str| s.spec_bytes());
                proof {
                    encode_utf8_valid_utf8(rest@);
                }
                let len = rest.as_bytes().len();
                if len == 0 {
                    assert(done + chunks(b, *count as nat) =~= done);
                    break;
                }
                let take = if *count < len {
                    *count
                } else {
                    len
                };
                proof {
                    assert(all[done.len() as int] == b.subrange(0, take as int));
                    lemma_valid_prefix_ends_on_boundary(b, take as int);
                }
                let (item, after) = rest.split_at(take);
                items.push(item);
                assert(items@.map_values(|s: &str| s.spec_bytes()) =~= done + seq![
                    b.subrange(0, take as int),
                ]);
                rest = after;
            }
        },
    }
    items
}

} // verus!
