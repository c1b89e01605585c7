//! Re-tokenizes delimited text: a reader cuts an input text into items, by an
//! explicit delimiter or by a fixed number of bytes, and a writer lays the items
//! out again with another separator, optional padding to a fixed width and
//! optional grouping of a number of items per line.

pub mod config;
pub mod format;
pub mod reader;
pub mod round_trip;
mod text;
pub mod util;
pub mod writer;

pub use config::{Args, Config, InputItemSeparator};
pub use format::{
    Anchor, FormatError, InFormat, InFormatBuilder, ItemSeparator, ItemSpan, LineSeparator,
    OutFormat, OutFormatBuilder,
};
pub use reader::{read, read_all, ItemReader, ReadError};
pub use util::to_iter;
pub use writer::ItemWriter;

use vstd::prelude::*;

use writer::layout;

verus! {

/// Writes all of `istream` to `ostream` as `format` lays them out.
pub fn write(istream: &[&str], ostream: &mut String, format: OutFormat)
    ensures
        final(ostream)@ == old(ostream)@ + layout(istream@.map_values(|s: &str| s@), format),
{
    let ghost start = ostream@;
    let ghost items = istream@.map_values(|s: &str| s@);
    let mut writer = ItemWriter::new(format);
    let mut i: usize = 0;
    while i < istream.len()
        invariant
            i <= istream@.len(),
            items == istream@.map_values(|s: &str| s@),
            writer.wf(),
            writer.format() == format,
            writer.count() == i,
            ostream@ == start + layout(items.take(i as int), format),
        decreases istream@.len() - i,
    {
        writer.write(istream[i], ostream);
        proof {
            let next = items.take(i + 1);
            assert(next.drop_last() =~= items.take(i as int));
            assert(next.last() == istream@[i as int]@);
        }
        i += 1;
    }
    assert(items.take(i as int) =~= items);
}

} // verus!
