//! Pages of a column chunk, and where they come from.
use crate::basic::{Encoding, ParquetError};
use crate::memory::Buffer;
use vstd::prelude::*;

verus! {

/// One page of a column chunk, its body already decompressed.
pub enum Page {
    /// The dictionary of the column chunk.
    DictionaryPage { buf: Buffer, num_values: u32, encoding: Encoding, is_sorted: bool },
    /// Levels, then values, of `num_values` entries.
    DataPage {
        buf: Buffer,
        num_values: u32,
        encoding: Encoding,
        def_level_encoding: Encoding,
        rep_level_encoding: Encoding,
    },
    /// The second layout of data pages, which this reader skips.
    DataPageV2 {
        buf: Buffer,
        num_values: u32,
        encoding: Encoding,
        num_nulls: u32,
        num_rows: u32,
        def_levels_byte_len: u32,
        rep_levels_byte_len: u32,
        is_compressed: bool,
    },
}

impl Page {
    pub fn encoding(&self) -> (r: Encoding)
        ensures
            r == match self {
                Page::DictionaryPage { encoding, .. } => *encoding,
                Page::DataPage { encoding, .. } => *encoding,
                Page::DataPageV2 { encoding, .. } => *encoding,
            },
    {
        match self {
            Page::DictionaryPage { encoding, .. } => *encoding,
            Page::DataPage { encoding, .. } => *encoding,
            Page::DataPageV2 { encoding, .. } => *encoding,
        }
    }

    pub fn num_values(&self) -> (r: u32)
        ensures
            r == match self {
                Page::DictionaryPage { num_values, .. } => *num_values,
                Page::DataPage { num_values, .. } => *num_values,
                Page::DataPageV2 { num_values, .. } => *num_values,
            },
    {
        match self {
            Page::DictionaryPage { num_values, .. } => *num_values,
            Page::DataPage { num_values, .. } => *num_values,
            Page::DataPageV2 { num_values, .. } => *num_values,
        }
    }

    /// Another handle on the page body.
    pub fn buffer(&self) -> (r: Buffer)
        ensures
            r@ == match self {
                Page::DictionaryPage { buf, .. } => buf@,
                Page::DataPage { buf, .. } => buf@,
                Page::DataPageV2 { buf, .. } => buf@,
            },
    {
        match self {
            Page::DictionaryPage { buf, .. } => buf.all(),
            Page::DataPage { buf, .. } => buf.all(),
            Page::DataPageV2 { buf, .. } => buf.all(),
        }
    }
}

/// The pages of one column chunk, in file order.
pub trait PageReader {
    /// The pages still to come, in order; an `Err` stands for a page that
    /// cannot be read, and the error reading it gives.
    spec fn pages(&self) -> Seq<Result<Page, ParquetError>>;

    /// The next page, or `None` after the last one.
    fn get_next_page(&mut self) -> (r: Result<Option<Page>, ParquetError>)
        ensures
            old(self).pages().len() == 0 ==> r == Ok::<Option<Page>, ParquetError>(None)
                && final(self).pages() == old(self).pages(),
            old(self).pages().len() > 0 ==> final(self).pages() == old(self).pages().drop_first()
                && match old(self).pages()[0] {
                Ok(p) => r == Ok::<Option<Page>, ParquetError>(Some(p)),
                Err(e) => r == Err::<Option<Page>, ParquetError>(e),
            },
    ;
}

/// The pages of `pages`, each readable.
pub open spec fn readable(pages: Seq<Page>) -> Seq<Result<Page, ParquetError>> {
    pages.map_values(|p: Page| Ok::<Page, ParquetError>(p))
}

/// A page reader over pages already in memory.
pub struct InMemoryPageReader {
    pages: Vec<Page>,
}

impl InMemoryPageReader {
    pub fn new(pages: Vec<Page>) -> (r: InMemoryPageReader)
        ensures
            r.pages() == readable(pages@),
    {
        InMemoryPageReader { pages }
    }
}

impl PageReader for InMemoryPageReader {
    closed spec fn pages(&self) -> Seq<Result<Page, ParquetError>> {
        readable(self.pages@)
    }

    fn get_next_page(&mut self) -> (r: Result<Option<Page>, ParquetError>) {
        if self.pages.len() == 0 {
            return Ok(None);
        }
        let ghost before = self.pages@;
        let p = self.pages.remove(0);
        assert(readable(self.pages@) =~= readable(before).drop_first());
        Ok(Some(p))
    }
}

} // verus!
