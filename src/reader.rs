//! The column reader: pulls pages from a page reader, sets up level and value
//! decoders for each data page, and reads levels and values in batches.
use crate::basic::{normalize_encoding, normalized, ColumnDescriptor, Encoding, ParquetError, PhysicalType};
use crate::data_type::{all_typed, has_type, views, Value, ValueView};
use crate::decoding::{
    decoder_error, delta_byte_array_values, delta_length_values, dict_page_outcome, get_decoder,
    get_result, int_values, lemma_dict_page_outcome_typed, lemma_plain_values_typed,
    lemma_values_typed, plain_values, rle_bool_values, Decoder, DictDecoder, Outcome, PlainDecoder,
    ValueDecoder,
};
use crate::delta::delta_decode;
use crate::levels::{level_block, LevelDecoder};
use crate::memory::Buffer;
use crate::page::{Page, PageReader};
use vstd::prelude::*;

verus! {

/// How many elements of `s` equal `x`.
pub open spec fn count_of(s: Seq<i16>, x: i16) -> nat
    decreases s.len(),
{
    if s.len() == 0 {
        0
    } else {
        count_of(s.drop_last(), x) + if s.last() == x {
            1nat
        } else {
            0nat
        }
    }
}

pub proof fn lemma_count_of_le_len(s: Seq<i16>, x: i16)
    ensures
        count_of(s, x) <= s.len(),
    decreases s.len(),
{
    if s.len() > 0 {
        lemma_count_of_le_len(s.drop_last(), x);
    }
}

proof fn lemma_count_of_append(a: Seq<i16>, b: Seq<i16>, x: i16)
    ensures
        count_of(a + b, x) == count_of(a, x) + count_of(b, x),
    decreases b.len(),
{
    if b.len() > 0 {
        assert((a + b).drop_last() =~= a + b.drop_last());
        lemma_count_of_append(a, b.drop_last(), x);
    } else {
        assert(a + b =~= a);
    }
}

/// The values of a page in an encoding that needs no dictionary.
pub open spec fn value_outcome(descr: ColumnDescriptor, encoding: Encoding, data: Seq<u8>, n: nat) -> Result<
    Outcome,
    ParquetError,
> {
    match decoder_error(descr.physical_type, encoding) {
        Some(e) => Err(e),
        None => match encoding {
            Encoding::PLAIN => Ok(
                Outcome {
                    values: plain_values(descr.physical_type, descr.type_length, data, n),
                    declared: n,
                    tail_error: ParquetError::UnexpectedEof,
                },
            ),
            Encoding::RLE => match rle_bool_values(data, n) {
                Ok(values) => Ok(
                    Outcome { values, declared: n, tail_error: ParquetError::UnexpectedEof },
                ),
                Err(e) => Err(e),
            },
            Encoding::DELTA_BINARY_PACKED => match delta_decode(data, usize::MAX as nat) {
                Ok((vals, _, _, _)) => Ok(
                    Outcome {
                        values: int_values(descr.physical_type, vals),
                        declared: vals.len(),
                        tail_error: ParquetError::UnexpectedEof,
                    },
                ),
                Err(e) => Err(e),
            },
            Encoding::DELTA_LENGTH_BYTE_ARRAY => match delta_length_values(data, usize::MAX as nat) {
                Ok((lens, values)) => Ok(
                    Outcome { values, declared: lens.len(), tail_error: ParquetError::UnexpectedEof },
                ),
                Err(e) => Err(e),
            },
            _ => delta_byte_array_values(data, usize::MAX as nat),
        },
    }
}

proof fn lemma_value_outcome(d: ValueDecoder, descr: ColumnDescriptor, data: Seq<u8>, n: nat)
    requires
        d.suits(descr),
    ensures
        d.outcome(data, n) == value_outcome(descr, d.encoding_spec(), data, n),
{
    match d {
        ValueDecoder::Plain(p) => {},
        ValueDecoder::Rle(p) => {},
        ValueDecoder::DeltaBitPack(p) => {},
        ValueDecoder::DeltaLengthByteArray(p) => {},
        ValueDecoder::DeltaByteArray(p) => {},
    }
}

/// `d` decodes pages as a fresh decoder of its encoding for `descr` does.
pub open spec fn decodes_as(d: ValueDecoder, descr: ColumnDescriptor) -> bool {
    forall|x: Seq<u8>, n: nat| #[trigger] d.outcome(x, n) == value_outcome(descr, d.encoding_spec(), x, n)
}

proof fn lemma_decodes_as(d: ValueDecoder, descr: ColumnDescriptor)
    requires
        d.suits(descr),
    ensures
        decodes_as(d, descr),
{
    assert forall|x: Seq<u8>, n: nat| #[trigger] d.outcome(x, n) == value_outcome(descr, d.encoding_spec(), x, n) by {
        lemma_value_outcome(d, descr, x, n);
    }
}

/// The level blocks at the start of a data page: repetition levels first,
/// then definition levels, each present only when its maximum level is
/// positive; and the byte where the values start.
pub open spec fn page_levels(
    descr: ColumnDescriptor,
    data: Seq<u8>,
    num_values: nat,
    def_encoding: Encoding,
    rep_encoding: Encoding,
) -> Result<(Seq<i16>, Seq<i16>, nat), ParquetError> {
    let rep = if descr.max_rep_level > 0 {
        level_block(rep_encoding, data, descr.max_rep_level, num_values)
    } else {
        Ok((seq![], 0))
    };
    match rep {
        Err(e) => Err(e),
        Ok((reps, c1)) => {
            let rest = data.subrange(c1 as int, data.len() as int);
            let def = if descr.max_def_level > 0 {
                level_block(def_encoding, rest, descr.max_def_level, num_values)
            } else {
                Ok((seq![], 0))
            };
            match def {
                Err(e) => Err(e),
                Ok((defs, c2)) => Ok((reps, defs, c1 + c2)),
            }
        },
    }
}

/// What a dictionary page does to a reader that has (or has not) seen a
/// dictionary: the dictionary it sets, or the error.
pub open spec fn dictionary_page_result(
    has_dict: bool,
    descr: ColumnDescriptor,
    data: Seq<u8>,
    num_values: nat,
    encoding: Encoding,
) -> Result<Seq<ValueView>, ParquetError> {
    if has_dict {
        Err(ParquetError::DuplicateDictionary)
    } else if !(encoding == Encoding::PLAIN || encoding == Encoding::PLAIN_DICTIONARY || encoding
        == Encoding::RLE_DICTIONARY) {
        Err(ParquetError::UnsupportedEncoding)
    } else {
        let values = plain_values(descr.physical_type, descr.type_length, data, num_values);
        if num_values <= values.len() {
            Ok(values.take(num_values as int))
        } else {
            Err(ParquetError::UnexpectedEof)
        }
    }
}

/// A column dictionary is set at most once: after a dictionary page has been
/// taken, any further dictionary page fails with `DuplicateDictionary`.
pub proof fn law_at_most_one_dictionary(
    descr: ColumnDescriptor,
    first: Seq<u8>,
    first_count: nat,
    first_encoding: Encoding,
    second: Seq<u8>,
    second_count: nat,
    second_encoding: Encoding,
)
    requires
        dictionary_page_result(false, descr, first, first_count, first_encoding) is Ok,
    ensures
        dictionary_page_result(true, descr, second, second_count, second_encoding) == Err::<
            Seq<ValueView>,
            ParquetError,
        >(ParquetError::DuplicateDictionary),
{
}

/// Reads the levels and values of one column from its pages.
pub struct ColumnReaderImpl<P> {
    descr: ColumnDescriptor,
    page_reader: P,
    def_level_decoder: Option<LevelDecoder>,
    rep_level_decoder: Option<LevelDecoder>,
    current_encoding: Option<Encoding>,
    // the number of values the current data page declares
    num_buffered_values: u32,
    // the number of values of the current data page read so far
    num_decoded_values: u32,
    // the decoder of dictionary-encoded pages, once a dictionary page was read
    dict_decoder: Option<DictDecoder>,
    // the decoder of the last page in another encoding
    data_decoder: Option<ValueDecoder>,
    exhausted: bool,
}

impl<P: PageReader> ColumnReaderImpl<P> {
    pub closed spec fn wf(&self) -> bool {
        &&& self.descr.wf()
        &&& self.num_decoded_values <= self.num_buffered_values
        &&& (self.def_level_decoder matches Some(d) ==> d.wf() && d.max_level_spec()
            == self.descr.max_def_level)
        &&& (self.rep_level_decoder matches Some(d) ==> d.wf() && d.max_level_spec()
            == self.descr.max_rep_level)
        &&& (self.dict_decoder matches Some(d) ==> d.wf() && d.has_dict())
        &&& (self.data_decoder matches Some(d) ==> d.wf() && decodes_as(d, self.descr))
        &&& (self.num_decoded_values < self.num_buffered_values ==> self.current_encoding is Some)
        &&& all_typed(self.pending(), self.descr.physical_type, self.descr.type_length)
        &&& all_typed(self.dict(), self.descr.physical_type, self.descr.type_length)
        &&& (self.current_encoding matches Some(e) ==> {
            &&& (self.descr.max_def_level > 0 ==> self.def_level_decoder is Some)
            &&& (self.descr.max_rep_level > 0 ==> self.rep_level_decoder is Some)
            &&& (e == Encoding::RLE_DICTIONARY ==> self.dict_decoder is Some)
            &&& (e != Encoding::RLE_DICTIONARY ==> (self.data_decoder matches Some(d)
                && d.encoding_spec() == e))
        })
    }

    pub closed spec fn descr_spec(&self) -> ColumnDescriptor {
        self.descr
    }

    /// No further levels or values will be read: the pages ran out, or
    /// reading failed.
    pub closed spec fn is_exhausted(&self) -> bool {
        self.exhausted
    }

    /// The pages still to come from the page reader.
    pub closed spec fn pages(&self) -> Seq<Result<Page, ParquetError>> {
        self.page_reader.pages()
    }

    /// The dictionary, once a dictionary page was taken.
    pub open spec fn dict_option(&self) -> Option<Seq<ValueView>> {
        if self.has_dict() {
            Some(self.dict())
        } else {
            None
        }
    }

    /// Everything that decides what the reader reads next.
    pub open spec fn model(&self) -> ReaderModel {
        ReaderModel {
            descr: self.descr_spec(),
            pages: self.pages(),
            exhausted: self.is_exhausted(),
            dict: self.dict_option(),
            buffered: self.buffered(),
            decoded: self.decoded(),
            def_rest: self.def_rest(),
            rep_rest: self.rep_rest(),
            pending: self.pending(),
            values_left: self.values_left(),
            tail: self.tail(),
        }
    }

    /// Values the current data page declares, and how many of them were read.
    pub closed spec fn buffered(&self) -> nat {
        self.num_buffered_values as nat
    }

    pub closed spec fn decoded(&self) -> nat {
        self.num_decoded_values as nat
    }

    pub closed spec fn has_dict(&self) -> bool {
        self.dict_decoder is Some
    }

    pub closed spec fn dict(&self) -> Seq<ValueView> {
        match self.dict_decoder {
            Some(d) => d.dict(),
            None => seq![],
        }
    }

    /// The definition levels of the current page not yet read.
    pub closed spec fn def_rest(&self) -> Seq<i16> {
        match self.def_level_decoder {
            Some(d) => d.rest(),
            None => seq![],
        }
    }

    /// The repetition levels of the current page not yet read.
    pub closed spec fn rep_rest(&self) -> Seq<i16> {
        match self.rep_level_decoder {
            Some(d) => d.rest(),
            None => seq![],
        }
    }

    pub closed spec fn current_encoding_spec(&self) -> Option<Encoding> {
        self.current_encoding
    }

    /// The decoded values of the current page not yet read, how many values
    /// it still declares, and the error met past the decoded ones.
    pub closed spec fn pending(&self) -> Seq<ValueView> {
        match self.current_encoding {
            None => seq![],
            Some(Encoding::RLE_DICTIONARY) => match self.dict_decoder {
                Some(d) => d.pending(),
                None => seq![],
            },
            _ => match self.data_decoder {
                Some(d) => d.pending(),
                None => seq![],
            },
        }
    }

    pub closed spec fn values_left(&self) -> nat {
        match self.current_encoding {
            None => 0,
            Some(Encoding::RLE_DICTIONARY) => match self.dict_decoder {
                Some(d) => d.left(),
                None => 0,
            },
            _ => match self.data_decoder {
                Some(d) => d.left(),
                None => 0,
            },
        }
    }

    pub closed spec fn tail(&self) -> ParquetError {
        match self.current_encoding {
            None => ParquetError::UnexpectedEof,
            Some(Encoding::RLE_DICTIONARY) => match self.dict_decoder {
                Some(d) => d.tail(),
                None => ParquetError::UnexpectedEof,
            },
            _ => match self.data_decoder {
                Some(d) => d.tail(),
                None => ParquetError::UnexpectedEof,
            },
        }
    }

    /// A reader of the column `descr` describes, over the pages of
    /// `page_reader`.
    pub fn new(descr: ColumnDescriptor, page_reader: P) -> (r: ColumnReaderImpl<P>)
        requires
            descr.wf(),
        ensures
            r.wf(),
            r.descr_spec() == descr,
            !r.is_exhausted(),
            !r.has_dict(),
            r.buffered() == 0,
            r.model() == (ReaderModel {
                descr,
                pages: page_reader.pages(),
                exhausted: false,
                dict: None,
                buffered: 0,
                decoded: 0,
                def_rest: seq![],
                rep_rest: seq![],
                pending: seq![],
                values_left: 0,
                tail: ParquetError::UnexpectedEof,
            }),
    {
        ColumnReaderImpl {
            descr,
            page_reader,
            def_level_decoder: None,
            rep_level_decoder: None,
            current_encoding: None,
            num_buffered_values: 0,
            num_decoded_values: 0,
            dict_decoder: None,
            data_decoder: None,
            exhausted: false,
        }
    }
}

/// The state of a column reader as far as what it reads next is concerned:
/// the column, the pages still to come, whether it stopped, the dictionary,
/// and what is left of the current data page.
pub struct ReaderModel {
    pub descr: ColumnDescriptor,
    pub pages: Seq<Result<Page, ParquetError>>,
    pub exhausted: bool,
    pub dict: Option<Seq<ValueView>>,
    pub buffered: nat,
    pub decoded: nat,
    pub def_rest: Seq<i16>,
    pub rep_rest: Seq<i16>,
    pub pending: Seq<ValueView>,
    pub values_left: nat,
    pub tail: ParquetError,
}

/// `m` with another field or two changed.
pub open spec fn with_pages(m: ReaderModel, pages: Seq<Result<Page, ParquetError>>) -> ReaderModel {
    ReaderModel {
        descr: m.descr,
        pages,
        exhausted: m.exhausted,
        dict: m.dict,
        buffered: m.buffered,
        decoded: m.decoded,
        def_rest: m.def_rest,
        rep_rest: m.rep_rest,
        pending: m.pending,
        values_left: m.values_left,
        tail: m.tail,
    }
}

pub open spec fn with_dict(m: ReaderModel, dict: Seq<ValueView>) -> ReaderModel {
    ReaderModel {
        descr: m.descr,
        pages: m.pages,
        exhausted: m.exhausted,
        dict: Some(dict),
        buffered: m.buffered,
        decoded: m.decoded,
        def_rest: m.def_rest,
        rep_rest: m.rep_rest,
        pending: m.pending,
        values_left: m.values_left,
        tail: m.tail,
    }
}

pub open spec fn with_exhausted(m: ReaderModel) -> ReaderModel {
    ReaderModel {
        descr: m.descr,
        pages: m.pages,
        exhausted: true,
        dict: m.dict,
        buffered: m.buffered,
        decoded: m.decoded,
        def_rest: m.def_rest,
        rep_rest: m.rep_rest,
        pending: m.pending,
        values_left: m.values_left,
        tail: m.tail,
    }
}

/// `m` with a new current page.
pub open spec fn with_page(
    m: ReaderModel,
    buffered: nat,
    def_rest: Seq<i16>,
    rep_rest: Seq<i16>,
    o: Outcome,
) -> ReaderModel {
    ReaderModel {
        descr: m.descr,
        pages: m.pages,
        exhausted: m.exhausted,
        dict: m.dict,
        buffered,
        decoded: 0,
        def_rest,
        rep_rest,
        pending: o.values,
        values_left: o.declared,
        tail: o.tail_error,
    }
}

/// `m` after a step that read `nd` definition levels, `nr` repetition levels
/// and `n` values and advanced the page by `adv`.
pub open spec fn with_step(m: ReaderModel, adv: int, nd: int, nr: int, n: int) -> ReaderModel {
    ReaderModel {
        descr: m.descr,
        pages: m.pages,
        exhausted: m.exhausted,
        dict: m.dict,
        buffered: m.buffered,
        decoded: (m.decoded + adv) as nat,
        def_rest: m.def_rest.skip(nd),
        rep_rest: m.rep_rest.skip(nr),
        pending: m.pending.skip(n),
        values_left: (m.values_left - n) as nat,
        tail: m.tail,
    }
}

/// What taking in `page` does: whether a data page is now ready, and the new
/// state.
pub open spec fn load_model(m: ReaderModel, page: Page) -> Result<(bool, ReaderModel), ParquetError> {
    match page {
        Page::DictionaryPage { buf, num_values, encoding, .. } => match dictionary_page_result(
            m.dict is Some,
            m.descr,
            buf@,
            num_values as nat,
            encoding,
        ) {
            Ok(d) => Ok((false, with_dict(m, d))),
            Err(e) => Err(e),
        },
        Page::DataPage { buf, num_values, encoding, def_level_encoding, rep_level_encoding } => {
            match page_levels(m.descr, buf@, num_values as nat, def_level_encoding, rep_level_encoding) {
                Err(e) => Err(e),
                Ok((reps, defs, start)) => match page_values(
                    m.descr,
                    m.dict,
                    encoding,
                    buf@.subrange(start as int, buf@.len() as int),
                    num_values as nat,
                ) {
                    Err(e) => Err(e),
                    Ok(o) => Ok((true, with_page(m, num_values as nat, defs, reps, o))),
                },
            }
        },
        Page::DataPageV2 { .. } => Ok((false, m)),
    }
}

pub proof fn lemma_load_model_keeps(m: ReaderModel, page: Page)
    ensures
        load_model(m, page) matches Ok((_, m2)) ==> m2.pages == m.pages && m2.descr == m.descr
            && m2.exhausted == m.exhausted,
{
}

/// What fetching pages until a data page is ready does: the pages are taken
/// in order; `Ok(false)` when they run out.
pub open spec fn next_page_model(m: ReaderModel) -> Result<(bool, ReaderModel), ParquetError>
    decreases m.pages.len(),
{
    if m.pages.len() == 0 {
        Ok((false, m))
    } else {
        let rest = with_pages(m, m.pages.drop_first());
        match m.pages[0] {
            Err(e) => Err(e),
            Ok(p) => match load_model(rest, p) {
                Err(e) => Err(e),
                Ok((true, m2)) => Ok((true, m2)),
                Ok((false, m2)) => {
                    proof {
                        lemma_load_model_keeps(rest, p);
                    }
                    next_page_model(m2)
                },
            },
        }
    }
}

pub proof fn lemma_next_page_model(m: ReaderModel)
    ensures
        next_page_model(m) matches Ok((ready, m2)) ==> m2.descr == m.descr && m2.exhausted
            == m.exhausted && (ready ==> m2.pages.len() < m.pages.len() && m2.decoded == 0),
    decreases m.pages.len(),
{
    if m.pages.len() > 0 {
        let rest = with_pages(m, m.pages.drop_first());
        if let Ok(p) = m.pages[0] {
            lemma_load_model_keeps(rest, p);
            if let Ok((false, m2)) = load_model(rest, p) {
                lemma_next_page_model(m2);
            }
        }
    }
}

/// What a read hands back: its result, the state after it, and the
/// definition levels, repetition levels and values it appends.
pub struct BatchOutput {
    pub result: Result<(nat, nat), ParquetError>,
    pub model: ReaderModel,
    pub defs: Seq<i16>,
    pub reps: Seq<i16>,
    pub values: Seq<ValueView>,
}

/// One step of a read on the current data page, as `read_step` does it:
/// up to `min(batch, values left in the page)` levels of each kind asked for,
/// then as many values as the definition levels read say are present
/// (`batch` when none are read); the page advances by the levels read, or by
/// the values read when no definition levels are read. The levels read are
/// counted; when none are read but level outputs were given (a required
/// column), each value counts as a level.
pub open spec fn step_model(
    m: ReaderModel,
    batch: nat,
    want_def: bool,
    want_rep: bool,
    levels_given: bool,
) -> BatchOutput {
    let left = m.buffered - m.decoded;
    let s = vstd::math::min(batch as int, left);
    let nd = if want_def {
        vstd::math::min(s, m.def_rest.len() as int)
    } else {
        0
    };
    let nr = if want_rep {
        vstd::math::min(s, m.rep_rest.len() as int)
    } else {
        0
    };
    let defs = m.def_rest.take(nd);
    let reps = m.rep_rest.take(nr);
    let to_read = if want_def {
        count_of(defs, m.descr.max_def_level) as int
    } else {
        batch as int
    };
    let n = vstd::math::min(to_read, m.values_left as int);
    let adv = vstd::math::min(if want_def { nd } else { n }, left);
    let error = if want_def && want_rep && nd != nr {
        Some(ParquetError::LevelMismatch)
    } else if n > m.pending.len() {
        Some(m.tail)
    } else if want_def && n < to_read {
        Some(ParquetError::UnexpectedEof)
    } else if adv == 0 {
        Some(ParquetError::UnexpectedEof)
    } else {
        None
    };
    match error {
        Some(e) => BatchOutput { result: Err(e), model: m, defs, reps, values: seq![] },
        None => BatchOutput {
            result: Ok(
                (
                    n as nat,
                    (if want_def {
                        nd
                    } else if want_rep {
                        nr
                    } else if levels_given {
                        n
                    } else {
                        0
                    }) as nat,
                ),
            ),
            model: with_step(m, adv, nd, nr, n),
            defs,
            reps,
            values: m.pending.take(n),
        },
    }
}

pub proof fn lemma_step_model(m: ReaderModel, batch: nat, want_def: bool, want_rep: bool, levels_given: bool)
    requires
        m.decoded < m.buffered,
    ensures
        step_model(m, batch, want_def, want_rep, levels_given).result is Ok ==> {
            let m2 = step_model(m, batch, want_def, want_rep, levels_given).model;
            &&& m2.pages == m.pages
            &&& m2.exhausted == m.exhausted
            &&& m2.buffered == m.buffered
            &&& m.decoded < m2.decoded <= m2.buffered
        },
{
}

/// `out` preceded by what was read before it.
pub open spec fn prepend_output(
    v: nat,
    l: nat,
    defs: Seq<i16>,
    reps: Seq<i16>,
    values: Seq<ValueView>,
    out: BatchOutput,
) -> BatchOutput {
    BatchOutput {
        result: match out.result {
            Ok((a, b)) => Ok((v + a, l + b)),
            Err(e) => Err(e),
        },
        model: out.model,
        defs: defs + out.defs,
        reps: reps + out.reps,
        values: values + out.values,
    }
}

/// A whole read of a batch, as `read_batch` does it, having read `read`
/// values so far: steps on the current data page and fetches further pages
/// until `batch` values were read or the pages run out (the reader is then
/// exhausted). An exhausted reader reads nothing.
#[verifier::opaque]
pub open spec fn batch_model(
    m: ReaderModel,
    batch: nat,
    want_def: bool,
    want_rep: bool,
    levels_given: bool,
    read: nat,
) -> BatchOutput
    decreases m.pages.len(), m.buffered - m.decoded,
{
    let nothing = BatchOutput { result: Ok((0, 0)), model: m, defs: seq![], reps: seq![], values: seq![] };
    if m.exhausted || read >= batch {
        nothing
    } else if m.decoded >= m.buffered {
        match next_page_model(m) {
            Err(e) => BatchOutput { result: Err(e), model: m, defs: seq![], reps: seq![], values: seq![] },
            Ok((false, m2)) => BatchOutput { result: Ok((0, 0)), model: with_exhausted(m2), defs: seq![], reps: seq![], values: seq![] },
            Ok((true, m2)) => {
                proof {
                    lemma_next_page_model(m);
                }
                batch_model(m2, batch, want_def, want_rep, levels_given, read)
            },
        }
    } else {
        let st = step_model(m, batch, want_def, want_rep, levels_given);
        match st.result {
            Err(_) => st,
            Ok((got, lv)) => {
                proof {
                    lemma_step_model(m, batch, want_def, want_rep, levels_given);
                }
                prepend_output(
                    got,
                    lv,
                    st.defs,
                    st.reps,
                    st.values,
                    batch_model(st.model, batch, want_def, want_rep, levels_given, read + got),
                )
            },
        }
    }
}

pub proof fn lemma_batch_model_unfold(
    m: ReaderModel,
    batch: nat,
    want_def: bool,
    want_rep: bool,
    levels_given: bool,
    read: nat,
)
    ensures
        ({
            let out = batch_model(m, batch, want_def, want_rep, levels_given, read);
            let nothing = BatchOutput {
                result: Ok((0, 0)),
                model: m,
                defs: seq![],
                reps: seq![],
                values: seq![],
            };
            &&& m.exhausted || read >= batch ==> out == nothing
            &&& !(m.exhausted || read >= batch) && m.decoded >= m.buffered ==> out == match next_page_model(m) {
                Err(e) => BatchOutput { result: Err(e), model: m, defs: seq![], reps: seq![], values: seq![] },
                Ok((false, m2)) => BatchOutput { result: Ok((0, 0)), model: with_exhausted(m2), defs: seq![], reps: seq![], values: seq![] },
                Ok((true, m2)) => batch_model(m2, batch, want_def, want_rep, levels_given, read),
            }
            &&& !(m.exhausted || read >= batch) && m.decoded < m.buffered ==> out == ({
                let st = step_model(m, batch, want_def, want_rep, levels_given);
                match st.result {
                    Err(_) => st,
                    Ok((got, lv)) => prepend_output(
                        got,
                        lv,
                        st.defs,
                        st.reps,
                        st.values,
                        batch_model(st.model, batch, want_def, want_rep, levels_given, read + got),
                    ),
                }
            })
        }),
{
    reveal(batch_model);
}

/// The values of a data page whose value block is `data`: through the
/// dictionary for dictionary encoding, through a fresh decoder otherwise.
pub open spec fn page_values(
    descr: ColumnDescriptor,
    dict: Option<Seq<ValueView>>,
    encoding: Encoding,
    data: Seq<u8>,
    num_values: nat,
) -> Result<Outcome, ParquetError> {
    let e = normalized(encoding);
    if e == Encoding::RLE_DICTIONARY {
        match dict {
            None => Err(ParquetError::MissingDictionary),
            Some(d) => dict_page_outcome(d, data, num_values),
        }
    } else {
        value_outcome(descr, e, data, num_values)
    }
}

impl<P: PageReader> ColumnReaderImpl<P> {
    /// Takes in one page: a dictionary page sets the dictionary, a data page
    /// sets up the decoders of its levels and values, and other pages are
    /// skipped. Returns whether a data page is ready to read.
    pub fn load_page(&mut self, page: Page) -> (r: Result<bool, ParquetError>)
        requires
            old(self).wf(),
        ensures
            final(self).wf(),
            match load_model(old(self).model(), page) {
                Ok((ready, m)) => r == Ok::<bool, ParquetError>(ready) && final(self).model() == m,
                Err(e) => r == Err::<bool, ParquetError>(e),
            },
            page is DictionaryPage && old(self).has_dict() ==> *final(self) == *old(self),
            page is DictionaryPage && r is Ok ==> final(self).current_encoding_spec()
                == old(self).current_encoding_spec(),
            final(self).descr_spec() == old(self).descr_spec(),
            final(self).pages() == old(self).pages(),
            final(self).is_exhausted() == old(self).is_exhausted(),
            old(self).has_dict() ==> final(self).has_dict() && final(self).dict() == old(self).dict(),
            match page {
                Page::DictionaryPage { buf, num_values, encoding, .. } => match dictionary_page_result(
                    old(self).has_dict(),
                    old(self).descr_spec(),
                    buf@,
                    num_values as nat,
                    encoding,
                ) {
                    Ok(dict) => r == Ok::<bool, ParquetError>(false) && final(self).has_dict()
                        && final(self).dict() == dict && final(self).buffered() == old(self).buffered()
                        && final(self).decoded() == old(self).decoded(),
                    Err(e) => r == Err::<bool, ParquetError>(e),
                },
                Page::DataPage { buf, num_values, encoding, def_level_encoding, rep_level_encoding } => {
                    match page_levels(
                        old(self).descr_spec(),
                        buf@,
                        num_values as nat,
                        def_level_encoding,
                        rep_level_encoding,
                    ) {
                        Err(e) => r == Err::<bool, ParquetError>(e),
                        Ok((reps, defs, start)) => match page_values(
                            old(self).descr_spec(),
                            old(self).dict_option(),
                            encoding,
                            buf@.subrange(start as int, buf@.len() as int),
                            num_values as nat,
                        ) {
                            Err(e) => r == Err::<bool, ParquetError>(e),
                            Ok(o) => {
                                &&& r == Ok::<bool, ParquetError>(true)
                                &&& final(self).buffered() == num_values
                                &&& final(self).decoded() == 0
                                &&& final(self).rep_rest() == reps
                                &&& final(self).def_rest() == defs
                                &&& final(self).current_encoding_spec() == Some(normalized(encoding))
                                &&& final(self).pending() == o.values
                                &&& final(self).values_left() == o.declared
                                &&& final(self).tail() == o.tail_error
                            },
                        },
                    }
                },
                Page::DataPageV2 { .. } => r == Ok::<bool, ParquetError>(false) && *final(self)
                    == *old(self),
            },
    {
        match page {
            Page::DictionaryPage { buf, num_values, encoding, .. } => {
                self.configure_dictionary(buf, num_values, encoding)
            },
            Page::DataPage { buf, num_values, encoding, def_level_encoding, rep_level_encoding } => {
                self.current_encoding = None;
                self.num_buffered_values = 0;
                self.num_decoded_values = 0;
                let rest = match self.set_up_levels(
                    buf,
                    num_values,
                    def_level_encoding,
                    rep_level_encoding,
                ) {
                    Ok(b) => b,
                    Err(e) => {
                        return Err(e);
                    },
                };
                match self.set_up_values(rest, num_values, encoding) {
                    Ok(()) => Ok(true),
                    Err(e) => Err(e),
                }
            },
            Page::DataPageV2 { .. } => Ok(false),
        }
    }

    fn configure_dictionary(&mut self, buf: Buffer, num_values: u32, encoding: Encoding) -> (r: Result<
        bool,
        ParquetError,
    >)
        requires
            old(self).wf(),
        ensures
            final(self).wf(),
            final(self).descr_spec() == old(self).descr_spec(),
            final(self).pages() == old(self).pages(),
            final(self).is_exhausted() == old(self).is_exhausted(),
            old(self).has_dict() ==> final(self).has_dict() && final(self).dict() == old(self).dict(),
            match dictionary_page_result(
                old(self).has_dict(),
                old(self).descr_spec(),
                buf@,
                num_values as nat,
                encoding,
            ) {
                Ok(dict) => r == Ok::<bool, ParquetError>(false) && final(self).has_dict()
                    && final(self).dict() == dict && final(self).buffered() == old(self).buffered()
                    && final(self).decoded() == old(self).decoded(),
                Err(e) => r == Err::<bool, ParquetError>(e),
            },
            old(self).has_dict() ==> *final(self) == *old(self),
            r is Ok ==> final(self).def_rest() == old(self).def_rest() && final(self).rep_rest()
                == old(self).rep_rest() && final(self).pending() == old(self).pending()
                && final(self).values_left() == old(self).values_left() && final(self).tail()
                == old(self).tail() && final(self).current_encoding_spec()
                == old(self).current_encoding_spec(),
    {
        if self.dict_decoder.is_some() {
            return Err(ParquetError::DuplicateDictionary);
        }
        match encoding {
            Encoding::PLAIN | Encoding::PLAIN_DICTIONARY | Encoding::RLE_DICTIONARY => {},
            _ => {
                return Err(ParquetError::UnsupportedEncoding);
            },
        }
        let mut plain = PlainDecoder::new(self.descr.physical_type, self.descr.type_length);
        match plain.set_data(buf, num_values as usize) {
            Ok(()) => {},
            Err(e) => {
                return Err(e);
            },
        }
        let mut dict = DictDecoder::new();
        let ghost entries = plain.pending();
        proof {
            lemma_plain_values_typed(self.descr.physical_type, self.descr.type_length, buf@, num_values as nat);
        }
        match dict.set_dict(plain) {
            Ok(()) => {
                proof {
                    let t = self.descr.physical_type;
                    let tl = self.descr.type_length;
                    assert forall|i: int| 0 <= i < dict.dict().len() implies #[trigger] has_type(dict.dict()[i], t, tl) by {
                        assert(dict.dict()[i] == entries[i]);
                    }
                }
                self.dict_decoder = Some(dict);
                Ok(false)
            },
            Err(e) => Err(e),
        }
    }

    /// Sets up the level decoders of a data page; returns its value block.
    fn set_up_levels(
        &mut self,
        buf: Buffer,
        num_values: u32,
        def_level_encoding: Encoding,
        rep_level_encoding: Encoding,
    ) -> (r: Result<Buffer, ParquetError>)
        requires
            old(self).wf(),
            old(self).current_encoding_spec() is None,
            old(self).buffered() == 0,
        ensures
            final(self).wf(),
            final(self).descr_spec() == old(self).descr_spec(),
            final(self).pages() == old(self).pages(),
            final(self).is_exhausted() == old(self).is_exhausted(),
            final(self).has_dict() == old(self).has_dict(),
            final(self).dict_option() == old(self).dict_option(),
            final(self).current_encoding_spec() is None,
            final(self).buffered() == 0,
            final(self).data_decoder == old(self).data_decoder,
            final(self).dict_decoder == old(self).dict_decoder,
            r is Ok ==> (final(self).descr_spec().max_def_level > 0 ==> final(self).def_level_decoder is Some)
                && (final(self).descr_spec().max_rep_level > 0 ==> final(self).rep_level_decoder is Some),
            match page_levels(
                old(self).descr_spec(),
                buf@,
                num_values as nat,
                def_level_encoding,
                rep_level_encoding,
            ) {
                Err(e) => r matches Err(x) && x == e,
                Ok((reps, defs, start)) => r matches Ok(b) && b@ == buf@.subrange(
                    start as int,
                    buf@.len() as int,
                ) && final(self).rep_rest() == reps && final(self).def_rest() == defs,
            },
    {
        let ghost data = buf@;
        let mut rest = buf;
        let max_rep = self.descr.max_rep_level;
        let max_def = self.descr.max_def_level;
        let ghost mut c1: nat = 0;
        if max_rep > 0 {
            let mut rep = LevelDecoder::new(rep_level_encoding, max_rep);
            let consumed = match rep.set_data(num_values as usize, &rest) {
                Ok(c) => c,
                Err(e) => {
                    return Err(e);
                },
            };
            self.rep_level_decoder = Some(rep);
            rest = rest.start_from(consumed);
            proof {
                c1 = consumed as nat;
            }
        } else {
            self.rep_level_decoder = None;
            assert(rest@ =~= data.subrange(0, data.len() as int));
        }
        assert(rest@ =~= data.subrange(c1 as int, data.len() as int));
        let ghost after_rep = rest@;
        let ghost mut c2: nat = 0;
        if max_def > 0 {
            let mut def = LevelDecoder::new(def_level_encoding, max_def);
            let consumed = match def.set_data(num_values as usize, &rest) {
                Ok(c) => c,
                Err(e) => {
                    return Err(e);
                },
            };
            self.def_level_decoder = Some(def);
            rest = rest.start_from(consumed);
            proof {
                c2 = consumed as nat;
            }
        } else {
            self.def_level_decoder = None;
            assert(rest@ =~= after_rep.subrange(0, after_rep.len() as int));
        }
        assert(rest@ =~= data.subrange((c1 + c2) as int, data.len() as int));
        Ok(rest)
    }

    /// Sets up the value decoder of a data page whose levels are set up.
    fn set_up_values(&mut self, data: Buffer, num_values: u32, encoding: Encoding) -> (r: Result<
        (),
        ParquetError,
    >)
        requires
            old(self).wf(),
            old(self).current_encoding_spec() is None,
            old(self).buffered() == 0,
            old(self).descr_spec().max_def_level > 0 ==> old(self).def_level_decoder is Some,
            old(self).descr_spec().max_rep_level > 0 ==> old(self).rep_level_decoder is Some,
        ensures
            final(self).wf(),
            final(self).descr_spec() == old(self).descr_spec(),
            final(self).pages() == old(self).pages(),
            final(self).is_exhausted() == old(self).is_exhausted(),
            final(self).has_dict() == old(self).has_dict(),
            final(self).dict() == old(self).dict(),
            final(self).rep_rest() == old(self).rep_rest(),
            final(self).def_rest() == old(self).def_rest(),
            match page_values(
                old(self).descr_spec(),
                old(self).dict_option(),
                encoding,
                data@,
                num_values as nat,
            ) {
                Err(e) => r == Err::<(), ParquetError>(e),
                Ok(o) => {
                    &&& r is Ok
                    &&& final(self).buffered() == num_values
                    &&& final(self).decoded() == 0
                    &&& final(self).current_encoding_spec() == Some(normalized(encoding))
                    &&& final(self).pending() == o.values
                    &&& final(self).values_left() == o.declared
                    &&& final(self).tail() == o.tail_error
                },
            },
    {
        let enc = normalize_encoding(encoding);
        proof {
            let t = self.descr.physical_type;
            let tl = self.descr.type_length;
            if normalized(encoding) == Encoding::RLE_DICTIONARY {
                lemma_dict_page_outcome_typed(self.dict(), data@, num_values as nat, t, tl);
            } else if decoder_error(t, normalized(encoding)) is None {
                lemma_values_typed(t, tl, normalized(encoding), data@, num_values as nat);
            }
        }
        if enc == Encoding::RLE_DICTIONARY {
            match &mut self.dict_decoder {
                Some(d) => {
                    match d.set_page(data, num_values as usize) {
                        Ok(()) => {},
                        Err(e) => {
                            return Err(e);
                        },
                    }
                },
                None => {
                    return Err(ParquetError::MissingDictionary);
                },
            }
        } else {
            let reuse = match &self.data_decoder {
                Some(d) => d.encoding() == enc,
                None => false,
            };
            if !reuse {
                match get_decoder(&self.descr, enc) {
                    Ok(d) => {
                        proof {
                            lemma_decodes_as(d, self.descr);
                        }
                        self.data_decoder = Some(d);
                    },
                    Err(e) => {
                        return Err(e);
                    },
                }
            }
            match &mut self.data_decoder {
                Some(d) => {
                    let ghost d0 = *d;
                    let res = d.set_data(data, num_values as usize);
                    proof {
                        assert forall|x: Seq<u8>, n: nat| #[trigger] d.outcome(x, n) == value_outcome(
                            self.descr,
                            d.encoding_spec(),
                            x,
                            n,
                        ) by {
                            assert(d0.outcome(x, n) == value_outcome(self.descr, d0.encoding_spec(), x, n));
                        }
                    }
                    match res {
                        Ok(()) => {},
                        Err(e) => {
                            return Err(e);
                        },
                    }
                },
                None => {
                    return Err(ParquetError::UnsupportedEncoding);
                },
            }
        }
        self.current_encoding = Some(enc);
        self.num_buffered_values = num_values;
        Ok(())
    }
}

/// The values of `values` from index `from` on are of the physical type of
/// the column `descr` describes.
pub open spec fn values_typed(from: nat, values: Seq<Value>, descr: ColumnDescriptor) -> bool {
    forall|i: int| from <= i < values.len() ==> #[trigger] has_type(values[i]@, descr.physical_type, descr.type_length)
}

/// `new` is `old` followed by `n` levels, each between 0 and `max`.
pub open spec fn levels_appended(old: Seq<i16>, new: Seq<i16>, n: nat, max: i16) -> bool {
    &&& new.len() == old.len() + n
    &&& new.take(old.len() as int) == old
    &&& forall|i: int| old.len() <= i < new.len() ==> 0 <= #[trigger] new[i] <= max
}

/// How many of the levels from index `from` equal `x`.
fn count_level(levels: &Vec<i16>, from: usize, x: i16) -> (r: usize)
    requires
        from <= levels@.len(),
    ensures
        r == count_of(levels@.skip(from as int), x),
{
    let mut r: usize = 0;
    let mut i: usize = from;
    assert(levels@.subrange(from as int, from as int) =~= Seq::<i16>::empty());
    while i < levels.len()
        invariant
            from <= i <= levels@.len(),
            r == count_of(levels@.subrange(from as int, i as int), x),
            r <= i - from,
        decreases levels@.len() - i,
    {
        assert(levels@.subrange(from as int, i + 1).drop_last() =~= levels@.subrange(from as int, i as int));
        if levels[i] == x {
            r = r + 1;
        }
        i = i + 1;
    }
    assert(levels@.subrange(from as int, i as int) =~= levels@.skip(from as int));
    r
}

impl<P: PageReader> ColumnReaderImpl<P> {
    /// Reads the next pages until a data page is ready; `Ok(false)` when the
    /// pages ran out. An error of the page reader is passed on unchanged.
    fn read_new_page(&mut self) -> (r: Result<bool, ParquetError>)
        requires
            old(self).wf(),
        ensures
            final(self).wf(),
            final(self).descr_spec() == old(self).descr_spec(),
            final(self).is_exhausted() == old(self).is_exhausted(),
            match next_page_model(old(self).model()) {
                Ok((ready, m)) => r == Ok::<bool, ParquetError>(ready) && final(self).model() == m,
                Err(e) => r == Err::<bool, ParquetError>(e),
            },
    {
        loop
            invariant
                self.wf(),
                self.descr == old(self).descr,
                self.exhausted == old(self).exhausted,
                next_page_model(self.model()) == next_page_model(old(self).model()),
            decreases self.page_reader.pages().len(),
        {
            let ghost m = self.model();
            let page = match self.page_reader.get_next_page() {
                Ok(Some(p)) => p,
                Ok(None) => {
                    assert(self.model() == m);
                    return Ok(false);
                },
                Err(e) => {
                    return Err(e);
                },
            };
            assert(self.model() == (with_pages(m, m.pages.drop_first())));
            match self.load_page(page) {
                Ok(true) => {
                    return Ok(true);
                },
                Ok(false) => {
                    proof {
                        lemma_load_model_keeps(with_pages(m, m.pages.drop_first()), page);
                    }
                },
                Err(e) => {
                    return Err(e);
                },
            }
        }
    }

    /// Appends up to `max` values of the current page to `out`.
    fn read_values(&mut self, out: &mut Vec<Value>, max: usize) -> (r: Result<usize, ParquetError>)
        requires
            old(self).wf(),
        ensures
            final(self).wf(),
            final(self).descr == old(self).descr,
            final(self).exhausted == old(self).exhausted,
            final(self).page_reader == old(self).page_reader,
            final(self).def_level_decoder == old(self).def_level_decoder,
            final(self).rep_level_decoder == old(self).rep_level_decoder,
            final(self).num_buffered_values == old(self).num_buffered_values,
            final(self).num_decoded_values == old(self).num_decoded_values,
            final(self).current_encoding == old(self).current_encoding,
            final(self).has_dict() == old(self).has_dict(),
            final(self).dict() == old(self).dict(),
            get_result(old(self).pending(), old(self).values_left(), old(self).tail(), max as nat, r, old(out)@, final(out)@),
            r matches Ok(n) ==> final(self).pending() == old(self).pending().skip(n as int)
                && final(self).values_left() == old(self).values_left() - n,
            r is Err ==> final(self).pending() == old(self).pending(),
            final(self).tail() == old(self).tail(),
    {
        let ghost t = self.descr.physical_type;
        let ghost tl = self.descr.type_length;
        let ghost p = self.pending();
        assert forall|k: nat| k <= p.len() implies #[trigger] all_typed(p.skip(k as int), t, tl) by {
            assert forall|i: int| 0 <= i < p.skip(k as int).len() implies #[trigger] has_type(p.skip(k as int)[i], t, tl) by {
                assert(p.skip(k as int)[i] == p[i + k]);
            }
        }
        match self.current_encoding {
            None => {
                assert(views(out@) + Seq::<ValueView>::empty().take(0) =~= views(out@));
                assert(out@.take(out@.len() as int) =~= out@);
                assert(Seq::<ValueView>::empty().skip(0) =~= Seq::<ValueView>::empty());
                Ok(0)
            },
            Some(Encoding::RLE_DICTIONARY) => match &mut self.dict_decoder {
                Some(d) => d.read(out, max),
                None => {
                    assert(views(out@) + Seq::<ValueView>::empty().take(0) =~= views(out@));
                    assert(out@.take(out@.len() as int) =~= out@);
                    assert(Seq::<ValueView>::empty().skip(0) =~= Seq::<ValueView>::empty());
                    Ok(0)
                },
            },
            _ => match &mut self.data_decoder {
                Some(d) => {
                    let ghost d0 = *d;
                    let res = d.get(out, max);
                    proof {
                        assert forall|x: Seq<u8>, n: nat| #[trigger] d.outcome(x, n) == value_outcome(
                            self.descr,
                            d.encoding_spec(),
                            x,
                            n,
                        ) by {
                            assert(d0.outcome(x, n) == value_outcome(self.descr, d0.encoding_spec(), x, n));
                        }
                    }
                    res
                },
                None => {
                    assert(views(out@) + Seq::<ValueView>::empty().take(0) =~= views(out@));
                    assert(out@.take(out@.len() as int) =~= out@);
                    assert(Seq::<ValueView>::empty().skip(0) =~= Seq::<ValueView>::empty());
                    Ok(0)
                },
            },
        }
    }

    /// Every level left in the current page lies between 0 and its maximum.
    pub proof fn lemma_levels_in_range(&self)
        requires
            self.wf(),
        ensures
            forall|i: int| 0 <= i < self.def_rest().len() ==> 0 <= #[trigger] self.def_rest()[i]
                <= self.descr_spec().max_def_level,
            forall|i: int| 0 <= i < self.rep_rest().len() ==> 0 <= #[trigger] self.rep_rest()[i]
                <= self.descr_spec().max_rep_level,
    {
        if let Some(d) = self.def_level_decoder {
            d.lemma_rest_in_range();
        }
        if let Some(d) = self.rep_level_decoder {
            d.lemma_rest_in_range();
        }
    }

    /// Reads one step from the current data page: up to `min(batch_size,
    /// values left in the page)` levels of each kind asked for, then as many
    /// values as the definition levels read say are present (`batch_size`
    /// when no definition levels are read), and advances the page by the
    /// levels read (by the values read when no definition levels are read).
    /// Returns the number of values and of levels read.
    pub fn read_step(
        &mut self,
        batch_size: usize,
        want_def: bool,
        def_out: &mut Vec<i16>,
        want_rep: bool,
        rep_out: &mut Vec<i16>,
        levels_given: bool,
        values: &mut Vec<Value>,
    ) -> (r: Result<(usize, usize), ParquetError>)
        requires
            old(self).wf(),
            old(self).decoded() < old(self).buffered(),
            want_def ==> old(self).descr_spec().max_def_level > 0,
            want_rep ==> old(self).descr_spec().max_rep_level > 0,
        ensures
            final(self).wf(),
            final(self).descr_spec() == old(self).descr_spec(),
            final(self).pages() == old(self).pages(),
            final(self).is_exhausted() == old(self).is_exhausted(),
            final(self).buffered() == old(self).buffered(),
            final(self).decoded() <= final(self).buffered(),
            r is Ok ==> values_typed(old(values)@.len(), final(values)@, old(self).descr_spec()),
            ({
                let st = step_model(old(self).model(), batch_size as nat, want_def, want_rep, levels_given);
                &&& final(def_out)@ == old(def_out)@ + st.defs
                &&& final(rep_out)@ == old(rep_out)@ + st.reps
                &&& match st.result {
                    Ok((v, l)) => r matches Ok((a, b)) && a == v && b == l && final(self).model()
                        == st.model && final(values)@.len() == old(values)@.len() + v
                        && final(values)@.take(old(values)@.len() as int) == old(values)@ && views(
                        final(values)@,
                    ) == views(old(values)@) + st.values,
                    Err(e) => r == Err::<(usize, usize), ParquetError>(e),
                }
            }),
            ({
                let left = old(self).buffered() - old(self).decoded();
                let s = vstd::math::min(batch_size as int, left as int);
                let nd = if want_def {
                    vstd::math::min(s, old(self).def_rest().len() as int)
                } else {
                    0
                };
                let nr = if want_rep {
                    vstd::math::min(s, old(self).rep_rest().len() as int)
                } else {
                    0
                };
                let new_defs = old(self).def_rest().take(nd);
                let to_read = if want_def {
                    count_of(new_defs, old(self).descr_spec().max_def_level) as int
                } else {
                    batch_size as int
                };
                let n = vstd::math::min(to_read, old(self).values_left() as int);
                &&& final(def_out)@ == old(def_out)@ + new_defs
                &&& final(rep_out)@ == old(rep_out)@ + old(self).rep_rest().take(nr)
                &&& if want_def && want_rep && nd != nr {
                    r == Err::<(usize, usize), ParquetError>(ParquetError::LevelMismatch)
                } else if n > old(self).pending().len() {
                    r == Err::<(usize, usize), ParquetError>(old(self).tail()) && final(values)@
                        == old(values)@
                } else {
                    &&& final(values)@.len() == old(values)@.len() + n
                    &&& final(values)@.take(old(values)@.len() as int) == old(values)@
                    &&& views(final(values)@) == views(old(values)@) + old(self).pending().take(n)
                    &&& if want_def && n < to_read {
                        r == Err::<(usize, usize), ParquetError>(ParquetError::UnexpectedEof)
                    } else {
                        let adv = vstd::math::min(if want_def { nd } else { n }, left as int);
                        if adv == 0 {
                            r == Err::<(usize, usize), ParquetError>(ParquetError::UnexpectedEof)
                        } else {
                            &&& r == Ok::<(usize, usize), ParquetError>(
                                (
                                    n as usize,
                                    (if want_def {
                                        nd
                                    } else if want_rep {
                                        nr
                                    } else if levels_given {
                                        n
                                    } else {
                                        0
                                    }) as usize,
                                ),
                            )
                            &&& final(self).decoded() == old(self).decoded() + adv
                            &&& final(self).def_rest() == old(self).def_rest().skip(nd)
                            &&& final(self).rep_rest() == old(self).rep_rest().skip(nr)
                            &&& final(self).pending() == old(self).pending().skip(n)
                        }
                    }
                }
            }),
    {
        let max_def = self.descr.max_def_level;
        let remaining: u32 = self.num_buffered_values - self.num_decoded_values;
        let step: usize = if (remaining as usize) < batch_size {
            remaining as usize
        } else {
            batch_size
        };
        let mut num_def: usize = 0;
        let mut values_to_read: usize = batch_size;
        if want_def {
            let before = def_out.len();
            num_def = match &mut self.def_level_decoder {
                Some(d) => d.get(def_out, step),
                None => 0,
            };
            values_to_read = count_level(def_out, before, max_def);
            proof {
                assert(def_out@.skip(before as int) =~= old(self).def_rest().take(num_def as int));
            }
        }
        let mut num_rep: usize = 0;
        if want_rep {
            num_rep = match &mut self.rep_level_decoder {
                Some(d) => d.get(rep_out, step),
                None => 0,
            };
        }
        proof {
            if !want_def {
                assert(old(self).def_rest().take(0) =~= Seq::<i16>::empty());
                assert(def_out@ =~= old(def_out)@ + old(self).def_rest().take(0));
            }
            if !want_rep {
                assert(old(self).rep_rest().take(0) =~= Seq::<i16>::empty());
                assert(rep_out@ =~= old(rep_out)@ + old(self).rep_rest().take(0));
            }
        }
        if want_def && want_rep && num_rep != num_def {
            return Err(ParquetError::LevelMismatch);
        }
        let ghost values_before = values@;
        let ghost pending_before = self.pending();
        let got = match self.read_values(values, values_to_read) {
            Ok(n) => n,
            Err(e) => {
                return Err(e);
            },
        };
        proof {
            let t = self.descr.physical_type;
            let tl = self.descr.type_length;
            assert forall|i: int| values_before.len() <= i < values@.len() implies #[trigger] has_type(values@[i]@, t, tl) by {
                assert(views(values@)[i] == values@[i]@);
                assert(views(values@)[i] == pending_before[i - values_before.len()]);
            }
        }
        if want_def && got < values_to_read {
            return Err(ParquetError::UnexpectedEof);
        }
        let advance: usize = if want_def {
            num_def
        } else {
            got
        };
        let adv: u32 = if advance < remaining as usize {
            advance as u32
        } else {
            remaining
        };
        if adv == 0 {
            return Err(ParquetError::UnexpectedEof);
        }
        self.num_decoded_values = self.num_decoded_values + adv;
        let levels = if want_def {
            num_def
        } else if want_rep {
            num_rep
        } else if levels_given {
            got
        } else {
            0
        };
        proof {
            let m = old(self).model();
            let s = vstd::math::min(batch_size as int, m.buffered - m.decoded);
            let nd = if want_def {
                vstd::math::min(s, m.def_rest.len() as int)
            } else {
                0
            };
            let nr = if want_rep {
                vstd::math::min(s, m.rep_rest.len() as int)
            } else {
                0
            };
            assert(self.def_rest() =~= m.def_rest.skip(nd));
            assert(self.rep_rest() =~= m.rep_rest.skip(nr));
        }
        Ok((got, levels))
    }

    /// Reads levels and values until at least `batch_size` values were read
    /// or the pages run out, appending them to `values`, and the levels to
    /// `def_levels` and `rep_levels`. Definition levels are read only when
    /// `def_levels` is given and the column has a positive maximum definition
    /// level, and likewise repetition levels; when level outputs are given for
    /// a column that has neither, each value counts as a level. Returns the
    /// number of values read and the number of levels read; what is read is
    /// `batch_model` of the reader's state, and it is all the reader's own
    /// decision but for the pages the page reader hands out.
    pub fn read_batch(
        &mut self,
        batch_size: usize,
        def_levels: Option<&mut Vec<i16>>,
        rep_levels: Option<&mut Vec<i16>>,
        values: &mut Vec<Value>,
    ) -> (r: Result<(usize, usize), ParquetError>)
        requires
            old(self).wf(),
        ensures
            final(self).wf(),
            final(self).descr_spec() == old(self).descr_spec(),
            ({
                let m = old(self).model();
                let out = batch_model(
                    m,
                    batch_size as nat,
                    m.descr.max_def_level > 0 && def_levels is Some,
                    m.descr.max_rep_level > 0 && rep_levels is Some,
                    def_levels is Some || rep_levels is Some,
                    0,
                );
                match out.result {
                    Ok((v, l)) => {
                        &&& r matches Ok((a, b)) && a == v && b == l
                        &&& final(self).model() == out.model
                        &&& views(final(values)@) == views(old(values)@) + out.values
                        &&& (def_levels matches Some(d) ==> final(d)@ == d@ + out.defs)
                        &&& (rep_levels matches Some(d) ==> final(d)@ == d@ + out.reps)
                    },
                    Err(e) => r == Err::<(usize, usize), ParquetError>(e) && final(self).is_exhausted(),
                }
            }),
            old(self).is_exhausted() ==> r == Ok::<(usize, usize), ParquetError>((0, 0))
                && *final(self) == *old(self) && final(values)@ == old(values)@,
            r matches Ok((v, l)) ==> {
                &&& final(values)@.len() == old(values)@.len() + v
                &&& final(values)@.take(old(values)@.len() as int) == old(values)@
                &&& (v >= batch_size || final(self).is_exhausted())
                &&& values_typed(old(values)@.len(), final(values)@, old(self).descr_spec())
            },
            match def_levels {
                Some(d) => batch_levels(
                    old(self).descr_spec().max_def_level,
                    old(self).is_exhausted(),
                    r,
                    d@,
                    final(d)@,
                ) && (old(self).descr_spec().max_def_level > 0 ==> (r matches Ok((v, l)) ==> count_of(
                    final(d)@.skip(d@.len() as int),
                    old(self).descr_spec().max_def_level,
                ) == v && v <= l)),
                None => true,
            },
            match rep_levels {
                Some(d) => batch_levels(
                    old(self).descr_spec().max_rep_level,
                    old(self).is_exhausted(),
                    r,
                    d@,
                    final(d)@,
                ),
                None => true,
            },
            def_levels is None && rep_levels is None ==> (r matches Ok((v, l)) ==> l == 0),
            (def_levels is Some || rep_levels is Some) && old(self).descr_spec().max_def_level == 0
                && old(self).descr_spec().max_rep_level == 0 ==> (r matches Ok((v, l)) ==> v == l),
    {
        let levels_given = def_levels.is_some() || rep_levels.is_some();
        let want_def = self.descr.max_def_level > 0 && def_levels.is_some();
        let want_rep = self.descr.max_rep_level > 0 && rep_levels.is_some();
        let mut def_scratch: Vec<i16> = Vec::new();
        let mut rep_scratch: Vec<i16> = Vec::new();
        match (def_levels, rep_levels) {
            (Some(d), Some(p)) => self.read_batch_into(batch_size, want_def, d, want_rep, p, levels_given, values),
            (Some(d), None) => self.read_batch_into(batch_size, want_def, d, false, &mut rep_scratch, levels_given, values),
            (None, Some(p)) => self.read_batch_into(batch_size, false, &mut def_scratch, want_rep, p, levels_given, values),
            (None, None) => self.read_batch_into(batch_size, false, &mut def_scratch, false, &mut rep_scratch, levels_given, values),
        }
    }

    #[verifier::rlimit(100)]
    fn read_batch_into(
        &mut self,
        batch_size: usize,
        want_def: bool,
        def_out: &mut Vec<i16>,
        want_rep: bool,
        rep_out: &mut Vec<i16>,
        levels_given: bool,
        values: &mut Vec<Value>,
    ) -> (r: Result<(usize, usize), ParquetError>)
        requires
            old(self).wf(),
            want_def ==> old(self).descr_spec().max_def_level > 0,
            want_rep ==> old(self).descr_spec().max_rep_level > 0,
        ensures
            final(self).wf(),
            final(self).descr_spec() == old(self).descr_spec(),
            ({
                let out = batch_model(old(self).model(), batch_size as nat, want_def, want_rep, levels_given, 0);
                match out.result {
                    Ok((v, l)) => {
                        &&& r matches Ok((a, b)) && a == v && b == l
                        &&& final(self).model() == out.model
                        &&& views(final(values)@) == views(old(values)@) + out.values
                        &&& final(def_out)@ == old(def_out)@ + out.defs
                        &&& final(rep_out)@ == old(rep_out)@ + out.reps
                    },
                    Err(e) => r == Err::<(usize, usize), ParquetError>(e) && final(self).is_exhausted(),
                }
            }),
            old(self).is_exhausted() ==> r == Ok::<(usize, usize), ParquetError>((0, 0))
                && *final(self) == *old(self) && final(values)@ == old(values)@,
            r is Err ==> final(self).is_exhausted(),
            r matches Ok((v, l)) ==> {
                &&& final(values)@.len() == old(values)@.len() + v
                &&& final(values)@.take(old(values)@.len() as int) == old(values)@
                &&& (v >= batch_size || final(self).is_exhausted())
                &&& values_typed(old(values)@.len(), final(values)@, old(self).descr_spec())
            },
            !want_def ==> final(def_out)@ == old(def_out)@,
            !want_rep ==> final(rep_out)@ == old(rep_out)@,
            old(self).is_exhausted() ==> final(def_out)@ == old(def_out)@ && final(rep_out)@ == old(rep_out)@,
            want_def ==> (r matches Ok((v, l)) ==> levels_appended(
                old(def_out)@,
                final(def_out)@,
                l as nat,
                old(self).descr_spec().max_def_level,
            ) && count_of(final(def_out)@.skip(old(def_out)@.len() as int), old(self).descr_spec().max_def_level) == v
                && v <= l),
            want_rep ==> (r matches Ok((v, l)) ==> levels_appended(
                old(rep_out)@,
                final(rep_out)@,
                l as nat,
                old(self).descr_spec().max_rep_level,
            )),
            !want_def && !want_rep ==> (r matches Ok((v, l)) ==> l == if levels_given {
                v
            } else {
                0
            }),
    {
        proof {
            lemma_batch_model_unfold(self.model(), batch_size as nat, want_def, want_rep, levels_given, 0);
        }
        if self.exhausted {
            assert(def_out@.take(def_out@.len() as int) =~= def_out@);
            assert(rep_out@.take(rep_out@.len() as int) =~= rep_out@);
            assert(def_out@.skip(def_out@.len() as int) =~= Seq::<i16>::empty());
            assert(def_out@ + Seq::<i16>::empty() =~= def_out@);
            assert(rep_out@ + Seq::<i16>::empty() =~= rep_out@);
            assert(views(values@) + Seq::<ValueView>::empty() =~= views(values@));
            return Ok((0, 0));
        }
        let max_def = self.descr.max_def_level;
        let max_rep = self.descr.max_rep_level;
        let ghost v0 = values@;
        let ghost d0 = def_out@;
        let ghost r0 = rep_out@;
        let ghost whole = batch_model(self.model(), batch_size as nat, want_def, want_rep, levels_given, 0);
        let mut values_read: usize = 0;
        let mut levels_read: usize = 0;
        let values_len = values.len();
        let def_len = def_out.len();
        let rep_len = rep_out.len();
        assert(values@.len() == values_len && def_out@.len() == def_len && rep_out@.len() == rep_len);
        proof {
            assert(d0.skip(d0.len() as int) =~= Seq::<i16>::empty());
            assert(r0.skip(r0.len() as int) =~= Seq::<i16>::empty());
            assert(views(v0).skip(v0.len() as int) =~= Seq::<ValueView>::empty());
            assert(d0.take(d0.len() as int) =~= d0);
            assert(r0.take(r0.len() as int) =~= r0);
            assert(v0.take(v0.len() as int) =~= v0);
            lemma_prepend_output_empty(whole);
        }
        while values_read < batch_size
            invariant_except_break
                !self.exhausted,
            invariant
                self.wf(),
                !old(self).exhausted,
                d0 == old(def_out)@,
                r0 == old(rep_out)@,
                v0 == old(values)@,
                whole == batch_model(old(self).model(), batch_size as nat, want_def, want_rep, levels_given, 0),
                prepend_output(
                    values_read as nat,
                    levels_read as nat,
                    def_out@.skip(d0.len() as int),
                    rep_out@.skip(r0.len() as int),
                    views(values@).skip(v0.len() as int),
                    batch_model(self.model(), batch_size as nat, want_def, want_rep, levels_given, values_read as nat),
                ) == whole,
                self.descr == old(self).descr,
                max_def == self.descr.max_def_level,
                max_rep == self.descr.max_rep_level,
                want_def ==> max_def > 0,
                want_rep ==> max_rep > 0,
                values@.len() == v0.len() + values_read,
                values@.take(v0.len() as int) == v0,
                values@.len() <= usize::MAX,
                values_typed(v0.len(), values@, self.descr),
                want_def ==> levels_appended(d0, def_out@, levels_read as nat, max_def)
                    && count_of(def_out@.skip(d0.len() as int), max_def) == values_read,
                !want_def ==> def_out@ == d0,
                want_rep ==> levels_appended(r0, rep_out@, (rep_out@.len() - r0.len()) as nat, max_rep),
                want_rep ==> rep_out@.len() - r0.len() == levels_read,
                !want_rep ==> rep_out@ == r0,
                !want_def && !want_rep ==> levels_read == if levels_given {
                    values_read
                } else {
                    0
                },
                def_out@.len() <= usize::MAX,
                rep_out@.len() <= usize::MAX,
            ensures
                values_read >= batch_size || self.exhausted,
            decreases self.page_reader.pages().len(), self.num_buffered_values - self.num_decoded_values,
        {
            let ghost m_now = self.model();
            proof {
                lemma_batch_model_unfold(m_now, batch_size as nat, want_def, want_rep, levels_given, values_read as nat);
                lemma_next_page_model(m_now);
            }
            if self.num_decoded_values == self.num_buffered_values {
                match self.read_new_page() {
                    Ok(true) => {
                        continue ;
                    },
                    Ok(false) => {
                        self.exhausted = true;
                        proof {
                            lemma_batch_model_unfold(self.model(), batch_size as nat, want_def, want_rep, levels_given, values_read as nat);
                        }
                        break ;
                    },
                    Err(e) => {
                        self.exhausted = true;
                        return Err(e);
                    },
                }
            }
            let ghost def_before = def_out@;
            let ghost rep_before = rep_out@;
            let ghost values_before = values@;
            let ghost before = *self;
            proof {
                self.lemma_levels_in_range();
                lemma_step_model(m_now, batch_size as nat, want_def, want_rep, levels_given);
            }
            let (got, lv) = match self.read_step(batch_size, want_def, def_out, want_rep, rep_out, levels_given, values) {
                Ok(x) => x,
                Err(e) => {
                    self.exhausted = true;
                    return Err(e);
                },
            };
            let values_len = values.len();
            let def_len = def_out.len();
            let rep_len = rep_out.len();
            assert(values@.len() == values_len && def_out@.len() == def_len && rep_out@.len() == rep_len);
            proof {
                let s = vstd::math::min(batch_size as int, (before.buffered() - before.decoded()) as int);
                let nd = if want_def {
                    vstd::math::min(s, before.def_rest().len() as int)
                } else {
                    0
                };
                let new_defs = before.def_rest().take(nd);
                assert(values@.take(v0.len() as int) =~= v0);
                assert forall|i: int| v0.len() <= i < values@.len() implies #[trigger] has_type(
                    values@[i]@,
                    self.descr.physical_type,
                    self.descr.type_length,
                ) by {
                    if i < values_before.len() {
                        assert(values@.take(values_before.len() as int)[i] == values_before[i]);
                    }
                }
                if want_def {
                    assert(def_out@.skip(d0.len() as int) =~= def_before.skip(d0.len() as int) + new_defs);
                    lemma_count_of_append(def_before.skip(d0.len() as int), new_defs, max_def);
                    assert(def_out@.take(d0.len() as int) =~= d0);
                    assert forall|i: int| d0.len() <= i < def_out@.len() implies 0 <= #[trigger] def_out@[i] <= max_def by {
                        if i >= def_before.len() {
                            assert(def_out@[i] == before.def_rest()[i - def_before.len()]);
                        }
                    }
                }
                if want_rep {
                    assert(rep_out@.take(r0.len() as int) =~= r0);
                    assert forall|i: int| r0.len() <= i < rep_out@.len() implies 0 <= #[trigger] rep_out@[i] <= max_rep by {
                        if i >= rep_before.len() {
                            assert(rep_out@[i] == before.rep_rest()[i - rep_before.len()]);
                        }
                    }
                }
                let st = step_model(m_now, batch_size as nat, want_def, want_rep, levels_given);
                assert(def_out@.skip(d0.len() as int) =~= def_before.skip(d0.len() as int) + st.defs);
                assert(rep_out@.skip(r0.len() as int) =~= rep_before.skip(r0.len() as int) + st.reps);
                assert(views(values@).skip(v0.len() as int) =~= views(values_before).skip(v0.len() as int) + st.values);
                lemma_prepend_output_assoc(
                    values_read as nat,
                    levels_read as nat,
                    def_before.skip(d0.len() as int),
                    rep_before.skip(r0.len() as int),
                    views(values_before).skip(v0.len() as int),
                    got as nat,
                    lv as nat,
                    st.defs,
                    st.reps,
                    st.values,
                    batch_model(self.model(), batch_size as nat, want_def, want_rep, levels_given, (values_read + got) as nat),
                );
            }
            values_read = values_read + got;
            levels_read = levels_read + lv;
        }
        proof {
            lemma_batch_model_unfold(self.model(), batch_size as nat, want_def, want_rep, levels_given, values_read as nat);
            if want_def {
                lemma_count_of_le_len(def_out@.skip(d0.len() as int), max_def);
            }
            assert(def_out@ =~= d0 + def_out@.skip(d0.len() as int));
            assert(rep_out@ =~= r0 + rep_out@.skip(r0.len() as int));
            assert(views(values@) =~= views(v0) + views(values@).skip(v0.len() as int));
            assert(def_out@.skip(d0.len() as int) + Seq::<i16>::empty() =~= def_out@.skip(d0.len() as int));
            assert(rep_out@.skip(r0.len() as int) + Seq::<i16>::empty() =~= rep_out@.skip(r0.len() as int));
            assert(views(values@).skip(v0.len() as int) + Seq::<ValueView>::empty() =~= views(values@).skip(v0.len() as int));
        }
        Ok((values_read, levels_read))
    }
}

proof fn lemma_prepend_output_empty(out: BatchOutput)
    ensures
        prepend_output(0, 0, seq![], seq![], seq![], out) == out,
{
    assert(Seq::<i16>::empty() + out.defs =~= out.defs);
    assert(Seq::<i16>::empty() + out.reps =~= out.reps);
    assert(Seq::<ValueView>::empty() + out.values =~= out.values);
}

proof fn lemma_prepend_output_assoc(
    v: nat,
    l: nat,
    d: Seq<i16>,
    p: Seq<i16>,
    x: Seq<ValueView>,
    v2: nat,
    l2: nat,
    d2: Seq<i16>,
    reps2: Seq<i16>,
    x2: Seq<ValueView>,
    out: BatchOutput,
)
    ensures
        prepend_output(v, l, d, p, x, prepend_output(v2, l2, d2, reps2, x2, out)) == prepend_output(
            v + v2,
            l + l2,
            d + d2,
            p + reps2,
            x + x2,
            out,
        ),
{
    assert(d + (d2 + out.defs) =~= (d + d2) + out.defs);
    assert(p + (reps2 + out.reps) =~= (p + reps2) + out.reps);
    assert(x + (x2 + out.values) =~= (x + x2) + out.values);
}

/// What `read_batch` owes an output of levels with maximum `max`: nothing
/// changes when the maximum is 0 or the reader was exhausted; otherwise, on
/// success, `l` levels between 0 and `max` are appended.
pub open spec fn batch_levels(
    max: i16,
    exhausted: bool,
    r: Result<(usize, usize), ParquetError>,
    old: Seq<i16>,
    new: Seq<i16>,
) -> bool {
    if max == 0 || exhausted {
        new == old
    } else {
        r matches Ok((v, l)) ==> levels_appended(old, new, l as nat, max)
    }
}

/// A column reader tagged with the physical type of its column.
pub enum ColumnReader<P> {
    BoolColumnReader(ColumnReaderImpl<P>),
    Int32ColumnReader(ColumnReaderImpl<P>),
    Int64ColumnReader(ColumnReaderImpl<P>),
    Int96ColumnReader(ColumnReaderImpl<P>),
    FloatColumnReader(ColumnReaderImpl<P>),
    DoubleColumnReader(ColumnReaderImpl<P>),
    ByteArrayColumnReader(ColumnReaderImpl<P>),
    FixedLenByteArrayColumnReader(ColumnReaderImpl<P>),
}

impl<P> ColumnReader<P> {
    pub open spec fn inner(self) -> ColumnReaderImpl<P> {
        match self {
            ColumnReader::BoolColumnReader(r) => r,
            ColumnReader::Int32ColumnReader(r) => r,
            ColumnReader::Int64ColumnReader(r) => r,
            ColumnReader::Int96ColumnReader(r) => r,
            ColumnReader::FloatColumnReader(r) => r,
            ColumnReader::DoubleColumnReader(r) => r,
            ColumnReader::ByteArrayColumnReader(r) => r,
            ColumnReader::FixedLenByteArrayColumnReader(r) => r,
        }
    }

    /// The tag names physical type `t`.
    pub open spec fn tagged(self, t: PhysicalType) -> bool {
        match self {
            ColumnReader::BoolColumnReader(_) => t == PhysicalType::BOOLEAN,
            ColumnReader::Int32ColumnReader(_) => t == PhysicalType::INT32,
            ColumnReader::Int64ColumnReader(_) => t == PhysicalType::INT64,
            ColumnReader::Int96ColumnReader(_) => t == PhysicalType::INT96,
            ColumnReader::FloatColumnReader(_) => t == PhysicalType::FLOAT,
            ColumnReader::DoubleColumnReader(_) => t == PhysicalType::DOUBLE,
            ColumnReader::ByteArrayColumnReader(_) => t == PhysicalType::BYTE_ARRAY,
            ColumnReader::FixedLenByteArrayColumnReader(_) => t
                == PhysicalType::FIXED_LEN_BYTE_ARRAY,
        }
    }
}

/// A reader of the column `descr` describes, over the pages of `page_reader`,
/// tagged with the column's physical type.
pub fn get_column_reader<P: PageReader>(descr: ColumnDescriptor, page_reader: P) -> (r: ColumnReader<P>)
    requires
        descr.wf(),
    ensures
        r.tagged(descr.physical_type),
        r.inner().wf(),
        r.inner().descr_spec() == descr,
        !r.inner().is_exhausted(),
        !r.inner().has_dict(),
        r.inner().buffered() == 0,
        r.inner().model() == (ReaderModel {
            descr,
            pages: page_reader.pages(),
            exhausted: false,
            dict: None,
            buffered: 0,
            decoded: 0,
            def_rest: seq![],
            rep_rest: seq![],
            pending: seq![],
            values_left: 0,
            tail: ParquetError::UnexpectedEof,
        }),
{
    let reader = ColumnReaderImpl::new(descr, page_reader);
    match descr.physical_type {
        PhysicalType::BOOLEAN => ColumnReader::BoolColumnReader(reader),
        PhysicalType::INT32 => ColumnReader::Int32ColumnReader(reader),
        PhysicalType::INT64 => ColumnReader::Int64ColumnReader(reader),
        PhysicalType::INT96 => ColumnReader::Int96ColumnReader(reader),
        PhysicalType::FLOAT => ColumnReader::FloatColumnReader(reader),
        PhysicalType::DOUBLE => ColumnReader::DoubleColumnReader(reader),
        PhysicalType::BYTE_ARRAY => ColumnReader::ByteArrayColumnReader(reader),
        PhysicalType::FIXED_LEN_BYTE_ARRAY => ColumnReader::FixedLenByteArrayColumnReader(reader),
    }
}

/// The reader inside `col_reader`, whatever its tag.
pub fn get_typed_column_reader<P: PageReader>(col_reader: ColumnReader<P>) -> (r: ColumnReaderImpl<P>)
    ensures
        r == col_reader.inner(),
{
    match col_reader {
        ColumnReader::BoolColumnReader(r) => r,
        ColumnReader::Int32ColumnReader(r) => r,
        ColumnReader::Int64ColumnReader(r) => r,
        ColumnReader::Int96ColumnReader(r) => r,
        ColumnReader::FloatColumnReader(r) => r,
        ColumnReader::DoubleColumnReader(r) => r,
        ColumnReader::ByteArrayColumnReader(r) => r,
        ColumnReader::FixedLenByteArrayColumnReader(r) => r,
    }
}

} // verus!
