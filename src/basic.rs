//! Physical types, encodings, errors and column descriptors.
use vstd::prelude::*;

verus! {

/// What can go wrong while decoding a column chunk.
#[derive(Clone, Copy, Debug, PartialEq, Eq, Structural)]
pub enum ParquetError {
    /// A buffer is shorter than a header or a width requires.
    UnexpectedEof,
    /// An encoding outside the supported set.
    UnsupportedEncoding,
    /// A second dictionary page in one column chunk.
    DuplicateDictionary,
    /// A dictionary-encoded data page before any dictionary page.
    MissingDictionary,
    /// Definition and repetition levels disagree in number.
    LevelMismatch,
    /// A dictionary index at or past the end of the dictionary.
    DictIndexOutOfRange,
    /// A header field that no valid stream holds.
    InvalidHeader,
    /// An encoding used on a physical type it does not support.
    TypeMismatch,
}

/// The physical type of a column.
#[allow(non_camel_case_types)]
#[derive(Clone, Copy, Debug, PartialEq, Eq, Structural)]
pub enum PhysicalType {
    BOOLEAN,
    INT32,
    INT64,
    INT96,
    FLOAT,
    DOUBLE,
    BYTE_ARRAY,
    FIXED_LEN_BYTE_ARRAY,
}

/// The encodings of values and levels.
#[allow(non_camel_case_types)]
#[derive(Clone, Copy, Debug, PartialEq, Eq, Structural, Hash)]
pub enum Encoding {
    PLAIN,
    PLAIN_DICTIONARY,
    RLE,
    BIT_PACKED,
    DELTA_BINARY_PACKED,
    DELTA_LENGTH_BYTE_ARRAY,
    DELTA_BYTE_ARRAY,
    RLE_DICTIONARY,
}

/// The two names of dictionary encoding are read alike.
pub open spec fn normalized(e: Encoding) -> Encoding {
    if e == Encoding::PLAIN_DICTIONARY {
        Encoding::RLE_DICTIONARY
    } else {
        e
    }
}

pub fn normalize_encoding(e: Encoding) -> (r: Encoding)
    ensures
        r == normalized(e),
{
    match e {
        Encoding::PLAIN_DICTIONARY => Encoding::RLE_DICTIONARY,
        _ => e,
    }
}

/// What the decoding of one column needs to know about it.
#[derive(Clone, Copy, Debug, PartialEq, Eq, Structural)]
pub struct ColumnDescriptor {
    pub physical_type: PhysicalType,
    /// Byte length of each value; meaningful for fixed-length byte arrays only.
    pub type_length: i32,
    pub max_def_level: i16,
    pub max_rep_level: i16,
}

impl ColumnDescriptor {
    /// Levels are not negative, and fixed-length byte arrays have a positive
    /// length.
    pub open spec fn wf(&self) -> bool {
        &&& self.max_def_level >= 0
        &&& self.max_rep_level >= 0
        &&& (self.physical_type == PhysicalType::FIXED_LEN_BYTE_ARRAY ==> self.type_length > 0)
    }

    /// A descriptor, or `InvalidHeader` when the levels are negative or a
    /// fixed-length byte array has no positive length.
    pub fn new(
        physical_type: PhysicalType,
        type_length: i32,
        max_def_level: i16,
        max_rep_level: i16,
    ) -> (r: Result<ColumnDescriptor, ParquetError>)
        ensures
            match r {
                Ok(d) => d.wf() && d.physical_type == physical_type && d.type_length
                    == type_length && d.max_def_level == max_def_level && d.max_rep_level
                    == max_rep_level,
                Err(e) => e == ParquetError::InvalidHeader && !(ColumnDescriptor {
                    physical_type,
                    type_length,
                    max_def_level,
                    max_rep_level,
                }).wf(),
            },
    {
        if max_def_level < 0 || max_rep_level < 0 {
            return Err(ParquetError::InvalidHeader);
        }
        match physical_type {
            PhysicalType::FIXED_LEN_BYTE_ARRAY => {
                if type_length <= 0 {
                    return Err(ParquetError::InvalidHeader);
                }
            },
            _ => {},
        }
        Ok(ColumnDescriptor { physical_type, type_length, max_def_level, max_rep_level })
    }

    pub fn physical_type(&self) -> (r: PhysicalType)
        ensures
            r == self.physical_type,
    {
        self.physical_type
    }

    pub fn type_length(&self) -> (r: i32)
        ensures
            r == self.type_length,
    {
        self.type_length
    }

    pub fn max_def_level(&self) -> (r: i16)
        ensures
            r == self.max_def_level,
    {
        self.max_def_level
    }

    pub fn max_rep_level(&self) -> (r: i16)
        ensures
            r == self.max_rep_level,
    {
        self.max_rep_level
    }
}

/// Julian day number of 1970-01-01.
pub const JULIAN_DAY_OF_EPOCH: i64 = 2_440_588;

pub const MILLIS_PER_DAY: i64 = 86_400_000;

pub const NANOS_PER_MILLI: u64 = 1_000_000;

/// A 96-bit value: three 32-bit words, least significant first. As a
/// timestamp, the first two words are nanoseconds within the day and the third
/// is the Julian day.
#[derive(Clone, Copy, Debug, PartialEq, Eq, Structural)]
pub struct Int96 {
    pub word0: u32,
    pub word1: u32,
    pub word2: u32,
}

/// Milliseconds since 1970-01-01 of the timestamp held in `v`.
pub open spec fn timestamp_millis(v: Int96) -> int {
    (v.word2 - JULIAN_DAY_OF_EPOCH) * MILLIS_PER_DAY + (v.word1 * 0x1_0000_0000 + v.word0)
        / NANOS_PER_MILLI as int
}

impl Int96 {
    pub fn new(word0: u32, word1: u32, word2: u32) -> (r: Int96)
        ensures
            r == (Int96 { word0, word1, word2 }),
    {
        Int96 { word0, word1, word2 }
    }

    pub fn data(&self) -> (r: [u32; 3])
        ensures
            r@ == seq![self.word0, self.word1, self.word2],
    {
        let r = [self.word0, self.word1, self.word2];
        assert(r@ =~= seq![self.word0, self.word1, self.word2]);
        r
    }

    /// Milliseconds since 1970-01-01 (negative before it):
    /// `(day - 2440588) * 86400000 + nanos / 1000000`, where `nanos` is the
    /// 64-bit number made of the first two words.
    pub fn to_timestamp_millis(&self) -> (r: i64)
        ensures
            r == timestamp_millis(*self),
    {
        let nanos: u64 = (self.word1 as u64) * 0x1_0000_0000 + self.word0 as u64;
        let days: i64 = self.word2 as i64 - JULIAN_DAY_OF_EPOCH;
        assert(-JULIAN_DAY_OF_EPOCH <= days <= 0xffff_ffff);
        assert(days * MILLIS_PER_DAY <= 0xffff_ffff * MILLIS_PER_DAY) by (nonlinear_arith)
            requires
                days <= 0xffff_ffff,
        ;
        assert(days * MILLIS_PER_DAY >= -JULIAN_DAY_OF_EPOCH * MILLIS_PER_DAY) by (nonlinear_arith)
            requires
                days >= -JULIAN_DAY_OF_EPOCH,
        ;
        days * MILLIS_PER_DAY + (nanos / NANOS_PER_MILLI) as i64
    }
}

} // verus!
