//! Value decoders, one per encoding. `set_data` decodes the values of a page;
//! `get` then hands them out in order.
use crate::basic::{ColumnDescriptor, Encoding, Int96, ParquetError, PhysicalType};
use crate::bit_util::{batch_count, bits_le, bytes_le, read_le, BitReader};
use crate::data_type::{all_typed, has_type, views, ByteArray, Value, ValueView};
use crate::memory::Buffer;
use crate::delta::{decode_delta, delta_decode, nats, offset_after, stream_end};
use crate::rle::{decode_hybrid, hybrid_values, law_single_runs_round_trip, prefix, single_runs_encode};
use vstd::prelude::*;

verus! {

/// What `set_data` leaves behind: the values decoded, how many the page
/// declares, and the error that a request past the decoded values meets.
pub struct Outcome {
    pub values: Seq<ValueView>,
    pub declared: nat,
    pub tail_error: ParquetError,
}

/// Decoded values of one page and a cursor over them.
pub struct DecodedValues {
    values: Vec<Value>,
    next: usize,
    left: usize,
    tail_error: ParquetError,
}

impl DecodedValues {
    pub closed spec fn wf(&self) -> bool {
        self.next <= self.values@.len()
    }

    /// The decoded values not yet handed out.
    pub closed spec fn pending(&self) -> Seq<ValueView> {
        views(self.values@.skip(self.next as int))
    }

    /// How many values the page still declares.
    pub closed spec fn left(&self) -> nat {
        self.left as nat
    }

    pub closed spec fn tail(&self) -> ParquetError {
        self.tail_error
    }

    pub fn empty() -> (r: DecodedValues)
        ensures
            r.wf(),
            r.pending() == Seq::<ValueView>::empty(),
            r.left() == 0,
    {
        let r = DecodedValues {
            values: Vec::new(),
            next: 0,
            left: 0,
            tail_error: ParquetError::UnexpectedEof,
        };
        assert(r.pending() =~= Seq::<ValueView>::empty());
        r
    }

    pub fn new(values: Vec<Value>, left: usize, tail_error: ParquetError) -> (r: DecodedValues)
        ensures
            r.wf(),
            r.pending() == views(values@),
            r.left() == left,
            r.tail() == tail_error,
    {
        let r = DecodedValues { values, next: 0, left, tail_error };
        assert(r.values@.skip(0) =~= r.values@);
        r
    }

    pub fn values_left(&self) -> (r: usize)
        ensures
            r == self.left(),
    {
        self.left
    }

    /// Appends the next `min(max, left)` values to `out`, or fails with the
    /// tail error, changing nothing, when fewer were decoded.
    pub fn get(&mut self, out: &mut Vec<Value>, max: usize) -> (r: Result<usize, ParquetError>)
        requires
            old(self).wf(),
        ensures
            final(self).wf(),
            get_result(old(self).pending(), old(self).left(), old(self).tail(), max as nat, r, old(out)@, final(out)@),
            r is Ok ==> final(self).pending() == old(self).pending().skip(r->Ok_0 as int)
                && final(self).left() == old(self).left() - r->Ok_0 && final(self).tail() == old(self).tail(),
            r is Err ==> *final(self) == *old(self),
    {
        let n = if max < self.left {
            max
        } else {
            self.left
        };
        if n > self.values.len() - self.next {
            return Err(self.tail_error);
        }
        let ghost out0 = out@;
        let ghost pending0 = self.pending();
        let mut i: usize = 0;
        while i < n
            invariant
                self.wf(),
                self.values == old(self).values,
                self.left == old(self).left,
                self.tail_error == old(self).tail_error,
                i <= n,
                self.next == old(self).next + i,
                old(self).next + n <= self.values@.len() <= usize::MAX,
                pending0 == old(self).pending(),
                views(out@) == views(out0) + pending0.take(i as int),
                out@.len() == out0.len() + i,
                out@.take(out0.len() as int) == out0,
            decreases n - i,
        {
            let v = self.values[self.next].duplicate();
            let ghost prev = out@;
            let ghost vv = v@;
            assert(pending0[i as int] == vv);
            out.push(v);
            assert(views(out@) =~= views(prev).push(vv));
            assert(pending0.take(i + 1) =~= pending0.take(i as int).push(vv));
            self.next = self.next + 1;
            i = i + 1;
            assert(views(out@) =~= views(out0) + pending0.take(i as int));
            assert(out@.take(out0.len() as int) =~= out0);
        }
        self.left = self.left - n;
        assert(self.pending() =~= pending0.skip(n as int));
        Ok(n)
    }
}

/// What `get` owes: `Ok(n)` with `n = min(max, left)` when that many values
/// were decoded, the first `n` of them appended; the tail error, appending
/// nothing, otherwise.
pub open spec fn get_result(
    pending: Seq<ValueView>,
    left: nat,
    tail: ParquetError,
    max: nat,
    r: Result<usize, ParquetError>,
    out0: Seq<Value>,
    out1: Seq<Value>,
) -> bool {
    let n = vstd::math::min(max as int, left as int);
    if n <= pending.len() {
        &&& r == Ok::<usize, ParquetError>(n as usize)
        &&& out1.len() == out0.len() + n
        &&& out1.take(out0.len() as int) == out0
        &&& views(out1) == views(out0) + pending.take(n)
    } else {
        &&& r == Err::<usize, ParquetError>(tail)
        &&& out1 == out0
    }
}

/// A decoder of the values of data pages.
pub trait Decoder {
    spec fn wf(&self) -> bool;

    /// The decoded values not yet handed out.
    spec fn pending(&self) -> Seq<ValueView>;

    /// How many values the page still declares.
    spec fn left(&self) -> nat;

    spec fn tail(&self) -> ParquetError;

    /// What `set_data` makes of `data` with `num_values` declared values.
    spec fn outcome(&self, data: Seq<u8>, num_values: nat) -> Result<Outcome, ParquetError>;

    spec fn encoding_spec(&self) -> Encoding;

    /// Decodes the values of a page that declares `num_values` values.
    fn set_data(&mut self, data: Buffer, num_values: usize) -> (r: Result<(), ParquetError>)
        requires
            old(self).wf(),
        ensures
            final(self).wf(),
            final(self).encoding_spec() == old(self).encoding_spec(),
            forall|d: Seq<u8>, n: nat| #[trigger] final(self).outcome(d, n) == old(self).outcome(d, n),
            match old(self).outcome(data@, num_values as nat) {
                Ok(o) => r is Ok && final(self).pending() == o.values && final(self).left()
                    == o.declared && final(self).tail() == o.tail_error,
                Err(e) => r == Err::<(), ParquetError>(e),
            },
    ;

    /// Appends up to `max` values to `out`; returns how many.
    fn get(&mut self, out: &mut Vec<Value>, max: usize) -> (r: Result<usize, ParquetError>)
        requires
            old(self).wf(),
        ensures
            final(self).wf(),
            final(self).encoding_spec() == old(self).encoding_spec(),
            forall|d: Seq<u8>, n: nat| #[trigger] final(self).outcome(d, n) == old(self).outcome(d, n),
            get_result(old(self).pending(), old(self).left(), old(self).tail(), max as nat, r, old(out)@, final(out)@),
            r is Ok ==> final(self).pending() == old(self).pending().skip(r->Ok_0 as int)
                && final(self).left() == old(self).left() - r->Ok_0,
            final(self).tail() == old(self).tail(),
            r is Err ==> final(self).pending() == old(self).pending() && final(self).left()
                == old(self).left(),
    ;

    /// How many values the page still declares.
    fn values_left(&self) -> (r: usize)
        requires
            self.wf(),
        ensures
            r == self.left(),
    ;

    fn encoding(&self) -> (r: Encoding)
        ensures
            r == self.encoding_spec(),
    ;
}

// ----------------------------------------------------------------------
// PLAIN

/// The little-endian signed integers and bit patterns of PLAIN data.
pub open spec fn le_u32(d: Seq<u8>, pos: int) -> u32 {
    (bytes_le(d, pos, 4) as u64) as u32
}

pub open spec fn le_u64(d: Seq<u8>, pos: int) -> u64 {
    bytes_le(d, pos, 8) as u64
}

/// Length-prefixed byte arrays from byte `pos`: a 4-byte little-endian length,
/// then that many bytes; at most `n` of them, up to the first that does not fit.
pub open spec fn byte_array_values(d: Seq<u8>, pos: int, n: nat) -> Seq<ValueView>
    decreases n,
{
    if n == 0 || pos < 0 || pos + 4 > d.len() {
        seq![]
    } else {
        let l = bytes_le(d, pos, 4);
        if pos + 4 + l > d.len() {
            seq![]
        } else {
            seq![ValueView::Bytes(d.subrange(pos + 4, pos + 4 + l))] + byte_array_values(
                d,
                pos + 4 + l,
                (n - 1) as nat,
            )
        }
    }
}

/// The values of PLAIN data of physical type `t`: at most `n` of them, as many
/// whole values as the data holds.
pub open spec fn plain_values(t: PhysicalType, type_length: i32, d: Seq<u8>, n: nat) -> Seq<ValueView> {
    match t {
        PhysicalType::BOOLEAN => Seq::new(
            batch_count(n, d.len() * 8, 1),
            |i: int| ValueView::Bool(bits_le(d, i, 1) == 1),
        ),
        PhysicalType::INT32 => Seq::new(
            batch_count(n, d.len(), 4),
            |i: int| ValueView::Int32(le_u32(d, 4 * i) as i32),
        ),
        PhysicalType::INT64 => Seq::new(
            batch_count(n, d.len(), 8),
            |i: int| ValueView::Int64(le_u64(d, 8 * i) as i64),
        ),
        PhysicalType::INT96 => Seq::new(
            batch_count(3 * n, d.len(), 4) / 3,
            |i: int|
                ValueView::Int96(
                    Int96 {
                        word0: le_u32(d, 12 * i),
                        word1: le_u32(d, 12 * i + 4),
                        word2: le_u32(d, 12 * i + 8),
                    },
                ),
        ),
        PhysicalType::FLOAT => Seq::new(
            batch_count(n, d.len(), 4),
            |i: int| ValueView::Float(le_u32(d, 4 * i)),
        ),
        PhysicalType::DOUBLE => Seq::new(
            batch_count(n, d.len(), 8),
            |i: int| ValueView::Double(le_u64(d, 8 * i)),
        ),
        PhysicalType::BYTE_ARRAY => byte_array_values(d, 0, n),
        PhysicalType::FIXED_LEN_BYTE_ARRAY => Seq::new(
            batch_count(n, d.len(), type_length as nat),
            |i: int|
                ValueView::Bytes(d.subrange(i * type_length, i * type_length + type_length)),
        ),
    }
}

proof fn lemma_views_push(s: Seq<Value>, v: Value)
    ensures
        views(s.push(v)) == views(s).push(v@),
{
    assert(views(s.push(v)) =~= views(s).push(v@));
}

/// The PLAIN bytes of 32-bit integers: four little-endian bytes each.
pub open spec fn plain_encode_i32(vals: Seq<i32>) -> Seq<u8> {
    Seq::new(4 * vals.len(), |j: int| ((vals[j / 4] as u32) >> (8 * (j % 4)) as u32) as u8)
}

proof fn lemma_le_bytes_u32(x: u32)
    ensures
        ((x >> 0u32) as u8) + 256 * (((x >> 8u32) as u8) + 256 * (((x >> 16u32) as u8) + 256 * ((x
            >> 24u32) as u8))) == x,
        ((x as i32) as u32) == x,
{
    let b0 = (x >> 0u32) as u8;
    let b1 = (x >> 8u32) as u8;
    let b2 = (x >> 16u32) as u8;
    let b3 = (x >> 24u32) as u8;
    assert(b0 as u64 + 256 * (b1 as u64 + 256 * (b2 as u64 + 256 * b3 as u64)) == x as u64) by (bit_vector)
        requires
            b0 == (x >> 0u32) as u8,
            b1 == (x >> 8u32) as u8,
            b2 == (x >> 16u32) as u8,
            b3 == (x >> 24u32) as u8,
    ;
    assert(((x as i32) as u32) == x) by (bit_vector);
}

/// Decoding the PLAIN bytes of a sequence of 32-bit integers gives the
/// sequence back.
pub proof fn law_plain_int32_round_trip(vals: Seq<i32>, type_length: i32)
    ensures
        plain_values(PhysicalType::INT32, type_length, plain_encode_i32(vals), vals.len())
            == vals.map_values(|v: i32| ValueView::Int32(v)),
{
    let d = plain_encode_i32(vals);
    let n = vals.len();
    assert(batch_count(n, d.len(), 4) == n);
    assert forall|i: int| 0 <= i < n implies #[trigger] le_u32(d, 4 * i) as i32 == vals[i] by {
        let x = vals[i] as u32;
        assert((4 * i) / 4 == i && (4 * i + 1) / 4 == i && (4 * i + 2) / 4 == i && (4 * i + 3) / 4
            == i);
        assert((4 * i) % 4 == 0 && (4 * i + 1) % 4 == 1 && (4 * i + 2) % 4 == 2 && (4 * i + 3) % 4
            == 3);
        assert(d[4 * i] == (x >> 0u32) as u8);
        assert(d[4 * i + 1] == (x >> 8u32) as u8);
        assert(d[4 * i + 2] == (x >> 16u32) as u8);
        assert(d[4 * i + 3] == (x >> 24u32) as u8);
        lemma_le_bytes_u32(x);
        assert(bytes_le(d, 4 * i + 4, 0) == 0);
        assert(bytes_le(d, 4 * i + 3, 1) == d[4 * i + 3] + 256 * bytes_le(d, 4 * i + 4, 0));
        assert(bytes_le(d, 4 * i + 2, 2) == d[4 * i + 2] + 256 * bytes_le(d, 4 * i + 3, 1));
        assert(bytes_le(d, 4 * i + 1, 3) == d[4 * i + 1] + 256 * bytes_le(d, 4 * i + 2, 2));
        assert(bytes_le(d, 4 * i, 4) == d[4 * i] + 256 * bytes_le(d, 4 * i + 1, 3));
        assert(bytes_le(d, 4 * i, 4) == x);
        let v = vals[i];
        assert(((v as u32) as i32) == v) by (bit_vector);
    }
    assert(plain_values(PhysicalType::INT32, type_length, d, n) =~= vals.map_values(
        |v: i32| ValueView::Int32(v),
    ));
}

/// The PLAIN bytes of 64-bit integers: eight little-endian bytes each.
pub open spec fn plain_encode_i64(vals: Seq<i64>) -> Seq<u8> {
    Seq::new(8 * vals.len(), |j: int| ((vals[j / 8] as u64) >> (8 * (j % 8)) as u64) as u8)
}

proof fn lemma_le_bytes_u64(x: u64)
    ensures
        ((x >> 0u64) as u8) + 256 * (((x >> 8u64) as u8) + 256 * (((x >> 16u64) as u8) + 256 * (((x
            >> 24u64) as u8) + 256 * (((x >> 32u64) as u8) + 256 * (((x >> 40u64) as u8) + 256 * (((x
            >> 48u64) as u8) + 256 * ((x >> 56u64) as u8))))))) == x,
{
    let b0 = (x >> 0u64) as u8;
    let b1 = (x >> 8u64) as u8;
    let b2 = (x >> 16u64) as u8;
    let b3 = (x >> 24u64) as u8;
    let b4 = (x >> 32u64) as u8;
    let b5 = (x >> 40u64) as u8;
    let b6 = (x >> 48u64) as u8;
    let b7 = (x >> 56u64) as u8;
    assert(b0 as u128 + 256 * (b1 as u128 + 256 * (b2 as u128 + 256 * (b3 as u128 + 256 * (b4 as u128
        + 256 * (b5 as u128 + 256 * (b6 as u128 + 256 * b7 as u128)))))) == x as u128) by (bit_vector)
        requires
            b0 == (x >> 0u64) as u8,
            b1 == (x >> 8u64) as u8,
            b2 == (x >> 16u64) as u8,
            b3 == (x >> 24u64) as u8,
            b4 == (x >> 32u64) as u8,
            b5 == (x >> 40u64) as u8,
            b6 == (x >> 48u64) as u8,
            b7 == (x >> 56u64) as u8,
    ;
}

/// Decoding the PLAIN bytes of a sequence of 64-bit integers gives the
/// sequence back.
pub proof fn law_plain_int64_round_trip(vals: Seq<i64>, type_length: i32)
    ensures
        plain_values(PhysicalType::INT64, type_length, plain_encode_i64(vals), vals.len())
            == vals.map_values(|v: i64| ValueView::Int64(v)),
{
    let d = plain_encode_i64(vals);
    let n = vals.len();
    assert(batch_count(n, d.len(), 8) == n);
    assert forall|i: int| 0 <= i < n implies #[trigger] le_u64(d, 8 * i) as i64 == vals[i] by {
        let x = vals[i] as u64;
        assert forall|k: int| 0 <= k < 8 implies #[trigger] d[8 * i + k] == (x >> (8 * k) as u64) as u8 by {
            assert((8 * i + k) / 8 == i && (8 * i + k) % 8 == k);
        }
        assert(d[8 * i + 0] == (x >> 0u64) as u8);
        assert(d[8 * i + 1] == (x >> 8u64) as u8);
        assert(d[8 * i + 2] == (x >> 16u64) as u8);
        assert(d[8 * i + 3] == (x >> 24u64) as u8);
        assert(d[8 * i + 4] == (x >> 32u64) as u8);
        assert(d[8 * i + 5] == (x >> 40u64) as u8);
        assert(d[8 * i + 6] == (x >> 48u64) as u8);
        assert(d[8 * i + 7] == (x >> 56u64) as u8);
        lemma_le_bytes_u64(x);
        assert(bytes_le(d, 8 * i + 8, 0) == 0);
        assert(bytes_le(d, 8 * i + 7, 1) == d[8 * i + 7] + 256 * bytes_le(d, 8 * i + 8, 0));
        assert(bytes_le(d, 8 * i + 6, 2) == d[8 * i + 6] + 256 * bytes_le(d, 8 * i + 7, 1));
        assert(bytes_le(d, 8 * i + 5, 3) == d[8 * i + 5] + 256 * bytes_le(d, 8 * i + 6, 2));
        assert(bytes_le(d, 8 * i + 4, 4) == d[8 * i + 4] + 256 * bytes_le(d, 8 * i + 5, 3));
        assert(bytes_le(d, 8 * i + 3, 5) == d[8 * i + 3] + 256 * bytes_le(d, 8 * i + 4, 4));
        assert(bytes_le(d, 8 * i + 2, 6) == d[8 * i + 2] + 256 * bytes_le(d, 8 * i + 3, 5));
        assert(bytes_le(d, 8 * i + 1, 7) == d[8 * i + 1] + 256 * bytes_le(d, 8 * i + 2, 6));
        assert(bytes_le(d, 8 * i, 8) == d[8 * i] + 256 * bytes_le(d, 8 * i + 1, 7));
        assert(bytes_le(d, 8 * i, 8) == x);
        let v = vals[i];
        assert(((v as u64) as i64) == v) by (bit_vector);
    }
    assert(plain_values(PhysicalType::INT64, type_length, d, n) =~= vals.map_values(
        |v: i64| ValueView::Int64(v),
    ));
}

/// Reads up to `n` little-endian integers of `width` bytes from the start of
/// `data`, as many as fit.
fn read_words(data: &Buffer, n: usize, width: usize) -> (r: Vec<u64>)
    requires
        1 <= width <= 8,
    ensures
        r@ == Seq::new(
            batch_count(n as nat, data@.len(), width as nat),
            |i: int| bytes_le(data@, i * width, width as nat) as u64,
        ),
{
    let ghost d = data@;
    let len = data.len();
    let mut reader = BitReader::new(data.all());
    let mut out: Vec<u64> = Vec::new();
    let mut i: usize = 0;
    loop
        invariant_except_break
            i <= n,
            reader.wf(),
            reader.data() == d,
            reader.pos() == i * width * 8,
            i * width <= d.len(),
            out@ == Seq::new(i as nat, |j: int| bytes_le(d, j * width, width as nat) as u64),
        invariant
            1 <= width <= 8,
            len == d.len(),
        ensures
            out@ == Seq::new(
                batch_count(n as nat, d.len(), width as nat),
                |j: int| bytes_le(d, j * width, width as nat) as u64,
            ),
        decreases n - i,
    {
        proof {
            assert(crate::bit_util::byte_ceil((i * width * 8) as nat) == i * width);
        }
        if i >= n {
            proof {
                lemma_count_exact(i as nat, n as nat, d.len(), width as nat);
            }
            break ;
        }
        match reader.get_aligned(width) {
            Some(v) => {
                out.push(v);
                proof {
                    assert((i + 1) * width == i * width + width) by (nonlinear_arith);
                    assert(out@ =~= Seq::new(
                        (i + 1) as nat,
                        |j: int| bytes_le(d, j * width, width as nat) as u64,
                    ));
                }
                i = i + 1;
            },
            None => {
                proof {
                    assert((i + 1) * width == i * width + width) by (nonlinear_arith);
                    lemma_count_exact(i as nat, n as nat, d.len(), width as nat);
                }
                break ;
            },
        }
    }
    out
}

/// `r` values fit, and either all `n` are there or one more would not fit.
proof fn lemma_count_exact(r: nat, n: nat, len: nat, width: nat)
    requires
        r <= n,
        r * width <= len,
        r < n ==> (r + 1) * width > len,
        width >= 1,
    ensures
        r == batch_count(n, len, width),
{
    if r < n {
        assert(len as int / width as int == r) by (nonlinear_arith)
            requires
                r * width <= len,
                len < (r + 1) * width,
                width > 0,
        ;
    } else {
        assert(len as int / width as int >= r) by (nonlinear_arith)
            requires
                r * width <= len,
                width > 0,
        ;
    }
}

/// PLAIN decoding, for every physical type: values back to back,
/// little-endian; booleans one bit each; byte arrays length-prefixed.
pub struct PlainDecoder {
    physical_type: PhysicalType,
    type_length: i32,
    decoded: DecodedValues,
}

impl PlainDecoder {
    pub closed spec fn physical_type_spec(&self) -> PhysicalType {
        self.physical_type
    }

    pub closed spec fn type_length_spec(&self) -> i32 {
        self.type_length
    }

    /// A decoder for values of `physical_type`; `type_length` is the length of
    /// fixed-length byte arrays.
    pub fn new(physical_type: PhysicalType, type_length: i32) -> (r: PlainDecoder)
        requires
            physical_type == PhysicalType::FIXED_LEN_BYTE_ARRAY ==> type_length > 0,
        ensures
            r.wf(),
            r.physical_type_spec() == physical_type,
            r.type_length_spec() == type_length,
            r.pending() == Seq::<ValueView>::empty(),
            r.left() == 0,
    {
        PlainDecoder { physical_type, type_length, decoded: DecodedValues::empty() }
    }

    fn decode(&self, data: &Buffer, n: usize) -> (r: Vec<Value>)
        requires
            self.wf(),
        ensures
            views(r@) == plain_values(self.physical_type, self.type_length, data@, n as nat),
    {
        let ghost d = data@;
        let mut out: Vec<Value> = Vec::new();
        match self.physical_type {
            PhysicalType::BOOLEAN => {
                let mut reader = BitReader::new(data.all());
                let mut bits: Vec<u64> = Vec::new();
                let k = reader.get_batch(&mut bits, n, 1);
                let mut i: usize = 0;
                while i < k
                    invariant
                        i <= k == bits@.len(),
                        bits@ == Seq::new(k as nat, |j: int| bits_le(d, 0 + j * 1, 1) as u64),
                        views(out@) == Seq::new(i as nat, |j: int| ValueView::Bool(bits_le(d, j, 1) == 1)),
                    decreases k - i,
                {
                    proof {
                        crate::bit_util::lemma_bits_le_bound(d, i as int, 1);
                        vstd::arithmetic::power2::lemma2_to64();
                        assert(0 + i * 1 == i);
                    }
                    let ghost prev = out@;
                    let v = Value::Bool(bits[i] == 1);
                    assert(v@ == ValueView::Bool(bits_le(d, i as int, 1) == 1));
                    out.push(v);
                    proof {
                        lemma_views_push(prev, v);
                    }
                    i = i + 1;
                    assert(views(out@) =~= Seq::new(i as nat, |j: int| ValueView::Bool(bits_le(d, j, 1) == 1)));
                }
            },
            PhysicalType::INT32 | PhysicalType::FLOAT => {
                let words = read_words(data, n, 4);
                let mut i: usize = 0;
                while i < words.len()
                    invariant
                        i <= words@.len(),
                        self.physical_type == PhysicalType::INT32 || self.physical_type == PhysicalType::FLOAT,
                        words@ == Seq::new(batch_count(n as nat, d.len(), 4), |j: int| bytes_le(d, j * 4, 4) as u64),
                        views(out@) == plain_values(self.physical_type, self.type_length, d, n as nat).take(i as int),
                    decreases words@.len() - i,
                {
                    let w = words[i] as u32;
                    let v = if self.physical_type == PhysicalType::INT32 {
                        Value::Int32(w as i32)
                    } else {
                        Value::Float(w)
                    };
                    let ghost prev = out@;
                    out.push(v);
                    proof {
                        lemma_views_push(prev, v);
                        let pv = plain_values(self.physical_type, self.type_length, d, n as nat);
                        assert(i * 4 == 4 * i);
                        assert(v@ == pv[i as int]);
                        assert(pv.take(i + 1) =~= pv.take(i as int).push(pv[i as int]));
                    }
                    i = i + 1;
                    assert(views(out@) =~= plain_values(self.physical_type, self.type_length, d, n as nat).take(i as int));
                }
                assert(plain_values(self.physical_type, self.type_length, d, n as nat).take(i as int)
                    =~= plain_values(self.physical_type, self.type_length, d, n as nat));
            },
            PhysicalType::INT64 | PhysicalType::DOUBLE => {
                let words = read_words(data, n, 8);
                let mut i: usize = 0;
                while i < words.len()
                    invariant
                        i <= words@.len(),
                        self.physical_type == PhysicalType::INT64 || self.physical_type == PhysicalType::DOUBLE,
                        words@ == Seq::new(batch_count(n as nat, d.len(), 8), |j: int| bytes_le(d, j * 8, 8) as u64),
                        views(out@) == plain_values(self.physical_type, self.type_length, d, n as nat).take(i as int),
                    decreases words@.len() - i,
                {
                    let w = words[i];
                    let v = if self.physical_type == PhysicalType::INT64 {
                        Value::Int64(w as i64)
                    } else {
                        Value::Double(w)
                    };
                    let ghost prev = out@;
                    out.push(v);
                    proof {
                        lemma_views_push(prev, v);
                        let pv = plain_values(self.physical_type, self.type_length, d, n as nat);
                        assert(i * 8 == 8 * i);
                        assert(v@ == pv[i as int]);
                        assert(pv.take(i + 1) =~= pv.take(i as int).push(pv[i as int]));
                    }
                    i = i + 1;
                    assert(views(out@) =~= plain_values(self.physical_type, self.type_length, d, n as nat).take(i as int));
                }
                assert(plain_values(self.physical_type, self.type_length, d, n as nat).take(i as int)
                    =~= plain_values(self.physical_type, self.type_length, d, n as nat));
            },
            PhysicalType::INT96 => {
                let n3: usize = if n <= usize::MAX / 3 {
                    3 * n
                } else {
                    usize::MAX
                };
                let words = read_words(data, n3, 4);
                let len = data.len();
                assert(batch_count(n3 as nat, d.len(), 4) == batch_count(3 * n as nat, d.len(), 4));
                let count = words.len() / 3;
                assert(3 * count <= words@.len());
                let mut i: usize = 0;
                while i < count
                    invariant
                        i <= count,
                        3 * count <= words@.len() <= usize::MAX,
                        self.physical_type == PhysicalType::INT96,
                        words@ == Seq::new(batch_count(3 * n as nat, d.len(), 4), |j: int| bytes_le(d, j * 4, 4) as u64),
                        views(out@) == plain_values(self.physical_type, self.type_length, d, n as nat).take(i as int),
                    decreases count - i,
                {
                    let v = Value::Int96(Int96::new(words[3 * i] as u32, words[3 * i + 1] as u32, words[3 * i + 2] as u32));
                    let ghost prev = out@;
                    out.push(v);
                    proof {
                        lemma_views_push(prev, v);
                        let pv = plain_values(self.physical_type, self.type_length, d, n as nat);
                        assert((3 * i) * 4 == 12 * i);
                        assert((3 * i + 1) * 4 == 12 * i + 4);
                        assert((3 * i + 2) * 4 == 12 * i + 8);
                        assert(v@ == pv[i as int]);
                        assert(pv.take(i + 1) =~= pv.take(i as int).push(pv[i as int]));
                    }
                    i = i + 1;
                    assert(views(out@) =~= plain_values(self.physical_type, self.type_length, d, n as nat).take(i as int));
                }
                assert(plain_values(self.physical_type, self.type_length, d, n as nat).take(i as int)
                    =~= plain_values(self.physical_type, self.type_length, d, n as nat));
            },
            PhysicalType::BYTE_ARRAY => {
                let len = data.len();
                let mut pos: usize = 0;
                let mut i: usize = 0;
                while i < n
                    invariant_except_break
                        i <= n,
                        pos <= len,
                        views(out@) + byte_array_values(d, pos as int, (n - i) as nat) == byte_array_values(d, 0, n as nat),
                    invariant
                        len == d.len(),
                        d == data@,
                        self.physical_type == PhysicalType::BYTE_ARRAY,
                    ensures
                        views(out@) == byte_array_values(d, 0, n as nat),
                    decreases n - i,
                {
                    if len - pos < 4 {
                        assert(byte_array_values(d, pos as int, (n - i) as nat) =~= Seq::<ValueView>::empty());
                        assert(views(out@) + byte_array_values(d, pos as int, (n - i) as nat) =~= views(out@));
                        break ;
                    }
                    let l = read_le(data, pos, 4);
                    if l > (len - pos - 4) as u64 {
                        assert(byte_array_values(d, pos as int, (n - i) as nat) =~= Seq::<ValueView>::empty());
                        assert(views(out@) + byte_array_values(d, pos as int, (n - i) as nat) =~= views(out@));
                        break ;
                    }
                    let item = ByteArray::new(data.range(pos + 4, l as usize));
                    let ghost prev = out@;
                    let v = Value::Bytes(item);
                    out.push(v);
                    proof {
                        let head = ValueView::Bytes(d.subrange(pos + 4, pos + 4 + l));
                        lemma_views_push(prev, v);
                        assert(views(out@) =~= views(prev).push(head));
                        assert(byte_array_values(d, pos as int, (n - i) as nat) == seq![head]
                            + byte_array_values(d, pos + 4 + l, (n - i - 1) as nat));
                        assert(views(out@) + byte_array_values(d, pos + 4 + l, (n - i - 1) as nat)
                            =~= views(prev) + byte_array_values(d, pos as int, (n - i) as nat));
                    }
                    pos = pos + 4 + l as usize;
                    i = i + 1;
                }
                proof {
                    if i >= n {
                        assert(views(out@) + byte_array_values(d, pos as int, 0) =~= views(out@));
                    }
                }
            },
            PhysicalType::FIXED_LEN_BYTE_ARRAY => {
                let len = data.len();
                let tl = self.type_length as usize;
                let mut pos: usize = 0;
                let mut i: usize = 0;
                loop
                    invariant_except_break
                        i <= n,
                        pos == i * tl,
                        pos <= len,
                    invariant
                        len == d.len(),
                        d == data@,
                        tl == self.type_length > 0,
                        self.physical_type == PhysicalType::FIXED_LEN_BYTE_ARRAY,
                        views(out@) == Seq::new(i as nat, |j: int| ValueView::Bytes(d.subrange(j * tl, j * tl + tl))),
                    ensures
                        i == batch_count(n as nat, d.len(), tl as nat),
                    decreases n - i,
                {
                    if i >= n || len - pos < tl {
                        proof {
                            assert((i + 1) * tl == i * tl + tl) by (nonlinear_arith);
                            lemma_count_exact(i as nat, n as nat, d.len(), tl as nat);
                        }
                        break ;
                    }
                    let item = ByteArray::new(data.range(pos, tl));
                    let v = Value::Bytes(item);
                    let ghost prev = out@;
                    out.push(v);
                    proof {
                        lemma_views_push(prev, v);
                        assert((i + 1) * tl == i * tl + tl) by (nonlinear_arith);
                    }
                    pos = pos + tl;
                    i = i + 1;
                    assert(views(out@) =~= Seq::new(i as nat, |j: int| ValueView::Bytes(d.subrange(j * tl, j * tl + tl))));
                }
            },
        }
        out
    }
}

impl Decoder for PlainDecoder {
    closed spec fn wf(&self) -> bool {
        &&& self.decoded.wf()
        &&& (self.physical_type == PhysicalType::FIXED_LEN_BYTE_ARRAY ==> self.type_length > 0)
    }

    closed spec fn pending(&self) -> Seq<ValueView> {
        self.decoded.pending()
    }

    closed spec fn left(&self) -> nat {
        self.decoded.left()
    }

    closed spec fn tail(&self) -> ParquetError {
        self.decoded.tail()
    }

    open spec fn outcome(&self, data: Seq<u8>, num_values: nat) -> Result<Outcome, ParquetError> {
        Ok(
            Outcome {
                values: plain_values(self.physical_type_spec(), self.type_length_spec(), data, num_values),
                declared: num_values,
                tail_error: ParquetError::UnexpectedEof,
            },
        )
    }

    open spec fn encoding_spec(&self) -> Encoding {
        Encoding::PLAIN
    }

    fn set_data(&mut self, data: Buffer, num_values: usize) -> (r: Result<(), ParquetError>) {
        let values = self.decode(&data, num_values);
        self.decoded = DecodedValues::new(values, num_values, ParquetError::UnexpectedEof);
        Ok(())
    }

    fn get(&mut self, out: &mut Vec<Value>, max: usize) -> (r: Result<usize, ParquetError>) {
        self.decoded.get(out, max)
    }

    fn values_left(&self) -> (r: usize) {
        self.decoded.values_left()
    }

    fn encoding(&self) -> (r: Encoding) {
        Encoding::PLAIN
    }
}

// ----------------------------------------------------------------------
// RLE_DICTIONARY

/// The dictionary entries that `idx` points at, up to the first index that
/// falls outside the dictionary.
pub open spec fn dict_lookup(dict: Seq<ValueView>, idx: Seq<u64>) -> Seq<ValueView>
    decreases idx.len(),
{
    if idx.len() == 0 || idx[0] >= dict.len() {
        seq![]
    } else {
        seq![dict[idx[0] as int]] + dict_lookup(dict, idx.drop_first())
    }
}

/// The indices of a dictionary-encoded page: a bit-width byte, then a hybrid
/// stream of indices that wide; at most `n` of them.
pub open spec fn dict_indices(d: Seq<u8>, n: nat) -> Seq<u64> {
    prefix(hybrid_values(d.subrange(1, d.len() as int), 0, d[0] as nat), n)
}

/// The values of a dictionary-encoded page, looked up in `dict`; the index
/// width is at most 64 bits.
pub open spec fn dict_page_outcome(dict: Seq<ValueView>, data: Seq<u8>, num_values: nat) -> Result<
    Outcome,
    ParquetError,
> {
    if data.len() == 0 {
        Err(ParquetError::UnexpectedEof)
    } else if data[0] > 64 {
        Err(ParquetError::InvalidHeader)
    } else {
        let idx = dict_indices(data, num_values);
        let values = dict_lookup(dict, idx);
        Ok(
            Outcome {
                values,
                declared: num_values,
                tail_error: if values.len() < idx.len() {
                    ParquetError::DictIndexOutOfRange
                } else {
                    ParquetError::UnexpectedEof
                },
            },
        )
    }
}

/// Dictionary decoding: each value is an index into a dictionary read once
/// from the column's dictionary page.
pub struct DictDecoder {
    dictionary: Vec<Value>,
    has_dictionary: bool,
    decoded: DecodedValues,
}

impl DictDecoder {
    /// The dictionary entries.
    pub closed spec fn dict(&self) -> Seq<ValueView> {
        views(self.dictionary@)
    }

    pub closed spec fn has_dict(&self) -> bool {
        self.has_dictionary
    }

    pub fn new() -> (r: DictDecoder)
        ensures
            r.wf(),
            !r.has_dict(),
            r.pending() == Seq::<ValueView>::empty(),
            r.left() == 0,
    {
        DictDecoder { dictionary: Vec::new(), has_dictionary: false, decoded: DecodedValues::empty() }
    }

    /// Takes every value `decoder` declares as the dictionary. Fails with
    /// `DuplicateDictionary` when a dictionary is already set, and with the
    /// decoder's error when it holds fewer values than it declares.
    pub fn set_dict(&mut self, decoder: PlainDecoder) -> (r: Result<(), ParquetError>)
        requires
            old(self).wf(),
            decoder.wf(),
        ensures
            final(self).wf(),
            final(self).pending() == old(self).pending(),
            final(self).left() == old(self).left(),
            final(self).tail() == old(self).tail(),
            old(self).has_dict() ==> r == Err::<(), ParquetError>(ParquetError::DuplicateDictionary)
                && final(self).dict() == old(self).dict() && final(self).has_dict(),
            !old(self).has_dict() ==> if decoder.left() <= decoder.pending().len() {
                r is Ok && final(self).has_dict() && final(self).dict() == decoder.pending().take(
                    decoder.left() as int,
                )
            } else {
                r == Err::<(), ParquetError>(decoder.tail()) && !final(self).has_dict()
            },
    {
        if self.has_dictionary {
            return Err(ParquetError::DuplicateDictionary);
        }
        let mut decoder = decoder;
        let ghost pending0 = decoder.pending();
        let n = decoder.values_left();
        let mut dict: Vec<Value> = Vec::new();
        match decoder.get(&mut dict, n) {
            Ok(_) => {
                assert(views(Seq::<Value>::empty()) =~= Seq::<ValueView>::empty());
                assert(views(dict@) =~= pending0.take(n as int));
                self.dictionary = dict;
                self.has_dictionary = true;
                Ok(())
            },
            Err(e) => Err(e),
        }
    }

    /// Decodes the indices of a dictionary-encoded page and looks them up.
    pub fn set_page(&mut self, data: Buffer, num_values: usize) -> (r: Result<(), ParquetError>)
        requires
            old(self).wf(),
        ensures
            final(self).wf(),
            final(self).has_dict() == old(self).has_dict(),
            final(self).dict() == old(self).dict(),
            match old(self).outcome(data@, num_values as nat) {
                Ok(o) => r is Ok && final(self).pending() == o.values && final(self).left()
                    == o.declared && final(self).tail() == o.tail_error,
                Err(e) => r == Err::<(), ParquetError>(e),
            },
    {
        if !self.has_dictionary {
            return Err(ParquetError::MissingDictionary);
        }
        let len = data.len();
        if len == 0 {
            return Err(ParquetError::UnexpectedEof);
        }
        let bit_width = data.get(0);
        if bit_width > 64 {
            return Err(ParquetError::InvalidHeader);
        }
        let idx = decode_hybrid(&data.start_from(1), bit_width as usize, num_values);
        let values = self.lookup(&idx);
        proof {
            lemma_dict_lookup_len(self.dict(), idx@);
        }
        let tail = if values.len() < idx.len() {
            ParquetError::DictIndexOutOfRange
        } else {
            ParquetError::UnexpectedEof
        };
        self.decoded = DecodedValues::new(values, num_values, tail);
        Ok(())
    }

    /// Appends up to `max` values of the page to `out`.
    pub fn read(&mut self, out: &mut Vec<Value>, max: usize) -> (r: Result<usize, ParquetError>)
        requires
            old(self).wf(),
        ensures
            final(self).wf(),
            final(self).has_dict() == old(self).has_dict(),
            final(self).dict() == old(self).dict(),
            get_result(old(self).pending(), old(self).left(), old(self).tail(), max as nat, r, old(out)@, final(out)@),
            r is Ok ==> final(self).pending() == old(self).pending().skip(r->Ok_0 as int)
                && final(self).left() == old(self).left() - r->Ok_0,
            final(self).tail() == old(self).tail(),
            r is Err ==> final(self).pending() == old(self).pending() && final(self).left()
                == old(self).left(),
    {
        self.decoded.get(out, max)
    }

    /// Looks up `idx` in the dictionary, up to the first index outside it.
    fn lookup(&self, idx: &Vec<u64>) -> (r: Vec<Value>)
        ensures
            views(r@) == dict_lookup(self.dict(), idx@),
    {
        let ghost dict = self.dict();
        let mut out: Vec<Value> = Vec::new();
        let mut i: usize = 0;
        assert(idx@.skip(0) =~= idx@);
        assert(views(out@) =~= Seq::<ValueView>::empty());
        assert(views(out@) + dict_lookup(dict, idx@) =~= dict_lookup(dict, idx@));
        loop
            invariant_except_break
                i <= idx@.len(),
                views(out@) + dict_lookup(dict, idx@.skip(i as int)) == dict_lookup(dict, idx@),
            invariant
                dict == self.dict(),
            ensures
                views(out@) == dict_lookup(dict, idx@),
            decreases idx@.len() - i,
        {
            if i >= idx.len() {
                assert(idx@.skip(i as int) =~= Seq::<u64>::empty());
                assert(views(out@) + dict_lookup(dict, idx@.skip(i as int)) =~= views(out@));
                break ;
            }
            let k = idx[i];
            assert(idx@.skip(i as int).drop_first() =~= idx@.skip(i + 1));
            if k >= self.dictionary.len() as u64 {
                assert(views(out@) + dict_lookup(dict, idx@.skip(i as int)) =~= views(out@));
                break ;
            }
            let v = self.dictionary[k as usize].duplicate();
            let ghost prev = out@;
            out.push(v);
            proof {
                lemma_views_push(prev, v);
                assert(views(out@) + dict_lookup(dict, idx@.skip(i + 1)) =~= views(prev) + dict_lookup(
                    dict,
                    idx@.skip(i as int),
                ));
            }
            i = i + 1;
        }
        out
    }
}

impl Decoder for DictDecoder {
    closed spec fn wf(&self) -> bool {
        self.decoded.wf()
    }

    closed spec fn pending(&self) -> Seq<ValueView> {
        self.decoded.pending()
    }

    closed spec fn left(&self) -> nat {
        self.decoded.left()
    }

    closed spec fn tail(&self) -> ParquetError {
        self.decoded.tail()
    }

    /// Needs the dictionary.
    open spec fn outcome(&self, data: Seq<u8>, num_values: nat) -> Result<Outcome, ParquetError> {
        if !self.has_dict() {
            Err(ParquetError::MissingDictionary)
        } else {
            dict_page_outcome(self.dict(), data, num_values)
        }
    }

    open spec fn encoding_spec(&self) -> Encoding {
        Encoding::RLE_DICTIONARY
    }

    fn set_data(&mut self, data: Buffer, num_values: usize) -> (r: Result<(), ParquetError>) {
        self.set_page(data, num_values)
    }

    fn get(&mut self, out: &mut Vec<Value>, max: usize) -> (r: Result<usize, ParquetError>) {
        self.decoded.get(out, max)
    }

    fn values_left(&self) -> (r: usize) {
        self.decoded.values_left()
    }

    fn encoding(&self) -> (r: Encoding) {
        Encoding::RLE_DICTIONARY
    }
}

proof fn lemma_dict_lookup_len(dict: Seq<ValueView>, idx: Seq<u64>)
    ensures
        dict_lookup(dict, idx).len() <= idx.len(),
    decreases idx.len(),
{
    if idx.len() > 0 && idx[0] < dict.len() {
        lemma_dict_lookup_len(dict, idx.drop_first());
    }
}

// ----------------------------------------------------------------------
// RLE (booleans)

/// Booleans in a hybrid stream of width 1 behind a 4-byte little-endian
/// length; at most `n` of them.
pub open spec fn rle_bool_values(d: Seq<u8>, n: nat) -> Result<Seq<ValueView>, ParquetError> {
    if d.len() < 4 {
        Err(ParquetError::UnexpectedEof)
    } else {
        let len = bytes_le(d, 0, 4);
        if 4 + len > d.len() {
            Err(ParquetError::UnexpectedEof)
        } else {
            Ok(
                prefix(hybrid_values(d.subrange(4, 4 + len as int), 0, 1), n).map_values(
                    |v: u64| ValueView::Bool(v == 1),
                ),
            )
        }
    }
}

/// RLE decoding of booleans.
pub struct RleValueDecoder {
    decoded: DecodedValues,
}

impl RleValueDecoder {
    pub fn new() -> (r: RleValueDecoder)
        ensures
            r.wf(),
            r.pending() == Seq::<ValueView>::empty(),
            r.left() == 0,
    {
        RleValueDecoder { decoded: DecodedValues::empty() }
    }
}

impl Decoder for RleValueDecoder {
    closed spec fn wf(&self) -> bool {
        self.decoded.wf()
    }

    closed spec fn pending(&self) -> Seq<ValueView> {
        self.decoded.pending()
    }

    closed spec fn left(&self) -> nat {
        self.decoded.left()
    }

    closed spec fn tail(&self) -> ParquetError {
        self.decoded.tail()
    }

    open spec fn outcome(&self, data: Seq<u8>, num_values: nat) -> Result<Outcome, ParquetError> {
        match rle_bool_values(data, num_values) {
            Ok(values) => Ok(
                Outcome { values, declared: num_values, tail_error: ParquetError::UnexpectedEof },
            ),
            Err(e) => Err(e),
        }
    }

    open spec fn encoding_spec(&self) -> Encoding {
        Encoding::RLE
    }

    fn set_data(&mut self, data: Buffer, num_values: usize) -> (r: Result<(), ParquetError>) {
        let len = data.len();
        if len < 4 {
            return Err(ParquetError::UnexpectedEof);
        }
        let size = read_le(&data, 0, 4);
        if size > (len - 4) as u64 {
            return Err(ParquetError::UnexpectedEof);
        }
        let bits = decode_hybrid(&data.range(4, size as usize), 1, num_values);
        let mut values: Vec<Value> = Vec::new();
        let mut i: usize = 0;
        while i < bits.len()
            invariant
                i <= bits@.len(),
                views(values@) == bits@.take(i as int).map_values(|v: u64| ValueView::Bool(v == 1)),
            decreases bits@.len() - i,
        {
            let v = Value::Bool(bits[i] == 1);
            let ghost prev = values@;
            values.push(v);
            proof {
                lemma_views_push(prev, v);
            }
            i = i + 1;
            assert(views(values@) =~= bits@.take(i as int).map_values(|v: u64| ValueView::Bool(v == 1)));
        }
        assert(bits@.take(i as int) =~= bits@);
        self.decoded = DecodedValues::new(values, num_values, ParquetError::UnexpectedEof);
        Ok(())
    }

    fn get(&mut self, out: &mut Vec<Value>, max: usize) -> (r: Result<usize, ParquetError>) {
        self.decoded.get(out, max)
    }

    fn values_left(&self) -> (r: usize) {
        self.decoded.values_left()
    }

    fn encoding(&self) -> (r: Encoding) {
        Encoding::RLE
    }
}

// ----------------------------------------------------------------------
// DELTA_BINARY_PACKED

/// Decoded integers as values of physical type `t`; 32-bit values keep the low
/// 32 bits.
pub open spec fn int_values(t: PhysicalType, vals: Seq<i64>) -> Seq<ValueView> {
    vals.map_values(
        |v: i64|
            if t == PhysicalType::INT32 {
                ValueView::Int32(v as i32)
            } else {
                ValueView::Int64(v)
            },
    )
}

/// Delta binary packed decoding of 32- and 64-bit integers.
pub struct DeltaBitPackDecoder {
    physical_type: PhysicalType,
    initialized: bool,
    // where the header ends, the values in a mini-block, and where each
    // mini-block decoded ends
    header_end: usize,
    values_per_mini_block: u64,
    mini_block_ends: Vec<usize>,
    total: usize,
    decoded: DecodedValues,
    // the data of the last page set
    source: Ghost<Seq<u8>>,
}

impl DeltaBitPackDecoder {
    pub closed spec fn physical_type_spec(&self) -> PhysicalType {
        self.physical_type
    }

    pub closed spec fn is_initialized(&self) -> bool {
        self.initialized
    }

    /// The data of the last page set.
    pub closed spec fn source(&self) -> Seq<u8> {
        self.source@
    }

    /// The number of values of the last page set.
    pub closed spec fn total_spec(&self) -> nat {
        self.total as nat
    }

    pub fn new(physical_type: PhysicalType) -> (r: DeltaBitPackDecoder)
        requires
            physical_type == PhysicalType::INT32 || physical_type == PhysicalType::INT64,
        ensures
            r.wf(),
            r.physical_type_spec() == physical_type,
            !r.is_initialized(),
            r.pending() == Seq::<ValueView>::empty(),
            r.left() == 0,
    {
        DeltaBitPackDecoder {
            physical_type,
            initialized: false,
            header_end: 0,
            values_per_mini_block: 0,
            mini_block_ends: Vec::new(),
            total: 0,
            decoded: DecodedValues::empty(),
            source: Ghost(Seq::empty()),
        }
    }

    /// How many values were handed out since the last page was set.
    pub open spec fn consumed(&self) -> nat {
        (self.total_spec() - self.left()) as nat
    }

    /// Decodes every value the stream at the start of `data` declares.
    pub fn set_page(&mut self, data: Buffer) -> (r: Result<(), ParquetError>)
        requires
            old(self).wf(),
        ensures
            final(self).wf(),
            final(self).physical_type_spec() == old(self).physical_type_spec(),
            match delta_decode(data@, usize::MAX as nat) {
                Ok((vals, _, _, _)) => {
                    &&& r is Ok
                    &&& final(self).is_initialized()
                    &&& final(self).source() == data@
                    &&& final(self).total_spec() == vals.len()
                    &&& final(self).pending() == int_values(old(self).physical_type_spec(), vals)
                    &&& final(self).left() == vals.len()
                    &&& final(self).tail() == ParquetError::UnexpectedEof
                },
                Err(e) => r == Err::<(), ParquetError>(e),
            },
    {
        let (vals, hend, vpm, ends) = match decode_delta(&data, usize::MAX) {
            Ok(x) => x,
            Err(e) => {
                return Err(e);
            },
        };
        let mut values: Vec<Value> = Vec::new();
        let mut i: usize = 0;
        while i < vals.len()
            invariant
                i <= vals@.len(),
                self.physical_type == PhysicalType::INT32 || self.physical_type == PhysicalType::INT64,
                views(values@) == int_values(self.physical_type, vals@.take(i as int)),
            decreases vals@.len() - i,
        {
            let v = if self.physical_type == PhysicalType::INT32 {
                Value::Int32(vals[i] as i32)
            } else {
                Value::Int64(vals[i])
            };
            let ghost prev = values@;
            values.push(v);
            proof {
                lemma_views_push(prev, v);
            }
            i = i + 1;
            assert(views(values@) =~= int_values(self.physical_type, vals@.take(i as int)));
        }
        assert(vals@.take(i as int) =~= vals@);
        self.header_end = hend;
        self.values_per_mini_block = vpm;
        self.mini_block_ends = ends;
        self.total = vals.len();
        self.initialized = true;
        self.source = Ghost(data@);
        self.decoded = DecodedValues::new(values, vals.len(), ParquetError::UnexpectedEof);
        Ok(())
    }

    /// Appends up to `max` of the decoded values to `out`.
    pub fn read(&mut self, out: &mut Vec<Value>, max: usize) -> (r: Result<usize, ParquetError>)
        requires
            old(self).wf(),
        ensures
            final(self).wf(),
            final(self).physical_type_spec() == old(self).physical_type_spec(),
            final(self).is_initialized() == old(self).is_initialized(),
            final(self).source() == old(self).source(),
            final(self).total_spec() == old(self).total_spec(),
            final(self).tail() == old(self).tail(),
            get_result(old(self).pending(), old(self).left(), old(self).tail(), max as nat, r, old(out)@, final(out)@),
            r is Ok ==> final(self).pending() == old(self).pending().skip(r->Ok_0 as int)
                && final(self).left() == old(self).left() - r->Ok_0,
            r is Err ==> final(self).pending() == old(self).pending() && final(self).left()
                == old(self).left(),
    {
        self.decoded.get(out, max)
    }

    /// The byte offset in the page data a reader of the stream has reached:
    /// the end of the header until the second value is handed out, then the
    /// end of the mini-block holding the last value handed out. Data that
    /// follows the stream starts at the offset once every value was handed
    /// out.
    pub fn get_offset(&self) -> (r: usize)
        requires
            self.wf(),
            self.is_initialized(),
        ensures
            delta_decode(self.source(), usize::MAX as nat) matches Ok((_, hend, vpm, ends)) && r
                == offset_after(hend, ends, vpm, self.consumed()),
    {
        let consumed = self.total - self.decoded.values_left();
        let n = self.mini_block_ends.len();
        if consumed <= 1 || n == 0 || self.values_per_mini_block == 0 {
            return self.header_end;
        }
        let m: u64 = (consumed as u64 - 2) / self.values_per_mini_block;
        if m < n as u64 {
            self.mini_block_ends[m as usize]
        } else {
            self.mini_block_ends[n - 1]
        }
    }
}

impl Decoder for DeltaBitPackDecoder {
    closed spec fn wf(&self) -> bool {
        &&& self.decoded.wf()
        &&& (self.physical_type == PhysicalType::INT32 || self.physical_type == PhysicalType::INT64)
        &&& self.decoded.left() <= self.total
        &&& (self.initialized ==> (delta_decode(self.source@, usize::MAX as nat) matches Ok((
            vals,
            hend,
            vpm,
            ends,
        )) && vals.len() == self.total && hend == self.header_end && vpm
            == self.values_per_mini_block && ends == nats(self.mini_block_ends@)))
    }

    closed spec fn pending(&self) -> Seq<ValueView> {
        self.decoded.pending()
    }

    closed spec fn left(&self) -> nat {
        self.decoded.left()
    }

    closed spec fn tail(&self) -> ParquetError {
        self.decoded.tail()
    }

    /// The page's values are all those the stream's header declares; the
    /// count the page declares plays no part.
    open spec fn outcome(&self, data: Seq<u8>, num_values: nat) -> Result<Outcome, ParquetError> {
        match delta_decode(data, usize::MAX as nat) {
            Ok((vals, _, _, _)) => Ok(
                Outcome {
                    values: int_values(self.physical_type_spec(), vals),
                    declared: vals.len(),
                    tail_error: ParquetError::UnexpectedEof,
                },
            ),
            Err(e) => Err(e),
        }
    }

    open spec fn encoding_spec(&self) -> Encoding {
        Encoding::DELTA_BINARY_PACKED
    }

    fn set_data(&mut self, data: Buffer, num_values: usize) -> (r: Result<(), ParquetError>) {
        self.set_page(data)
    }

    fn get(&mut self, out: &mut Vec<Value>, max: usize) -> (r: Result<usize, ParquetError>) {
        self.read(out, max)
    }

    fn values_left(&self) -> (r: usize) {
        self.decoded.values_left()
    }

    fn encoding(&self) -> (r: Encoding) {
        Encoding::DELTA_BINARY_PACKED
    }
}

// ----------------------------------------------------------------------
// DELTA_LENGTH_BYTE_ARRAY and DELTA_BYTE_ARRAY

/// Lengths stored as a DELTA_BINARY_PACKED stream of 32-bit integers (at most
/// `n`), and the byte where the stream ends; a negative length is an
/// `InvalidHeader`.
pub open spec fn delta_lengths(d: Seq<u8>, n: nat) -> Result<(Seq<i32>, nat), ParquetError> {
    match delta_decode(d, n) {
        Err(e) => Err(e),
        Ok((vals, hend, _, ends)) => {
            let off = stream_end(hend, ends);
            let lens = vals.map_values(|v: i64| v as i32);
            if exists|i: int| 0 <= i < lens.len() && lens[i] < 0 {
                Err(ParquetError::InvalidHeader)
            } else {
                Ok((lens, off))
            }
        },
    }
}

/// Consecutive byte arrays of the given lengths from byte `pos`, up to the
/// first that does not fit.
pub open spec fn split_lengths(d: Seq<u8>, pos: int, lens: Seq<i32>) -> Seq<ValueView>
    decreases lens.len(),
{
    if lens.len() == 0 || pos < 0 || lens[0] < 0 || pos + lens[0] > d.len() {
        seq![]
    } else {
        seq![ValueView::Bytes(d.subrange(pos, pos + lens[0]))] + split_lengths(
            d,
            pos + lens[0],
            lens.drop_first(),
        )
    }
}

/// The byte arrays of a DELTA_LENGTH_BYTE_ARRAY page: the lengths, then the
/// bytes of all arrays back to back.
pub open spec fn delta_length_values(d: Seq<u8>, n: nat) -> Result<(Seq<i32>, Seq<ValueView>), ParquetError> {
    match delta_lengths(d, n) {
        Err(e) => Err(e),
        Ok((lens, off)) => Ok((lens, split_lengths(d, off as int, lens))),
    }
}

fn decode_lengths(data: &Buffer, n: usize) -> (r: Result<(Vec<i32>, usize), ParquetError>)
    ensures
        match delta_lengths(data@, n as nat) {
            Ok((lens, off)) => r matches Ok((l, o)) && l@ == lens && o == off,
            Err(e) => r matches Err(x) && x == e,
        },
        r matches Ok((l, o)) ==> o <= data@.len(),
{
    let (vals, hend, _, ends) = match decode_delta(data, n) {
        Ok(x) => x,
        Err(e) => {
            return Err(e);
        },
    };
    let offset = if ends.len() == 0 {
        hend
    } else {
        ends[ends.len() - 1]
    };
    let mut lens: Vec<i32> = Vec::new();
    let mut i: usize = 0;
    while i < vals.len()
        invariant
            i <= vals@.len(),
            delta_decode(data@, n as nat) matches Ok((v, h, p, es)) && v == vals@ && stream_end(h, es)
                == offset,
            lens@ == vals@.take(i as int).map_values(|v: i64| v as i32),
            forall|j: int| 0 <= j < i ==> lens@[j] >= 0,
        decreases vals@.len() - i,
    {
        let l = vals[i] as i32;
        if l < 0 {
            assert(vals@.map_values(|v: i64| v as i32)[i as int] < 0);
            return Err(ParquetError::InvalidHeader);
        }
        lens.push(l);
        i = i + 1;
        assert(lens@ =~= vals@.take(i as int).map_values(|v: i64| v as i32));
    }
    assert(vals@.take(i as int) =~= vals@);
    Ok((lens, offset))
}

/// Splits the bytes from `pos` into arrays of the given lengths, up to the
/// first that does not fit.
fn split_by_lengths(data: &Buffer, pos: usize, lens: &Vec<i32>) -> (r: Vec<Value>)
    requires
        pos <= data@.len(),
    ensures
        views(r@) == split_lengths(data@, pos as int, lens@),
{
    let ghost d = data@;
    let len = data.len();
    let mut out: Vec<Value> = Vec::new();
    let mut p: usize = pos;
    let mut i: usize = 0;
    assert(lens@.skip(0) =~= lens@);
    assert(views(out@) + split_lengths(d, pos as int, lens@) =~= split_lengths(d, pos as int, lens@));
    loop
        invariant_except_break
            i <= lens@.len(),
            p <= len,
            views(out@) + split_lengths(d, p as int, lens@.skip(i as int)) == split_lengths(
                d,
                pos as int,
                lens@,
            ),
        invariant
            len == d.len(),
            d == data@,
        ensures
            views(out@) == split_lengths(d, pos as int, lens@),
        decreases lens@.len() - i,
    {
        if i >= lens.len() {
            assert(lens@.skip(i as int) =~= Seq::<i32>::empty());
            assert(views(out@) + split_lengths(d, p as int, lens@.skip(i as int)) =~= views(out@));
            break ;
        }
        let l = lens[i];
        assert(lens@.skip(i as int)[0] == l);
        if l < 0 || l as usize > len - p {
            assert(split_lengths(d, p as int, lens@.skip(i as int)) =~= Seq::<ValueView>::empty());
            assert(views(out@) + split_lengths(d, p as int, lens@.skip(i as int)) =~= views(out@));
            break ;
        }
        let v = Value::Bytes(ByteArray::new(data.range(p, l as usize)));
        let ghost prev = out@;
        out.push(v);
        proof {
            lemma_views_push(prev, v);
            assert(lens@.skip(i as int).drop_first() =~= lens@.skip(i + 1));
            assert(views(out@) + split_lengths(d, p + l, lens@.skip(i + 1)) =~= views(prev)
                + split_lengths(d, p as int, lens@.skip(i as int)));
        }
        p = p + l as usize;
        i = i + 1;
    }
    out
}

/// Delta length byte array decoding: DELTA_BINARY_PACKED lengths, then the
/// bytes of the arrays.
pub struct DeltaLengthByteArrayDecoder {
    decoded: DecodedValues,
}

impl DeltaLengthByteArrayDecoder {
    pub fn new() -> (r: DeltaLengthByteArrayDecoder)
        ensures
            r.wf(),
            r.pending() == Seq::<ValueView>::empty(),
            r.left() == 0,
    {
        DeltaLengthByteArrayDecoder { decoded: DecodedValues::empty() }
    }
}

impl Decoder for DeltaLengthByteArrayDecoder {
    closed spec fn wf(&self) -> bool {
        self.decoded.wf()
    }

    closed spec fn pending(&self) -> Seq<ValueView> {
        self.decoded.pending()
    }

    closed spec fn left(&self) -> nat {
        self.decoded.left()
    }

    closed spec fn tail(&self) -> ParquetError {
        self.decoded.tail()
    }

    open spec fn outcome(&self, data: Seq<u8>, num_values: nat) -> Result<Outcome, ParquetError> {
        match delta_length_values(data, usize::MAX as nat) {
            Ok((lens, values)) => Ok(
                Outcome { values, declared: lens.len(), tail_error: ParquetError::UnexpectedEof },
            ),
            Err(e) => Err(e),
        }
    }

    open spec fn encoding_spec(&self) -> Encoding {
        Encoding::DELTA_LENGTH_BYTE_ARRAY
    }

    fn set_data(&mut self, data: Buffer, num_values: usize) -> (r: Result<(), ParquetError>) {
        let (lens, offset) = match decode_lengths(&data, usize::MAX) {
            Ok(x) => x,
            Err(e) => {
                return Err(e);
            },
        };
        let values = split_by_lengths(&data, offset, &lens);
        self.decoded = DecodedValues::new(values, lens.len(), ParquetError::UnexpectedEof);
        Ok(())
    }

    fn get(&mut self, out: &mut Vec<Value>, max: usize) -> (r: Result<usize, ParquetError>) {
        self.decoded.get(out, max)
    }

    fn values_left(&self) -> (r: usize) {
        self.decoded.values_left()
    }

    fn encoding(&self) -> (r: Encoding) {
        Encoding::DELTA_LENGTH_BYTE_ARRAY
    }
}

/// The bytes of a byte-array value.
pub open spec fn bytes_of(v: ValueView) -> Seq<u8> {
    match v {
        ValueView::Bytes(b) => b,
        _ => seq![],
    }
}

/// Each value is the first `prefixes[i]` bytes of the value before it (of
/// `prev` for the first) followed by `suffixes[i]`; up to the first prefix
/// longer than the value before it.
pub open spec fn prefix_join(prev: Seq<u8>, prefixes: Seq<i32>, suffixes: Seq<ValueView>) -> Seq<ValueView>
    decreases prefixes.len(),
{
    if prefixes.len() == 0 || suffixes.len() == 0 || prefixes[0] < 0 || prefixes[0] > prev.len() {
        seq![]
    } else {
        let v = prev.take(prefixes[0] as int) + bytes_of(suffixes[0]);
        seq![ValueView::Bytes(v)] + prefix_join(v, prefixes.drop_first(), suffixes.drop_first())
    }
}

/// The byte arrays of a DELTA_BYTE_ARRAY page: DELTA_BINARY_PACKED prefix
/// lengths, then the suffixes as DELTA_LENGTH_BYTE_ARRAY; with how many values
/// the page declares and the error past the last value joined.
pub open spec fn delta_byte_array_values(d: Seq<u8>, n: nat) -> Result<Outcome, ParquetError> {
    match delta_lengths(d, n) {
        Err(e) => Err(e),
        Ok((prefixes, off)) => match delta_length_values(d.subrange(off as int, d.len() as int), n) {
            Err(e) => Err(e),
            Ok((lens, suffixes)) => {
                let values = prefix_join(seq![], prefixes, suffixes);
                Ok(
                    Outcome {
                        values,
                        declared: prefixes.len(),
                        tail_error: if values.len() < prefixes.len() && values.len()
                            < suffixes.len() {
                            ParquetError::InvalidHeader
                        } else {
                            ParquetError::UnexpectedEof
                        },
                    },
                )
            },
        },
    }
}

proof fn lemma_prefix_join_len(prev: Seq<u8>, prefixes: Seq<i32>, suffixes: Seq<ValueView>)
    ensures
        prefix_join(prev, prefixes, suffixes).len() <= prefixes.len(),
        prefix_join(prev, prefixes, suffixes).len() <= suffixes.len(),
    decreases prefixes.len(),
{
    if !(prefixes.len() == 0 || suffixes.len() == 0 || prefixes[0] < 0 || prefixes[0] > prev.len()) {
        let v = prev.take(prefixes[0] as int) + bytes_of(suffixes[0]);
        lemma_prefix_join_len(v, prefixes.drop_first(), suffixes.drop_first());
    }
}

/// The first `p` bytes of `prev` followed by `suffix`, in a new allocation.
fn concat_prefix(prev: &ByteArray, p: usize, suffix: &ByteArray) -> (r: ByteArray)
    requires
        p <= prev@.len(),
    ensures
        r@ == prev@.take(p as int) + suffix@,
{
    let mut v: Vec<u8> = Vec::new();
    let mut j: usize = 0;
    while j < p
        invariant
            j <= p <= prev@.len(),
            v@ == prev@.take(j as int),
        decreases p - j,
    {
        v.push(prev.get(j));
        j = j + 1;
        assert(v@ =~= prev@.take(j as int));
    }
    let n = suffix.len();
    let mut k: usize = 0;
    while k < n
        invariant
            k <= n == suffix@.len(),
            v@ == prev@.take(p as int) + suffix@.take(k as int),
        decreases n - k,
    {
        v.push(suffix.get(k));
        k = k + 1;
        assert(v@ =~= prev@.take(p as int) + suffix@.take(k as int));
    }
    assert(suffix@.take(n as int) =~= suffix@);
    ByteArray::from_vec(v)
}

/// Delta byte array decoding (incremental, or front, coding): each value
/// shares a prefix with the one before it.
pub struct DeltaByteArrayDecoder {
    decoded: DecodedValues,
}

impl DeltaByteArrayDecoder {
    pub fn new() -> (r: DeltaByteArrayDecoder)
        ensures
            r.wf(),
            r.pending() == Seq::<ValueView>::empty(),
            r.left() == 0,
    {
        DeltaByteArrayDecoder { decoded: DecodedValues::empty() }
    }

    fn join(prefixes: &Vec<i32>, suffixes: &Vec<Value>) -> (r: Vec<Value>)
        ensures
            views(r@) == prefix_join(seq![], prefixes@, views(suffixes@)),
    {
        let ghost ss = views(suffixes@);
        let mut prev = ByteArray::from_vec(Vec::new());
        let mut out: Vec<Value> = Vec::new();
        let mut i: usize = 0;
        assert(prefixes@.skip(0) =~= prefixes@);
        assert(ss.skip(0) =~= ss);
        assert(views(out@) + prefix_join(prev@, prefixes@, ss) =~= prefix_join(seq![], prefixes@, ss));
        loop
            invariant_except_break
                i <= prefixes@.len(),
                i <= suffixes@.len(),
                views(out@) + prefix_join(prev@, prefixes@.skip(i as int), ss.skip(i as int))
                    == prefix_join(seq![], prefixes@, ss),
            invariant
                ss == views(suffixes@),
            ensures
                views(out@) == prefix_join(seq![], prefixes@, ss),
            decreases prefixes@.len() - i,
        {
            let ghost ps = prefixes@.skip(i as int);
            let ghost sf = ss.skip(i as int);
            if i >= prefixes.len() || i >= suffixes.len() || prefixes[i] < 0 || prefixes[i] as usize
                > prev.len() {
                assert(prefix_join(prev@, ps, sf) =~= Seq::<ValueView>::empty());
                assert(views(out@) + prefix_join(prev@, ps, sf) =~= views(out@));
                break ;
            }
            let p = prefixes[i] as usize;
            let suffix = match &suffixes[i] {
                Value::Bytes(b) => b.share(),
                _ => ByteArray::from_vec(Vec::new()),
            };
            assert(suffix@ == bytes_of(sf[0]));
            let item = concat_prefix(&prev, p, &suffix);
            let ghost prev0 = prev@;
            prev = item.share();
            let v = Value::Bytes(item);
            let ghost before = out@;
            out.push(v);
            proof {
                lemma_views_push(before, v);
                assert(ps.drop_first() =~= prefixes@.skip(i + 1));
                assert(sf.drop_first() =~= ss.skip(i + 1));
                assert(prefix_join(prev0, ps, sf) == seq![ValueView::Bytes(prev@)] + prefix_join(
                    prev@,
                    ps.drop_first(),
                    sf.drop_first(),
                ));
                assert(views(out@) + prefix_join(prev@, prefixes@.skip(i + 1), ss.skip(i + 1))
                    =~= views(before) + prefix_join(prev0, ps, sf));
            }
            i = i + 1;
        }
        out
    }
}

impl Decoder for DeltaByteArrayDecoder {
    closed spec fn wf(&self) -> bool {
        self.decoded.wf()
    }

    closed spec fn pending(&self) -> Seq<ValueView> {
        self.decoded.pending()
    }

    closed spec fn left(&self) -> nat {
        self.decoded.left()
    }

    closed spec fn tail(&self) -> ParquetError {
        self.decoded.tail()
    }

    open spec fn outcome(&self, data: Seq<u8>, num_values: nat) -> Result<Outcome, ParquetError> {
        delta_byte_array_values(data, usize::MAX as nat)
    }

    open spec fn encoding_spec(&self) -> Encoding {
        Encoding::DELTA_BYTE_ARRAY
    }

    fn set_data(&mut self, data: Buffer, num_values: usize) -> (r: Result<(), ParquetError>) {
        let (prefixes, offset) = match decode_lengths(&data, usize::MAX) {
            Ok(x) => x,
            Err(e) => {
                return Err(e);
            },
        };
        let rest = data.start_from(offset);
        let (lens, offset2) = match decode_lengths(&rest, usize::MAX) {
            Ok(x) => x,
            Err(e) => {
                return Err(e);
            },
        };
        let suffixes = split_by_lengths(&rest, offset2, &lens);
        let values = Self::join(&prefixes, &suffixes);
        proof {
            lemma_prefix_join_len(seq![], prefixes@, views(suffixes@));
        }
        let tail = if values.len() < prefixes.len() && values.len() < suffixes.len() {
            ParquetError::InvalidHeader
        } else {
            ParquetError::UnexpectedEof
        };
        self.decoded = DecodedValues::new(values, prefixes.len(), tail);
        Ok(())
    }

    fn get(&mut self, out: &mut Vec<Value>, max: usize) -> (r: Result<usize, ParquetError>) {
        self.decoded.get(out, max)
    }

    fn values_left(&self) -> (r: usize) {
        self.decoded.values_left()
    }

    fn encoding(&self) -> (r: Encoding) {
        Encoding::DELTA_BYTE_ARRAY
    }
}

// ----------------------------------------------------------------------
// Choosing a decoder

/// Why no decoder of `encoding` exists for values of physical type `t`, if
/// one does not. Dictionary decoders come from dictionary pages, not from
/// here.
pub open spec fn decoder_error(t: PhysicalType, encoding: Encoding) -> Option<ParquetError> {
    match encoding {
        Encoding::PLAIN => None,
        Encoding::RLE => if t == PhysicalType::BOOLEAN {
            None
        } else {
            Some(ParquetError::TypeMismatch)
        },
        Encoding::DELTA_BINARY_PACKED => if t == PhysicalType::INT32 || t == PhysicalType::INT64 {
            None
        } else {
            Some(ParquetError::TypeMismatch)
        },
        Encoding::DELTA_LENGTH_BYTE_ARRAY | Encoding::DELTA_BYTE_ARRAY => if t
            == PhysicalType::BYTE_ARRAY {
            None
        } else {
            Some(ParquetError::TypeMismatch)
        },
        _ => Some(ParquetError::UnsupportedEncoding),
    }
}

/// A decoder of data-page values in one of the encodings that need no
/// dictionary.
pub enum ValueDecoder {
    Plain(PlainDecoder),
    Rle(RleValueDecoder),
    DeltaBitPack(DeltaBitPackDecoder),
    DeltaLengthByteArray(DeltaLengthByteArrayDecoder),
    DeltaByteArray(DeltaByteArrayDecoder),
}

impl ValueDecoder {
    /// The decoder reads values of the column `descr` describes.
    pub open spec fn suits(&self, descr: ColumnDescriptor) -> bool {
        match self {
            ValueDecoder::Plain(d) => d.physical_type_spec() == descr.physical_type
                && d.type_length_spec() == descr.type_length,
            ValueDecoder::Rle(_) => descr.physical_type == PhysicalType::BOOLEAN,
            ValueDecoder::DeltaBitPack(d) => d.physical_type_spec() == descr.physical_type && (
            descr.physical_type == PhysicalType::INT32 || descr.physical_type
                == PhysicalType::INT64),
            ValueDecoder::DeltaLengthByteArray(_) => descr.physical_type == PhysicalType::BYTE_ARRAY,
            ValueDecoder::DeltaByteArray(_) => descr.physical_type == PhysicalType::BYTE_ARRAY,
        }
    }
}

impl Decoder for ValueDecoder {
    open spec fn wf(&self) -> bool {
        match self {
            ValueDecoder::Plain(d) => d.wf(),
            ValueDecoder::Rle(d) => d.wf(),
            ValueDecoder::DeltaBitPack(d) => d.wf(),
            ValueDecoder::DeltaLengthByteArray(d) => d.wf(),
            ValueDecoder::DeltaByteArray(d) => d.wf(),
        }
    }

    open spec fn pending(&self) -> Seq<ValueView> {
        match self {
            ValueDecoder::Plain(d) => d.pending(),
            ValueDecoder::Rle(d) => d.pending(),
            ValueDecoder::DeltaBitPack(d) => d.pending(),
            ValueDecoder::DeltaLengthByteArray(d) => d.pending(),
            ValueDecoder::DeltaByteArray(d) => d.pending(),
        }
    }

    open spec fn left(&self) -> nat {
        match self {
            ValueDecoder::Plain(d) => d.left(),
            ValueDecoder::Rle(d) => d.left(),
            ValueDecoder::DeltaBitPack(d) => d.left(),
            ValueDecoder::DeltaLengthByteArray(d) => d.left(),
            ValueDecoder::DeltaByteArray(d) => d.left(),
        }
    }

    open spec fn tail(&self) -> ParquetError {
        match self {
            ValueDecoder::Plain(d) => d.tail(),
            ValueDecoder::Rle(d) => d.tail(),
            ValueDecoder::DeltaBitPack(d) => d.tail(),
            ValueDecoder::DeltaLengthByteArray(d) => d.tail(),
            ValueDecoder::DeltaByteArray(d) => d.tail(),
        }
    }

    open spec fn outcome(&self, data: Seq<u8>, num_values: nat) -> Result<Outcome, ParquetError> {
        match self {
            ValueDecoder::Plain(d) => d.outcome(data, num_values),
            ValueDecoder::Rle(d) => d.outcome(data, num_values),
            ValueDecoder::DeltaBitPack(d) => d.outcome(data, num_values),
            ValueDecoder::DeltaLengthByteArray(d) => d.outcome(data, num_values),
            ValueDecoder::DeltaByteArray(d) => d.outcome(data, num_values),
        }
    }

    open spec fn encoding_spec(&self) -> Encoding {
        match self {
            ValueDecoder::Plain(d) => d.encoding_spec(),
            ValueDecoder::Rle(d) => d.encoding_spec(),
            ValueDecoder::DeltaBitPack(d) => d.encoding_spec(),
            ValueDecoder::DeltaLengthByteArray(d) => d.encoding_spec(),
            ValueDecoder::DeltaByteArray(d) => d.encoding_spec(),
        }
    }

    fn set_data(&mut self, data: Buffer, num_values: usize) -> (r: Result<(), ParquetError>) {
        match self {
            ValueDecoder::Plain(d) => d.set_data(data, num_values),
            ValueDecoder::Rle(d) => d.set_data(data, num_values),
            ValueDecoder::DeltaBitPack(d) => d.set_data(data, num_values),
            ValueDecoder::DeltaLengthByteArray(d) => d.set_data(data, num_values),
            ValueDecoder::DeltaByteArray(d) => d.set_data(data, num_values),
        }
    }

    fn get(&mut self, out: &mut Vec<Value>, max: usize) -> (r: Result<usize, ParquetError>) {
        match self {
            ValueDecoder::Plain(d) => d.get(out, max),
            ValueDecoder::Rle(d) => d.get(out, max),
            ValueDecoder::DeltaBitPack(d) => d.get(out, max),
            ValueDecoder::DeltaLengthByteArray(d) => d.get(out, max),
            ValueDecoder::DeltaByteArray(d) => d.get(out, max),
        }
    }

    fn values_left(&self) -> (r: usize) {
        match self {
            ValueDecoder::Plain(d) => d.values_left(),
            ValueDecoder::Rle(d) => d.values_left(),
            ValueDecoder::DeltaBitPack(d) => d.values_left(),
            ValueDecoder::DeltaLengthByteArray(d) => d.values_left(),
            ValueDecoder::DeltaByteArray(d) => d.values_left(),
        }
    }

    fn encoding(&self) -> (r: Encoding) {
        match self {
            ValueDecoder::Plain(d) => d.encoding(),
            ValueDecoder::Rle(d) => d.encoding(),
            ValueDecoder::DeltaBitPack(d) => d.encoding(),
            ValueDecoder::DeltaLengthByteArray(d) => d.encoding(),
            ValueDecoder::DeltaByteArray(d) => d.encoding(),
        }
    }
}

/// A fresh decoder of `encoding` for the values of the column `descr`
/// describes, or why there is none.
pub fn get_decoder(descr: &ColumnDescriptor, encoding: Encoding) -> (r: Result<ValueDecoder, ParquetError>)
    requires
        descr.wf(),
    ensures
        match decoder_error(descr.physical_type, encoding) {
            None => r matches Ok(d) && d.wf() && d.encoding_spec() == encoding && d.suits(*descr)
                && d.pending() == Seq::<ValueView>::empty() && d.left() == 0,
            Some(e) => r matches Err(x) && x == e,
        },
{
    let t = descr.physical_type;
    match encoding {
        Encoding::PLAIN => Ok(ValueDecoder::Plain(PlainDecoder::new(t, descr.type_length))),
        Encoding::RLE => match t {
            PhysicalType::BOOLEAN => Ok(ValueDecoder::Rle(RleValueDecoder::new())),
            _ => Err(ParquetError::TypeMismatch),
        },
        Encoding::DELTA_BINARY_PACKED => match t {
            PhysicalType::INT32 | PhysicalType::INT64 => Ok(
                ValueDecoder::DeltaBitPack(DeltaBitPackDecoder::new(t)),
            ),
            _ => Err(ParquetError::TypeMismatch),
        },
        Encoding::DELTA_LENGTH_BYTE_ARRAY => match t {
            PhysicalType::BYTE_ARRAY => Ok(
                ValueDecoder::DeltaLengthByteArray(DeltaLengthByteArrayDecoder::new()),
            ),
            _ => Err(ParquetError::TypeMismatch),
        },
        Encoding::DELTA_BYTE_ARRAY => match t {
            PhysicalType::BYTE_ARRAY => Ok(ValueDecoder::DeltaByteArray(DeltaByteArrayDecoder::new())),
            _ => Err(ParquetError::TypeMismatch),
        },
        _ => Err(ParquetError::UnsupportedEncoding),
    }
}

// ----------------------------------------------------------------------
// Every decoder yields values of the column's physical type

proof fn lemma_byte_array_values_typed(d: Seq<u8>, pos: int, n: nat)
    ensures
        all_typed(byte_array_values(d, pos, n), PhysicalType::BYTE_ARRAY, 0),
    decreases n,
{
    if !(n == 0 || pos < 0 || pos + 4 > d.len()) {
        let l = bytes_le(d, pos, 4);
        if pos + 4 + l <= d.len() {
            lemma_byte_array_values_typed(d, pos + 4 + l, (n - 1) as nat);
            let rest = byte_array_values(d, pos + 4 + l, (n - 1) as nat);
            let all = byte_array_values(d, pos, n);
            assert forall|i: int| 0 <= i < all.len() implies #[trigger] has_type(all[i], PhysicalType::BYTE_ARRAY, 0) by {
                if i > 0 {
                    assert(all[i] == rest[i - 1]);
                }
            }
        }
    }
}

pub proof fn lemma_plain_values_typed(t: PhysicalType, type_length: i32, d: Seq<u8>, n: nat)
    requires
        t == PhysicalType::FIXED_LEN_BYTE_ARRAY ==> type_length > 0,
    ensures
        all_typed(plain_values(t, type_length, d, n), t, type_length),
{
    if t == PhysicalType::FIXED_LEN_BYTE_ARRAY {
        let s = plain_values(t, type_length, d, n);
        let tl = type_length as nat;
        assert forall|i: int| 0 <= i < s.len() implies #[trigger] has_type(s[i], t, type_length) by {
            crate::bit_util::lemma_batch_count_fits(i as nat, n, d.len(), tl);
            assert(i * tl >= 0) by (nonlinear_arith)
                requires
                    i >= 0,
                    tl >= 0,
            ;
        }
    }
    if t == PhysicalType::BYTE_ARRAY {
        lemma_byte_array_values_typed(d, 0, n);
        let s = plain_values(t, type_length, d, n);
        assert forall|i: int| 0 <= i < s.len() implies #[trigger] has_type(s[i], t, type_length) by {
            assert(has_type(s[i], PhysicalType::BYTE_ARRAY, 0));
        }
    }
}

proof fn lemma_dict_lookup_typed(dict: Seq<ValueView>, idx: Seq<u64>, t: PhysicalType, type_length: i32)
    requires
        all_typed(dict, t, type_length),
    ensures
        all_typed(dict_lookup(dict, idx), t, type_length),
    decreases idx.len(),
{
    if !(idx.len() == 0 || idx[0] >= dict.len()) {
        lemma_dict_lookup_typed(dict, idx.drop_first(), t, type_length);
        let all = dict_lookup(dict, idx);
        let rest = dict_lookup(dict, idx.drop_first());
        assert forall|i: int| 0 <= i < all.len() implies #[trigger] has_type(all[i], t, type_length) by {
            if i > 0 {
                assert(all[i] == rest[i - 1]);
            } else {
                assert(all[0] == dict[idx[0] as int]);
            }
        }
    }
}

pub proof fn lemma_dict_page_outcome_typed(dict: Seq<ValueView>, data: Seq<u8>, n: nat, t: PhysicalType, type_length: i32)
    requires
        all_typed(dict, t, type_length),
    ensures
        dict_page_outcome(dict, data, n) matches Ok(o) ==> all_typed(o.values, t, type_length),
{
    if data.len() > 0 && data[0] <= 64 {
        lemma_dict_lookup_typed(dict, dict_indices(data, n), t, type_length);
    }
}

proof fn lemma_split_lengths_typed(d: Seq<u8>, pos: int, lens: Seq<i32>)
    ensures
        all_typed(split_lengths(d, pos, lens), PhysicalType::BYTE_ARRAY, 0),
    decreases lens.len(),
{
    if !(lens.len() == 0 || pos < 0 || lens[0] < 0 || pos + lens[0] > d.len()) {
        lemma_split_lengths_typed(d, pos + lens[0], lens.drop_first());
        let all = split_lengths(d, pos, lens);
        let rest = split_lengths(d, pos + lens[0], lens.drop_first());
        assert forall|i: int| 0 <= i < all.len() implies #[trigger] has_type(all[i], PhysicalType::BYTE_ARRAY, 0) by {
            if i > 0 {
                assert(all[i] == rest[i - 1]);
            }
        }
    }
}

proof fn lemma_prefix_join_typed(prev: Seq<u8>, prefixes: Seq<i32>, suffixes: Seq<ValueView>)
    ensures
        all_typed(prefix_join(prev, prefixes, suffixes), PhysicalType::BYTE_ARRAY, 0),
    decreases prefixes.len(),
{
    if !(prefixes.len() == 0 || suffixes.len() == 0 || prefixes[0] < 0 || prefixes[0] > prev.len()) {
        let v = prev.take(prefixes[0] as int) + bytes_of(suffixes[0]);
        lemma_prefix_join_typed(v, prefixes.drop_first(), suffixes.drop_first());
        let all = prefix_join(prev, prefixes, suffixes);
        let rest = prefix_join(v, prefixes.drop_first(), suffixes.drop_first());
        assert forall|i: int| 0 <= i < all.len() implies #[trigger] has_type(all[i], PhysicalType::BYTE_ARRAY, 0) by {
            if i > 0 {
                assert(all[i] == rest[i - 1]);
            }
        }
    }
}

/// Byte-array values have the type of a BYTE_ARRAY column, whatever length
/// the descriptor carries.
proof fn lemma_bytes_typed(s: Seq<ValueView>, type_length: i32)
    requires
        all_typed(s, PhysicalType::BYTE_ARRAY, 0),
    ensures
        all_typed(s, PhysicalType::BYTE_ARRAY, type_length),
{
    assert forall|i: int| 0 <= i < s.len() implies #[trigger] has_type(s[i], PhysicalType::BYTE_ARRAY, type_length) by {
        assert(has_type(s[i], PhysicalType::BYTE_ARRAY, 0));
    }
}

/// The values of a page decoded without a dictionary are of the physical
/// type the decoder was chosen for.
pub proof fn lemma_values_typed(t: PhysicalType, type_length: i32, encoding: Encoding, data: Seq<u8>, n: nat)
    requires
        decoder_error(t, encoding) is None,
        t == PhysicalType::FIXED_LEN_BYTE_ARRAY ==> type_length > 0,
    ensures
        ({
            let r = match encoding {
                Encoding::PLAIN => Ok(plain_values(t, type_length, data, n)),
                Encoding::RLE => rle_bool_values(data, n),
                Encoding::DELTA_BINARY_PACKED => match delta_decode(data, usize::MAX as nat) {
                    Ok((vals, _, _, _)) => Ok(int_values(t, vals)),
                    Err(e) => Err(e),
                },
                Encoding::DELTA_LENGTH_BYTE_ARRAY => match delta_length_values(data, usize::MAX as nat) {
                    Ok((_, values)) => Ok(values),
                    Err(e) => Err(e),
                },
                _ => match delta_byte_array_values(data, usize::MAX as nat) {
                    Ok(o) => Ok(o.values),
                    Err(e) => Err(e),
                },
            };
            r matches Ok(values) ==> all_typed(values, t, type_length)
        }),
{
    match encoding {
        Encoding::PLAIN => {
            lemma_plain_values_typed(t, type_length, data, n);
        },
        Encoding::DELTA_LENGTH_BYTE_ARRAY => {
            if let Ok((lens, off)) = delta_lengths(data, usize::MAX as nat) {
                lemma_split_lengths_typed(data, off as int, lens);
                lemma_bytes_typed(split_lengths(data, off as int, lens), type_length);
            }
        },
        Encoding::DELTA_BYTE_ARRAY => {
            if let Ok((prefixes, off)) = delta_lengths(data, usize::MAX as nat) {
                if let Ok((lens, suffixes)) = delta_length_values(data.subrange(off as int, data.len() as int), usize::MAX as nat) {
                    lemma_prefix_join_typed(seq![], prefixes, suffixes);
                    lemma_bytes_typed(prefix_join(seq![], prefixes, suffixes), type_length);
                }
            }
        },
        _ => {},
    }
}

// ----------------------------------------------------------------------
// Round trips through the hybrid encoding

/// Dictionary indices written as a bit-width byte and one run per index.
pub open spec fn dict_indices_encode(width: u8, idx: Seq<u64>) -> Seq<u8> {
    seq![width] + single_runs_encode(idx)
}

/// Looking up indices that all lie inside the dictionary gives the entries
/// they point at.
proof fn lemma_dict_lookup_all(dict: Seq<ValueView>, idx: Seq<u64>)
    requires
        forall|i: int| 0 <= i < idx.len() ==> #[trigger] idx[i] < dict.len(),
    ensures
        dict_lookup(dict, idx) == idx.map_values(|k: u64| dict[k as int]),
    decreases idx.len(),
{
    if idx.len() > 0 {
        assert forall|i: int| 0 <= i < idx.drop_first().len() implies #[trigger] idx.drop_first()[i] < dict.len() by {
            assert(idx.drop_first()[i] == idx[i + 1]);
        }
        lemma_dict_lookup_all(dict, idx.drop_first());
        assert(idx.map_values(|k: u64| dict[k as int]) =~= seq![dict[idx[0] as int]]
            + idx.drop_first().map_values(|k: u64| dict[k as int]));
    }
}

/// Decoding a dictionary-encoded page whose indices, one to eight bits wide,
/// all lie inside the dictionary gives the dictionary entries they point at.
pub proof fn law_dictionary_round_trip(dict: Seq<ValueView>, width: u8, idx: Seq<u64>)
    requires
        1 <= width <= 8,
        forall|i: int| 0 <= i < idx.len() ==> #[trigger] idx[i] < dict.len() && idx[i] < 256,
    ensures
        dict_page_outcome(dict, dict_indices_encode(width, idx), idx.len()) matches Ok(o) && o.values
            == idx.map_values(|k: u64| dict[k as int]),
{
    let d = dict_indices_encode(width, idx);
    assert(d.subrange(1, d.len() as int) =~= single_runs_encode(idx));
    law_single_runs_round_trip(idx, width as nat);
    assert(prefix(idx, idx.len()) == idx);
    lemma_dict_lookup_all(dict, idx);
}

/// Booleans written as a 4-byte little-endian length and one run per value.
pub open spec fn rle_bool_encode(bits: Seq<bool>) -> Seq<u8> {
    let body = single_runs_encode(bits.map_values(|b: bool| if b { 1u64 } else { 0u64 }));
    let len = body.len() as u32;
    seq![(len >> 0u32) as u8, (len >> 8u32) as u8, (len >> 16u32) as u8, (len >> 24u32) as u8] + body
}

/// Decoding the RLE encoding of fewer than 2^31 booleans gives them back.
pub proof fn law_rle_bool_round_trip(bits: Seq<bool>)
    requires
        bits.len() < 0x8000_0000,
    ensures
        rle_bool_values(rle_bool_encode(bits), bits.len()) == Ok::<Seq<ValueView>, ParquetError>(
            bits.map_values(|b: bool| ValueView::Bool(b)),
        ),
{
    let vals = bits.map_values(|b: bool| if b { 1u64 } else { 0u64 });
    let body = single_runs_encode(vals);
    let d = rle_bool_encode(bits);
    let len = body.len() as u32;
    assert(body.len() == 2 * bits.len());
    lemma_le_bytes_u32(len);
    assert(bytes_le(d, 4, 0) == 0);
    assert(bytes_le(d, 3, 1) == d[3] + 256 * bytes_le(d, 4, 0));
    assert(bytes_le(d, 2, 2) == d[2] + 256 * bytes_le(d, 3, 1));
    assert(bytes_le(d, 1, 3) == d[1] + 256 * bytes_le(d, 2, 2));
    assert(bytes_le(d, 0, 4) == d[0] + 256 * bytes_le(d, 1, 3));
    assert(bytes_le(d, 0, 4) == body.len());
    assert(d.subrange(4, 4 + body.len() as int) =~= body);
    assert forall|i: int| 0 <= i < vals.len() implies #[trigger] vals[i] < 256 by {}
    law_single_runs_round_trip(vals, 1);
    assert(prefix(vals, bits.len()) == vals);
    assert(vals.map_values(|v: u64| ValueView::Bool(v == 1)) =~= bits.map_values(|b: bool| ValueView::Bool(b)));
}

} // verus!
