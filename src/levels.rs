//! Definition and repetition levels of a data page.
use crate::basic::{Encoding, ParquetError};
use crate::bit_util::{batch_count, bit_width_for, bits_le, bytes_le, num_required_bits, BitReader};
use crate::memory::Buffer;
use crate::rle::{decode_hybrid, hybrid_values, prefix};
use vstd::prelude::*;

verus! {

/// `raw` as levels, or `InvalidHeader` when one exceeds `max_level`.
pub open spec fn checked_levels(raw: Seq<u64>, max_level: i16) -> Result<Seq<i16>, ParquetError> {
    if exists|i: int| 0 <= i < raw.len() && raw[i] > max_level {
        Err(ParquetError::InvalidHeader)
    } else {
        Ok(raw.map_values(|v: u64| v as i16))
    }
}

/// The first `num_values` levels of the level block at the start of `data`,
/// and the number of bytes the block takes. An RLE block is a 4-byte
/// little-endian length followed by that many bytes of hybrid stream; a
/// bit-packed block holds `num_values` packed values, as far as the data goes.
/// Values are as wide as `max_level` needs.
pub open spec fn level_block(encoding: Encoding, data: Seq<u8>, max_level: i16, num_values: nat) -> Result<
    (Seq<i16>, nat),
    ParquetError,
> {
    let w = bit_width_for(max_level as nat);
    match encoding {
        Encoding::RLE => {
            if data.len() < 4 {
                Err(ParquetError::UnexpectedEof)
            } else {
                let len = bytes_le(data, 0, 4);
                if 4 + len > data.len() {
                    Err(ParquetError::UnexpectedEof)
                } else {
                    let raw = prefix(
                        hybrid_values(data.subrange(4, 4 + len as int), 0, w),
                        num_values,
                    );
                    match checked_levels(raw, max_level) {
                        Ok(l) => Ok((l, 4 + len)),
                        Err(e) => Err(e),
                    }
                }
            }
        },
        Encoding::BIT_PACKED => {
            let size = vstd::math::min(((num_values * w + 7) / 8) as int, data.len() as int) as nat;
            let raw = Seq::new(
                batch_count(num_values, size * 8, w),
                |i: int| bits_le(data, i * w, w) as u64,
            );
            match checked_levels(raw, max_level) {
                Ok(l) => Ok((l, size)),
                Err(e) => Err(e),
            }
        },
        _ => Err(ParquetError::UnsupportedEncoding),
    }
}

fn check_levels(raw: &Vec<u64>, max_level: i16) -> (r: Result<Vec<i16>, ParquetError>)
    requires
        max_level >= 0,
    ensures
        match checked_levels(raw@, max_level) {
            Ok(l) => r matches Ok(v) && v@ == l,
            Err(e) => r == Err::<Vec<i16>, ParquetError>(e),
        },
        r matches Ok(v) ==> forall|i: int| 0 <= i < v@.len() ==> 0 <= #[trigger] v@[i] <= max_level,
{
    let mut out: Vec<i16> = Vec::new();
    let mut i: usize = 0;
    while i < raw.len()
        invariant
            i <= raw@.len(),
            max_level >= 0,
            forall|j: int| 0 <= j < i ==> raw@[j] <= max_level,
            out@ == raw@.take(i as int).map_values(|v: u64| v as i16),
            forall|j: int| 0 <= j < out@.len() ==> 0 <= #[trigger] out@[j] <= max_level,
        decreases raw@.len() - i,
    {
        let v = raw[i];
        if v > max_level as u64 {
            return Err(ParquetError::InvalidHeader);
        }
        let x = v as i16;
        assert(0 <= x <= max_level) by (bit_vector)
            requires
                x == v as i16,
                v <= max_level as u64,
                0 <= max_level,
        ;
        out.push(x);
        i = i + 1;
        assert(out@ =~= raw@.take(i as int).map_values(|v: u64| v as i16));
    }
    assert(raw@.take(i as int) =~= raw@);
    Ok(out)
}

/// Decodes the levels of one page, then hands them out in order.
pub struct LevelDecoder {
    encoding: Encoding,
    max_level: i16,
    levels: Vec<i16>,
    next: usize,
}

impl LevelDecoder {
    pub closed spec fn wf(&self) -> bool {
        &&& self.next <= self.levels@.len()
        &&& self.max_level >= 0
        &&& forall|i: int| 0 <= i < self.levels@.len() ==> 0 <= #[trigger] self.levels@[i] <= self.max_level
    }

    /// Every level left lies between 0 and the maximum level.
    pub proof fn lemma_rest_in_range(&self)
        requires
            self.wf(),
        ensures
            forall|i: int| 0 <= i < self.rest().len() ==> 0 <= #[trigger] self.rest()[i] <= self.max_level_spec(),
    {
        assert forall|i: int| 0 <= i < self.rest().len() implies 0 <= #[trigger] self.rest()[i] <= self.max_level_spec() by {
            assert(self.rest()[i] == self.levels@[self.next + i]);
        }
    }

    pub closed spec fn encoding_spec(&self) -> Encoding {
        self.encoding
    }

    pub closed spec fn max_level_spec(&self) -> i16 {
        self.max_level
    }

    /// The levels not yet handed out.
    pub closed spec fn rest(&self) -> Seq<i16> {
        self.levels@.skip(self.next as int)
    }

    pub fn new(encoding: Encoding, max_level: i16) -> (r: LevelDecoder)
        requires
            max_level >= 0,
        ensures
            r.wf(),
            r.encoding_spec() == encoding,
            r.max_level_spec() == max_level,
            r.rest() == Seq::<i16>::empty(),
    {
        let r = LevelDecoder { encoding, max_level, levels: Vec::new(), next: 0 };
        assert(r.rest() =~= Seq::<i16>::empty());
        r
    }

    /// Decodes the first `num_values` levels of the block at the start of
    /// `data`; returns the size of the block in bytes.
    pub fn set_data(&mut self, num_values: usize, data: &Buffer) -> (r: Result<usize, ParquetError>)
        requires
            old(self).wf(),
        ensures
            final(self).wf(),
            final(self).encoding_spec() == old(self).encoding_spec(),
            final(self).max_level_spec() == old(self).max_level_spec(),
            match level_block(
                old(self).encoding_spec(),
                data@,
                old(self).max_level_spec(),
                num_values as nat,
            ) {
                Ok((l, size)) => r matches Ok(c) && c == size && final(self).rest() == l && size
                    <= data@.len(),
                Err(e) => r == Err::<usize, ParquetError>(e),
            },
    {
        let w = num_required_bits(self.max_level as u64);
        let len = data.len();
        match self.encoding {
            Encoding::RLE => {
                let mut reader = BitReader::new(data.all());
                proof {
                    crate::bit_util::lemma_bytes_le_bound(data@, 0, 4);
                    vstd::arithmetic::power2::lemma2_to64();
                }
                let size = match reader.get_aligned(4) {
                    Some(v) => v,
                    None => {
                        return Err(ParquetError::UnexpectedEof);
                    },
                };
                if size > (len - 4) as u64 {
                    return Err(ParquetError::UnexpectedEof);
                }
                let block = data.range(4, size as usize);
                let raw = decode_hybrid(&block, w, num_values);
                let levels = match check_levels(&raw, self.max_level) {
                    Ok(l) => l,
                    Err(e) => {
                        return Err(e);
                    },
                };
                self.levels = levels;
                self.next = 0;
                assert(self.rest() =~= self.levels@);
                Ok(4 + size as usize)
            },
            Encoding::BIT_PACKED => {
                assert(num_values as u128 * w as u128 <= 0xffff_ffff_ffff_ffff * 64)
                    by (nonlinear_arith)
                    requires
                        num_values <= 0xffff_ffff_ffff_ffff,
                        w <= 64,
                ;
                let bits: u128 = num_values as u128 * w as u128;
                let needed: u128 = (bits + 7) / 8;
                let size: usize = if needed < len as u128 {
                    needed as usize
                } else {
                    len
                };
                let mut reader = BitReader::new(data.range(0, size));
                let mut raw: Vec<u64> = Vec::new();
                let _ = reader.get_batch(&mut raw, num_values, w);
                assert(raw@ =~= Seq::new(
                    batch_count(num_values as nat, size as nat * 8, w as nat),
                    |i: int| bits_le(data@, i * w, w as nat) as u64,
                )) by {
                    assert forall|i: int|
                        0 <= i < raw@.len() implies raw@[i] == bits_le(data@, i * w, w as nat)
                            as u64 by {
                        crate::bit_util::lemma_batch_count_fits(
                            i as nat,
                            num_values as nat,
                            size as nat * 8,
                            w as nat,
                        );
                        assert(i * w >= 0) by (nonlinear_arith)
                            requires
                                i >= 0,
                                w >= 0,
                        ;
                        lemma_bits_le_prefix(data@, size as nat, i * w, w as nat);
                    }
                }
                let levels = match check_levels(&raw, self.max_level) {
                    Ok(l) => l,
                    Err(e) => {
                        return Err(e);
                    },
                };
                self.levels = levels;
                self.next = 0;
                assert(self.rest() =~= self.levels@);
                Ok(size)
            },
            _ => Err(ParquetError::UnsupportedEncoding),
        }
    }

    /// Appends up to `n` of the remaining levels to `out`; returns how many.
    pub fn get(&mut self, out: &mut Vec<i16>, n: usize) -> (r: usize)
        requires
            old(self).wf(),
        ensures
            final(self).wf(),
            final(self).encoding_spec() == old(self).encoding_spec(),
            final(self).max_level_spec() == old(self).max_level_spec(),
            r == vstd::math::min(n as int, old(self).rest().len() as int),
            final(out)@ == old(out)@ + old(self).rest().take(r as int),
            final(self).rest() == old(self).rest().skip(r as int),
    {
        let avail = self.levels.len() - self.next;
        let k = if n < avail {
            n
        } else {
            avail
        };
        let ghost out0 = out@;
        let ghost rest0 = self.rest();
        let mut i: usize = 0;
        while i < k
            invariant
                self.wf(),
                self.encoding == old(self).encoding,
                self.max_level == old(self).max_level,
                self.levels == old(self).levels,
                self.levels@.len() <= usize::MAX,
                i <= k <= avail,
                avail == self.levels@.len() - old(self).next,
                self.next == old(self).next + i,
                rest0 == old(self).rest(),
                out@ == out0 + rest0.take(i as int),
            decreases k - i,
        {
            out.push(self.levels[self.next]);
            self.next = self.next + 1;
            i = i + 1;
            assert(out@ =~= out0 + rest0.take(i as int));
        }
        assert(self.rest() =~= rest0.skip(k as int));
        k
    }
}

/// Bits inside the first `size` bytes read the same from a prefix of the data.
proof fn lemma_bits_le_prefix(data: Seq<u8>, size: nat, pos: int, w: nat)
    requires
        size <= data.len(),
        0 <= pos,
        pos + w <= size * 8,
    ensures
        bits_le(data.subrange(0, size as int), pos, w) == bits_le(data, pos, w),
    decreases w,
{
    if w > 0 {
        lemma_bits_le_prefix(data, size, pos, (w - 1) as nat);
        let i = pos + w - 1;
        assert(i / 8 < size);
    }
}

} // verus!
