//! Bit- and byte-level reads over a `Buffer`: fixed-width values packed least
//! significant bit first, little-endian integers, and base-128 varints.
use crate::memory::Buffer;
use vstd::arithmetic::power2::{lemma2_to64, lemma_pow2_adds, lemma_pow2_strictly_increases, lemma_pow2_unfold, pow2};
use vstd::prelude::*;

verus! {

/// Bit `i` of `data`; bits are numbered from the least significant bit of the
/// first byte.
pub open spec fn bit_at(data: Seq<u8>, i: int) -> u8 {
    (data[i / 8] >> ((i % 8) as u8)) & 1u8
}

/// The unsigned integer held by the `width` bits of `data` that start at bit
/// `pos`, the first of them least significant.
pub open spec fn bits_le(data: Seq<u8>, pos: int, width: nat) -> nat
    decreases width,
{
    if width == 0 {
        0
    } else {
        (bits_le(data, pos, (width - 1) as nat) + bit_at(data, pos + width - 1) * pow2(
            (width - 1) as nat,
        )) as nat
    }
}

/// The unsigned integer held by the `n` bytes of `data` from byte `pos`,
/// little-endian.
pub open spec fn bytes_le(data: Seq<u8>, pos: int, n: nat) -> nat
    decreases n,
{
    if n == 0 {
        0
    } else {
        (data[pos] + 256 * bytes_le(data, pos + 1, (n - 1) as nat)) as nat
    }
}

/// Searches for the last byte of a varint that started at byte `pos`, having
/// seen `k` continuation bytes.
pub open spec fn vlq_len_from(data: Seq<u8>, pos: int, k: nat) -> Option<nat>
    decreases 10 - k,
{
    if k >= 10 || pos < 0 || pos + k >= data.len() {
        None
    } else if data[pos + k] < 128 {
        Some(k + 1)
    } else {
        vlq_len_from(data, pos, k + 1)
    }
}

/// The length in bytes of the varint at byte `pos`: it ends at the first byte
/// below 0x80, and holds at most ten bytes.
pub open spec fn vlq_len(data: Seq<u8>, pos: int) -> Option<nat> {
    vlq_len_from(data, pos, 0)
}

/// The base-128 number whose digits are the low seven bits of the `n` bytes
/// from `pos`, least significant digit first.
pub open spec fn vlq_digits(data: Seq<u8>, pos: int, n: nat) -> nat
    decreases n,
{
    if n == 0 {
        0
    } else {
        (data[pos] % 128) as nat + 128 * vlq_digits(data, pos + 1, (n - 1) as nat)
    }
}

/// The varint at byte `pos` (its value modulo 2^64) and its length in bytes.
pub open spec fn vlq_at(data: Seq<u8>, pos: int) -> Option<(u64, nat)> {
    match vlq_len(data, pos) {
        None => None,
        Some(n) => Some(((vlq_digits(data, pos, n) % 0x1_0000_0000_0000_0000) as u64, n)),
    }
}

/// The signed integer that zig-zag coding maps to `u`.
pub open spec fn zigzag(u: u64) -> i64 {
    if u % 2 == 0 {
        (u / 2) as i64
    } else {
        (-((u / 2) as int) - 1) as i64
    }
}

/// The number of bits needed to write every integer from 0 to `max`.
pub open spec fn bit_width_for(max: nat) -> nat
    decreases max,
{
    if max == 0 {
        0
    } else {
        1 + bit_width_for(max / 2)
    }
}

/// No more bits are needed than any width that holds `max`.
pub proof fn lemma_bit_width_le(max: nat, k: nat)
    requires
        max < pow2(k),
    ensures
        bit_width_for(max) <= k,
    decreases max,
{
    lemma2_to64();
    if max > 0 {
        if k == 0 {
            assert(false);
        } else {
            lemma_pow2_unfold(k);
            lemma_bit_width_le(max / 2, (k - 1) as nat);
        }
    }
}

/// The number of bits needed to write every integer from 0 to `max`.
pub fn num_required_bits(max: u64) -> (r: usize)
    ensures
        r == bit_width_for(max as nat),
        r <= 64,
{
    let mut v: u64 = max;
    let mut r: usize = 0;
    proof {
        lemma2_to64();
        lemma_bit_width_le(max as nat, 64);
    }
    while v > 0
        invariant
            bit_width_for(max as nat) == r + bit_width_for(v as nat),
            r + bit_width_for(v as nat) <= 64,
        decreases v,
    {
        v = v / 2;
        r = r + 1;
    }
    r
}

/// How many values of `width` bits, up to `n`, fit in `bits` bits.
pub open spec fn batch_count(n: nat, bits: nat, width: nat) -> nat {
    if width == 0 {
        n
    } else {
        vstd::math::min(n as int, bits as int / width as int) as nat
    }
}

proof fn lemma_batch_count(r: nat, n: nat, bits: nat, width: nat)
    requires
        r <= n,
        r * width <= bits,
        r < n ==> (r + 1) * width > bits,
    ensures
        r == batch_count(n, bits, width),
{
    if width > 0 {
        if r < n {
            assert(bits as int / width as int == r) by (nonlinear_arith)
                requires
                    r * width <= bits,
                    bits < (r + 1) * width,
                    width > 0,
            ;
        } else {
            assert(bits as int / width as int >= r) by (nonlinear_arith)
                requires
                    r * width <= bits,
                    width > 0,
            ;
        }
    } else {
        if r < n {
            assert((r + 1) * width == 0) by (nonlinear_arith)
                requires
                    width == 0,
            ;
        }
    }
}

/// Each of the values that `batch_count` admits lies inside the bits.
pub proof fn lemma_batch_count_fits(i: nat, n: nat, bits: nat, width: nat)
    requires
        i < batch_count(n, bits, width),
    ensures
        i * width + width <= bits,
{
    if width > 0 {
        assert(i * width + width <= bits) by (nonlinear_arith)
            requires
                i < bits as int / width as int,
                width > 0,
        ;
    } else {
        assert(i * width == 0) by (nonlinear_arith)
            requires
                width == 0,
        ;
    }
}

/// The first byte boundary at or after bit `pos`.
pub open spec fn byte_ceil(pos: nat) -> nat {
    (pos + 7) / 8
}

pub proof fn lemma_bits_le_bound(data: Seq<u8>, pos: int, width: nat)
    ensures
        bits_le(data, pos, width) < pow2(width),
    decreases width,
{
    if width == 0 {
        lemma2_to64();
    } else {
        let w1 = (width - 1) as nat;
        lemma_bits_le_bound(data, pos, w1);
        let i = pos + width - 1;
        lemma_bit_le_one(data, i);
        lemma_pow2_unfold(width);
        let x = bit_at(data, i);
        if x == 0 {
            assert(x * pow2(w1) == 0);
        } else {
            assert(x * pow2(w1) == pow2(w1)) by (nonlinear_arith)
                requires
                    x == 1,
            ;
        }
    }
}

proof fn lemma_bit_le_one(data: Seq<u8>, i: int)
    ensures
        bit_at(data, i) <= 1,
{
    let b = data[i / 8];
    let s = (i % 8) as u8;
    assert((b >> s) & 1u8 <= 1) by (bit_vector);
}

proof fn lemma_pow2_plus(a: nat, b: nat)
    requires
        b == 7 || b == 8,
    ensures
        pow2(a + b) == pow2(b) * pow2(a),
        pow2(7) == 128,
        pow2(8) == 256,
{
    lemma_pow2_adds(a, b);
    lemma2_to64();
}

pub proof fn lemma_bytes_le_bound(data: Seq<u8>, pos: int, n: nat)
    ensures
        bytes_le(data, pos, n) < pow2(8 * n),
    decreases n,
{
    if n == 0 {
        lemma2_to64();
    } else {
        let m = (n - 1) as nat;
        lemma_bytes_le_bound(data, pos + 1, m);
        lemma_pow2_plus(8 * m, 8);
        assert(8 * m + 8 == 8 * n);
    }
}

proof fn lemma_vlq_digits_bound(data: Seq<u8>, pos: int, n: nat)
    ensures
        vlq_digits(data, pos, n) < pow2(7 * n),
    decreases n,
{
    if n == 0 {
        lemma2_to64();
    } else {
        let m = (n - 1) as nat;
        lemma_vlq_digits_bound(data, pos + 1, m);
        lemma_pow2_plus(7 * m, 7);
        assert(7 * m + 7 == 7 * n);
    }
}

proof fn lemma_vlq_len_facts(data: Seq<u8>, pos: int, k: nat)
    requires
        vlq_len_from(data, pos, k) is Some,
    ensures
        k < vlq_len_from(data, pos, k)->0 <= 10,
        0 <= pos,
        pos + vlq_len_from(data, pos, k)->0 <= data.len(),
        data[pos + vlq_len_from(data, pos, k)->0 - 1] < 128,
    decreases 10 - k,
{
    if !(k >= 10 || pos < 0 || pos + k >= data.len()) && data[pos + k] >= 128 {
        lemma_vlq_len_facts(data, pos, k + 1);
    }
}

pub proof fn lemma_vlq_at_facts(data: Seq<u8>, pos: int)
    ensures
        vlq_at(data, pos) matches Some((v, n)) ==> 1 <= n <= 10 && 0 <= pos && pos + n
            <= data.len(),
{
    if vlq_at(data, pos) is Some {
        lemma_vlq_len_facts(data, pos, 0);
    }
}

/// Reads the `n` bytes of `data` from byte `pos` as a little-endian integer.
pub fn read_le(data: &Buffer, pos: usize, n: usize) -> (r: u64)
    requires
        n <= 8,
        pos + n <= data@.len(),
    ensures
        r == bytes_le(data@, pos as int, n as nat),
{
    let ghost d = data@;
    let len = data.len();
    assert(d.len() == len);
    let mut v: u128 = 0;
    let mut k: usize = n;
    proof {
        lemma2_to64();
    }
    while k > 0
        invariant
            k <= n <= 8,
            pos + n <= d.len() <= usize::MAX,
            d == data@,
            v == bytes_le(d, pos + k, (n - k) as nat),
            v < pow2(8 * (n - k) as nat),
            pow2(64) == 0x1_0000_0000_0000_0000,
        decreases k,
    {
        let b = data.get(pos + k - 1);
        proof {
            lemma_pow2_plus(8 * (n - k) as nat, 8);
            assert(8 * (n - k + 1) as nat == 8 * (n - k) as nat + 8);
            if 8 * (n - k + 1) < 64 {
                lemma_pow2_strictly_increases(8 * (n - k + 1) as nat, 64);
            }
        }
        v = v * 256 + b as u128;
        k = k - 1;
    }
    proof {
        lemma_bytes_le_bound(d, pos as int, n as nat);
        if 8 * n < 64 {
            lemma_pow2_strictly_increases(8 * n as nat, 64);
        }
    }
    v as u64
}

/// A cursor over the bits of a `Buffer`.
pub struct BitReader {
    buffer: Buffer,
    byte_offset: usize,
    bit_offset: usize,
}

impl BitReader {
    pub closed spec fn wf(&self) -> bool {
        &&& self.buffer@.len() <= usize::MAX
        &&& self.bit_offset < 8
        &&& self.byte_offset <= self.buffer@.len()
        &&& (self.byte_offset == self.buffer@.len() ==> self.bit_offset == 0)
    }

    /// The bytes read from.
    pub closed spec fn data(&self) -> Seq<u8> {
        self.buffer@
    }

    /// The position of the cursor, in bits.
    pub closed spec fn pos(&self) -> nat {
        (self.byte_offset * 8 + self.bit_offset) as nat
    }

    /// The cursor never passes the end of the data.
    pub proof fn lemma_pos_bound(&self)
        requires
            self.wf(),
        ensures
            self.pos() <= self.data().len() * 8,
    {
    }

    pub fn new(buffer: Buffer) -> (r: BitReader)
        ensures
            r.wf(),
            r.data() == buffer@,
            r.pos() == 0,
    {
        let len = buffer.len();
        assert(buffer@.len() == len);
        BitReader { buffer, byte_offset: 0, bit_offset: 0 }
    }

    /// The number of bytes read from.
    pub fn len(&self) -> (r: usize)
        requires
            self.wf(),
        ensures
            r == self.data().len(),
    {
        self.buffer.len()
    }

    /// The cursor rounded up to a byte boundary.
    pub fn get_byte_offset(&self) -> (r: usize)
        requires
            self.wf(),
        ensures
            r == byte_ceil(self.pos()),
            r <= self.data().len(),
    {
        if self.bit_offset == 0 {
            self.byte_offset
        } else {
            self.byte_offset + 1
        }
    }

    /// Reads a `num_bits`-bit value; `None`, with the cursor unmoved, when fewer
    /// bits are left.
    pub fn get_value(&mut self, num_bits: usize) -> (r: Option<u64>)
        requires
            old(self).wf(),
            num_bits <= 64,
        ensures
            final(self).wf(),
            final(self).data() == old(self).data(),
            old(self).pos() + num_bits <= old(self).data().len() * 8 ==> r == Some(
                bits_le(old(self).data(), old(self).pos() as int, num_bits as nat) as u64,
            ) && final(self).pos() == old(self).pos() + num_bits,
            old(self).pos() + num_bits > old(self).data().len() * 8 ==> r is None
                && final(self).pos() == old(self).pos(),
    {
        let len = self.buffer.len();
        let avail_bytes = len - self.byte_offset;
        if avail_bytes < 9 && avail_bytes * 8 < num_bits + self.bit_offset {
            return None;
        }
        let ghost d = self.data();
        let ghost pos_start = self.pos();
        proof {
            lemma2_to64();
        }
        let mut v: u128 = 0;
        let mut p: u128 = 1;
        let mut k: usize = 0;
        while k < num_bits
            invariant
                self.wf(),
                self.data() == d,
                d.len() <= usize::MAX,
                k <= num_bits <= 64,
                pos_start + num_bits <= d.len() * 8,
                self.pos() == pos_start + k,
                v == bits_le(d, pos_start as int, k as nat),
                p == pow2(k as nat),
                v < p,
                pow2(64) == 0x1_0000_0000_0000_0000,
            decreases num_bits - k,
        {
            let b = self.buffer.get(self.byte_offset);
            let s = self.bit_offset as u8;
            let x = (b >> s) & 1u8;
            proof {
                let i = pos_start + k;
                assert(i / 8 == self.byte_offset && i % 8 == self.bit_offset);
                assert(x == bit_at(d, i));
                lemma_bit_le_one(d, i);
                lemma_pow2_unfold((k + 1) as nat);
                assert(bits_le(d, pos_start as int, (k + 1) as nat) == v + x * p);
                if x == 0 {
                    assert(x * p == 0);
                } else {
                    assert(x * p == p) by (nonlinear_arith)
                        requires
                            x == 1,
                    ;
                }
                if k + 1 < 64 {
                    lemma_pow2_strictly_increases((k + 1) as nat, 64);
                }
            }
            if x == 1 {
                v = v + p;
            }
            p = p * 2;
            if self.bit_offset == 7 {
                self.bit_offset = 0;
                self.byte_offset = self.byte_offset + 1;
            } else {
                self.bit_offset = self.bit_offset + 1;
            }
            k = k + 1;
        }
        proof {
            if num_bits < 64 {
                lemma_pow2_strictly_increases(num_bits as nat, 64);
            }
        }
        Some(v as u64)
    }

    /// Appends up to `n` values of `num_bits` bits each to `out`, stopping early
    /// when the bits run out; returns how many were appended.
    pub fn get_batch(&mut self, out: &mut Vec<u64>, n: usize, num_bits: usize) -> (r: usize)
        requires
            old(self).wf(),
            num_bits <= 64,
        ensures
            final(self).wf(),
            final(self).data() == old(self).data(),
            r <= n,
            final(self).pos() == old(self).pos() + r * num_bits,
            final(out)@ == old(out)@ + Seq::new(
                r as nat,
                |i: int|
                    bits_le(old(self).data(), old(self).pos() + i * num_bits, num_bits as nat) as u64,
            ),
            r < n ==> final(self).pos() + num_bits > old(self).data().len() * 8,
            r == batch_count(n as nat, (old(self).data().len() * 8 - old(self).pos()) as nat, num_bits as nat),
    {
        let ghost d = self.data();
        let ghost pos_start = self.pos();
        let ghost out0 = out@;
        proof {
            self.lemma_pos_bound();
        }
        let mut j: usize = 0;
        while j < n
            invariant_except_break
                j <= n,
            invariant
                self.wf(),
                self.data() == d,
                j <= n,
                self.pos() == pos_start + j * num_bits,
                num_bits <= 64,
                out@ == out0 + Seq::new(
                    j as nat,
                    |i: int| bits_le(d, pos_start + i * num_bits, num_bits as nat) as u64,
                ),
            ensures
                j <= n,
                j < n ==> self.pos() + num_bits > d.len() * 8,
            decreases n - j,
        {
            match self.get_value(num_bits) {
                Some(v) => {
                    out.push(v);
                    proof {
                        assert((j + 1) * num_bits == j * num_bits + num_bits) by (nonlinear_arith);
                        assert(out@ =~= out0 + Seq::new(
                            (j + 1) as nat,
                            |i: int| bits_le(d, pos_start + i * num_bits, num_bits as nat) as u64,
                        ));
                    }
                    j = j + 1;
                },
                None => {
                    break ;
                },
            }
        }
        proof {
            self.lemma_pos_bound();
            if j < n {
                assert((j + 1) * num_bits > d.len() * 8 - pos_start) by (nonlinear_arith)
                    requires
                        pos_start + j * num_bits + num_bits > d.len() * 8,
                ;
            }
            lemma_batch_count(j as nat, n as nat, (d.len() * 8 - pos_start) as nat, num_bits as nat);
        }
        j
    }

    /// Moves to the next byte boundary, then reads `num_bytes` bytes as a
    /// little-endian integer; `None`, with the cursor unmoved, when fewer bytes
    /// are left.
    pub fn get_aligned(&mut self, num_bytes: usize) -> (r: Option<u64>)
        requires
            old(self).wf(),
            num_bytes <= 8,
        ensures
            final(self).wf(),
            final(self).data() == old(self).data(),
            byte_ceil(old(self).pos()) + num_bytes <= old(self).data().len() ==> r == Some(
                bytes_le(old(self).data(), byte_ceil(old(self).pos()) as int, num_bytes as nat)
                    as u64,
            ) && final(self).pos() == (byte_ceil(old(self).pos()) + num_bytes) * 8,
            byte_ceil(old(self).pos()) + num_bytes > old(self).data().len() ==> r is None
                && final(self).pos() == old(self).pos(),
    {
        let start = self.get_byte_offset();
        if num_bytes > self.buffer.len() - start {
            return None;
        }
        let ghost d = self.data();
        let mut v: u128 = 0;
        let mut k: usize = num_bytes;
        proof {
            lemma2_to64();
        }
        while k > 0
            invariant
                self.wf(),
                self.data() == d,
                k <= num_bytes <= 8,
                start + num_bytes <= d.len() <= usize::MAX,
                v == bytes_le(d, start + k, (num_bytes - k) as nat),
                v < pow2(8 * (num_bytes - k) as nat),
                pow2(64) == 0x1_0000_0000_0000_0000,
            decreases k,
        {
            let b = self.buffer.get(start + k - 1);
            proof {
                lemma_pow2_plus(8 * (num_bytes - k) as nat, 8);
                assert(8 * (num_bytes - k + 1) as nat == 8 * (num_bytes - k) as nat + 8);
                if 8 * (num_bytes - k + 1) < 64 {
                    lemma_pow2_strictly_increases(8 * (num_bytes - k + 1) as nat, 64);
                }
            }
            v = v * 256 + b as u128;
            k = k - 1;
        }
        proof {
            lemma_bytes_le_bound(d, start as int, num_bytes as nat);
            if 8 * num_bytes < 64 {
                lemma_pow2_strictly_increases(8 * num_bytes as nat, 64);
            }
        }
        self.byte_offset = start + num_bytes;
        self.bit_offset = 0;
        Some(v as u64)
    }

    /// Moves to the next byte boundary and reads a base-128 varint; `None`,
    /// with the cursor unmoved, when no varint of at most ten bytes ends inside
    /// the buffer.
    pub fn get_vlq_int(&mut self) -> (r: Option<u64>)
        requires
            old(self).wf(),
        ensures
            final(self).wf(),
            final(self).data() == old(self).data(),
            match vlq_at(old(self).data(), byte_ceil(old(self).pos()) as int) {
                Some((v, n)) => r == Some(v) && final(self).pos() == (byte_ceil(old(self).pos())
                    + n) * 8,
                None => r is None && final(self).pos() == old(self).pos(),
            },
    {
        let start = self.get_byte_offset();
        let len = self.buffer.len();
        let ghost d = self.data();
        let ghost p_start = self.pos();
        // find the byte that ends the varint
        let mut n: usize = 0;
        loop
            invariant_except_break
                n < 10,
                vlq_len_from(d, start as int, 0) == vlq_len_from(d, start as int, n as nat),
            invariant
                self.wf(),
                self.data() == d,
                self.pos() == p_start,
                p_start == old(self).pos(),
                d == old(self).data(),
                start == byte_ceil(p_start),
                len == d.len(),
                start <= len,
                len <= usize::MAX,
            ensures
                vlq_len_from(d, start as int, 0) == Some(n as nat),
            decreases 10 - n,
        {
            if n >= len - start {
                assert(vlq_len_from(d, start as int, n as nat) is None);
                return None;
            }
            let b = self.buffer.get(start + n);
            if b < 128 {
                n = n + 1;
                break ;
            }
            if n == 9 {
                assert(vlq_len_from(d, start as int, 10) is None);
                assert(vlq_len_from(d, start as int, 9) is None);
                return None;
            }
            n = n + 1;
        }
        proof {
            lemma_vlq_len_facts(d, start as int, 0);
            lemma2_to64();
            lemma_pow2_adds(64, 6);
        }
        let mut v: u128 = 0;
        let mut k: usize = n;
        while k > 0
            invariant
                self.wf(),
                self.data() == d,
                k <= n <= 10,
                start + n <= d.len() <= usize::MAX,
                v == vlq_digits(d, start + k, (n - k) as nat),
                v < pow2(7 * (n - k) as nat),
                pow2(64) == 0x1_0000_0000_0000_0000,
                pow2(70) == 0x40_0000_0000_0000_0000,
            decreases k,
        {
            let b = self.buffer.get(start + k - 1);
            proof {
                lemma_pow2_plus(7 * (n - k) as nat, 7);
                assert(7 * (n - k + 1) as nat == 7 * (n - k) as nat + 7);
                if 7 * (n - k + 1) < 70 {
                    lemma_pow2_strictly_increases(7 * (n - k + 1) as nat, 70);
                }
            }
            v = v * 128 + (b % 128) as u128;
            k = k - 1;
        }
        self.byte_offset = start + n;
        self.bit_offset = 0;
        assert(vlq_len(d, start as int) == Some(n as nat));
        assert(v == vlq_digits(d, start as int, n as nat));
        Some((v % 0x1_0000_0000_0000_0000) as u64)
    }

    /// Reads a varint and undoes its zig-zag coding.
    pub fn get_zigzag_vlq_int(&mut self) -> (r: Option<i64>)
        requires
            old(self).wf(),
        ensures
            final(self).wf(),
            final(self).data() == old(self).data(),
            match vlq_at(old(self).data(), byte_ceil(old(self).pos()) as int) {
                Some((v, n)) => r == Some(zigzag(v)) && final(self).pos() == (byte_ceil(
                    old(self).pos(),
                ) + n) * 8,
                None => r is None && final(self).pos() == old(self).pos(),
            },
    {
        match self.get_vlq_int() {
            Some(u) => Some(zigzag_decode(u)),
            None => None,
        }
    }
}

/// Undoes zig-zag coding: even codes are the non-negative numbers, odd codes
/// the negative ones.
pub fn zigzag_decode(u: u64) -> (r: i64)
    ensures
        r == zigzag(u),
{
    let half: u64 = u / 2;
    if u % 2 == 0 {
        half as i64
    } else {
        -(half as i64) - 1
    }
}

} // verus!
