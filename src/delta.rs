//! DELTA_BINARY_PACKED: a header (block size, mini-blocks per block, value
//! count, first value), then blocks of deltas. Each block holds its minimum
//! delta, one bit width per mini-block, and the mini-blocks, whose packed
//! values are added to the minimum delta.
use crate::basic::ParquetError;
use crate::bit_util::{bits_le, byte_ceil, vlq_at, zigzag, BitReader};
use crate::memory::Buffer;
use vstd::prelude::*;

verus! {

/// The header fields and the byte where the first block starts.
pub open spec fn delta_header(d: Seq<u8>) -> Result<(u64, u64, u64, i64, nat), ParquetError> {
    match vlq_at(d, 0) {
        None => Err(ParquetError::UnexpectedEof),
        Some((block_size, n1)) => match vlq_at(d, n1 as int) {
            None => Err(ParquetError::UnexpectedEof),
            Some((num_mini, n2)) => match vlq_at(d, (n1 + n2) as int) {
                None => Err(ParquetError::UnexpectedEof),
                Some((total, n3)) => match vlq_at(d, (n1 + n2 + n3) as int) {
                    None => Err(ParquetError::UnexpectedEof),
                    Some((z, n4)) => Ok((block_size, num_mini, total, zigzag(z), n1 + n2 + n3 + n4)),
                },
            },
        },
    }
}

/// A block size that is a positive multiple of 128, split into mini-blocks
/// whose size is a positive multiple of 8.
pub open spec fn delta_header_valid(block_size: u64, num_mini: u64) -> bool {
    &&& num_mini > 0
    &&& block_size % 128 == 0
    &&& block_size / num_mini > 0
    &&& (block_size / num_mini) % 8 == 0
}

/// The block header at byte `pos`: the minimum delta, the bit widths of the
/// `num_mini` mini-blocks (each at most 64), and the byte where the packed
/// deltas start.
#[verifier::opaque]
pub open spec fn delta_block(d: Seq<u8>, pos: int, num_mini: nat) -> Result<(i64, Seq<u8>, nat), ParquetError> {
    match vlq_at(d, pos) {
        None => Err(ParquetError::UnexpectedEof),
        Some((z, n)) => {
            let start = pos + n;
            if start + num_mini > d.len() {
                Err(ParquetError::UnexpectedEof)
            } else {
                let widths = d.subrange(start, start + num_mini);
                if exists|i: int| 0 <= i < num_mini && widths[i] > 64 {
                    Err(ParquetError::InvalidHeader)
                } else {
                    Ok((zigzag(z), widths, (start + num_mini) as nat))
                }
            }
        },
    }
}

/// `count` deltas, each as (minimum delta, packed delta), read from mini-block
/// `m` of the block whose bit widths are `widths`, that mini-block starting at
/// bit `bitpos`; and the byte where each mini-block read ends. Every
/// mini-block read must be whole in the data.
#[verifier::opaque]
pub open spec fn delta_minis(
    d: Seq<u8>,
    bitpos: nat,
    widths: Seq<u8>,
    m: nat,
    md: i64,
    vpm: nat,
    count: nat,
) -> Result<(Seq<(i64, u64)>, Seq<nat>), ParquetError>
    decreases count,
{
    if count == 0 {
        Ok((seq![], seq![]))
    } else if vpm == 0 || m >= widths.len() {
        Err(ParquetError::InvalidHeader)
    } else {
        let w = widths[m as int] as nat;
        if bitpos + vpm * w > d.len() * 8 {
            Err(ParquetError::UnexpectedEof)
        } else {
            let k = if vpm < count {
                vpm
            } else {
                count
            };
            let here = mini_steps(d, bitpos, md, k, w);
            let end = bitpos + vpm * w;
            let rest = if k == count {
                Ok((seq![], seq![]))
            } else if m + 1 < widths.len() {
                delta_minis(d, end as nat, widths, m + 1, md, vpm, (count - k) as nat)
            } else {
                match delta_block(d, byte_ceil(end as nat) as int, widths.len()) {
                    Err(e) => Err(e),
                    Ok((md2, widths2, start2)) => delta_minis(
                        d,
                        start2 * 8,
                        widths2,
                        0,
                        md2,
                        vpm,
                        (count - k) as nat,
                    ),
                }
            };
            prepend(here, seq![byte_ceil(end as nat)], rest)
        }
    }
}

pub open spec fn prepend(
    s: Seq<(i64, u64)>,
    ends: Seq<nat>,
    r: Result<(Seq<(i64, u64)>, Seq<nat>), ParquetError>,
) -> Result<(Seq<(i64, u64)>, Seq<nat>), ParquetError> {
    match r {
        Ok((t, f)) => Ok((s + t, ends + f)),
        Err(e) => Err(e),
    }
}

/// Byte positions as natural numbers.
pub open spec fn nats(s: Seq<usize>) -> Seq<nat> {
    s.map_values(|x: usize| x as nat)
}

/// Where a stream whose header ends at byte `hend` and whose mini-blocks read
/// end at `ends` stops.
pub open spec fn stream_end(hend: nat, ends: Seq<nat>) -> nat {
    if ends.len() == 0 {
        hend
    } else {
        ends.last()
    }
}

/// The byte offset of a reader of the stream after `consumed` values were
/// handed out: the end of the header until the second value, then the end of
/// the mini-block that held the last value handed out.
pub open spec fn offset_after(hend: nat, ends: Seq<nat>, vpm: nat, consumed: nat) -> nat {
    if consumed <= 1 || ends.len() == 0 || vpm == 0 {
        hend
    } else {
        let m = (consumed - 2) as nat / vpm;
        if m < ends.len() {
            ends[m as int]
        } else {
            ends.last()
        }
    }
}

/// The values: `first`, then each previous value plus the minimum delta plus
/// the packed delta, with two's-complement wrap-around.
pub open spec fn accumulate(first: i64, steps: Seq<(i64, u64)>) -> Seq<i64>
    decreases steps.len(),
{
    if steps.len() == 0 {
        seq![first]
    } else {
        let prev = accumulate(first, steps.drop_last());
        prev.push(prev.last().wrapping_add(steps.last().0).wrapping_add(steps.last().1 as i64))
    }
}

/// The first `min(count, cap)` values of the stream at the start of `d`; the
/// byte where the header ends; the number of values in a mini-block; and the
/// byte where each mini-block read ends.
#[verifier::opaque]
pub open spec fn delta_decode(d: Seq<u8>, cap: nat) -> Result<(Seq<i64>, nat, nat, Seq<nat>), ParquetError> {
    match delta_header(d) {
        Err(e) => Err(e),
        Ok((block_size, num_mini, total, first, hend)) => {
            if !delta_header_valid(block_size, num_mini) {
                Err(ParquetError::InvalidHeader)
            } else {
                let n = if total < cap {
                    total as nat
                } else {
                    cap
                };
                let vpm = (block_size / num_mini) as nat;
                if n == 0 {
                    Ok((seq![], hend, vpm, seq![]))
                } else if n == 1 {
                    Ok((seq![first], hend, vpm, seq![]))
                } else {
                    match delta_block(d, hend as int, num_mini as nat) {
                        Err(e) => Err(e),
                        Ok((md, widths, p)) => match delta_minis(
                            d,
                            p * 8,
                            widths,
                            0,
                            md,
                            (block_size / num_mini) as nat,
                            (n - 1) as nat,
                        ) {
                            Err(e) => Err(e),
                            Ok((steps, ends)) => Ok((accumulate(first, steps), hend, vpm, ends)),
                        },
                    }
                }
            }
        },
    }
}

/// Reads a block header at the reader's next byte boundary.
fn read_block(reader: &mut BitReader, num_mini: u64) -> (r: Result<(i64, Vec<u8>), ParquetError>)
    requires
        old(reader).wf(),
    ensures
        final(reader).wf(),
        final(reader).data() == old(reader).data(),
        match delta_block(old(reader).data(), byte_ceil(old(reader).pos()) as int, num_mini as nat) {
            Ok((md, widths, p)) => r matches Ok((m, w)) && m == md && w@ == widths
                && final(reader).pos() == p * 8,
            Err(e) => r matches Err(x) && x == e,
        },
        r matches Ok((m, w)) ==> w@.len() == num_mini && forall|k: int|
            0 <= k < w@.len() ==> w@[k] <= 64,
{
    reveal(delta_block);
    let ghost d = reader.data();
    let ghost pos = byte_ceil(reader.pos()) as int;
    let md = match reader.get_zigzag_vlq_int() {
        Some(v) => v,
        None => {
            return Err(ParquetError::UnexpectedEof);
        },
    };
    proof {
        crate::bit_util::lemma_vlq_at_facts(d, pos);
    }
    let start = reader.get_byte_offset();
    let len = reader.len();
    if num_mini > (len - start) as u64 {
        return Err(ParquetError::UnexpectedEof);
    }
    let count = num_mini as usize;
    let mut widths: Vec<u8> = Vec::new();
    let mut i: usize = 0;
    while i < count
        invariant
            reader.wf(),
            reader.data() == d,
            d == old(reader).data(),
            len == d.len(),
            start + count <= len,
            i <= count,
            reader.pos() == (start + i) * 8,
            widths@ == d.subrange(start as int, start + i),
        decreases count - i,
    {
        let b = match reader.get_aligned(1) {
            Some(v) => v,
            None => {
                proof {
                    reveal(delta_block);
                }
                return Err(ParquetError::UnexpectedEof);
            },
        };
        proof {
            crate::bit_util::lemma_bytes_le_bound(d, (start + i) as int, 1);
            vstd::arithmetic::power2::lemma2_to64();
        }
        widths.push(b as u8);
        i = i + 1;
        assert(widths@ =~= d.subrange(start as int, start + i));
    }
    let mut j: usize = 0;
    while j < count
        invariant
            reader.wf(),
            reader.data() == d,
            d == old(reader).data(),
            pos == byte_ceil(old(reader).pos()),
            vlq_at(d, pos) is Some,
            start == pos + crate::bit_util::vlq_len(d, pos)->Some_0,
            reader.pos() == (start + count) * 8,
            count == num_mini,
            start + count <= d.len(),
            widths@ == d.subrange(start as int, start + count),
            j <= count == widths@.len(),
            forall|k: int| 0 <= k < j ==> widths@[k] <= 64,
        decreases count - j,
    {
        if widths[j] > 64 {
            proof {
                reveal(delta_block);
                let ws = d.subrange(start as int, start + num_mini as nat);
                assert(ws[j as int] > 64);
            }
            return Err(ParquetError::InvalidHeader);
        }
        j = j + 1;
    }
    Ok((md, widths))
}

/// `k` deltas of `w` bits from bit `pos`, each paired with the minimum delta.
pub open spec fn mini_steps(d: Seq<u8>, pos: nat, md: i64, k: nat, w: nat) -> Seq<(i64, u64)> {
    Seq::new(k, |j: int| (md, bits_le(d, pos + j * w, w) as u64))
}

/// Reads `k` deltas of `w` bits and extends `values` with them.
fn add_mini(
    reader: &mut BitReader,
    values: &mut Vec<i64>,
    md: i64,
    k: usize,
    w: usize,
    Ghost(first): Ghost<i64>,
    Ghost(steps): Ghost<Seq<(i64, u64)>>,
)
    requires
        old(reader).wf(),
        w <= 64,
        old(reader).pos() + k * w <= old(reader).data().len() * 8,
        old(values)@ == accumulate(first, steps),
    ensures
        final(reader).wf(),
        final(reader).data() == old(reader).data(),
        final(reader).pos() == old(reader).pos() + k * w,
        final(values)@ == accumulate(
            first,
            steps + mini_steps(old(reader).data(), old(reader).pos(), md, k as nat, w as nat),
        ),
{
    let ghost d = reader.data();
    let ghost pos0 = reader.pos();
    let ghost here = mini_steps(d, pos0, md, k as nat, w as nat);
    let mut deltas: Vec<u64> = Vec::new();
    let got = reader.get_batch(&mut deltas, k, w);
    proof {
        reader.lemma_pos_bound();
        assert(got == k) by {
            if w > 0 {
                assert((d.len() * 8 - pos0) as int / w as int >= k) by (nonlinear_arith)
                    requires
                        k * w <= d.len() * 8 - pos0,
                        w > 0,
                ;
            }
        }
        lemma_accumulate_len(first, steps);
    }
    let mut cur: i64 = values[values.len() - 1];
    let ghost mut st = steps;
    let mut j: usize = 0;
    while j < k
        invariant
            j <= k == deltas@.len(),
            deltas@ == Seq::new(k as nat, |i: int| bits_le(d, pos0 + i * w, w as nat) as u64),
            here == mini_steps(d, pos0, md, k as nat, w as nat),
            st == steps + here.take(j as int),
            values@ == accumulate(first, st),
            cur == values@.last(),
        decreases k - j,
    {
        let x = deltas[j];
        cur = cur.wrapping_add(md).wrapping_add(x as i64);
        values.push(cur);
        proof {
            lemma_accumulate_push(first, st, (md, x));
            st = st.push((md, x));
            assert(here.take(j + 1) =~= here.take(j as int).push((md, x)));
            assert(st =~= steps + here.take(j + 1));
        }
        j = j + 1;
    }
    assert(here.take(k as int) =~= here);
}

proof fn lemma_accumulate_push(first: i64, steps: Seq<(i64, u64)>, x: (i64, u64))
    ensures
        accumulate(first, steps.push(x)) == accumulate(first, steps).push(
            accumulate(first, steps).last().wrapping_add(x.0).wrapping_add(x.1 as i64),
        ),
        accumulate(first, steps).len() == steps.len() + 1,
    decreases steps.len(),
{
    assert(steps.push(x).drop_last() =~= steps);
    lemma_accumulate_len(first, steps);
}

proof fn lemma_accumulate_len(first: i64, steps: Seq<(i64, u64)>)
    ensures
        accumulate(first, steps).len() == steps.len() + 1,
    decreases steps.len(),
{
    if steps.len() > 0 {
        lemma_accumulate_len(first, steps.drop_last());
    }
}

/// Decodes the first `min(count, cap)` values of the DELTA_BINARY_PACKED
/// stream at the start of `data`; returns them with the byte where the header
/// ends, the number of values in a mini-block, and the byte where each
/// mini-block read ends.
#[verifier::rlimit(100)]
pub fn decode_delta(data: &Buffer, cap: usize) -> (r: Result<(Vec<i64>, usize, u64, Vec<usize>), ParquetError>)
    ensures
        match delta_decode(data@, cap as nat) {
            Ok((values, hend, vpm, ends)) => r matches Ok((v, h, p, e)) && v@ == values && h == hend
                && p == vpm && nats(e@) == ends,
            Err(e) => r matches Err(x) && x == e,
        },
        r matches Ok((v, h, p, e)) ==> h <= data@.len() && forall|i: int|
            0 <= i < e@.len() ==> #[trigger] e@[i] <= data@.len(),
{
    let ghost d = data@;
    reveal(delta_decode);
    let mut reader = BitReader::new(data.all());
    let block_size = match reader.get_vlq_int() {
        Some(v) => v,
        None => {
            return Err(ParquetError::UnexpectedEof);
        },
    };
    proof {
        crate::bit_util::lemma_vlq_at_facts(d, 0);
    }
    let num_mini = match reader.get_vlq_int() {
        Some(v) => v,
        None => {
            return Err(ParquetError::UnexpectedEof);
        },
    };
    let ghost n1 = crate::bit_util::vlq_len(d, 0)->Some_0;
    proof {
        crate::bit_util::lemma_vlq_at_facts(d, n1 as int);
    }
    let total = match reader.get_vlq_int() {
        Some(v) => v,
        None => {
            return Err(ParquetError::UnexpectedEof);
        },
    };
    let ghost n2 = crate::bit_util::vlq_len(d, n1 as int)->Some_0;
    proof {
        crate::bit_util::lemma_vlq_at_facts(d, (n1 + n2) as int);
    }
    let first = match reader.get_zigzag_vlq_int() {
        Some(v) => v,
        None => {
            return Err(ParquetError::UnexpectedEof);
        },
    };
    let ghost n3 = crate::bit_util::vlq_len(d, (n1 + n2) as int)->Some_0;
    proof {
        crate::bit_util::lemma_vlq_at_facts(d, (n1 + n2 + n3) as int);
    }
    if num_mini == 0 || block_size % 128 != 0 {
        return Err(ParquetError::InvalidHeader);
    }
    let vpm: u64 = block_size / num_mini;
    if vpm == 0 || vpm % 8 != 0 {
        return Err(ParquetError::InvalidHeader);
    }
    let hend = reader.get_byte_offset();
    let n: u64 = if total < cap as u64 {
        total
    } else {
        cap as u64
    };
    let mut values: Vec<i64> = Vec::new();
    let mut ends: Vec<usize> = Vec::new();
    assert(nats(ends@) =~= Seq::<nat>::empty());
    if n == 0 {
        return Ok((values, hend, vpm, ends));
    }
    values.push(first);
    if n == 1 {
        assert(values@ =~= seq![first]);
        return Ok((values, hend, vpm, ends));
    }
    let (mut md, mut widths) = match read_block(&mut reader, num_mini) {
        Ok(x) => x,
        Err(e) => {
            return Err(e);
        },
    };
    let len = reader.len();
    let ghost whole = delta_minis(d, reader.pos(), widths@, 0, md, vpm as nat, (n - 1) as nat);
    let ghost mut steps: Seq<(i64, u64)> = Seq::empty();
    let mut m: usize = 0;
    let mut remaining: u64 = n - 1;
    assert(values@ =~= accumulate(first, steps));
    assert(prepend(steps, nats(ends@), whole) =~= whole) by {
        assert(whole matches Ok((t, f)) ==> steps + t =~= t && nats(ends@) + f =~= f);
    }
    assert(delta_decode(d, cap as nat) == match whole {
        Err(e) => Err(e),
        Ok((st, es)) => Ok((accumulate(first, st), hend as nat, vpm as nat, es)),
    });
    loop
        invariant
            reader.wf(),
            reader.data() == d,
            len == d.len(),
            vpm > 0,
            vpm % 8 == 0,
            hend <= d.len(),
            widths@.len() == num_mini,
            m < widths@.len(),
            forall|k: int| 0 <= k < widths@.len() ==> widths@[k] <= 64,
            forall|i: int| 0 <= i < ends@.len() ==> #[trigger] ends@[i] <= d.len(),
            reader.pos() % 8 == 0,
            0 < remaining < n <= cap,
            prepend(
                steps,
                nats(ends@),
                delta_minis(d, reader.pos(), widths@, m as nat, md, vpm as nat, remaining as nat),
            ) == whole,
            delta_decode(d, cap as nat) == match whole {
                Err(e) => Err(e),
                Ok((st, es)) => Ok((accumulate(first, st), hend as nat, vpm as nat, es)),
            },
            d == data@,
            values@ == accumulate(first, steps),
        decreases remaining,
    {
        let ghost pos0 = reader.pos();
        let w = widths[m] as usize;
        let byte = reader.get_byte_offset();
        assert(byte * 8 == pos0);
        proof {
            lemma_minis_step(d, pos0, widths@, m as nat, md, vpm as nat, remaining as nat);
        }
        assert(vpm as u128 * w as u128 <= 0xffff_ffff_ffff_ffff * 64) by (nonlinear_arith)
            requires
                vpm <= 0xffff_ffff_ffff_ffff,
                w <= 64,
        ;
        let needed: u128 = vpm as u128 * w as u128;
        let avail: u128 = (len - byte) as u128 * 8;
        if needed > avail {
            return Err(ParquetError::UnexpectedEof);
        }
        let k: usize = if vpm < remaining {
            vpm as usize
        } else {
            remaining as usize
        };
        proof {
            assert(k * w <= vpm * w) by (nonlinear_arith)
                requires
                    k <= vpm,
            ;
            lemma_mul_by_multiple_of_8(vpm as nat, w as nat);
        }
        let ghost here = mini_steps(d, pos0, md, k as nat, w as nat);
        let ghost steps0 = steps;
        let ghost ends0 = ends@;
        add_mini(&mut reader, &mut values, md, k, w, Ghost(first), Ghost(steps));
        let end: usize = (byte as u128 + needed / 8) as usize;
        assert(byte_ceil((pos0 + vpm * w) as nat) == end);
        ends.push(end);
        proof {
            steps = steps + here;
            assert(nats(ends@) =~= nats(ends0) + seq![end as nat]);
        }
        if (k as u64) == remaining {
            proof {
                assert(steps0 + (here + seq![]) =~= steps);
                assert(nats(ends0) + (seq![end as nat] + Seq::<nat>::empty()) =~= nats(ends@));
            }
            return Ok((values, hend, vpm, ends));
        }
        remaining = remaining - k as u64;
        assert(reader.pos() == pos0 + vpm * w);
        if m < widths.len() - 1 {
            m = m + 1;
            proof {
                lemma_prepend_assoc(
                    steps0,
                    nats(ends0),
                    here,
                    seq![end as nat],
                    delta_minis(d, reader.pos(), widths@, m as nat, md, vpm as nat, remaining as nat),
                );
            }
        } else {
            match read_block(&mut reader, num_mini) {
                Ok((md2, widths2)) => {
                    md = md2;
                    widths = widths2;
                    m = 0;
                    proof {
                        lemma_prepend_assoc(
                            steps0,
                            nats(ends0),
                            here,
                            seq![end as nat],
                            delta_minis(d, reader.pos(), widths@, 0, md, vpm as nat, remaining as nat),
                        );
                    }
                },
                Err(e) => {
                    return Err(e);
                },
            }
        }
    }
}

/// One mini-block of `delta_minis`.
proof fn lemma_minis_step(
    d: Seq<u8>,
    pos: nat,
    widths: Seq<u8>,
    m: nat,
    md: i64,
    vpm: nat,
    count: nat,
)
    requires
        count > 0,
        vpm > 0,
        m < widths.len(),
    ensures
        ({
            let w = widths[m as int] as nat;
            let k = if vpm < count {
                vpm
            } else {
                count
            };
            let here = mini_steps(d, pos, md, k, w);
            let end = (pos + vpm * w) as nat;
            &&& pos + vpm * w > d.len() * 8 ==> delta_minis(d, pos, widths, m, md, vpm, count)
                == Err::<(Seq<(i64, u64)>, Seq<nat>), ParquetError>(ParquetError::UnexpectedEof)
            &&& pos + vpm * w <= d.len() * 8 && k == count ==> delta_minis(
                d,
                pos,
                widths,
                m,
                md,
                vpm,
                count,
            ) == prepend(here, seq![byte_ceil(end)], Ok((seq![], seq![])))
            &&& pos + vpm * w <= d.len() * 8 && k < count && m + 1 < widths.len() ==> delta_minis(
                d,
                pos,
                widths,
                m,
                md,
                vpm,
                count,
            ) == prepend(
                here,
                seq![byte_ceil(end)],
                delta_minis(d, end, widths, m + 1, md, vpm, (count - k) as nat),
            )
            &&& pos + vpm * w <= d.len() * 8 && k < count && m + 1 >= widths.len() ==> delta_minis(
                d,
                pos,
                widths,
                m,
                md,
                vpm,
                count,
            ) == prepend(
                here,
                seq![byte_ceil(end)],
                match delta_block(d, byte_ceil(end) as int, widths.len()) {
                    Err(e) => Err(e),
                    Ok((md2, widths2, start2)) => delta_minis(
                        d,
                        start2 * 8,
                        widths2,
                        0,
                        md2,
                        vpm,
                        (count - k) as nat,
                    ),
                },
            )
        }),
{
    reveal(delta_minis);
}

proof fn lemma_mul_by_multiple_of_8(a: nat, b: nat)
    requires
        a % 8 == 0,
    ensures
        (a * b) % 8 == 0,
        (a * b) / 8 == (a / 8) * b,
{
    let t = a / 8;
    assert(a * b == 8 * (t * b)) by (nonlinear_arith)
        requires
            a == 8 * t,
    ;
}

proof fn lemma_prepend_assoc(
    a: Seq<(i64, u64)>,
    ea: Seq<nat>,
    b: Seq<(i64, u64)>,
    eb: Seq<nat>,
    r: Result<(Seq<(i64, u64)>, Seq<nat>), ParquetError>,
)
    ensures
        prepend(a, ea, prepend(b, eb, r)) == prepend(a + b, ea + eb, r),
{
    if r is Ok {
        assert(a + (b + r->Ok_0.0) =~= (a + b) + r->Ok_0.0);
        assert(ea + (eb + r->Ok_0.1) =~= (ea + eb) + r->Ok_0.1);
    }
}

} // verus!
