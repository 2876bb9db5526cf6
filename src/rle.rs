//! The RLE / bit-packed hybrid encoding: a sequence of runs, each introduced
//! by a varint header whose lowest bit tells a bit-packed run (groups of eight
//! values) from a run of one repeated value.
use crate::bit_util::{bits_le, byte_ceil, bytes_le, vlq_at, BitReader};
use crate::memory::Buffer;
use vstd::prelude::*;

verus! {

/// The first `n` elements of `s`, or all of `s` when it is shorter.
pub open spec fn prefix<A>(s: Seq<A>, n: nat) -> Seq<A> {
    if n < s.len() {
        s.take(n as int)
    } else {
        s
    }
}

/// The values, `bit_width` bits wide, of the hybrid stream whose first run
/// starts at byte `pos` of `data`. The stream ends where no run header can be
/// read. A bit-packed run cut short by the end of the data keeps the whole
/// values that fit and ends the stream; a repeated run whose value does not fit
/// ends it too.
pub open spec fn hybrid_values(data: Seq<u8>, pos: int, bit_width: nat) -> Seq<u64>
    decreases data.len() - pos,
{
    if pos < 0 || pos >= data.len() {
        seq![]
    } else {
        match vlq_at(data, pos) {
            None => seq![],
            Some((header, n)) => {
                let body = pos + n;
                if header % 2 == 1 {
                    let groups = header / 2;
                    let count = groups * 8;
                    let avail = (data.len() - body) * 8;
                    let packed = |k: nat|
                        Seq::new(
                            k,
                            |i: int| bits_le(data, body * 8 + i * bit_width, bit_width) as u64,
                        );
                    if count * bit_width <= avail {
                        proof {
                            crate::bit_util::lemma_vlq_at_facts(data, pos);
                            assert(groups * bit_width * 8 == count * bit_width) by (nonlinear_arith)
                                requires
                                    count == groups * 8,
                            ;
                        }
                        packed(count as nat) + hybrid_values(
                            data,
                            body + groups * bit_width,
                            bit_width,
                        )
                    } else {
                        packed((avail / (bit_width as int)) as nat)
                    }
                } else {
                    let width_bytes = (bit_width + 7) / 8;
                    if body + width_bytes > data.len() {
                        seq![]
                    } else {
                        proof {
                            crate::bit_util::lemma_vlq_at_facts(data, pos);
                        }
                        Seq::new((header / 2) as nat, |i: int| bytes_le(data, body, width_bytes) as u64)
                            + hybrid_values(data, body + width_bytes, bit_width)
                    }
                }
            },
        }
    }
}

proof fn lemma_prefix_append<A>(a: Seq<A>, b: Seq<A>, m: nat)
    ensures
        a.len() <= m ==> prefix(a + b, m) == a + prefix(b, (m - a.len()) as nat),
        a.len() >= m ==> prefix(a + b, m) == prefix(a, m),
{
    if a.len() <= m {
        assert(prefix(a + b, m) =~= a + prefix(b, (m - a.len()) as nat));
    } else {
        assert(prefix(a + b, m) =~= prefix(a, m));
    }
}

/// Decodes up to `max_values` values, `bit_width` bits wide, from the hybrid
/// stream that fills `data`.
pub fn decode_hybrid(data: &Buffer, bit_width: usize, max_values: usize) -> (r: Vec<u64>)
    requires
        bit_width <= 64,
    ensures
        r@ == prefix(hybrid_values(data@, 0, bit_width as nat), max_values as nat),
{
    let ghost d = data@;
    let ghost w = bit_width as nat;
    let ghost all = hybrid_values(d, 0, w);
    let len = data.len();
    assert(d.len() == len);
    let mut reader = BitReader::new(data.all());
    let mut out: Vec<u64> = Vec::new();
    let mut byte: usize = 0;
    loop
        invariant_except_break
            reader.wf(),
            reader.data() == d,
            reader.pos() == byte * 8,
            byte <= d.len() <= usize::MAX,
            w == bit_width <= 64,
            out@.len() <= max_values,
            prefix(out@ + hybrid_values(d, byte as int, w), max_values as nat) == prefix(
                all,
                max_values as nat,
            ),
        ensures
            out@ == prefix(all, max_values as nat),
        decreases d.len() - byte,
    {
        proof {
            reader.lemma_pos_bound();
        }
        let ghost rest = hybrid_values(d, byte as int, w);
        if out.len() >= max_values {
            proof {
                lemma_prefix_append(out@, rest, max_values as nat);
                assert(prefix(out@, max_values as nat) =~= out@);
            }
            break ;
        }
        let remaining = max_values - out.len();
        assert(byte_ceil(reader.pos()) == byte);
        let header = match reader.get_vlq_int() {
            Some(h) => h,
            None => {
                assert(rest =~= seq![]);
                assert(out@ + rest =~= out@);
                break ;
            },
        };
        proof {
            crate::bit_util::lemma_vlq_at_facts(d, byte as int);
        }
        let body = reader.get_byte_offset();
        let ghost out0 = out@;
        if header % 2 == 1 {
            let groups: u64 = header / 2;
            let count: u128 = groups as u128 * 8;
            let want: usize = if count < remaining as u128 {
                count as usize
            } else {
                remaining
            };
            let got = reader.get_batch(&mut out, want, bit_width);
            proof {
                reader.lemma_pos_bound();
                let avail = (d.len() - body) * 8;
                let packed = |k: nat|
                    Seq::new(k, |i: int| bits_le(d, body * 8 + i * w, w) as u64);
                assert(out@ == out0 + packed(got as nat));
                assert(got * w <= avail);
                lemma_prefix_append(out0, rest, max_values as nat);
                if got < want {
                    assert((got + 1) * w > avail) by (nonlinear_arith)
                        requires
                            body * 8 + got * w + w > d.len() * 8,
                            avail == (d.len() - body) * 8,
                    ;
                    assert(count * w > avail) by (nonlinear_arith)
                        requires
                            (got + 1) * w > avail,
                            got + 1 <= count,
                    ;
                    assert(w > 0);
                    assert(avail / (w as int) == got) by (nonlinear_arith)
                        requires
                            got * w <= avail,
                            avail < (got + 1) * w,
                            w > 0,
                    ;
                    assert(rest == packed(got as nat));
                    assert(prefix(out@, max_values as nat) =~= out@);
                } else if (want as u128) < count {
                    assert(out@.len() == max_values);
                    if count * w <= avail {
                        assert(prefix(rest, remaining as nat) =~= packed(want as nat));
                    } else {
                        assert(want <= avail / (w as int)) by (nonlinear_arith)
                            requires
                                want * w <= avail,
                                w > 0,
                        ;
                        assert(prefix(rest, remaining as nat) =~= packed(want as nat));
                    }
                } else {
                    assert(count * w <= avail);
                    assert(groups * w * 8 == count * w) by (nonlinear_arith)
                        requires
                            count == groups * 8,
                    ;
                    let next = body + groups * w;
                    assert(rest == packed(count as nat) + hybrid_values(d, next, w));
                    assert(out@ + hybrid_values(d, next, w) =~= out0 + rest);
                }
            }
            if got < want || (want as u128) < count {
                break ;
            }
            proof {
                assert(got == count);
                assert(groups * w * 8 == count * w) by (nonlinear_arith)
                    requires
                        count == groups * 8,
                ;
                assert(reader.pos() == (body + groups * w) * 8);
            }
            byte = reader.get_byte_offset();
            assert(byte == body + groups * w);
        } else {
            let width_bytes = (bit_width + 7) / 8;
            let value = match reader.get_aligned(width_bytes) {
                Some(v) => v,
                None => {
                    assert(rest =~= seq![]);
                    assert(out@ + rest =~= out@);
                    break ;
                },
            };
            let count: u64 = header / 2;
            let take: usize = if (count as u128) < remaining as u128 {
                count as usize
            } else {
                remaining
            };
            let mut i: usize = 0;
            while i < take
                invariant
                    i <= take,
                    out@ == out0 + Seq::new(i as nat, |j: int| value),
                decreases take - i,
            {
                out.push(value);
                i = i + 1;
                assert(out@ =~= out0 + Seq::new(i as nat, |j: int| value));
            }
            proof {
                let run = Seq::new((header / 2) as nat, |j: int| bytes_le(d, body as int, width_bytes as nat) as u64);
                let next = body + width_bytes;
                assert(rest == run + hybrid_values(d, next, w));
                lemma_prefix_append(out0, rest, max_values as nat);
                if (take as u64) < count {
                    assert(prefix(rest, remaining as nat) =~= Seq::new(take as nat, |j: int| value));
                } else {
                    assert(out@ + hybrid_values(d, next, w) =~= out0 + rest);
                }
            }
            if (take as u64) < count {
                break ;
            }
            byte = body + width_bytes;
        }
    }
    out
}

/// The hybrid encoding of values at most eight bits wide as repeated runs of
/// length one: each value is the header byte 2 followed by the value's byte.
pub open spec fn single_runs_encode(vals: Seq<u64>) -> Seq<u8> {
    Seq::new(2 * vals.len(), |j: int| if j % 2 == 0 { 2u8 } else { vals[j / 2] as u8 })
}

proof fn lemma_single_runs_from(vals: Seq<u64>, w: nat, k: nat)
    requires
        1 <= w <= 8,
        k <= vals.len(),
        forall|i: int| 0 <= i < vals.len() ==> #[trigger] vals[i] < 256,
    ensures
        hybrid_values(single_runs_encode(vals), 2 * k as int, w) == vals.skip(k as int),
    decreases vals.len() - k,
{
    let d = single_runs_encode(vals);
    if k == vals.len() {
        assert(vals.skip(k as int) =~= Seq::<u64>::empty());
    } else {
        let pos: int = 2 * k as int;
        assert(pos % 2 == 0 && (pos + 1) % 2 == 1 && (pos + 1) / 2 == k);
        assert(d[pos] == 2u8);
        assert(crate::bit_util::vlq_len_from(d, pos, 0) == Some(1nat));
        assert(crate::bit_util::vlq_digits(d, pos + 1, 0) == 0);
        assert(crate::bit_util::vlq_digits(d, pos, 1) == 2);
        assert(vlq_at(d, pos) == Some((2u64, 1nat)));
        assert(bytes_le(d, pos + 2, 0) == 0);
        assert(bytes_le(d, pos + 1, 1) == vals[k as int]);
        lemma_single_runs_from(vals, w, k + 1);
        assert(2 * (k + 1) == pos + 1 + (w + 7) / 8);
        assert(hybrid_values(d, pos, w) == Seq::new(1, |i: int| bytes_le(d, pos + 1, 1) as u64)
            + hybrid_values(d, pos + 2, w));
        assert(vals.skip(k as int) =~= seq![vals[k as int]] + vals.skip(k + 1 as int));
        assert(Seq::new(1, |i: int| bytes_le(d, pos + 1, 1) as u64) =~= seq![vals[k as int]]);
    }
}

/// Decoding the hybrid encoding of values, each written as a run of its own,
/// gives the values back (for widths of one to eight bits).
pub proof fn law_single_runs_round_trip(vals: Seq<u64>, w: nat)
    requires
        1 <= w <= 8,
        forall|i: int| 0 <= i < vals.len() ==> #[trigger] vals[i] < 256,
    ensures
        hybrid_values(single_runs_encode(vals), 0, w) == vals,
{
    lemma_single_runs_from(vals, w, 0);
    assert(vals.skip(0) =~= vals);
}

} // verus!
