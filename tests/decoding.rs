use parquet::basic::{ColumnDescriptor, Encoding, Int96, ParquetError, PhysicalType};
use parquet::data_type::{ByteArray, Value};
use parquet::decoding::{
    get_decoder, Decoder, DeltaBitPackDecoder, DeltaByteArrayDecoder, PlainDecoder, RleValueDecoder,
};
use parquet::memory::Buffer;

struct Rng(u64);

impl Rng {
    fn next(&mut self) -> u64 {
        self.0 = self.0.wrapping_mul(6364136223846793005).wrapping_add(1442695040888963407);
        self.0 >> 11
    }

    fn i32(&mut self) -> i32 {
        (self.next() as u32) as i32
    }

    fn i64(&mut self) -> i64 {
        ((self.next() << 11) ^ self.next()) as i64
    }

    fn bool(&mut self) -> bool {
        self.next() % 2 == 1
    }
}

fn put_vlq(out: &mut Vec<u8>, mut v: u64) {
    loop {
        let b = (v & 0x7f) as u8;
        v >>= 7;
        if v == 0 {
            out.push(b);
            break;
        }
        out.push(b | 0x80);
    }
}

fn zigzag(v: i64) -> u64 {
    ((v << 1) ^ (v >> 63)) as u64
}

fn bits_needed(v: u64) -> usize {
    64 - v.leading_zeros() as usize
}

fn pack(values: &[u64], width: usize) -> Vec<u8> {
    let mut bytes = Vec::new();
    let mut bit = 0usize;
    for &v in values {
        for k in 0..width {
            if bit % 8 == 0 {
                bytes.push(0);
            }
            if (v >> k) & 1 == 1 {
                *bytes.last_mut().unwrap() |= 1 << (bit % 8);
            }
            bit += 1;
        }
    }
    bytes
}

fn delta_encode(values: &[i64]) -> Vec<u8> {
    let (block, minis, vpm) = (128usize, 4usize, 32usize);
    let mut out = Vec::new();
    put_vlq(&mut out, block as u64);
    put_vlq(&mut out, minis as u64);
    put_vlq(&mut out, values.len() as u64);
    put_vlq(&mut out, zigzag(values.first().copied().unwrap_or(0)));
    let deltas: Vec<i64> = values.windows(2).map(|w| w[1].wrapping_sub(w[0])).collect();
    for chunk in deltas.chunks(block) {
        let min = *chunk.iter().min().unwrap();
        put_vlq(&mut out, zigzag(min));
        let adjusted: Vec<u64> = chunk.iter().map(|d| d.wrapping_sub(min) as u64).collect();
        let mut widths = vec![0u8; minis];
        for (m, mini) in adjusted.chunks(vpm).enumerate() {
            widths[m] = mini.iter().map(|&a| bits_needed(a)).max().unwrap() as u8;
        }
        out.extend_from_slice(&widths);
        for (m, mini) in adjusted.chunks(vpm).enumerate() {
            let mut padded = mini.to_vec();
            padded.resize(vpm, 0);
            out.extend(pack(&padded, widths[m] as usize));
        }
    }
    out
}

fn hybrid_encode(values: &[u64], width: usize) -> Vec<u8> {
    let mut out = Vec::new();
    let value_bytes = (width + 7) / 8;
    let mut i = 0;
    while i < values.len() {
        let mut j = i;
        while j < values.len() && values[j] == values[i] {
            j += 1;
        }
        put_vlq(&mut out, ((j - i) as u64) << 1);
        for k in 0..value_bytes {
            out.push((values[i] >> (8 * k)) as u8);
        }
        i = j;
    }
    out
}

fn length_prefixed(body: Vec<u8>) -> Vec<u8> {
    let mut out = (body.len() as u32).to_le_bytes().to_vec();
    out.extend(body);
    out
}

fn delta_length_encode(arrays: &[Vec<u8>]) -> Vec<u8> {
    let lengths: Vec<i64> = arrays.iter().map(|a| a.len() as i64).collect();
    let mut out = delta_encode(&lengths);
    for a in arrays {
        out.extend_from_slice(a);
    }
    out
}

fn delta_byte_array_encode(arrays: &[Vec<u8>]) -> Vec<u8> {
    let mut prefixes = Vec::new();
    let mut suffixes = Vec::new();
    let mut previous: Vec<u8> = Vec::new();
    for a in arrays {
        let p = previous.iter().zip(a.iter()).take_while(|(x, y)| x == y).count();
        prefixes.push(p as i64);
        suffixes.push(a[p..].to_vec());
        previous = a.clone();
    }
    let mut out = delta_encode(&prefixes);
    out.extend(delta_length_encode(&suffixes));
    out
}

fn int32_descr() -> ColumnDescriptor {
    ColumnDescriptor::new(PhysicalType::INT32, -1, 0, 0).unwrap()
}

fn decode_all<D: Decoder>(decoder: &mut D, data: Vec<u8>, n: usize) -> Vec<Value> {
    decoder.set_data(Buffer::new(data), n).expect("set_data");
    let mut out = Vec::new();
    while decoder.values_left() > 0 {
        decoder.get(&mut out, 7).expect("get");
    }
    out
}

fn test_get_decoder(t: PhysicalType, encoding: Encoding, err: Option<ParquetError>) {
    let descr = ColumnDescriptor::new(t, 4, 0, 0).unwrap();
    let decoder = get_decoder(&descr, encoding);
    match err {
        Some(e) => assert_eq!(decoder.err(), Some(e)),
        None => assert_eq!(decoder.ok().map(|d| d.encoding()), Some(encoding)),
    }
}

#[test]
fn test_get_decoders() {
    // supported encodings
    test_get_decoder(PhysicalType::INT32, Encoding::PLAIN, None);
    test_get_decoder(PhysicalType::INT32, Encoding::DELTA_BINARY_PACKED, None);
    test_get_decoder(PhysicalType::BYTE_ARRAY, Encoding::DELTA_LENGTH_BYTE_ARRAY, None);
    test_get_decoder(PhysicalType::BYTE_ARRAY, Encoding::DELTA_BYTE_ARRAY, None);
    test_get_decoder(PhysicalType::BOOLEAN, Encoding::RLE, None);

    // dictionary decoders come from dictionary pages
    test_get_decoder(PhysicalType::INT32, Encoding::RLE_DICTIONARY, Some(ParquetError::UnsupportedEncoding));
    test_get_decoder(PhysicalType::INT32, Encoding::PLAIN_DICTIONARY, Some(ParquetError::UnsupportedEncoding));

    // unsupported
    test_get_decoder(PhysicalType::INT32, Encoding::BIT_PACKED, Some(ParquetError::UnsupportedEncoding));

    // encodings used on a type they do not support
    test_get_decoder(PhysicalType::INT32, Encoding::DELTA_LENGTH_BYTE_ARRAY, Some(ParquetError::TypeMismatch));
    test_get_decoder(PhysicalType::INT32, Encoding::DELTA_BYTE_ARRAY, Some(ParquetError::TypeMismatch));
    test_get_decoder(PhysicalType::BYTE_ARRAY, Encoding::DELTA_BINARY_PACKED, Some(ParquetError::TypeMismatch));
    test_get_decoder(PhysicalType::INT32, Encoding::RLE, Some(ParquetError::TypeMismatch));
}

fn test_plain_decode(t: PhysicalType, type_length: i32, data: Vec<u8>, num_values: usize, expected: Vec<Value>) {
    let mut decoder = PlainDecoder::new(t, type_length);
    assert!(decoder.set_data(Buffer::new(data), num_values).is_ok());
    let mut buffer = Vec::new();
    assert!(decoder.get(&mut buffer, num_values).is_ok());
    assert_eq!(decoder.values_left(), 0);
    assert_eq!(buffer, expected);
}

#[test]
fn test_plain_decode_int32() {
    let data: Vec<i32> = vec![42, 18, 52];
    let bytes: Vec<u8> = data.iter().flat_map(|v| v.to_le_bytes()).collect();
    test_plain_decode(PhysicalType::INT32, -1, bytes, 3, data.into_iter().map(Value::Int32).collect());
}

#[test]
fn test_plain_decode_int64() {
    let data: Vec<i64> = vec![42, 18, 52];
    let bytes: Vec<u8> = data.iter().flat_map(|v| v.to_le_bytes()).collect();
    test_plain_decode(PhysicalType::INT64, -1, bytes, 3, data.into_iter().map(Value::Int64).collect());
}

#[test]
fn test_plain_decode_float() {
    let data: Vec<f32> = vec![3.14, 2.414, 12.51];
    let bytes: Vec<u8> = data.iter().flat_map(|v| v.to_le_bytes()).collect();
    let expected = data.iter().map(|v| Value::Float(v.to_bits())).collect();
    test_plain_decode(PhysicalType::FLOAT, -1, bytes, 3, expected);
}

#[test]
fn test_plain_decode_double() {
    let data: Vec<f64> = vec![3.14f64, 2.414f64, 12.51f64];
    let bytes: Vec<u8> = data.iter().flat_map(|v| v.to_le_bytes()).collect();
    let expected = data.iter().map(|v| Value::Double(v.to_bits())).collect();
    test_plain_decode(PhysicalType::DOUBLE, -1, bytes, 3, expected);
}

#[test]
fn test_plain_decode_int96() {
    let data = vec![
        Int96::new(11, 22, 33),
        Int96::new(44, 55, 66),
        Int96::new(10, 20, 30),
        Int96::new(40, 50, 60),
    ];
    let bytes: Vec<u8> = data
        .iter()
        .flat_map(|v| v.data().iter().flat_map(|w| w.to_le_bytes()).collect::<Vec<u8>>())
        .collect();
    test_plain_decode(PhysicalType::INT96, -1, bytes, 4, data.into_iter().map(Value::Int96).collect());
}

#[test]
fn test_plain_decode_bool() {
    let data = vec![false, true, false, false, true, false, true, true, false, true];
    let bits: Vec<u64> = data.iter().map(|&b| b as u64).collect();
    test_plain_decode(PhysicalType::BOOLEAN, -1, pack(&bits, 1), 10, data.into_iter().map(Value::Bool).collect());
}

#[test]
fn test_plain_decode_byte_array() {
    let data = vec![b"hello".to_vec(), b"parquet".to_vec()];
    let mut bytes = Vec::new();
    for d in &data {
        bytes.extend((d.len() as u32).to_le_bytes());
        bytes.extend(d);
    }
    let expected = data.into_iter().map(|d| Value::Bytes(ByteArray::from_vec(d))).collect();
    test_plain_decode(PhysicalType::BYTE_ARRAY, -1, bytes, 2, expected);
}

#[test]
fn test_plain_decode_fixed_len_byte_array() {
    let data = vec![b"bird".to_vec(), b"come".to_vec(), b"flow".to_vec()];
    let bytes: Vec<u8> = data.concat();
    let expected = data.into_iter().map(|d| Value::Bytes(ByteArray::from_vec(d))).collect();
    test_plain_decode(PhysicalType::FIXED_LEN_BYTE_ARRAY, 4, bytes, 3, expected);
}

#[test]
fn test_plain_decode_short_data_fails() {
    let mut decoder = PlainDecoder::new(PhysicalType::INT32, -1);
    decoder.set_data(Buffer::new(vec![1, 0, 0, 0, 2, 0]), 2).unwrap();
    let mut out = Vec::new();
    assert_eq!(decoder.get(&mut out, 2), Err(ParquetError::UnexpectedEof));
    assert!(out.is_empty());
    assert_eq!(decoder.get(&mut out, 1), Ok(1));
    assert_eq!(out, vec![Value::Int32(1)]);
}

#[test]
fn test_rle_value_decode_bool_decode() {
    let mut rng = Rng(7);
    let data: Vec<bool> = (0..256 + 257 + 126).map(|_| rng.bool()).collect();
    let bits: Vec<u64> = data.iter().map(|&b| b as u64).collect();
    let encoded = length_prefixed(hybrid_encode(&bits, 1));
    let mut decoder = RleValueDecoder::new();
    let result = decode_all(&mut decoder, encoded, data.len());
    assert_eq!(result, data.into_iter().map(Value::Bool).collect::<Vec<_>>());
}

fn test_delta_bit_packed_decode(t: PhysicalType, data: Vec<Vec<i64>>) {
    let expected: Vec<i64> = data.concat();
    let encoded = delta_encode(&expected);
    let mut decoder = DeltaBitPackDecoder::new(t);
    let result = decode_all(&mut decoder, encoded, expected.len());
    let expected: Vec<Value> = expected
        .into_iter()
        .map(|v| if t == PhysicalType::INT32 { Value::Int32(v as i32) } else { Value::Int64(v) })
        .collect();
    assert_eq!(result.len(), expected.len());
    assert_eq!(result, expected);
}

fn gen32(rng: &mut Rng, n: usize) -> Vec<i64> {
    (0..n).map(|_| rng.i32() as i64).collect()
}

fn gen64(rng: &mut Rng, n: usize) -> Vec<i64> {
    (0..n).map(|_| rng.i64()).collect()
}

#[test]
fn test_delta_bit_packed_int32_empty() {
    test_delta_bit_packed_decode(PhysicalType::INT32, vec![vec![]]);
}

#[test]
fn test_delta_bit_packed_int32_repeat() {
    let block_data = vec![
        1, 2, 3, 4, 5, 6, 7, 8, 1, 2, 3, 4, 5, 6, 7, 8, 1, 2, 3, 4, 5, 6, 7, 8, 1, 2, 3, 4, 5, 6, 7, 8,
    ];
    test_delta_bit_packed_decode(PhysicalType::INT32, vec![block_data]);
}

#[test]
fn test_delta_bit_packed_int32_uneven() {
    let block_data = vec![1, -2, 3, -4, 5, 6, 7, 8, 9, 10, 11];
    test_delta_bit_packed_decode(PhysicalType::INT32, vec![block_data]);
}

#[test]
fn test_delta_bit_packed_int32_same_values() {
    test_delta_bit_packed_decode(PhysicalType::INT32, vec![vec![127; 16]]);
    test_delta_bit_packed_decode(PhysicalType::INT32, vec![vec![-127; 16]]);
}

#[test]
fn test_delta_bit_packed_int32_min_max() {
    let (min, max) = (i32::MIN as i64, i32::MAX as i64);
    let block_data = vec![min, max, min, max, min, max, min, max];
    test_delta_bit_packed_decode(PhysicalType::INT32, vec![block_data]);
}

#[test]
fn test_delta_bit_packed_int32_multiple_blocks() {
    let mut rng = Rng(1);
    let data = vec![gen32(&mut rng, 64), gen32(&mut rng, 128), gen32(&mut rng, 64)];
    test_delta_bit_packed_decode(PhysicalType::INT32, data);
}

#[test]
fn test_delta_bit_packed_int32_data_across_blocks() {
    let mut rng = Rng(2);
    let data = vec![gen32(&mut rng, 256), gen32(&mut rng, 257)];
    test_delta_bit_packed_decode(PhysicalType::INT32, data);
}

#[test]
fn test_delta_bit_packed_int32_with_empty_blocks() {
    let mut rng = Rng(3);
    let data = vec![gen32(&mut rng, 128), vec![], gen32(&mut rng, 64)];
    test_delta_bit_packed_decode(PhysicalType::INT32, data);
}

#[test]
fn test_delta_bit_packed_int64_empty() {
    test_delta_bit_packed_decode(PhysicalType::INT64, vec![vec![]]);
}

#[test]
fn test_delta_bit_packed_int64_min_max() {
    let block_data = vec![i64::MIN, i64::MAX, i64::MIN, i64::MAX, i64::MIN, i64::MAX, i64::MIN, i64::MAX];
    test_delta_bit_packed_decode(PhysicalType::INT64, vec![block_data]);
}

#[test]
fn test_delta_bit_packed_int64_multiple_blocks() {
    let mut rng = Rng(4);
    let data = vec![gen64(&mut rng, 64), gen64(&mut rng, 128), gen64(&mut rng, 64)];
    test_delta_bit_packed_decode(PhysicalType::INT64, data);
}

#[test]
fn test_delta_bit_packed_decoder_sample() {
    let data_bytes = vec![
        128, 1, 4, 3, 58, 28, 6, 0, 0, 0, 0, 8, 0, 0, 0, 0, 0, 0, 0, 0, 0, 0, 0, 0, 0, 0, 0, 0, 0,
        0, 0, 0, 0, 0,
    ];
    let mut decoder = DeltaBitPackDecoder::new(PhysicalType::INT32);
    decoder.set_data(Buffer::new(data_bytes), 3).unwrap();
    // check exact offsets: before the second value only the header is read
    assert_eq!(decoder.get_offset(), 5);
    let mut result = Vec::new();
    decoder.get(&mut result, 3).unwrap();
    assert_eq!(decoder.get_offset(), 34);
    assert_eq!(result, vec![Value::Int32(29), Value::Int32(43), Value::Int32(89)]);
}

#[test]
fn test_delta_bit_packed_invalid_header() {
    // zero mini-blocks per block
    let mut decoder = DeltaBitPackDecoder::new(PhysicalType::INT32);
    let bytes = vec![128, 1, 0, 3, 58];
    assert_eq!(decoder.set_data(Buffer::new(bytes), 3), Err(ParquetError::InvalidHeader));
    // a mini-block of 24 values is not a multiple of 8
    let mut decoder = DeltaBitPackDecoder::new(PhysicalType::INT32);
    let mut bytes = Vec::new();
    put_vlq(&mut bytes, 96);
    put_vlq(&mut bytes, 4);
    put_vlq(&mut bytes, 3);
    put_vlq(&mut bytes, 0);
    assert_eq!(decoder.set_data(Buffer::new(bytes), 3), Err(ParquetError::InvalidHeader));
}

#[test]
fn test_delta_bit_packed_truncated_fails() {
    let mut encoded = delta_encode(&[5, 9, 30, 2, 8]);
    encoded.truncate(encoded.len() - 2);
    let mut decoder = DeltaBitPackDecoder::new(PhysicalType::INT64);
    assert_eq!(decoder.set_data(Buffer::new(encoded), 5), Err(ParquetError::UnexpectedEof));
}

fn test_delta_byte_array_decode(data: Vec<Vec<Vec<u8>>>) {
    let expected: Vec<Vec<u8>> = data.concat();
    let encoded = delta_byte_array_encode(&expected);
    let mut decoder = DeltaByteArrayDecoder::new();
    let result = decode_all(&mut decoder, encoded, expected.len());
    let expected: Vec<Value> = expected.into_iter().map(|d| Value::Bytes(ByteArray::from_vec(d))).collect();
    assert_eq!(result, expected);
}

#[test]
fn test_delta_byte_array_same_arrays() {
    let a = vec![1u8, 2, 3, 4, 5, 6];
    let data = vec![vec![a.clone()], vec![a.clone(), a.clone()], vec![a.clone(), a.clone()]];
    test_delta_byte_array_decode(data);
}

#[test]
fn test_delta_byte_array_unique_arrays() {
    let data = vec![
        vec![vec![1u8]],
        vec![vec![2, 3], vec![4, 5, 6]],
        vec![vec![7, 8], vec![9, 0, 1, 2]],
    ];
    test_delta_byte_array_decode(data);
}

#[test]
fn test_delta_byte_array_single_array() {
    test_delta_byte_array_decode(vec![vec![vec![1u8, 2, 3, 4, 5, 6]]]);
}

#[test]
fn test_delta_length_byte_array_decode() {
    let arrays = vec![b"a".to_vec(), vec![], b"column".to_vec(), b"xyz".to_vec()];
    let encoded = delta_length_encode(&arrays);
    let descr = ColumnDescriptor::new(PhysicalType::BYTE_ARRAY, -1, 0, 0).unwrap();
    let mut decoder = get_decoder(&descr, Encoding::DELTA_LENGTH_BYTE_ARRAY).unwrap();
    let result = decode_all(&mut decoder, encoded, arrays.len());
    let expected: Vec<Value> = arrays.into_iter().map(|d| Value::Bytes(ByteArray::from_vec(d))).collect();
    assert_eq!(result, expected);
}

#[test]
fn test_plain_decoder_through_get_decoder() {
    let mut decoder = get_decoder(&int32_descr(), Encoding::PLAIN).unwrap();
    let result = decode_all(&mut decoder, vec![7, 0, 0, 0, 255, 255, 255, 255], 2);
    assert_eq!(result, vec![Value::Int32(7), Value::Int32(-1)]);
}

#[test]
fn delta_offset_follows_values_handed_out() {
    // 80 values: mini-blocks of 32 deltas, so the deltas fill three of them
    let values: Vec<i64> = (0..80).map(|i| (i * i) as i64).collect();
    let encoded = delta_encode(&values);
    let total = encoded.len();
    let mut decoder = DeltaBitPackDecoder::new(PhysicalType::INT64);
    decoder.set_data(Buffer::new(encoded), 80).unwrap();
    let header_end = decoder.get_offset();
    let mut out = Vec::new();
    decoder.get(&mut out, 1).unwrap();
    assert_eq!(decoder.get_offset(), header_end);
    decoder.get(&mut out, 1).unwrap();
    let first_mini_end = decoder.get_offset();
    assert!(first_mini_end > header_end);
    decoder.get(&mut out, 40).unwrap();
    let second_mini_end = decoder.get_offset();
    assert!(second_mini_end > first_mini_end);
    decoder.get(&mut out, 100).unwrap();
    assert_eq!(decoder.get_offset(), total);
    assert_eq!(out, values.into_iter().map(Value::Int64).collect::<Vec<_>>());
}
