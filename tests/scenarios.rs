use parquet::basic::{ColumnDescriptor, Encoding, Int96, ParquetError, PhysicalType};
use parquet::data_type::{ByteArray, Value};
use parquet::decoding::{Decoder, DeltaBitPackDecoder, DeltaByteArrayDecoder, DictDecoder, PlainDecoder};
use parquet::levels::LevelDecoder;
use parquet::memory::Buffer;
use parquet::page::{InMemoryPageReader, Page};
use parquet::reader::{get_column_reader, get_typed_column_reader, ColumnReaderImpl};
use parquet::rle::decode_hybrid;

fn data_page(body: Vec<u8>, num_values: u32, encoding: Encoding) -> Page {
    Page::DataPage {
        buf: Buffer::new(body),
        num_values,
        encoding,
        def_level_encoding: Encoding::RLE,
        rep_level_encoding: Encoding::RLE,
    }
}

fn dict_page(body: Vec<u8>, num_values: u32) -> Page {
    Page::DictionaryPage { buf: Buffer::new(body), num_values, encoding: Encoding::PLAIN, is_sorted: false }
}

fn int32_bytes(values: &[i32]) -> Vec<u8> {
    values.iter().flat_map(|v| v.to_le_bytes()).collect()
}

fn reader(max_def: i16, max_rep: i16, pages: Vec<Page>) -> ColumnReaderImpl<InMemoryPageReader> {
    let descr = ColumnDescriptor::new(PhysicalType::INT32, -1, max_def, max_rep).unwrap();
    get_typed_column_reader(get_column_reader(descr, InMemoryPageReader::new(pages)))
}

fn ints(values: &[i32]) -> Vec<Value> {
    values.iter().map(|&v| Value::Int32(v)).collect()
}

/// A level block: a 4-byte length, then one RLE run per level.
fn levels_block(levels: &[u8]) -> Vec<u8> {
    let mut body = Vec::new();
    for &l in levels {
        body.push(2);
        body.push(l);
    }
    let mut out = (body.len() as u32).to_le_bytes().to_vec();
    out.extend(body);
    out
}

#[test]
fn hybrid_rle_run_of_eight_ones() {
    let out = decode_hybrid(&Buffer::new(vec![0x10, 0x01, 0x01]), 1, 100);
    assert_eq!(out, vec![1u64; 8]);
}

#[test]
fn hybrid_bit_packed_run() {
    // one group of eight 3-bit values 0..7, then a run of five 2s
    let out = decode_hybrid(&Buffer::new(vec![0x03, 0x88, 0xc6, 0xfa, 0x0a, 0x02]), 3, 100);
    assert_eq!(out, vec![0, 1, 2, 3, 4, 5, 6, 7, 2, 2, 2, 2, 2]);
    let capped = decode_hybrid(&Buffer::new(vec![0x03, 0x88, 0xc6, 0xfa, 0x0a, 0x02]), 3, 10);
    assert_eq!(capped, vec![0, 1, 2, 3, 4, 5, 6, 7, 2, 2]);
}

#[test]
fn hybrid_width_zero_run() {
    let out = decode_hybrid(&Buffer::new(vec![0x06]), 0, 100);
    assert_eq!(out, vec![0, 0, 0]);
}

#[test]
fn plain_int32_required() {
    let mut r = reader(0, 0, vec![data_page(int32_bytes(&[42, 18, 52]), 3, Encoding::PLAIN)]);
    let mut out = Vec::new();
    assert_eq!(r.read_batch(3, None, None, &mut out), Ok((3, 0)));
    assert_eq!(out, ints(&[42, 18, 52]));
}

#[test]
fn dictionary_int32() {
    let indices = vec![2, 0x0b, 0x24, 0x01];
    let mut body = Vec::new();
    body.extend(indices);
    let pages = vec![dict_page(int32_bytes(&[100, 200, 300]), 3), data_page(body, 5, Encoding::PLAIN_DICTIONARY)];
    let mut r = reader(0, 0, pages);
    let mut out = Vec::new();
    assert_eq!(r.read_batch(5, None, None, &mut out), Ok((5, 0)));
    assert_eq!(out, ints(&[100, 200, 300, 100, 200]));
}

#[test]
fn optional_int32_with_levels() {
    let mut body = levels_block(&[1, 0, 1, 1, 0]);
    body.extend(int32_bytes(&[10, 20, 30]));
    let mut r = reader(1, 0, vec![data_page(body, 5, Encoding::PLAIN)]);
    let mut def = Vec::new();
    let mut out = Vec::new();
    assert_eq!(r.read_batch(5, Some(&mut def), None, &mut out), Ok((3, 5)));
    assert_eq!(def, vec![1, 0, 1, 1, 0]);
    assert_eq!(out, ints(&[10, 20, 30]));
}

#[test]
fn delta_bit_packed_sample() {
    let mut bytes = vec![128, 1, 4, 3, 58, 28, 6, 0, 0, 0, 0, 8];
    bytes.extend(vec![0u8; 24]);
    let mut decoder = DeltaBitPackDecoder::new(PhysicalType::INT32);
    decoder.set_data(Buffer::new(bytes), 3).unwrap();
    let mut out = Vec::new();
    assert_eq!(decoder.get(&mut out, 3), Ok(3));
    assert_eq!(out, ints(&[29, 43, 89]));
    assert_eq!(decoder.get_offset(), 34);
}

#[test]
fn delta_byte_array_round_trip() {
    // prefix lengths 0,0,0,0,0 and suffix lengths 1,2,3,2,4, written by hand
    let mut data = vec![128, 1, 4, 5, 0, 0, 0, 0, 0, 0];
    // deltas 1, 1, -1, 2 with minimum -1: packed as 2, 2, 0, 3 at width 2
    data.extend(vec![128, 1, 4, 5, 2, 1, 2, 0, 0, 0]);
    data.extend(vec![0b11_00_10_10, 0, 0, 0, 0, 0, 0, 0]);
    let arrays: Vec<Vec<u8>> = vec![vec![1], vec![2, 3], vec![4, 5, 6], vec![7, 8], vec![9, 0, 1, 2]];
    for a in &arrays {
        data.extend(a);
    }
    let mut decoder = DeltaByteArrayDecoder::new();
    decoder.set_data(Buffer::new(data), 5).unwrap();
    let mut out = Vec::new();
    assert_eq!(decoder.get(&mut out, 5), Ok(5));
    let expected: Vec<Value> = arrays.into_iter().map(|a| Value::Bytes(ByteArray::from_vec(a))).collect();
    assert_eq!(out, expected);
}

#[test]
fn test_row_convert_int96() {
    assert_eq!(Int96::new(0, 0, 2454923).to_timestamp_millis(), 1238544000000);
    assert_eq!(Int96::new(4165425152, 13, 2454923).to_timestamp_millis(), 1238544060000);
}

#[test]
fn int96_before_epoch_is_negative() {
    assert_eq!(Int96::new(0, 0, 2440587).to_timestamp_millis(), -86400000);
}

#[test]
fn exhausted_reader_reads_nothing() {
    let mut r = reader(0, 0, vec![data_page(int32_bytes(&[1, 2]), 2, Encoding::PLAIN)]);
    let mut out = Vec::new();
    assert_eq!(r.read_batch(10, None, None, &mut out), Ok((2, 0)));
    assert_eq!(r.read_batch(10, None, None, &mut out), Ok((0, 0)));
    assert_eq!(r.read_batch(10, None, None, &mut out), Ok((0, 0)));
    assert_eq!(out, ints(&[1, 2]));
}

#[test]
fn failed_reader_stays_exhausted() {
    let pages = vec![data_page(vec![1, 2, 3], 2, Encoding::BIT_PACKED), data_page(int32_bytes(&[5]), 1, Encoding::PLAIN)];
    let mut r = reader(0, 0, pages);
    let mut out = Vec::new();
    assert_eq!(r.read_batch(1, None, None, &mut out), Err(ParquetError::UnsupportedEncoding));
    assert_eq!(r.read_batch(1, None, None, &mut out), Ok((0, 0)));
    assert!(out.is_empty());
}

#[test]
fn two_dictionary_pages_fail() {
    let pages = vec![
        dict_page(int32_bytes(&[1]), 1),
        dict_page(int32_bytes(&[2]), 1),
        data_page(vec![0, 2], 1, Encoding::RLE_DICTIONARY),
    ];
    let mut r = reader(0, 0, pages);
    assert_eq!(r.read_batch(1, None, None, &mut Vec::new()), Err(ParquetError::DuplicateDictionary));
}

#[test]
fn dictionary_page_without_dictionary_fails() {
    let pages = vec![data_page(vec![0, 2], 1, Encoding::RLE_DICTIONARY)];
    let mut r = reader(0, 0, pages);
    assert_eq!(r.read_batch(1, None, None, &mut Vec::new()), Err(ParquetError::MissingDictionary));
}

#[test]
fn dictionary_index_out_of_range_fails() {
    let pages = vec![dict_page(int32_bytes(&[7, 8, 9]), 3), data_page(vec![8, 2, 5], 1, Encoding::RLE_DICTIONARY)];
    let mut r = reader(0, 0, pages);
    assert_eq!(r.read_batch(1, None, None, &mut Vec::new()), Err(ParquetError::DictIndexOutOfRange));
}

#[test]
fn dictionary_index_too_wide_fails() {
    let pages = vec![dict_page(int32_bytes(&[7]), 1), data_page(vec![65, 2, 0], 1, Encoding::RLE_DICTIONARY)];
    let mut r = reader(0, 0, pages);
    assert_eq!(r.read_batch(1, None, None, &mut Vec::new()), Err(ParquetError::InvalidHeader));
}

#[test]
fn short_dictionary_page_fails() {
    let pages = vec![dict_page(int32_bytes(&[7]), 2)];
    let mut r = reader(0, 0, pages);
    assert_eq!(r.read_batch(1, None, None, &mut Vec::new()), Err(ParquetError::UnexpectedEof));
}

#[test]
fn level_counts_that_differ_fail() {
    // two repetition levels but four definition levels
    let mut body = levels_block(&[0, 1]);
    body.extend(levels_block(&[1, 1, 1, 1]));
    body.extend(int32_bytes(&[1, 2, 3, 4]));
    let mut r = reader(1, 1, vec![data_page(body, 4, Encoding::PLAIN)]);
    let mut def = Vec::new();
    let mut rep = Vec::new();
    assert_eq!(
        r.read_batch(4, Some(&mut def), Some(&mut rep), &mut Vec::new()),
        Err(ParquetError::LevelMismatch)
    );
}

#[test]
fn level_above_maximum_fails() {
    let mut body = levels_block(&[1, 3]);
    body.extend(int32_bytes(&[1]));
    let mut r = reader(1, 0, vec![data_page(body, 2, Encoding::PLAIN)]);
    assert_eq!(r.read_batch(2, Some(&mut Vec::new()), None, &mut Vec::new()), Err(ParquetError::InvalidHeader));
}

#[test]
fn delta_on_int32_column_reads() {
    let mut bytes = vec![128, 1, 4, 3, 58, 28, 6, 0, 0, 0, 0, 8];
    bytes.extend(vec![0u8; 24]);
    let mut r = reader(0, 0, vec![data_page(bytes, 3, Encoding::DELTA_BINARY_PACKED)]);
    let mut out = Vec::new();
    assert_eq!(r.read_batch(3, None, None, &mut out), Ok((3, 0)));
    assert_eq!(out, ints(&[29, 43, 89]));
}

#[test]
fn delta_length_on_int32_column_fails() {
    let mut r = reader(0, 0, vec![data_page(vec![0], 1, Encoding::DELTA_LENGTH_BYTE_ARRAY)]);
    assert_eq!(r.read_batch(1, None, None, &mut Vec::new()), Err(ParquetError::TypeMismatch));
}

#[test]
fn values_never_outnumber_levels() {
    let mut body = levels_block(&[0, 1, 0, 0, 1, 1, 0]);
    body.extend(int32_bytes(&[4, 5, 6]));
    let mut r = reader(1, 0, vec![data_page(body, 7, Encoding::PLAIN)]);
    let mut def = Vec::new();
    let mut out = Vec::new();
    let (v, l) = r.read_batch(2, Some(&mut def), None, &mut out).unwrap();
    assert!(v <= l);
    assert!(v >= 2);
    assert!(def.iter().all(|&d| 0 <= d && d <= 1));
    assert_eq!(def.iter().filter(|&&d| d == 1).count(), v);
}

#[test]
fn batches_span_pages() {
    let pages = vec![
        data_page(int32_bytes(&[1, 2, 3]), 3, Encoding::PLAIN),
        data_page(int32_bytes(&[4, 5]), 2, Encoding::PLAIN),
    ];
    let mut r = reader(0, 0, pages);
    let mut out = Vec::new();
    let (v, l) = r.read_batch(4, None, None, &mut out).unwrap();
    assert_eq!(l, 0);
    assert!(v >= 4);
    let _ = r.read_batch(4, None, None, &mut out).unwrap();
    assert_eq!(out, ints(&[1, 2, 3, 4, 5]));
}

#[test]
fn empty_chunk_reads_nothing() {
    let mut r = reader(1, 1, vec![]);
    assert_eq!(r.read_batch(8, Some(&mut Vec::new()), Some(&mut Vec::new()), &mut Vec::new()), Ok((0, 0)));
}

#[test]
fn level_decoder_bit_packed() {
    let mut decoder = LevelDecoder::new(Encoding::BIT_PACKED, 3);
    // four 2-bit levels 3, 0, 2, 1 in one byte
    assert_eq!(decoder.set_data(4, &Buffer::new(vec![0b01_10_00_11, 0xff])), Ok(1));
    let mut out = Vec::new();
    assert_eq!(decoder.get(&mut out, 10), 4);
    assert_eq!(out, vec![3, 0, 2, 1]);
}

#[test]
fn level_decoder_rle_consumes_length_prefix() {
    let mut decoder = LevelDecoder::new(Encoding::RLE, 1);
    let data = Buffer::new(vec![2, 0, 0, 0, 6, 1, 99]);
    assert_eq!(decoder.set_data(3, &data), Ok(6));
    let mut out = Vec::new();
    assert_eq!(decoder.get(&mut out, 2), 2);
    assert_eq!(decoder.get(&mut out, 2), 1);
    assert_eq!(out, vec![1, 1, 1]);
}

#[test]
fn dict_decoder_set_twice_fails() {
    let mut dict = DictDecoder::new();
    let mut plain = PlainDecoder::new(PhysicalType::INT32, -1);
    plain.set_data(Buffer::new(int32_bytes(&[1, 2])), 2).unwrap();
    assert_eq!(dict.set_dict(plain), Ok(()));
    let mut again = PlainDecoder::new(PhysicalType::INT32, -1);
    again.set_data(Buffer::new(int32_bytes(&[3])), 1).unwrap();
    assert_eq!(dict.set_dict(again), Err(ParquetError::DuplicateDictionary));
}

#[test]
fn buffer_ranges_share_bytes() {
    let b = Buffer::new(vec![1, 2, 3, 4, 5]);
    let r = b.range(1, 3);
    assert_eq!(r.to_vec(), vec![2, 3, 4]);
    assert_eq!(r.start_from(2).to_vec(), vec![4]);
    assert_eq!(b.all().len(), 5);
}

#[test]
fn descriptor_rejects_bad_levels() {
    assert_eq!(ColumnDescriptor::new(PhysicalType::INT32, -1, -1, 0), Err(ParquetError::InvalidHeader));
    assert_eq!(ColumnDescriptor::new(PhysicalType::FIXED_LEN_BYTE_ARRAY, 0, 0, 0), Err(ParquetError::InvalidHeader));
}

#[test]
fn hybrid_single_runs_round_trip() {
    let out = decode_hybrid(&Buffer::new(vec![2, 5, 2, 7, 2, 0]), 3, 10);
    assert_eq!(out, vec![5, 7, 0]);
}

#[test]
fn plain_int32_round_trip() {
    let values = vec![i32::MIN, -1, 0, 1, i32::MAX];
    let mut decoder = PlainDecoder::new(PhysicalType::INT32, -1);
    decoder.set_data(Buffer::new(int32_bytes(&values)), values.len()).unwrap();
    let mut out = Vec::new();
    assert_eq!(decoder.get(&mut out, 10), Ok(5));
    assert_eq!(out, ints(&values));
}

#[test]
fn delta_count_comes_from_the_header() {
    let mut bytes = vec![128, 1, 4, 3, 58, 28, 6, 0, 0, 0, 0, 8];
    bytes.extend(vec![0u8; 24]);
    let mut decoder = DeltaBitPackDecoder::new(PhysicalType::INT32);
    decoder.set_data(Buffer::new(bytes), 1).unwrap();
    assert_eq!(decoder.values_left(), 3);
    let mut out = Vec::new();
    assert_eq!(decoder.get(&mut out, 10), Ok(3));
    assert_eq!(out, ints(&[29, 43, 89]));
}

#[test]
fn required_column_counts_a_level_per_value() {
    let mut r = reader(0, 0, vec![data_page(int32_bytes(&[42, 18, 52]), 3, Encoding::PLAIN)]);
    let mut def = Vec::new();
    let mut out = Vec::new();
    assert_eq!(r.read_batch(3, Some(&mut def), None, &mut out), Ok((3, 3)));
    assert!(def.is_empty());
    assert_eq!(out, ints(&[42, 18, 52]));
}
