use parquet::basic::{ColumnDescriptor, Encoding, ParquetError, PhysicalType};
use parquet::data_type::Value;
use parquet::memory::Buffer;
use parquet::page::{InMemoryPageReader, Page};
use parquet::reader::{get_column_reader, get_typed_column_reader, ColumnReader};

const NUM_LEVELS: usize = 128;
const NUM_PAGES: usize = 2;
const MAX_DEF_LEVEL: i16 = 5;
const MAX_REP_LEVEL: i16 = 5;

struct Rng(u64);

impl Rng {
    fn next(&mut self) -> u64 {
        self.0 = self.0.wrapping_mul(6364136223846793005).wrapping_add(1442695040888963407);
        self.0 >> 11
    }

    /// A number in `[lo, hi]`.
    fn range(&mut self, lo: i64, hi: i64) -> i64 {
        let span = (hi as i128 - lo as i128 + 1) as u128;
        let r = ((self.next() as u128) << 64 | self.next() as u128) % span;
        (lo as i128 + r as i128) as i64
    }
}

fn put_vlq(out: &mut Vec<u8>, mut v: u64) {
    loop {
        let b = (v & 0x7f) as u8;
        v >>= 7;
        if v == 0 {
            out.push(b);
            break;
        }
        out.push(b | 0x80);
    }
}

fn hybrid_encode(values: &[u64], width: usize) -> Vec<u8> {
    let mut out = Vec::new();
    let value_bytes = (width + 7) / 8;
    let mut i = 0;
    while i < values.len() {
        let mut j = i;
        while j < values.len() && values[j] == values[i] {
            j += 1;
        }
        put_vlq(&mut out, ((j - i) as u64) << 1);
        for k in 0..value_bytes {
            out.push((values[i] >> (8 * k)) as u8);
        }
        i = j;
    }
    out
}

fn bit_width(max: u64) -> usize {
    64 - max.leading_zeros() as usize
}

fn level_block(levels: &[i16], max: i16) -> Vec<u8> {
    let raw: Vec<u64> = levels.iter().map(|&l| l as u64).collect();
    let body = hybrid_encode(&raw, bit_width(max as u64));
    let mut out = (body.len() as u32).to_le_bytes().to_vec();
    out.extend(body);
    out
}

fn plain_bytes(values: &[i64], int32: bool) -> Vec<u8> {
    if int32 {
        values.iter().flat_map(|&v| (v as i32).to_le_bytes()).collect()
    } else {
        values.iter().flat_map(|&v| v.to_le_bytes()).collect()
    }
}

fn to_value(v: i64, int32: bool) -> Value {
    if int32 { Value::Int32(v as i32) } else { Value::Int64(v) }
}

struct Expected {
    def_levels: Vec<i16>,
    rep_levels: Vec<i16>,
    values: Vec<Value>,
}

fn make_pages(
    descr: &ColumnDescriptor,
    dictionary: bool,
    num_pages: usize,
    levels_per_page: usize,
    min: i64,
    max: i64,
    rng: &mut Rng,
) -> (Vec<Page>, Expected) {
    let int32 = descr.physical_type == PhysicalType::INT32;
    let max_def = descr.max_def_level;
    let max_rep = descr.max_rep_level;
    let mut expected = Expected { def_levels: vec![], rep_levels: vec![], values: vec![] };
    let mut pages = Vec::new();
    let mut dict: Vec<i64> = Vec::new();
    for _ in 0..num_pages {
        let mut body = Vec::new();
        let mut num_values = levels_per_page;
        if max_rep > 0 {
            let levels: Vec<i16> = (0..levels_per_page).map(|_| rng.range(0, max_rep as i64) as i16).collect();
            body.extend(level_block(&levels, max_rep));
            expected.rep_levels.extend(levels);
        }
        if max_def > 0 {
            let levels: Vec<i16> = (0..levels_per_page).map(|_| rng.range(0, max_def as i64) as i16).collect();
            num_values = levels.iter().filter(|&&l| l == max_def).count();
            body.extend(level_block(&levels, max_def));
            expected.def_levels.extend(levels);
        }
        let values: Vec<i64> = (0..num_values).map(|_| rng.range(min, max)).collect();
        let encoding = if dictionary {
            let indices: Vec<u64> = values
                .iter()
                .map(|v| match dict.iter().position(|d| d == v) {
                    Some(i) => i as u64,
                    None => {
                        dict.push(*v);
                        (dict.len() - 1) as u64
                    },
                })
                .collect();
            let width = bit_width(dict.len().saturating_sub(1) as u64);
            body.push(width as u8);
            body.extend(hybrid_encode(&indices, width));
            Encoding::RLE_DICTIONARY
        } else {
            body.extend(plain_bytes(&values, int32));
            Encoding::PLAIN
        };
        expected.values.extend(values.iter().map(|&v| to_value(v, int32)));
        pages.push(Page::DataPage {
            buf: Buffer::new(body),
            num_values: levels_per_page as u32,
            encoding,
            def_level_encoding: Encoding::RLE,
            rep_level_encoding: Encoding::RLE,
        });
    }
    if dictionary {
        let dict_page = Page::DictionaryPage {
            buf: Buffer::new(plain_bytes(&dict, int32)),
            num_values: dict.len() as u32,
            encoding: Encoding::RLE_DICTIONARY,
            is_sorted: false,
        };
        pages.insert(0, dict_page);
    }
    (pages, expected)
}

fn run(descr: ColumnDescriptor, dictionary: bool, num_pages: usize, num_levels: usize, batch_size: usize, min: i64, max: i64) {
    let mut rng = Rng(num_levels as u64 * 31 + batch_size as u64);
    let (pages, expected) = make_pages(&descr, dictionary, num_pages, num_levels, min, max, &mut rng);
    let column_reader = get_column_reader(descr, InMemoryPageReader::new(pages));
    let mut reader = get_typed_column_reader(column_reader);
    let mut def_levels = Vec::new();
    let mut rep_levels = Vec::new();
    let mut values = Vec::new();
    loop {
        let (values_read, levels_read) = reader
            .read_batch(batch_size, Some(&mut def_levels), Some(&mut rep_levels), &mut values)
            .expect("read_batch() should be OK");
        assert!(values_read <= levels_read || descr.max_def_level == 0);
        if values_read == 0 {
            break;
        }
    }
    if descr.max_rep_level > 0 {
        assert_eq!(rep_levels, expected.rep_levels, "rep content doesn't match");
    }
    if descr.max_def_level > 0 {
        assert_eq!(def_levels, expected.def_levels, "def content doesn't match");
    }
    assert_eq!(values, expected.values, "values don't match");
}

fn int32(max_def: i16, max_rep: i16) -> ColumnDescriptor {
    ColumnDescriptor::new(PhysicalType::INT32, -1, max_def, max_rep).unwrap()
}

fn int64(max_def: i16, max_rep: i16) -> ColumnDescriptor {
    ColumnDescriptor::new(PhysicalType::INT64, -1, max_def, max_rep).unwrap()
}

#[test]
fn test_read_plain_int32() {
    run(int32(MAX_DEF_LEVEL, MAX_REP_LEVEL), false, NUM_PAGES, NUM_LEVELS, 16, i32::MIN as i64, i32::MAX as i64);
}

#[test]
fn test_read_plain_int32_uneven() {
    run(int32(MAX_DEF_LEVEL, MAX_REP_LEVEL), false, NUM_PAGES, NUM_LEVELS, 17, i32::MIN as i64, i32::MAX as i64);
}

#[test]
fn test_read_plain_int32_multi_page() {
    run(int32(MAX_DEF_LEVEL, MAX_REP_LEVEL), false, NUM_PAGES, NUM_LEVELS, 512, i32::MIN as i64, i32::MAX as i64);
}

#[test]
fn test_read_plain_int32_required_non_repeated() {
    run(int32(0, 0), false, NUM_PAGES, NUM_LEVELS, 16, i32::MIN as i64, i32::MAX as i64);
}

#[test]
fn test_read_plain_int64() {
    run(int64(1, 1), false, NUM_PAGES, NUM_LEVELS, 16, i64::MIN, i64::MAX);
}

#[test]
fn test_read_plain_int64_uneven() {
    run(int64(1, 1), false, NUM_PAGES, NUM_LEVELS, 17, i64::MIN, i64::MAX);
}

#[test]
fn test_read_plain_int64_multi_page() {
    run(int64(1, 1), false, NUM_PAGES, NUM_LEVELS, 512, i64::MIN, i64::MAX);
}

#[test]
fn test_read_plain_int64_required_non_repeated() {
    run(int64(0, 0), false, NUM_PAGES, NUM_LEVELS, 16, i64::MIN, i64::MAX);
}

#[test]
fn test_read_dict_int32_small() {
    run(int32(MAX_DEF_LEVEL, MAX_REP_LEVEL), true, 2, 2, 16, 0, 3);
}

#[test]
fn test_read_dict_int32() {
    run(int32(MAX_DEF_LEVEL, MAX_REP_LEVEL), true, NUM_PAGES, NUM_LEVELS, 16, 0, 3);
}

#[test]
fn test_read_dict_int32_uneven() {
    run(int32(MAX_DEF_LEVEL, MAX_REP_LEVEL), true, NUM_PAGES, NUM_LEVELS, 17, 0, 3);
}

#[test]
fn test_read_dict_int32_multi_page() {
    run(int32(MAX_DEF_LEVEL, MAX_REP_LEVEL), true, NUM_PAGES, NUM_LEVELS, 512, 0, 3);
}

#[test]
fn test_read_dict_int64() {
    run(int64(MAX_DEF_LEVEL, MAX_REP_LEVEL), true, NUM_PAGES, NUM_LEVELS, 16, 0, 3);
}

#[test]
fn test_column_reader_tag_follows_physical_type() {
    let reader = get_column_reader(int64(0, 0), InMemoryPageReader::new(vec![]));
    assert!(matches!(reader, ColumnReader::Int64ColumnReader(_)));
    let mut inner = get_typed_column_reader(reader);
    let mut values = Vec::new();
    assert_eq!(inner.read_batch(4, None, None, &mut values), Ok((0, 0)));
    assert!(values.is_empty());
}

#[test]
fn test_read_skips_data_page_v2() {
    let pages = vec![
        Page::DataPageV2 {
            buf: Buffer::new(vec![1, 2, 3]),
            num_values: 3,
            encoding: Encoding::PLAIN,
            num_nulls: 0,
            num_rows: 3,
            def_levels_byte_len: 0,
            rep_levels_byte_len: 0,
            is_compressed: false,
        },
        Page::DataPage {
            buf: Buffer::new(vec![9, 0, 0, 0]),
            num_values: 1,
            encoding: Encoding::PLAIN,
            def_level_encoding: Encoding::RLE,
            rep_level_encoding: Encoding::RLE,
        },
    ];
    let mut reader = get_typed_column_reader(get_column_reader(int32(0, 0), InMemoryPageReader::new(pages)));
    let mut values = Vec::new();
    assert_eq!(reader.read_batch(5, None, None, &mut values), Ok((1, 0)));
    assert_eq!(values, vec![Value::Int32(9)]);
    assert_eq!(
        ParquetError::UnexpectedEof,
        {
            let mut r = get_typed_column_reader(get_column_reader(
                int32(0, 0),
                InMemoryPageReader::new(vec![Page::DataPage {
                    buf: Buffer::new(vec![9, 0]),
                    num_values: 1,
                    encoding: Encoding::PLAIN,
                    def_level_encoding: Encoding::RLE,
                    rep_level_encoding: Encoding::RLE,
                }]),
            ));
            r.read_batch(1, None, None, &mut Vec::new()).unwrap_err()
        }
    );
}
