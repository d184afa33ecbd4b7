use verticat::byte_reader::ByteReader;
use verticat::column_definitions::ColumnDefinitions;
use verticat::format::FormatError;
use verticat::operations::{count_rows, head, tail};
use verticat::vertica_native_file::{Row, VerticaNativeFile};

const SIGNATURE: [u8; 11] = [0x4e, 0x41, 0x54, 0x49, 0x56, 0x45, 0x0a, 0xff, 0x0d, 0x0a, 0x00];
const VARIABLE: u32 = 4294967295;

fn push_u32(out: &mut Vec<u8>, v: u32) {
    out.extend_from_slice(&v.to_le_bytes());
}

fn push_u16(out: &mut Vec<u8>, v: u16) {
    out.extend_from_slice(&v.to_le_bytes());
}

fn header_bytes(widths: &[u32]) -> Vec<u8> {
    let mut out = Vec::new();
    out.extend_from_slice(&SIGNATURE);
    push_u32(&mut out, 4 + 2 + 1 + 2 + 4 * widths.len() as u32);
    push_u16(&mut out, 1);
    out.push(0);
    push_u16(&mut out, widths.len() as u16);
    for w in widths {
        push_u32(&mut out, *w);
    }
    out
}

fn row_bytes(widths: &[u32], columns: &[Option<Vec<u8>>]) -> Vec<u8> {
    let bitmap_len = (widths.len() + 7) / 8;
    let mut bitmap = vec![0u8; bitmap_len];
    for (i, c) in columns.iter().enumerate() {
        if c.is_none() {
            bitmap[i / 8] |= 1 << (7 - (i % 8));
        }
    }
    let mut body = bitmap;
    for (i, c) in columns.iter().enumerate() {
        if let Some(bytes) = c {
            if widths[i] == VARIABLE {
                push_u32(&mut body, bytes.len() as u32);
            }
            body.extend_from_slice(bytes);
        }
    }
    let mut out = Vec::new();
    push_u32(&mut out, 4 + body.len() as u32);
    out.extend_from_slice(&body);
    out
}

/// A three-row file over a fixed column, a variable column and another
/// fixed column, with a null in the middle row.
fn sample_file() -> Vec<u8> {
    let widths = vec![2u32, VARIABLE, 1];
    let mut bytes = header_bytes(&widths);
    bytes.extend_from_slice(&row_bytes(
        &widths,
        &[Some(vec![1, 2]), Some(vec![10, 11, 12]), Some(vec![3])],
    ));
    bytes.extend_from_slice(&row_bytes(&widths, &[Some(vec![4, 5]), None, Some(vec![6])]));
    bytes.extend_from_slice(&row_bytes(
        &widths,
        &[Some(vec![7, 8]), Some(vec![13]), Some(vec![9])],
    ));
    bytes
}

fn decode_rows(bytes: &[u8]) -> Vec<Row> {
    let mut file = VerticaNativeFile::from_reader(ByteReader::new(bytes.to_vec())).unwrap();
    let mut rows = Vec::new();
    while let Some(row) = file.next() {
        rows.push(row);
    }
    rows
}

fn assert_same_rows(expected: &[&Row], actual: &[Row]) {
    assert_eq!(expected.len(), actual.len());
    for (e, a) in expected.iter().zip(actual.iter()) {
        assert_eq!(e.bitfield, a.bitfield);
        assert_eq!(e.lengths, a.lengths);
        assert_eq!(e.data, a.data);
    }
}

#[test]
fn test_count_rows_matches_decoded_rows() {
    let bytes = sample_file();
    let n = count_rows(&bytes).unwrap();
    assert_eq!(3, n);
    assert_eq!(decode_rows(&bytes).len(), n);
}

#[test]
fn test_count_rows_empty_file() {
    let bytes = header_bytes(&[8u32, 8]);
    assert_eq!(0, count_rows(&bytes).unwrap());
}

#[test]
fn test_count_rows_zero_columns() {
    // A file may declare no columns at all; each row is just its prefix.
    let mut bytes = header_bytes(&[]);
    push_u32(&mut bytes, 4);
    push_u32(&mut bytes, 4);
    assert_eq!(2, count_rows(&bytes).unwrap());
}

#[test]
fn test_head_reparses_to_first_rows() {
    let bytes = sample_file();
    let original = decode_rows(&bytes);

    let out = head(&bytes, 2).unwrap();
    let reparsed = decode_rows(&out);

    assert_same_rows(&[&original[0], &original[1]], &reparsed);
}

#[test]
fn test_head_with_n_beyond_count() {
    let bytes = sample_file();
    let original = decode_rows(&bytes);

    let out = head(&bytes, 10).unwrap();
    let reparsed = decode_rows(&out);

    assert_same_rows(&[&original[0], &original[1], &original[2]], &reparsed);
}

#[test]
fn test_head_zero_rows_is_header_only() {
    let bytes = sample_file();
    let out = head(&bytes, 0).unwrap();
    assert_eq!(0, count_rows(&out).unwrap());
    assert_eq!(&SIGNATURE, &out[0..11]);
}

#[test]
fn test_tail_reparses_to_last_rows() {
    let bytes = sample_file();
    let original = decode_rows(&bytes);

    let out = tail(&bytes, 2).unwrap();
    let reparsed = decode_rows(&out);

    assert_same_rows(&[&original[1], &original[2]], &reparsed);
}

#[test]
fn test_tail_with_n_beyond_count() {
    let bytes = sample_file();
    let original = decode_rows(&bytes);

    let out = tail(&bytes, 7).unwrap();
    let reparsed = decode_rows(&out);

    assert_same_rows(&[&original[0], &original[1], &original[2]], &reparsed);
}

#[test]
fn test_definitions_roundtrip() {
    let widths = vec![8u32, VARIABLE, 24];
    let bytes = header_bytes(&widths);

    let mut reader = ByteReader::new(bytes);
    reader.pos = 11;
    let defs = ColumnDefinitions::from_reader(&mut reader).unwrap();

    let encoded = defs.generate_output().unwrap();
    let mut reparse = ByteReader::new(encoded);
    let again = ColumnDefinitions::from_reader(&mut reparse).unwrap();

    assert_eq!(defs.header_length, again.header_length);
    assert_eq!(defs.version, again.version);
    assert_eq!(defs.filler, again.filler);
    assert_eq!(defs.number_of_columns, again.number_of_columns);
    assert_eq!(defs.column_widths, again.column_widths);
}

#[test]
fn test_head_output_recomputes_prefixes() {
    // The reproduced row must carry a row-length prefix and a fresh length
    // prefix for the variable column, even though the row itself stores
    // neither.
    let widths = vec![VARIABLE];
    let mut bytes = header_bytes(&widths);
    bytes.extend_from_slice(&row_bytes(&widths, &[Some(vec![0x61, 0x62])]));

    let out = head(&bytes, 1).unwrap();
    let header_len = header_bytes(&widths).len();
    // row-length prefix (4), bitmap (1), variable length prefix (4), payload (2)
    assert_eq!(header_len + 4 + 1 + 4 + 2, out.len());
    assert_eq!(&[2u8, 0, 0, 0, 0x61, 0x62], &out[out.len() - 6..]);
}

#[test]
fn test_operations_report_header_errors() {
    let mut bad_sig = sample_file();
    bad_sig[3] = 0xff;
    assert!(matches!(count_rows(&bad_sig), Err(FormatError::BadSignature)));
    assert!(matches!(head(&bad_sig, 1), Err(FormatError::BadSignature)));
    assert!(matches!(tail(&bad_sig, 1), Err(FormatError::BadSignature)));

    let mut short = Vec::new();
    short.extend_from_slice(&SIGNATURE);
    short.extend_from_slice(&[1, 2, 3]);
    assert!(matches!(count_rows(&short), Err(FormatError::Truncated)));
    assert!(matches!(head(&short, 1), Err(FormatError::Truncated)));
    assert!(matches!(tail(&short, 1), Err(FormatError::Truncated)));
}

#[test]
fn test_truncated_row_counts_as_end() {
    // A row cut short mid-payload ends the sequence; earlier rows still
    // count.
    let widths = vec![4u32];
    let mut bytes = header_bytes(&widths);
    bytes.extend_from_slice(&row_bytes(&widths, &[Some(vec![1, 2, 3, 4])]));
    push_u32(&mut bytes, 9);
    bytes.push(0x00);
    bytes.push(0x01);

    assert_eq!(1, count_rows(&bytes).unwrap());
}
