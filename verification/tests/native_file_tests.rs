use verticat::byte_reader::ByteReader;
use verticat::column_definitions::ColumnDefinitions;
use verticat::format::FormatError;
use verticat::vertica_native_file::{Row, VerticaNativeFile};

const SIGNATURE: [u8; 11] = [0x4e, 0x41, 0x54, 0x49, 0x56, 0x45, 0x0a, 0xff, 0x0d, 0x0a, 0x00];
const VARIABLE: u32 = 4294967295;

fn push_u32(out: &mut Vec<u8>, v: u32) {
    out.extend_from_slice(&v.to_le_bytes());
}

fn push_u16(out: &mut Vec<u8>, v: u16) {
    out.extend_from_slice(&v.to_le_bytes());
}

fn header_bytes(widths: &[u32]) -> Vec<u8> {
    let mut out = Vec::new();
    out.extend_from_slice(&SIGNATURE);
    push_u32(&mut out, 4 + 2 + 1 + 2 + 4 * widths.len() as u32);
    push_u16(&mut out, 1);
    out.push(0);
    push_u16(&mut out, widths.len() as u16);
    for w in widths {
        push_u32(&mut out, *w);
    }
    out
}

/// One row: a null bitmap derived from the columns, then each non-null
/// column's bytes, with a length prefix where the width is the sentinel.
fn row_bytes(widths: &[u32], columns: &[Option<Vec<u8>>]) -> Vec<u8> {
    assert_eq!(widths.len(), columns.len());
    let bitmap_len = (widths.len() + 7) / 8;
    let mut bitmap = vec![0u8; bitmap_len];
    for (i, c) in columns.iter().enumerate() {
        if c.is_none() {
            bitmap[i / 8] |= 1 << (7 - (i % 8));
        }
    }
    let mut body = bitmap;
    for (i, c) in columns.iter().enumerate() {
        if let Some(bytes) = c {
            if widths[i] == VARIABLE {
                push_u32(&mut body, bytes.len() as u32);
            } else {
                assert_eq!(widths[i] as usize, bytes.len());
            }
            body.extend_from_slice(bytes);
        }
    }
    let mut out = Vec::new();
    push_u32(&mut out, 4 + body.len() as u32);
    out.extend_from_slice(&body);
    out
}

fn all_types_widths() -> Vec<u32> {
    vec![8, 8, 10, VARIABLE, 1, 8, 8, 8, 8, 8, VARIABLE, 3, 24, 8]
}

#[test]
fn column_definitions_test_read_from_good_file() {
    let expected_column_widths: [u32; 14] =
        [8, 8, 10, 4294967295, 1, 8, 8, 8, 8, 8, 4294967295, 3, 24, 8];

    let mut reader = ByteReader::new(header_bytes(&expected_column_widths));
    reader.pos = 11;

    let column_definitions = ColumnDefinitions::from_reader(&mut reader).unwrap();

    for (index, expected_value) in expected_column_widths.iter().enumerate() {
        let value = column_definitions.column_widths[index];

        assert_eq!(*expected_value, value);
    }
}

#[test]
fn vertica_native_file_test_read_from_good_file() {
    // Every column null except one fixed width of 8 and one variable-width
    // value of 6 bytes: each row's payload is 14 bytes.
    let widths = all_types_widths();
    let mut cols: Vec<Option<Vec<u8>>> = vec![None; 14];
    cols[5] = Some(vec![7u8; 8]);
    cols[3] = Some(vec![9u8; 6]);

    let mut bytes = header_bytes(&widths);
    bytes.extend_from_slice(&row_bytes(&widths, &cols));
    bytes.extend_from_slice(&row_bytes(&widths, &cols));

    let mut file = VerticaNativeFile::from_reader(ByteReader::new(bytes)).unwrap();

    let mut seen = 0;
    while let Some(row) = file.next() {
        assert_eq!(14, row.data.len());
        seen += 1;
    }
    assert_eq!(2, seen);
}

#[test]
fn test_read_from_good_file_with_nulls() {
    // Nulls everywhere but three fixed columns of widths 10, 1 and 3:
    // each row's payload is 14 bytes.
    let widths = all_types_widths();
    let mut cols: Vec<Option<Vec<u8>>> = vec![None; 14];
    cols[2] = Some(vec![1u8; 10]);
    cols[4] = Some(vec![2u8; 1]);
    cols[11] = Some(vec![3u8; 3]);

    let mut bytes = header_bytes(&widths);
    bytes.extend_from_slice(&row_bytes(&widths, &cols));

    let mut file = VerticaNativeFile::from_reader(ByteReader::new(bytes)).unwrap();

    let mut seen = 0;
    while let Some(row) = file.next() {
        assert_eq!(14, row.data.len());
        seen += 1;
    }
    assert_eq!(1, seen);
}

#[test]
fn test_bitfield_msb_first_14_columns() {
    // Two bitmap bytes for 14 columns; bits are consumed most significant
    // first, so 0xa0 0x40 marks columns 0, 2 and 9 null.
    let mut reader = ByteReader::new(vec![0xa0, 0x40]);
    let widths = vec![8u32; 14];

    let (nulls, bitmap) = Row::read_bitfield(&mut reader, &widths).unwrap();

    assert_eq!(vec![0xa0, 0x40], bitmap);
    assert_eq!(16, nulls.len());
    let expected = [
        true, false, true, false, false, false, false, false, false, true, false, false, false,
        false,
    ];
    for (i, e) in expected.iter().enumerate() {
        assert_eq!(*e, nulls[i], "column {}", i);
    }
}

#[test]
fn test_variable_width_reads_prefixed_length() {
    // A sentinel-width column reads a four-byte length, then exactly that
    // many bytes; the sentinel itself is never used as a length.
    let widths = vec![VARIABLE];
    let cols = vec![Some(vec![5u8, 6, 7, 8, 9])];

    let mut bytes = header_bytes(&widths);
    bytes.extend_from_slice(&row_bytes(&widths, &cols));

    let mut file = VerticaNativeFile::from_reader(ByteReader::new(bytes)).unwrap();
    let row = file.next().unwrap();

    assert_eq!(vec![5u8, 6, 7, 8, 9], row.data);
    assert_eq!(vec![5u32], row.lengths);
    assert!(file.next().is_none());
}

#[test]
fn test_trailing_bitmap_bits_ignored() {
    // Three columns leave five unused bits in the single bitmap byte; set
    // them all: no column may become null and no extra column may appear.
    let widths = vec![2u32, 3, 4];
    let mut body: Vec<u8> = vec![0b0001_1111];
    body.extend_from_slice(&[1, 2]);
    body.extend_from_slice(&[3, 4, 5]);
    body.extend_from_slice(&[6, 7, 8, 9]);

    let mut bytes = header_bytes(&widths);
    push_u32(&mut bytes, 4 + body.len() as u32);
    bytes.extend_from_slice(&body);

    let mut file = VerticaNativeFile::from_reader(ByteReader::new(bytes)).unwrap();
    let row = file.next().unwrap();

    assert_eq!(3, row.lengths.len());
    assert_eq!(vec![1u8, 2, 3, 4, 5, 6, 7, 8, 9], row.data);
    assert!(file.next().is_none());
}

#[test]
fn test_all_types_single_row_no_nulls() {
    // Fourteen columns, one row, no nulls: the payload holds the sum of the
    // fixed widths (102) plus the actual length of each variable column,
    // and the stream consumes four extra bytes for each variable length.
    let widths = all_types_widths();
    let mut cols: Vec<Option<Vec<u8>>> = Vec::new();
    for (i, w) in widths.iter().enumerate() {
        if *w == VARIABLE {
            let len = if i == 3 { 4 } else { 7 };
            cols.push(Some(vec![0xabu8; len]));
        } else {
            cols.push(Some(vec![0xcdu8; *w as usize]));
        }
    }

    let header = header_bytes(&widths);
    let row = row_bytes(&widths, &cols);
    // prefix + bitmap + fixed payload + (4 + len) per variable column
    assert_eq!(4 + 2 + 102 + (4 + 4) + (4 + 7), row.len());

    let mut bytes = header.clone();
    bytes.extend_from_slice(&row);

    let mut file = VerticaNativeFile::from_reader(ByteReader::new(bytes)).unwrap();
    let decoded = file.next().unwrap();

    assert_eq!(102 + 4 + 7, decoded.data.len());
    assert!(file.next().is_none());
}

#[test]
fn test_zero_row_length_terminates() {
    // A zero row-length prefix is the end of the sequence, not an error;
    // bytes after it are never read.
    let widths = vec![1u32];
    let cols = vec![Some(vec![0x11u8])];

    let mut bytes = header_bytes(&widths);
    bytes.extend_from_slice(&row_bytes(&widths, &cols));
    push_u32(&mut bytes, 0);
    bytes.extend_from_slice(&[0xde, 0xad, 0xbe, 0xef]);

    let mut file = VerticaNativeFile::from_reader(ByteReader::new(bytes)).unwrap();
    assert!(file.next().is_some());
    assert!(file.next().is_none());
    assert!(file.next().is_none());
}

#[test]
fn test_stream_end_at_prefix_terminates() {
    // The stream ending exactly where the next row-length prefix would
    // start is a clean end of the sequence.
    let widths = vec![1u32];
    let cols = vec![Some(vec![0x11u8])];

    let mut bytes = header_bytes(&widths);
    bytes.extend_from_slice(&row_bytes(&widths, &cols));

    let mut file = VerticaNativeFile::from_reader(ByteReader::new(bytes)).unwrap();
    assert!(file.next().is_some());
    assert!(file.next().is_none());
}

#[test]
fn test_row_generate_output_is_bitmap_then_payload() {
    let widths = vec![2u32, VARIABLE];
    let cols = vec![Some(vec![1u8, 2]), Some(vec![3u8, 4, 5])];

    let mut bytes = header_bytes(&widths);
    bytes.extend_from_slice(&row_bytes(&widths, &cols));

    let mut file = VerticaNativeFile::from_reader(ByteReader::new(bytes)).unwrap();
    let row = file.next().unwrap();

    let out = row.generate_output().unwrap();
    assert_eq!(vec![0x00u8, 1, 2, 3, 4, 5], out);
}

#[test]
fn test_truncated_row_stops_iteration() {
    // A nonzero prefix followed by too few bytes ends iteration without a
    // row, the best-effort streaming policy.
    let widths = vec![4u32];
    let mut bytes = header_bytes(&widths);
    push_u32(&mut bytes, 9);
    bytes.push(0x00); // bitmap
    bytes.push(0x01); // only one of the four declared bytes

    let mut file = VerticaNativeFile::from_reader(ByteReader::new(bytes)).unwrap();
    assert!(file.next().is_none());
}

#[test]
fn test_bad_signature_rejected() {
    let mut bytes = header_bytes(&[1u32]);
    bytes[0] = 0x58;

    match VerticaNativeFile::from_reader(ByteReader::new(bytes)) {
        Err(FormatError::BadSignature) => {},
        _ => panic!("expected a bad-signature error"),
    }
}

#[test]
fn test_truncated_header_rejected() {
    let mut bytes = Vec::new();
    bytes.extend_from_slice(&SIGNATURE);
    bytes.extend_from_slice(&[0x2f, 0x00]); // header length cut short

    match VerticaNativeFile::from_reader(ByteReader::new(bytes)) {
        Err(FormatError::Truncated) => {},
        _ => panic!("expected a truncated error"),
    }
}
