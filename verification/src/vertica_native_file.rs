use vstd::prelude::*;

use crate::byte_reader::ByteReader;
use crate::bytes::push_bytes;
use crate::bytes::push_u32_le;
use crate::column_definitions::encode_defs;
use crate::column_definitions::spec_parse_defs;
use crate::column_definitions::ColumnDefinitions;
use crate::column_definitions::ColumnDefinitionsView;
use crate::column_definitions::VARIABLE_WIDTH;
use crate::file_signature::signature_bytes;
use crate::file_signature::FileSignature;
use crate::file_signature::SIGNATURE_LENGTH;
use crate::format::FormatError;
use crate::row_codec::bitfield_len;
use crate::row_codec::col_offset;
use crate::row_codec::encode_columns;
use crate::row_codec::encode_row;
use crate::row_codec::encode_row_body;
use crate::row_codec::is_null;
use crate::row_codec::lemma_col_offset_mono;
use crate::row_codec::lemma_col_offset_push;
use crate::row_codec::lemma_decode_body_wf;
use crate::row_codec::null_flags;
use crate::row_codec::row_prefix;
use crate::row_codec::spec_decode_columns;
use crate::row_codec::spec_decode_row;
use crate::row_codec::spec_decode_row_body;
use crate::row_codec::wf_row;
use crate::row_codec::ColsView;
use crate::row_codec::RowStep;
use crate::row_codec::RowView;
use crate::{read_u32, read_variable};

verus! {

/// One decoded record: its null bitmap, the payload length of each column
/// (0 for a null column), and the concatenated payload bytes of all
/// non-null columns in column order.
#[derive(Debug)]
pub struct Row {
    pub bitfield: Vec<u8>,
    pub lengths: Vec<u32>,
    pub data: Vec<u8>,
}

impl View for Row {
    type V = RowView;

    open spec fn view(&self) -> RowView {
        RowView { bitfield: self.bitfield@, lengths: self.lengths@, data: self.data@ }
    }
}

impl Row {
    /// Reads the row's null bitmap and expands it, most significant bit
    /// first, into one flag per bitmap bit; fails with `Truncated`, leaving
    /// the reader untouched, exactly when the input holds fewer bitmap bytes
    /// than the column count demands.
    pub fn read_bitfield(reader: &mut ByteReader, column_widths: &Vec<u32>) -> (res: Result<
        (Vec<bool>, Vec<u8>),
        FormatError,
    >)
        requires
            old(reader).wf(),
        ensures
            final(reader).wf(),
            final(reader).data@ == old(reader).data@,
            match res {
                Ok(t) => {
                    let blen = bitfield_len(column_widths@.len() as int);
                    &&& old(reader).pos + blen <= old(reader).data@.len()
                    &&& t.1@ == old(reader).data@.subrange(
                        old(reader).pos as int,
                        old(reader).pos + blen,
                    )
                    &&& final(reader).pos == old(reader).pos + blen
                    &&& t.0@.len() == 8 * t.1@.len()
                    &&& forall|j: int| 0 <= j < t.0@.len() ==> t.0@[j] == is_null(t.1@, j)
                },
                Err(e) => {
                    &&& e == FormatError::Truncated
                    &&& old(reader).pos + bitfield_len(column_widths@.len() as int) > old(
                        reader,
                    ).data@.len()
                    &&& final(reader).pos == old(reader).pos
                },
            },
    {
        let n = column_widths.len();
        let bitfield_length = (n / 8) + if n % 8 == 0 {
            0
        } else {
            1
        };
        proof {
            assert(bitfield_length == bitfield_len(n as int));
        }
        let bitfield = match read_variable(reader, bitfield_length) {
            Ok(v) => v,
            Err(_) => {
                return Err(FormatError::Truncated);
            },
        };
        let mut null_values: Vec<bool> = Vec::new();
        let mut bi: usize = 0;
        while bi < bitfield.len()
            invariant
                bi <= bitfield@.len(),
                bitfield@.len() <= usize::MAX,
                null_values@.len() == 8 * bi,
                forall|j: int| 0 <= j < 8 * bi ==> null_values@[j] == is_null(bitfield@, j),
            decreases bitfield@.len() - bi,
        {
            let byte = bitfield[bi];
            let mut k: usize = 0;
            while k < 8
                invariant
                    k <= 8,
                    bi < bitfield@.len(),
                    byte == bitfield@[bi as int],
                    null_values@.len() == 8 * bi + k,
                    forall|j: int| 0 <= j < 8 * bi + k ==> null_values@[j] == is_null(bitfield@, j),
                decreases 8 - k,
            {
                let flag = ((byte >> ((7 - k) as u8)) & 1) == 1;
                proof {
                    let j = 8 * (bi as int) + k;
                    assert(j / 8 == bi as int && j % 8 == k as int) by (nonlinear_arith)
                        requires
                            0 <= k < 8,
                            0 <= bi,
                            j == 8 * (bi as int) + k,
                    ;
                    assert(flag == is_null(bitfield@, j));
                }
                null_values.push(flag);
                k = k + 1;
            }
            bi = bi + 1;
        }
        Ok((null_values, bitfield))
    }

    /// Decodes the body of one row (bitmap, then each non-null column's
    /// bytes, reading a four-byte length first for variable-width columns);
    /// fails with `Truncated`, leaving the reader untouched, exactly when
    /// the input ends inside the row.
    pub fn from_reader(reader: &mut ByteReader, column_widths: &Vec<u32>) -> (res: Result<
        Row,
        FormatError,
    >)
        requires
            old(reader).wf(),
        ensures
            final(reader).wf(),
            final(reader).data@ == old(reader).data@,
            match res {
                Ok(row) => {
                    &&& spec_decode_row_body(
                        old(reader).data@,
                        old(reader).pos as int,
                        column_widths@,
                    ) == Some((row@, final(reader).pos as int))
                    &&& wf_row(row@, column_widths@)
                },
                Err(e) => {
                    &&& e == FormatError::Truncated
                    &&& spec_decode_row_body(
                        old(reader).data@,
                        old(reader).pos as int,
                        column_widths@,
                    ) is None
                    &&& final(reader).pos == old(reader).pos
                },
            },
    {
        let ghost odata = old(reader).data@;
        let ghost pos0 = old(reader).pos as int;
        let start: usize = reader.pos;
        let (null_values, bitfield) = match Row::read_bitfield(reader, column_widths) {
            Ok(t) => t,
            Err(_) => {
                return Err(FormatError::Truncated);
            },
        };
        let ncols = column_widths.len();
        let ghost nulls = null_flags(bitfield@, ncols as int);
        let ghost cpos0 = reader.pos as int;
        proof {
            assert(ncols as int <= 8 * bitfield_len(ncols as int)) by (nonlinear_arith);
            assert(spec_decode_columns(odata, cpos0, column_widths@, nulls, 0) matches Some(c)
                ==> spec_decode_columns(odata, cpos0, column_widths@, nulls, 0) == Some(
                ColsView {
                    data: Seq::<u8>::empty() + c.data,
                    lengths: Seq::<u32>::empty() + c.lengths,
                    end: c.end,
                },
            )) by {
                match spec_decode_columns(odata, cpos0, column_widths@, nulls, 0) {
                    Some(c) => {
                        assert(Seq::<u8>::empty() + c.data =~= c.data);
                        assert(Seq::<u32>::empty() + c.lengths =~= c.lengths);
                    },
                    None => {},
                }
            }
        }
        let mut data: Vec<u8> = Vec::new();
        let mut lengths: Vec<u32> = Vec::new();
        let mut index: usize = 0;
        while index < ncols
            invariant
                index <= ncols,
                ncols == column_widths@.len(),
                reader.wf(),
                odata == old(reader).data@,
                pos0 == old(reader).pos as int,
                reader.data@ == odata,
                start as int == pos0,
                nulls == null_flags(bitfield@, ncols as int),
                bitfield@ == odata.subrange(pos0, pos0 + bitfield_len(ncols as int)),
                pos0 + bitfield_len(ncols as int) <= odata.len(),
                cpos0 == pos0 + bitfield_len(ncols as int),
                null_values@.len() == 8 * bitfield@.len(),
                bitfield@.len() == bitfield_len(ncols as int),
                ncols as int <= 8 * bitfield@.len(),
                forall|j: int|
                    0 <= j < null_values@.len() ==> null_values@[j] == is_null(bitfield@, j),
                lengths@.len() == index,
                data@.len() == col_offset(lengths@, index as int),
                forall|j: int|
                    0 <= j < index ==> (is_null(bitfield@, j) ==> lengths@[j] == 0),
                forall|j: int|
                    0 <= j < index ==> (!is_null(bitfield@, j) && column_widths@[j]
                        != VARIABLE_WIDTH ==> lengths@[j] == column_widths@[j]),
                match spec_decode_columns(odata, reader.pos as int, column_widths@, nulls,
                    index as int,
                ) {
                    Some(c) => spec_decode_columns(odata, cpos0, column_widths@, nulls, 0) == Some(
                        ColsView {
                            data: data@ + c.data,
                            lengths: lengths@ + c.lengths,
                            end: c.end,
                        },
                    ),
                    None => spec_decode_columns(odata, cpos0, column_widths@, nulls, 0) is None,
                },
            decreases ncols - index,
        {
            let ghost p = reader.pos as int;
            let ghost old_lengths = lengths@;
            let ghost old_data = data@;
            if null_values[index] {
                proof {
                    assert(nulls[index as int] == is_null(bitfield@, index as int));
                    lemma_col_offset_push(lengths@, 0u32, index as int);
                    match spec_decode_columns(odata, p, column_widths@, nulls, index + 1) {
                        Some(c2) => {
                            assert(old_lengths.push(0u32) + c2.lengths =~= old_lengths + (
                            seq![0u32] + c2.lengths));
                        },
                        None => {},
                    }
                }
                lengths.push(0);
            } else {
                let width = column_widths[index];
                let column_width = if width == VARIABLE_WIDTH {
                    match read_u32(reader) {
                        Ok(v) => v,
                        Err(_) => {
                            reader.pos = start;
                            return Err(FormatError::Truncated);
                        },
                    }
                } else {
                    width
                };
                let mut column = match read_variable(reader, column_width as usize) {
                    Ok(v) => v,
                    Err(_) => {
                        reader.pos = start;
                        return Err(FormatError::Truncated);
                    },
                };
                proof {
                    assert(nulls[index as int] == is_null(bitfield@, index as int));
                    lemma_col_offset_push(lengths@, column_width, index as int);
                    match spec_decode_columns(odata, reader.pos as int, column_widths@, nulls,
                        index + 1,
                    ) {
                        Some(c2) => {
                            assert(old_lengths.push(column_width) + c2.lengths =~= old_lengths + (
                            seq![column_width] + c2.lengths));
                            assert((old_data + column@) + c2.data =~= old_data + (column@
                                + c2.data));
                        },
                        None => {},
                    }
                }
                lengths.push(column_width);
                data.append(&mut column);
            }
            index = index + 1;
        }
        proof {
            match spec_decode_columns(odata, reader.pos as int, column_widths@, nulls,
                ncols as int,
            ) {
                Some(c) => {
                    assert(data@ + c.data =~= data@);
                    assert(lengths@ + c.lengths =~= lengths@);
                },
                None => {},
            }
        }
        let row = Row { bitfield, lengths, data };
        proof {
            lemma_decode_body_wf(odata, pos0, column_widths@);
        }
        Ok(row)
    }

    /// The bytes this row itself stores: the bitmap followed by the payload
    /// buffer, verbatim, with no length prefixes.
    pub fn generate_output(&self) -> (res: Result<Vec<u8>, FormatError>)
        ensures
            match res {
                Ok(v) => v@ == self.bitfield@ + self.data@,
                Err(_) => false,
            },
    {
        let mut record: Vec<u8> = Vec::new();
        push_bytes(&mut record, &self.bitfield, 0, self.bitfield.len());
        push_bytes(&mut record, &self.data, 0, self.data.len());
        proof {
            assert(self.bitfield@.subrange(0, self.bitfield@.len() as int) =~= self.bitfield@);
            assert(self.data@.subrange(0, self.data@.len() as int) =~= self.data@);
            assert(record@ =~= self.bitfield@ + self.data@);
        }
        Ok(record)
    }

    /// The full record to emit when reproducing a file: a freshly computed
    /// row-length prefix, the bitmap, and each non-null column's bytes with
    /// variable-width length prefixes re-derived from the stored lengths.
    pub fn encode_record(&self, column_widths: &Vec<u32>) -> (res: Vec<u8>)
        requires
            wf_row(self@, column_widths@),
        ensures
            res@ == encode_row(self@, column_widths@),
    {
        let ghost widths = column_widths@;
        let mut body: Vec<u8> = Vec::new();
        push_bytes(&mut body, &self.bitfield, 0, self.bitfield.len());
        let _dlen = self.data.len();
        proof {
            assert(self.bitfield@.subrange(0, self.bitfield@.len() as int) =~= self.bitfield@);
            assert(Seq::<u8>::empty() + self.bitfield@ =~= self.bitfield@);
        }
        let ncols = column_widths.len();
        let mut off: usize = 0;
        let mut i: usize = 0;
        while i < ncols
            invariant
                i <= ncols,
                ncols == column_widths@.len(),
                widths == column_widths@,
                wf_row(self@, widths),
                self.data@.len() <= usize::MAX,
                off as int == col_offset(self@.lengths, i as int),
                off <= self.data@.len(),
                body@ + encode_columns(self@, widths, i as int) == self.bitfield@ + encode_columns(
                    self@,
                    widths,
                    0,
                ),
            decreases ncols - i,
        {
            proof {
                assert((i as int) / 8 < bitfield_len(ncols as int)) by (nonlinear_arith)
                    requires
                        0 <= i < ncols,
                ;
                assert(col_offset(self@.lengths, i + 1) == col_offset(self@.lengths, i as int)
                    + self@.lengths[i as int]);
                lemma_col_offset_mono(self@.lengths, i + 1, ncols as int);
            }
            let byte = self.bitfield[i / 8];
            let flag = ((byte >> ((7 - (i % 8)) as u8)) & 1) == 1;
            proof {
                assert(flag == is_null(self@.bitfield, i as int));
            }
            let l = self.lengths[i];
            let ghost old_body = body@;
            if flag {
                proof {
                    assert(self@.lengths[i as int] == 0);
                    assert(encode_columns(self@, widths, i as int) == encode_columns(
                        self@,
                        widths,
                        i + 1,
                    ));
                }
            } else {
                let width = column_widths[i];
                if width == VARIABLE_WIDTH {
                    push_u32_le(&mut body, l);
                    push_bytes(&mut body, &self.data, off, l as usize);
                    proof {
                        let seg = self@.data.subrange(off as int, off + l);
                        assert(body@ =~= old_body + (crate::bytes::u32_le_bytes(l) + seg));
                        assert(encode_columns(self@, widths, i as int) == (
                        crate::bytes::u32_le_bytes(l) + seg) + encode_columns(
                            self@,
                            widths,
                            i + 1,
                        ));
                        assert((old_body + (crate::bytes::u32_le_bytes(l) + seg))
                            + encode_columns(self@, widths, i + 1) =~= old_body + ((
                        crate::bytes::u32_le_bytes(l) + seg) + encode_columns(
                            self@,
                            widths,
                            i + 1,
                        )));
                    }
                } else {
                    push_bytes(&mut body, &self.data, off, l as usize);
                    proof {
                        let seg = self@.data.subrange(off as int, off + l);
                        assert(encode_columns(self@, widths, i as int) == seg + encode_columns(
                            self@,
                            widths,
                            i + 1,
                        ));
                        assert((old_body + seg) + encode_columns(self@, widths, i + 1)
                            =~= old_body + (seg + encode_columns(self@, widths, i + 1)));
                    }
                }
                off = off + (l as usize);
            }
            i = i + 1;
        }
        proof {
            assert(encode_columns(self@, widths, ncols as int) == Seq::<u8>::empty());
            assert(body@ + Seq::<u8>::empty() =~= body@);
            assert(body@ == encode_row_body(self@, widths));
        }
        let prefix: u32 = if body.len() >= 0xffff_fffc {
            0xffff_ffff
        } else {
            (body.len() as u32) + 4
        };
        proof {
            assert(prefix == row_prefix(self@, widths));
        }
        let mut out: Vec<u8> = Vec::new();
        push_u32_le(&mut out, prefix);
        push_bytes(&mut out, &body, 0, body.len());
        proof {
            assert(body@.subrange(0, body@.len() as int) =~= body@);
            assert(out@ =~= encode_row(self@, widths));
        }
        out
    }
}

/// What opening a native file at `pos` yields: the parsed column
/// definitions and the position of the first row, or the error — a bad or
/// short preamble, or a header cut short.
pub open spec fn spec_open(data: Seq<u8>, pos: int) -> Result<
    (ColumnDefinitionsView, int),
    FormatError,
> {
    if !(pos + SIGNATURE_LENGTH <= data.len() && data.subrange(pos, pos + SIGNATURE_LENGTH)
        == signature_bytes()) {
        Err(FormatError::BadSignature)
    } else {
        match spec_parse_defs(data, pos + SIGNATURE_LENGTH) {
            Some((d, end)) => Ok((d, end)),
            None => Err(FormatError::Truncated),
        }
    }
}

/// One open native file: its signature and column definitions, parsed once,
/// and a cursor standing at the start of the row data, ready to yield rows
/// one at a time.
pub struct VerticaNativeFile {
    pub signature: FileSignature,
    pub definitions: ColumnDefinitions,
    pub reader: ByteReader,
}

impl VerticaNativeFile {
    /// The signature matches, the definitions are consistent, and the
    /// cursor is inside the input.
    pub open spec fn wf(&self) -> bool {
        &&& self.signature.wf()
        &&& self.definitions@.wf()
        &&& self.reader.wf()
    }

    /// Parses the signature and the column definitions, leaving the cursor
    /// at the first row; fails fast with the parse error otherwise.
    pub fn from_reader(reader: ByteReader) -> (res: Result<VerticaNativeFile, FormatError>)
        requires
            reader.wf(),
        ensures
            match res {
                Ok(f) => {
                    &&& f.wf()
                    &&& f.reader.data@ == reader.data@
                    &&& spec_open(reader.data@, reader.pos as int) == Ok::<_, FormatError>(
                        (f.definitions@, f.reader.pos as int),
                    )
                },
                Err(e) => spec_open(reader.data@, reader.pos as int) == Err::<
                    (ColumnDefinitionsView, int),
                    _,
                >(e),
            },
    {
        let mut r = reader;
        let signature = match FileSignature::from_reader(&mut r) {
            Ok(s) => s,
            Err(e) => {
                return Err(e);
            },
        };
        let definitions = match ColumnDefinitions::from_reader(&mut r) {
            Ok(d) => d,
            Err(e) => {
                return Err(e);
            },
        };
        Ok(VerticaNativeFile { signature, definitions, reader: r })
    }

    /// Decodes the next row, or yields `None` at the end of the sequence —
    /// a zero or unreadable row-length prefix — and on a truncated row
    /// alike, the best-effort streaming policy of this format.
    pub fn next(&mut self) -> (res: Option<Row>)
        requires
            old(self).wf(),
        ensures
            final(self).wf(),
            final(self).reader.data@ == old(self).reader.data@,
            final(self).definitions == old(self).definitions,
            final(self).signature == old(self).signature,
            match res {
                Some(row) => {
                    &&& spec_decode_row(
                        old(self).reader.data@,
                        old(self).reader.pos as int,
                        old(self).definitions@.column_widths,
                    ) == RowStep::Next(row@, final(self).reader.pos as int)
                    &&& wf_row(row@, old(self).definitions@.column_widths)
                    &&& old(self).reader.pos < final(self).reader.pos
                },
                None => {
                    &&& !(spec_decode_row(
                        old(self).reader.data@,
                        old(self).reader.pos as int,
                        old(self).definitions@.column_widths,
                    ) is Next)
                    &&& final(self).reader.pos == old(self).reader.pos
                },
            },
    {
        let start: usize = self.reader.pos;
        if self.reader.data.len() - self.reader.pos < 4 {
            return None;
        }
        let row_length = match read_u32(&mut self.reader) {
            Ok(v) => v,
            Err(_) => {
                self.reader.pos = start;
                return None;
            },
        };
        if row_length == 0 {
            self.reader.pos = start;
            return None;
        }
        match Row::from_reader(&mut self.reader, &self.definitions.column_widths) {
            Ok(row) => {
                proof {
                    crate::row_codec::lemma_decode_row_advances(
                        old(self).reader.data@,
                        old(self).reader.pos as int,
                        old(self).definitions@.column_widths,
                    );
                }
                Some(row)
            },
            Err(_) => {
                self.reader.pos = start;
                None
            },
        }
    }

    /// The header bytes to emit when reproducing a file: the signature
    /// verbatim, then the re-encoded column definitions.
    pub fn generate_output(&self) -> (res: Result<Vec<u8>, FormatError>)
        requires
            self.wf(),
        ensures
            match res {
                Ok(v) => v@ == signature_bytes() + encode_defs(self.definitions@),
                Err(_) => false,
            },
    {
        let mut out = match self.signature.generate_output() {
            Ok(v) => v,
            Err(e) => {
                return Err(e);
            },
        };
        let mut defs = match self.definitions.generate_output() {
            Ok(v) => v,
            Err(e) => {
                return Err(e);
            },
        };
        out.append(&mut defs);
        proof {
            assert(out@ =~= signature_bytes() + encode_defs(self.definitions@));
        }
        Ok(out)
    }
}

} // verus!
