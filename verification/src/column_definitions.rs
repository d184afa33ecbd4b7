use vstd::prelude::*;

use crate::byte_reader::ByteReader;
use crate::bytes::{
    le16_at, le32_at, lemma_le16_of_bytes, lemma_le32_of_bytes, push_u16_le, push_u32_le,
    u16_le_bytes, u32_le_bytes,
};
use crate::format::FormatError;
use crate::{read_u16, read_u32, read_u8};

verus! {

/// The declared width that marks a variable-width, length-prefixed column.
pub const VARIABLE_WIDTH: u32 = 0xffff_ffff;

/// The mathematical content of a column-definition header.
pub struct ColumnDefinitionsView {
    pub header_length: u32,
    pub version: u16,
    pub filler: u8,
    pub number_of_columns: u16,
    pub column_widths: Seq<u32>,
}

impl ColumnDefinitionsView {
    /// The width table lists exactly one width per declared column.
    pub open spec fn wf(self) -> bool {
        self.column_widths.len() == self.number_of_columns
    }
}

/// The per-file header block declaring how many columns each row has and the
/// declared byte width of each (or `VARIABLE_WIDTH` for length-prefixed ones).
#[derive(Debug)]
pub struct ColumnDefinitions {
    pub header_length: u32,
    pub version: u16,
    pub filler: u8,
    pub number_of_columns: u16,
    pub column_widths: Vec<u32>,
}

impl View for ColumnDefinitions {
    type V = ColumnDefinitionsView;

    open spec fn view(&self) -> ColumnDefinitionsView {
        ColumnDefinitionsView {
            header_length: self.header_length,
            version: self.version,
            filler: self.filler,
            number_of_columns: self.number_of_columns,
            column_widths: self.column_widths@,
        }
    }
}

/// What a column-definition header starting at `pos` in `data` means:
/// `None` when the input ends before the header does, otherwise the parsed
/// header and the position of the first byte after it.
pub open spec fn spec_parse_defs(data: Seq<u8>, pos: int) -> Option<(ColumnDefinitionsView, int)> {
    if pos + 9 > data.len() {
        None
    } else {
        let count = le16_at(data, pos + 7) as int;
        if pos + 9 + 4 * count > data.len() {
            None
        } else {
            Some(
                (
                    ColumnDefinitionsView {
                        header_length: le32_at(data, pos),
                        version: le16_at(data, pos + 4),
                        filler: data[pos + 6],
                        number_of_columns: le16_at(data, pos + 7),
                        column_widths: Seq::new(
                            count as nat,
                            |i: int| le32_at(data, pos + 9 + 4 * i),
                        ),
                    },
                    pos + 9 + 4 * count,
                ),
            )
        }
    }
}

/// The encoding of a width table: each width as four little-endian bytes,
/// in column order.
pub open spec fn encode_widths(widths: Seq<u32>) -> Seq<u8>
    decreases widths.len(),
{
    if widths.len() == 0 {
        Seq::empty()
    } else {
        u32_le_bytes(widths[0]) + encode_widths(widths.drop_first())
    }
}

/// The encoding of a column-definition header: the four scalar fields then
/// the width table, all little-endian.
pub open spec fn encode_defs(d: ColumnDefinitionsView) -> Seq<u8> {
    u32_le_bytes(d.header_length) + u16_le_bytes(d.version) + seq![d.filler]
        + u16_le_bytes(d.number_of_columns) + encode_widths(d.column_widths)
}

pub proof fn lemma_encode_widths_len(widths: Seq<u32>)
    ensures
        encode_widths(widths).len() == 4 * widths.len(),
    decreases widths.len(),
{
    if widths.len() > 0 {
        lemma_encode_widths_len(widths.drop_first());
    }
}

pub proof fn lemma_encode_widths_snoc(widths: Seq<u32>, w: u32)
    ensures
        encode_widths(widths.push(w)) == encode_widths(widths) + u32_le_bytes(w),
    decreases widths.len(),
{
    if widths.len() == 0 {
        assert(widths.push(w)[0] == w);
        assert(widths.push(w).drop_first() =~= widths);
        assert(encode_widths(widths) == Seq::<u8>::empty());
        assert(encode_widths(widths.push(w)) =~= encode_widths(widths) + u32_le_bytes(w));
    } else {
        assert(widths.push(w).drop_first() =~= widths.drop_first().push(w));
        lemma_encode_widths_snoc(widths.drop_first(), w);
        assert(widths.push(w)[0] == widths[0]);
        assert(encode_widths(widths.push(w)) =~= encode_widths(widths) + u32_le_bytes(w));
    }
}

pub proof fn lemma_encode_widths_index(widths: Seq<u32>, i: int)
    requires
        0 <= i < widths.len(),
    ensures
        encode_widths(widths).subrange(4 * i, 4 * i + 4) == u32_le_bytes(widths[i]),
    decreases i,
{
    lemma_encode_widths_len(widths);
    lemma_encode_widths_len(widths.drop_first());
    if i == 0 {
        assert(encode_widths(widths).subrange(0, 4) =~= u32_le_bytes(widths[0]));
    } else {
        lemma_encode_widths_index(widths.drop_first(), i - 1);
        assert(encode_widths(widths).subrange(4 * i, 4 * i + 4) =~= encode_widths(
            widths.drop_first(),
        ).subrange(4 * (i - 1), 4 * (i - 1) + 4));
    }
}

impl ColumnDefinitions {
    /// Reads, in order: header length (`u32`), version (`u16`), one reserved
    /// byte, column count (`u16`), then one `u32` width per column; fails
    /// with `Truncated`, leaving the cursor where it started, exactly when
    /// the input ends inside the header.
    pub fn from_reader(reader: &mut ByteReader) -> (res: Result<ColumnDefinitions, FormatError>)
        requires
            old(reader).wf(),
        ensures
            final(reader).wf(),
            final(reader).data@ == old(reader).data@,
            match res {
                Ok(d) => {
                    &&& spec_parse_defs(old(reader).data@, old(reader).pos as int) == Some(
                        (d@, final(reader).pos as int),
                    )
                    &&& d@.wf()
                },
                Err(e) => {
                    &&& e == FormatError::Truncated
                    &&& spec_parse_defs(old(reader).data@, old(reader).pos as int) is None
                    &&& final(reader).pos == old(reader).pos
                },
            },
    {
        let start: usize = reader.pos;
        let header_length = match read_u32(reader) {
            Ok(v) => v,
            Err(_) => {
                reader.pos = start;
                return Err(FormatError::Truncated);
            },
        };
        let version = match read_u16(reader) {
            Ok(v) => v,
            Err(_) => {
                reader.pos = start;
                return Err(FormatError::Truncated);
            },
        };
        let filler = match read_u8(reader) {
            Ok(v) => v,
            Err(_) => {
                reader.pos = start;
                return Err(FormatError::Truncated);
            },
        };
        let number_of_columns = match read_u16(reader) {
            Ok(v) => v,
            Err(_) => {
                reader.pos = start;
                return Err(FormatError::Truncated);
            },
        };
        let n = number_of_columns as usize;
        let mut column_widths: Vec<u32> = Vec::new();
        let mut i: usize = 0;
        while i < n
            invariant
                i <= n,
                reader.wf(),
                reader.data@ == old(reader).data@,
                start == old(reader).pos,
                n == le16_at(old(reader).data@, start + 7),
                start + 9 <= reader.data@.len(),
                reader.pos == start + 9 + 4 * i,
                column_widths@.len() == i,
                forall|j: int|
                    0 <= j < i ==> column_widths@[j] == le32_at(old(reader).data@, start + 9 + 4 * j),
            decreases n - i,
        {
            let w = match read_u32(reader) {
                Ok(v) => v,
                Err(_) => {
                    proof {
                        assert(4 * i + 4 <= 4 * n);
                    }
                    reader.pos = start;
                    return Err(FormatError::Truncated);
                },
            };
            column_widths.push(w);
            i = i + 1;
        }
        let d = ColumnDefinitions { header_length, version, filler, number_of_columns, column_widths };
        proof {
            let data = old(reader).data@;
            let widths = Seq::new(n as nat, |j: int| le32_at(data, start + 9 + 4 * j));
            assert(d@.column_widths =~= widths);
        }
        Ok(d)
    }

    /// The exact bytes to emit for this header when reproducing a file:
    /// `encode_defs` of its content.
    pub fn generate_output(&self) -> (res: Result<Vec<u8>, FormatError>)
        requires
            self@.wf(),
        ensures
            match res {
                Ok(v) => v@ == encode_defs(self@),
                Err(_) => false,
            },
    {
        let mut record: Vec<u8> = Vec::new();
        push_u32_le(&mut record, self.header_length);
        push_u16_le(&mut record, self.version);
        record.push(self.filler);
        push_u16_le(&mut record, self.number_of_columns);
        let ghost prefix = record@;
        proof {
            assert(prefix =~= u32_le_bytes(self.header_length) + u16_le_bytes(self.version)
                + seq![self.filler] + u16_le_bytes(self.number_of_columns));
            assert(record@ == prefix + encode_widths(self.column_widths@.take(0)));
        }
        let mut i: usize = 0;
        while i < self.column_widths.len()
            invariant
                i <= self.column_widths@.len(),
                prefix == u32_le_bytes(self.header_length) + u16_le_bytes(self.version)
                    + seq![self.filler] + u16_le_bytes(self.number_of_columns),
                record@ == prefix + encode_widths(self.column_widths@.take(i as int)),
            decreases self.column_widths@.len() - i,
        {
            push_u32_le(&mut record, self.column_widths[i]);
            proof {
                let s = self.column_widths@;
                lemma_encode_widths_snoc(s.take(i as int), s[i as int]);
                assert(s.take(i + 1) =~= s.take(i as int).push(s[i as int]));
                assert(record@ =~= prefix + encode_widths(s.take(i + 1)));
            }
            i = i + 1;
        }
        proof {
            assert(self.column_widths@.take(self.column_widths@.len() as int)
                =~= self.column_widths@);
            assert(record@ =~= encode_defs(self@));
        }
        Ok(record)
    }
}

/// An encoded header standing at `pos` inside a larger input parses back to
/// the header it came from, consuming exactly its own bytes.
pub proof fn lemma_parse_encoded_defs(d: ColumnDefinitionsView, data: Seq<u8>, pos: int)
    requires
        d.wf(),
        0 <= pos,
        pos + encode_defs(d).len() <= data.len(),
        data.subrange(pos, pos + encode_defs(d).len() as int) == encode_defs(d),
    ensures
        spec_parse_defs(data, pos) == Some((d, pos + encode_defs(d).len())),
{
    lemma_encode_widths_len(d.column_widths);
    let enc = encode_defs(d);
    let n = d.column_widths.len() as int;
    assert(enc.len() == 9 + 4 * n);
    assert forall|k: int| 0 <= k < enc.len() implies data[pos + k] == enc[k] by {
        assert(data.subrange(pos, pos + enc.len() as int)[k] == data[pos + k]);
    }
    let hb = u32_le_bytes(d.header_length);
    let vb = u16_le_bytes(d.version);
    let cb = u16_le_bytes(d.number_of_columns);
    assert(enc[0] == hb[0] && enc[1] == hb[1] && enc[2] == hb[2] && enc[3] == hb[3]);
    assert(enc[4] == vb[0] && enc[5] == vb[1]);
    assert(enc[6] == d.filler);
    assert(enc[7] == cb[0] && enc[8] == cb[1]);
    lemma_le32_of_bytes(d.header_length);
    lemma_le16_of_bytes(d.version);
    lemma_le16_of_bytes(d.number_of_columns);
    assert(le32_at(data, pos) == d.header_length);
    assert(le16_at(data, pos + 4) == d.version);
    assert(data[pos + 6] == d.filler);
    assert(le16_at(data, pos + 7) == d.number_of_columns);
    assert forall|i: int| 0 <= i < n implies le32_at(data, pos + 9 + 4 * i)
        == d.column_widths[i] by {
        lemma_encode_widths_index(d.column_widths, i);
        let wb = u32_le_bytes(d.column_widths[i]);
        let ew = encode_widths(d.column_widths);
        assert forall|k: int| 0 <= k < 4 implies ew[4 * i + k] == wb[k] by {
            assert(ew.subrange(4 * i, 4 * i + 4)[k] == ew[4 * i + k]);
        }
        assert(enc[9 + 4 * i] == ew[4 * i]);
        assert(enc[9 + 4 * i + 1] == ew[4 * i + 1]);
        assert(enc[9 + 4 * i + 2] == ew[4 * i + 2]);
        assert(enc[9 + 4 * i + 3] == ew[4 * i + 3]);
        lemma_le32_of_bytes(d.column_widths[i]);
    }
    match spec_parse_defs(data, pos) {
        Some((p, end)) => {
            assert(p.column_widths =~= d.column_widths);
            assert(end == pos + enc.len());
        },
        None => {
            assert(false);
        },
    }
}

/// Round trip: a well-formed column-definition header, encoded and parsed
/// again, yields the same header and consumes exactly the encoded bytes.
pub proof fn lemma_defs_roundtrip(d: ColumnDefinitionsView)
    requires
        d.wf(),
    ensures
        spec_parse_defs(encode_defs(d), 0) == Some((d, encode_defs(d).len() as int)),
{
    let enc = encode_defs(d);
    assert(enc.subrange(0, enc.len() as int) =~= enc);
    lemma_parse_encoded_defs(d, enc, 0);
}

} // verus!
