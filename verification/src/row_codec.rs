use vstd::prelude::*;

use crate::bytes::{le32_at, lemma_le32_of_bytes, u32_le_bytes};
use crate::column_definitions::VARIABLE_WIDTH;

verus! {

/// The mathematical content of one decoded row: its null bitmap, the payload
/// byte length of each column (0 for a null column), and the concatenated
/// payload bytes of all non-null columns in column order.
pub struct RowView {
    pub bitfield: Seq<u8>,
    pub lengths: Seq<u32>,
    pub data: Seq<u8>,
}

/// The partial result of decoding the columns of a row from some column
/// index on: their payload bytes, their lengths, and the position of the
/// first byte after them.
pub struct ColsView {
    pub data: Seq<u8>,
    pub lengths: Seq<u32>,
    pub end: int,
}

/// What one attempted row decode yields: a clean end of the sequence, a row
/// cut short by the end of the input, or a row and the position after it.
pub enum RowStep {
    End,
    Fail,
    Next(RowView, int),
}

/// How many bitmap bytes a row carries for `ncols` columns.
pub open spec fn bitfield_len(ncols: int) -> int {
    (ncols + 7) / 8
}

/// Whether column `i` is null under `bitfield`: bits are scanned
/// most-significant-bit first, so column `i` sits in byte `i / 8` at bit
/// `7 - i % 8`.
pub open spec fn is_null(bitfield: Seq<u8>, i: int) -> bool {
    (bitfield[i / 8] >> ((7 - (i % 8)) as u8)) & 1 == 1
}

/// The null flag of each of the first `ncols` columns under `bitfield`.
pub open spec fn null_flags(bitfield: Seq<u8>, ncols: int) -> Seq<bool> {
    Seq::new(ncols as nat, |i: int| is_null(bitfield, i))
}

/// The byte offset in a row's payload buffer at which column `i` starts:
/// the sum of the lengths of the columns before it.
pub open spec fn col_offset(lengths: Seq<u32>, i: int) -> int
    decreases i,
{
    if i <= 0 {
        0
    } else {
        col_offset(lengths, i - 1) + lengths[i - 1]
    }
}

/// A row is well formed for a width table when it has one length per column,
/// a bitmap of exactly the right size, no payload for null columns, the
/// declared width for non-null fixed columns, and a payload buffer holding
/// exactly the lengths' total.
pub open spec fn wf_row(r: RowView, widths: Seq<u32>) -> bool {
    &&& r.lengths.len() == widths.len()
    &&& r.bitfield.len() == bitfield_len(widths.len() as int)
    &&& forall|i: int|
        0 <= i < widths.len() && is_null(r.bitfield, i) ==> r.lengths[i] == 0
    &&& forall|i: int|
        0 <= i < widths.len() && !is_null(r.bitfield, i) && widths[i] != VARIABLE_WIDTH
            ==> r.lengths[i] == widths[i]
    &&& r.data.len() == col_offset(r.lengths, widths.len() as int)
}

/// Decodes the columns of a row from column `i` on, starting at `pos`:
/// a null column contributes nothing, a variable-width column reads a
/// four-byte length then that many payload bytes, and a fixed column reads
/// its declared width; `None` when the input ends first.
pub open spec fn spec_decode_columns(
    data: Seq<u8>,
    pos: int,
    widths: Seq<u32>,
    nulls: Seq<bool>,
    i: int,
) -> Option<ColsView>
    decreases widths.len() - i,
{
    if i >= widths.len() {
        Some(ColsView { data: Seq::empty(), lengths: Seq::empty(), end: pos })
    } else if nulls[i] {
        match spec_decode_columns(data, pos, widths, nulls, i + 1) {
            Some(c) => Some(ColsView { data: c.data, lengths: seq![0u32] + c.lengths, end: c.end }),
            None => None,
        }
    } else if widths[i] == VARIABLE_WIDTH {
        if pos + 4 > data.len() {
            None
        } else {
            let l = le32_at(data, pos) as int;
            if pos + 4 + l > data.len() {
                None
            } else {
                match spec_decode_columns(data, pos + 4 + l, widths, nulls, i + 1) {
                    Some(c) => Some(
                        ColsView {
                            data: data.subrange(pos + 4, pos + 4 + l) + c.data,
                            lengths: seq![le32_at(data, pos)] + c.lengths,
                            end: c.end,
                        },
                    ),
                    None => None,
                }
            }
        }
    } else {
        let w = widths[i] as int;
        if pos + w > data.len() {
            None
        } else {
            match spec_decode_columns(data, pos + w, widths, nulls, i + 1) {
                Some(c) => Some(
                    ColsView {
                        data: data.subrange(pos, pos + w) + c.data,
                        lengths: seq![widths[i]] + c.lengths,
                        end: c.end,
                    },
                ),
                None => None,
            }
        }
    }
}

/// Decodes the body of a row (bitmap then columns) starting at `pos`;
/// `None` when the input ends inside it.
pub open spec fn spec_decode_row_body(data: Seq<u8>, pos: int, widths: Seq<u32>) -> Option<
    (RowView, int),
> {
    let blen = bitfield_len(widths.len() as int);
    if pos + blen > data.len() {
        None
    } else {
        let bitfield = data.subrange(pos, pos + blen);
        match spec_decode_columns(data, pos + blen, widths, null_flags(bitfield, widths.len() as int), 0) {
            Some(c) => Some((RowView { bitfield, lengths: c.lengths, data: c.data }, c.end)),
            None => None,
        }
    }
}

/// Decodes one row at `pos`: fewer than four bytes left or a zero
/// row-length prefix end the sequence; a body cut short fails; otherwise
/// the row and the position after it.
pub open spec fn spec_decode_row(data: Seq<u8>, pos: int, widths: Seq<u32>) -> RowStep {
    if pos + 4 > data.len() {
        RowStep::End
    } else if le32_at(data, pos) == 0 {
        RowStep::End
    } else {
        match spec_decode_row_body(data, pos + 4, widths) {
            Some((r, end)) => RowStep::Next(r, end),
            None => RowStep::Fail,
        }
    }
}

/// The sequence of rows decodable from `pos` on: decoding stops at a clean
/// end of sequence and at a truncated row alike.
pub open spec fn spec_rows_from(data: Seq<u8>, pos: int, widths: Seq<u32>) -> Seq<RowView>
    decreases data.len() - pos,
    when 0 <= pos <= data.len()
{
    match spec_decode_row(data, pos, widths) {
        RowStep::Next(r, end) => if pos < end <= data.len() {
            seq![r] + spec_rows_from(data, end, widths)
        } else {
            seq![r]
        },
        _ => Seq::empty(),
    }
}

pub proof fn lemma_col_offset_nonneg(lengths: Seq<u32>, i: int)
    ensures
        col_offset(lengths, i) >= 0,
    decreases i,
{
    if i > 0 {
        lemma_col_offset_nonneg(lengths, i - 1);
    }
}

pub proof fn lemma_col_offset_mono(lengths: Seq<u32>, i: int, j: int)
    requires
        i <= j,
    ensures
        col_offset(lengths, i) <= col_offset(lengths, j),
    decreases j - i,
{
    if i < j {
        lemma_col_offset_mono(lengths, i, j - 1);
    }
}

/// `col_offset` looks only at entries before `i`, so pushing one more
/// length does not change it.
pub proof fn lemma_col_offset_push(lengths: Seq<u32>, x: u32, i: int)
    requires
        i <= lengths.len(),
    ensures
        col_offset(lengths.push(x), i) == col_offset(lengths, i),
    decreases i,
{
    if i > 0 {
        lemma_col_offset_push(lengths, x, i - 1);
    }
}

/// The offset past `m + 1` entries of a sequence starting with `x` is `x`
/// plus the offset past `m` entries of the rest.
pub proof fn lemma_col_offset_cons(x: u32, s: Seq<u32>, m: int)
    requires
        0 <= m <= s.len(),
    ensures
        col_offset(seq![x] + s, m + 1) == x + col_offset(s, m),
    decreases m,
{
    let t = seq![x] + s;
    if m == 0 {
        assert(t[0] == x);
        assert(col_offset(t, 0) == 0);
        assert(col_offset(t, 1) == col_offset(t, 0) + t[0]);
        assert(col_offset(s, 0) == 0);
    } else {
        lemma_col_offset_cons(x, s, m - 1);
        assert(t[m] == s[m - 1]);
        assert(col_offset(t, m + 1) == col_offset(t, m) + t[m]);
        assert(col_offset(s, m) == col_offset(s, m - 1) + s[m - 1]);
    }
}

/// Decoding columns never moves the cursor backwards nor past the end.
pub proof fn lemma_decode_columns_advances(
    data: Seq<u8>,
    pos: int,
    widths: Seq<u32>,
    nulls: Seq<bool>,
    i: int,
)
    requires
        0 <= pos <= data.len(),
    ensures
        match spec_decode_columns(data, pos, widths, nulls, i) {
            Some(c) => pos <= c.end <= data.len(),
            None => true,
        },
    decreases widths.len() - i,
{
    if i >= widths.len() {
    } else if nulls[i] {
        lemma_decode_columns_advances(data, pos, widths, nulls, i + 1);
    } else if widths[i] == VARIABLE_WIDTH {
        if pos + 4 <= data.len() {
            let l = le32_at(data, pos) as int;
            if pos + 4 + l <= data.len() {
                lemma_decode_columns_advances(data, pos + 4 + l, widths, nulls, i + 1);
            }
        }
    } else {
        let w = widths[i] as int;
        if pos + w <= data.len() {
            lemma_decode_columns_advances(data, pos + w, widths, nulls, i + 1);
        }
    }
}

/// A decoded row always consumes at least its four-byte prefix and never
/// reads past the end of the input.
pub proof fn lemma_decode_row_advances(data: Seq<u8>, pos: int, widths: Seq<u32>)
    requires
        0 <= pos <= data.len(),
    ensures
        match spec_decode_row(data, pos, widths) {
            RowStep::Next(r, end) => pos + 4 <= end <= data.len(),
            _ => true,
        },
{
    let blen = bitfield_len(widths.len() as int);
    assert(blen >= 0);
    if pos + 4 <= data.len() && le32_at(data, pos) != 0 {
        if pos + 4 + blen <= data.len() {
            let bitfield = data.subrange(pos + 4, pos + 4 + blen);
            lemma_decode_columns_advances(
                data,
                pos + 4 + blen,
                widths,
                null_flags(bitfield, widths.len() as int),
                0,
            );
        }
    }
}

/// What decoding the columns from `i` on guarantees of its result: one
/// length per remaining column, null columns empty, fixed columns at their
/// declared width, and a payload buffer holding exactly the lengths' total.
pub proof fn lemma_decode_columns_wf(
    data: Seq<u8>,
    pos: int,
    widths: Seq<u32>,
    nulls: Seq<bool>,
    i: int,
)
    requires
        0 <= pos <= data.len(),
        0 <= i <= widths.len(),
    ensures
        match spec_decode_columns(data, pos, widths, nulls, i) {
            Some(c) => {
                &&& c.lengths.len() == widths.len() - i
                &&& c.data.len() == col_offset(c.lengths, c.lengths.len() as int)
                &&& forall|j: int|
                    0 <= j < c.lengths.len() && nulls[i + j] ==> c.lengths[j] == 0
                &&& forall|j: int|
                    0 <= j < c.lengths.len() && !nulls[i + j] && widths[i + j] != VARIABLE_WIDTH
                        ==> c.lengths[j] == widths[i + j]
            },
            None => true,
        },
    decreases widths.len() - i,
{
    if i >= widths.len() {
    } else {
        lemma_decode_columns_wf(data, pos, widths, nulls, i + 1);
        if nulls[i] {
            match spec_decode_columns(data, pos, widths, nulls, i + 1) {
                Some(c2) => {
                    let c = spec_decode_columns(data, pos, widths, nulls, i)->Some_0;
                    lemma_col_offset_cons(0u32, c2.lengths, c2.lengths.len() as int);
                    assert forall|j: int| 0 <= j < c.lengths.len() && nulls[i + j] implies c.lengths[j]
                        == 0 by {
                        if j > 0 {
                            assert(c.lengths[j] == c2.lengths[j - 1]);
                        }
                    }
                    assert forall|j: int|
                        0 <= j < c.lengths.len() && !nulls[i + j] && widths[i + j] != VARIABLE_WIDTH
                            implies c.lengths[j] == widths[i + j] by {
                        if j > 0 {
                            assert(c.lengths[j] == c2.lengths[j - 1]);
                        }
                    }
                },
                None => {},
            }
        } else if widths[i] == VARIABLE_WIDTH {
            if pos + 4 <= data.len() {
                let l = le32_at(data, pos) as int;
                if pos + 4 + l <= data.len() {
                    lemma_decode_columns_wf(data, pos + 4 + l, widths, nulls, i + 1);
                    match spec_decode_columns(data, pos + 4 + l, widths, nulls, i + 1) {
                        Some(c2) => {
                            let c = spec_decode_columns(data, pos, widths, nulls, i)->Some_0;
                            lemma_col_offset_cons(
                                le32_at(data, pos),
                                c2.lengths,
                                c2.lengths.len() as int,
                            );
                            assert forall|j: int|
                                0 <= j < c.lengths.len() && nulls[i + j] implies c.lengths[j]
                                == 0 by {
                                if j > 0 {
                                    assert(c.lengths[j] == c2.lengths[j - 1]);
                                }
                            }
                            assert forall|j: int|
                                0 <= j < c.lengths.len() && !nulls[i + j] && widths[i + j]
                                    != VARIABLE_WIDTH implies c.lengths[j] == widths[i + j] by {
                                if j > 0 {
                                    assert(c.lengths[j] == c2.lengths[j - 1]);
                                }
                            }
                        },
                        None => {},
                    }
                }
            }
        } else {
            let w = widths[i] as int;
            if pos + w <= data.len() {
                lemma_decode_columns_wf(data, pos + w, widths, nulls, i + 1);
                match spec_decode_columns(data, pos + w, widths, nulls, i + 1) {
                    Some(c2) => {
                        let c = spec_decode_columns(data, pos, widths, nulls, i)->Some_0;
                        lemma_col_offset_cons(widths[i], c2.lengths, c2.lengths.len() as int);
                        assert forall|j: int| 0 <= j < c.lengths.len() && nulls[i + j] implies c
                            .lengths[j] == 0 by {
                            if j > 0 {
                                assert(c.lengths[j] == c2.lengths[j - 1]);
                            }
                        }
                        assert forall|j: int|
                            0 <= j < c.lengths.len() && !nulls[i + j] && widths[i + j]
                                != VARIABLE_WIDTH implies c.lengths[j] == widths[i + j] by {
                            if j > 0 {
                                assert(c.lengths[j] == c2.lengths[j - 1]);
                            }
                        }
                    },
                    None => {},
                }
            }
        }
    }
}

/// A row decoded from the input is well formed for the width table it was
/// decoded under.
pub proof fn lemma_decode_body_wf(data: Seq<u8>, pos: int, widths: Seq<u32>)
    requires
        0 <= pos,
    ensures
        match spec_decode_row_body(data, pos, widths) {
            Some((r, end)) => wf_row(r, widths),
            None => true,
        },
{
    let blen = bitfield_len(widths.len() as int);
    if pos + blen <= data.len() {
        let bitfield = data.subrange(pos, pos + blen);
        let nulls = null_flags(bitfield, widths.len() as int);
        lemma_decode_columns_wf(data, pos + blen, widths, nulls, 0);
        assert(widths.len() + 7 >= 0);
    }
}

/// The bytes a row's columns contribute to a reproduced file, from column
/// `i` on: nothing for a null column, a four-byte length then the payload
/// for a variable-width column, the bare payload for a fixed one.
pub open spec fn encode_columns(r: RowView, widths: Seq<u32>, i: int) -> Seq<u8>
    decreases widths.len() - i,
{
    if i >= widths.len() {
        Seq::empty()
    } else {
        let off = col_offset(r.lengths, i);
        let seg = r.data.subrange(off, off + r.lengths[i]);
        if is_null(r.bitfield, i) {
            encode_columns(r, widths, i + 1)
        } else if widths[i] == VARIABLE_WIDTH {
            u32_le_bytes(r.lengths[i]) + seg + encode_columns(r, widths, i + 1)
        } else {
            seg + encode_columns(r, widths, i + 1)
        }
    }
}

/// The bytes of a reproduced row after its row-length prefix: the bitmap,
/// then the columns.
pub open spec fn encode_row_body(r: RowView, widths: Seq<u32>) -> Seq<u8> {
    r.bitfield + encode_columns(r, widths, 0)
}

/// The row-length prefix written for a reproduced row: the total byte
/// length of the row record, prefix included, saturated at the largest
/// 32-bit value; it is never zero, so a reproduced row never reads back as
/// an end-of-sequence marker.
pub open spec fn row_prefix(r: RowView, widths: Seq<u32>) -> u32 {
    if 4 + encode_row_body(r, widths).len() > 0xffff_ffff {
        0xffff_ffffu32
    } else {
        (4 + encode_row_body(r, widths).len()) as u32
    }
}

/// The full encoding of one reproduced row: a freshly computed row-length
/// prefix, the bitmap, and the columns with their variable-width length
/// prefixes re-derived from the row's own lengths.
pub open spec fn encode_row(r: RowView, widths: Seq<u32>) -> Seq<u8> {
    u32_le_bytes(row_prefix(r, widths)) + encode_row_body(r, widths)
}

/// Encoded columns standing at `pos` inside a larger input decode back to
/// the columns they came from, consuming exactly their own bytes.
pub proof fn lemma_decode_encoded_columns(
    r: RowView,
    widths: Seq<u32>,
    data: Seq<u8>,
    pos: int,
    i: int,
)
    requires
        wf_row(r, widths),
        0 <= i <= widths.len(),
        0 <= pos,
        pos + encode_columns(r, widths, i).len() <= data.len(),
        data.subrange(pos, pos + encode_columns(r, widths, i).len() as int) == encode_columns(
            r,
            widths,
            i,
        ),
    ensures
        spec_decode_columns(data, pos, widths, null_flags(r.bitfield, widths.len() as int), i)
            == Some(
            ColsView {
                data: r.data.subrange(col_offset(r.lengths, i), r.data.len() as int),
                lengths: r.lengths.skip(i),
                end: pos + encode_columns(r, widths, i).len(),
            },
        ),
    decreases widths.len() - i,
{
    let nulls = null_flags(r.bitfield, widths.len() as int);
    let enc = encode_columns(r, widths, i);
    lemma_col_offset_nonneg(r.lengths, i);
    lemma_col_offset_mono(r.lengths, i, widths.len() as int);
    assert forall|k: int| 0 <= k < enc.len() implies data[pos + k] == enc[k] by {
        assert(data.subrange(pos, pos + enc.len() as int)[k] == data[pos + k]);
    }
    if i >= widths.len() {
        assert(r.data.subrange(col_offset(r.lengths, i), r.data.len() as int) =~= Seq::<
            u8,
        >::empty());
        assert(r.lengths.skip(i) =~= Seq::<u32>::empty());
    } else {
        let off = col_offset(r.lengths, i);
        let l = r.lengths[i] as int;
        let seg = r.data.subrange(off, off + l);
        let enc2 = encode_columns(r, widths, i + 1);
        assert(col_offset(r.lengths, i + 1) == off + l);
        lemma_col_offset_mono(r.lengths, i + 1, widths.len() as int);
        if is_null(r.bitfield, i) {
            assert(nulls[i]);
            assert(l == 0);
            assert(enc == enc2);
            lemma_decode_encoded_columns(r, widths, data, pos, i + 1);
            let c2 = spec_decode_columns(data, pos, widths, nulls, i + 1)->Some_0;
            assert(seq![0u32] + r.lengths.skip(i + 1) =~= r.lengths.skip(i));
            assert(spec_decode_columns(data, pos, widths, nulls, i) == Some(
                ColsView { data: c2.data, lengths: seq![0u32] + c2.lengths, end: c2.end },
            ));
        } else if widths[i] == VARIABLE_WIDTH {
            assert(!nulls[i]);
            assert(enc == u32_le_bytes(r.lengths[i]) + seg + enc2);
            assert(enc.len() == 4 + l + enc2.len());
            let lb = u32_le_bytes(r.lengths[i]);
            assert(enc[0] == lb[0] && enc[1] == lb[1] && enc[2] == lb[2] && enc[3] == lb[3]);
            lemma_le32_of_bytes(r.lengths[i]);
            assert(le32_at(data, pos) == r.lengths[i]);
            assert(data.subrange(pos + 4, pos + 4 + l) =~= seg) by {
                assert forall|k: int| 0 <= k < l implies data[pos + 4 + k] == seg[k] by {
                    assert(enc[4 + k] == seg[k]);
                }
            }
            assert(data.subrange(pos + 4 + l, pos + 4 + l + enc2.len() as int) =~= enc2) by {
                assert forall|k: int| 0 <= k < enc2.len() implies data[pos + 4 + l + k]
                    == enc2[k] by {
                    assert(enc[4 + l + k] == enc2[k]);
                }
            }
            lemma_decode_encoded_columns(r, widths, data, pos + 4 + l, i + 1);
            let c2 = spec_decode_columns(data, pos + 4 + l, widths, nulls, i + 1)->Some_0;
            assert(seg + c2.data =~= r.data.subrange(off, r.data.len() as int));
            assert(seq![r.lengths[i]] + r.lengths.skip(i + 1) =~= r.lengths.skip(i));
            assert(spec_decode_columns(data, pos, widths, nulls, i) == Some(
                ColsView {
                    data: data.subrange(pos + 4, pos + 4 + l) + c2.data,
                    lengths: seq![le32_at(data, pos)] + c2.lengths,
                    end: c2.end,
                },
            ));
        } else {
            assert(!nulls[i]);
            assert(l == widths[i]);
            assert(enc == seg + enc2);
            assert(enc.len() == l + enc2.len());
            assert(data.subrange(pos, pos + l) =~= seg) by {
                assert forall|k: int| 0 <= k < l implies data[pos + k] == seg[k] by {
                    assert(enc[k] == seg[k]);
                }
            }
            assert(data.subrange(pos + l, pos + l + enc2.len() as int) =~= enc2) by {
                assert forall|k: int| 0 <= k < enc2.len() implies data[pos + l + k] == enc2[k] by {
                    assert(enc[l + k] == enc2[k]);
                }
            }
            lemma_decode_encoded_columns(r, widths, data, pos + l, i + 1);
            let c2 = spec_decode_columns(data, pos + l, widths, nulls, i + 1)->Some_0;
            assert(seg + c2.data =~= r.data.subrange(off, r.data.len() as int));
            assert(seq![r.lengths[i]] + r.lengths.skip(i + 1) =~= r.lengths.skip(i));
            assert(spec_decode_columns(data, pos, widths, nulls, i) == Some(
                ColsView {
                    data: data.subrange(pos, pos + l) + c2.data,
                    lengths: seq![widths[i]] + c2.lengths,
                    end: c2.end,
                },
            ));
        }
    }
}

/// An encoded row standing at `pos` inside a larger input decodes back to
/// the row it came from, consuming exactly its own bytes.
pub proof fn lemma_decode_encoded_row(r: RowView, widths: Seq<u32>, data: Seq<u8>, pos: int)
    requires
        wf_row(r, widths),
        0 <= pos,
        pos + encode_row(r, widths).len() <= data.len(),
        data.subrange(pos, pos + encode_row(r, widths).len() as int) == encode_row(r, widths),
    ensures
        spec_decode_row(data, pos, widths) == RowStep::Next(r, pos + encode_row(r, widths).len()),
{
    let enc = encode_row(r, widths);
    let body = encode_row_body(r, widths);
    let cols = encode_columns(r, widths, 0);
    let pfx = row_prefix(r, widths);
    let blen = bitfield_len(widths.len() as int);
    assert(blen >= 0);
    assert(r.bitfield.len() == blen);
    assert(enc.len() == 4 + blen + cols.len());
    assert forall|k: int| 0 <= k < enc.len() implies data[pos + k] == enc[k] by {
        assert(data.subrange(pos, pos + enc.len() as int)[k] == data[pos + k]);
    }
    let pb = u32_le_bytes(pfx);
    assert(enc[0] == pb[0] && enc[1] == pb[1] && enc[2] == pb[2] && enc[3] == pb[3]);
    lemma_le32_of_bytes(pfx);
    assert(le32_at(data, pos) == pfx);
    assert(pfx != 0);
    assert(data.subrange(pos + 4, pos + 4 + blen) =~= r.bitfield) by {
        assert forall|k: int| 0 <= k < blen implies data[pos + 4 + k] == r.bitfield[k] by {
            assert(enc[4 + k] == body[k]);
            assert(body[k] == r.bitfield[k]);
        }
    }
    assert(data.subrange(pos + 4 + blen, pos + 4 + blen + cols.len() as int) =~= cols) by {
        assert forall|k: int| 0 <= k < cols.len() implies data[pos + 4 + blen + k] == cols[k] by {
            assert(enc[4 + blen + k] == body[blen + k]);
            assert(body[blen + k] == cols[k]);
        }
    }
    lemma_decode_encoded_columns(r, widths, data, pos + 4 + blen, 0);
    let nulls = null_flags(r.bitfield, widths.len() as int);
    let c = spec_decode_columns(data, pos + 4 + blen, widths, nulls, 0)->Some_0;
    assert(r.data.subrange(col_offset(r.lengths, 0), r.data.len() as int) =~= r.data);
    assert(r.lengths.skip(0) =~= r.lengths);
    assert(c.end == pos + enc.len());
    match spec_decode_row_body(data, pos + 4, widths) {
        Some((rr, end)) => {
            assert(rr.bitfield == r.bitfield);
            assert(rr.lengths == r.lengths);
            assert(rr.data == r.data);
            assert(end == pos + enc.len());
        },
        None => {
            assert(false);
        },
    }
}

} // verus!
