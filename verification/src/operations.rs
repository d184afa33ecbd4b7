use vstd::prelude::*;

use crate::byte_reader::ByteReader;
use crate::bytes::push_bytes;
use crate::column_definitions::encode_defs;
use crate::column_definitions::lemma_parse_encoded_defs;
use crate::column_definitions::ColumnDefinitionsView;
use crate::file_signature::signature_bytes;
use crate::file_signature::SIGNATURE_LENGTH;
use crate::format::FormatError;
use crate::row_codec::encode_row;
use crate::row_codec::lemma_decode_body_wf;
use crate::row_codec::lemma_decode_encoded_row;
use crate::row_codec::lemma_decode_row_advances;
use crate::row_codec::spec_decode_row;
use crate::row_codec::spec_rows_from;
use crate::row_codec::wf_row;
use crate::row_codec::RowStep;
use crate::row_codec::RowView;
use crate::vertica_native_file::spec_open;
use crate::vertica_native_file::VerticaNativeFile;

verus! {

/// The encodings of a sequence of reproduced rows, one after the other.
pub open spec fn encode_rows(rows: Seq<RowView>, widths: Seq<u32>) -> Seq<u8>
    decreases rows.len(),
{
    if rows.len() == 0 {
        Seq::empty()
    } else {
        encode_row(rows[0], widths) + encode_rows(rows.drop_first(), widths)
    }
}

pub proof fn lemma_encode_rows_snoc(rows: Seq<RowView>, r: RowView, widths: Seq<u32>)
    ensures
        encode_rows(rows.push(r), widths) == encode_rows(rows, widths) + encode_row(r, widths),
    decreases rows.len(),
{
    if rows.len() == 0 {
        assert(rows.push(r)[0] == r);
        assert(rows.push(r).drop_first() =~= rows);
        assert(encode_rows(rows, widths) == Seq::<u8>::empty());
        assert(encode_rows(rows.push(r), widths) =~= encode_rows(rows, widths) + encode_row(
            r,
            widths,
        ));
    } else {
        assert(rows.push(r).drop_first() =~= rows.drop_first().push(r));
        lemma_encode_rows_snoc(rows.drop_first(), r, widths);
        assert(rows.push(r)[0] == rows[0]);
        assert(encode_rows(rows.push(r), widths) =~= encode_rows(rows, widths) + encode_row(
            r,
            widths,
        ));
    }
}

/// What a whole native file means: its column definitions, the position of
/// its first row, and its decodable rows; or the error its header yields.
pub open spec fn spec_file(data: Seq<u8>) -> Result<
    (ColumnDefinitionsView, int, Seq<RowView>),
    FormatError,
> {
    match spec_open(data, 0) {
        Ok((d, end)) => Ok((d, end, spec_rows_from(data, end, d.column_widths))),
        Err(e) => Err(e),
    }
}

/// Each decoded row consumes at least its four-byte row-length prefix, so
/// the row count is bounded by a quarter of the remaining input.
pub proof fn lemma_rows_from_bound(data: Seq<u8>, pos: int, widths: Seq<u32>)
    requires
        0 <= pos <= data.len(),
    ensures
        4 * spec_rows_from(data, pos, widths).len() <= data.len() - pos,
    decreases data.len() - pos,
{
    match spec_decode_row(data, pos, widths) {
        RowStep::Next(r, end) => {
            lemma_decode_row_advances(data, pos, widths);
            lemma_rows_from_bound(data, end, widths);
        },
        _ => {},
    }
}

/// Every row the input yields is well formed for the width table it was
/// decoded under.
pub proof fn lemma_rows_from_wf(data: Seq<u8>, pos: int, widths: Seq<u32>)
    requires
        0 <= pos <= data.len(),
    ensures
        forall|i: int|
            0 <= i < spec_rows_from(data, pos, widths).len() ==> wf_row(
                spec_rows_from(data, pos, widths)[i],
                widths,
            ),
    decreases data.len() - pos,
{
    match spec_decode_row(data, pos, widths) {
        RowStep::Next(r, end) => {
            lemma_decode_row_advances(data, pos, widths);
            lemma_decode_body_wf(data, pos + 4, widths);
            lemma_rows_from_wf(data, end, widths);
            let rows = spec_rows_from(data, pos, widths);
            let rest = spec_rows_from(data, end, widths);
            assert forall|i: int| 0 <= i < rows.len() implies wf_row(rows[i], widths) by {
                if i > 0 {
                    assert(rows[i] == rest[i - 1]);
                }
            }
        },
        _ => {},
    }
}

/// A reader over a private copy of the input bytes, positioned at the start.
fn open_reader(input: &Vec<u8>) -> (r: ByteReader)
    ensures
        r.data@ == input@,
        r.pos == 0,
        r.wf(),
{
    let mut data: Vec<u8> = Vec::new();
    push_bytes(&mut data, input, 0, input.len());
    proof {
        assert(input@.subrange(0, input@.len() as int) =~= input@);
        assert(data@ =~= input@);
    }
    ByteReader::new(data)
}

/// Counts the rows of a native file: exactly the number of rows its byte
/// content yields before the end of the sequence, or the header's parse
/// error.
pub fn count_rows(input: &Vec<u8>) -> (res: Result<usize, FormatError>)
    ensures
        match res {
            Ok(n) => spec_file(input@) matches Ok((d, end, rows)) && n == rows.len(),
            Err(e) => spec_file(input@) == Err::<(ColumnDefinitionsView, int, Seq<RowView>), _>(e),
        },
{
    let reader = open_reader(input);
    let mut file = match VerticaNativeFile::from_reader(reader) {
        Ok(f) => f,
        Err(e) => {
            return Err(e);
        },
    };
    let _input_len = input.len();
    let ghost data = input@;
    let ghost widths = file.definitions@.column_widths;
    let ghost rows = spec_rows_from(data, file.reader.pos as int, widths);
    proof {
        lemma_rows_from_bound(data, file.reader.pos as int, widths);
    }
    let mut count: usize = 0;
    loop
        invariant
            file.wf(),
            file.reader.data@ == data,
            data == input@,
            data.len() <= usize::MAX,
            widths == file.definitions@.column_widths,
            rows == spec_file(input@)->Ok_0.2,
            spec_file(input@) is Ok,
            spec_file(input@)->Ok_0.0 == file.definitions@,
            4 * rows.len() <= data.len(),
            count <= rows.len(),
            spec_rows_from(data, file.reader.pos as int, widths) == rows.skip(count as int),
        ensures
            count == rows.len(),
        decreases data.len() - file.reader.pos,
    {
        let ghost p = file.reader.pos as int;
        match file.next() {
            Some(_row) => {
                proof {
                    let p2 = file.reader.pos as int;
                    assert(spec_rows_from(data, p, widths) == seq![_row@] + spec_rows_from(
                        data,
                        p2,
                        widths,
                    ));
                    assert((seq![_row@] + spec_rows_from(data, p2, widths)).drop_first()
                        =~= spec_rows_from(data, p2, widths));
                    assert(rows.skip(count as int).drop_first() =~= rows.skip(count as int + 1));
                    assert(rows.skip(count as int).len() > 0);
                }
                count = count + 1;
            },
            None => {
                proof {
                    assert(spec_rows_from(data, p, widths) =~= Seq::<RowView>::empty());
                    assert(rows.skip(count as int).len() == 0);
                }
                break ;
            },
        }
    }
    Ok(count)
}

/// Emits a structurally valid native file holding the first
/// `min(n, count)` rows of the input, in their original order: the
/// signature, the re-encoded column definitions, then each selected row
/// with freshly computed length prefixes. Fails with the header's parse
/// error exactly when the input does not open.
pub fn head(input: &Vec<u8>, n: usize) -> (res: Result<Vec<u8>, FormatError>)
    ensures
        match res {
            Ok(out) => spec_file(input@) matches Ok((d, end, rows)) && ({
                let k = if (n as int) < rows.len() {
                    n as int
                } else {
                    rows.len() as int
                };
                out@ == signature_bytes() + encode_defs(d) + encode_rows(
                    rows.take(k),
                    d.column_widths,
                )
            }),
            Err(e) => spec_file(input@) == Err::<(ColumnDefinitionsView, int, Seq<RowView>), _>(e),
        },
{
    let reader = open_reader(input);
    let mut file = match VerticaNativeFile::from_reader(reader) {
        Ok(f) => f,
        Err(e) => {
            return Err(e);
        },
    };
    let _input_len = input.len();
    let ghost data = input@;
    let ghost widths = file.definitions@.column_widths;
    let ghost rows = spec_rows_from(data, file.reader.pos as int, widths);
    proof {
        lemma_rows_from_bound(data, file.reader.pos as int, widths);
    }
    let mut out = match file.generate_output() {
        Ok(v) => v,
        Err(e) => {
            return Err(e);
        },
    };
    let ghost header = signature_bytes() + encode_defs(file.definitions@);
    proof {
        assert(rows.take(0) =~= Seq::<RowView>::empty());
        assert(out@ + encode_rows(rows.take(0), widths) =~= out@);
        assert(out@ =~= header + encode_rows(rows.take(0), widths));
    }
    let mut taken: usize = 0;
    while taken < n
        invariant
            taken <= n,
            file.wf(),
            file.reader.data@ == data,
            data == input@,
            data.len() <= usize::MAX,
            widths == file.definitions@.column_widths,
            rows == spec_file(input@)->Ok_0.2,
            spec_file(input@) is Ok,
            spec_file(input@)->Ok_0.0 == file.definitions@,
            header == signature_bytes() + encode_defs(file.definitions@),
            4 * rows.len() <= data.len(),
            taken <= rows.len(),
            spec_rows_from(data, file.reader.pos as int, widths) == rows.skip(taken as int),
            out@ == header + encode_rows(rows.take(taken as int), widths),
        ensures
            file.wf(),
            taken as int == (if (n as int) < rows.len() {
                n as int
            } else {
                rows.len() as int
            }),
            out@ == header + encode_rows(rows.take(taken as int), widths),
            header == signature_bytes() + encode_defs(spec_file(input@)->Ok_0.0),
            rows == spec_file(input@)->Ok_0.2,
            spec_file(input@) is Ok,
        decreases n - taken,
    {
        let ghost p = file.reader.pos as int;
        match file.next() {
            Some(row) => {
                proof {
                    let p2 = file.reader.pos as int;
                    assert(spec_rows_from(data, p, widths) == seq![row@] + spec_rows_from(
                        data,
                        p2,
                        widths,
                    ));
                    assert((seq![row@] + spec_rows_from(data, p2, widths)).drop_first()
                        =~= spec_rows_from(data, p2, widths));
                    assert(rows.skip(taken as int).drop_first() =~= rows.skip(taken as int + 1));
                    assert(rows.skip(taken as int).len() > 0);
                    assert(rows.skip(taken as int)[0] == rows[taken as int]);
                    assert(row@ == rows[taken as int]);
                    assert(rows.take(taken as int + 1) =~= rows.take(taken as int).push(
                        rows[taken as int],
                    ));
                    lemma_encode_rows_snoc(rows.take(taken as int), rows[taken as int], widths);
                }
                let mut rec = row.encode_record(&file.definitions.column_widths);
                let ghost old_out = out@;
                out.append(&mut rec);
                proof {
                    assert(out@ =~= header + encode_rows(rows.take(taken as int + 1), widths));
                }
                taken = taken + 1;
            },
            None => {
                proof {
                    assert(spec_rows_from(data, p, widths) =~= Seq::<RowView>::empty());
                    assert(rows.skip(taken as int).len() == 0);
                }
                break ;
            },
        }
    }
    Ok(out)
}

/// Emits a structurally valid native file holding the last `min(n, count)`
/// rows of the input, in their original order, by counting in a first pass
/// and skipping `count - min(n, count)` rows in a second. Fails with the
/// header's parse error exactly when the input does not open.
pub fn tail(input: &Vec<u8>, n: usize) -> (res: Result<Vec<u8>, FormatError>)
    ensures
        match res {
            Ok(out) => spec_file(input@) matches Ok((d, end, rows)) && ({
                let k = if (n as int) < rows.len() {
                    n as int
                } else {
                    rows.len() as int
                };
                out@ == signature_bytes() + encode_defs(d) + encode_rows(
                    rows.skip(rows.len() - k),
                    d.column_widths,
                )
            }),
            Err(e) => spec_file(input@) == Err::<(ColumnDefinitionsView, int, Seq<RowView>), _>(e),
        },
{
    let total = match count_rows(input) {
        Ok(c) => c,
        Err(e) => {
            return Err(e);
        },
    };
    let to_skip: usize = if n < total {
        total - n
    } else {
        0
    };
    let reader = open_reader(input);
    let mut file = match VerticaNativeFile::from_reader(reader) {
        Ok(f) => f,
        Err(e) => {
            proof {
                assert(false);
            }
            return Err(e);
        },
    };
    let _input_len = input.len();
    let ghost data = input@;
    let ghost widths = file.definitions@.column_widths;
    let ghost rows = spec_rows_from(data, file.reader.pos as int, widths);
    proof {
        lemma_rows_from_bound(data, file.reader.pos as int, widths);
        assert(rows.len() == total);
    }
    let mut out = match file.generate_output() {
        Ok(v) => v,
        Err(e) => {
            return Err(e);
        },
    };
    let ghost header = signature_bytes() + encode_defs(file.definitions@);
    let mut skipped: usize = 0;
    while skipped < to_skip
        invariant
            skipped <= to_skip,
            to_skip <= rows.len(),
            file.wf(),
            file.reader.data@ == data,
            data == input@,
            widths == file.definitions@.column_widths,
            rows == spec_file(input@)->Ok_0.2,
            spec_file(input@) is Ok,
            spec_file(input@)->Ok_0.0 == file.definitions@,
            header == signature_bytes() + encode_defs(file.definitions@),
            out@ == header,
            spec_rows_from(data, file.reader.pos as int, widths) == rows.skip(skipped as int),
        decreases to_skip - skipped,
    {
        let ghost p = file.reader.pos as int;
        match file.next() {
            Some(_row) => {
                proof {
                    let p2 = file.reader.pos as int;
                    assert(spec_rows_from(data, p, widths) == seq![_row@] + spec_rows_from(
                        data,
                        p2,
                        widths,
                    ));
                    assert((seq![_row@] + spec_rows_from(data, p2, widths)).drop_first()
                        =~= spec_rows_from(data, p2, widths));
                    assert(rows.skip(skipped as int).drop_first() =~= rows.skip(
                        skipped as int + 1,
                    ));
                }
                skipped = skipped + 1;
            },
            None => {
                proof {
                    assert(rows.skip(skipped as int).len() > 0);
                    assert(false);
                }
                return Err(FormatError::Truncated);
            },
        }
    }
    let ghost kept = rows.skip(to_skip as int);
    proof {
        assert(kept.take(0) =~= Seq::<RowView>::empty());
        assert(out@ + encode_rows(kept.take(0), widths) =~= out@);
    }
    let mut emitted: usize = 0;
    loop
        invariant
            file.wf(),
            file.reader.data@ == data,
            data == input@,
            data.len() <= usize::MAX,
            widths == file.definitions@.column_widths,
            rows == spec_file(input@)->Ok_0.2,
            spec_file(input@) is Ok,
            spec_file(input@)->Ok_0.0 == file.definitions@,
            header == signature_bytes() + encode_defs(file.definitions@),
            4 * rows.len() <= data.len(),
            kept == rows.skip(to_skip as int),
            to_skip <= rows.len(),
            emitted <= kept.len(),
            to_skip + emitted <= rows.len(),
            spec_rows_from(data, file.reader.pos as int, widths) == rows.skip(
                to_skip + emitted as int,
            ),
            out@ == header + encode_rows(kept.take(emitted as int), widths),
        ensures
            emitted == kept.len(),
            out@ == header + encode_rows(kept.take(emitted as int), widths),
            header == signature_bytes() + encode_defs(spec_file(input@)->Ok_0.0),
            kept == rows.skip(to_skip as int),
            rows == spec_file(input@)->Ok_0.2,
            spec_file(input@) is Ok,
        decreases data.len() - file.reader.pos,
    {
        let ghost p = file.reader.pos as int;
        match file.next() {
            Some(row) => {
                proof {
                    let p2 = file.reader.pos as int;
                    assert(spec_rows_from(data, p, widths) == seq![row@] + spec_rows_from(
                        data,
                        p2,
                        widths,
                    ));
                    assert((seq![row@] + spec_rows_from(data, p2, widths)).drop_first()
                        =~= spec_rows_from(data, p2, widths));
                    assert(rows.skip(to_skip + emitted as int).drop_first() =~= rows.skip(
                        to_skip + emitted as int + 1,
                    ));
                    assert(rows.skip(to_skip + emitted as int).len() > 0);
                    assert(rows.skip(to_skip + emitted as int)[0] == rows[to_skip + emitted as int]);
                    assert(row@ == rows[to_skip + emitted as int]);
                    assert(kept[emitted as int] == rows[to_skip + emitted as int]);
                    assert(kept.take(emitted as int + 1) =~= kept.take(emitted as int).push(
                        kept[emitted as int],
                    ));
                    lemma_encode_rows_snoc(kept.take(emitted as int), kept[emitted as int], widths);
                }
                let mut rec = row.encode_record(&file.definitions.column_widths);
                out.append(&mut rec);
                proof {
                    assert(out@ =~= header + encode_rows(kept.take(emitted as int + 1), widths));
                }
                emitted = emitted + 1;
            },
            None => {
                proof {
                    assert(rows.skip(to_skip + emitted as int).len() == 0);
                    assert(emitted == kept.len());
                }
                break ;
            },
        }
    }
    proof {
        assert(kept.take(kept.len() as int) =~= kept);
        let k = if (n as int) < rows.len() {
            n as int
        } else {
            rows.len() as int
        };
        assert(to_skip as int == rows.len() - k);
    }
    Ok(out)
}

/// Well-formed rows encoded back to back up to the end of the input decode
/// to exactly the rows they came from, in order.
pub proof fn lemma_reparse_rows(rows: Seq<RowView>, widths: Seq<u32>, data: Seq<u8>, pos: int)
    requires
        0 <= pos <= data.len(),
        forall|i: int| 0 <= i < rows.len() ==> wf_row(rows[i], widths),
        pos + encode_rows(rows, widths).len() == data.len(),
        data.subrange(pos, data.len() as int) == encode_rows(rows, widths),
    ensures
        spec_rows_from(data, pos, widths) == rows,
    decreases rows.len(),
{
    let enc = encode_rows(rows, widths);
    assert forall|k: int| 0 <= k < enc.len() implies data[pos + k] == enc[k] by {
        assert(data.subrange(pos, data.len() as int)[k] == data[pos + k]);
    }
    if rows.len() == 0 {
        assert(pos + 4 > data.len());
        assert(spec_rows_from(data, pos, widths) == Seq::<RowView>::empty());
    } else {
        let r = rows[0];
        let er = encode_row(r, widths);
        let rest = encode_rows(rows.drop_first(), widths);
        assert(enc == er + rest);
        assert(er.len() >= 4);
        assert(data.subrange(pos, pos + er.len() as int) =~= er) by {
            assert forall|k: int| 0 <= k < er.len() implies data[pos + k] == er[k] by {
                assert(enc[k] == er[k]);
            }
        }
        lemma_decode_encoded_row(r, widths, data, pos);
        assert(data.subrange(pos + er.len() as int, data.len() as int) =~= rest) by {
            assert forall|k: int| 0 <= k < rest.len() implies data[pos + er.len() + k]
                == rest[k] by {
                assert(enc[er.len() + k] == rest[k]);
            }
        }
        assert forall|i: int| 0 <= i < rows.drop_first().len() implies wf_row(
            rows.drop_first()[i],
            widths,
        ) by {
            assert(rows.drop_first()[i] == rows[i + 1]);
        }
        lemma_reparse_rows(rows.drop_first(), widths, data, pos + er.len());
        assert(spec_rows_from(data, pos, widths) == seq![r] + spec_rows_from(
            data,
            pos + er.len(),
            widths,
        ));
        assert(seq![r] + rows.drop_first() =~= rows);
    }
}

/// A reproduced file — the signature, a well-formed header, and any
/// well-formed rows — parses back to that header and exactly those rows.
pub proof fn lemma_output_reparses(d: ColumnDefinitionsView, rows: Seq<RowView>)
    requires
        d.wf(),
        forall|i: int| 0 <= i < rows.len() ==> wf_row(rows[i], d.column_widths),
    ensures
        ({
            let out = signature_bytes() + encode_defs(d) + encode_rows(rows, d.column_widths);
            spec_file(out) == Ok::<_, FormatError>(
                (d, SIGNATURE_LENGTH + encode_defs(d).len(), rows),
            )
        }),
{
    let sig = signature_bytes();
    let defs = encode_defs(d);
    let body = encode_rows(rows, d.column_widths);
    let out = sig + defs + body;
    assert(sig.len() == SIGNATURE_LENGTH);
    assert(out.subrange(0, SIGNATURE_LENGTH as int) =~= sig) by {
        assert forall|k: int| 0 <= k < sig.len() implies out[k] == sig[k] by {
            assert((sig + defs)[k] == sig[k]);
        }
    }
    assert(out.subrange(SIGNATURE_LENGTH as int, SIGNATURE_LENGTH + defs.len() as int)
        =~= defs) by {
        assert forall|k: int| 0 <= k < defs.len() implies out[SIGNATURE_LENGTH + k] == defs[k] by {
            assert((sig + defs)[sig.len() + k] == defs[k]);
        }
    }
    lemma_parse_encoded_defs(d, out, SIGNATURE_LENGTH as int);
    let rpos = SIGNATURE_LENGTH + defs.len() as int;
    assert(out.subrange(rpos, out.len() as int) =~= body) by {
        assert forall|k: int| 0 <= k < body.len() implies out[rpos + k] == body[k] by {
            assert(out[rpos + k] == body[k]);
        }
    }
    lemma_reparse_rows(rows, d.column_widths, out, rpos);
}

/// The output of `head` parses back as a native file whose rows are
/// exactly the first `min(n, count)` rows of the original, each identical
/// in bitmap, lengths and payload, under the original column definitions.
pub proof fn lemma_head_output_reparses(data: Seq<u8>, n: int)
    requires
        spec_file(data) is Ok,
        0 <= n,
    ensures
        ({
            let (d, end, rows) = spec_file(data)->Ok_0;
            let k = if n < rows.len() {
                n
            } else {
                rows.len() as int
            };
            spec_file(signature_bytes() + encode_defs(d) + encode_rows(rows.take(k), d.column_widths))
                == Ok::<_, FormatError>(
                (d, SIGNATURE_LENGTH + encode_defs(d).len(), rows.take(k)),
            )
        }),
{
    let (d, end, rows) = spec_file(data)->Ok_0;
    let k = if n < rows.len() {
        n
    } else {
        rows.len() as int
    };
    assert(d.wf());
    assert(0 <= end <= data.len());
    lemma_rows_from_wf(data, end, d.column_widths);
    assert forall|i: int| 0 <= i < rows.take(k).len() implies wf_row(
        rows.take(k)[i],
        d.column_widths,
    ) by {
        assert(rows.take(k)[i] == rows[i]);
    }
    lemma_output_reparses(d, rows.take(k));
}

/// The output of `tail` parses back as a native file whose rows are
/// exactly the last `min(n, count)` rows of the original, in their
/// original order, under the original column definitions.
pub proof fn lemma_tail_output_reparses(data: Seq<u8>, n: int)
    requires
        spec_file(data) is Ok,
        0 <= n,
    ensures
        ({
            let (d, end, rows) = spec_file(data)->Ok_0;
            let k = if n < rows.len() {
                n
            } else {
                rows.len() as int
            };
            spec_file(
                signature_bytes() + encode_defs(d) + encode_rows(
                    rows.skip(rows.len() - k),
                    d.column_widths,
                ),
            ) == Ok::<_, FormatError>(
                (d, SIGNATURE_LENGTH + encode_defs(d).len(), rows.skip(rows.len() - k)),
            )
        }),
{
    let (d, end, rows) = spec_file(data)->Ok_0;
    let k = if n < rows.len() {
        n
    } else {
        rows.len() as int
    };
    assert(d.wf());
    assert(0 <= end <= data.len());
    lemma_rows_from_wf(data, end, d.column_widths);
    let kept = rows.skip(rows.len() - k);
    assert forall|i: int| 0 <= i < kept.len() implies wf_row(kept[i], d.column_widths) by {
        assert(kept[i] == rows[rows.len() - k + i]);
    }
    lemma_output_reparses(d, kept);
}

} // verus!
