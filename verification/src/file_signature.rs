use vstd::prelude::*;

use crate::byte_reader::ByteReader;
use crate::format::FormatError;
use crate::read_variable;

verus! {

/// The number of bytes in the fixed preamble of a native file.
pub const SIGNATURE_LENGTH: usize = 11;

/// The expected preamble: the magic marker every native file starts with.
pub open spec fn signature_bytes() -> Seq<u8> {
    seq![0x4eu8, 0x41u8, 0x54u8, 0x49u8, 0x56u8, 0x45u8, 0x0au8, 0xffu8, 0x0du8, 0x0au8, 0x00u8]
}

/// The magic preamble at the start of a native file, stored verbatim so that
/// re-encoded output reproduces the original header bytes exactly.
pub struct FileSignature {
    pub bytes: Vec<u8>,
}

impl FileSignature {
    /// A parsed signature holds exactly the expected preamble.
    pub open spec fn wf(&self) -> bool {
        self.bytes@ == signature_bytes()
    }

    /// Consumes the fixed-length preamble; fails with `BadSignature` when the
    /// input is shorter than the preamble or its bytes do not match, leaving
    /// the reader untouched in that case.
    pub fn from_reader(reader: &mut ByteReader) -> (res: Result<FileSignature, FormatError>)
        requires
            old(reader).wf(),
        ensures
            final(reader).wf(),
            final(reader).data@ == old(reader).data@,
            match res {
                Ok(s) => {
                    &&& old(reader).pos + SIGNATURE_LENGTH <= old(reader).data@.len()
                    &&& old(reader).data@.subrange(
                        old(reader).pos as int,
                        old(reader).pos + SIGNATURE_LENGTH,
                    ) == signature_bytes()
                    &&& s.wf()
                    &&& final(reader).pos == old(reader).pos + SIGNATURE_LENGTH
                },
                Err(e) => {
                    &&& e == FormatError::BadSignature
                    &&& final(reader).pos == old(reader).pos
                    &&& !(old(reader).pos + SIGNATURE_LENGTH <= old(reader).data@.len()
                        && old(reader).data@.subrange(
                            old(reader).pos as int,
                            old(reader).pos + SIGNATURE_LENGTH,
                        ) == signature_bytes())
                },
            },
    {
        let start: usize = reader.pos;
        let v = match read_variable(reader, SIGNATURE_LENGTH) {
            Ok(v) => v,
            Err(_) => {
                return Err(FormatError::BadSignature);
            },
        };
        let is_match = v[0] == 0x4e && v[1] == 0x41 && v[2] == 0x54 && v[3] == 0x49 && v[4] == 0x56
            && v[5] == 0x45 && v[6] == 0x0a && v[7] == 0xff && v[8] == 0x0d && v[9] == 0x0a
            && v[10] == 0x00;
        if is_match {
            assert(v@ =~= signature_bytes());
            Ok(FileSignature { bytes: v })
        } else {
            proof {
                if v@ == signature_bytes() {
                    assert(v@[0] == 0x4e && v@[1] == 0x41 && v@[2] == 0x54 && v@[3] == 0x49
                        && v@[4] == 0x56 && v@[5] == 0x45 && v@[6] == 0x0a && v@[7] == 0xff
                        && v@[8] == 0x0d && v@[9] == 0x0a && v@[10] == 0x00);
                }
            }
            reader.pos = start;
            Err(FormatError::BadSignature)
        }
    }

    /// The exact bytes to emit for this signature when reproducing a file.
    pub fn generate_output(&self) -> (res: Result<Vec<u8>, FormatError>)
        requires
            self.wf(),
        ensures
            match res {
                Ok(v) => v@ == signature_bytes(),
                Err(_) => false,
            },
    {
        let mut out: Vec<u8> = Vec::new();
        let mut i: usize = 0;
        while i < self.bytes.len()
            invariant
                i <= self.bytes@.len(),
                out@ == self.bytes@.subrange(0, i as int),
            decreases self.bytes@.len() - i,
        {
            out.push(self.bytes[i]);
            assert(out@ =~= self.bytes@.subrange(0, i + 1));
            i = i + 1;
        }
        assert(out@ =~= self.bytes@);
        Ok(out)
    }
}

} // verus!
