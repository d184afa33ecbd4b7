use vstd::prelude::*;

verus! {

/// A forward-only cursor over the bytes of one input.
///
/// Every structure of the native format is parsed through one of these;
/// `pos` is the only progress marker, and it never moves backwards.
pub struct ByteReader {
    pub data: Vec<u8>,
    pub pos: usize,
}

impl ByteReader {
    /// The cursor never points past the end of the input.
    pub open spec fn wf(&self) -> bool {
        self.pos <= self.data@.len()
    }

    /// A reader positioned at the start of `data`.
    pub fn new(data: Vec<u8>) -> (r: ByteReader)
        ensures
            r.data@ == data@,
            r.pos == 0,
            r.wf(),
    {
        ByteReader { data, pos: 0 }
    }
}

} // verus!
