use vstd::prelude::*;

verus! {

/// The ways a native file can fail to parse: a bad or missing signature,
/// or a structure cut short by the end of the input.
#[derive(Clone, Copy, Debug, PartialEq, Eq, Structural)]
pub enum FormatError {
    BadSignature,
    Truncated,
}

} // verus!
