//! The codecs, one per file representation, behind one trait.
use vstd::prelude::*;
use crate::error::CustomError;
use crate::models::RecordView;

pub mod bin;
pub mod csv;
pub mod txt;

verus! {

/// A file representation: records decoded from its bytes, and the bytes
/// that encode records.
pub trait DataFormat: Sized {
    /// The records held, as values, in file order.
    spec fn rows(&self) -> Seq<RecordView>;

    /// Decodes a whole file.
    fn from_read(bytes: &[u8]) -> (r: Result<Self, CustomError>);

    /// Appends the encoding of the held records to `out`.
    fn write_to(&self, out: &mut Vec<u8>) -> (r: Result<(), CustomError>)
        ensures
            old(out)@.len() <= final(out)@.len(),
            final(out)@.take(old(out)@.len() as int) == old(out)@,
    ;
}

/// Appends `b` to `out`.
pub(crate) fn push_bytes(out: &mut Vec<u8>, b: &[u8])
    ensures
        final(out)@ == old(out)@ + b@,
{
    let ghost start = out@;
    let mut i: usize = 0;
    while i < b.len()
        invariant
            i <= b@.len(),
            out@ == start + b@.take(i as int),
        decreases b@.len() - i,
    {
        out.push(b[i]);
        i = i + 1;
        proof {
            assert(out@ =~= start + b@.take(i as int));
        }
    }
    proof {
        assert(b@.take(i as int) =~= b@);
    }
}

} // verus!
