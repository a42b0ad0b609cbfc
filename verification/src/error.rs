use vstd::prelude::*;

verus! {

/// Why an operation on the store failed.
#[derive(Clone, Copy, Debug, PartialEq, Eq, Structural)]
pub enum StoreError {
    /// No record is stored at the location that the id names.
    NotFound,
    /// A record does not decompress, or its bytes do not parse.
    CorruptObject,
    /// The compressor reported a failure while a record was made.
    Io,
}

} // verus!
