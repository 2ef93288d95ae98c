use vstd::prelude::*;

verus! {

/// Everything a `dumps` or `loads` call can fail with.  A failure aborts
/// the call; the codec stays usable.
#[derive(Clone, Copy, Debug, PartialEq, Eq, Structural)]
pub enum Error {
    /// The MessagePack writer could not emit a value (a length does not
    /// fit the wire format).
    EncodeFailure,
    /// The MessagePack reader hit a malformed or truncated value.
    DecodeFailure,
    /// Buffer I/O failed.
    IoFailure,
    /// An `Integer` fits neither `u64` nor `i64`.
    IntegerOutOfRange,
    /// A decoded `str` did not hold valid UTF-8.
    InvalidUtf8,
    /// A namespace was registered twice, or an intern operation was asked
    /// of a context in the wrong mode.
    InvalidState,
    /// An intern-table EXT appeared while another table was being decoded.
    NestedInternTable,
    /// An intern-table payload did not start with an array, or lacked a
    /// trailing main value.
    InvalidInternTable,
    /// An intern-reference EXT whose payload is not an unsigned integer.
    InvalidInternReferencePayload,
    /// A reference to index `index` when the table held only `size`
    /// entries so far.
    ForwardInternReference { index: usize, size: usize },
    /// A reference beyond the final table, observed after the table was
    /// fully loaded.
    InvalidInternReference,
    /// A custom-type namespace discriminant that is neither a string nor
    /// an unsigned integer fitting `u32`.
    InvalidCustomNamespace,
    /// A custom-type id that is not an unsigned integer fitting `u32`.
    InvalidCustomTypeId,
}

} // verus!
