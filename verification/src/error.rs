use vstd::prelude::*;

verus! {

/// The ways in which reading a DNS name can fail.
#[derive(Debug, Clone, Copy, PartialEq, Eq, Structural)]
pub enum Error {
    /// The data ended before the name did, or a pointer points past the packet's end.
    UnexpectedEOF,
    /// A label starts with a byte whose two top bits are `01` or `10`.
    UnknownLabelFormat,
    /// A compression pointer does not point strictly before the previous one.
    BadPointer,
    /// More than 255 encoded bytes were read for one name.
    InvalidNameLen,
}

} // verus!
