use vstd::prelude::*;

verus! {

/// Every way an operation of this library can fail.
#[derive(Clone, Copy, Debug, PartialEq, Eq, Structural)]
pub enum SalesError {
    /// Timestamp text is malformed.
    Parse,
    /// The wall-clock time falls in a daylight-saving gap or overlap of the zone.
    AmbiguousLocalTime,
    /// The zone name is not a known time zone.
    UnknownZone,
    /// A zone conversion was asked of a value that has no zone.
    NotZoned,
    /// Timestamps decrease at `index` (the row before it is later).
    UnsortedInput { index: usize },
    /// A sum does not fit in 64 bits.
    ArithmeticOverflow,
    /// A year too early to be tied to a zone.
    YearOutOfRange,
    /// A category without a known unit price.
    UnknownCategory,
}

} // verus!
