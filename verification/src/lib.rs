//! Streaming fold-decode of line-delimited billing records.
//!
//! Each input line is a JSON object carrying a nested array of rate
//! observations; decoding folds every leaf rate directly into a running
//! accumulator (sum and count) without materializing the nested structure,
//! then converts the accumulator into an optional average used by an
//! inclusive `<= 30` filter.
//!
//! Rates are held in fixed point: one unit is `1e-9` of a rate, so a rate
//! of `30.0` is the integer `30_000_000_000`.
use vstd::prelude::*;

pub mod accum;
pub mod json;
pub mod pipeline;

pub use accum::Accumulator;
pub use accum::Avg;
pub use json::parse_record;
pub use json::BillingRecord;
pub use pipeline::process_line;
pub use pipeline::run_pipeline;
pub use pipeline::should_emit;

verus! {

/// Why a line failed to decode into a billing record.
#[derive(Clone, Copy, Debug, PartialEq, Eq, Structural)]
pub enum Error {
    /// The line is not well-formed JSON of the expected shape.
    Syntax,
    /// A required field (`name`, `billing_code`, or an object's
    /// `negotiated_rate`) is absent.
    MissingField,
    /// A recognized field occurs twice in one object.
    DuplicateField,
    /// A rate literal lies outside the fixed-point range this library
    /// represents exactly.
    RangeExceeded,
    /// Accumulating the rates overflowed the fixed-point range.
    Overflow,
}

} // verus!
