//! Event-stream codec for tracker-module note data.
//!
//! A channel's note events are turned into a compact byte stream by three
//! passes (run-length, row dictionary, repeated slices) whose results are
//! proved to decode back to the same events.
use vstd::prelude::*;

pub mod binary_reader;
pub mod binary_writer;
pub mod bit_writer;
pub mod builder;
pub mod cell;
pub mod event_stream;
pub mod fixed;
pub mod pattern;
pub mod range;
pub mod row;
pub mod row_dict;
pub mod slice_search;
pub mod symbol;

pub use binary_reader::BinaryReader;
pub use binary_writer::BinaryWriter;
pub use bit_writer::BitWriter;
pub use builder::Builder;
pub use cell::Cell;
pub use event_stream::EventStream;
pub use fixed::{FixedU32U16, FixedU32x};
pub use pattern::Pattern;
pub use range::Range;
pub use row::Row;
pub use symbol::{Symbol, SymbolEncodingSize, SymbolPrefix, SymbolPrefixBits};

verus! {

/// One for a non-zero byte, zero for zero.
pub fn sign_u8(value: u8) -> (r: u8)
    ensures
        r == (if value == 0 { 0u8 } else { 1u8 }),
{
    if value == 0 {
        0
    } else {
        1
    }
}

/// A stream that does not follow the byte format.
#[derive(Debug)]
pub struct FormatError {
    details: String,
}

impl FormatError {
    pub fn new(details: &str) -> (r: FormatError)
        ensures
            r.details() == details@,
    {
        FormatError { details: details.to_owned() }
    }

    pub closed spec fn details(&self) -> Seq<char> {
        self.details@
    }

    /// What was wrong.
    pub fn description(&self) -> (r: &str)
        ensures
            r@ == self.details(),
    {
        self.details.as_str()
    }
}

} // verus!
