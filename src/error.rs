//! The library's error type.
use vstd::prelude::*;
use crate::text::{push_decimal, push_str, string_from_chars};

verus! {

/// What went wrong while reading, editing or writing.
#[derive(Debug, Clone)]
pub enum EspError {
    /// The data is not in the expected format (e.g. not a plugin header).
    InvalidFormat,
    /// Fewer bytes remain at `offset` than the structure there needs.
    Truncated { offset: usize, needed: usize },
    /// A group was expected at `offset` but its magic was different.
    BadMagic { offset: usize },
    /// A declared size at `offset` lies outside the accepted bounds.
    SizeOutOfBounds { offset: usize, size: u32 },
    /// An oversized-field sentinel at `offset` declared a size other than 4.
    BadOversizedField { offset: usize, size: u16 },
    /// Fewer than six bytes remain at the end of a record payload and they are not all zero;
    /// `previous` is the type of the last subrecord read before them.
    TrailingBytes { offset: usize, count: usize, previous: Option<String> },
    /// A serialized size does not fit the field that must hold it.
    SizeOverflow,
    /// Compressing a modified record failed.
    CompressionFailed,
    /// No entry has the requested id, or no table has the requested kind.
    NotFound,
    /// An entry with the id already exists.
    DuplicateId,
    /// More records need new ids than the light-plugin range holds.
    CapacityExceeded { count: usize },
}

impl EspError {
    /// A human-readable description.
    pub fn message(&self) -> (r: String) {
        let mut v: Vec<char> = Vec::new();
        match self {
            EspError::InvalidFormat => push_str(&mut v, "Invalid file format"),
            EspError::Truncated { offset, needed } => {
                push_str(&mut v, "Insufficient data at offset ");
                push_decimal(&mut v, *offset as u64);
                push_str(&mut v, ": ");
                push_decimal(&mut v, *needed as u64);
                push_str(&mut v, " bytes needed");
            },
            EspError::BadMagic { offset } => {
                push_str(&mut v, "Expected GRUP at offset ");
                push_decimal(&mut v, *offset as u64);
            },
            EspError::SizeOutOfBounds { offset, size } => {
                push_str(&mut v, "Size out of bounds at offset ");
                push_decimal(&mut v, *offset as u64);
                push_str(&mut v, ": ");
                push_decimal(&mut v, *size as u64);
                push_str(&mut v, " bytes (data may be corrupt)");
            },
            EspError::BadOversizedField { offset, size } => {
                push_str(&mut v, "XXXX subrecord size should be 4, got ");
                push_decimal(&mut v, *size as u64);
                push_str(&mut v, " at offset ");
                push_decimal(&mut v, *offset as u64);
            },
            EspError::TrailingBytes { offset, count, previous } => {
                push_str(&mut v, "记录末尾有 ");
                push_decimal(&mut v, *count as u64);
                push_str(&mut v, " 字节非 NULL 数据 (offset ");
                push_decimal(&mut v, *offset as u64);
                push_str(&mut v, ", after ");
                match previous {
                    Some(p) => push_str(&mut v, p.as_str()),
                    None => push_str(&mut v, "no subrecord"),
                }
                push_str(&mut v, ")");
            },
            EspError::SizeOverflow => push_str(&mut v, "Serialized size does not fit its field"),
            EspError::CompressionFailed => push_str(&mut v, "Compression failed"),
            EspError::NotFound => push_str(&mut v, "Not found"),
            EspError::DuplicateId => push_str(&mut v, "Id already exists"),
            EspError::CapacityExceeded { count } => {
                push_str(&mut v, "Light plugin record limit exceeded: ");
                push_decimal(&mut v, *count as u64);
                push_str(&mut v, " records, at most 2048");
            },
        }
        string_from_chars(v.as_slice())
    }
}

} // verus!
