//! The typed failures of the codec.
//!
//! Propagation is strictly fail-fast: the first error anywhere in a decode
//! or encode traversal aborts the whole operation.

use vstd::prelude::*;

verus! {

/// Everything that can go wrong while encoding or decoding.
///
/// Scalar parse failures carry one variant per target type, so diagnostics
/// name the exact expectation.  `MalformedInput` reports input that breaks
/// the `key=value(&key=value)*` grammar, carrying the index of the offending
/// token.
#[derive(Debug, Clone, PartialEq, Eq)]
pub enum Error {
    ExpectingI8,
    ExpectingI16,
    ExpectingI32,
    ExpectingI64,
    ExpectingU8,
    ExpectingU16,
    ExpectingU32,
    ExpectingU64,
    ExpectingUsize,
    ExpectingF32,
    ExpectingF64,
    ExpectingChar,
    ExpectingBool,
    ExpectingMap,
    ExpectingString,
    ExpectingUtf8String,
    MissingSequenceLength,
    MissingSequenceItem,
    MissingMapValue,
    MalformedInput(usize),
    IoError(String),
    Custom(String),
}

impl Error {
    /// The diagnostic text of each error.
    pub open spec fn spec_message(self) -> Seq<char> {
        match self {
            Error::ExpectingI8 => "expecting i8"@,
            Error::ExpectingI16 => "expecting i16"@,
            Error::ExpectingI32 => "expecting i32"@,
            Error::ExpectingI64 => "expecting i64"@,
            Error::ExpectingU8 => "expecting u8"@,
            Error::ExpectingU16 => "expecting u16"@,
            Error::ExpectingU32 => "expecting u32"@,
            Error::ExpectingU64 => "expecting u64"@,
            Error::ExpectingUsize => "expecting usize"@,
            Error::ExpectingF32 => "expecting f32"@,
            Error::ExpectingF64 => "expecting f64"@,
            Error::ExpectingChar => "expecting char"@,
            Error::ExpectingBool => "expecting bool"@,
            Error::ExpectingMap => "expecting map"@,
            Error::ExpectingString => "expecting string"@,
            Error::ExpectingUtf8String => "expecting bytes sequence to be an encoded utf-8 string"@,
            Error::MissingSequenceLength => "expecting $length"@,
            Error::MissingSequenceItem => "expecting sequence item"@,
            Error::MissingMapValue => "expecting map value"@,
            Error::MalformedInput(i) => "malformed input at token "@ + crate::num::u64_text(
                i as int,
            ),
            Error::IoError(msg) => "IO error : "@ + msg@,
            Error::Custom(custom) => custom@,
        }
    }

    /// Renders the diagnostic text of this error.
    pub fn message(&self) -> (r: String)
        ensures
            r@ == self.spec_message(),
    {
        match self {
            Error::ExpectingI8 => "expecting i8".to_owned(),
            Error::ExpectingI16 => "expecting i16".to_owned(),
            Error::ExpectingI32 => "expecting i32".to_owned(),
            Error::ExpectingI64 => "expecting i64".to_owned(),
            Error::ExpectingU8 => "expecting u8".to_owned(),
            Error::ExpectingU16 => "expecting u16".to_owned(),
            Error::ExpectingU32 => "expecting u32".to_owned(),
            Error::ExpectingU64 => "expecting u64".to_owned(),
            Error::ExpectingUsize => "expecting usize".to_owned(),
            Error::ExpectingF32 => "expecting f32".to_owned(),
            Error::ExpectingF64 => "expecting f64".to_owned(),
            Error::ExpectingChar => "expecting char".to_owned(),
            Error::ExpectingBool => "expecting bool".to_owned(),
            Error::ExpectingMap => "expecting map".to_owned(),
            Error::ExpectingString => "expecting string".to_owned(),
            Error::ExpectingUtf8String => "expecting bytes sequence to be an encoded utf-8 string"
                .to_owned(),
            Error::MissingSequenceLength => "expecting $length".to_owned(),
            Error::MissingSequenceItem => "expecting sequence item".to_owned(),
            Error::MissingMapValue => "expecting map value".to_owned(),
            Error::MalformedInput(i) => {
                let mut s = "malformed input at token ".to_owned();
                let digits = crate::num::format_u64(*i as u64);
                s.append(digits.as_str());
                s
            },
            Error::IoError(msg) => {
                let mut s = "IO error : ".to_owned();
                s.append(msg.as_str());
                s
            },
            Error::Custom(custom) => custom.clone(),
        }
    }
}

} // verus!
