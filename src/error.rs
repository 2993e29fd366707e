//! Errors of the codecs.
use vstd::prelude::*;

verus! {

/// `csv::Error`, carried unread inside [`CustomError::Csv`].
#[verifier::external_type_specification]
#[verifier::external_body]
pub struct ExCsvError(csv::Error);

/// Why decoding or encoding failed.
#[derive(Debug)]
pub enum CustomError {
    /// The comma-separated engine could not read or write the table.
    Csv(csv::Error),
    /// Bytes or text that cannot stand for records: bad UTF-8, a wrong
    /// magic number, inconsistent lengths, an oversized description.
    InvalidData(String),
    /// A required field is absent; holds the field's name.
    MissingField(String),
    /// A numeric field does not hold an unsigned 64-bit number; holds the
    /// field's name.
    InvalidNumber(String),
    /// A kind or status field holds no known variant; holds the field's name.
    InvalidEnum(String),
    /// The input ends inside a binary frame.
    UnexpectedEof,
}

/// The kind of an error, as the contracts state it.
pub enum Fault {
    Engine,
    InvalidData,
    MissingField(Seq<char>),
    InvalidNumber(Seq<char>),
    InvalidEnum(Seq<char>),
    UnexpectedEof,
}

impl CustomError {
    pub open spec fn fault(&self) -> Fault {
        match self {
            CustomError::Csv(_) => Fault::Engine,
            CustomError::InvalidData(_) => Fault::InvalidData,
            CustomError::MissingField(k) => Fault::MissingField(k@),
            CustomError::InvalidNumber(k) => Fault::InvalidNumber(k@),
            CustomError::InvalidEnum(k) => Fault::InvalidEnum(k@),
            CustomError::UnexpectedEof => Fault::UnexpectedEof,
        }
    }
}

} // verus!
