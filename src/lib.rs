//! Financial transaction records and their three file representations:
//! a comma-separated table, a `KEY: value` block text and a length-framed
//! binary format. Every codec decodes bytes into [`models::Record`]s and
//! encodes records back into bytes; the contracts state both directions
//! exactly.
pub mod compare;
pub mod error;
pub mod format;
pub mod laws;
pub mod models;
pub mod text;

use vstd::prelude::*;
use vstd::utf8::encode_utf8;
use crate::error::{CustomError, Fault};
use crate::format::DataFormat;
use crate::format::bin::{BinFormat, all_fit, decode_bin, frames_of};
use crate::format::csv::{CsvFormat, decode_csv, encode_csv};
use crate::format::txt::{TxtFormat, decode_txt, txt_text};
use crate::models::{Format, InputFormat, RecordView};

verus! {

/// What decoding `b` in `format` gives.
pub open spec fn decoded(format: Format, b: Seq<u8>) -> Result<Seq<RecordView>, Fault> {
    match format {
        Format::Csv => decode_csv(b),
        Format::Txt => decode_txt(b),
        Format::Bin => decode_bin(b),
    }
}

/// The bytes that encode `rows` in `format`, or `None` where that format
/// cannot hold them.
pub open spec fn encoded(format: Format, rows: Seq<RecordView>) -> Option<Seq<u8>> {
    match format {
        Format::Csv => encode_csv(rows),
        Format::Txt => Some(encode_utf8(txt_text(rows))),
        Format::Bin => if all_fit(rows) {
            Some(frames_of(rows))
        } else {
            None
        },
    }
}

/// Decodes a whole file in `format`.
pub fn decode_as(bytes: &[u8], format: Format) -> (r: Result<InputFormat, CustomError>)
    ensures
        match r {
            Ok(input) => input.format() == format && decoded(format, bytes@) == Ok::<
                Seq<RecordView>,
                Fault,
            >(input.records()),
            Err(e) => decoded(format, bytes@) == Err::<Seq<RecordView>, Fault>(e.fault()),
        },
{
    match format {
        Format::Csv => Ok(InputFormat::Csv(CsvFormat::from_read(bytes)?)),
        Format::Txt => Ok(InputFormat::Txt(TxtFormat::from_read(bytes)?)),
        Format::Bin => Ok(InputFormat::Bin(BinFormat::from_read(bytes)?)),
    }
}

/// Encodes decoded records in `format`, whatever format they came from.
pub fn encode_as(format: Format, input: InputFormat) -> (r: Result<Vec<u8>, CustomError>)
    ensures
        match r {
            Ok(b) => encoded(format, input.records()) == Some(b@),
            Err(_) => encoded(format, input.records()) is None,
        },
{
    let records = input.get_record();
    let mut out: Vec<u8> = Vec::new();
    match format {
        Format::Csv => {
            CsvFormat { csv_rows: records }.write_to(&mut out)?;
        },
        Format::Txt => {
            TxtFormat { txt_rows: records }.write_to(&mut out)?;
        },
        Format::Bin => {
            BinFormat { bin_rows: records }.write_to(&mut out)?;
        },
    }
    proof {
        assert(out@ =~= Seq::<u8>::empty() + out@);
    }
    Ok(out)
}

} // verus!
