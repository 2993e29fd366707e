//! The record model shared by all codecs.
use vstd::prelude::*;
use crate::format::DataFormat;
use crate::format::bin::BinFormat;
use crate::format::csv::CsvFormat;
use crate::format::txt::TxtFormat;
use crate::text::{chars_of, same_chars};

verus! {

/// The three file representations.
#[derive(Clone, Copy, Debug, PartialEq, Eq, Structural)]
pub enum Format {
    Csv,
    Txt,
    Bin,
}

/// Kind of a transaction.
#[derive(Clone, Copy, Debug, PartialEq, Eq, Structural)]
pub enum TxType {
    DEPOSIT,
    TRANSFER,
    WITHDRAWAL,
}

/// Outcome of a transaction.
#[derive(Clone, Copy, Debug, PartialEq, Eq, Structural)]
pub enum Status {
    SUCCESS,
    FAILURE,
    PENDING,
}

impl TxType {
    /// The byte that stands for this kind in the binary format.
    pub open spec fn ordinal(self) -> u8 {
        match self {
            TxType::DEPOSIT => 0,
            TxType::TRANSFER => 1,
            TxType::WITHDRAWAL => 2,
        }
    }

    /// The kind that a byte of the binary format stands for, if any.
    pub open spec fn of_ordinal(b: u8) -> Option<TxType> {
        if b == 0 {
            Some(TxType::DEPOSIT)
        } else if b == 1 {
            Some(TxType::TRANSFER)
        } else if b == 2 {
            Some(TxType::WITHDRAWAL)
        } else {
            None
        }
    }

    /// The name of this kind in the text formats.
    pub open spec fn name(self) -> Seq<char> {
        match self {
            TxType::DEPOSIT => "DEPOSIT"@,
            TxType::TRANSFER => "TRANSFER"@,
            TxType::WITHDRAWAL => "WITHDRAWAL"@,
        }
    }

    /// The kind whose name is exactly `s`, if any.
    pub open spec fn of_name(s: Seq<char>) -> Option<TxType> {
        if s == TxType::DEPOSIT.name() {
            Some(TxType::DEPOSIT)
        } else if s == TxType::TRANSFER.name() {
            Some(TxType::TRANSFER)
        } else if s == TxType::WITHDRAWAL.name() {
            Some(TxType::WITHDRAWAL)
        } else {
            None
        }
    }

    pub fn to_ordinal(self) -> (r: u8)
        ensures
            r == self.ordinal(),
    {
        match self {
            TxType::DEPOSIT => 0,
            TxType::TRANSFER => 1,
            TxType::WITHDRAWAL => 2,
        }
    }

    /// The kind for a byte of the binary format; `None` outside 0, 1, 2.
    pub fn from_ordinal(b: u8) -> (r: Option<TxType>)
        ensures
            r == TxType::of_ordinal(b),
    {
        if b == 0 {
            Some(TxType::DEPOSIT)
        } else if b == 1 {
            Some(TxType::TRANSFER)
        } else if b == 2 {
            Some(TxType::WITHDRAWAL)
        } else {
            None
        }
    }

    pub fn as_str(self) -> (r: &'static str)
        ensures
            r@ == self.name(),
    {
        match self {
            TxType::DEPOSIT => "DEPOSIT",
            TxType::TRANSFER => "TRANSFER",
            TxType::WITHDRAWAL => "WITHDRAWAL",
        }
    }

    /// The kind named exactly by `s` (case-sensitive), if any.
    pub fn from_name(s: &Vec<char>) -> (r: Option<TxType>)
        ensures
            r == TxType::of_name(s@),
    {
        if same_chars(s, &chars_of(TxType::DEPOSIT.as_str())) {
            Some(TxType::DEPOSIT)
        } else if same_chars(s, &chars_of(TxType::TRANSFER.as_str())) {
            Some(TxType::TRANSFER)
        } else if same_chars(s, &chars_of(TxType::WITHDRAWAL.as_str())) {
            Some(TxType::WITHDRAWAL)
        } else {
            None
        }
    }
}

impl Status {
    /// The byte that stands for this status in the binary format.
    pub open spec fn ordinal(self) -> u8 {
        match self {
            Status::SUCCESS => 0,
            Status::FAILURE => 1,
            Status::PENDING => 2,
        }
    }

    /// The status that a byte of the binary format stands for, if any.
    pub open spec fn of_ordinal(b: u8) -> Option<Status> {
        if b == 0 {
            Some(Status::SUCCESS)
        } else if b == 1 {
            Some(Status::FAILURE)
        } else if b == 2 {
            Some(Status::PENDING)
        } else {
            None
        }
    }

    /// The name of this status in the text formats.
    pub open spec fn name(self) -> Seq<char> {
        match self {
            Status::SUCCESS => "SUCCESS"@,
            Status::FAILURE => "FAILURE"@,
            Status::PENDING => "PENDING"@,
        }
    }

    /// The status whose name is exactly `s`, if any.
    pub open spec fn of_name(s: Seq<char>) -> Option<Status> {
        if s == Status::SUCCESS.name() {
            Some(Status::SUCCESS)
        } else if s == Status::FAILURE.name() {
            Some(Status::FAILURE)
        } else if s == Status::PENDING.name() {
            Some(Status::PENDING)
        } else {
            None
        }
    }

    pub fn to_ordinal(self) -> (r: u8)
        ensures
            r == self.ordinal(),
    {
        match self {
            Status::SUCCESS => 0,
            Status::FAILURE => 1,
            Status::PENDING => 2,
        }
    }

    /// The status for a byte of the binary format; `None` outside 0, 1, 2.
    pub fn from_ordinal(b: u8) -> (r: Option<Status>)
        ensures
            r == Status::of_ordinal(b),
    {
        if b == 0 {
            Some(Status::SUCCESS)
        } else if b == 1 {
            Some(Status::FAILURE)
        } else if b == 2 {
            Some(Status::PENDING)
        } else {
            None
        }
    }

    pub fn as_str(self) -> (r: &'static str)
        ensures
            r@ == self.name(),
    {
        match self {
            Status::SUCCESS => "SUCCESS",
            Status::FAILURE => "FAILURE",
            Status::PENDING => "PENDING",
        }
    }

    /// The status named exactly by `s` (case-sensitive), if any.
    pub fn from_name(s: &Vec<char>) -> (r: Option<Status>)
        ensures
            r == Status::of_name(s@),
    {
        if same_chars(s, &chars_of(Status::SUCCESS.as_str())) {
            Some(Status::SUCCESS)
        } else if same_chars(s, &chars_of(Status::FAILURE.as_str())) {
            Some(Status::FAILURE)
        } else if same_chars(s, &chars_of(Status::PENDING.as_str())) {
            Some(Status::PENDING)
        } else {
            None
        }
    }
}

/// One transaction.
#[derive(Clone, Debug)]
pub struct Record {
    pub tx_id: u64,
    pub tx_type: TxType,
    pub from_user_id: u64,
    pub to_user_id: u64,
    /// In the smallest unit of the currency.
    pub amount: u64,
    /// Unix time; the unit is the caller's convention.
    pub timestamp: u64,
    pub status: Status,
    pub description: String,
}

/// A record as a mathematical value: the description is its characters.
pub struct RecordView {
    pub tx_id: u64,
    pub tx_type: TxType,
    pub from_user_id: u64,
    pub to_user_id: u64,
    pub amount: u64,
    pub timestamp: u64,
    pub status: Status,
    pub description: Seq<char>,
}

impl View for Record {
    type V = RecordView;

    open spec fn view(&self) -> RecordView {
        RecordView {
            tx_id: self.tx_id,
            tx_type: self.tx_type,
            from_user_id: self.from_user_id,
            to_user_id: self.to_user_id,
            amount: self.amount,
            timestamp: self.timestamp,
            status: self.status,
            description: self.description@,
        }
    }
}

/// The records of `v` as values.
pub open spec fn records_view(v: Seq<Record>) -> Seq<RecordView> {
    v.map_values(|r: Record| r@)
}

impl Record {
    /// A copy with the same value.
    pub fn duplicate(&self) -> (r: Record)
        ensures
            r@ == self@,
    {
        Record {
            tx_id: self.tx_id,
            tx_type: self.tx_type,
            from_user_id: self.from_user_id,
            to_user_id: self.to_user_id,
            amount: self.amount,
            timestamp: self.timestamp,
            status: self.status,
            description: self.description.clone(),
        }
    }
}

impl PartialEq for Record {
    fn eq(&self, o: &Record) -> (r: bool) {
        self.tx_id == o.tx_id && self.tx_type == o.tx_type && self.from_user_id == o.from_user_id
            && self.to_user_id == o.to_user_id && self.amount == o.amount && self.timestamp
            == o.timestamp && self.status == o.status && self.description == o.description
    }
}

impl vstd::std_specs::cmp::PartialEqSpecImpl for Record {
    open spec fn obeys_eq_spec() -> bool {
        true
    }

    open spec fn eq_spec(&self, o: &Record) -> bool {
        self@ == o@
    }
}

/// Records decoded from one of the three representations.
#[derive(Debug)]
pub enum InputFormat {
    Csv(CsvFormat),
    Txt(TxtFormat),
    Bin(BinFormat),
}

impl InputFormat {
    /// The representation the records came from.
    pub open spec fn format(&self) -> Format {
        match self {
            InputFormat::Csv(_) => Format::Csv,
            InputFormat::Txt(_) => Format::Txt,
            InputFormat::Bin(_) => Format::Bin,
        }
    }

    /// The records held, as values, in file order.
    pub open spec fn records(&self) -> Seq<RecordView> {
        match self {
            InputFormat::Csv(f) => f.rows(),
            InputFormat::Txt(f) => f.rows(),
            InputFormat::Bin(f) => f.rows(),
        }
    }

    /// The records, whatever representation they came from.
    pub fn get_record(self) -> (r: Vec<Record>)
        ensures
            records_view(r@) == self.records(),
    {
        match self {
            InputFormat::Csv(f) => f.csv_rows,
            InputFormat::Txt(f) => f.txt_rows,
            InputFormat::Bin(f) => f.bin_rows,
        }
    }
}

} // verus!
