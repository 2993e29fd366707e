//! The comma-separated representation: a header row naming the fields,
//! then one row per record. Splitting bytes into rows and fields, and
//! writing fields out, is the `csv` engine's work; binding fields to a
//! record by header name, and converting them, is done here.
use vstd::prelude::*;
use crate::error::{CustomError, Fault};
use crate::format::{DataFormat, push_bytes};
use crate::models::{Record, RecordView, Status, TxType, records_view};
use crate::text::{chars_of, dec_chars, parse_u64, parse_unsigned, push_dec, string_of};

verus! {

/// The records of a comma-separated file.
#[derive(Debug)]
pub struct CsvFormat {
    pub csv_rows: Vec<Record>,
}

/// The rows of fields that the `csv` engine reads from `b` (every row,
/// the header included), or `None` where it refuses `b`.
pub uninterp spec fn csv_table_of(b: Seq<u8>) -> Option<Seq<Seq<Seq<char>>>>;

/// The bytes that the `csv` engine writes for one row of fields, or `None`
/// where it refuses them.
pub uninterp spec fn csv_row_of(fields: Seq<Seq<char>>) -> Option<Seq<u8>>;

/// A table of strings as values.
pub open spec fn table_view(t: Seq<Vec<String>>) -> Seq<Seq<Seq<char>>> {
    t.map_values(|row: Vec<String>| fields_view(row@))
}

/// A row of strings as values.
pub open spec fn fields_view(row: Seq<String>) -> Seq<Seq<char>> {
    row.map_values(|f: String| f@)
}

/// Relies on `csv::Reader` over `b`, in the default dialect and with the
/// header read as an ordinary row: it yields every row's fields in order,
/// and what it yields or refuses depends on `b` alone.
#[verifier::external_body]
fn read_table(b: &[u8]) -> (r: Result<Vec<Vec<String>>, ::csv::Error>)
    ensures
        match r {
            Ok(t) => csv_table_of(b@) == Some(table_view(t@)),
            Err(_) => csv_table_of(b@) is None,
        },
{
    ::csv::ReaderBuilder::new().has_headers(false).from_reader(b).into_records().map(
        |row| row.map(|rec| rec.iter().map(String::from).collect()),
    ).collect()
}

/// Relies on `csv::Writer` over a fresh `Vec<u8>`, in the default dialect:
/// the bytes it writes for one record depend on the fields alone.
#[verifier::external_body]
fn write_row(fields: &Vec<String>) -> (r: Result<Vec<u8>, ::csv::Error>)
    ensures
        match r {
            Ok(b) => csv_row_of(fields_view(fields@)) == Some(b@),
            Err(_) => csv_row_of(fields_view(fields@)) is None,
        },
{
    let mut w = ::csv::Writer::from_writer(Vec::new());
    w.write_record(fields)?;
    w.into_inner().map_err(|e| ::csv::Error::from(e.into_error()))
}

/// The header row, in field order.
pub open spec fn header_fields() -> Seq<Seq<char>> {
    seq![
        "TX_ID"@,
        "TX_TYPE"@,
        "FROM_USER_ID"@,
        "TO_USER_ID"@,
        "AMOUNT"@,
        "TIMESTAMP"@,
        "STATUS"@,
        "DESCRIPTION"@,
    ]
}

/// The fields of `r`, in header order.
pub open spec fn row_fields(r: RecordView) -> Seq<Seq<char>> {
    seq![
        dec_chars(r.tx_id as nat),
        r.tx_type.name(),
        dec_chars(r.from_user_id as nat),
        dec_chars(r.to_user_id as nat),
        dec_chars(r.amount as nat),
        dec_chars(r.timestamp as nat),
        r.status.name(),
        r.description,
    ]
}

/// The bytes of the header row followed by one row per record, or `None`
/// where the engine refuses a row.
pub open spec fn encode_csv(rows: Seq<RecordView>) -> Option<Seq<u8>>
    decreases rows.len(),
{
    if rows.len() == 0 {
        csv_row_of(header_fields())
    } else {
        match (encode_csv(rows.drop_last()), csv_row_of(row_fields(rows.last()))) {
            (Some(a), Some(b)) => Some(a + b),
            _ => None,
        }
    }
}

/// The index of the first column named `key`.
pub open spec fn column(header: Seq<Seq<char>>, key: Seq<char>) -> Option<int>
    decreases header.len(),
{
    if header.len() == 0 {
        None
    } else {
        match column(header.drop_last(), key) {
            Some(i) => Some(i),
            None => if header.last() == key {
                Some(header.len() - 1)
            } else {
                None
            },
        }
    }
}

/// The field of `row` under the column named `key`.
pub open spec fn cell(header: Seq<Seq<char>>, row: Seq<Seq<char>>, key: Seq<char>) -> Option<
    Seq<char>,
> {
    match column(header, key) {
        Some(i) => if i < row.len() {
            Some(row[i])
        } else {
            None
        },
        None => None,
    }
}

/// A numeric field as the engine's deserializer reads it: hexadecimal
/// after `0x`, decimal otherwise.
pub open spec fn csv_number(v: Seq<char>) -> Option<u64> {
    if v.len() >= 2 && v[0] == '0' && v[1] == 'x' {
        parse_unsigned(v.skip(2), 16)
    } else {
        parse_unsigned(v, 10)
    }
}

pub open spec fn csv_num(header: Seq<Seq<char>>, row: Seq<Seq<char>>, key: Seq<char>) -> Result<
    u64,
    Fault,
> {
    match cell(header, row, key) {
        None => Err(Fault::MissingField(key)),
        Some(v) => match csv_number(v) {
            Some(n) => Ok(n),
            None => Err(Fault::InvalidNumber(key)),
        },
    }
}

/// The record of one row; the first failing field, in header order, gives
/// the error.
#[verifier::opaque]
pub open spec fn row_record(header: Seq<Seq<char>>, row: Seq<Seq<char>>) -> Result<
    RecordView,
    Fault,
> {
    match csv_num(header, row, "TX_ID"@) {
        Err(f) => Err(f),
        Ok(tx_id) => match cell(header, row, "TX_TYPE"@) {
            None => Err(Fault::MissingField("TX_TYPE"@)),
            Some(tv) => match TxType::of_name(tv) {
                None => Err(Fault::InvalidEnum("TX_TYPE"@)),
                Some(tx_type) => match csv_num(header, row, "FROM_USER_ID"@) {
                    Err(f) => Err(f),
                    Ok(from_user_id) => match csv_num(header, row, "TO_USER_ID"@) {
                        Err(f) => Err(f),
                        Ok(to_user_id) => match csv_num(header, row, "AMOUNT"@) {
                            Err(f) => Err(f),
                            Ok(amount) => match csv_num(header, row, "TIMESTAMP"@) {
                                Err(f) => Err(f),
                                Ok(timestamp) => match cell(header, row, "STATUS"@) {
                                    None => Err(Fault::MissingField("STATUS"@)),
                                    Some(sv) => match Status::of_name(sv) {
                                        None => Err(Fault::InvalidEnum("STATUS"@)),
                                        Some(status) => match cell(header, row, "DESCRIPTION"@) {
                                            None => Err(Fault::MissingField("DESCRIPTION"@)),
                                            Some(description) => Ok(
                                                RecordView {
                                                    tx_id,
                                                    tx_type,
                                                    from_user_id,
                                                    to_user_id,
                                                    amount,
                                                    timestamp,
                                                    status,
                                                    description,
                                                },
                                            ),
                                        },
                                    },
                                },
                            },
                        },
                    },
                },
            },
        },
    }
}

/// The records of the data rows, or the error of the first row that fails.
pub open spec fn rows_records(header: Seq<Seq<char>>, rows: Seq<Seq<Seq<char>>>) -> Result<
    Seq<RecordView>,
    Fault,
>
    decreases rows.len(),
{
    if rows.len() == 0 {
        Ok(seq![])
    } else {
        match rows_records(header, rows.drop_last()) {
            Err(f) => Err(f),
            Ok(rs) => match row_record(header, rows.last()) {
                Ok(r) => Ok(rs.push(r)),
                Err(f) => Err(f),
            },
        }
    }
}

/// What decoding the comma-separated file `b` gives: the first row names
/// the columns, each later row is one record. No rows at all is no records.
pub open spec fn decode_csv(b: Seq<u8>) -> Result<Seq<RecordView>, Fault> {
    match csv_table_of(b) {
        None => Err(Fault::Engine),
        Some(t) => if t.len() == 0 {
            Ok(seq![])
        } else {
            rows_records(t[0], t.drop_first())
        },
    }
}

/// The index of the first column named `key`.
fn find_column(header: &Vec<String>, key: &str) -> (r: Option<usize>)
    ensures
        match r {
            Some(i) => i < header@.len() && column(fields_view(header@), key@) == Some(i as int),
            None => column(fields_view(header@), key@) is None,
        },
{
    let ghost h = fields_view(header@);
    let k = String::from_str(key);
    let mut j: usize = 0;
    while j < header.len()
        invariant
            j <= header@.len(),
            h == fields_view(header@),
            k@ == key@,
            column(h.take(j as int), key@) is None,
        decreases header@.len() - j,
    {
        proof {
            assert(h.take(j + 1).drop_last() =~= h.take(j as int));
            assert(h.take(j + 1).last() == header@[j as int]@);
        }
        if header[j] == k {
            proof {
                lemma_column_prefix(h, key@, j + 1);
            }
            return Some(j);
        }
        j = j + 1;
    }
    proof {
        assert(h.take(j as int) =~= h);
    }
    None
}

proof fn lemma_column_prefix(h: Seq<Seq<char>>, key: Seq<char>, k: int)
    requires
        0 <= k <= h.len(),
        column(h.take(k), key) is Some,
    ensures
        column(h, key) == column(h.take(k), key),
    decreases h.len(),
{
    if k == h.len() {
        assert(h.take(k) =~= h);
    } else {
        assert(h.drop_last().take(k) =~= h.take(k));
        lemma_column_prefix(h.drop_last(), key, k);
    }
}

/// The field of `row` under the column named `key`.
fn get_cell<'a>(header: &Vec<String>, row: &'a Vec<String>, key: &str) -> (r: Option<&'a String>)
    ensures
        match r {
            Some(v) => cell(fields_view(header@), fields_view(row@), key@) == Some(v@),
            None => cell(fields_view(header@), fields_view(row@), key@) is None,
        },
{
    match find_column(header, key) {
        Some(i) => if i < row.len() {
            Some(&row[i])
        } else {
            None
        },
        None => None,
    }
}

/// A numeric field, hexadecimal after `0x`.
fn read_number(v: &String) -> (r: Option<u64>)
    ensures
        r == csv_number(v@),
{
    let cs = chars_of(v.as_str());
    if cs.len() >= 2 && cs[0] == '0' && cs[1] == 'x' {
        proof {
            assert(cs@.subrange(2, cs@.len() as int) =~= cs@.skip(2));
        }
        parse_u64(&cs, 2, cs.len(), 16)
    } else {
        proof {
            assert(cs@.subrange(0, cs@.len() as int) =~= cs@);
        }
        parse_u64(&cs, 0, cs.len(), 10)
    }
}

fn get_num(header: &Vec<String>, row: &Vec<String>, key: &str) -> (r: Result<u64, CustomError>)
    ensures
        match r {
            Ok(n) => csv_num(fields_view(header@), fields_view(row@), key@) == Ok::<u64, Fault>(n),
            Err(e) => csv_num(fields_view(header@), fields_view(row@), key@) == Err::<u64, Fault>(
                e.fault(),
            ),
        },
{
    match get_cell(header, row, key) {
        None => Err(CustomError::MissingField(String::from_str(key))),
        Some(v) => match read_number(v) {
            Some(n) => Ok(n),
            None => Err(CustomError::InvalidNumber(String::from_str(key))),
        },
    }
}

/// The record of one data row.
fn read_row(header: &Vec<String>, row: &Vec<String>) -> (r: Result<Record, CustomError>)
    ensures
        match r {
            Ok(rec) => row_record(fields_view(header@), fields_view(row@)) == Ok::<
                RecordView,
                Fault,
            >(rec@),
            Err(e) => row_record(fields_view(header@), fields_view(row@)) == Err::<
                RecordView,
                Fault,
            >(e.fault()),
        },
{
    reveal(row_record);
    let tx_id = get_num(header, row, "TX_ID")?;
    let tx_type = match get_cell(header, row, "TX_TYPE") {
        None => {
            return Err(CustomError::MissingField(String::from_str("TX_TYPE")));
        },
        Some(v) => match TxType::from_name(&chars_of(v.as_str())) {
            Some(t) => t,
            None => {
                return Err(CustomError::InvalidEnum(String::from_str("TX_TYPE")));
            },
        },
    };
    let from_user_id = get_num(header, row, "FROM_USER_ID")?;
    let to_user_id = get_num(header, row, "TO_USER_ID")?;
    let amount = get_num(header, row, "AMOUNT")?;
    let timestamp = get_num(header, row, "TIMESTAMP")?;
    let status = match get_cell(header, row, "STATUS") {
        None => {
            return Err(CustomError::MissingField(String::from_str("STATUS")));
        },
        Some(v) => match Status::from_name(&chars_of(v.as_str())) {
            Some(s) => s,
            None => {
                return Err(CustomError::InvalidEnum(String::from_str("STATUS")));
            },
        },
    };
    let description = match get_cell(header, row, "DESCRIPTION") {
        None => {
            return Err(CustomError::MissingField(String::from_str("DESCRIPTION")));
        },
        Some(v) => v.clone(),
    };
    Ok(
        Record {
            tx_id,
            tx_type,
            from_user_id,
            to_user_id,
            amount,
            timestamp,
            status,
            description,
        },
    )
}

fn dec_string(n: u64) -> (r: String)
    ensures
        r@ == dec_chars(n as nat),
{
    let mut v: Vec<char> = Vec::new();
    push_dec(&mut v, n);
    proof {
        assert(v@ =~= dec_chars(n as nat));
    }
    string_of(&v)
}

/// The fields of `rec`, in header order.
fn fields_of(rec: &Record) -> (r: Vec<String>)
    ensures
        fields_view(r@) == row_fields(rec@),
{
    let r = vec![
        dec_string(rec.tx_id),
        String::from_str(rec.tx_type.as_str()),
        dec_string(rec.from_user_id),
        dec_string(rec.to_user_id),
        dec_string(rec.amount),
        dec_string(rec.timestamp),
        String::from_str(rec.status.as_str()),
        rec.description.clone(),
    ];
    proof {
        assert(fields_view(r@) =~= row_fields(rec@));
    }
    r
}

fn header_row() -> (r: Vec<String>)
    ensures
        fields_view(r@) == header_fields(),
{
    let r = vec![
        String::from_str("TX_ID"),
        String::from_str("TX_TYPE"),
        String::from_str("FROM_USER_ID"),
        String::from_str("TO_USER_ID"),
        String::from_str("AMOUNT"),
        String::from_str("TIMESTAMP"),
        String::from_str("STATUS"),
        String::from_str("DESCRIPTION"),
    ];
    proof {
        assert(fields_view(r@) =~= header_fields());
    }
    r
}

proof fn lemma_rows_records_err(header: Seq<Seq<char>>, rows: Seq<Seq<Seq<char>>>, k: int)
    requires
        0 <= k <= rows.len(),
        rows_records(header, rows.take(k)) is Err,
    ensures
        rows_records(header, rows) == rows_records(header, rows.take(k)),
    decreases rows.len(),
{
    if k == rows.len() {
        assert(rows.take(k) =~= rows);
    } else {
        assert(rows.drop_last().take(k) =~= rows.take(k));
        lemma_rows_records_err(header, rows.drop_last(), k);
    }
}

proof fn lemma_encode_none(rows: Seq<RecordView>, k: int)
    requires
        0 <= k <= rows.len(),
        encode_csv(rows.take(k)) is None,
    ensures
        encode_csv(rows) is None,
    decreases rows.len(),
{
    if k == rows.len() {
        assert(rows.take(k) =~= rows);
    } else {
        assert(rows.drop_last().take(k) =~= rows.take(k));
        lemma_encode_none(rows.drop_last(), k);
    }
}

impl From<Vec<Record>> for CsvFormat {
    fn from(records: Vec<Record>) -> (r: CsvFormat)
        ensures
            r.csv_rows == records,
    {
        CsvFormat { csv_rows: records }
    }
}

impl vstd::std_specs::convert::FromSpecImpl<Vec<Record>> for CsvFormat {
    open spec fn obeys_from_spec() -> bool {
        true
    }

    open spec fn from_spec(records: Vec<Record>) -> CsvFormat {
        CsvFormat { csv_rows: records }
    }
}

impl DataFormat for CsvFormat {
    open spec fn rows(&self) -> Seq<RecordView> {
        records_view(self.csv_rows@)
    }

    fn from_read(bytes: &[u8]) -> (r: Result<CsvFormat, CustomError>)
        ensures
            match r {
                Ok(f) => decode_csv(bytes@) == Ok::<Seq<RecordView>, Fault>(f.rows()),
                Err(e) => decode_csv(bytes@) == Err::<Seq<RecordView>, Fault>(e.fault()),
            },
    {
        let table = match read_table(bytes) {
            Ok(t) => t,
            Err(e) => {
                return Err(CustomError::Csv(e));
            },
        };
        let mut rows: Vec<Record> = Vec::new();
        if table.len() == 0 {
            proof {
                assert(records_view(rows@) =~= Seq::<RecordView>::empty());
            }
            return Ok(CsvFormat { csv_rows: rows });
        }
        let ghost t = table_view(table@);
        let ghost data = t.drop_first();
        let header = &table[0];
        let mut i: usize = 1;
        proof {
            assert(data.take(0) =~= Seq::<Seq<Seq<char>>>::empty());
            assert(records_view(rows@) =~= Seq::<RecordView>::empty());
        }
        while i < table.len()
            invariant
                1 <= i <= table@.len(),
                t == table_view(table@),
                csv_table_of(bytes@) == Some(t),
                data == t.drop_first(),
                fields_view(header@) == t[0],
                rows_records(t[0], data.take(i - 1)) == Ok::<Seq<RecordView>, Fault>(
                    records_view(rows@),
                ),
            decreases table@.len() - i,
        {
            proof {
                assert(data.take(i as int).drop_last() =~= data.take(i - 1));
                assert(data.take(i as int).last() == fields_view(table@[i as int]@));
            }
            match read_row(header, &table[i]) {
                Ok(rec) => {
                    let ghost before = rows@;
                    rows.push(rec);
                    proof {
                        assert(records_view(rows@) =~= records_view(before).push(rec@));
                    }
                },
                Err(e) => {
                    proof {
                        assert(rows_records(t[0], data.take(i as int)) == Err::<
                            Seq<RecordView>,
                            Fault,
                        >(e.fault()));
                        lemma_rows_records_err(t[0], data, i as int);
                        assert(t.len() > 0);
                    }
                    return Err(e);
                },
            }
            i = i + 1;
        }
        proof {
            assert(data.take(i - 1) =~= data);
        }
        Ok(CsvFormat { csv_rows: rows })
    }

    fn write_to(&self, out: &mut Vec<u8>) -> (r: Result<(), CustomError>)
        ensures
            r is Ok <==> encode_csv(self.rows()) is Some,
            r is Ok ==> final(out)@ == old(out)@ + encode_csv(self.rows()).unwrap(),
            r matches Err(e) ==> final(out)@ == old(out)@ && e.fault() == Fault::Engine,
    {
        let ghost rows = self.rows();
        let mut buf = match write_row(&header_row()) {
            Ok(b) => b,
            Err(e) => {
                proof {
                    assert(rows.take(0) =~= Seq::<RecordView>::empty());
                    lemma_encode_none(rows, 0);
                }
                return Err(CustomError::Csv(e));
            },
        };
        proof {
            assert(rows.take(0) =~= Seq::<RecordView>::empty());
        }
        for i in 0..self.csv_rows.len()
            invariant
                rows == self.rows(),
                encode_csv(rows.take(i as int)) == Some(buf@),
                out@ == old(out)@,
        {
            proof {
                assert(rows.take(i + 1).drop_last() =~= rows.take(i as int));
                assert(rows[i as int] == self.csv_rows@[i as int]@);
            }
            match write_row(&fields_of(&self.csv_rows[i])) {
                Ok(b) => {
                    push_bytes(&mut buf, b.as_slice());
                },
                Err(e) => {
                    proof {
                        lemma_encode_none(rows, i + 1);
                    }
                    return Err(CustomError::Csv(e));
                },
            }
        }
        proof {
            assert(rows.take(rows.len() as int) =~= rows);
        }
        push_bytes(out, buf.as_slice());
        Ok(())
    }
}

} // verus!
