use data_parser::compare::{check_file, first_mismatch};
use data_parser::models::{Format, InputFormat, Record, Status, TxType};
use data_parser::{decode_as, encode_as};
use data_parser::format::bin::BinFormat;

fn records(n: u64) -> Vec<Record> {
    (0..n)
        .map(|i| Record {
            tx_id: i,
            tx_type: TxType::DEPOSIT,
            from_user_id: 1,
            to_user_id: 2,
            amount: 100 + i,
            timestamp: 1000 + i,
            status: Status::SUCCESS,
            description: format!("tx {}", i),
        })
        .collect()
}

#[test]
fn convert_between_all_formats_keeps_records() {
    let rows = records(3);
    for (from, to) in [
        (Format::Bin, Format::Csv),
        (Format::Csv, Format::Bin),
        (Format::Bin, Format::Bin),
        (Format::Csv, Format::Csv),
    ] {
        let start = encode_as(from, InputFormat::Bin(BinFormat { bin_rows: rows.clone() })).unwrap();
        let decoded = decode_as(&start, from).unwrap();
        let converted = encode_as(to, decoded).unwrap();
        assert_eq!(decode_as(&converted, to).unwrap().get_record(), rows);
    }
    let txt = encode_as(Format::Txt, InputFormat::Bin(BinFormat { bin_rows: rows.clone() })).unwrap();
    let mut closed = txt.clone();
    closed.push(b'\n');
    assert_eq!(decode_as(&closed, Format::Txt).unwrap().get_record(), rows);
    assert_eq!(decode_as(&txt, Format::Txt).unwrap().get_record(), rows[..2].to_vec());
}

#[test]
fn compare_reports_first_differing_index() {
    let a = records(4);
    let mut b = records(4);
    b[2].amount += 1;
    assert_eq!(first_mismatch(&a, &b), Some(2));
    let one = InputFormat::Bin(BinFormat { bin_rows: a.clone() });
    let two = InputFormat::Bin(BinFormat { bin_rows: b });
    assert_eq!(check_file(one, two), Some(a[2].clone()));
}

#[test]
fn compare_unequal_lengths_reports_end_of_shorter() {
    let a = records(3);
    let b = records(5);
    assert_eq!(first_mismatch(&a, &b), Some(3));
    assert_eq!(first_mismatch(&b, &a), Some(3));
    let one = InputFormat::Bin(BinFormat { bin_rows: a });
    let two = InputFormat::Bin(BinFormat { bin_rows: b.clone() });
    assert_eq!(check_file(one, two), Some(b[3].clone()));
}

#[test]
fn compare_equal_sequences_is_none() {
    assert_eq!(first_mismatch(&records(3), &records(3)), None);
    assert_eq!(first_mismatch(&Vec::new(), &Vec::new()), None);
    let one = InputFormat::Bin(BinFormat { bin_rows: records(2) });
    let two = InputFormat::Bin(BinFormat { bin_rows: records(2) });
    assert_eq!(check_file(one, two), None);
}

#[test]
fn enum_ordinals_and_names() {
    assert_eq!(TxType::from_ordinal(2), Some(TxType::WITHDRAWAL));
    assert_eq!(TxType::from_ordinal(3), None);
    assert_eq!(Status::from_ordinal(1), Some(Status::FAILURE));
    assert_eq!(Status::from_ordinal(255), None);
    assert_eq!(TxType::TRANSFER.to_ordinal(), 1);
    assert_eq!(Status::PENDING.as_str(), "PENDING");
    assert_eq!(TxType::from_name(&"DEPOSIT".chars().collect()), Some(TxType::DEPOSIT));
    assert_eq!(Status::from_name(&"SUCCES".chars().collect()), None);
}
