use data_parser::error::CustomError;
use data_parser::format::csv::CsvFormat;
use data_parser::format::DataFormat;
use data_parser::models::{Record, Status, TxType};

fn sample_record() -> Record {
    Record {
        tx_id: 1,
        tx_type: TxType::DEPOSIT,
        from_user_id: 10,
        to_user_id: 20,
        amount: 100,
        timestamp: 123456789,
        status: Status::SUCCESS,
        description: "Test record".to_string(),
    }
}

const HEADER: &str = "TX_ID,TX_TYPE,FROM_USER_ID,TO_USER_ID,AMOUNT,TIMESTAMP,STATUS,DESCRIPTION\n";

#[test]
fn csv_encoding_is_exact() {
    let csv = CsvFormat {
        csv_rows: vec![sample_record()],
    };
    let mut buf = Vec::new();
    csv.write_to(&mut buf).unwrap();
    assert_eq!(
        String::from_utf8(buf).unwrap(),
        format!("{}1,DEPOSIT,10,20,100,123456789,SUCCESS,Test record\n", HEADER)
    );
}

#[test]
fn csv_write_then_read() {
    let rows = vec![
        sample_record(),
        Record {
            tx_id: 2,
            tx_type: TxType::WITHDRAWAL,
            status: Status::PENDING,
            description: "with, comma and \"quotes\"".to_string(),
            ..sample_record()
        },
    ];
    let csv = CsvFormat {
        csv_rows: rows.clone(),
    };
    let mut buf = Vec::new();
    csv.write_to(&mut buf).unwrap();
    assert_eq!(CsvFormat::from_read(&buf).unwrap().csv_rows, rows);
}

#[test]
fn csv_header_only_writes_for_no_records() {
    let csv = CsvFormat { csv_rows: vec![] };
    let mut buf = Vec::new();
    csv.write_to(&mut buf).unwrap();
    assert_eq!(String::from_utf8(buf.clone()).unwrap(), HEADER);
    assert!(CsvFormat::from_read(&buf).unwrap().csv_rows.is_empty());
    assert!(CsvFormat::from_read(b"").unwrap().csv_rows.is_empty());
}

#[test]
fn csv_non_numeric_amount_is_invalid_number() {
    let text = format!("{}1,DEPOSIT,10,20,abc,123456789,SUCCESS,x\n", HEADER);
    match CsvFormat::from_read(text.as_bytes()) {
        Err(CustomError::InvalidNumber(k)) => assert_eq!(k, "AMOUNT"),
        other => panic!("expected InvalidNumber, got {:?}", other),
    }
}

#[test]
fn csv_binds_columns_by_header_name() {
    let text = "DESCRIPTION,STATUS,EXTRA,TIMESTAMP,AMOUNT,TO_USER_ID,FROM_USER_ID,TX_TYPE,TX_ID\nhello,FAILURE,zz,5,0x1F,4,3,TRANSFER,+9\n";
    let parsed = CsvFormat::from_read(text.as_bytes()).unwrap();
    assert_eq!(
        parsed.csv_rows,
        vec![Record {
            tx_id: 9,
            tx_type: TxType::TRANSFER,
            from_user_id: 3,
            to_user_id: 4,
            amount: 31,
            timestamp: 5,
            status: Status::FAILURE,
            description: "hello".to_string(),
        }]
    );
}

#[test]
fn csv_missing_column_is_missing_field() {
    let text = "TX_ID,TX_TYPE,FROM_USER_ID,TO_USER_ID,AMOUNT,TIMESTAMP,DESCRIPTION\n1,DEPOSIT,1,2,3,4,d\n";
    match CsvFormat::from_read(text.as_bytes()) {
        Err(CustomError::MissingField(k)) => assert_eq!(k, "STATUS"),
        other => panic!("expected MissingField, got {:?}", other),
    }
}

#[test]
fn csv_unknown_variant_is_invalid_enum() {
    let text = format!("{}1,DEPOSIT,10,20,1,2,DONE,x\n", HEADER);
    match CsvFormat::from_read(text.as_bytes()) {
        Err(CustomError::InvalidEnum(k)) => assert_eq!(k, "STATUS"),
        other => panic!("expected InvalidEnum, got {:?}", other),
    }
}

#[test]
fn csv_ragged_row_is_engine_error() {
    let text = format!("{}1,DEPOSIT,10\n", HEADER);
    assert!(matches!(
        CsvFormat::from_read(text.as_bytes()),
        Err(CustomError::Csv(_))
    ));
}
