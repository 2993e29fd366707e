use data_parser::error::CustomError;
use data_parser::format::txt::TxtFormat;
use data_parser::format::DataFormat;
use data_parser::models::{Record, Status, TxType};

fn txt_record() -> Record {
    Record {
        tx_id: 1,
        from_user_id: 10,
        to_user_id: 20,
        amount: 100,
        timestamp: 123456789,
        tx_type: TxType::DEPOSIT,
        status: Status::FAILURE,
        description: "Record number 1".to_string(),
    }
}

fn encode(rows: Vec<Record>) -> Vec<u8> {
    let txt = TxtFormat { txt_rows: rows };
    let mut buf: Vec<u8> = Vec::new();
    txt.write_to(&mut buf).unwrap();
    buf
}

const FULL_BLOCK: &str = "TX_ID: 7\nTX_TYPE: TRANSFER\nFROM_USER_ID: 1\nTO_USER_ID: 2\nAMOUNT: 300\nTIMESTAMP: 99\nSTATUS: PENDING\nDESCRIPTION: \"hi\"\n";

#[test]
fn txt_write_then_read() -> Result<(), CustomError> {
    let rec = txt_record();

    let txt = TxtFormat {
        txt_rows: vec![rec.clone()],
    };

    let mut buf: Vec<u8> = Vec::new();
    txt.write_to(&mut buf)?;
    // The encoder writes no separator after the last block; one closes it.
    buf.push(b'\n');

    let parsed = TxtFormat::from_read(&buf)?;

    assert_eq!(parsed.txt_rows.len(), 1);
    assert_eq!(parsed.txt_rows[0], rec);

    Ok(())
}

#[test]
fn txt_encoding_is_exact() {
    let buf = encode(vec![txt_record()]);
    let text = String::from_utf8(buf).unwrap();
    assert_eq!(
        text,
        "# Record 1 (DEPOSIT)\nTX_ID: 1\nTX_TYPE: DEPOSIT\nFROM_USER_ID: 10\nTO_USER_ID: 20\nAMOUNT: 100\nTIMESTAMP: 123456789\nSTATUS: FAILURE\nDESCRIPTION: \"Record number 1\"\n"
    );
}

#[test]
fn txt_round_trip_needs_a_closing_separator() {
    let rows = vec![
        txt_record(),
        Record {
            tx_id: 2,
            tx_type: TxType::WITHDRAWAL,
            status: Status::SUCCESS,
            description: " spaced: with colon ".to_string(),
            ..txt_record()
        },
        Record {
            tx_id: 3,
            description: String::new(),
            ..txt_record()
        },
    ];
    let buf = encode(rows.clone());
    let without = TxtFormat::from_read(&buf).unwrap();
    assert_eq!(without.txt_rows, rows[..2].to_vec());
    let mut closed = buf.clone();
    closed.extend_from_slice(b"\n");
    assert_eq!(TxtFormat::from_read(&closed).unwrap().txt_rows, rows);
    let mut commented = buf;
    commented.extend_from_slice(b"# end\n");
    assert_eq!(TxtFormat::from_read(&commented).unwrap().txt_rows, rows);
}

#[test]
fn txt_missing_status_is_missing_field() {
    let text = "# one\nTX_ID: 7\nTX_TYPE: TRANSFER\nFROM_USER_ID: 1\nTO_USER_ID: 2\nAMOUNT: 300\nTIMESTAMP: 99\nDESCRIPTION: \"hi\"\n\n";
    match TxtFormat::from_read(text.as_bytes()) {
        Err(CustomError::MissingField(k)) => assert_eq!(k, "STATUS"),
        other => panic!("expected MissingField, got {:?}", other),
    }
}

#[test]
fn txt_missing_tx_type_names_tx_type() {
    let text = "TX_ID: 7\nFROM_USER_ID: 1\nTO_USER_ID: 2\nAMOUNT: 300\nTIMESTAMP: 99\nSTATUS: PENDING\nDESCRIPTION: x\n#\n";
    match TxtFormat::from_read(text.as_bytes()) {
        Err(CustomError::MissingField(k)) => assert_eq!(k, "TX_TYPE"),
        other => panic!("expected MissingField, got {:?}", other),
    }
}

#[test]
fn txt_non_numeric_is_invalid_number() {
    let text = FULL_BLOCK.replace("AMOUNT: 300", "AMOUNT: 3o0") + "\n";
    match TxtFormat::from_read(text.as_bytes()) {
        Err(CustomError::InvalidNumber(k)) => assert_eq!(k, "AMOUNT"),
        other => panic!("expected InvalidNumber, got {:?}", other),
    }
    let text = FULL_BLOCK.replace("TX_ID: 7", "TX_ID: 18446744073709551616") + "\n";
    match TxtFormat::from_read(text.as_bytes()) {
        Err(CustomError::InvalidNumber(k)) => assert_eq!(k, "TX_ID"),
        other => panic!("expected InvalidNumber, got {:?}", other),
    }
}

#[test]
fn txt_unknown_variant_is_invalid_enum() {
    let text = FULL_BLOCK.replace("STATUS: PENDING", "STATUS: pending") + "\n";
    match TxtFormat::from_read(text.as_bytes()) {
        Err(CustomError::InvalidEnum(k)) => assert_eq!(k, "STATUS"),
        other => panic!("expected InvalidEnum, got {:?}", other),
    }
}

#[test]
fn txt_reads_crlf_spacing_plus_sign_and_last_duplicate() {
    let text = "#\r\n  TX_ID :  +7  \r\nTX_TYPE: DEPOSIT\r\nTX_TYPE: TRANSFER\r\nFROM_USER_ID: 18446744073709551615\r\nTO_USER_ID: 2\r\nnot a pair\r\nAMOUNT: 300\r\nTIMESTAMP: 99\r\nSTATUS: SUCCESS\r\nDESCRIPTION: \"a: b\"\r\n\r\n";
    let parsed = TxtFormat::from_read(text.as_bytes()).unwrap();
    assert_eq!(
        parsed.txt_rows,
        vec![Record {
            tx_id: 7,
            tx_type: TxType::TRANSFER,
            from_user_id: u64::MAX,
            to_user_id: 2,
            amount: 300,
            timestamp: 99,
            status: Status::SUCCESS,
            description: "a: b".to_string(),
        }]
    );
}

#[test]
fn txt_empty_and_separator_only_inputs_have_no_records() {
    assert!(TxtFormat::from_read(b"").unwrap().txt_rows.is_empty());
    assert!(TxtFormat::from_read(b"\n# c\n\n").unwrap().txt_rows.is_empty());
    assert!(TxtFormat::from_read(FULL_BLOCK.as_bytes()).unwrap().txt_rows.is_empty());
}

#[test]
fn txt_invalid_utf8_is_invalid_data() {
    assert!(matches!(
        TxtFormat::from_read(&[b'T', 0xC3, 0x28, b'\n']),
        Err(CustomError::InvalidData(_))
    ));
}

fn pair(k: &str, v: &str) -> (Vec<char>, Vec<char>) {
    (k.chars().collect(), v.chars().collect())
}

#[test]
fn txt_get_num_reads_last_value_of_key() {
    let block = vec![pair("AMOUNT", "5"), pair("TX_ID", "x"), pair("AMOUNT", "42")];
    assert_eq!(data_parser::format::txt::get_num(&block, "AMOUNT").unwrap(), 42);
    assert!(matches!(
        data_parser::format::txt::get_num(&block, "TX_ID"),
        Err(CustomError::InvalidNumber(k)) if k == "TX_ID"
    ));
    assert!(matches!(
        data_parser::format::txt::get_num(&block, "TIMESTAMP"),
        Err(CustomError::MissingField(k)) if k == "TIMESTAMP"
    ));
}

#[test]
fn txt_created_record_from_pairs() {
    let block = vec![
        pair("DESCRIPTION", "\"x y\""),
        pair("STATUS", "FAILURE"),
        pair("TIMESTAMP", "6"),
        pair("AMOUNT", "5"),
        pair("TO_USER_ID", "4"),
        pair("FROM_USER_ID", "3"),
        pair("TX_TYPE", "WITHDRAWAL"),
        pair("TX_ID", "2"),
    ];
    let rec = TxtFormat::created_record(&block).unwrap();
    assert_eq!(
        rec,
        Record {
            tx_id: 2,
            tx_type: TxType::WITHDRAWAL,
            from_user_id: 3,
            to_user_id: 4,
            amount: 5,
            timestamp: 6,
            status: Status::FAILURE,
            description: "x y".to_string(),
        }
    );
}
