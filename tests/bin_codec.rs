use data_parser::error::CustomError;
use data_parser::format::bin::BinFormat;
use data_parser::format::DataFormat;
use data_parser::models::{Record, Status, TxType};

fn bin_record() -> Record {
    Record {
        tx_id: 1,
        from_user_id: 10,
        to_user_id: 20,
        amount: 100,
        timestamp: 123456789,
        tx_type: TxType::DEPOSIT,
        status: Status::FAILURE,
        description: "Record number 1".to_string(),
    }
}

fn encode(rows: Vec<Record>) -> Vec<u8> {
    let bin = BinFormat { bin_rows: rows };
    let mut buf: Vec<u8> = Vec::new();
    bin.write_to(&mut buf).unwrap();
    buf
}

#[test]
fn bin_write_then_read() -> Result<(), CustomError> {
    let rec = bin_record();

    let bin = BinFormat {
        bin_rows: vec![rec.clone()],
    };

    let mut buf: Vec<u8> = Vec::new();
    bin.write_to(&mut buf).unwrap();

    let parsed = BinFormat::from_read(&buf)?;

    assert_eq!(parsed.bin_rows.len(), 1);
    assert_eq!(parsed.bin_rows[0], rec);

    Ok(())
}

#[test]
fn bin_end_to_end_single_record() {
    let rec = Record {
        tx_id: 1,
        tx_type: TxType::DEPOSIT,
        from_user_id: 10,
        to_user_id: 20,
        amount: 100,
        timestamp: 123456789,
        status: Status::SUCCESS,
        description: "Test".to_string(),
    };
    let buf = encode(vec![rec.clone()]);
    let parsed = BinFormat::from_read(&buf).unwrap();
    assert_eq!(parsed.bin_rows.len(), 1);
    let got = &parsed.bin_rows[0];
    assert_eq!(got.tx_id, 1);
    assert_eq!(got.tx_type, TxType::DEPOSIT);
    assert_eq!(got.from_user_id, 10);
    assert_eq!(got.to_user_id, 20);
    assert_eq!(got.amount, 100);
    assert_eq!(got.timestamp, 123456789);
    assert_eq!(got.status, Status::SUCCESS);
    assert_eq!(got.description, "Test");
}

#[test]
fn bin_frame_layout_is_exact() {
    let rec = Record {
        tx_id: 0x0102030405060708,
        tx_type: TxType::WITHDRAWAL,
        from_user_id: 1,
        to_user_id: 2,
        amount: 3,
        timestamp: 4,
        status: Status::PENDING,
        description: "ab".to_string(),
    };
    let buf = encode(vec![rec]);
    let mut want: Vec<u8> = vec![0x59, 0x50, 0x42, 0x4E, 0, 0, 0, 50];
    want.extend_from_slice(&[1, 2, 3, 4, 5, 6, 7, 8, 2]);
    want.extend_from_slice(&[0, 0, 0, 0, 0, 0, 0, 1]);
    want.extend_from_slice(&[0, 0, 0, 0, 0, 0, 0, 2]);
    want.extend_from_slice(&[0, 0, 0, 0, 0, 0, 0, 3]);
    want.extend_from_slice(&[0, 0, 0, 0, 0, 0, 0, 4]);
    want.extend_from_slice(&[2, 0, 0, 0, 4, b'"', b'a', b'b', b'"']);
    assert_eq!(buf, want);
}

#[test]
fn bin_round_trip_many_records_in_order() {
    let mut rows = Vec::new();
    for i in 0..5u64 {
        rows.push(Record {
            tx_id: i,
            tx_type: if i % 2 == 0 { TxType::TRANSFER } else { TxType::WITHDRAWAL },
            from_user_id: u64::MAX - i,
            to_user_id: i * 7,
            amount: i * 1000,
            timestamp: 1_700_000_000_000 + i,
            status: if i % 3 == 0 { Status::PENDING } else { Status::SUCCESS },
            description: format!("  \"quoted\" ünïcödé {} ", i),
        });
    }
    rows.push(Record {
        description: String::new(),
        ..bin_record()
    });
    let buf = encode(rows.clone());
    let parsed = BinFormat::from_read(&buf).unwrap();
    assert_eq!(parsed.bin_rows, rows);
}

#[test]
fn bin_empty_stream_is_no_records() {
    let parsed = BinFormat::from_read(&[]).unwrap();
    assert!(parsed.bin_rows.is_empty());
}

#[test]
fn bin_bad_magic_is_invalid_data() {
    let mut buf = encode(vec![bin_record()]);
    buf[0] = 0x58;
    match BinFormat::from_read(&buf) {
        Err(CustomError::InvalidData(_)) => {}
        other => panic!("expected InvalidData, got {:?}", other),
    }
    match BinFormat::from_read(&[0x59, 0x50]) {
        Err(CustomError::InvalidData(_)) => {}
        other => panic!("expected InvalidData, got {:?}", other),
    }
}

#[test]
fn bin_corrupt_second_frame_fails_whole_stream() {
    let mut buf = encode(vec![bin_record(), bin_record()]);
    let first = buf.len() / 2;
    buf[first + 1] = 0;
    assert!(matches!(
        BinFormat::from_read(&buf),
        Err(CustomError::InvalidData(_))
    ));
}

#[test]
fn bin_truncated_frame_is_unexpected_eof() {
    let buf = encode(vec![bin_record()]);
    for cut in [6usize, 20, buf.len() - 1] {
        assert!(matches!(
            BinFormat::from_read(&buf[..cut]),
            Err(CustomError::UnexpectedEof)
        ));
    }
}

#[test]
fn bin_bad_ordinals_are_invalid_enum() {
    let mut buf = encode(vec![bin_record()]);
    buf[16] = 3;
    match BinFormat::from_read(&buf) {
        Err(CustomError::InvalidEnum(k)) => assert_eq!(k, "TX_TYPE"),
        other => panic!("expected InvalidEnum, got {:?}", other),
    }
    let mut buf = encode(vec![bin_record()]);
    buf[49] = 9;
    match BinFormat::from_read(&buf) {
        Err(CustomError::InvalidEnum(k)) => assert_eq!(k, "STATUS"),
        other => panic!("expected InvalidEnum, got {:?}", other),
    }
}

#[test]
fn bin_body_length_mismatch_is_invalid_data() {
    let mut buf = encode(vec![bin_record()]);
    buf[7] += 1;
    buf.push(0);
    assert!(matches!(
        BinFormat::from_read(&buf),
        Err(CustomError::InvalidData(_))
    ));
}

#[test]
fn bin_invalid_utf8_description_is_invalid_data() {
    let mut buf = encode(vec![bin_record()]);
    buf[55] = 0xFF;
    assert!(matches!(
        BinFormat::from_read(&buf),
        Err(CustomError::InvalidData(_))
    ));
}
