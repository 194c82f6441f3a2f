use financial_parser::errors::ParseError;
use financial_parser::format::yp_bank_bin_format::{magic, YPBankBinParser};
use financial_parser::model::transaction::Transaction;
use financial_parser::model::transaction_status::TransactionStatus;
use financial_parser::model::transaction_type::TransactionType;

#[test]
fn test_parse_valid_yp_bank_bin() {
    let mut data = Vec::new();
    data.extend_from_slice(&magic());
    data.extend_from_slice(&51u32.to_be_bytes());
    data.extend_from_slice(&1001u64.to_be_bytes());
    data.push(0);
    data.extend_from_slice(&0u64.to_be_bytes());
    data.extend_from_slice(&501u64.to_be_bytes());
    data.extend_from_slice(&50000i64.to_be_bytes());
    data.extend_from_slice(&1672531200000u64.to_be_bytes());
    data.push(0);
    data.extend_from_slice(&9u32.to_be_bytes());
    data.extend_from_slice(b"Test desc");
    let transactions = YPBankBinParser::parse(&data).unwrap();
    assert_eq!(transactions.len(), 1);
    let tx = &transactions[0];
    assert_eq!(tx.tx_id, 1001);
    assert_eq!(tx.tx_type, TransactionType::Deposit);
    assert_eq!(tx.from_user_id, 0);
    assert_eq!(tx.to_user_id, 501);
    assert_eq!(tx.amount, 50000);
    assert_eq!(tx.timestamp, 1672531200000);
    assert_eq!(tx.status, TransactionStatus::Success);
    assert_eq!(tx.description, "Test desc");
}

/// Checks if amount is incorrect for chosen transaction type
#[test]
fn test_parse_invalid_amount() {
    let mut data = Vec::new();
    data.extend_from_slice(&magic());
    data.extend_from_slice(&51u32.to_be_bytes());
    data.extend_from_slice(&1001u64.to_be_bytes());
    data.push(0);
    data.extend_from_slice(&0u64.to_be_bytes());
    data.extend_from_slice(&501u64.to_be_bytes());
    data.extend_from_slice(&(-50000i64).to_be_bytes());
    data.extend_from_slice(&1672531200000u64.to_be_bytes());
    data.push(0);
    data.extend_from_slice(&9u32.to_be_bytes());
    data.extend_from_slice(b"Test desc");
    let transactions = YPBankBinParser::parse(&data);
    assert!(transactions.is_err());
}

/// Checks if serialized transaction conforms to YPBankBinFormat
#[test]
fn yp_bank_bin_format_tests_test_serialize_yp_bank_csv() {
    let transaction = Transaction {
        tx_id: 123,
        tx_type: TransactionType::Deposit,
        from_user_id: 0,
        to_user_id: 456,
        amount: 100,
        timestamp: 1633036800000,
        status: TransactionStatus::Success,
        description: "Test".to_string(),
    };
    let transactions = vec![transaction];
    let output = YPBankBinParser::write(&transactions).unwrap();
    let transactions_parsed_back = YPBankBinParser::parse(&output).unwrap();
    assert_eq!(transactions.len(), transactions_parsed_back.len());
    for (orig, parsed) in transactions.iter().zip(transactions_parsed_back.iter()) {
        assert_eq!(orig.tx_id, parsed.tx_id);
        assert_eq!(orig.tx_type, parsed.tx_type);
        assert_eq!(orig.from_user_id, parsed.from_user_id);
        assert_eq!(orig.to_user_id, parsed.to_user_id);
        assert_eq!(orig.amount, parsed.amount);
        assert_eq!(orig.timestamp, parsed.timestamp);
        assert_eq!(orig.status, parsed.status);
        assert_eq!(orig.description, parsed.description);
    }
}

/// A record whose wire amount is negative for a non-withdrawal type fails
/// with the amount/type-mismatch error.
#[test]
fn test_sign_mismatch_error_variant() {
    let mut data = Vec::new();
    data.extend_from_slice(&magic());
    data.extend_from_slice(&51u32.to_be_bytes());
    data.extend_from_slice(&1001u64.to_be_bytes());
    data.push(0);
    data.extend_from_slice(&0u64.to_be_bytes());
    data.extend_from_slice(&501u64.to_be_bytes());
    data.extend_from_slice(&(-50000i64).to_be_bytes());
    data.extend_from_slice(&1672531200000u64.to_be_bytes());
    data.push(0);
    data.extend_from_slice(&9u32.to_be_bytes());
    data.extend_from_slice(b"Test desc");
    match YPBankBinParser::parse(&data) {
        Err(ParseError::InvalidAmountForTransactionType(amount, tx_type)) => {
            assert_eq!(amount, -50000);
            assert_eq!(tx_type, TransactionType::Deposit);
        }
        other => panic!("expected amount/type mismatch, got {:?}", other),
    }
}

/// A positive wire amount on a withdrawal is a sign mismatch too.
#[test]
fn test_withdrawal_positive_amount_rejected() {
    let tx = Transaction {
        tx_id: 7,
        tx_type: TransactionType::Withdrawal,
        from_user_id: 5,
        to_user_id: 0,
        amount: 250,
        timestamp: 1672531200000,
        status: TransactionStatus::Pending,
        description: String::new(),
    };
    let bytes = YPBankBinParser::write(&vec![tx.clone()]).unwrap();
    // the wire amount is negative; flip its sign to corrupt the record
    let mut corrupt = bytes.clone();
    let wire: [u8; 8] = corrupt[33..41].try_into().unwrap();
    let flipped = (-i64::from_be_bytes(wire)).to_be_bytes();
    corrupt[33..41].copy_from_slice(&flipped);
    assert!(matches!(
        YPBankBinParser::parse(&corrupt),
        Err(ParseError::InvalidAmountForTransactionType(_, _))
    ));
    // the unmodified record reads back
    let back = YPBankBinParser::parse(&bytes).unwrap();
    assert_eq!(back[0].amount, 250);
}

/// A corrupted magic marker is a hard error naming both values.
#[test]
fn test_invalid_magic() {
    let tx = Transaction {
        tx_id: 1,
        tx_type: TransactionType::Transfer,
        from_user_id: 2,
        to_user_id: 3,
        amount: 4,
        timestamp: 5,
        status: TransactionStatus::Success,
        description: String::new(),
    };
    let mut bytes = YPBankBinParser::write(&vec![tx]).unwrap();
    bytes[0] = 0x00;
    assert!(matches!(
        YPBankBinParser::parse(&bytes),
        Err(ParseError::InvalidMagic(_, _))
    ));
}

/// A record size that does not match `42 + desc_len` is a hard error.
#[test]
fn test_invalid_record_size() {
    let tx = Transaction {
        tx_id: 1,
        tx_type: TransactionType::Transfer,
        from_user_id: 2,
        to_user_id: 3,
        amount: 4,
        timestamp: 5,
        status: TransactionStatus::Success,
        description: "abc".to_string(),
    };
    let mut bytes = YPBankBinParser::write(&vec![tx]).unwrap();
    bytes[4..8].copy_from_slice(&99u32.to_be_bytes());
    assert!(matches!(
        YPBankBinParser::parse(&bytes),
        Err(ParseError::InvalidData(_))
    ));
}

/// A truncated record is an I/O error, not a clean end of stream.
#[test]
fn test_truncated_record() {
    let tx = Transaction {
        tx_id: 1,
        tx_type: TransactionType::Transfer,
        from_user_id: 2,
        to_user_id: 3,
        amount: 4,
        timestamp: 5,
        status: TransactionStatus::Success,
        description: "abc".to_string(),
    };
    let bytes = YPBankBinParser::write(&vec![tx]).unwrap();
    let truncated = bytes[..bytes.len() - 2].to_vec();
    assert!(matches!(
        YPBankBinParser::parse(&truncated),
        Err(ParseError::Io(_))
    ));
}

/// Out-of-range type and status codes are rejected with their own errors.
#[test]
fn test_invalid_codes() {
    let tx = Transaction {
        tx_id: 1,
        tx_type: TransactionType::Transfer,
        from_user_id: 2,
        to_user_id: 3,
        amount: 4,
        timestamp: 5,
        status: TransactionStatus::Success,
        description: String::new(),
    };
    let bytes = YPBankBinParser::write(&vec![tx]).unwrap();
    let mut bad_type = bytes.clone();
    bad_type[16] = 9;
    assert!(matches!(
        YPBankBinParser::parse(&bad_type),
        Err(ParseError::InvalidTransactionType(_))
    ));
    let mut bad_status = bytes.clone();
    bad_status[49] = 7;
    assert!(matches!(
        YPBankBinParser::parse(&bad_status),
        Err(ParseError::InvalidTransactionStatus(_))
    ));
}

/// A description with multi-byte UTF-8 text survives the binary round
/// trip byte-exactly.
#[test]
fn test_unicode_description_round_trip() {
    let tx = Transaction {
        tx_id: 42,
        tx_type: TransactionType::Transfer,
        from_user_id: 1,
        to_user_id: 2,
        amount: 10,
        timestamp: 1672531200000,
        status: TransactionStatus::Failure,
        description: "caf\u{e9} \u{2713} \u{1f600}".to_string(),
    };
    let bytes = YPBankBinParser::write(&vec![tx.clone()]).unwrap();
    let back = YPBankBinParser::parse(&bytes).unwrap();
    assert_eq!(back.len(), 1);
    assert_eq!(back[0].description, "caf\u{e9} \u{2713} \u{1f600}");
    assert_eq!(back[0], tx);
}

/// An empty input decodes to an empty sequence: the clean end of stream.
#[test]
fn test_empty_input() {
    let empty: Vec<u8> = Vec::new();
    let transactions = YPBankBinParser::parse(&empty).unwrap();
    assert!(transactions.is_empty());
}
