use financial_parser::errors::ParseError;
use financial_parser::format::yp_bank_csv_format::YPBankCsvParser;
use financial_parser::model::transaction::Transaction;
use financial_parser::model::transaction_status::TransactionStatus;
use financial_parser::model::transaction_type::TransactionType;

const SAMPLE_YP_BANK_CSV: &str = "TX_ID,TX_TYPE,FROM_USER_ID,TO_USER_ID,AMOUNT,TIMESTAMP,STATUS,DESCRIPTION\n1001,DEPOSIT,0,501,50000,1672531200000,SUCCESS,\"Initial account funding\"\n1002,TRANSFER,501,502,15000,1672534800000,FAILURE,\"Payment for services, invoice #123\"\n1003,WITHDRAWAL,502,0,1000,1672538400000,PENDING,\"ATM withdrawal\"\n";

/// Check if provided csv data is valid YPBankCsvFormat
#[test]
fn test_parse_valid_yp_bank_csv() {
    let data = SAMPLE_YP_BANK_CSV.as_bytes().to_vec();
    let result = YPBankCsvParser::parse(&data);
    assert!(result.is_ok());
    let transactions = result.unwrap();
    assert_eq!(transactions.len(), 3);
    let deposit = &transactions[0];
    assert_eq!(deposit.tx_id, 1001);
    assert_eq!(deposit.tx_type, TransactionType::Deposit);
    assert_eq!(deposit.from_user_id, 0);
    assert_eq!(deposit.to_user_id, 501);
    assert_eq!(deposit.amount, 50000);
    assert_eq!(deposit.timestamp, 1672531200000);
    assert_eq!(deposit.status, TransactionStatus::Success);
    assert_eq!(deposit.description, "Initial account funding");
    let transfer = &transactions[1];
    assert_eq!(transfer.tx_type, TransactionType::Transfer);
    assert_eq!(transfer.status, TransactionStatus::Failure);
    let withdrawal = &transactions[2];
    assert_eq!(withdrawal.tx_type, TransactionType::Withdrawal);
    assert_eq!(withdrawal.to_user_id, 0);
}

/// Checks if serialized transaction conforms to YPBankCsvFormat
#[test]
fn yp_bank_csv_format_tests_test_serialize_yp_bank_csv() {
    let transaction = Transaction {
        tx_id: 123,
        tx_type: TransactionType::Deposit,
        from_user_id: 0,
        to_user_id: 456,
        amount: 100,
        timestamp: 1633036800000,
        status: TransactionStatus::Success,
        description: "Test".to_string(),
    };
    let transactions = vec![transaction];
    let output = YPBankCsvParser::write(&transactions).unwrap();
    let output_str = String::from_utf8(output.clone()).unwrap();
    let first_line = output_str.lines().next().unwrap();
    assert_eq!(
        first_line,
        "TX_ID,TX_TYPE,FROM_USER_ID,TO_USER_ID,AMOUNT,TIMESTAMP,STATUS,DESCRIPTION"
    );
    let transactions_parsed_back = YPBankCsvParser::parse(&output).unwrap();
    assert_eq!(transactions.len(), transactions_parsed_back.len());
    for (orig, parsed) in transactions.iter().zip(transactions_parsed_back.iter()) {
        assert_eq!(orig.tx_id, parsed.tx_id);
        assert_eq!(orig.tx_type, parsed.tx_type);
        assert_eq!(orig.from_user_id, parsed.from_user_id);
        assert_eq!(orig.to_user_id, parsed.to_user_id);
        assert_eq!(orig.amount, parsed.amount);
        assert_eq!(orig.timestamp, parsed.timestamp);
        assert_eq!(orig.status, parsed.status);
        assert_eq!(orig.description, parsed.description);
    }
}

/// Swapping two header columns fails with the header-mismatch error even
/// when every data row is well formed.
#[test]
fn test_swapped_header_columns_rejected() {
    let data = "TX_TYPE,TX_ID,FROM_USER_ID,TO_USER_ID,AMOUNT,TIMESTAMP,STATUS,DESCRIPTION\nDEPOSIT,1001,0,501,50000,1672531200000,SUCCESS,\"ok\"\n"
        .as_bytes()
        .to_vec();
    assert!(matches!(
        YPBankCsvParser::parse(&data),
        Err(ParseError::InvalidHeader(_, _))
    ));
}

/// An extra or missing header column fails with the header-mismatch error.
#[test]
fn test_wrong_header_column_count_rejected() {
    let missing = "TX_ID,TX_TYPE,FROM_USER_ID,TO_USER_ID,AMOUNT,TIMESTAMP,STATUS\n"
        .as_bytes()
        .to_vec();
    assert!(matches!(
        YPBankCsvParser::parse(&missing),
        Err(ParseError::InvalidHeader(_, _))
    ));
    let extra = "TX_ID,TX_TYPE,FROM_USER_ID,TO_USER_ID,AMOUNT,TIMESTAMP,STATUS,DESCRIPTION,EXTRA\n"
        .as_bytes()
        .to_vec();
    assert!(matches!(
        YPBankCsvParser::parse(&extra),
        Err(ParseError::InvalidHeader(_, _))
    ));
}

/// A data row with the wrong field count fails with the record error.
#[test]
fn test_wrong_field_count_rejected() {
    let data = "TX_ID,TX_TYPE,FROM_USER_ID,TO_USER_ID,AMOUNT,TIMESTAMP,STATUS,DESCRIPTION\n1001,DEPOSIT,0,501,50000,1672531200000,SUCCESS\n"
        .as_bytes()
        .to_vec();
    assert!(matches!(
        YPBankCsvParser::parse(&data),
        Err(ParseError::InvalidRecord(_, _))
    ));
}

/// Blank rows and whitespace-only rows never appear in the decoded output
/// and never trigger field-count errors.
#[test]
fn test_blank_rows_skipped() {
    let data = "TX_ID,TX_TYPE,FROM_USER_ID,TO_USER_ID,AMOUNT,TIMESTAMP,STATUS,DESCRIPTION\n\n1001,DEPOSIT,0,501,50000,1672531200000,SUCCESS,\"x\"\n   \n\n1003,WITHDRAWAL,502,0,1000,1672538400000,PENDING,\"y\"\n\n"
        .as_bytes()
        .to_vec();
    let transactions = YPBankCsvParser::parse(&data).unwrap();
    assert_eq!(transactions.len(), 2);
    assert_eq!(transactions[0].tx_id, 1001);
    assert_eq!(transactions[1].tx_id, 1003);
}

/// A non-positive amount in a row is rejected with the amount error.
#[test]
fn test_non_positive_amount_rejected() {
    let data = "TX_ID,TX_TYPE,FROM_USER_ID,TO_USER_ID,AMOUNT,TIMESTAMP,STATUS,DESCRIPTION\n1001,DEPOSIT,0,501,-5,1672531200000,SUCCESS,\"x\"\n"
        .as_bytes()
        .to_vec();
    match YPBankCsvParser::parse(&data) {
        Err(ParseError::InvalidAmount(a)) => assert_eq!(a, -5),
        other => panic!("expected invalid amount, got {:?}", other),
    }
    let zero = "TX_ID,TX_TYPE,FROM_USER_ID,TO_USER_ID,AMOUNT,TIMESTAMP,STATUS,DESCRIPTION\n1001,DEPOSIT,0,501,0,1672531200000,SUCCESS,\"x\"\n"
        .as_bytes()
        .to_vec();
    assert!(matches!(
        YPBankCsvParser::parse(&zero),
        Err(ParseError::InvalidAmount(0))
    ));
}

/// An unparseable numeric field is rejected with a validation message
/// naming the raw value.
#[test]
fn test_bad_number_rejected() {
    let data = "TX_ID,TX_TYPE,FROM_USER_ID,TO_USER_ID,AMOUNT,TIMESTAMP,STATUS,DESCRIPTION\nnot_a_number,DEPOSIT,0,501,50000,1672531200000,SUCCESS,\"x\"\n"
        .as_bytes()
        .to_vec();
    match YPBankCsvParser::parse(&data) {
        Err(ParseError::Validation(msg)) => assert!(msg.contains("not_a_number")),
        other => panic!("expected validation error, got {:?}", other),
    }
}

/// The writer aborts before emitting a row with a non-positive amount.
#[test]
fn test_csv_write_rejects_non_positive_amount() {
    let transaction = Transaction {
        tx_id: 1,
        tx_type: TransactionType::Deposit,
        from_user_id: 0,
        to_user_id: 2,
        amount: 0,
        timestamp: 3,
        status: TransactionStatus::Success,
        description: String::new(),
    };
    assert!(matches!(
        YPBankCsvParser::write(&vec![transaction]),
        Err(ParseError::InvalidAmount(0))
    ));
}

/// A description holding commas and quotes is quoted on write and read
/// back unchanged.
#[test]
fn test_quoted_description_round_trip() {
    let transaction = Transaction {
        tx_id: 9,
        tx_type: TransactionType::Transfer,
        from_user_id: 1,
        to_user_id: 2,
        amount: 7,
        timestamp: 11,
        status: TransactionStatus::Pending,
        description: "He said \"hi\", twice".to_string(),
    };
    let transactions = vec![transaction];
    let output = YPBankCsvParser::write(&transactions).unwrap();
    let back = YPBankCsvParser::parse(&output).unwrap();
    assert_eq!(back.len(), 1);
    assert_eq!(back[0].description, "He said \"hi\", twice");
}

/// A description with leading and trailing whitespace is quoted on write
/// so that trimming cannot eat it, and reads back unchanged.
#[test]
fn test_padded_description_round_trip() {
    let transaction = Transaction {
        tx_id: 10,
        tx_type: TransactionType::Deposit,
        from_user_id: 0,
        to_user_id: 2,
        amount: 7,
        timestamp: 11,
        status: TransactionStatus::Success,
        description: "  padded  ".to_string(),
    };
    let transactions = vec![transaction];
    let output = YPBankCsvParser::write(&transactions).unwrap();
    let back = YPBankCsvParser::parse(&output).unwrap();
    assert_eq!(back[0].description, "  padded  ");
}

/// The reader is line-oriented: a quoted field cannot span lines, so a
/// description holding a line break is written but does not read back.
#[test]
fn test_multiline_description_not_readable() {
    let transaction = Transaction {
        tx_id: 11,
        tx_type: TransactionType::Transfer,
        from_user_id: 1,
        to_user_id: 2,
        amount: 7,
        timestamp: 13,
        status: TransactionStatus::Success,
        description: "two\nlines".to_string(),
    };
    let output = YPBankCsvParser::write(&vec![transaction]).unwrap();
    assert!(matches!(
        YPBankCsvParser::parse(&output),
        Err(ParseError::InvalidData(_))
    ));
}

/// Type and status tokens are matched case-insensitively.
#[test]
fn test_case_insensitive_tokens() {
    let data = "TX_ID,TX_TYPE,FROM_USER_ID,TO_USER_ID,AMOUNT,TIMESTAMP,STATUS,DESCRIPTION\n1001,deposit,0,501,50000,1672531200000,Success,\"x\"\n"
        .as_bytes()
        .to_vec();
    let transactions = YPBankCsvParser::parse(&data).unwrap();
    assert_eq!(transactions[0].tx_type, TransactionType::Deposit);
    assert_eq!(transactions[0].status, TransactionStatus::Success);
}

/// An unterminated quoted field is a hard error.
#[test]
fn test_unterminated_quote_rejected() {
    let data = "TX_ID,TX_TYPE,FROM_USER_ID,TO_USER_ID,AMOUNT,TIMESTAMP,STATUS,DESCRIPTION\n1001,DEPOSIT,0,501,50000,1672531200000,SUCCESS,\"oops\n"
        .as_bytes()
        .to_vec();
    assert!(matches!(
        YPBankCsvParser::parse(&data),
        Err(ParseError::InvalidData(_))
    ));
}
