use financial_parser::errors::ParseError;
use financial_parser::format::yp_bank_text_format::YPBankTextParser;
use financial_parser::model::transaction::Transaction;
use financial_parser::model::transaction_status::TransactionStatus;
use financial_parser::model::transaction_type::TransactionType;

const SAMPLE_YP_BANK_TEXT: &str = "# Record 1 (Deposit)\nTX_ID: 1234567890123456\nTX_TYPE: DEPOSIT\nFROM_USER_ID: 0\nTO_USER_ID: 9876543210987654\nAMOUNT: 10000\nTIMESTAMP: 1633036800000\nSTATUS: SUCCESS\nDESCRIPTION: \"Terminal deposit\"\n\n# Record 2 (Transfer)\nTX_ID: 2312321321321321\nTIMESTAMP: 1633056800000\nSTATUS: FAILURE\nTX_TYPE: TRANSFER\nFROM_USER_ID: 1231231231231231\nTO_USER_ID: 9876543210987654\nAMOUNT: 1000\nDESCRIPTION: \"User transfer\"\n\n# Record 3 (Withdrawal)\nTX_ID: 3213213213213213\nAMOUNT: 100\nTX_TYPE: WITHDRAWAL\nFROM_USER_ID: 9876543210987654\nTO_USER_ID: 0\nTIMESTAMP: 1633066800000\nSTATUS: SUCCESS\nDESCRIPTION: \"User withdrawal\"\n";

/// Check if provided text data is valid YPBankTextFormat
///
/// Fields within record can be placed in no particular order
///
/// Records separated with empty string
///
/// Lines started with # sign are ignored
#[test]
fn test_parse_valid_yp_bank_text() {
    let data = SAMPLE_YP_BANK_TEXT.as_bytes().to_vec();
    let result = YPBankTextParser::parse(&data);
    assert!(result.is_ok());
    let transactions = result.unwrap();
    assert_eq!(transactions.len(), 3);
    let deposit = &transactions[0];
    assert_eq!(deposit.tx_id, 1234567890123456);
    assert_eq!(deposit.tx_type, TransactionType::Deposit);
    assert_eq!(deposit.from_user_id, 0);
    assert_eq!(deposit.to_user_id, 9876543210987654);
    assert_eq!(deposit.amount, 10000);
    assert_eq!(deposit.timestamp, 1633036800000);
    assert_eq!(deposit.status, TransactionStatus::Success);
    assert_eq!(deposit.description, "Terminal deposit");
    let transfer = &transactions[1];
    assert_eq!(transfer.tx_type, TransactionType::Transfer);
    assert_eq!(transfer.status, TransactionStatus::Failure);
    let withdrawal = &transactions[2];
    assert_eq!(withdrawal.tx_type, TransactionType::Withdrawal);
    assert_eq!(withdrawal.to_user_id, 0);
}

/// Checks if invalid format data results in Err
#[test]
fn test_parse_invalid_format() {
    let invalid_data = "TX_ID: not_a_number\nTX_TYPE: DEPOSIT\n";
    let data = invalid_data.as_bytes().to_vec();
    let result = YPBankTextParser::parse(&data);
    assert!(result.is_err());
}

/// Checks if missing fields results in Err
#[test]
fn test_parse_missing_field() {
    let missing_field = "TX_ID: 123\nTX_TYPE: DEPOSIT\nFROM_USER_ID: 0\nTO_USER_ID: 456\nAMOUNT: 100\nTIMESTAMP: 1633036800000\nSTATUS: SUCCESS\n";
    let data = missing_field.as_bytes().to_vec();
    let result = YPBankTextParser::parse(&data);
    assert!(result.is_err());
    if let Err(ParseError::Validation(msg)) = result {
        assert!(msg.contains("Missing required field"));
        assert!(msg.contains("DESCRIPTION"));
        assert_eq!(
            msg,
            "Missing required field 'DESCRIPTION' in transaction ending at line 7"
        );
    } else {
        panic!("Expected YPBankTextParser error");
    }
}

/// Checks if duplicate fields results in Err
#[test]
fn test_parse_duplicate_field() {
    let duplicate = "TX_ID: 123\nTX_TYPE: DEPOSIT\nTX_TYPE: TRANSFER\nFROM_USER_ID: 0\nTO_USER_ID: 456\nAMOUNT: 100\nTIMESTAMP: 1633036800000\nSTATUS: SUCCESS\nDESCRIPTION: \"Test\"\n";
    let data = duplicate.as_bytes().to_vec();
    let result = YPBankTextParser::parse(&data);
    assert!(result.is_err());
    if let Err(ParseError::Validation(msg)) = result {
        assert!(msg.contains("Duplicate key"));
        assert_eq!(msg, "Duplicate key 'TX_TYPE' in transaction at line 3");
    } else {
        panic!("Expected YPBankTextParser error");
    }
}

/// Checks if DESCRIPTION field with no double quotes results in Err
#[test]
fn test_parse_description_without_quotes() {
    let no_quotes = "TX_ID: 123\nTX_TYPE: DEPOSIT\nFROM_USER_ID: 0\nTO_USER_ID: 456\nAMOUNT: 100\nTIMESTAMP: 1633036800000\nSTATUS: SUCCESS\nDESCRIPTION: No quotes here\n";
    let data = no_quotes.as_bytes().to_vec();
    let result = YPBankTextParser::parse(&data);
    assert!(result.is_err());
    if let Err(ParseError::Validation(msg)) = result {
        assert!(msg.contains("must be in double quotes"));
    } else {
        panic!("Expected YPBankTextParser error");
    }
}

/// Checks if transaction requirements violation results in Err
#[test]
fn test_validation() {
    let transaction = Transaction {
        tx_id: 123,
        tx_type: TransactionType::Deposit,
        from_user_id: 1,
        to_user_id: 456,
        amount: 100,
        timestamp: 1633036800000,
        status: TransactionStatus::Success,
        description: "Test".to_string(),
    };
    let result = transaction.validate();
    assert!(result.is_err());
    if let Err(ParseError::Validation(msg)) = result {
        assert!(msg.contains("must be 0 for DEPOSIT"));
        assert_eq!(msg, "FROM_USER_ID must be 0 for DEPOSIT, got 1");
    } else {
        panic!("Expected Validation error");
    }
}

/// Checks if serialized transaction conforms to YPBankTextFormat
#[test]
fn test_serialize_yp_bank_text() {
    let transactions = vec![Transaction {
        tx_id: 1234567890123456,
        tx_type: TransactionType::Deposit,
        from_user_id: 0,
        to_user_id: 9876543210987654,
        amount: 10000,
        timestamp: 1633036800000,
        status: TransactionStatus::Success,
        description: "Terminal deposit".to_string(),
    }];
    let output = YPBankTextParser::write(&transactions, true).unwrap();
    let transactions_parsed_back = YPBankTextParser::parse(&output).unwrap();
    assert_eq!(transactions.len(), transactions_parsed_back.len());
    for (orig, parsed) in transactions.iter().zip(transactions_parsed_back.iter()) {
        assert_eq!(orig.tx_id, parsed.tx_id);
        assert_eq!(orig.tx_type, parsed.tx_type);
        assert_eq!(orig.from_user_id, parsed.from_user_id);
        assert_eq!(orig.to_user_id, parsed.to_user_id);
        assert_eq!(orig.amount, parsed.amount);
        assert_eq!(orig.timestamp, parsed.timestamp);
        assert_eq!(orig.status, parsed.status);
        assert_eq!(orig.description, parsed.description);
    }
}

/// A line with no colon is a hard parse error naming the line.
#[test]
fn test_malformed_line_rejected() {
    let data = "TX_ID 123\n".as_bytes().to_vec();
    match YPBankTextParser::parse(&data) {
        Err(ParseError::Validation(msg)) => assert!(msg.contains("Invalid line format")),
        other => panic!("expected malformed-line error, got {:?}", other),
    }
}

/// Comment lines are ignored wherever they appear, even inside a block.
#[test]
fn test_comment_inside_block_ignored() {
    let data = "TX_ID: 1\n# a comment inside the block\nTX_TYPE: DEPOSIT\nFROM_USER_ID: 0\nTO_USER_ID: 2\n# another one\nAMOUNT: 3\nTIMESTAMP: 4\nSTATUS: PENDING\nDESCRIPTION: \"d\"\n"
        .as_bytes()
        .to_vec();
    let transactions = YPBankTextParser::parse(&data).unwrap();
    assert_eq!(transactions.len(), 1);
    assert_eq!(transactions[0].tx_id, 1);
    assert_eq!(transactions[0].status, TransactionStatus::Pending);
}

/// The writer refuses a non-positive amount immediately.
#[test]
fn test_text_write_rejects_non_positive_amount() {
    let transaction = Transaction {
        tx_id: 1,
        tx_type: TransactionType::Deposit,
        from_user_id: 0,
        to_user_id: 2,
        amount: -3,
        timestamp: 4,
        status: TransactionStatus::Success,
        description: String::new(),
    };
    assert!(matches!(
        YPBankTextParser::write(&vec![transaction], false),
        Err(ParseError::InvalidAmount(-3))
    ));
}

/// A description whose content itself holds quotes survives the round
/// trip: only the outermost quote pair is stripped.
#[test]
fn test_inner_quotes_round_trip() {
    let transactions = vec![Transaction {
        tx_id: 5,
        tx_type: TransactionType::Transfer,
        from_user_id: 1,
        to_user_id: 2,
        amount: 9,
        timestamp: 10,
        status: TransactionStatus::Failure,
        description: "a \"quoted\" word".to_string(),
    }];
    let output = YPBankTextParser::write(&transactions, false).unwrap();
    let back = YPBankTextParser::parse(&output).unwrap();
    assert_eq!(back[0].description, "a \"quoted\" word");
}

/// Writing without comments emits no `#` lines.
#[test]
fn test_write_without_comments() {
    let transactions = vec![Transaction {
        tx_id: 5,
        tx_type: TransactionType::Deposit,
        from_user_id: 0,
        to_user_id: 2,
        amount: 9,
        timestamp: 10,
        status: TransactionStatus::Success,
        description: "d".to_string(),
    }];
    let output = YPBankTextParser::write(&transactions, false).unwrap();
    let text = String::from_utf8(output).unwrap();
    assert!(!text.contains('#'));
    assert!(text.starts_with("TX_ID: 5\n"));
}
