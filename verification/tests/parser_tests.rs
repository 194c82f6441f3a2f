use financial_parser::errors::ParseError;
use financial_parser::format::common::{
    parse_description, parse_number, parse_number_i64, parse_transaction_status,
    parse_transaction_type,
};
use financial_parser::format::Format;
use financial_parser::model::transaction::Transaction;
use financial_parser::model::transaction_status::TransactionStatus;
use financial_parser::model::transaction_type::TransactionType;
use financial_parser::parser::Parser;

fn sample_transactions() -> Vec<Transaction> {
    vec![
        Transaction {
            tx_id: 1001,
            tx_type: TransactionType::Deposit,
            from_user_id: 0,
            to_user_id: 501,
            amount: 50000,
            timestamp: 1672531200000,
            status: TransactionStatus::Success,
            description: "Initial deposit".to_string(),
        },
        Transaction {
            tx_id: 1002,
            tx_type: TransactionType::Transfer,
            from_user_id: 501,
            to_user_id: 502,
            amount: 15000,
            timestamp: 1672534800000,
            status: TransactionStatus::Failure,
            description: "Payment".to_string(),
        },
        Transaction {
            tx_id: 1003,
            tx_type: TransactionType::Withdrawal,
            from_user_id: 502,
            to_user_id: 0,
            amount: 1000,
            timestamp: 1672538400000,
            status: TransactionStatus::Pending,
            description: String::new(),
        },
    ]
}

/// Round trip per format: decoding the encoding of a valid sequence
/// yields the same sequence, for each of the three formats.
#[test]
fn test_round_trip_every_format() {
    let transactions = sample_transactions();
    for format in [Format::Text, Format::Csv, Format::Binary] {
        let bytes = Parser::write(&transactions, format).unwrap();
        let back = Parser::parse(&bytes, format).unwrap();
        assert_eq!(transactions, back, "round trip failed for {:?}", format);
    }
}

/// Cross-format equivalence: encode in A, decode, re-encode in B, decode
/// again — the result equals the original for every ordered pair.
#[test]
fn test_cross_format_equivalence() {
    let transactions = sample_transactions();
    let formats = [Format::Text, Format::Csv, Format::Binary];
    for a in formats {
        for b in formats {
            let first = Parser::write(&transactions, a).unwrap();
            let mid = Parser::parse(&first, a).unwrap();
            let second = Parser::write(&mid, b).unwrap();
            let back = Parser::parse(&second, b).unwrap();
            assert_eq!(transactions, back, "chain {:?} -> {:?} failed", a, b);
        }
    }
}

/// Amount positivity: every successfully decoded transaction carries a
/// strictly positive amount, in every format.
#[test]
fn test_decoded_amounts_positive() {
    let transactions = sample_transactions();
    for format in [Format::Text, Format::Csv, Format::Binary] {
        let bytes = Parser::write(&transactions, format).unwrap();
        let back = Parser::parse(&bytes, format).unwrap();
        for tx in &back {
            assert!(tx.amount > 0);
        }
    }
}

/// The numeric code mappings are total and exact inverses over the closed
/// variant sets, in both directions.
#[test]
fn test_enum_code_mappings_invert() {
    for ty in [
        TransactionType::Deposit,
        TransactionType::Transfer,
        TransactionType::Withdrawal,
    ] {
        assert_eq!(TransactionType::from_u8(ty.to_u8()).unwrap(), ty);
    }
    for code in 0u8..=2u8 {
        assert_eq!(TransactionType::from_u8(code).unwrap().to_u8(), code);
    }
    assert!(TransactionType::from_u8(3).is_err());
    for st in [
        TransactionStatus::Success,
        TransactionStatus::Failure,
        TransactionStatus::Pending,
    ] {
        assert_eq!(TransactionStatus::from_u8(st.to_u8()).unwrap(), st);
    }
    for code in 0u8..=2u8 {
        assert_eq!(TransactionStatus::from_u8(code).unwrap().to_u8(), code);
    }
    assert!(TransactionStatus::from_u8(9).is_err());
}

/// The token mappings are total over the closed variant sets and
/// case-insensitive.
#[test]
fn test_enum_token_mappings() {
    assert_eq!(
        parse_transaction_type(&b"DEPOSIT".to_vec(), 1).unwrap(),
        TransactionType::Deposit
    );
    assert_eq!(
        parse_transaction_type(&b"transfer".to_vec(), 1).unwrap(),
        TransactionType::Transfer
    );
    assert_eq!(
        parse_transaction_type(&b"Withdrawal".to_vec(), 1).unwrap(),
        TransactionType::Withdrawal
    );
    assert!(parse_transaction_type(&b"LOAN".to_vec(), 1).is_err());
    assert_eq!(
        parse_transaction_status(&b"SUCCESS".to_vec(), 1).unwrap(),
        TransactionStatus::Success
    );
    assert_eq!(
        parse_transaction_status(&b"failure".to_vec(), 1).unwrap(),
        TransactionStatus::Failure
    );
    assert_eq!(
        parse_transaction_status(&b"Pending".to_vec(), 1).unwrap(),
        TransactionStatus::Pending
    );
    assert!(parse_transaction_status(&b"UNKNOWN".to_vec(), 1).is_err());
}

/// The shared numeric parser accepts decimal numerals with an optional
/// sign and rejects everything else.
#[test]
fn test_parse_number() {
    assert_eq!(parse_number("F", &b"0".to_vec(), 1).unwrap(), 0);
    assert_eq!(
        parse_number("F", &b"18446744073709551615".to_vec(), 1).unwrap(),
        u64::MAX
    );
    assert_eq!(parse_number("F", &b"+123".to_vec(), 1).unwrap(), 123);
    assert!(parse_number("F", &b"18446744073709551616".to_vec(), 1).is_err());
    assert!(parse_number("F", &b"".to_vec(), 1).is_err());
    assert!(parse_number("F", &b"12a".to_vec(), 1).is_err());
    assert!(parse_number("F", &b"-1".to_vec(), 1).is_err());
    assert_eq!(parse_number_i64("F", &b"-42".to_vec(), 1).unwrap(), -42);
    assert_eq!(
        parse_number_i64("F", &b"-9223372036854775808".to_vec(), 1).unwrap(),
        i64::MIN
    );
    assert_eq!(
        parse_number_i64("F", &b"9223372036854775807".to_vec(), 1).unwrap(),
        i64::MAX
    );
    assert!(parse_number_i64("F", &b"9223372036854775808".to_vec(), 1).is_err());
    assert!(parse_number_i64("F", &b"-".to_vec(), 1).is_err());
}

/// The shared description parser enforces the surrounding-quotes rule and
/// strips exactly one pair.
#[test]
fn test_parse_description() {
    assert_eq!(parse_description(&b"\"abc\"".to_vec(), 1).unwrap(), "abc");
    assert_eq!(parse_description(&b"\"\"".to_vec(), 1).unwrap(), "");
    assert_eq!(
        parse_description(&b"\"a\"b\"".to_vec(), 1).unwrap(),
        "a\"b"
    );
    assert!(parse_description(&b"abc".to_vec(), 1).is_err());
    assert!(parse_description(&b"\"".to_vec(), 1).is_err());
    assert!(parse_description(&b"".to_vec(), 1).is_err());
}

/// The timestamp renders in the fixed pattern, with milliseconds.
#[test]
fn test_formatted_timestamp() {
    let tx = Transaction {
        tx_id: 1,
        tx_type: TransactionType::Deposit,
        from_user_id: 0,
        to_user_id: 2,
        amount: 3,
        timestamp: 1672531200123,
        status: TransactionStatus::Success,
        description: String::new(),
    };
    assert_eq!(tx.formatted_timestamp(), "2023-01-01 00:00:00.123");
    let out_of_range = Transaction {
        timestamp: u64::MAX,
        ..tx
    };
    assert_eq!(
        out_of_range.formatted_timestamp(),
        "Invalid timestamp: 18446744073709551615"
    );
}

/// Validation admits exactly the transactions whose zero-sided account
/// rules hold; transfers are unconstrained.
#[test]
fn test_validate_rules() {
    let base = Transaction {
        tx_id: 1,
        tx_type: TransactionType::Transfer,
        from_user_id: 0,
        to_user_id: 0,
        amount: 3,
        timestamp: 4,
        status: TransactionStatus::Success,
        description: String::new(),
    };
    assert!(base.validate().is_ok());
    let bad_withdrawal = Transaction {
        tx_type: TransactionType::Withdrawal,
        to_user_id: 7,
        ..base.clone()
    };
    match bad_withdrawal.validate() {
        Err(ParseError::Validation(msg)) => {
            assert!(msg.contains("must be 0 for WITHDRAWAL"))
        }
        other => panic!("expected validation error, got {:?}", other),
    }
    let good_withdrawal = Transaction {
        tx_type: TransactionType::Withdrawal,
        from_user_id: 9,
        ..base.clone()
    };
    assert!(good_withdrawal.validate().is_ok());
    let good_deposit = Transaction {
        tx_type: TransactionType::Deposit,
        to_user_id: 9,
        ..base
    };
    assert!(good_deposit.validate().is_ok());
}

/// A domain-invalid record is rejected on decode in every format, even
/// when its fields are individually well formed.
#[test]
fn test_domain_violation_rejected_on_decode() {
    let text = "TX_ID: 1\nTX_TYPE: DEPOSIT\nFROM_USER_ID: 8\nTO_USER_ID: 2\nAMOUNT: 3\nTIMESTAMP: 4\nSTATUS: SUCCESS\nDESCRIPTION: \"d\"\n"
        .as_bytes()
        .to_vec();
    assert!(matches!(
        Parser::parse(&text, Format::Text),
        Err(ParseError::Validation(_))
    ));
    let csv = "TX_ID,TX_TYPE,FROM_USER_ID,TO_USER_ID,AMOUNT,TIMESTAMP,STATUS,DESCRIPTION\n1,DEPOSIT,8,2,3,4,SUCCESS,\"d\"\n"
        .as_bytes()
        .to_vec();
    assert!(matches!(
        Parser::parse(&csv, Format::Csv),
        Err(ParseError::Validation(_))
    ));
}
