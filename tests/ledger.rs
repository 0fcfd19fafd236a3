use rust_coding_test::amount::{parse_amount, split_amount};
use rust_coding_test::error::AppError;
use rust_coding_test::ledger::{Ledger, Outcome, SkipReason};
use rust_coding_test::transaction::{Transaction, TransactionOp};

fn rec(op: &str, client: u16, tx: u32, amount: Option<&str>) -> Transaction {
    match Transaction::parse(op, client, tx, amount) {
        Ok(t) => t,
        Err(e) => panic!("{}: {}", e.kind(), e.detail()),
    }
}

fn balances(l: &Ledger, id: u16) -> (i64, i64, i64, bool) {
    let c = l.client(id).expect("client is known");
    (c.available(), c.held(), c.total(), c.locked())
}

#[test]
fn deposit_then_withdrawal() {
    let mut l = Ledger::new();
    assert_eq!(l.apply(rec("deposit", 1, 1, Some("1.0"))), Outcome::Applied);
    assert_eq!(l.apply(rec("withdrawal", 1, 2, Some("0.5"))), Outcome::Applied);
    assert_eq!(balances(&l, 1), (5000, 0, 5000, false));
}

#[test]
fn dispute_without_amount_holds_funds() {
    let mut l = Ledger::new();
    l.apply(rec("deposit", 1, 1, Some("1.0")));
    assert_eq!(l.apply(rec("dispute", 1, 1, None)), Outcome::Applied);
    assert_eq!(balances(&l, 1), (0, 10000, 10000, false));
    assert!(l.client(1).unwrap().is_disputed(1));
}

#[test]
fn dispute_then_chargeback_locks() {
    let mut l = Ledger::new();
    l.apply(rec("deposit", 1, 1, Some("1.0")));
    l.apply(rec("dispute", 1, 1, None));
    assert_eq!(l.apply(rec("chargeback", 1, 1, None)), Outcome::Applied);
    assert_eq!(balances(&l, 1), (0, 0, 0, true));
    assert!(!l.client(1).unwrap().is_disputed(1));
}

#[test]
fn withdrawal_beyond_funds_is_skipped() {
    let mut l = Ledger::new();
    l.apply(rec("deposit", 1, 1, Some("1.0")));
    assert_eq!(
        l.apply(rec("withdrawal", 1, 2, Some("5.0"))),
        Outcome::Skipped(SkipReason::InsufficientFunds)
    );
    assert_eq!(balances(&l, 1), (10000, 0, 10000, false));
    // a skipped withdrawal is not referenceable
    assert_eq!(
        l.apply(rec("dispute", 1, 2, None)),
        Outcome::Skipped(SkipReason::UnknownTransaction)
    );
}

#[test]
fn dispute_of_unknown_transaction_creates_empty_account() {
    let mut l = Ledger::new();
    assert_eq!(
        l.apply(rec("dispute", 1, 99, None)),
        Outcome::Skipped(SkipReason::UnknownTransaction)
    );
    assert_eq!(balances(&l, 1), (0, 0, 0, false));
}

#[test]
fn total_is_available_plus_held_after_every_record() {
    let mut l = Ledger::new();
    let records = vec![
        rec("deposit", 7, 1, Some("3.25")),
        rec("withdrawal", 7, 2, Some("1.1")),
        rec("deposit", 7, 3, Some("0.0001")),
        rec("dispute", 7, 1, None),
        rec("withdrawal", 7, 4, Some("10")),
        rec("resolve", 7, 1, None),
        rec("dispute", 7, 3, None),
        rec("chargeback", 7, 3, None),
    ];
    for r in records {
        l.apply(r);
        let (available, held, total, _) = balances(&l, 7);
        assert_eq!(total, available + held);
    }
    assert_eq!(balances(&l, 7), (21500, 0, 21500, true));
}

#[test]
fn withdrawal_of_all_available_funds_is_skipped() {
    let mut l = Ledger::new();
    l.apply(rec("deposit", 2, 1, Some("2")));
    assert_eq!(
        l.apply(rec("withdrawal", 2, 2, Some("2.0000"))),
        Outcome::Skipped(SkipReason::InsufficientFunds)
    );
    assert_eq!(l.apply(rec("withdrawal", 2, 3, Some("1.9999"))), Outcome::Applied);
    assert_eq!(balances(&l, 2), (1, 0, 1, false));
}

#[test]
fn dispute_then_resolve_restores_balances() {
    let mut l = Ledger::new();
    l.apply(rec("deposit", 3, 1, Some("5")));
    l.apply(rec("deposit", 3, 2, Some("1.5")));
    let before = balances(&l, 3);
    assert_eq!(l.apply(rec("dispute", 3, 2, None)), Outcome::Applied);
    assert_eq!(balances(&l, 3), (50000, 15000, 65000, false));
    assert_eq!(l.apply(rec("resolve", 3, 2, None)), Outcome::Applied);
    assert_eq!(balances(&l, 3), before);
}

#[test]
fn locked_account_stays_locked() {
    let mut l = Ledger::new();
    l.apply(rec("deposit", 4, 1, Some("2")));
    l.apply(rec("deposit", 4, 2, Some("1")));
    l.apply(rec("dispute", 4, 1, None));
    l.apply(rec("chargeback", 4, 1, None));
    assert_eq!(balances(&l, 4), (10000, 0, 10000, true));
    l.apply(rec("deposit", 4, 3, Some("1")));
    l.apply(rec("dispute", 4, 2, None));
    l.apply(rec("resolve", 4, 2, None));
    assert_eq!(balances(&l, 4), (20000, 0, 20000, true));
}

#[test]
fn resolve_and_chargeback_need_a_dispute() {
    let mut l = Ledger::new();
    l.apply(rec("deposit", 5, 1, Some("1")));
    assert_eq!(l.apply(rec("resolve", 5, 1, None)), Outcome::Skipped(SkipReason::NotDisputed));
    assert_eq!(l.apply(rec("chargeback", 5, 1, None)), Outcome::Skipped(SkipReason::NotDisputed));
    assert_eq!(l.apply(rec("dispute", 5, 1, None)), Outcome::Applied);
    assert_eq!(balances(&l, 5), (0, 10000, 10000, false));
    assert_eq!(l.apply(rec("chargeback", 5, 1, None)), Outcome::Applied);
    assert_eq!(l.apply(rec("chargeback", 5, 1, None)), Outcome::Skipped(SkipReason::NotDisputed));
    assert_eq!(balances(&l, 5), (0, 0, 0, true));
}

#[test]
fn repeated_dispute_holds_again() {
    let mut l = Ledger::new();
    l.apply(rec("deposit", 10, 1, Some("1")));
    assert_eq!(l.apply(rec("dispute", 10, 1, None)), Outcome::Applied);
    assert_eq!(l.apply(rec("dispute", 10, 1, None)), Outcome::Applied);
    assert_eq!(balances(&l, 10), (-10000, 20000, 10000, false));
    // a dispute followed by a resolve restores the balances, disputed before or not
    let before = balances(&l, 10);
    assert_eq!(l.apply(rec("dispute", 10, 1, None)), Outcome::Applied);
    assert_eq!(l.apply(rec("resolve", 10, 1, None)), Outcome::Applied);
    assert_eq!(balances(&l, 10), before);
    assert!(!l.client(10).unwrap().is_disputed(1));
}

#[test]
fn deposit_without_amount_is_skipped() {
    let mut l = Ledger::new();
    assert_eq!(l.apply(rec("deposit", 6, 1, None)), Outcome::Skipped(SkipReason::MissingAmount));
    assert_eq!(l.apply(rec("withdrawal", 6, 2, None)), Outcome::Skipped(SkipReason::MissingAmount));
    assert_eq!(balances(&l, 6), (0, 0, 0, false));
}

#[test]
fn deposit_that_would_overflow_is_skipped() {
    let mut l = Ledger::new();
    let big = Transaction::new(TransactionOp::DEPOSIT, 8, 1, Some(i64::MAX));
    assert_eq!(l.apply(big), Outcome::Applied);
    let one = Transaction::new(TransactionOp::DEPOSIT, 8, 2, Some(1));
    assert_eq!(l.apply(one), Outcome::Skipped(SkipReason::Overflow));
    assert_eq!(balances(&l, 8), (i64::MAX, 0, i64::MAX, false));
}

#[test]
fn clients_come_out_in_first_seen_order() {
    let mut l = Ledger::new();
    let records = vec![
        rec("deposit", 9, 1, Some("1")),
        rec("deposit", 2, 2, Some("2")),
        rec("withdrawal", 9, 3, Some("0.5")),
        rec("dispute", 4, 77, None),
    ];
    l.apply_all(&records);
    let clients = l.into_clients();
    let ids: Vec<u16> = clients.iter().map(|c| c.client()).collect();
    assert_eq!(ids, vec![9, 2, 4]);
    assert_eq!(clients[0].available(), 5000);
    assert_eq!(clients[1].total(), 20000);
    assert_eq!(clients[2].total(), 0);
}

#[test]
fn amount_is_truncated_to_four_digits() {
    assert_eq!(parse_amount(b"1.99996"), Some(19999));
    assert_eq!(parse_amount(b"1.9999"), Some(19999));
    assert_eq!(parse_amount(b"1.99999999999999999999999"), Some(19999));
    assert_eq!(parse_amount(b"0.00009"), Some(0));
}

#[test]
fn amount_forms() {
    assert_eq!(parse_amount(b"1.0"), Some(10000));
    assert_eq!(parse_amount(b"12"), Some(120000));
    assert_eq!(parse_amount(b".25"), Some(2500));
    assert_eq!(parse_amount(b"3."), Some(30000));
    assert_eq!(parse_amount(b"007.5"), Some(75000));
    assert_eq!(parse_amount(b""), None);
    assert_eq!(parse_amount(b"."), None);
    assert_eq!(parse_amount(b"1.2.3"), None);
    assert_eq!(parse_amount(b"-1"), None);
    assert_eq!(parse_amount(b"1e3"), None);
    assert_eq!(parse_amount(b" 1"), None);
}

#[test]
fn amount_range_limits() {
    assert_eq!(parse_amount(b"922337203685477.5807"), Some(i64::MAX));
    assert_eq!(parse_amount(b"922337203685477.5808"), None);
    assert_eq!(parse_amount(b"922337203685478"), None);
    assert_eq!(parse_amount(b"99999999999999999999999999"), None);
}

#[test]
fn amount_split_for_display() {
    assert_eq!(split_amount(15000), (false, 1, 5000));
    assert_eq!(split_amount(-15000), (true, 1, 5000));
    assert_eq!(split_amount(7), (false, 0, 7));
    assert_eq!(split_amount(0), (false, 0, 0));
    assert_eq!(split_amount(i64::MIN), (true, 922337203685477, 5808));
}

#[test]
fn operation_names_ignore_case() {
    assert_eq!(TransactionOp::from_name("deposit").ok(), Some(TransactionOp::DEPOSIT));
    assert_eq!(TransactionOp::from_name("WITHDRAWAL").ok(), Some(TransactionOp::WITHDRAWAL));
    assert_eq!(TransactionOp::from_name("Dispute").ok(), Some(TransactionOp::DISPUTE));
    assert_eq!(TransactionOp::from_name("rEsOlVe").ok(), Some(TransactionOp::RESOLVE));
    assert_eq!(TransactionOp::from_name("chargeBACK").ok(), Some(TransactionOp::CHARGEBACK));
}

#[test]
fn unknown_operation_is_a_parse_error() {
    match TransactionOp::from_name("transfer") {
        Err(AppError::ParseError(d)) => assert_eq!(d, "transfer"),
        _ => panic!("expected a parse error"),
    }
    match TransactionOp::from_name("deposits") {
        Err(e) => assert_eq!(e.kind(), "ParseError"),
        Ok(_) => panic!("expected a parse error"),
    }
}

#[test]
fn record_parsing() {
    let t = Transaction::parse("Deposit", 3, 44, Some("2.123456")).ok().unwrap();
    assert_eq!(t, Transaction::new(TransactionOp::DEPOSIT, 3, 44, Some(21234)));
    let d = Transaction::parse("dispute", 3, 44, None).ok().unwrap();
    assert_eq!(d.amount, None);
    match Transaction::parse("deposit", 1, 1, Some("abc")) {
        Err(AppError::CsvError(x)) => assert_eq!(x, "abc"),
        _ => panic!("expected a table error"),
    }
    // a bad amount is reported before a bad name
    match Transaction::parse("bogus", 1, 1, Some("1..0")) {
        Err(e) => {
            assert_eq!(e.kind(), "CsvError");
            assert_eq!(e.detail(), "1..0");
        }
        Ok(_) => panic!("expected a table error"),
    }
    match Transaction::parse("bogus", 1, 1, Some("1.0")) {
        Err(e) => assert_eq!(e.kind(), "ParseError"),
        Ok(_) => panic!("expected a parse error"),
    }
}

#[test]
fn error_kinds() {
    assert_eq!(AppError::FileError("x".to_string()).kind(), "FileError");
    assert_eq!(AppError::CsvError("y".to_string()).kind(), "CsvError");
    assert_eq!(AppError::ParseError("z".to_string()).detail(), "z");
}
