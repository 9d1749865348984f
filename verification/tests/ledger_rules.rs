use korucha_fund::analysis::{holding_order, imported_symbols, plan_backfill};
use korucha_fund::ledger::{
    chronological_order, latest_by_key, next_transaction_id, plan_import, scan_ledger, Fingerprint,
    LedgerEntry, LedgerIssue,
};

fn entry(id: i64, date: i32, symbol: &str, txn_type: &str, currency: &str) -> LedgerEntry {
    LedgerEntry {
        id,
        date,
        symbol: symbol.into(),
        txn_type: txn_type.into(),
        currency: currency.into(),
    }
}

#[test]
fn orders_by_date_then_id_and_filters_by_day() {
    let keys = vec![(5, 3), (2, 9), (5, 1), (2, 9), (9, 0)];
    assert_eq!(chronological_order(&keys, None), vec![1, 3, 2, 0, 4]);
    assert_eq!(chronological_order(&keys, Some(5)), vec![1, 3, 2, 0]);
    assert_eq!(chronological_order(&keys, Some(1)), Vec::<usize>::new());
}

#[test]
fn ledger_scan_stops_at_mixed_currency() {
    let buy = entry(1, 20_454, "AAPL", "BUY", "USD");
    let mixed = entry(2, 20_455, "AAPL", "BUY", "JPY");
    let scan = scan_ledger(&vec![mixed, buy]);
    assert_eq!(scan.order, vec![1, 0]);
    assert_eq!(scan.checked, 1);
    match scan.issue {
        Some(LedgerIssue::CurrencyMismatch { symbol, expected, actual }) => {
            assert_eq!((symbol.as_str(), expected.as_str(), actual.as_str()), ("AAPL", "USD", "JPY"));
        }
        other => panic!("unexpected {:?}", other),
    }
}

#[test]
fn ledger_scan_reports_unknown_types_and_passes_clean_ledgers() {
    let scan = scan_ledger(&vec![
        entry(1, 10, "AAPL", "BUY", "USD"),
        entry(2, 11, "AAPL", "GIFT", "USD"),
    ]);
    assert_eq!(scan.checked, 1);
    assert!(matches!(scan.issue, Some(LedgerIssue::InvalidTransactionType { id: 2 })));

    let clean = scan_ledger(&vec![
        entry(3, 12, "AAPL", "SELL", "USD"),
        entry(1, 10, "AAPL", "BUY", "USD"),
        entry(2, 11, "7203.T", "BUY", "JPY"),
    ]);
    assert_eq!(clean.order, vec![1, 2, 0]);
    assert_eq!(clean.checked, 3);
    assert!(clean.issue.is_none());
}

#[test]
fn next_id_and_latest_pick() {
    assert_eq!(next_transaction_id(&vec![]), 1);
    assert_eq!(next_transaction_id(&vec![3, 9, 4]), 10);
    assert_eq!(next_transaction_id(&vec![-7, -3]), -2);
    let keys = vec![(1, 1), (3, 2), (3, 5), (2, 8)];
    assert_eq!(latest_by_key(&keys, &vec![true, true, true, true]), Some(2));
    assert_eq!(latest_by_key(&keys, &vec![true, true, false, true]), Some(1));
    assert_eq!(latest_by_key(&keys, &vec![false; 4]), None);
    assert_eq!(latest_by_key(&vec![(1, 1), (1, 1)], &vec![true, true]), Some(1));
}

fn fingerprint(symbol: &str, date: i32, quantity: f64) -> Fingerprint {
    Fingerprint {
        symbol: symbol.into(),
        txn_type: "BUY".into(),
        date,
        quantity: quantity.to_bits(),
        price: 2_000.0f64.to_bits(),
        fee: 0.0f64.to_bits(),
    }
}

#[test]
fn import_plan_skips_what_is_held() {
    let existing = vec![fingerprint("7203.T", 1, 10.0)];
    let incoming = vec![
        fingerprint("7203.T", 1, 10.0),
        fingerprint("6758.T", 2, 5.0),
        fingerprint("6758.T", 2, 5.0),
        fingerprint("6758.T", 2, 6.0),
    ];
    assert_eq!(plan_import(&existing, &incoming), vec![1, 3]);
    let symbols: Vec<String> = incoming.iter().map(|f| f.symbol.clone()).collect();
    assert_eq!(imported_symbols(&symbols, &vec![1, 3]), vec!["6758.T".to_string()]);
}

#[test]
fn holdings_and_backfill_order() {
    let symbols = vec!["MSFT".to_string(), "7203.T".to_string(), "AAPL".to_string()];
    assert_eq!(holding_order(&symbols), vec![1, 2, 0]);
    let plan = plan_backfill(&vec![
        entry(1, 30, "MSFT", "BUY", "USD"),
        entry(2, 12, "7203.T", "BUY", "JPY"),
        entry(3, 40, "MSFT", "SELL", "USD"),
    ])
    .unwrap();
    assert_eq!(plan.earliest, 12);
    assert_eq!(plan.symbols, vec!["7203.T".to_string(), "MSFT".to_string()]);
    assert!(plan.needs_fx);
    assert!(plan_backfill(&vec![]).is_none());
    let yen_only = plan_backfill(&vec![entry(1, 5, "7203.T", "BUY", "JPY")]).unwrap();
    assert!(!yen_only.needs_fx);
}

#[test]
fn deleting_from_a_clean_ledger_keeps_it_clean() {
    let mut ledger = vec![
        entry(1, 10, "AAPL", "BUY", "USD"),
        entry(2, 11, "AAPL", "BUY", "USD"),
        entry(3, 12, "7203.T", "BUY", "JPY"),
        entry(4, 13, "AAPL", "SELL", "USD"),
    ];
    assert!(scan_ledger(&ledger).issue.is_none());
    ledger.remove(0);
    let scan = scan_ledger(&ledger);
    assert!(scan.issue.is_none());
    assert_eq!(scan.checked, 3);

    let mixed = vec![
        entry(1, 10, "AAPL", "BUY", "USD"),
        entry(2, 11, "AAPL", "BUY", "JPY"),
    ];
    assert!(scan_ledger(&mixed).issue.is_some());
}
