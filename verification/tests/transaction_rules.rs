use korucha_fund::transaction::{
    default_currency, normalize_span, normalize_ticker_span, normalize_symbol, normalize_ticker_symbol,
    normalize_transaction_text, AmountChecks, TransactionText, TransactionValidationError,
};

fn checks(quantity: f64, price: f64, fee: f64, fx_rate_to_jpy: Option<f64>) -> AmountChecks {
    AmountChecks {
        quantity_valid: quantity.is_finite() && quantity > 0.0,
        price_valid: price.is_finite() && price > 0.0,
        fee_valid: fee.is_finite() && fee >= 0.0,
        fx_rate_valid: fx_rate_to_jpy.is_some_and(|rate| rate.is_finite() && rate > 0.0),
    }
}

fn text(symbol: &str, txn_type: &str, currency: &str, notes: Option<&str>) -> TransactionText {
    TransactionText {
        symbol: symbol.into(),
        txn_type: txn_type.into(),
        currency: currency.into(),
        notes: notes.map(|n| n.to_string()),
    }
}

#[test]
fn normalizes_and_validates_transaction_input() {
    let normalized = normalize_transaction_text(
        &text(" aapl ", " buy ", " usd ", Some(" memo ")),
        &checks(1.0, 100.0, 0.0, Some(150.0)),
    )
    .unwrap();

    assert_eq!(normalized.symbol, "AAPL");
    assert_eq!(normalized.txn_type, "BUY");
    assert_eq!(normalized.currency, "USD");
    assert_eq!(normalized.notes.as_deref(), Some("memo"));

    let invalid = normalize_transaction_text(
        &text(&normalized.symbol, &normalized.txn_type, &normalized.currency, Some("memo")),
        &checks(f64::NAN, 100.0, 0.0, Some(150.0)),
    );
    assert_eq!(invalid.err(), Some(TransactionValidationError::InvalidQuantity));
}

#[test]
fn ignores_fx_rate_for_jpy_transactions() {
    let transaction = normalize_transaction_text(
        &text("7203.t", "BUY", "JPY", None),
        &checks(1.0, 3_000.0, 0.0, Some(150.0)),
    )
    .unwrap();

    assert_eq!(transaction.symbol, "7203.T");
    assert!(!transaction.keeps_fx_rate);
}

#[test]
fn symbol_rules_in_order() {
    assert_eq!(normalize_symbol("   ").err(), Some(TransactionValidationError::EmptySymbol));
    assert_eq!(
        normalize_symbol(&"A".repeat(33)).err(),
        Some(TransactionValidationError::SymbolTooLong)
    );
    assert_eq!(normalize_symbol(&"a".repeat(32)).unwrap(), "A".repeat(32));
    assert_eq!(normalize_symbol("AB CD").err(), Some(TransactionValidationError::InvalidSymbol));
    assert_eq!(normalize_symbol("ｔｏｙｏｔａ").err(), Some(TransactionValidationError::InvalidSymbol));
    assert_eq!(normalize_symbol("\u{3000}^n225\t").unwrap(), "^N225");
    assert_eq!(normalize_symbol(" usdjpy=x ").unwrap(), "USDJPY=X");
}

#[test]
fn normalizing_a_symbol_twice_changes_nothing() {
    for raw in [" brk-b ", "7203.t", "^gspc", "eur_usd=x"] {
        let once = normalize_symbol(raw).unwrap();
        assert_eq!(normalize_symbol(&once).unwrap(), once);
    }
}

#[test]
fn every_rule_has_its_error() {
    let base = || text("AAPL", "SELL", "USD", None);
    let ok = checks(1.0, 1.0, 0.0, Some(150.0));
    assert!(normalize_transaction_text(&base(), &ok).is_ok());
    assert_eq!(
        normalize_transaction_text(&text("", "BUY", "USD", None), &ok).err(),
        Some(TransactionValidationError::EmptySymbol)
    );
    assert_eq!(
        normalize_transaction_text(&text("AAPL", "HOLD", "USD", None), &ok).err(),
        Some(TransactionValidationError::InvalidTransactionType)
    );
    assert_eq!(
        normalize_transaction_text(&base(), &checks(0.0, 1.0, 0.0, Some(150.0))).err(),
        Some(TransactionValidationError::InvalidQuantity)
    );
    assert_eq!(
        normalize_transaction_text(&base(), &checks(1.0, -1.0, 0.0, Some(150.0))).err(),
        Some(TransactionValidationError::InvalidPrice)
    );
    assert_eq!(
        normalize_transaction_text(&base(), &checks(1.0, 1.0, -0.5, Some(150.0))).err(),
        Some(TransactionValidationError::InvalidFee)
    );
    assert_eq!(
        normalize_transaction_text(&text("AAPL", "BUY", "EUR", None), &ok).err(),
        Some(TransactionValidationError::InvalidCurrency)
    );
    assert_eq!(
        normalize_transaction_text(&base(), &checks(1.0, 1.0, 0.0, None)).err(),
        Some(TransactionValidationError::InvalidFxRate)
    );
    assert!(normalize_transaction_text(
        &text("7203.T", "BUY", "jpy", None),
        &checks(1.0, 1.0, 0.0, None)
    )
    .is_ok());
    let long = "あ".repeat(1001);
    assert_eq!(
        normalize_transaction_text(&text("AAPL", "BUY", "USD", Some(&long)), &ok).err(),
        Some(TransactionValidationError::NotesTooLong)
    );
    let fits = "あ".repeat(1000);
    assert!(normalize_transaction_text(&text("AAPL", "BUY", "USD", Some(&fits)), &ok).is_ok());
    let blank = normalize_transaction_text(&text("AAPL", "BUY", "USD", Some("   ")), &ok).unwrap();
    assert_eq!(blank.notes, None);
    assert!(blank.keeps_fx_rate);
}

#[test]
fn spans_and_default_currencies() {
    assert_eq!(normalize_span(Some("7d")), "7d");
    assert_eq!(normalize_span(Some("30d")), "30d");
    assert_eq!(normalize_span(Some("90d")), "all");
    assert_eq!(normalize_span(None), "all");
    assert_eq!(default_currency("7203.T"), "JPY");
    assert_eq!(default_currency("AAPL"), "USD");
    assert_eq!(default_currency(".t"), "USD");
    assert_eq!(normalize_ticker_symbol("  nvda "), Some("NVDA".to_string()));
    assert_eq!(normalize_ticker_symbol("straße"), Some("STRASSE".to_string()));
    assert_eq!(normalize_ticker_symbol(" \t "), None);
}

#[test]
fn normalizing_stored_text_changes_nothing() {
    let amounts = checks(2.0, 150.5, 1.0, Some(151.0));
    let first = normalize_transaction_text(
        &text(" msft\t", "sell ", "usd", Some("  rebalance \n")),
        &amounts,
    )
    .unwrap();
    let again = normalize_transaction_text(
        &text(&first.symbol, &first.txn_type, &first.currency, first.notes.as_deref()),
        &amounts,
    )
    .unwrap();
    assert_eq!(
        (again.symbol.as_str(), again.txn_type.as_str(), again.currency.as_str()),
        ("MSFT", "SELL", "USD")
    );
    assert_eq!(again.notes.as_deref(), Some("rebalance"));
    assert_eq!(
        (&again.symbol, &again.txn_type, &again.currency, &again.notes, again.keeps_fx_rate),
        (&first.symbol, &first.txn_type, &first.currency, &first.notes, first.keeps_fx_rate)
    );
}

#[test]
fn ticker_cards_open_on_a_month() {
    assert_eq!(normalize_ticker_span(None), "30d");
    assert_eq!(normalize_ticker_span(Some("7d")), "7d");
    assert_eq!(normalize_ticker_span(Some("all")), "all");
    assert_eq!(normalize_ticker_span(Some("1y")), "all");
}
