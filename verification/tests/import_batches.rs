use korucha_fund::import::{prepare_import, ImportItem, ImportRejection, MAX_IMPORT_TRANSACTIONS};
use korucha_fund::ledger::Fingerprint;
use korucha_fund::pages::ImportResult;
use korucha_fund::transaction::{AmountChecks, TransactionText, TransactionValidationError};

fn item(symbol: &str, price: f64) -> ImportItem {
    ImportItem {
        text: TransactionText {
            symbol: symbol.into(),
            txn_type: "BUY".into(),
            currency: "JPY".into(),
            notes: None,
        },
        checks: AmountChecks {
            quantity_valid: true,
            price_valid: price.is_finite() && price > 0.0,
            fee_valid: true,
            fx_rate_valid: false,
        },
        date: 20_454,
        quantity: 10.0f64.to_bits(),
        price: price.to_bits(),
        fee: 0.0f64.to_bits(),
    }
}

fn held(p: &korucha_fund::import::PreparedImport, items: &[ImportItem]) -> Vec<Fingerprint> {
    p.kept
        .iter()
        .map(|&k| Fingerprint {
            symbol: p.normalized[k].symbol.clone(),
            txn_type: p.normalized[k].txn_type.clone(),
            date: items[k].date,
            quantity: items[k].quantity,
            price: items[k].price,
            fee: items[k].fee,
        })
        .collect()
}

#[test]
fn importing_twice_adds_nothing_the_second_time() {
    let items = vec![item("7203.t", 2_000.0), item("7203.T", 2_000.0)];
    let first = prepare_import(&vec![], &items).unwrap();
    let ledger = held(&first, &items);
    let result = ImportResult::of(first);
    assert_eq!((result.imported, result.skipped), (1, 1));
    assert_eq!(result.symbols, vec!["7203.T".to_string()]);

    let second = prepare_import(&ledger, &vec![item("7203.T", 2_000.0)]).unwrap();
    let result = ImportResult::of(second);
    assert_eq!((result.imported, result.skipped), (0, 1));
}

#[test]
fn import_names_the_first_invalid_transaction() {
    let error = prepare_import(&vec![], &vec![item("7203.T", 2_000.0), item("7203.T", f64::NAN)])
        .err()
        .unwrap();
    assert_eq!(
        error,
        ImportRejection::InvalidTransaction { index: 2, source: TransactionValidationError::InvalidPrice }
    );
}

#[test]
fn import_refuses_oversized_batches() {
    let many: Vec<ImportItem> = (0..=MAX_IMPORT_TRANSACTIONS).map(|_| item("A", 1.0)).collect();
    assert_eq!(prepare_import(&vec![], &many).err(), Some(ImportRejection::TooManyTransactions));
}

#[test]
fn rows_differing_only_in_notes_are_duplicates() {
    let stored = vec![item("7203.T", 2_000.0)];
    let first = prepare_import(&vec![], &stored).unwrap();
    let ledger = held(&first, &stored);
    let mut noted = item("7203.T", 2_000.0);
    noted.text.notes = Some("memo".into());
    let result = ImportResult::of(prepare_import(&ledger, &vec![noted]).unwrap());
    assert_eq!((result.imported, result.skipped), (0, 1));

    let other_fee = ImportItem { fee: 1.0f64.to_bits(), ..item("7203.T", 2_000.0) };
    let result = ImportResult::of(prepare_import(&ledger, &vec![other_fee]).unwrap());
    assert_eq!((result.imported, result.skipped), (1, 0));
}
