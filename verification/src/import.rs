//! Importing a batch of transactions: every one must be valid, and those
//! the ledger already holds are skipped.
use vstd::prelude::*;

use crate::analysis::imported_symbols;
use crate::ledger::{
    fingerprint_views, is_import_plan, ledger_after_import, lemma_import_idempotent, plan_import,
    Fingerprint, FingerprintView,
};
use crate::text::{is_sorted_set, string_views};
use crate::transaction::{
    normalize_transaction_text, normalized_text, AmountChecks, NormalizedText, NormalizedTextView,
    TransactionText, TransactionValidationError,
};

verus! {

/// The most transactions one import may hold.
pub const MAX_IMPORT_TRANSACTIONS: usize = 10000;

/// One transaction of an import: its text, which of its amounts are
/// acceptable, its trade date as a day number, and the bit patterns of its
/// quantity, price and fee.
pub struct ImportItem {
    pub text: TransactionText,
    pub checks: AmountChecks,
    pub date: i32,
    pub quantity: u64,
    pub price: u64,
    pub fee: u64,
}

/// Why an import is refused before the ledger is looked at.
#[derive(Debug, PartialEq, Eq)]
pub enum ImportRejection {
    TooManyTransactions,
    /// The transaction at `index` (counted from 1) breaks a rule.
    InvalidTransaction { index: usize, source: TransactionValidationError },
}

/// The checked form of an import.
pub struct PreparedImport {
    /// Every transaction, normalized, in the order given.
    pub normalized: Vec<NormalizedText>,
    /// The positions of the transactions to add, in increasing order.
    pub kept: Vec<usize>,
    /// How many transactions were skipped as already held.
    pub skipped: usize,
    /// The symbols of the transactions added, sorted, each once.
    pub symbols: Vec<String>,
}

/// What normalizing an item gives.
pub open spec fn item_result(item: ImportItem) -> Result<NormalizedTextView, TransactionValidationError> {
    normalized_text(
        item.text.symbol@,
        item.text.txn_type@,
        item.text.currency@,
        match item.text.notes {
            Some(n) => Some(n@),
            None => None,
        },
        (
            item.checks.quantity_valid,
            item.checks.price_valid,
            item.checks.fee_valid,
            item.checks.fx_rate_valid,
        ),
    )
}

/// The fingerprint of a normalized item: its normalized symbol and type,
/// its trade date, and the bit patterns of its quantity, price and fee.
pub open spec fn item_fingerprint(item: ImportItem, n: NormalizedTextView) -> FingerprintView {
    (n.0, n.1, item.date, item.quantity, item.price, item.fee)
}

/// The fingerprints of the normalized items.
pub open spec fn prepared_fingerprints(items: Seq<ImportItem>, normalized: Seq<NormalizedText>) -> Seq<FingerprintView> {
    Seq::new(items.len(), |i: int| item_fingerprint(items[i], normalized[i]@))
}

/// `p` is the checked form of the import of `items` into a ledger holding
/// `existing`.
pub open spec fn is_prepared_import(existing: Seq<Fingerprint>, items: Seq<ImportItem>, p: PreparedImport) -> bool {
    &&& p.normalized.len() == items.len()
    &&& forall|i: int|
        0 <= i < items.len() ==> item_result(#[trigger] items[i])
            == Ok::<NormalizedTextView, TransactionValidationError>(p.normalized@[i]@)
    &&& is_import_plan(fingerprint_views(existing), prepared_fingerprints(items, p.normalized@), p.kept@)
    &&& p.skipped == items.len() - p.kept.len()
    &&& is_sorted_set(
        p.kept@.map_values(|i: usize| p.normalized@[i as int].symbol@),
        string_views(p.symbols@),
    )
}

/// Checks an import: too many transactions refuse it, the first that
/// breaks a rule refuses it, and otherwise it adds the transactions that
/// neither the ledger nor an earlier one of the batch holds.
pub fn prepare_import(existing: &Vec<Fingerprint>, items: &Vec<ImportItem>) -> (r: Result<
    PreparedImport,
    ImportRejection,
>)
    ensures
        match r {
            Ok(p) => items.len() <= MAX_IMPORT_TRANSACTIONS && is_prepared_import(existing@, items@, p),
            Err(ImportRejection::TooManyTransactions) => items.len() > MAX_IMPORT_TRANSACTIONS,
            Err(ImportRejection::InvalidTransaction { index, source }) => {
                &&& items.len() <= MAX_IMPORT_TRANSACTIONS
                &&& 1 <= index <= items.len()
                &&& item_result(items@[index - 1]) == Err::<NormalizedTextView, TransactionValidationError>(source)
                &&& forall|i: int| 0 <= i < index - 1 ==> #[trigger] item_result(items@[i]) is Ok
            },
        },
{
    if items.len() > MAX_IMPORT_TRANSACTIONS {
        return Err(ImportRejection::TooManyTransactions);
    }
    let mut normalized: Vec<NormalizedText> = Vec::new();
    let mut fingerprints: Vec<Fingerprint> = Vec::new();
    let mut symbols: Vec<String> = Vec::new();
    let mut i: usize = 0;
    while i < items.len()
        invariant
            i <= items.len() <= MAX_IMPORT_TRANSACTIONS,
            normalized.len() == i,
            fingerprints.len() == i,
            symbols.len() == i,
            forall|t: int|
                0 <= t < i ==> item_result(#[trigger] items@[t])
                    == Ok::<NormalizedTextView, TransactionValidationError>(normalized@[t]@),
            forall|t: int|
                0 <= t < i ==> (#[trigger] fingerprints@[t])@ == item_fingerprint(items@[t], normalized@[t]@),
            forall|t: int| 0 <= t < i ==> (#[trigger] symbols@[t])@ == normalized@[t].symbol@,
        decreases items.len() - i,
    {
        let item = &items[i];
        let n = match normalize_transaction_text(&item.text, &item.checks) {
            Ok(n) => n,
            Err(e) => return Err(ImportRejection::InvalidTransaction { index: i + 1, source: e }),
        };
        let fp = Fingerprint {
            symbol: n.symbol.clone(),
            txn_type: n.txn_type.clone(),
            date: item.date,
            quantity: item.quantity,
            price: item.price,
            fee: item.fee,
        };
        symbols.push(n.symbol.clone());
        fingerprints.push(fp);
        normalized.push(n);
        i = i + 1;
    }
    let kept = plan_import(existing, &fingerprints);
    proof {
        assert(fingerprint_views(fingerprints@) =~= prepared_fingerprints(items@, normalized@));
    }
    let syms = imported_symbols(&symbols, &kept);
    proof {
        assert(kept@.map_values(|k: usize| symbols@[k as int]@) =~= kept@.map_values(
            |k: usize| normalized@[k as int].symbol@,
        ));
    }
    proof {
        crate::ledger::lemma_import_plan_size(
            fingerprint_views(existing@),
            fingerprint_views(fingerprints@),
            kept@,
        );
    }
    let skipped = items.len() - kept.len();
    Ok(PreparedImport { normalized, kept, skipped, symbols: syms })
}


/// Importing a batch a second time, into the ledger that its first import
/// produced, adds nothing and skips every transaction.
pub proof fn lemma_reimport_adds_nothing(
    existing: Seq<Fingerprint>,
    items: Seq<ImportItem>,
    first: PreparedImport,
    after: Seq<Fingerprint>,
    second: PreparedImport,
)
    requires
        is_prepared_import(existing, items, first),
        fingerprint_views(after) == ledger_after_import(
            fingerprint_views(existing),
            prepared_fingerprints(items, first.normalized@),
            first.kept@,
        ),
        is_prepared_import(after, items, second),
    ensures
        second.kept.len() == 0,
        second.skipped == items.len(),
{
    assert(prepared_fingerprints(items, second.normalized@) =~= prepared_fingerprints(
        items,
        first.normalized@,
    )) by {
        assert forall|i: int| 0 <= i < items.len() implies second.normalized@[i]@
            == first.normalized@[i]@ by {
            assert(item_result(items[i]) == Ok::<NormalizedTextView, TransactionValidationError>(
                first.normalized@[i]@,
            ));
            assert(item_result(items[i]) == Ok::<NormalizedTextView, TransactionValidationError>(
                second.normalized@[i]@,
            ));
        }
    }
    lemma_import_idempotent(
        fingerprint_views(existing),
        prepared_fingerprints(items, first.normalized@),
        first.kept@,
        second.kept@,
    );
}

} // verus!
