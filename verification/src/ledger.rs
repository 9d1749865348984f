//! The transaction ledger: chronological ordering, the per-symbol checks that
//! span the whole ledger, identifiers and duplicate-free imports.
use vstd::prelude::*;

use crate::text::{chars_of, owned, same_chars};

verus! {

/// The position of a transaction in time: its trade date, as a day number,
/// and its identifier, which breaks ties between trades of one day.
pub type TradeKey = (i32, i64);

/// `a` comes strictly before `b` when transactions are ordered by key and,
/// for equal keys, by their position `ia`, `ib` in the input (a stable sort).
pub open spec fn key_before(a: TradeKey, ia: int, b: TradeKey, ib: int) -> bool {
    ||| a.0 < b.0
    ||| (a.0 == b.0 && a.1 < b.1)
    ||| (a.0 == b.0 && a.1 == b.1 && ia < ib)
}

/// Whether the transaction at `i` is taken into account on the day `as_of`
/// (every transaction is, when there is no such day).
pub open spec fn traded_by(keys: Seq<TradeKey>, i: int, as_of: Option<i32>) -> bool {
    match as_of {
        None => true,
        Some(d) => keys[i].0 <= d,
    }
}

/// `order` lists exactly the positions of `keys` that were traded by
/// `as_of`, each once, from the earliest to the latest.
pub open spec fn is_chronological_order(keys: Seq<TradeKey>, as_of: Option<i32>, order: Seq<usize>) -> bool {
    &&& forall|k: int| 0 <= k < order.len() ==> (order[k] as int) < keys.len()
    &&& forall|k: int| 0 <= k < order.len() ==> traded_by(keys, #[trigger] order[k] as int, as_of)
    &&& forall|i: int| 0 <= i < keys.len() && traded_by(keys, i, as_of) ==> order.contains(i as usize)
    &&& forall|j: int, k: int|
        0 <= j < k < order.len() ==> key_before(
            keys[#[trigger] order[j] as int],
            order[j] as int,
            keys[#[trigger] order[k] as int],
            order[k] as int,
        )
}

fn key_greater(a: TradeKey, b: TradeKey) -> (r: bool)
    ensures
        r == (a.0 > b.0 || (a.0 == b.0 && a.1 > b.1)),
{
    a.0 > b.0 || (a.0 == b.0 && a.1 > b.1)
}

/// Orders the transactions whose keys are given chronologically, leaving out
/// those traded after `as_of`; equal keys keep their input order.
pub fn chronological_order(keys: &Vec<TradeKey>, as_of: Option<i32>) -> (order: Vec<usize>)
    ensures
        is_chronological_order(keys@, as_of, order@),
{
    let n = keys.len();
    let mut order: Vec<usize> = Vec::new();
    let mut i: usize = 0;
    while i < n
        invariant
            i <= n == keys.len(),
            forall|k: int| 0 <= k < order.len() ==> (order[k] as int) < i,
            forall|k: int| 0 <= k < order.len() ==> traded_by(keys@, #[trigger] order@[k] as int, as_of),
            forall|t: int| 0 <= t < i && traded_by(keys@, t, as_of) ==> order@.contains(t as usize),
            forall|j: int, k: int|
                0 <= j < k < order.len() ==> key_before(
                    keys@[#[trigger] order@[j] as int],
                    order@[j] as int,
                    keys@[#[trigger] order@[k] as int],
                    order@[k] as int,
                ),
        decreases n - i,
    {
        let key = keys[i];
        let take = match as_of {
            None => true,
            Some(d) => key.0 <= d,
        };
        if take {
            // every element after position p comes after the new one
            let mut p: usize = order.len();
            while p > 0 && key_greater(keys[order[p - 1]], key)
                invariant
                    p <= order.len(),
                    i < n == keys.len(),
                    key == keys@[i as int],
                    forall|k: int| 0 <= k < order.len() ==> (order[k] as int) < i,
                    forall|k: int|
                        p <= k < order.len() ==> key_before(
                            key,
                            i as int,
                            keys@[#[trigger] order@[k] as int],
                            order@[k] as int,
                        ),
                decreases p,
            {
                p = p - 1;
            }
            let ghost old_order = order@;
            order.insert(p, i);
            proof {
                assert forall|k: int| 0 <= k < order.len() implies (order[k] as int) < i + 1 by {
                    if k < p {
                        assert(order@[k] == old_order[k]);
                    } else if k > p {
                        assert(order@[k] == old_order[k - 1]);
                    }
                }
                assert forall|k: int| 0 <= k < order.len() implies traded_by(
                    keys@,
                    #[trigger] order@[k] as int,
                    as_of,
                ) by {
                    if k < p {
                        assert(order@[k] == old_order[k]);
                    } else if k > p {
                        assert(order@[k] == old_order[k - 1]);
                    }
                }
                assert forall|t: int| 0 <= t < i + 1 && traded_by(keys@, t, as_of) implies order@.contains(
                    t as usize,
                ) by {
                    if t < i {
                        assert(old_order.contains(t as usize));
                        let w = choose|w: int| 0 <= w < old_order.len() && old_order[w] == t as usize;
                        if w < p {
                            assert(order@[w] == t as usize);
                        } else {
                            assert(order@[w + 1] == t as usize);
                        }
                    } else {
                        assert(order@[p as int] == i);
                    }
                }
                assert forall|j: int, k: int| 0 <= j < k < order.len() implies key_before(
                    keys@[#[trigger] order@[j] as int],
                    order@[j] as int,
                    keys@[#[trigger] order@[k] as int],
                    order@[k] as int,
                ) by {
                    if k < p {
                        assert(order@[j] == old_order[j] && order@[k] == old_order[k]);
                    } else if k == p {
                        assert(order@[j] == old_order[j]);
                        // the scan stopped before an element not after the new one
                        assert(!(keys@[old_order[j] as int].0 > key.0 || (keys@[old_order[j] as int].0
                            == key.0 && keys@[old_order[j] as int].1 > key.1)) || j < p - 1);
                        if j < p - 1 {
                            assert(key_before(
                                keys@[old_order[j] as int],
                                old_order[j] as int,
                                keys@[old_order[p - 1] as int],
                                old_order[p - 1] as int,
                            ));
                        }
                    } else if j == p {
                        assert(order@[k] == old_order[k - 1]);
                    } else if j < p {
                        assert(order@[j] == old_order[j] && order@[k] == old_order[k - 1]);
                    } else {
                        assert(order@[j] == old_order[j - 1] && order@[k] == old_order[k - 1]);
                    }
                }
            }
        }
        i = i + 1;
    }
    order
}


/// `order` lists positions of `keys` from the earliest to the latest.
spec fn sorted_positions(keys: Seq<TradeKey>, order: Seq<usize>) -> bool {
    &&& forall|k: int| 0 <= k < order.len() ==> (order[k] as int) < keys.len()
    &&& forall|j: int, k: int|
        0 <= j < k < order.len() ==> key_before(
            keys[#[trigger] order[j] as int],
            order[j] as int,
            keys[#[trigger] order[k] as int],
            order[k] as int,
        )
}

/// Two sorted lists of the same positions are the same list.
proof fn lemma_sorted_positions_unique(keys: Seq<TradeKey>, a: Seq<usize>, b: Seq<usize>)
    requires
        sorted_positions(keys, a),
        sorted_positions(keys, b),
        forall|x: usize| a.contains(x) <==> b.contains(x),
    ensures
        a == b,
    decreases a.len() + b.len(),
{
    if a.len() == 0 {
        if b.len() > 0 {
            assert(b.contains(b[0]));
        }
        assert(a =~= b);
    } else if b.len() == 0 {
        assert(a.contains(a[0]));
    } else {
        // the first of each list is the first of the other
        assert(a.contains(a[0]));
        assert(b.contains(b[0]));
        let m = choose|m: int| 0 <= m < b.len() && b[m] == a[0];
        let j = choose|j: int| 0 <= j < a.len() && a[j] == b[0];
        if m > 0 {
            assert(key_before(keys[b[0] as int], b[0] as int, keys[b[m] as int], b[m] as int));
            if j == 0 {
                assert(b[0] == b[m]);
            } else {
                assert(key_before(keys[a[0] as int], a[0] as int, keys[a[j] as int], a[j] as int));
            }
        }
        assert(a[0] == b[0]);
        let ra = a.drop_first();
        let rb = b.drop_first();
        assert forall|x: usize| ra.contains(x) <==> rb.contains(x) by {
            if ra.contains(x) {
                let w = choose|w: int| 0 <= w < ra.len() && ra[w] == x;
                assert(a[w + 1] == x);
                assert(key_before(keys[a[0] as int], a[0] as int, keys[a[w + 1] as int], a[w + 1] as int));
                assert(x != a[0]);
                assert(b.contains(x));
                let v = choose|v: int| 0 <= v < b.len() && b[v] == x;
                assert(v != 0);
                assert(rb[v - 1] == x);
            }
            if rb.contains(x) {
                let w = choose|w: int| 0 <= w < rb.len() && rb[w] == x;
                assert(b[w + 1] == x);
                assert(key_before(keys[b[0] as int], b[0] as int, keys[b[w + 1] as int], b[w + 1] as int));
                assert(x != b[0]);
                assert(a.contains(x));
                let v = choose|v: int| 0 <= v < a.len() && a[v] == x;
                assert(v != 0);
                assert(ra[v - 1] == x);
            }
        }
        assert forall|j2: int, k2: int| 0 <= j2 < k2 < ra.len() implies key_before(
            keys[#[trigger] ra[j2] as int],
            ra[j2] as int,
            keys[#[trigger] ra[k2] as int],
            ra[k2] as int,
        ) by {
            assert(ra[j2] == a[j2 + 1] && ra[k2] == a[k2 + 1]);
        }
        assert forall|j2: int, k2: int| 0 <= j2 < k2 < rb.len() implies key_before(
            keys[#[trigger] rb[j2] as int],
            rb[j2] as int,
            keys[#[trigger] rb[k2] as int],
            rb[k2] as int,
        ) by {
            assert(rb[j2] == b[j2 + 1] && rb[k2] == b[k2 + 1]);
        }
        lemma_sorted_positions_unique(keys, ra, rb);
        assert(a =~= seq![a[0]] + ra);
        assert(b =~= seq![b[0]] + rb);
    }
}

/// The chronological order of a ledger is determined by the ledger: two
/// orders that both meet its description are the same.
pub proof fn lemma_chronological_order_unique(
    keys: Seq<TradeKey>,
    as_of: Option<i32>,
    a: Seq<usize>,
    b: Seq<usize>,
)
    requires
        is_chronological_order(keys, as_of, a),
        is_chronological_order(keys, as_of, b),
    ensures
        a == b,
{
    assert forall|x: usize| a.contains(x) implies b.contains(x) by {
        let w = choose|w: int| 0 <= w < a.len() && a[w] == x;
        assert(traded_by(keys, a[w] as int, as_of));
        assert(traded_by(keys, x as int, as_of));
    }
    assert forall|x: usize| b.contains(x) implies a.contains(x) by {
        let w = choose|w: int| 0 <= w < b.len() && b[w] == x;
        assert(traded_by(keys, b[w] as int, as_of));
        assert(traded_by(keys, x as int, as_of));
    }
    lemma_sorted_positions_unique(keys, a, b);
}

/// One transaction as the ledger checks see it.
pub struct LedgerEntry {
    pub id: i64,
    /// The trade date as a day number.
    pub date: i32,
    pub symbol: String,
    pub txn_type: String,
    pub currency: String,
}

/// A defect of the ledger that does not depend on quantities.
#[derive(Debug)]
pub enum LedgerIssue {
    /// The transaction is neither a purchase nor a sale.
    InvalidTransactionType { id: i64 },
    /// The symbol was first traded in `expected` and here in `actual`.
    CurrencyMismatch { symbol: String, expected: String, actual: String },
}

/// `BUY`.
pub open spec fn buy_type() -> Seq<char> {
    seq!['B', 'U', 'Y']
}

/// `SELL`.
pub open spec fn sell_type() -> Seq<char> {
    seq!['S', 'E', 'L', 'L']
}

/// The two kinds of trade.
pub open spec fn is_trade_type(t: Seq<char>) -> bool {
    t == buy_type() || t == sell_type()
}

/// The keys of ledger entries, in the same positions.
pub open spec fn entry_keys(entries: Seq<LedgerEntry>) -> Seq<TradeKey> {
    entries.map_values(|e: LedgerEntry| (e.date, e.id))
}

/// The currency in which `sym` was first traded among the first `p`
/// transactions of `order`.
pub open spec fn currency_seen(entries: Seq<LedgerEntry>, order: Seq<usize>, p: int, sym: Seq<char>) -> Option<Seq<char>>
    decreases p,
{
    if p <= 0 {
        None
    } else {
        let prev = currency_seen(entries, order, p - 1, sym);
        if prev is Some {
            prev
        } else if entries[order[p - 1] as int].symbol@ == sym {
            Some(entries[order[p - 1] as int].currency@)
        } else {
            None
        }
    }
}

/// The transaction at position `p` of `order` is a trade in the currency
/// in which its symbol was first traded.
pub open spec fn entry_ok(entries: Seq<LedgerEntry>, order: Seq<usize>, p: int) -> bool {
    let e = entries[order[p] as int];
    &&& is_trade_type(e.txn_type@)
    &&& match currency_seen(entries, order, p, e.symbol@) {
        None => true,
        Some(c) => c == e.currency@,
    }
}

/// The issue that the transaction at position `p` of `order` raises.
pub open spec fn issue_is(entries: Seq<LedgerEntry>, order: Seq<usize>, p: int, issue: LedgerIssue) -> bool {
    let e = entries[order[p] as int];
    if !is_trade_type(e.txn_type@) {
        issue == LedgerIssue::InvalidTransactionType { id: e.id }
    } else {
        issue matches LedgerIssue::CurrencyMismatch { symbol, expected, actual } && symbol@
            == e.symbol@ && Some(expected@) == currency_seen(entries, order, p, e.symbol@)
            && actual@ == e.currency@
    }
}

/// The result of walking a ledger in chronological order.
pub struct LedgerScan {
    /// The positions of the transactions, from the earliest to the latest.
    pub order: Vec<usize>,
    /// How many transactions of `order` passed before the walk stopped.
    pub checked: usize,
    /// Why the walk stopped early, if it did.
    pub issue: Option<LedgerIssue>,
}

/// What a scan of `entries` reports: the chronological order, every
/// transaction before `checked` in order, and the issue of the one at
/// `checked` when the walk stopped early.
pub open spec fn is_ledger_scan(entries: Seq<LedgerEntry>, scan: LedgerScan) -> bool {
    &&& is_chronological_order(entry_keys(entries), None, scan.order@)
    &&& scan.checked <= scan.order.len()
    &&& forall|p: int| 0 <= p < scan.checked ==> entry_ok(entries, scan.order@, p)
    &&& if scan.checked < scan.order.len() {
        &&& !entry_ok(entries, scan.order@, scan.checked as int)
        &&& scan.issue matches Some(issue) && issue_is(entries, scan.order@, scan.checked as int, issue)
    } else {
        scan.issue is None
    }
}

fn keys_of(entries: &Vec<LedgerEntry>) -> (keys: Vec<TradeKey>)
    ensures
        keys@ == entry_keys(entries@),
{
    let mut keys: Vec<TradeKey> = Vec::new();
    let mut k: usize = 0;
    while k < entries.len()
        invariant
            k <= entries.len(),
            keys@ == entry_keys(entries@).take(k as int),
        decreases entries.len() - k,
    {
        keys.push((entries[k].date, entries[k].id));
        k = k + 1;
        assert(keys@ =~= entry_keys(entries@).take(k as int));
    }
    assert(entry_keys(entries@).take(entries.len() as int) =~= entry_keys(entries@));
    keys
}

/// Walks the ledger from its earliest transaction to its latest and stops at
/// the first one that is not a purchase or sale, or that trades a symbol in
/// another currency than the one it was first traded in. The quantities are
/// not looked at: `checked` says how far a walk that tracks them may go.
pub fn scan_ledger(entries: &Vec<LedgerEntry>) -> (scan: LedgerScan)
    ensures
        is_ledger_scan(entries@, scan),
{
    let keys = keys_of(entries);
    let order = chronological_order(&keys, None);
    let n = order.len();
    let buy = vec!['B', 'U', 'Y'];
    let sell = vec!['S', 'E', 'L', 'L'];
    assert(buy@ =~= buy_type());
    assert(sell@ =~= sell_type());
    let mut seen_symbols: Vec<Vec<char>> = Vec::new();
    let mut seen_currencies: Vec<Vec<char>> = Vec::new();
    let mut p: usize = 0;
    while p < n
        invariant
            n == order.len(),
            p <= n,
            is_chronological_order(entry_keys(entries@), None, order@),
            buy@ == buy_type(),
            sell@ == sell_type(),
            seen_symbols.len() == seen_currencies.len(),
            forall|q: int| 0 <= q < p ==> entry_ok(entries@, order@, q),
            forall|k: int|
                0 <= k < seen_symbols.len() ==> currency_seen(
                    entries@,
                    order@,
                    p as int,
                    #[trigger] seen_symbols@[k]@,
                ) == Some(seen_currencies@[k]@),
            forall|sym: Seq<char>|
                #[trigger] currency_seen(entries@, order@, p as int, sym) is Some ==> exists|k: int|
                    0 <= k < seen_symbols.len() && seen_symbols@[k]@ == sym,
        decreases n - p,
    {
        let ghost ord = order@;
        assert((order[p as int] as int) < entries.len()) by {
            assert(entry_keys(entries@).len() == entries.len());
        }
        let e = &entries[order[p]];
        let t = chars_of(e.txn_type.as_str());
        if !same_chars(&t, &buy) && !same_chars(&t, &sell) {
            let issue = LedgerIssue::InvalidTransactionType { id: e.id };
            return LedgerScan { order, checked: p, issue: Some(issue) };
        }
        let sym = chars_of(e.symbol.as_str());
        let cur = chars_of(e.currency.as_str());
        let mut k: usize = 0;
        let mut found = false;
        while k < seen_symbols.len()
            invariant_except_break
                !found,
            invariant
                k <= seen_symbols.len(),
                seen_symbols.len() == seen_currencies.len(),
                forall|t: int| 0 <= t < k ==> seen_symbols@[t]@ != sym@,
            ensures
                found ==> k < seen_symbols.len() && seen_symbols@[k as int]@ == sym@,
                !found ==> k == seen_symbols.len(),
            decreases seen_symbols.len() - k,
        {
            if same_chars(&seen_symbols[k], &sym) {
                found = true;
                break;
            }
            k = k + 1;
        }
        if found {
            let expected_matches = same_chars(&seen_currencies[k], &cur);
            if !expected_matches {
                let issue = LedgerIssue::CurrencyMismatch {
                    symbol: owned(e.symbol.as_str()),
                    expected: crate::text::string_of(&seen_currencies[k]),
                    actual: owned(e.currency.as_str()),
                };
                return LedgerScan { order, checked: p, issue: Some(issue) };
            }
            proof {
                assert forall|k2: int| 0 <= k2 < seen_symbols.len() implies currency_seen(
                    entries@,
                    order@,
                    p + 1,
                    #[trigger] seen_symbols@[k2]@,
                ) == Some(seen_currencies@[k2]@) by {
                    assert(currency_seen(entries@, order@, p as int, seen_symbols@[k2]@) is Some);
                }
                assert forall|s: Seq<char>|
                    #[trigger] currency_seen(entries@, order@, p + 1, s) is Some implies exists|k2: int|
                        0 <= k2 < seen_symbols.len() && seen_symbols@[k2]@ == s by {
                    if currency_seen(entries@, order@, p as int, s) is None {
                        assert(seen_symbols@[k as int]@ == s);
                    }
                }
            }
        } else {
            proof {
                if currency_seen(entries@, order@, p as int, sym@) is Some {
                    let w = choose|w: int| 0 <= w < seen_symbols.len() && seen_symbols@[w]@ == sym@;
                    assert(seen_symbols@[w]@ != sym@);
                }
            }
            let ghost old_syms = seen_symbols@;
            seen_symbols.push(sym);
            seen_currencies.push(cur);
            proof {
                assert forall|k2: int| 0 <= k2 < seen_symbols.len() implies currency_seen(
                    entries@,
                    order@,
                    p + 1,
                    #[trigger] seen_symbols@[k2]@,
                ) == Some(seen_currencies@[k2]@) by {
                    if k2 < seen_symbols.len() - 1 {
                        assert(currency_seen(entries@, order@, p as int, seen_symbols@[k2]@) is Some);
                    }
                }
                assert forall|s: Seq<char>|
                    #[trigger] currency_seen(entries@, order@, p + 1, s) is Some implies exists|k2: int|
                        0 <= k2 < seen_symbols.len() && seen_symbols@[k2]@ == s by {
                    if currency_seen(entries@, order@, p as int, s) is None {
                        assert(seen_symbols@[seen_symbols.len() - 1]@ == s);
                    } else {
                        let w = choose|w: int| 0 <= w < old_syms.len() && old_syms[w]@ == s;
                        assert(seen_symbols@[w] == old_syms[w]);
                    }
                }
            }
        }
        p = p + 1;
    }
    LedgerScan { order, checked: n, issue: None }
}


/// Every transaction is a purchase or a sale, and each symbol is traded in
/// one currency only.
pub open spec fn consistent_ledger(entries: Seq<LedgerEntry>) -> bool {
    &&& forall|i: int| 0 <= i < entries.len() ==> is_trade_type(#[trigger] entries[i].txn_type@)
    &&& forall|i: int, j: int|
        0 <= i < entries.len() && 0 <= j < entries.len() && #[trigger] entries[i].symbol@
            == #[trigger] entries[j].symbol@ ==> entries[i].currency@ == entries[j].currency@
}

/// The symbol of the transaction at position `q` of `order`.
spec fn symbol_at(entries: Seq<LedgerEntry>, order: Seq<usize>, q: int) -> Seq<char> {
    entries[order[q] as int].symbol@
}

/// The currency of the transaction at position `q` of `order`.
spec fn currency_at(entries: Seq<LedgerEntry>, order: Seq<usize>, q: int) -> Seq<char> {
    entries[order[q] as int].currency@
}

/// `f` is the first position of the symbol at position `k`, and carries the
/// same currency.
spec fn is_first_of_symbol(entries: Seq<LedgerEntry>, order: Seq<usize>, f: int, k: int) -> bool {
    &&& 0 <= f <= k
    &&& symbol_at(entries, order, f) == symbol_at(entries, order, k)
    &&& currency_at(entries, order, f) == currency_at(entries, order, k)
    &&& forall|r: int| 0 <= r < f ==> #[trigger] symbol_at(entries, order, r) != symbol_at(entries, order, k)
}

/// The position `k` carries the currency of the first position of its
/// symbol.
spec fn agrees_with_first(entries: Seq<LedgerEntry>, order: Seq<usize>, k: int) -> bool {
    exists|f: int| is_first_of_symbol(entries, order, f, k)
}

/// The currency seen for `sym` before position `p` is that of its first
/// transaction, and none is seen when no earlier transaction trades it.
proof fn lemma_currency_seen_first(entries: Seq<LedgerEntry>, order: Seq<usize>, p: int, sym: Seq<char>)
    requires
        0 <= p,
    ensures
        currency_seen(entries, order, p, sym) is None ==> forall|q: int|
            0 <= q < p ==> #[trigger] symbol_at(entries, order, q) != sym,
        currency_seen(entries, order, p, sym) matches Some(c) ==> exists|q: int|
            0 <= q < p && symbol_at(entries, order, q) == sym && currency_at(entries, order, q) == c
                && forall|r: int| 0 <= r < q ==> #[trigger] symbol_at(entries, order, r) != sym,
    decreases p,
{
    if p > 0 {
        lemma_currency_seen_first(entries, order, p - 1, sym);
        if currency_seen(entries, order, p - 1, sym) is None && symbol_at(entries, order, p - 1)
            == sym {
            assert(currency_at(entries, order, p - 1) == entries[order[p - 1] as int].currency@);
        }
    }
}

/// A ledger walk stops early exactly when the ledger is not consistent:
/// some transaction is neither a purchase nor a sale, or some symbol is
/// traded in two currencies.
pub proof fn lemma_scan_finds_every_inconsistency(entries: Seq<LedgerEntry>, scan: LedgerScan)
    requires
        entries.len() <= usize::MAX,
        is_ledger_scan(entries, scan),
    ensures
        scan.issue is None <==> consistent_ledger(entries),
{
    let order = scan.order@;
    let keys = entry_keys(entries);
    assert(keys.len() == entries.len());
    if consistent_ledger(entries) && scan.checked < order.len() {
        let p = scan.checked as int;
        let e = entries[order[p] as int];
        assert(is_trade_type(e.txn_type@));
        lemma_currency_seen_first(entries, order, p, e.symbol@);
        if currency_seen(entries, order, p, e.symbol@) is Some {
            let q = choose|q: int|
                0 <= q < p && symbol_at(entries, order, q) == e.symbol@ && currency_at(
                    entries,
                    order,
                    q,
                ) == currency_seen(entries, order, p, e.symbol@)->0 && forall|r: int|
                    0 <= r < q ==> #[trigger] symbol_at(entries, order, r) != e.symbol@;
            assert(entries[order[q] as int].symbol@ == entries[order[p] as int].symbol@);
        }
        assert(entry_ok(entries, order, p));
    }
    if scan.issue is None {
        assert(scan.checked == order.len());
        assert forall|i: int| 0 <= i < entries.len() implies is_trade_type(
            #[trigger] entries[i].txn_type@,
        ) by {
            assert(traded_by(keys, i, None));
            assert(order.contains(i as usize));
            let k = choose|k: int| 0 <= k < order.len() && order[k] == i as usize;
            assert(entry_ok(entries, order, k));
        }
        // Each position carries the currency of the first position of its
        // symbol.
        assert forall|k: int| 0 <= k < order.len() implies #[trigger] agrees_with_first(
            entries,
            order,
            k,
        ) by {
            let sym = symbol_at(entries, order, k);
            assert(entry_ok(entries, order, k));
            lemma_currency_seen_first(entries, order, k, sym);
            if currency_seen(entries, order, k, sym) is None {
                assert(is_first_of_symbol(entries, order, k, k));
            } else {
                let c = currency_seen(entries, order, k, sym)->0;
                let q = choose|q: int|
                    0 <= q < k && symbol_at(entries, order, q) == sym && currency_at(entries, order, q)
                        == c && forall|r: int|
                        0 <= r < q ==> #[trigger] symbol_at(entries, order, r) != sym;
                assert(is_first_of_symbol(entries, order, q, k));
            }
        }
        assert forall|i: int, j: int|
            0 <= i < entries.len() && 0 <= j < entries.len() && #[trigger] entries[i].symbol@
                == #[trigger] entries[j].symbol@ implies entries[i].currency@
                == entries[j].currency@ by {
            assert(traded_by(keys, i, None));
            assert(traded_by(keys, j, None));
            assert(order.contains(i as usize));
            assert(order.contains(j as usize));
            let ki = choose|k: int| 0 <= k < order.len() && order[k] == i as usize;
            let kj = choose|k: int| 0 <= k < order.len() && order[k] == j as usize;
            let sym = entries[i].symbol@;
            assert(symbol_at(entries, order, ki) == sym);
            assert(symbol_at(entries, order, kj) == sym);
            assert(agrees_with_first(entries, order, ki));
            assert(agrees_with_first(entries, order, kj));
            let fi = choose|f: int| is_first_of_symbol(entries, order, f, ki);
            let fj = choose|f: int| is_first_of_symbol(entries, order, f, kj);
            if fi < fj {
                assert(symbol_at(entries, order, fi) != sym);
            } else if fj < fi {
                assert(symbol_at(entries, order, fj) != sym);
            }
        }
    }
}

/// Taking a transaction out of a consistent ledger leaves it consistent.
pub proof fn lemma_removal_keeps_consistency(entries: Seq<LedgerEntry>, i: int)
    requires
        consistent_ledger(entries),
        0 <= i < entries.len(),
    ensures
        consistent_ledger(entries.remove(i)),
{
    let rest = entries.remove(i);
    assert forall|a: int| 0 <= a < rest.len() implies is_trade_type(#[trigger] rest[a].txn_type@) by {
        if a < i {
            assert(rest[a] == entries[a]);
        } else {
            assert(rest[a] == entries[a + 1]);
        }
    }
    assert forall|a: int, b: int|
        0 <= a < rest.len() && 0 <= b < rest.len() && #[trigger] rest[a].symbol@
            == #[trigger] rest[b].symbol@ implies rest[a].currency@ == rest[b].currency@ by {
        let ea = if a < i { a } else { a + 1 };
        let eb = if b < i { b } else { b + 1 };
        assert(rest[a] == entries[ea]);
        assert(rest[b] == entries[eb]);
    }
}

/// The latest of the eligible transactions: the one that comes last when
/// they are ordered by key and then by position, as `Iterator::max_by_key`
/// picks it.
pub open spec fn is_latest(keys: Seq<TradeKey>, eligible: Seq<bool>, r: Option<usize>) -> bool {
    match r {
        None => forall|j: int| 0 <= j < keys.len() ==> !eligible[j],
        Some(i) => {
            &&& (i as int) < keys.len()
            &&& eligible[i as int]
            &&& forall|j: int|
                0 <= j < keys.len() && eligible[j] && j != i ==> key_before(
                    keys[j],
                    j,
                    keys[i as int],
                    i as int,
                )
        },
    }
}

/// Picks the latest eligible transaction, or none when none is eligible.
pub fn latest_by_key(keys: &Vec<TradeKey>, eligible: &Vec<bool>) -> (r: Option<usize>)
    requires
        keys.len() == eligible.len(),
    ensures
        is_latest(keys@, eligible@, r),
{
    let mut best: Option<usize> = None;
    let mut k: usize = 0;
    while k < keys.len()
        invariant
            k <= keys.len() == eligible.len(),
            is_latest(keys@.take(k as int), eligible@.take(k as int), best),
        decreases keys.len() - k,
    {
        if eligible[k] {
            let replace = match best {
                None => true,
                Some(b) => !key_greater(keys[b], keys[k]),
            };
            if replace {
                best = Some(k);
            }
        }
        k = k + 1;
        proof {
            let kk = keys@.take(k as int);
            let ee = eligible@.take(k as int);
            assert forall|j: int| 0 <= j < k - 1 implies kk[j] == keys@.take(k - 1)[j]
                && ee[j] == eligible@.take(k - 1)[j] by {}
        }
    }
    assert(keys@.take(keys.len() as int) =~= keys@);
    assert(eligible@.take(keys.len() as int) =~= eligible@);
    best
}

/// The largest identifier, or zero for an empty ledger.
pub open spec fn max_id(ids: Seq<i64>) -> int
    decreases ids.len(),
{
    if ids.len() == 0 {
        0
    } else {
        let rest = max_id(ids.drop_last());
        if ids.len() == 1 || ids.last() > rest {
            ids.last() as int
        } else {
            rest
        }
    }
}

/// The identifier that the next transaction of the ledger gets: one more
/// than the largest, or 1 for an empty ledger.
pub fn next_transaction_id(ids: &Vec<i64>) -> (id: i64)
    requires
        forall|k: int| 0 <= k < ids.len() ==> ids[k] < i64::MAX,
    ensures
        id == max_id(ids@) + 1,
{
    let mut best: i64 = 0;
    let mut k: usize = 0;
    while k < ids.len()
        invariant
            k <= ids.len(),
            forall|t: int| 0 <= t < ids.len() ==> ids[t] < i64::MAX,
            best == max_id(ids@.take(k as int)),
            k > 0 ==> best < i64::MAX,
        decreases ids.len() - k,
    {
        let x = ids[k];
        assert(ids@.take(k + 1).drop_last() =~= ids@.take(k as int));
        if k == 0 || x > best {
            best = x;
        }
        k = k + 1;
    }
    assert(ids@.take(ids.len() as int) =~= ids@);
    best + 1
}

/// Every identifier of the ledger lies below the next one.
pub proof fn lemma_next_id_is_fresh(ids: Seq<i64>)
    ensures
        forall|k: int| 0 <= k < ids.len() ==> ids[k] < max_id(ids) + 1,
    decreases ids.len(),
{
    if ids.len() > 0 {
        lemma_next_id_is_fresh(ids.drop_last());
        assert forall|k: int| 0 <= k < ids.len() implies ids[k] < max_id(ids) + 1 by {
            if k < ids.len() - 1 {
                assert(ids[k] == ids.drop_last()[k]);
            }
        }
    }
}

/// What identifies a transaction when a ledger is imported: its symbol,
/// type, trade date, quantity, price and fee, with the numbers taken by
/// their bit patterns.
pub struct Fingerprint {
    pub symbol: String,
    pub txn_type: String,
    /// The trade date as a day number.
    pub date: i32,
    pub quantity: u64,
    pub price: u64,
    pub fee: u64,
}

/// The value of a fingerprint.
pub type FingerprintView = (Seq<char>, Seq<char>, i32, u64, u64, u64);

impl View for Fingerprint {
    type V = FingerprintView;

    open spec fn view(&self) -> FingerprintView {
        (self.symbol@, self.txn_type@, self.date, self.quantity, self.price, self.fee)
    }
}

/// The values of a list of fingerprints.
pub open spec fn fingerprint_views(s: Seq<Fingerprint>) -> Seq<FingerprintView> {
    s.map_values(|f: Fingerprint| f@)
}

/// The incoming transaction at `i` is new: the ledger does not hold it and
/// no earlier incoming transaction equals it.
pub open spec fn is_new_at(existing: Seq<FingerprintView>, incoming: Seq<FingerprintView>, i: int) -> bool {
    &&& !existing.contains(incoming[i])
    &&& !incoming.take(i).contains(incoming[i])
}

/// `kept` lists, in increasing order, the new incoming transactions.
pub open spec fn is_import_plan(existing: Seq<FingerprintView>, incoming: Seq<FingerprintView>, kept: Seq<usize>) -> bool {
    &&& incoming.len() <= usize::MAX
    &&& forall|k: int| 0 <= k < kept.len() ==> (kept[k] as int) < incoming.len()
    &&& forall|j: int, k: int| 0 <= j < k < kept.len() ==> kept[j] < kept[k]
    &&& forall|i: int| 0 <= i < incoming.len() ==> (is_new_at(existing, incoming, i) <==> kept.contains(i as usize))
}

fn same_fingerprint(a: &Fingerprint, b: &Fingerprint) -> (r: bool)
    ensures
        r == (a@ == b@),
{
    a.symbol == b.symbol && a.txn_type == b.txn_type && a.date == b.date && a.quantity
        == b.quantity && a.price == b.price && a.fee == b.fee
}

fn contains_fingerprint(list: &Vec<Fingerprint>, upto: usize, f: &Fingerprint) -> (r: bool)
    requires
        upto <= list.len(),
    ensures
        r == fingerprint_views(list@).take(upto as int).contains(f@),
{
    let ghost views = fingerprint_views(list@).take(upto as int);
    let mut k: usize = 0;
    while k < upto
        invariant
            k <= upto <= list.len(),
            views == fingerprint_views(list@).take(upto as int),
            forall|t: int| 0 <= t < k ==> views[t] != f@,
        decreases upto - k,
    {
        if same_fingerprint(&list[k], f) {
            assert(views[k as int] == f@);
            return true;
        }
        k = k + 1;
    }
    false
}

/// Which incoming transactions an import adds to the ledger: those that
/// neither the ledger nor an earlier incoming transaction already holds.
pub fn plan_import(existing: &Vec<Fingerprint>, incoming: &Vec<Fingerprint>) -> (kept: Vec<usize>)
    ensures
        is_import_plan(fingerprint_views(existing@), fingerprint_views(incoming@), kept@),
{
    let ghost ex = fingerprint_views(existing@);
    let ghost inc = fingerprint_views(incoming@);
    let mut kept: Vec<usize> = Vec::new();
    let mut i: usize = 0;
    while i < incoming.len()
        invariant
            i <= incoming.len(),
            ex == fingerprint_views(existing@),
            inc == fingerprint_views(incoming@),
            forall|k: int| 0 <= k < kept.len() ==> (kept[k] as int) < i,
            forall|j: int, k: int| 0 <= j < k < kept.len() ==> kept[j] < kept[k],
            forall|t: int| 0 <= t < i ==> (is_new_at(ex, inc, t) <==> kept@.contains(t as usize)),
        decreases incoming.len() - i,
    {
        let in_ledger = contains_fingerprint(existing, existing.len(), &incoming[i]);
        let earlier = contains_fingerprint(incoming, i, &incoming[i]);
        assert(fingerprint_views(existing@).take(existing.len() as int) =~= ex);
        let ghost old_kept = kept@;
        if !in_ledger && !earlier {
            kept.push(i);
        }
        proof {
            assert(inc[i as int] == incoming@[i as int]@);
            assert forall|t: int| 0 <= t < i + 1 implies (is_new_at(ex, inc, t) <==> kept@.contains(
                t as usize,
            )) by {
                if t < i {
                    if old_kept.contains(t as usize) {
                        let w = choose|w: int| 0 <= w < old_kept.len() && old_kept[w] == t as usize;
                        assert(kept@[w] == t as usize);
                    }
                    if kept@.contains(t as usize) {
                        let w = choose|w: int| 0 <= w < kept.len() && kept@[w] == t as usize;
                        if w < old_kept.len() {
                            assert(old_kept[w] == t as usize);
                        }
                    }
                } else {
                    if kept@.contains(t as usize) && !(!in_ledger && !earlier) {
                        let w = choose|w: int| 0 <= w < kept.len() && kept@[w] == t as usize;
                        assert(kept@[w] < i);
                    }
                    if !in_ledger && !earlier {
                        assert(kept@[kept.len() - 1] == i);
                    }
                }
            }
        }
        i = i + 1;
    }
    kept
}

/// The ledger after an import: the transactions it held, then the new ones.
pub open spec fn ledger_after_import(existing: Seq<FingerprintView>, incoming: Seq<FingerprintView>, kept: Seq<usize>) -> Seq<FingerprintView> {
    existing + kept.map_values(|k: usize| incoming[k as int])
}

proof fn lemma_imported_is_held(
    existing: Seq<FingerprintView>,
    incoming: Seq<FingerprintView>,
    kept: Seq<usize>,
    i: int,
)
    requires
        is_import_plan(existing, incoming, kept),
        0 <= i < incoming.len(),
    ensures
        ledger_after_import(existing, incoming, kept).contains(incoming[i]),
    decreases i,
{
    let after = ledger_after_import(existing, incoming, kept);
    if is_new_at(existing, incoming, i) {
        assert(kept.contains(i as usize));
        let w = choose|w: int| 0 <= w < kept.len() && kept[w] == i as usize;
        let added = kept.map_values(|k: usize| incoming[k as int]);
        assert(added[w] == incoming[i]);
        assert(after[existing.len() + w] == added[w]);
    } else if existing.contains(incoming[i]) {
        let w = choose|w: int| 0 <= w < existing.len() && existing[w] == incoming[i];
        assert(after[w] == incoming[i]);
    } else {
        let w = choose|w: int| 0 <= w < i && incoming.take(i)[w] == incoming[i];
        assert(incoming[w] == incoming[i]);
        lemma_imported_is_held(existing, incoming, kept, w);
    }
}

/// Importing is idempotent: importing a batch a second time, into the ledger
/// that the first import produced, adds nothing.
pub proof fn lemma_import_idempotent(
    existing: Seq<FingerprintView>,
    incoming: Seq<FingerprintView>,
    kept: Seq<usize>,
    again: Seq<usize>,
)
    requires
        is_import_plan(existing, incoming, kept),
        is_import_plan(ledger_after_import(existing, incoming, kept), incoming, again),
    ensures
        again.len() == 0,
{
    if again.len() > 0 {
        let i = again[0] as int;
        lemma_imported_is_held(existing, incoming, kept, i);
        assert(again.contains(again[0]));
        assert(is_new_at(ledger_after_import(existing, incoming, kept), incoming, i));
    }
}


proof fn lemma_increasing_at_least_index(kept: Seq<usize>, k: int)
    requires
        0 <= k < kept.len(),
        forall|j: int, m: int| 0 <= j < m < kept.len() ==> kept[j] < kept[m],
    ensures
        kept[k] >= k,
    decreases k,
{
    if k > 0 {
        lemma_increasing_at_least_index(kept, k - 1);
    }
}

/// An import adds at most as many transactions as it brings.
pub proof fn lemma_import_plan_size(existing: Seq<FingerprintView>, incoming: Seq<FingerprintView>, kept: Seq<usize>)
    requires
        is_import_plan(existing, incoming, kept),
    ensures
        kept.len() <= incoming.len(),
{
    if kept.len() > 0 {
        lemma_increasing_at_least_index(kept, kept.len() - 1);
    }
}

} // verus!
