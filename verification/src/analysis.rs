//! Orderings and plans that the portfolio analysis and its batch jobs derive
//! from the ledger.
use vstd::prelude::*;

use crate::ledger::LedgerEntry;
use crate::text::{
    chars_before, chars_of, is_sorted_set, lemma_text_order_total, same_chars, sorted_unique,
    string_views, text_before,
};

verus! {

/// `a` at position `ia` comes before `b` at position `ib` when sorting by
/// symbol, stably.
pub open spec fn symbol_before(a: Seq<char>, ia: int, b: Seq<char>, ib: int) -> bool {
    text_before(a, b) || (a == b && ia < ib)
}

/// Position `t` occurs in `order`.
pub open spec fn listed(order: Seq<usize>, t: int) -> bool {
    order.contains(t as usize)
}

/// `order` lists every position of `symbols` once, sorted by symbol.
pub open spec fn is_symbol_order(symbols: Seq<Seq<char>>, order: Seq<usize>) -> bool {
    &&& order.len() == symbols.len()
    &&& forall|k: int| 0 <= k < order.len() ==> (order[k] as int) < symbols.len()
    &&& forall|i: int| 0 <= i < symbols.len() ==> #[trigger] listed(order, i)
    &&& forall|j: int, k: int|
        0 <= j < k < order.len() ==> symbol_before(
            symbols[#[trigger] order[j] as int],
            order[j] as int,
            symbols[#[trigger] order[k] as int],
            order[k] as int,
        )
}

/// The order in which holdings are listed: by symbol, as a stable sort by
/// `str::cmp` leaves them.
pub fn holding_order(symbols: &Vec<String>) -> (order: Vec<usize>)
    ensures
        is_symbol_order(string_views(symbols@), order@),
{
    let ghost sv = string_views(symbols@);
    let n = symbols.len();
    let mut order: Vec<usize> = Vec::new();
    let mut keys: Vec<Vec<char>> = Vec::new();
    let mut i: usize = 0;
    while i < n
        invariant
            i <= n == symbols.len(),
            sv == string_views(symbols@),
            keys.len() == i,
            forall|k: int| 0 <= k < i ==> #[trigger] keys@[k]@ == sv[k],
            order.len() == i,
            forall|k: int| 0 <= k < order.len() ==> (order[k] as int) < i,
            forall|t: int| 0 <= t < i ==> #[trigger] listed(order@, t),
            forall|j: int, k: int|
                0 <= j < k < order.len() ==> symbol_before(
                    sv[#[trigger] order@[j] as int],
                    order@[j] as int,
                    sv[#[trigger] order@[k] as int],
                    order@[k] as int,
                ),
        decreases n - i,
    {
        let key = chars_of(symbols[i].as_str());
        keys.push(key);
        let ghost kv = keys@[i as int]@;
        let mut p: usize = order.len();
        while p > 0 && chars_before(&keys[i], &keys[order[p - 1]])
            invariant
                p <= order.len(),
                i < n == symbols.len(),
                keys.len() == i + 1,
                kv == sv[i as int],
                forall|k: int| 0 <= k <= i ==> #[trigger] keys@[k]@ == sv[k],
                forall|k: int| 0 <= k < order.len() ==> (order[k] as int) < i,
                forall|k: int|
                    p <= k < order.len() ==> symbol_before(
                        kv,
                        i as int,
                        sv[#[trigger] order@[k] as int],
                        order@[k] as int,
                    ),
            decreases p,
        {
            p = p - 1;
        }
        proof {
            if p > 0 {
                lemma_text_order_total(kv, sv[order@[p - 1] as int]);
            }
        }
        let ghost old_order = order@;
        order.insert(p, i);
        proof {
            assert forall|k: int| 0 <= k < order.len() implies (order[k] as int) < i + 1 by {
                if k < p {
                    assert(order@[k] == old_order[k]);
                } else if k > p {
                    assert(order@[k] == old_order[k - 1]);
                }
            }
            assert forall|t: int| 0 <= t < i + 1 implies #[trigger] listed(order@, t) by {
                if t < i {
                    assert(listed(old_order, t));
                    let w = choose|w: int| 0 <= w < old_order.len() && old_order[w] == t as usize;
                    if w < p {
                        assert(order@[w] == t as usize);
                    } else {
                        assert(order@[w + 1] == t as usize);
                    }
                } else {
                    assert(order@[p as int] == i);
                }
            }
            assert forall|j: int, k: int| 0 <= j < k < order.len() implies symbol_before(
                sv[#[trigger] order@[j] as int],
                order@[j] as int,
                sv[#[trigger] order@[k] as int],
                order@[k] as int,
            ) by {
                if k < p {
                    assert(order@[j] == old_order[j] && order@[k] == old_order[k]);
                } else if k == p {
                    assert(order@[j] == old_order[j]);
                    let last = old_order[p - 1] as int;
                    if j < p - 1 {
                        let a = sv[old_order[j] as int];
                        let b = sv[last];
                        assert(symbol_before(a, old_order[j] as int, b, last));
                        if text_before(a, b) && text_before(b, kv) {
                            crate::text::lemma_text_order_transitive(a, b, kv);
                        }
                        if text_before(a, b) && b == kv {
                        }
                        if a == b && text_before(b, kv) {
                        }
                    }
                } else if j == p {
                    assert(order@[k] == old_order[k - 1]);
                } else if j < p {
                    assert(order@[j] == old_order[j] && order@[k] == old_order[k - 1]);
                    let a = sv[old_order[j] as int];
                    let b = sv[old_order[p as int] as int];
                    let c = sv[old_order[k - 1] as int];
                    if k - 1 > p {
                        assert(symbol_before(kv, i as int, b, old_order[p as int] as int));
                        assert(symbol_before(b, old_order[p as int] as int, c, old_order[k - 1] as int));
                    }
                } else {
                    assert(order@[j] == old_order[j - 1] && order@[k] == old_order[k - 1]);
                }
            }
        }
        i = i + 1;
    }
    order
}


/// `USD`.
pub open spec fn usd() -> Seq<char> {
    seq!['U', 'S', 'D']
}

/// `JPY`.
pub open spec fn jpy() -> Seq<char> {
    seq!['J', 'P', 'Y']
}

/// What a backfill of market history covers: the days from the first trade
/// on, every symbol ever traded, and the dollar rate when a trade was in
/// dollars.
pub struct BackfillPlan {
    /// The day number of the earliest trade.
    pub earliest: i32,
    /// The traded symbols, sorted, each once.
    pub symbols: Vec<String>,
    /// Whether some trade was in US dollars.
    pub needs_fx: bool,
}

/// The symbols of the entries, in the same positions.
pub open spec fn entry_symbols(entries: Seq<LedgerEntry>) -> Seq<Seq<char>> {
    entries.map_values(|e: LedgerEntry| e.symbol@)
}

/// `plan` is the backfill plan of a non-empty ledger.
pub open spec fn is_backfill_plan(entries: Seq<LedgerEntry>, plan: BackfillPlan) -> bool {
    &&& exists|k: int| 0 <= k < entries.len() && entries[k].date == plan.earliest
    &&& forall|k: int| 0 <= k < entries.len() ==> plan.earliest <= #[trigger] entries[k].date
    &&& is_sorted_set(entry_symbols(entries), string_views(plan.symbols@))
    &&& plan.needs_fx == exists|k: int| 0 <= k < entries.len() && #[trigger] entries[k].currency@ == usd()
}

/// Plans the backfill of a ledger; an empty ledger needs none.
pub fn plan_backfill(entries: &Vec<LedgerEntry>) -> (plan: Option<BackfillPlan>)
    ensures
        plan is None <==> entries.len() == 0,
        plan matches Some(p) ==> is_backfill_plan(entries@, p),
{
    if entries.len() == 0 {
        return None;
    }
    let usd_chars = vec!['U', 'S', 'D'];
    assert(usd_chars@ =~= usd());
    let mut earliest = entries[0].date;
    let mut names: Vec<String> = Vec::new();
    let mut needs_fx = false;
    let mut k: usize = 0;
    while k < entries.len()
        invariant
            0 < entries.len(),
            k <= entries.len(),
            usd_chars@ == usd(),
            exists|t: int| 0 <= t < entries.len() && entries[t].date == earliest,
            forall|t: int| 0 <= t < k ==> earliest <= #[trigger] entries[t].date,
            names.len() == k,
            string_views(names@) == entry_symbols(entries@).take(k as int),
            needs_fx == exists|t: int| 0 <= t < k && #[trigger] entries[t].currency@ == usd(),
        decreases entries.len() - k,
    {
        let e = &entries[k];
        if e.date < earliest {
            earliest = e.date;
        }
        let ghost old_names = names@;
        let name = crate::text::owned(e.symbol.as_str());
        assert(name@ == entries@[k as int].symbol@);
        names.push(name);
        proof {
            let a = string_views(names@);
            let b = entry_symbols(entries@).take(k + 1);
            assert forall|t: int| 0 <= t < k + 1 implies a[t] == b[t] by {
                if t < k {
                    assert(names@[t] == old_names[t]);
                    assert(string_views(old_names)[t] == entry_symbols(entries@).take(k as int)[t]);
                }
            }
        }
        let c = chars_of(e.currency.as_str());
        if same_chars(&c, &usd_chars) {
            needs_fx = true;
        }
        k = k + 1;
        assert(string_views(names@) =~= entry_symbols(entries@).take(k as int));
    }
    assert(entry_symbols(entries@).take(entries.len() as int) =~= entry_symbols(entries@));
    let symbols = sorted_unique(&names);
    Some(BackfillPlan { earliest, symbols, needs_fx })
}

/// The symbols of the imported transactions, sorted, each once.
pub fn imported_symbols(symbols: &Vec<String>, kept: &Vec<usize>) -> (r: Vec<String>)
    requires
        forall|k: int| 0 <= k < kept.len() ==> (kept[k] as int) < symbols.len(),
    ensures
        is_sorted_set(
            kept@.map_values(|i: usize| symbols@[i as int]@),
            string_views(r@),
        ),
{
    let mut picked: Vec<String> = Vec::new();
    let mut k: usize = 0;
    while k < kept.len()
        invariant
            k <= kept.len(),
            forall|t: int| 0 <= t < kept.len() ==> (kept[t] as int) < symbols.len(),
            picked.len() == k,
            string_views(picked@) == kept@.take(k as int).map_values(|i: usize| symbols@[i as int]@),
        decreases kept.len() - k,
    {
        let ghost old_picked = picked@;
        let name = crate::text::owned(symbols[kept[k]].as_str());
        picked.push(name);
        proof {
            let a = string_views(picked@);
            let b = kept@.take(k + 1).map_values(|i: usize| symbols@[i as int]@);
            assert forall|t: int| 0 <= t < k + 1 implies a[t] == b[t] by {
                if t < k {
                    assert(picked@[t] == old_picked[t]);
                    assert(string_views(old_picked)[t] == kept@.take(k as int).map_values(
                        |i: usize| symbols@[i as int]@,
                    )[t]);
                }
            }
        }
        k = k + 1;
        assert(string_views(picked@) =~= kept@.take(k as int).map_values(
            |i: usize| symbols@[i as int]@,
        ));
    }
    assert(kept@.take(kept.len() as int) =~= kept@);
    sorted_unique(&picked)
}

} // verus!
