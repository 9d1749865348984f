//! The plain data that pages, page fragments and API answers are made of.
use vstd::prelude::*;

use crate::import::PreparedImport;
use crate::text::{chars_of, owned, push_char, same_chars};

verus! {

/// A page rendered from a template, as the answer to a request.
pub struct TemplateResponse<T>(pub T);

/// The page of the status of the service.
pub struct StatusTemplate;

/// The page shown for an unknown address.
pub struct NotFoundTemplate {}

/// The page shown when a request fails.
pub struct ErrorTemplate {}

/// A symbol known to the service, with what is known of it.
pub struct Symbol {
    pub symbol: String,
    pub name: Option<String>,
    pub currency: String,
    pub exchange: Option<String>,
}

/// The query that asks for a fund share card.
pub struct CreateShareQuery {
    pub span: Option<String>,
}

/// The answer to the creation of a fund share card.
pub struct CreateShareResponse {
    pub id: String,
    pub url: String,
}

/// The query that asks for a ticker share card.
pub struct CreateTickerShareQuery {
    pub symbol: String,
    pub span: Option<String>,
}

/// The answer to the creation of a ticker share card.
pub struct CreateTickerShareResponse {
    pub id: String,
    pub url: String,
}

fn path_of(prefix: &str, id: &str) -> (r: String)
    ensures
        r@ == prefix@ + id@,
{
    let mut out = owned(prefix);
    let v = chars_of(id);
    let mut k: usize = 0;
    while k < v.len()
        invariant
            k <= v.len(),
            out@ == prefix@ + v@.take(k as int),
        decreases v.len() - k,
    {
        push_char(&mut out, v[k]);
        k = k + 1;
        assert(out@ =~= prefix@ + v@.take(k as int));
    }
    assert(v@.take(v.len() as int) =~= v@);
    out
}

impl CreateShareResponse {
    /// The answer for a new fund card: its identifier and its page.
    pub fn for_card(id: String) -> (r: CreateShareResponse)
        ensures
            r.id == id,
            r.url@ == "/share/"@ + id@,
    {
        let url = path_of("/share/", id.as_str());
        CreateShareResponse { id, url }
    }
}

impl CreateTickerShareResponse {
    /// The answer for a new ticker card: its identifier and its page.
    pub fn for_card(id: String) -> (r: CreateTickerShareResponse)
        ensures
            r.id == id,
            r.url@ == "/ticker/"@ + id@,
    {
        let url = path_of("/ticker/", id.as_str());
        CreateTickerShareResponse { id, url }
    }
}

/// The pairs of symbol and name of the symbols that have a name, in order.
pub open spec fn named_symbols(rows: Seq<Symbol>) -> Seq<(Seq<char>, Seq<char>)>
    decreases rows.len(),
{
    if rows.len() == 0 {
        Seq::empty()
    } else {
        let rest = named_symbols(rows.drop_last());
        match rows.last().name {
            Some(n) => rest.push((rows.last().symbol@, n@)),
            None => rest,
        }
    }
}

/// `p` is the symbol and name of a row of `rows` that has a name.
pub open spec fn is_named_row_pair(rows: Seq<Symbol>, p: (Seq<char>, Seq<char>)) -> bool {
    exists|i: int|
        0 <= i < rows.len() && (#[trigger] rows[i]).name is Some && p == (rows[i].symbol@, rows[i].name->0@)
}

/// The pairs of symbol and name hold the symbol and name of every row that
/// has a name, one pair for each such row, and no other pair.
pub proof fn lemma_named_symbols_cover_named_rows(rows: Seq<Symbol>)
    ensures
        named_symbols(rows).len() == rows.filter(|r: Symbol| r.name is Some).len(),
        forall|i: int|
            0 <= i < rows.len() && (#[trigger] rows[i]).name is Some ==> named_symbols(rows).contains(
                (rows[i].symbol@, rows[i].name->0@),
            ),
        forall|k: int|
            0 <= k < named_symbols(rows).len() ==> #[trigger] is_named_row_pair(
                rows,
                named_symbols(rows)[k],
            ),
    decreases rows.len(),
{
    let pred = |r: Symbol| r.name is Some;
    reveal(Seq::filter);
    if rows.len() > 0 {
        let init = rows.drop_last();
        lemma_named_symbols_cover_named_rows(init);
        assert(rows.filter(pred) == if pred(rows.last()) {
            init.filter(pred).push(rows.last())
        } else {
            init.filter(pred)
        });
        let rest = named_symbols(init);
        let all = named_symbols(rows);
        assert forall|i: int|
            0 <= i < rows.len() && (#[trigger] rows[i]).name is Some implies all.contains(
                (rows[i].symbol@, rows[i].name->0@),
            ) by {
            if i < rows.len() - 1 {
                assert(init[i] == rows[i]);
                let w = choose|w: int| 0 <= w < rest.len() && rest[w] == (init[i].symbol@, init[i].name->0@);
                assert(all[w] == rest[w]);
            } else {
                assert(all[all.len() - 1] == (rows[i].symbol@, rows[i].name->0@));
            }
        }
        assert forall|k: int| 0 <= k < all.len() implies #[trigger] is_named_row_pair(rows, all[k]) by {
            if k < rest.len() {
                assert(all[k] == rest[k]);
                assert(is_named_row_pair(init, rest[k]));
                let i = choose|i: int|
                    0 <= i < init.len() && (#[trigger] init[i]).name is Some && rest[k] == (
                        init[i].symbol@,
                        init[i].name->0@,
                    );
                assert(rows[i] == init[i]);
            } else {
                let i = rows.len() - 1;
                assert(rows[i] == rows.last());
            }
        }
    }
}

/// The names of the symbols that have one, by symbol.
pub fn symbol_names(rows: &Vec<Symbol>) -> (r: Vec<(String, String)>)
    ensures
        r@.map_values(|p: (String, String)| (p.0@, p.1@)) == named_symbols(rows@),
        r.len() == rows@.filter(|s: Symbol| s.name is Some).len(),
        forall|i: int|
            0 <= i < rows.len() && (#[trigger] rows@[i]).name is Some ==> r@.map_values(
                |p: (String, String)| (p.0@, p.1@),
            ).contains((rows@[i].symbol@, rows@[i].name->0@)),
{
    proof {
        lemma_named_symbols_cover_named_rows(rows@);
    }
    let mut out: Vec<(String, String)> = Vec::new();
    let mut k: usize = 0;
    while k < rows.len()
        invariant
            k <= rows.len(),
            out@.map_values(|p: (String, String)| (p.0@, p.1@)) == named_symbols(rows@.take(k as int)),
        decreases rows.len() - k,
    {
        assert(rows@.take(k + 1).drop_last() =~= rows@.take(k as int));
        let ghost before = out@;
        match &rows[k].name {
            Some(n) => {
                out.push((owned(rows[k].symbol.as_str()), owned(n.as_str())));
                assert(out@.map_values(|p: (String, String)| (p.0@, p.1@)) =~= before.map_values(
                    |p: (String, String)| (p.0@, p.1@),
                ).push((rows@[k as int].symbol@, n@)));
            },
            None => {},
        }
        k = k + 1;
    }
    assert(rows@.take(rows.len() as int) =~= rows@);
    out
}

/// The first row of a symbol, as `Iterator::find` finds it.
pub fn find_symbol(rows: &Vec<Symbol>, symbol: &str) -> (r: Option<usize>)
    ensures
        match r {
            Some(i) => i < rows.len() && rows@[i as int].symbol@ == symbol@ && forall|j: int|
                0 <= j < i ==> rows@[j].symbol@ != symbol@,
            None => forall|j: int| 0 <= j < rows.len() ==> rows@[j].symbol@ != symbol@,
        },
{
    let target = chars_of(symbol);
    let mut k: usize = 0;
    while k < rows.len()
        invariant
            k <= rows.len(),
            target@ == symbol@,
            forall|j: int| 0 <= j < k ==> rows@[j].symbol@ != symbol@,
        decreases rows.len() - k,
    {
        let v = chars_of(rows[k].symbol.as_str());
        if same_chars(&v, &target) {
            return Some(k);
        }
        k = k + 1;
    }
    None
}

/// How many identifiers a share card is tried with before issuing it fails
/// (a new identifier is drawn when one is already taken).
pub const CARD_ID_ATTEMPTS: u32 = 3;

/// Whether another identifier is tried after `failed` attempts found theirs
/// taken.
pub fn retry_card_id(failed: u32) -> (again: bool)
    ensures
        again == (failed < CARD_ID_ATTEMPTS),
{
    failed < CARD_ID_ATTEMPTS
}

/// How many days of price history a ticker card looks back over.
pub const TICKER_HISTORY_DAYS: i64 = 35;

/// The fewest prices within [`TICKER_HISTORY_DAYS`] for which a ticker card
/// is drawn without fetching the history first.
pub const TICKER_HISTORY_MIN_ROWS: i64 = 5;

/// Whether a ticker card fetches the price history first, given how many
/// prices of the last [`TICKER_HISTORY_DAYS`] are held.
pub fn ticker_history_needs_backfill(recent_rows: i64) -> (fetch: bool)
    ensures
        fetch == (recent_rows < TICKER_HISTORY_MIN_ROWS),
{
    recent_rows < TICKER_HISTORY_MIN_ROWS
}

/// What a refresh of prices did.
pub struct RefreshOutcome {
    pub updated_from_api: bool,
    pub external_update_attempted: bool,
    pub remaining_api_requests: i64,
}

impl RefreshOutcome {
    /// The outcome of a refresh: `update` is what the attempt to update
    /// from the market-data service reported (whether every update
    /// succeeded, and whether a request slot was claimed), if one was made.
    pub fn from_update(update: Option<(bool, bool)>, remaining_api_requests: i64) -> (r: RefreshOutcome)
        ensures
            r.remaining_api_requests == remaining_api_requests,
            r.updated_from_api == (update matches Some(u) && u.0 && u.1),
            r.external_update_attempted == (update matches Some(u) && u.1),
    {
        match update {
            Some((success, claimed)) => RefreshOutcome {
                updated_from_api: success && claimed,
                external_update_attempted: claimed,
                remaining_api_requests,
            },
            None => RefreshOutcome {
                updated_from_api: false,
                external_update_attempted: false,
                remaining_api_requests,
            },
        }
    }
}

/// What an import did.
pub struct ImportResult {
    pub imported: usize,
    pub skipped: usize,
    /// The symbols of the transactions added, sorted, each once.
    pub symbols: Vec<String>,
}

impl ImportResult {
    /// The result of a checked import once it is written.
    pub fn of(p: PreparedImport) -> (r: ImportResult)
        ensures
            r.imported == p.kept.len(),
            r.skipped == p.skipped,
            r.symbols == p.symbols,
    {
        ImportResult { imported: p.kept.len(), skipped: p.skipped, symbols: p.symbols }
    }
}


/// A hit of a search for a ticker on the market-data service.
pub struct SearchHit {
    pub symbol: String,
    pub long_name: String,
    pub short_name: String,
}

/// The hit whose name a symbol gets: the first with exactly that symbol,
/// else the first of all.
pub open spec fn chosen_hit(hits: Seq<SearchHit>, symbol: Seq<char>) -> Option<int> {
    if exists|i: int| 0 <= i < hits.len() && #[trigger] hits[i].symbol@ == symbol {
        Some(choose|i: int| 0 <= i < hits.len() && hits[i].symbol@ == symbol && forall|j: int|
            0 <= j < i ==> #[trigger] hits[j].symbol@ != symbol)
    } else if hits.len() > 0 {
        Some(0)
    } else {
        None
    }
}

/// The display name of a symbol from the hits of a search: the long name
/// of the chosen hit, else its short name; none when both are empty or
/// there is no hit.
pub open spec fn display_name_of(hits: Seq<SearchHit>, symbol: Seq<char>) -> Option<Seq<char>> {
    match chosen_hit(hits, symbol) {
        None => None,
        Some(i) => if hits[i].long_name@.len() > 0 {
            Some(hits[i].long_name@)
        } else if hits[i].short_name@.len() > 0 {
            Some(hits[i].short_name@)
        } else {
            None
        },
    }
}

/// Chooses the display name of a symbol from the hits of a search.
pub fn pick_display_name(hits: &Vec<SearchHit>, symbol: &str) -> (r: Option<String>)
    ensures
        match r {
            Some(n) => display_name_of(hits@, symbol@) == Some(n@),
            None => display_name_of(hits@, symbol@) is None,
        },
{
    let target = chars_of(symbol);
    let mut k: usize = 0;
    let mut found = false;
    while k < hits.len()
        invariant_except_break
            !found,
        invariant
            k <= hits.len(),
            target@ == symbol@,
            forall|j: int| 0 <= j < k ==> #[trigger] hits@[j].symbol@ != symbol@,
        ensures
            found ==> k < hits.len() && hits@[k as int].symbol@ == symbol@,
            !found ==> k == hits.len(),
        decreases hits.len() - k,
    {
        let v = chars_of(hits[k].symbol.as_str());
        if same_chars(&v, &target) {
            found = true;
            break;
        }
        k = k + 1;
    }
    let index = if found {
        proof {
            let i = k as int;
            assert(exists|i: int| 0 <= i < hits.len() && #[trigger] hits@[i].symbol@ == symbol@);
            let c = chosen_hit(hits@, symbol@)->0;
            if c < i {
                assert(hits@[c].symbol@ != symbol@);
            } else if c > i {
                assert(hits@[i].symbol@ != symbol@);
            }
        }
        k
    } else if hits.len() > 0 {
        0
    } else {
        return None;
    };
    let hit = &hits[index];
    if !hit.long_name.as_str().is_empty() {
        Some(owned(hit.long_name.as_str()))
    } else if !hit.short_name.as_str().is_empty() {
        Some(owned(hit.short_name.as_str()))
    } else {
        None
    }
}

/// Why adding or deleting a transaction failed.
#[derive(Debug)]
pub enum MutationError {
    NotFound,
    /// The ledger would break its rules; the text says how.
    InvalidLedger(String),
    Database(String),
}

impl MutationError {
    /// The HTTP status that answers a failed addition.
    pub fn status_on_create(&self) -> (code: u16)
        ensures
            code == match self {
                MutationError::InvalidLedger(_) => 400u16,
                MutationError::NotFound => 404u16,
                MutationError::Database(_) => 500u16,
            },
    {
        match self {
            MutationError::InvalidLedger(_) => 400,
            MutationError::NotFound => 404,
            MutationError::Database(_) => 500,
        }
    }

    /// The HTTP status that answers a failed deletion.
    pub fn status_on_delete(&self) -> (code: u16)
        ensures
            code == match self {
                MutationError::NotFound => 404u16,
                MutationError::InvalidLedger(_) => 409u16,
                MutationError::Database(_) => 500u16,
            },
    {
        match self {
            MutationError::NotFound => 404,
            MutationError::InvalidLedger(_) => 409,
            MutationError::Database(_) => 500,
        }
    }
}

} // verus!
