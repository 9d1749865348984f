//! The rules that every transaction entered or imported must satisfy, and
//! the normal form in which its text fields are stored.
use vstd::prelude::*;

use crate::text::{
    ascii_upper, ascii_upper_chars, chars_of, is_space, lemma_trimmed_idempotent, same_chars, str_is,
    string_of, trim_chars, trimmed,
};

verus! {

/// The longest symbol accepted, in characters.
pub const MAX_SYMBOL_CHARS: usize = 32;

/// The longest note accepted, in characters.
pub const MAX_NOTES_CHARS: usize = 1000;

/// Why a transaction is refused.
#[derive(Debug, Clone, Copy, PartialEq, Eq)]
pub enum TransactionValidationError {
    EmptySymbol,
    SymbolTooLong,
    InvalidSymbol,
    InvalidTransactionType,
    InvalidQuantity,
    InvalidPrice,
    InvalidCurrency,
    InvalidFee,
    InvalidFxRate,
    NotesTooLong,
}

/// The characters a symbol may hold: ASCII letters and digits and `.-^=_`.
pub open spec fn symbol_char_allowed(c: char) -> bool {
    ||| 'A' <= c <= 'Z'
    ||| 'a' <= c <= 'z'
    ||| '0' <= c <= '9'
    ||| c == '.'
    ||| c == '-'
    ||| c == '^'
    ||| c == '='
    ||| c == '_'
}

/// The normal form of a symbol: trimmed and in ASCII upper case, non-empty,
/// at most [`MAX_SYMBOL_CHARS`] long, of allowed characters only.
pub open spec fn normalized_symbol(s: Seq<char>) -> Result<Seq<char>, TransactionValidationError> {
    let t = ascii_upper(trimmed(s));
    if t.len() == 0 {
        Err(TransactionValidationError::EmptySymbol)
    } else if t.len() > MAX_SYMBOL_CHARS {
        Err(TransactionValidationError::SymbolTooLong)
    } else if !(forall|i: int| 0 <= i < t.len() ==> symbol_char_allowed(#[trigger] t[i])) {
        Err(TransactionValidationError::InvalidSymbol)
    } else {
        Ok(t)
    }
}

/// A text field in its stored form: trimmed, then in ASCII upper case.
pub fn upper_trimmed(s: &str) -> (r: Vec<char>)
    ensures
        r@ == ascii_upper(trimmed(s@)),
{
    let v = chars_of(s);
    let t = trim_chars(&v);
    ascii_upper_chars(&t)
}

fn symbol_char_ok(c: char) -> (b: bool)
    ensures
        b == symbol_char_allowed(c),
{
    ('A' <= c && c <= 'Z') || ('a' <= c && c <= 'z') || ('0' <= c && c <= '9') || c == '.' || c
        == '-' || c == '^' || c == '=' || c == '_'
}

/// The value of a normalization result.
pub open spec fn symbol_result_view(r: Result<String, TransactionValidationError>) -> Result<Seq<char>, TransactionValidationError> {
    match r {
        Ok(s) => Ok(s@),
        Err(e) => Err(e),
    }
}

/// A normalized symbol holds only ASCII letters, ASCII digits and `.`, `-`,
/// `^`, `=`, `_`; a trimmed symbol of 1 to 32 characters that holds any
/// other character is refused as invalid.
pub proof fn lemma_symbol_characters(s: Seq<char>)
    ensures
        normalized_symbol(s) matches Ok(t) ==> forall|i: int|
            0 <= i < t.len() ==> {
                let c = #[trigger] t[i];
                ||| 'A' <= c <= 'Z'
                ||| 'a' <= c <= 'z'
                ||| '0' <= c <= '9'
                ||| c == '.' || c == '-' || c == '^' || c == '=' || c == '_'
            },
        ({
            let u = trimmed(s);
            &&& 0 < u.len() <= 32
            &&& exists|i: int|
                0 <= i < u.len() && {
                    let c = #[trigger] u[i];
                    !('A' <= c <= 'Z') && !('a' <= c <= 'z') && !('0' <= c <= '9') && c != '.' && c
                        != '-' && c != '^' && c != '=' && c != '_'
                }
        }) ==> normalized_symbol(s) == Err::<Seq<char>, TransactionValidationError>(
            TransactionValidationError::InvalidSymbol,
        ),
{
    let u = trimmed(s);
    let t = ascii_upper(u);
    if normalized_symbol(s) is Ok {
        assert forall|i: int| 0 <= i < t.len() implies symbol_char_allowed(#[trigger] t[i]) by {}
    }
    if 0 < u.len() <= 32 && exists|i: int|
        0 <= i < u.len() && {
            let c = #[trigger] u[i];
            !('A' <= c <= 'Z') && !('a' <= c <= 'z') && !('0' <= c <= '9') && c != '.' && c != '-'
                && c != '^' && c != '=' && c != '_'
        } {
        let i = choose|i: int|
            0 <= i < u.len() && {
                let c = #[trigger] u[i];
                !('A' <= c <= 'Z') && !('a' <= c <= 'z') && !('0' <= c <= '9') && c != '.' && c
                    != '-' && c != '^' && c != '=' && c != '_'
            };
        assert(t[i] == crate::text::ascii_upper_char(u[i]));
        assert(!symbol_char_allowed(t[i]));
    }
}

/// Brings a symbol into its normal form, or says why it cannot be.
pub fn normalize_symbol(symbol: &str) -> (r: Result<String, TransactionValidationError>)
    ensures
        symbol_result_view(r) == normalized_symbol(symbol@),
        r matches Ok(t) ==> forall|i: int|
            0 <= i < t@.len() ==> {
                let c = #[trigger] t@[i];
                ||| 'A' <= c <= 'Z'
                ||| 'a' <= c <= 'z'
                ||| '0' <= c <= '9'
                ||| c == '.' || c == '-' || c == '^' || c == '=' || c == '_'
            },
        ({
            let u = trimmed(symbol@);
            &&& 0 < u.len() <= 32
            &&& exists|i: int|
                0 <= i < u.len() && {
                    let c = #[trigger] u[i];
                    !('A' <= c <= 'Z') && !('a' <= c <= 'z') && !('0' <= c <= '9') && c != '.' && c
                        != '-' && c != '^' && c != '=' && c != '_'
                }
        }) ==> r == Err::<String, TransactionValidationError>(TransactionValidationError::InvalidSymbol),
{
    proof {
        lemma_symbol_characters(symbol@);
    }
    let t = upper_trimmed(symbol);
    if t.len() == 0 {
        return Err(TransactionValidationError::EmptySymbol);
    }
    if t.len() > MAX_SYMBOL_CHARS {
        return Err(TransactionValidationError::SymbolTooLong);
    }
    let mut k: usize = 0;
    while k < t.len()
        invariant
            k <= t.len(),
            t@ == ascii_upper(trimmed(symbol@)),
            0 < t.len() <= MAX_SYMBOL_CHARS,
            forall|i: int| 0 <= i < k ==> symbol_char_allowed(#[trigger] t@[i]),
        decreases t.len() - k,
    {
        if !symbol_char_ok(t[k]) {
            assert(!symbol_char_allowed(ascii_upper(trimmed(symbol@))[k as int]));
            return Err(TransactionValidationError::InvalidSymbol);
        }
        k = k + 1;
    }
    Ok(string_of(&t))
}

proof fn lemma_no_space_trim(s: Seq<char>)
    requires
        forall|i: int| 0 <= i < s.len() ==> !is_space(#[trigger] s[i]),
    ensures
        trimmed(s) == s,
{
    if s.len() > 0 {
        assert(!is_space(s[0]));
        assert(!is_space(s.last()));
    }
}

/// A symbol in normal form stays as it is: normalizing twice gives what
/// normalizing once gives.
pub proof fn lemma_normalize_symbol_idempotent(s: Seq<char>, t: Seq<char>)
    requires
        normalized_symbol(s) == Ok::<Seq<char>, TransactionValidationError>(t),
    ensures
        normalized_symbol(t) == Ok::<Seq<char>, TransactionValidationError>(t),
{
    assert forall|i: int| 0 <= i < t.len() implies !is_space(#[trigger] t[i]) by {
        assert(symbol_char_allowed(t[i]));
    }
    lemma_no_space_trim(t);
    assert forall|i: int| 0 <= i < t.len() implies #[trigger] ascii_upper(t)[i] == t[i] by {
        assert(symbol_char_allowed(t[i]));
        assert(ascii_upper(trimmed(s))[i] == t[i]);
    }
    assert(ascii_upper(t) =~= t);
}

/// The text fields of a transaction as entered.
pub struct TransactionText {
    pub symbol: String,
    pub txn_type: String,
    pub currency: String,
    pub notes: Option<String>,
}

/// Which of the amounts of a transaction are acceptable: a quantity and a
/// price that are finite and positive, a fee that is finite and not
/// negative, and a dollar rate that is present, finite and positive.
pub struct AmountChecks {
    pub quantity_valid: bool,
    pub price_valid: bool,
    pub fee_valid: bool,
    pub fx_rate_valid: bool,
}

/// The text fields of a transaction in their stored form, and whether its
/// dollar rate is kept (a rate on a yen trade is dropped).
pub struct NormalizedText {
    pub symbol: String,
    pub txn_type: String,
    pub currency: String,
    pub notes: Option<String>,
    pub keeps_fx_rate: bool,
}

/// The stored form of the text fields.
pub type NormalizedTextView = (Seq<char>, Seq<char>, Seq<char>, Option<Seq<char>>, bool);

impl View for NormalizedText {
    type V = NormalizedTextView;

    open spec fn view(&self) -> NormalizedTextView {
        (
            self.symbol@,
            self.txn_type@,
            self.currency@,
            match self.notes {
                Some(n) => Some(n@),
                None => None,
            },
            self.keeps_fx_rate,
        )
    }
}

/// Notes trimmed, and dropped when nothing is left.
pub open spec fn normalized_notes(notes: Option<Seq<char>>) -> Option<Seq<char>> {
    match notes {
        Some(n) => if trimmed(n).len() > 0 {
            Some(trimmed(n))
        } else {
            None
        },
        None => None,
    }
}

/// `BUY` or `SELL`.
pub open spec fn is_trade_kind(t: Seq<char>) -> bool {
    t == seq!['B', 'U', 'Y'] || t == seq!['S', 'E', 'L', 'L']
}

/// `JPY` or `USD`.
pub open spec fn is_known_currency(c: Seq<char>) -> bool {
    c == seq!['J', 'P', 'Y'] || c == seq!['U', 'S', 'D']
}

/// The stored form of a transaction's text, or the first rule it breaks, in
/// this order: the symbol, the type, quantity, price, fee, currency, dollar
/// rate, notes.
pub open spec fn normalized_text(
    symbol: Seq<char>,
    txn_type: Seq<char>,
    currency: Seq<char>,
    notes: Option<Seq<char>>,
    checks: (bool, bool, bool, bool),
) -> Result<NormalizedTextView, TransactionValidationError> {
    let t = ascii_upper(trimmed(txn_type));
    let c = ascii_upper(trimmed(currency));
    let n = normalized_notes(notes);
    match normalized_symbol(symbol) {
        Err(e) => Err(e),
        Ok(s) => if !is_trade_kind(t) {
            Err(TransactionValidationError::InvalidTransactionType)
        } else if !checks.0 {
            Err(TransactionValidationError::InvalidQuantity)
        } else if !checks.1 {
            Err(TransactionValidationError::InvalidPrice)
        } else if !checks.2 {
            Err(TransactionValidationError::InvalidFee)
        } else if !is_known_currency(c) {
            Err(TransactionValidationError::InvalidCurrency)
        } else if c == seq!['U', 'S', 'D'] && !checks.3 {
            Err(TransactionValidationError::InvalidFxRate)
        } else if n matches Some(text) && text.len() > MAX_NOTES_CHARS {
            Err(TransactionValidationError::NotesTooLong)
        } else {
            Ok((s, t, c, n, c == seq!['U', 'S', 'D']))
        },
    }
}

fn normalize_notes(notes: &Option<String>) -> (r: Option<Vec<char>>)
    ensures
        match r {
            Some(v) => normalized_notes(
                match notes {
                    Some(n) => Some(n@),
                    None => None,
                },
            ) == Some(v@),
            None => normalized_notes(
                match notes {
                    Some(n) => Some(n@),
                    None => None,
                },
            ) is None,
        },
{
    match notes {
        None => None,
        Some(n) => {
            let v = chars_of(n.as_str());
            let t = trim_chars(&v);
            if t.len() > 0 {
                Some(t)
            } else {
                None
            }
        },
    }
}

/// Normalizes a transaction's text fields and applies every rule to it.
pub fn normalize_transaction_text(input: &TransactionText, checks: &AmountChecks) -> (r: Result<
    NormalizedText,
    TransactionValidationError,
>)
    ensures
        match r {
            Ok(n) => normalized_text(
                input.symbol@,
                input.txn_type@,
                input.currency@,
                match input.notes {
                    Some(n) => Some(n@),
                    None => None,
                },
                (checks.quantity_valid, checks.price_valid, checks.fee_valid, checks.fx_rate_valid),
            ) == Ok::<NormalizedTextView, TransactionValidationError>(n@),
            Err(e) => normalized_text(
                input.symbol@,
                input.txn_type@,
                input.currency@,
                match input.notes {
                    Some(n) => Some(n@),
                    None => None,
                },
                (checks.quantity_valid, checks.price_valid, checks.fee_valid, checks.fx_rate_valid),
            ) == Err::<NormalizedTextView, TransactionValidationError>(e),
        },
{
    let symbol = match normalize_symbol(input.symbol.as_str()) {
        Ok(s) => s,
        Err(e) => return Err(e),
    };
    let t = upper_trimmed(input.txn_type.as_str());
    let c = upper_trimmed(input.currency.as_str());
    let n = normalize_notes(&input.notes);
    let buy = vec!['B', 'U', 'Y'];
    let sell = vec!['S', 'E', 'L', 'L'];
    let jpy = vec!['J', 'P', 'Y'];
    let usd = vec!['U', 'S', 'D'];
    assert(buy@ =~= seq!['B', 'U', 'Y']);
    assert(sell@ =~= seq!['S', 'E', 'L', 'L']);
    assert(jpy@ =~= seq!['J', 'P', 'Y']);
    assert(usd@ =~= seq!['U', 'S', 'D']);
    if !same_chars(&t, &buy) && !same_chars(&t, &sell) {
        return Err(TransactionValidationError::InvalidTransactionType);
    }
    if !checks.quantity_valid {
        return Err(TransactionValidationError::InvalidQuantity);
    }
    if !checks.price_valid {
        return Err(TransactionValidationError::InvalidPrice);
    }
    if !checks.fee_valid {
        return Err(TransactionValidationError::InvalidFee);
    }
    let is_usd = same_chars(&c, &usd);
    if !same_chars(&c, &jpy) && !is_usd {
        return Err(TransactionValidationError::InvalidCurrency);
    }
    if is_usd && !checks.fx_rate_valid {
        return Err(TransactionValidationError::InvalidFxRate);
    }
    let notes = match n {
        Some(v) => {
            if v.len() > MAX_NOTES_CHARS {
                return Err(TransactionValidationError::NotesTooLong);
            }
            Some(string_of(&v))
        },
        None => None,
    };
    Ok(
        NormalizedText {
            symbol,
            txn_type: string_of(&t),
            currency: string_of(&c),
            notes,
            keeps_fx_rate: is_usd,
        },
    )
}

proof fn lemma_stored_field_stays(t: Seq<char>)
    requires
        forall|i: int| 0 <= i < t.len() ==> !is_space(#[trigger] t[i]) && !('a' <= t[i] <= 'z'),
    ensures
        ascii_upper(trimmed(t)) == t,
{
    lemma_no_space_trim(t);
    assert(ascii_upper(t) =~= t);
}

/// A transaction in its stored form stays as it is: normalizing the text
/// that normalizing gave, with the same amounts, gives it back.
pub proof fn lemma_normalized_text_idempotent(
    symbol: Seq<char>,
    txn_type: Seq<char>,
    currency: Seq<char>,
    notes: Option<Seq<char>>,
    checks: (bool, bool, bool, bool),
    stored: NormalizedTextView,
)
    requires
        normalized_text(symbol, txn_type, currency, notes, checks)
            == Ok::<NormalizedTextView, TransactionValidationError>(stored),
    ensures
        normalized_text(stored.0, stored.1, stored.2, stored.3, checks)
            == Ok::<NormalizedTextView, TransactionValidationError>(stored),
{
    lemma_normalize_symbol_idempotent(symbol, stored.0);
    let t = stored.1;
    let c = stored.2;
    assert forall|i: int| 0 <= i < t.len() implies !is_space(#[trigger] t[i]) && !('a' <= t[i] <= 'z') by {
        assert(is_trade_kind(t));
    }
    lemma_stored_field_stays(t);
    assert forall|i: int| 0 <= i < c.len() implies !is_space(#[trigger] c[i]) && !('a' <= c[i] <= 'z') by {
        assert(is_known_currency(c));
    }
    lemma_stored_field_stays(c);
    match notes {
        Some(n) => {
            lemma_trimmed_idempotent(n);
        },
        None => {},
    }
}

/// The chart span a share card opens with: `7d` or `30d` when asked for,
/// `all` otherwise.
pub open spec fn span_of(span: Option<Seq<char>>) -> Seq<char> {
    match span {
        Some(s) => if s == seq!['7', 'd'] {
            s
        } else if s == seq!['3', '0', 'd'] {
            s
        } else {
            seq!['a', 'l', 'l']
        },
        None => seq!['a', 'l', 'l'],
    }
}

/// Normalizes the chart span asked for.
pub fn normalize_span(span: Option<&str>) -> (r: String)
    ensures
        r@ == span_of(
            match span {
                Some(s) => Some(s@),
                None => None,
            },
        ),
{
    let all = vec!['a', 'l', 'l'];
    assert(all@ =~= seq!['a', 'l', 'l']);
    match span {
        None => string_of(&all),
        Some(s) => {
            let week = vec!['7', 'd'];
            let month = vec!['3', '0', 'd'];
            assert(week@ =~= seq!['7', 'd']);
            assert(month@ =~= seq!['3', '0', 'd']);
            if str_is(s, &week) {
                string_of(&week)
            } else if str_is(s, &month) {
                string_of(&month)
            } else {
                string_of(&all)
            }
        },
    }
}

/// The chart span a ticker card opens with: as for a fund card, except that
/// a card asked for with no span opens on `30d`.
pub open spec fn ticker_span_of(span: Option<Seq<char>>) -> Seq<char> {
    match span {
        Some(s) => span_of(Some(s)),
        None => seq!['3', '0', 'd'],
    }
}

/// Normalizes the chart span a ticker card is asked for.
pub fn normalize_ticker_span(span: Option<&str>) -> (r: String)
    ensures
        r@ == ticker_span_of(
            match span {
                Some(s) => Some(s@),
                None => None,
            },
        ),
{
    match span {
        Some(s) => normalize_span(Some(s)),
        None => {
            let month = vec!['3', '0', 'd'];
            assert(month@ =~= seq!['3', '0', 'd']);
            string_of(&month)
        },
    }
}

/// The currency assumed for a symbol nothing else says anything of: yen
/// for a Tokyo listing (ending in `.T`), dollars otherwise.
pub open spec fn default_currency_of(symbol: Seq<char>) -> Seq<char> {
    if symbol.len() >= 2 && symbol[symbol.len() - 2] == '.' && symbol[symbol.len() - 1] == 'T' {
        seq!['J', 'P', 'Y']
    } else {
        seq!['U', 'S', 'D']
    }
}

/// The assumed currency is yen exactly for a symbol ending in `.T`, and
/// dollars for every other symbol.
pub proof fn lemma_default_currency_by_suffix(symbol: Seq<char>)
    ensures
        default_currency_of(symbol) == seq!['J', 'P', 'Y'] <==> (symbol.len() >= 2 && symbol.subrange(
            symbol.len() - 2,
            symbol.len() as int,
        ) == seq!['.', 'T']),
        default_currency_of(symbol) == seq!['J', 'P', 'Y'] || default_currency_of(symbol) == seq![
            'U',
            'S',
            'D',
        ],
{
    if symbol.len() >= 2 {
        let tail = symbol.subrange(symbol.len() - 2, symbol.len() as int);
        assert(tail[0] == symbol[symbol.len() - 2] && tail[1] == symbol[symbol.len() - 1]);
        if symbol[symbol.len() - 2] == '.' && symbol[symbol.len() - 1] == 'T' {
            assert(tail =~= seq!['.', 'T']);
        }
    }
    assert(seq!['J', 'P', 'Y'] != seq!['U', 'S', 'D']) by {
        assert(seq!['J', 'P', 'Y'][0] != seq!['U', 'S', 'D'][0]);
    }
}

/// The currency assumed for a symbol.
pub fn default_currency(symbol: &str) -> (r: String)
    ensures
        r@ == default_currency_of(symbol@),
        r@ == seq!['J', 'P', 'Y'] <==> (symbol@.len() >= 2 && symbol@.subrange(
            symbol@.len() - 2,
            symbol@.len() as int,
        ) == seq!['.', 'T']),
        r@ == seq!['J', 'P', 'Y'] || r@ == seq!['U', 'S', 'D'],
{
    proof {
        lemma_default_currency_by_suffix(symbol@);
    }
    let v = chars_of(symbol);
    let n = v.len();
    let jpy = vec!['J', 'P', 'Y'];
    let usd = vec!['U', 'S', 'D'];
    assert(jpy@ =~= seq!['J', 'P', 'Y']);
    assert(usd@ =~= seq!['U', 'S', 'D']);
    if n >= 2 && v[n - 2] == '.' && v[n - 1] == 'T' {
        string_of(&jpy)
    } else {
        string_of(&usd)
    }
}

/// What `str::to_uppercase` returns for a text (the Unicode upper case
/// mapping).
pub uninterp spec fn spec_to_uppercase(s: Seq<char>) -> Seq<char>;

/// Calls `str::to_uppercase`; the result is [`spec_to_uppercase`] of the
/// argument.
#[verifier::external_body]
fn to_uppercase(s: &str) -> (r: String)
    ensures
        r@ == spec_to_uppercase(s@),
{
    s.to_uppercase()
}

/// The symbol a ticker card is made for: trimmed, in upper case; none when
/// nothing is left.
pub open spec fn ticker_symbol_of(s: Seq<char>) -> Option<Seq<char>> {
    let u = spec_to_uppercase(trimmed(s));
    if u.len() == 0 {
        None
    } else {
        Some(u)
    }
}

/// Normalizes the symbol a ticker card is asked for.
pub fn normalize_ticker_symbol(symbol: &str) -> (r: Option<String>)
    ensures
        match r {
            Some(s) => ticker_symbol_of(symbol@) == Some(s@),
            None => ticker_symbol_of(symbol@) is None,
        },
{
    let v = chars_of(symbol);
    let t = trim_chars(&v);
    let ts = string_of(&t);
    let u = to_uppercase(ts.as_str());
    if u.as_str().is_empty() {
        None
    } else {
        Some(u)
    }
}

} // verus!
