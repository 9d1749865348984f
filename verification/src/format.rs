//! How numbers and names are written out for display.
use vstd::prelude::*;

use crate::text::{chars_of, push_char, string_of};

verus! {

/// The character of a decimal digit.
pub open spec fn dec_digit(d: int) -> char {
    ((d + 48) as u8) as char
}

/// The character of a lower-case hexadecimal digit.
pub open spec fn hex_digit(d: int) -> char {
    if d < 10 {
        ((d + 48) as u8) as char
    } else {
        ((d + 87) as u8) as char
    }
}

/// `n` in decimal, without leading zeros.
pub open spec fn decimal(n: nat) -> Seq<char>
    decreases n,
{
    if n < 10 {
        seq![dec_digit(n as int)]
    } else {
        decimal(n / 10).push(dec_digit((n % 10) as int))
    }
}

/// `n` in lower-case hexadecimal, without leading zeros (`{:x}`).
pub open spec fn hexadecimal(n: nat) -> Seq<char>
    decreases n,
{
    if n < 16 {
        seq![hex_digit(n as int)]
    } else {
        hexadecimal(n / 16).push(hex_digit((n % 16) as int))
    }
}

/// `s` filled with leading zeros up to `width` characters.
pub open spec fn zero_padded(s: Seq<char>, width: nat) -> Seq<char> {
    if s.len() < width {
        Seq::new((width - s.len()) as nat, |i: int| '0') + s
    } else {
        s
    }
}

/// Appends `n` in decimal.
pub fn push_decimal(out: &mut String, n: u64)
    ensures
        final(out)@ == old(out)@ + decimal(n as nat),
    decreases n,
{
    if n >= 10 {
        push_decimal(out, n / 10);
    }
    let d = (48 + (n % 10) as u8) as char;
    push_char(out, d);
    assert(old(out)@ + decimal(n as nat) =~= old(out)@ + (if n >= 10 {
        decimal((n / 10) as nat)
    } else {
        Seq::empty()
    }) + seq![dec_digit((n % 10) as int)]);
}

/// Appends `n` in lower-case hexadecimal.
pub fn push_hex(out: &mut String, n: u64)
    ensures
        final(out)@ == old(out)@ + hexadecimal(n as nat),
    decreases n,
{
    if n >= 16 {
        push_hex(out, n / 16);
    }
    let r = (n % 16) as u8;
    let d = if r < 10 {
        (48 + r) as char
    } else {
        (87 + r) as char
    };
    push_char(out, d);
    assert(old(out)@ + hexadecimal(n as nat) =~= old(out)@ + (if n >= 16 {
        hexadecimal((n / 16) as nat)
    } else {
        Seq::empty()
    }) + seq![hex_digit((n % 16) as int)]);
}

/// `n` in decimal.
pub fn decimal_string(n: u64) -> (s: String)
    ensures
        s@ == decimal(n as nat),
{
    let mut s = String::new();
    push_decimal(&mut s, n);
    assert(s@ =~= decimal(n as nat));
    s
}

/// A number below 100 in two digits, with a leading zero when needed
/// (`{:02}`).
pub fn push_two_digits(out: &mut String, n: u32)
    requires
        n < 100,
    ensures
        final(out)@ == old(out)@ + zero_padded(decimal(n as nat), 2),
{
    let ghost start = out@;
    if n < 10 {
        push_char(out, '0');
    }
    push_decimal(out, n as u64);
    proof {
        if n < 10 {
            assert(zero_padded(decimal(n as nat), 2) =~= seq!['0'] + decimal(n as nat));
        } else {
            assert(decimal(n as nat).len() == 2) by {
                assert(decimal((n / 10) as nat).len() == 1);
            }
        }
        assert(out@ =~= start + zero_padded(decimal(n as nat), 2));
    }
}

/// The identifier of a share card: the time in nanoseconds, exclusive-or a
/// hash of the issuing thread, in hexadecimal.
pub fn share_id(nanos: u64, thread_hash: u64) -> (id: String)
    ensures
        id@ == hexadecimal((nanos ^ thread_hash) as nat),
{
    let mut id = String::new();
    push_hex(&mut id, nanos ^ thread_hash);
    assert(id@ =~= hexadecimal((nanos ^ thread_hash) as nat));
    id
}

/// The digits `d` with a comma before every group of three counted from
/// the right.
pub open spec fn grouped(d: Seq<char>) -> Seq<char>
    decreases d.len(),
{
    if d.len() <= 3 {
        d
    } else {
        grouped(d.take(d.len() - 3)) + seq![','] + d.skip(d.len() - 3)
    }
}

/// A number written out in digits, with thousands separators; a leading
/// minus sign stays in front.
pub open spec fn with_thousands(s: Seq<char>) -> Seq<char> {
    if s.len() > 0 && s[0] == '-' {
        seq!['-'] + grouped(s.drop_first())
    } else {
        grouped(s)
    }
}

fn push_grouped(d: &Vec<char>, end: usize, out: &mut Vec<char>)
    requires
        end <= d.len(),
    ensures
        final(out)@ == old(out)@ + grouped(d@.take(end as int)),
    decreases end,
{
    if end <= 3 {
        let mut k: usize = 0;
        let ghost start = out@;
        while k < end
            invariant
                k <= end <= d.len(),
                out@ == start + d@.take(k as int),
            decreases end - k,
        {
            out.push(d[k]);
            k = k + 1;
            assert(out@ =~= start + d@.take(k as int));
        }
        assert(d@.take(end as int).take(end as int) =~= d@.take(end as int));
    } else {
        let ghost start = out@;
        push_grouped(d, end - 3, out);
        out.push(',');
        let ghost mid = out@;
        out.push(d[end - 3]);
        out.push(d[end - 2]);
        out.push(d[end - 1]);
        let ghost t = d@.take(end as int);
        assert(t.take(t.len() - 3) =~= d@.take(end - 3));
        assert(t.skip(t.len() - 3) =~= seq![d@[end - 3], d@[end - 2], d@[end - 1]]);
        assert(out@ =~= start + grouped(t));
    }
}

/// Inserts thousands separators into a number already written out in
/// digits (the text of `{:.0}`).
pub fn group_thousands(s: &str) -> (r: String)
    ensures
        r@ == with_thousands(s@),
{
    let v = chars_of(s);
    let mut out: Vec<char> = Vec::new();
    if v.len() > 0 && v[0] == '-' {
        out.push('-');
        let mut digits: Vec<char> = Vec::new();
        let mut k: usize = 1;
        while k < v.len()
            invariant
                1 <= k <= v.len(),
                digits@ == v@.subrange(1, k as int),
            decreases v.len() - k,
        {
            digits.push(v[k]);
            k = k + 1;
            assert(digits@ =~= v@.subrange(1, k as int));
        }
        let ghost start = out@;
        push_grouped(&digits, digits.len(), &mut out);
        assert(digits@.take(digits.len() as int) =~= v@.drop_first());
        assert(out@ =~= seq!['-'] + grouped(v@.drop_first()));
    } else {
        push_grouped(&v, v.len(), &mut out);
        assert(v@.take(v.len() as int) =~= v@);
        assert(out@ =~= grouped(v@));
    }
    string_of(&out)
}

/// `s` with its commas taken out.
pub open spec fn without_commas(s: Seq<char>) -> Seq<char>
    decreases s.len(),
{
    if s.len() == 0 {
        s
    } else if s.last() == ',' {
        without_commas(s.drop_last())
    } else {
        without_commas(s.drop_last()).push(s.last())
    }
}

proof fn lemma_without_commas_concat(a: Seq<char>, b: Seq<char>)
    ensures
        without_commas(a + b) == without_commas(a) + without_commas(b),
    decreases b.len(),
{
    if b.len() == 0 {
        assert(a + b =~= a);
        assert(without_commas(a) + without_commas(b) =~= without_commas(a));
    } else {
        assert((a + b).drop_last() =~= a + b.drop_last());
        lemma_without_commas_concat(a, b.drop_last());
        if b.last() != ',' {
            assert(without_commas(a) + without_commas(b.drop_last()).push(b.last()) =~= (
            without_commas(a) + without_commas(b.drop_last())).push(b.last()));
        }
    }
}

proof fn lemma_no_commas_kept(d: Seq<char>)
    requires
        forall|i: int| 0 <= i < d.len() ==> #[trigger] d[i] != ',',
    ensures
        without_commas(d) == d,
    decreases d.len(),
{
    if d.len() > 0 {
        lemma_no_commas_kept(d.drop_last());
        assert(d.drop_last().push(d.last()) =~= d);
    }
}

/// Taking the separators out of a grouped number gives back its digits.
pub proof fn lemma_grouping_keeps_digits(d: Seq<char>)
    requires
        forall|i: int| 0 <= i < d.len() ==> #[trigger] d[i] != ',',
    ensures
        without_commas(grouped(d)) == d,
    decreases d.len(),
{
    if d.len() <= 3 {
        lemma_no_commas_kept(d);
    } else {
        let head = d.take(d.len() - 3);
        let tail = d.skip(d.len() - 3);
        lemma_grouping_keeps_digits(head);
        lemma_without_commas_concat(grouped(head) + seq![','], tail);
        lemma_without_commas_concat(grouped(head), seq![',']);
        let comma = seq![','];
        assert(comma.len() == 1 && comma.last() == ',');
        assert(comma.drop_last() =~= Seq::<char>::empty());
        assert(without_commas(comma.drop_last()).len() == 0);
        assert(without_commas(comma) =~= Seq::<char>::empty());
        lemma_no_commas_kept(tail);
        assert(head + tail =~= d);
    }
}

/// The escape of one character in XML text.
pub open spec fn xml_char(c: char) -> Seq<char> {
    if c == '&' {
        seq!['&', 'a', 'm', 'p', ';']
    } else if c == '<' {
        seq!['&', 'l', 't', ';']
    } else if c == '>' {
        seq!['&', 'g', 't', ';']
    } else if c == '"' {
        seq!['&', 'q', 'u', 'o', 't', ';']
    } else {
        seq![c]
    }
}

/// `s` with `&`, `<`, `>` and `"` escaped for XML.
pub open spec fn xml_escaped(s: Seq<char>) -> Seq<char>
    decreases s.len(),
{
    if s.len() == 0 {
        Seq::empty()
    } else {
        xml_escaped(s.drop_last()) + xml_char(s.last())
    }
}

fn push_all(out: &mut String, v: &Vec<char>)
    ensures
        final(out)@ == old(out)@ + v@,
{
    let ghost start = out@;
    let mut k: usize = 0;
    while k < v.len()
        invariant
            k <= v.len(),
            out@ == start + v@.take(k as int),
        decreases v.len() - k,
    {
        push_char(out, v[k]);
        k = k + 1;
        assert(out@ =~= start + v@.take(k as int));
    }
    assert(v@.take(v.len() as int) =~= v@);
}

/// Escapes text for an XML document.
pub fn xml_escape(s: &str) -> (r: String)
    ensures
        r@ == xml_escaped(s@),
{
    let v = chars_of(s);
    let mut out = String::new();
    let mut k: usize = 0;
    while k < v.len()
        invariant
            k <= v.len(),
            out@ == xml_escaped(v@.take(k as int)),
        decreases v.len() - k,
    {
        let c = v[k];
        let piece: Vec<char> = if c == '&' {
            vec!['&', 'a', 'm', 'p', ';']
        } else if c == '<' {
            vec!['&', 'l', 't', ';']
        } else if c == '>' {
            vec!['&', 'g', 't', ';']
        } else if c == '"' {
            vec!['&', 'q', 'u', 'o', 't', ';']
        } else {
            vec![c]
        };
        assert(piece@ =~= xml_char(c));
        push_all(&mut out, &piece);
        k = k + 1;
        assert(v@.take(k as int).drop_last() =~= v@.take(k - 1));
    }
    assert(v@.take(v.len() as int) =~= v@);
    out
}

/// After escaping, no `<`, `>` or `"` is left in the text.
pub proof fn lemma_escaped_has_no_markup(s: Seq<char>)
    ensures
        forall|i: int|
            0 <= i < xml_escaped(s).len() ==> #[trigger] xml_escaped(s)[i] != '<'
                && xml_escaped(s)[i] != '>' && xml_escaped(s)[i] != '"',
    decreases s.len(),
{
    if s.len() > 0 {
        lemma_escaped_has_no_markup(s.drop_last());
        let a = xml_escaped(s.drop_last());
        let b = xml_char(s.last());
        assert forall|i: int| 0 <= i < xml_escaped(s).len() implies #[trigger] xml_escaped(s)[i]
            != '<' && xml_escaped(s)[i] != '>' && xml_escaped(s)[i] != '"' by {
            if i < a.len() {
                assert(xml_escaped(s)[i] == a[i]);
            } else {
                assert(xml_escaped(s)[i] == b[i - a.len()]);
            }
        }
    }
}

/// Escaping text piece by piece gives what escaping it whole gives.
pub proof fn lemma_escape_concat(a: Seq<char>, b: Seq<char>)
    ensures
        xml_escaped(a + b) == xml_escaped(a) + xml_escaped(b),
    decreases b.len(),
{
    if b.len() == 0 {
        assert(a + b =~= a);
        assert(xml_escaped(a) + xml_escaped(b) =~= xml_escaped(a));
    } else {
        lemma_escape_concat(a, b.drop_last());
        assert((a + b).drop_last() =~= a + b.drop_last());
        assert((a + b).last() == b.last());
        assert(xml_escaped(a + b) =~= xml_escaped(a) + xml_escaped(b));
    }
}

/// Text without `&`, `<`, `>` or `"` is left as it is.
pub proof fn lemma_escape_keeps_plain_text(s: Seq<char>)
    requires
        forall|i: int|
            0 <= i < s.len() ==> #[trigger] s[i] != '&' && s[i] != '<' && s[i] != '>' && s[i]
                != '"',
    ensures
        xml_escaped(s) == s,
    decreases s.len(),
{
    if s.len() > 0 {
        lemma_escape_keeps_plain_text(s.drop_last());
        assert(s.last() == s[s.len() - 1]);
        assert(xml_escaped(s) =~= s);
    }
}

/// Escaped text read back: `&amp;`, `&lt;`, `&gt;` and `&quot;` become the
/// characters they stand for, every other character stays.
pub open spec fn xml_unescaped(r: Seq<char>) -> Seq<char>
    decreases r.len(),
{
    if r.len() == 0 {
        Seq::empty()
    } else if r.len() >= 5 && r.take(5) == seq!['&', 'a', 'm', 'p', ';'] {
        seq!['&'] + xml_unescaped(r.skip(5))
    } else if r.len() >= 4 && r.take(4) == seq!['&', 'l', 't', ';'] {
        seq!['<'] + xml_unescaped(r.skip(4))
    } else if r.len() >= 4 && r.take(4) == seq!['&', 'g', 't', ';'] {
        seq!['>'] + xml_unescaped(r.skip(4))
    } else if r.len() >= 6 && r.take(6) == seq!['&', 'q', 'u', 'o', 't', ';'] {
        seq!['"'] + xml_unescaped(r.skip(6))
    } else {
        seq![r[0]] + xml_unescaped(r.skip(1))
    }
}

/// Reading escaped text back gives the text that was escaped.
pub proof fn lemma_unescape_undoes_escape(s: Seq<char>)
    ensures
        xml_unescaped(xml_escaped(s)) == s,
    decreases s.len(),
{
    if s.len() > 0 {
        let c = s[0];
        let rest = s.drop_first();
        lemma_unescape_undoes_escape(rest);
        lemma_escape_concat(seq![c], rest);
        assert(seq![c] + rest =~= s);
        assert(xml_escaped(seq![c]) =~= xml_char(c)) by {
            let one = seq![c];
            assert(one.drop_last() =~= Seq::<char>::empty());
            assert(one.last() == c);
            assert(xml_escaped(one.drop_last()).len() == 0);
            assert(xml_escaped(one) == xml_escaped(one.drop_last()) + xml_char(c));
        }
        let p = xml_char(c);
        let r = p + xml_escaped(rest);
        assert(r.skip(p.len() as int) =~= xml_escaped(rest));
        if c == '&' {
            assert(r.take(5) =~= p);
        } else if c == '<' {
            assert(r.take(4) =~= p);
            assert(r[1] == 'l');
        } else if c == '>' {
            assert(r.take(4) =~= p);
            assert(r[1] == 'g');
        } else if c == '"' {
            assert(r.take(6) =~= p);
            assert(r[1] == 'q');
        } else {
            assert(r[0] == c);
        }
        assert(xml_unescaped(r) =~= s);
    }
}

/// An entity (`&amp;`, `&lt;`, `&gt;` or `&quot;`) starts at position `i`
/// of `r`.
pub open spec fn entity_at(r: Seq<char>, i: int) -> bool {
    ||| (i + 5 <= r.len() && r.subrange(i, i + 5) == seq!['&', 'a', 'm', 'p', ';'])
    ||| (i + 4 <= r.len() && r.subrange(i, i + 4) == seq!['&', 'l', 't', ';'])
    ||| (i + 4 <= r.len() && r.subrange(i, i + 4) == seq!['&', 'g', 't', ';'])
    ||| (i + 6 <= r.len() && r.subrange(i, i + 6) == seq!['&', 'q', 'u', 'o', 't', ';'])
}

/// Every `&` of escaped text begins an entity.
pub proof fn lemma_escaped_ampersands_begin_entities(s: Seq<char>)
    ensures
        forall|i: int|
            0 <= i < xml_escaped(s).len() && #[trigger] xml_escaped(s)[i] == '&' ==> entity_at(
                xml_escaped(s),
                i,
            ),
    decreases s.len(),
{
    if s.len() > 0 {
        lemma_escaped_ampersands_begin_entities(s.drop_last());
        let a = xml_escaped(s.drop_last());
        let c = s.last();
        let p = xml_char(c);
        let r = xml_escaped(s);
        assert(r == a + p);
        assert forall|i: int| 0 <= i < r.len() && #[trigger] r[i] == '&' implies entity_at(r, i) by {
            if i < a.len() {
                assert(a[i] == '&');
                assert(entity_at(a, i));
                if i + 5 <= a.len() {
                    assert(r.subrange(i, i + 5) =~= a.subrange(i, i + 5));
                }
                if i + 4 <= a.len() {
                    assert(r.subrange(i, i + 4) =~= a.subrange(i, i + 4));
                }
                if i + 6 <= a.len() {
                    assert(r.subrange(i, i + 6) =~= a.subrange(i, i + 6));
                }
            } else {
                assert(r[i] == p[i - a.len()]);
                assert(i == a.len());
                assert(r.subrange(i, i + p.len()) =~= p);
            }
        }
    }
}

/// `s` with every occurrence of `pat` replaced by `rep`, from left to right
/// and without overlaps, as `str::replace` does.
pub open spec fn replaced(s: Seq<char>, pat: Seq<char>, rep: Seq<char>) -> Seq<char>
    decreases s.len(),
{
    if s.len() == 0 {
        Seq::empty()
    } else if pat.len() > 0 && s.len() >= pat.len() && s.take(pat.len() as int) == pat {
        rep + replaced(s.skip(pat.len() as int), pat, rep)
    } else {
        seq![s[0]] + replaced(s.skip(1), pat, rep)
    }
}

/// Escaped text read back by four replacements in turn: `&lt;`, `&gt;`,
/// `&quot;`, and last `&amp;`.
pub open spec fn xml_read_back(r: Seq<char>) -> Seq<char> {
    replaced(
        replaced(
            replaced(replaced(r, seq!['&', 'l', 't', ';'], seq!['<']), seq!['&', 'g', 't', ';'], seq!['>']),
            seq!['&', 'q', 'u', 'o', 't', ';'],
            seq!['"'],
        ),
        seq!['&', 'a', 'm', 'p', ';'],
        seq!['&'],
    )
}

/// One of the four entities that escaping writes.
spec fn is_entity(p: Seq<char>) -> bool {
    ||| p == seq!['&', 'a', 'm', 'p', ';']
    ||| p == seq!['&', 'l', 't', ';']
    ||| p == seq!['&', 'g', 't', ';']
    ||| p == seq!['&', 'q', 'u', 'o', 't', ';']
}

/// A piece of text that holds `&` only at its start, and then is an entity.
spec fn token_ok(t: Seq<char>) -> bool {
    &&& t.len() > 0
    &&& forall|j: int| 1 <= j < t.len() ==> t[j] != '&'
    &&& t[0] == '&' ==> is_entity(t)
}

/// The pieces `f` gives for the characters of `s`, one after the other.
spec fn tokens(s: Seq<char>, f: spec_fn(char) -> Seq<char>) -> Seq<char>
    decreases s.len(),
{
    if s.len() == 0 {
        Seq::empty()
    } else {
        f(s[0]) + tokens(s.drop_first(), f)
    }
}

proof fn lemma_replace_passes_plain(u: Seq<char>, t: Seq<char>, pat: Seq<char>, rep: Seq<char>)
    requires
        is_entity(pat),
        forall|j: int| 0 <= j < u.len() ==> u[j] != '&',
    ensures
        replaced(u + t, pat, rep) == u + replaced(t, pat, rep),
    decreases u.len(),
{
    if u.len() > 0 {
        let w = u + t;
        assert(w[0] == u[0]);
        if w.len() >= pat.len() && w.take(pat.len() as int) == pat {
            assert(w.take(pat.len() as int)[0] == w[0]);
        }
        assert(w.skip(1) =~= u.skip(1) + t);
        lemma_replace_passes_plain(u.skip(1), t, pat, rep);
        assert(u =~= seq![u[0]] + u.skip(1));
        assert(replaced(w, pat, rep) =~= u + replaced(t, pat, rep));
    } else {
        assert(u + t =~= t);
        assert(u + replaced(t, pat, rep) =~= replaced(t, pat, rep));
    }
}

proof fn lemma_replace_passes_token(u: Seq<char>, t: Seq<char>, pat: Seq<char>, rep: Seq<char>)
    requires
        is_entity(pat),
        token_ok(u),
        u != pat,
    ensures
        replaced(u + t, pat, rep) == u + replaced(t, pat, rep),
{
    if u[0] == '&' {
        let w = u + t;
        assert(w[0] == u[0] && w[1] == u[1]);
        if w.len() >= pat.len() && w.take(pat.len() as int) == pat {
            assert(w.take(pat.len() as int)[1] == w[1]);
            assert(false);
        }
        assert(w.skip(1) =~= u.skip(1) + t);
        lemma_replace_passes_plain(u.skip(1), t, pat, rep);
        assert(u =~= seq![u[0]] + u.skip(1));
        assert(replaced(w, pat, rep) =~= u + replaced(t, pat, rep));
    } else {
        lemma_replace_passes_plain(u, t, pat, rep);
    }
}

proof fn lemma_replace_tokens(
    s: Seq<char>,
    f: spec_fn(char) -> Seq<char>,
    g: spec_fn(char) -> Seq<char>,
    pat: Seq<char>,
    rep: Seq<char>,
)
    requires
        is_entity(pat),
        forall|c: char| #[trigger] token_ok(f(c)),
        forall|c: char| #[trigger] g(c) == (if f(c) == pat { rep } else { f(c) }),
    ensures
        replaced(tokens(s, f), pat, rep) == tokens(s, g),
    decreases s.len(),
{
    if s.len() > 0 {
        let c = s[0];
        let t = tokens(s.drop_first(), f);
        lemma_replace_tokens(s.drop_first(), f, g, pat, rep);
        assert(token_ok(f(c)));
        assert(g(c) == (if f(c) == pat { rep } else { f(c) }));
        if f(c) == pat {
            let w = pat + t;
            assert(w.take(pat.len() as int) =~= pat);
            assert(w.skip(pat.len() as int) =~= t);
        } else {
            lemma_replace_passes_token(f(c), t, pat, rep);
        }
    }
}

proof fn lemma_escaped_as_tokens(s: Seq<char>)
    ensures
        xml_escaped(s) == tokens(s, |c: char| xml_char(c)),
    decreases s.len(),
{
    if s.len() > 0 {
        let c = s[0];
        let rest = s.drop_first();
        lemma_escaped_as_tokens(rest);
        lemma_escape_concat(seq![c], rest);
        assert(seq![c] + rest =~= s);
        let one = seq![c];
        assert(one.drop_last() =~= Seq::<char>::empty());
        assert(one.last() == c);
        assert(xml_escaped(one.drop_last()).len() == 0);
        assert(xml_escaped(one) == xml_escaped(one.drop_last()) + xml_char(c));
        assert(xml_escaped(one) =~= xml_char(c));
    }
}

proof fn lemma_single_tokens(s: Seq<char>)
    ensures
        tokens(s, |c: char| seq![c]) == s,
    decreases s.len(),
{
    if s.len() > 0 {
        lemma_single_tokens(s.drop_first());
        assert(seq![s[0]] + s.drop_first() =~= s);
    }
}

/// Reading escaped text back by the four replacements, `&amp;` last, gives
/// the text that was escaped.
pub proof fn lemma_read_back_by_replacing(s: Seq<char>)
    ensures
        xml_read_back(xml_escaped(s)) == s,
{
    let amp = seq!['&', 'a', 'm', 'p', ';'];
    let lt = seq!['&', 'l', 't', ';'];
    let gt = seq!['&', 'g', 't', ';'];
    let quot = seq!['&', 'q', 'u', 'o', 't', ';'];
    let f0 = |c: char| xml_char(c);
    let f1 = |c: char| if c == '<' { seq!['<'] } else { xml_char(c) };
    let f2 = |c: char| if c == '<' || c == '>' { seq![c] } else { xml_char(c) };
    let f3 = |c: char| if c == '<' || c == '>' || c == '"' { seq![c] } else { xml_char(c) };
    let f4 = |c: char| seq![c];
    assert forall|c: char| #[trigger] token_ok(f0(c)) by {}
    assert forall|c: char| #[trigger] token_ok(f1(c)) by {}
    assert forall|c: char| #[trigger] token_ok(f2(c)) by {}
    assert forall|c: char| #[trigger] token_ok(f3(c)) by {}
    assert forall|c: char| #[trigger] f1(c) == (if f0(c) == lt { seq!['<'] } else { f0(c) }) by {
        if c != '<' && f0(c) == lt {
            assert(f0(c)[1] == lt[1]);
        }
    }
    assert forall|c: char| #[trigger] f2(c) == (if f1(c) == gt { seq!['>'] } else { f1(c) }) by {
        if c != '>' && f1(c) == gt {
            assert(f1(c)[1] == gt[1]);
        }
    }
    assert forall|c: char| #[trigger] f3(c) == (if f2(c) == quot { seq!['"'] } else { f2(c) }) by {
        if c != '"' && f2(c) == quot {
            assert(f2(c)[1] == quot[1]);
        }
    }
    assert forall|c: char| #[trigger] f4(c) == (if f3(c) == amp { seq!['&'] } else { f3(c) }) by {
        if c != '&' && f3(c) == amp {
            assert(f3(c)[1] == amp[1]);
        }
        if c != '&' && c != '<' && c != '>' && c != '"' {
            assert(f3(c) =~= seq![c]);
        }
    }
    lemma_escaped_as_tokens(s);
    lemma_replace_tokens(s, f0, f1, lt, seq!['<']);
    lemma_replace_tokens(s, f1, f2, gt, seq!['>']);
    lemma_replace_tokens(s, f2, f3, quot, seq!['"']);
    lemma_replace_tokens(s, f3, f4, amp, seq!['&']);
    lemma_single_tokens(s);
}

/// How many characters of a name a label shows.
pub const NAME_TRUNCATE_CHARS: usize = 12;

/// A name cut to [`NAME_TRUNCATE_CHARS`] characters and an ellipsis when it
/// is longer.
pub open spec fn truncated(s: Seq<char>) -> Seq<char> {
    if s.len() <= NAME_TRUNCATE_CHARS {
        s
    } else {
        s.take(NAME_TRUNCATE_CHARS as int).push('…')
    }
}

/// Shortens a name for a chart legend.
pub fn truncate_name(name: &str) -> (r: String)
    ensures
        r@ == truncated(name@),
{
    let v = chars_of(name);
    if v.len() <= NAME_TRUNCATE_CHARS {
        return string_of(&v);
    }
    let mut out: Vec<char> = Vec::new();
    let mut k: usize = 0;
    while k < NAME_TRUNCATE_CHARS
        invariant
            k <= NAME_TRUNCATE_CHARS < v.len(),
            out@ == v@.take(k as int),
        decreases NAME_TRUNCATE_CHARS - k,
    {
        out.push(v[k]);
        k = k + 1;
        assert(out@ =~= v@.take(k as int));
    }
    out.push('…');
    string_of(&out)
}

/// The legend label of a holding: its symbol, followed by its shortened
/// name when it has one.
pub open spec fn composition_label_of(symbol: Seq<char>, name: Seq<char>) -> Seq<char> {
    if name.len() == 0 {
        symbol
    } else {
        symbol + seq![' '] + truncated(name)
    }
}

/// The legend label of a holding.
pub fn composition_label(symbol: &str, name: &str) -> (r: String)
    ensures
        r@ == composition_label_of(symbol@, name@),
{
    if name.is_empty() {
        return crate::text::owned(symbol);
    }
    let mut out = crate::text::owned(symbol);
    push_char(&mut out, ' ');
    let t = truncate_name(name);
    let tv = chars_of(t.as_str());
    push_all(&mut out, &tv);
    out
}

/// The full name shown for a holding: its name, or its symbol when it has
/// none.
pub fn composition_full_name(symbol: &str, name: &str) -> (r: String)
    ensures
        r@ == if name@.len() == 0 {
            symbol@
        } else {
            name@
        },
{
    if name.is_empty() {
        crate::text::owned(symbol)
    } else {
        crate::text::owned(name)
    }
}

/// How a ticker is named in a title: `name (SYMBOL)`, or the symbol alone
/// when it has no name.
pub open spec fn titled_name(name: Seq<char>, symbol: Seq<char>) -> Seq<char> {
    if name.len() == 0 {
        symbol
    } else {
        name + seq![' ', '('] + symbol + seq![')']
    }
}

/// The name of a ticker in the title of its card.
pub fn ticker_title_name(name: &str, symbol: &str) -> (r: String)
    ensures
        r@ == titled_name(name@, symbol@),
{
    if name.is_empty() {
        return crate::text::owned(symbol);
    }
    let mut out = crate::text::owned(name);
    push_char(&mut out, ' ');
    push_char(&mut out, '(');
    let sv = chars_of(symbol);
    push_all(&mut out, &sv);
    push_char(&mut out, ')');
    assert(out@ =~= titled_name(name@, symbol@));
    out
}

/// The name of a ticker in its card image: as in the title, but escaped
/// for XML.
pub fn ticker_image_name(name: &str, symbol: &str) -> (r: String)
    ensures
        r@ == if name@.len() == 0 {
            xml_escaped(symbol@)
        } else {
            xml_escaped(name@) + seq![' ', '('] + xml_escaped(symbol@) + seq![')']
        },
{
    let es = xml_escape(symbol);
    if name.is_empty() {
        return es;
    }
    let mut out = xml_escape(name);
    push_char(&mut out, ' ');
    push_char(&mut out, '(');
    let sv = chars_of(es.as_str());
    push_all(&mut out, &sv);
    push_char(&mut out, ')');
    assert(out@ =~= xml_escaped(name@) + seq![' ', '('] + xml_escaped(symbol@) + seq![')']);
    out
}

} // verus!
