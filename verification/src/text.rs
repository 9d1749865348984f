//! Character-level text handling shared by the rest of the library.
use vstd::prelude::*;

verus! {

/// The characters that `char::is_whitespace` accepts: the Unicode
/// `White_Space` property.
pub open spec fn is_space(c: char) -> bool {
    let u = c as u32;
    ||| 0x09 <= u <= 0x0D
    ||| u == 0x20
    ||| u == 0x85
    ||| u == 0xA0
    ||| u == 0x1680
    ||| 0x2000 <= u <= 0x200A
    ||| u == 0x2028
    ||| u == 0x2029
    ||| u == 0x202F
    ||| u == 0x205F
    ||| u == 0x3000
}

/// Decides [`is_space`].
pub fn char_is_space(c: char) -> (b: bool)
    ensures
        b == is_space(c),
{
    let u = c as u32;
    (0x09 <= u && u <= 0x0D) || u == 0x20 || u == 0x85 || u == 0xA0 || u == 0x1680 || (0x2000
        <= u && u <= 0x200A) || u == 0x2028 || u == 0x2029 || u == 0x202F || u == 0x205F || u
        == 0x3000
}

/// `s` without its leading white space.
pub open spec fn trim_start(s: Seq<char>) -> Seq<char>
    decreases s.len(),
{
    if s.len() > 0 && is_space(s[0]) {
        trim_start(s.drop_first())
    } else {
        s
    }
}

/// `s` without its trailing white space.
pub open spec fn trim_end(s: Seq<char>) -> Seq<char>
    decreases s.len(),
{
    if s.len() > 0 && is_space(s.last()) {
        trim_end(s.drop_last())
    } else {
        s
    }
}

/// `s` without white space at either end, as `str::trim` gives it.
pub open spec fn trimmed(s: Seq<char>) -> Seq<char> {
    trim_end(trim_start(s))
}

/// The ASCII upper case of one character: `a`..`z` map to `A`..`Z`, all
/// other characters stay.
pub open spec fn ascii_upper_char(c: char) -> char {
    if 'a' <= c <= 'z' {
        ((c as u32) - 32) as char
    } else {
        c
    }
}

/// `str::to_ascii_uppercase` as a sequence map.
pub open spec fn ascii_upper(s: Seq<char>) -> Seq<char> {
    s.map_values(|c: char| ascii_upper_char(c))
}

/// The characters of a string slice, in order.
pub fn chars_of(s: &str) -> (v: Vec<char>)
    ensures
        v@ == s@,
{
    let mut v: Vec<char> = Vec::new();
    for c in it: s.chars()
        invariant
            v@ == it.seq().take(it.index() as int),
    {
        v.push(c);
    }
    v
}

/// Collects characters into a `String` with `String::from_iter`.
#[verifier::external_body]
pub fn string_of(v: &Vec<char>) -> (s: String)
    ensures
        s@ == v@,
{
    String::from_iter(v.iter())
}

/// Appends one character with `String::push`.
#[verifier::external_body]
pub fn push_char(s: &mut String, c: char)
    ensures
        final(s)@ == old(s)@.push(c),
{
    s.push(c)
}

/// A copy of a string slice as an owned `String`.
pub fn owned(s: &str) -> (r: String)
    ensures
        r@ == s@,
{
    s.to_owned()
}

proof fn lemma_trim_start_skip(s: Seq<char>, i: int)
    requires
        0 <= i <= s.len(),
        forall|k: int| 0 <= k < i ==> is_space(#[trigger] s[k]),
    ensures
        trim_start(s) == trim_start(s.subrange(i, s.len() as int)),
    decreases i,
{
    if i > 0 {
        assert(s.drop_first() =~= s.subrange(1, s.len() as int));
        lemma_trim_start_skip(s.drop_first(), i - 1);
        assert(s.drop_first().subrange(i - 1, s.drop_first().len() as int) =~= s.subrange(
            i,
            s.len() as int,
        ));
    } else {
        assert(s.subrange(0, s.len() as int) =~= s);
    }
}

proof fn lemma_trim_end_cut(s: Seq<char>, j: int)
    requires
        0 <= j <= s.len(),
        forall|k: int| j <= k < s.len() ==> is_space(#[trigger] s[k]),
    ensures
        trim_end(s) == trim_end(s.subrange(0, j)),
    decreases s.len() - j,
{
    if j < s.len() {
        assert(s.drop_last() =~= s.subrange(0, s.len() - 1));
        lemma_trim_end_cut(s.drop_last(), j);
        assert(s.drop_last().subrange(0, j) =~= s.subrange(0, j));
    } else {
        assert(s.subrange(0, j) =~= s);
    }
}

proof fn lemma_trim_start_head(s: Seq<char>)
    ensures
        trim_start(s).len() > 0 ==> !is_space(trim_start(s)[0]),
    decreases s.len(),
{
    if s.len() > 0 && is_space(s[0]) {
        lemma_trim_start_head(s.drop_first());
    }
}

proof fn lemma_trim_end_prefix(s: Seq<char>)
    ensures
        trim_end(s).len() <= s.len(),
        forall|i: int| 0 <= i < trim_end(s).len() ==> trim_end(s)[i] == s[i],
        trim_end(s).len() > 0 ==> !is_space(trim_end(s).last()),
    decreases s.len(),
{
    if s.len() > 0 && is_space(s.last()) {
        lemma_trim_end_prefix(s.drop_last());
        assert forall|i: int| 0 <= i < trim_end(s).len() implies trim_end(s)[i] == s[i] by {
            assert(s.drop_last()[i] == s[i]);
        }
    }
}

/// Trimming twice gives what trimming once gives.
pub proof fn lemma_trimmed_idempotent(s: Seq<char>)
    ensures
        trimmed(trimmed(s)) == trimmed(s),
{
    let a = trim_start(s);
    let t = trim_end(a);
    lemma_trim_start_head(s);
    lemma_trim_end_prefix(a);
    if t.len() > 0 {
        assert(t[0] == a[0]);
        assert(trim_start(t) == t);
        assert(trim_end(t) == t);
    } else {
        assert(trim_start(t) == t);
        assert(trim_end(t) == t);
    }
}

/// `str::trim` on a character vector.
pub fn trim_chars(v: &Vec<char>) -> (r: Vec<char>)
    ensures
        r@ == trimmed(v@),
{
    let n = v.len();
    let mut i: usize = 0;
    while i < n && char_is_space(v[i])
        invariant
            i <= n == v.len(),
            forall|k: int| 0 <= k < i ==> is_space(#[trigger] v@[k]),
        decreases n - i,
    {
        i = i + 1;
    }
    proof {
        lemma_trim_start_skip(v@, i as int);
        if i < n {
            assert(!is_space(v@.subrange(i as int, n as int)[0]));
        }
    }
    let ghost rest = v@.subrange(i as int, n as int);
    assert(trim_start(v@) == rest);
    let mut j: usize = n;
    while j > i && char_is_space(v[j - 1])
        invariant
            i <= j <= n == v.len(),
            rest == v@.subrange(i as int, n as int),
            forall|k: int| j <= k < n ==> is_space(#[trigger] v@[k]),
        decreases j,
    {
        j = j - 1;
    }
    proof {
        assert forall|k: int| (j - i) <= k < rest.len() implies is_space(#[trigger] rest[k]) by {
            assert(rest[k] == v@[k + i]);
        }
        lemma_trim_end_cut(rest, (j - i) as int);
        let cut = rest.subrange(0, (j - i) as int);
        assert(cut =~= v@.subrange(i as int, j as int));
        if j > i {
            assert(cut.last() == v@[j - 1]);
        }
    }
    let mut r: Vec<char> = Vec::new();
    let mut k: usize = i;
    while k < j
        invariant
            i <= k <= j <= n == v.len(),
            r@ == v@.subrange(i as int, k as int),
        decreases j - k,
    {
        r.push(v[k]);
        k = k + 1;
        assert(r@ =~= v@.subrange(i as int, k as int));
    }
    assert(r@ =~= v@.subrange(i as int, j as int));
    r
}

/// `str::to_ascii_uppercase` on a character vector.
pub fn ascii_upper_chars(v: &Vec<char>) -> (r: Vec<char>)
    ensures
        r@ == ascii_upper(v@),
{
    let mut r: Vec<char> = Vec::new();
    let mut k: usize = 0;
    while k < v.len()
        invariant
            k <= v.len(),
            r@ == ascii_upper(v@.take(k as int)),
        decreases v.len() - k,
    {
        let c = v[k];
        let u = if 'a' <= c && c <= 'z' {
            char_from_ascii_upper(c)
        } else {
            c
        };
        r.push(u);
        k = k + 1;
        assert(v@.take(k as int) =~= v@.take(k - 1).push(c));
        assert(r@ =~= ascii_upper(v@.take(k as int)));
    }
    assert(v@.take(v.len() as int) =~= v@);
    r
}

fn char_from_ascii_upper(c: char) -> (u: char)
    requires
        'a' <= c <= 'z',
    ensures
        u == ascii_upper_char(c),
{
    let code = (c as u32 - 32) as u8;
    code as char
}

} // verus!

verus! {

/// Whether two character vectors hold the same characters.
pub fn same_chars(a: &Vec<char>, b: &Vec<char>) -> (r: bool)
    ensures
        r == (a@ == b@),
{
    if a.len() != b.len() {
        return false;
    }
    let mut k: usize = 0;
    while k < a.len()
        invariant
            k <= a.len() == b.len(),
            forall|t: int| 0 <= t < k ==> a@[t] == b@[t],
        decreases a.len() - k,
    {
        if a[k] != b[k] {
            return false;
        }
        k = k + 1;
    }
    assert(a@ =~= b@);
    true
}

/// Whether a string slice holds exactly the characters of `b`.
pub fn str_is(a: &str, b: &Vec<char>) -> (r: bool)
    ensures
        r == (a@ == b@),
{
    let v = chars_of(a);
    same_chars(&v, b)
}

} // verus!

verus! {

/// Strict lexicographic order of texts by character code, the order of
/// `str::cmp` (UTF-8 byte order agrees with code point order).
pub open spec fn text_before(a: Seq<char>, b: Seq<char>) -> bool
    decreases a.len(),
{
    if a.len() == 0 {
        b.len() > 0
    } else if b.len() == 0 {
        false
    } else if a[0] == b[0] {
        text_before(a.drop_first(), b.drop_first())
    } else {
        a[0] < b[0]
    }
}

/// No text comes before itself, and of two distinct texts exactly one comes
/// first.
pub proof fn lemma_text_order_total(a: Seq<char>, b: Seq<char>)
    ensures
        !text_before(a, a),
        a != b ==> (text_before(a, b) || text_before(b, a)),
        !(text_before(a, b) && text_before(b, a)),
    decreases a.len(),
{
    if a.len() > 0 {
        lemma_text_order_total(a.drop_first(), a.drop_first());
        if b.len() > 0 {
            lemma_text_order_total(a.drop_first(), b.drop_first());
            if a[0] == b[0] && a != b {
                assert(a.drop_first() != b.drop_first()) by {
                    if a.drop_first() == b.drop_first() {
                        assert(a =~= seq![a[0]] + a.drop_first());
                        assert(b =~= seq![b[0]] + b.drop_first());
                    }
                }
            }
        }
    } else if b.len() == 0 {
        assert(a =~= b);
    }
}

/// The text order is transitive.
pub proof fn lemma_text_order_transitive(a: Seq<char>, b: Seq<char>, c: Seq<char>)
    requires
        text_before(a, b),
        text_before(b, c),
    ensures
        text_before(a, c),
    decreases a.len(),
{
    if a.len() > 0 && b.len() > 0 && c.len() > 0 {
        if a[0] == b[0] && b[0] == c[0] {
            lemma_text_order_transitive(a.drop_first(), b.drop_first(), c.drop_first());
        }
    }
}

/// Decides [`text_before`].
pub fn chars_before(a: &Vec<char>, b: &Vec<char>) -> (r: bool)
    ensures
        r == text_before(a@, b@),
{
    let mut k: usize = 0;
    assert(a@.skip(0) =~= a@ && b@.skip(0) =~= b@);
    while k < a.len() && k < b.len() && a[k] == b[k]
        invariant
            k <= a.len(),
            k <= b.len(),
            forall|t: int| 0 <= t < k ==> a@[t] == b@[t],
            text_before(a@, b@) == text_before(a@.skip(k as int), b@.skip(k as int)),
        decreases a.len() - k,
    {
        proof {
            let sa = a@.skip(k as int);
            let sb = b@.skip(k as int);
            assert(sa.drop_first() =~= a@.skip(k + 1));
            assert(sb.drop_first() =~= b@.skip(k + 1));
        }
        k = k + 1;
    }
    if k == a.len() {
        k < b.len()
    } else if k == b.len() {
        false
    } else {
        a[k] < b[k]
    }
}

/// `r` lists the distinct texts of `s` in increasing order.
pub open spec fn is_sorted_set(s: Seq<Seq<char>>, r: Seq<Seq<char>>) -> bool {
    &&& forall|j: int, k: int| 0 <= j < k < r.len() ==> text_before(#[trigger] r[j], #[trigger] r[k])
    &&& forall|t: Seq<char>| s.contains(t) <==> r.contains(t)
}

/// The views of a list of strings.
pub open spec fn string_views(s: Seq<String>) -> Seq<Seq<char>> {
    s.map_values(|x: String| x@)
}

/// The distinct strings of `items`, sorted and without repeats, as
/// `sort` followed by `dedup` leaves them.
pub fn sorted_unique(items: &Vec<String>) -> (r: Vec<String>)
    ensures
        is_sorted_set(string_views(items@), string_views(r@)),
{
    let ghost src = string_views(items@);
    let mut r: Vec<String> = Vec::new();
    let mut rc: Vec<Vec<char>> = Vec::new();
    let mut i: usize = 0;
    while i < items.len()
        invariant
            i <= items.len(),
            src == string_views(items@),
            r.len() == rc.len(),
            forall|k: int| 0 <= k < r.len() ==> #[trigger] rc@[k]@ == r@[k]@,
            forall|j: int, k: int|
                0 <= j < k < r.len() ==> text_before(#[trigger] rc@[j]@, #[trigger] rc@[k]@),
            forall|t: Seq<char>| src.take(i as int).contains(t) <==> string_views(r@).contains(t),
        decreases items.len() - i,
    {
        let x = chars_of(items[i].as_str());
        let mut p: usize = 0;
        while p < rc.len() && chars_before(&rc[p], &x)
            invariant
                p <= rc.len(),
                forall|k: int| 0 <= k < p ==> text_before(#[trigger] rc@[k]@, x@),
            decreases rc.len() - p,
        {
            p = p + 1;
        }
        let ghost old_r = r@;
        let ghost old_rc = rc@;
        let ghost pre1 = src.take(i + 1);
        let ghost pre0 = src.take(i as int);
        assert(forall|w: int| 0 <= w < i ==> pre1[w] == #[trigger] pre0[w]);
        let dup = p < rc.len() && same_chars(&rc[p], &x);
        if !dup {
            proof {
                if p < rc.len() {
                    lemma_text_order_total(rc@[p as int]@, x@);
                    assert forall|k: int| p < k < rc.len() implies text_before(x@, #[trigger] rc@[k]@) by {
                        lemma_text_order_transitive(x@, rc@[p as int]@, rc@[k]@);
                    }
                }
            }
            r.insert(p, owned(items[i].as_str()));
            rc.insert(p, x);
            proof {
                assert forall|k: int| 0 <= k < r.len() implies #[trigger] rc@[k]@ == r@[k]@ by {
                    if k < p {
                        assert(rc@[k] == old_rc[k] && r@[k] == old_r[k]);
                    } else if k > p {
                        assert(rc@[k] == old_rc[k - 1] && r@[k] == old_r[k - 1]);
                    }
                }
                assert forall|j: int, k: int| 0 <= j < k < r.len() implies text_before(
                    #[trigger] rc@[j]@,
                    #[trigger] rc@[k]@,
                ) by {
                    if k < p {
                        assert(rc@[j] == old_rc[j] && rc@[k] == old_rc[k]);
                    } else if k == p {
                        assert(rc@[j] == old_rc[j]);
                    } else if j == p {
                        assert(rc@[k] == old_rc[k - 1]);
                    } else if j < p {
                        assert(rc@[j] == old_rc[j] && rc@[k] == old_rc[k - 1]);
                    } else {
                        assert(rc@[j] == old_rc[j - 1] && rc@[k] == old_rc[k - 1]);
                    }
                }
                assert forall|t: Seq<char>| pre1.contains(t) <==> string_views(
                    r@,
                ).contains(t) by {
                    let sv = string_views(r@);
                    let osv = string_views(old_r);
                    if pre1.contains(t) {
                        let w = choose|w: int| 0 <= w < i + 1 && pre1[w] == t;
                        if w < i {
                            assert(pre0[w] == t);
                            assert(pre0.contains(t));
                            assert(osv.contains(t));
                            let u = choose|u: int| 0 <= u < osv.len() && osv[u] == t;
                            assert(0 <= u < old_r.len());
                            if u < p {
                                assert(r@[u] == old_r[u]);
                                assert(sv[u] == t);
                            } else {
                                assert(r@[u + 1] == old_r[u]);
                                assert(sv[u + 1] == t);
                            }
                        } else {
                            assert(sv[p as int] == t);
                        }
                    }
                    if sv.contains(t) {
                        let u = choose|u: int| 0 <= u < sv.len() && sv[u] == t;
                        if u < p {
                            assert(r@[u] == old_r[u]);
                            assert(osv[u] == t);
                        } else if u > p {
                            assert(r@[u] == old_r[u - 1]);
                            assert(osv[u - 1] == t);
                        } else {
                            assert(pre1[i as int] == t);
                        }
                        if u != p {
                            assert(osv.contains(t));
                            assert(pre0.contains(t));
                            let w = choose|w: int| 0 <= w < i && pre0[w] == t;
                            assert(pre1[w] == t);
                        }
                    }
                }
            }
        } else {
            proof {
                assert forall|t: Seq<char>| pre1.contains(t) <==> string_views(
                    r@,
                ).contains(t) by {
                    let sv = string_views(r@);
                    if pre1.contains(t) {
                        let w = choose|w: int| 0 <= w < i + 1 && pre1[w] == t;
                        if w < i {
                            assert(pre0[w] == t);
                        } else {
                            assert(sv[p as int] == t);
                        }
                    }
                    if sv.contains(t) {
                        let w = choose|w: int| 0 <= w < i && pre0[w] == t;
                        assert(pre1[w] == t);
                    }
                }
            }
        }
        i = i + 1;
    }
    assert(src.take(items.len() as int) =~= src);
    proof {
        assert forall|j: int, k: int| 0 <= j < k < r.len() implies text_before(
            #[trigger] string_views(r@)[j],
            #[trigger] string_views(r@)[k],
        ) by {
            assert(rc@[j]@ == r@[j]@ && rc@[k]@ == r@[k]@);
        }
    }
    r
}

} // verus!
