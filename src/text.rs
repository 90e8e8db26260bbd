//! Characters, whitespace and word counting.
use vstd::prelude::*;

verus! {

/// The Unicode `White_Space` property, as used by `char::is_whitespace`.
pub open spec fn is_ws(c: char) -> bool {
    c == '\t' || c == '\n' || c == '\x0B' || c == '\x0C' || c == '\r' || c == ' '
        || c == '\u{85}' || c == '\u{A0}' || c == '\u{1680}'
        || ('\u{2000}' <= c && c <= '\u{200A}')
        || c == '\u{2028}' || c == '\u{2029}' || c == '\u{202F}' || c == '\u{205F}'
        || c == '\u{3000}'
}

/// Every character of `s` is whitespace (true of the empty sequence).
pub open spec fn all_ws(s: Seq<char>) -> bool {
    forall|i: int| 0 <= i < s.len() ==> is_ws(#[trigger] s[i])
}

/// Number of maximal runs of non-whitespace characters in `s`.
pub open spec fn word_count(s: Seq<char>) -> nat
    decreases s.len(),
{
    if s.len() == 0 {
        0
    } else {
        let n = s.len() as int;
        let starts_word = !is_ws(s[n - 1]) && (n == 1 || is_ws(s[n - 2]));
        word_count(s.drop_last()) + if starts_word { 1nat } else { 0nat }
    }
}

pub fn is_whitespace(c: char) -> (r: bool)
    ensures
        r == is_ws(c),
{
    c == '\t' || c == '\n' || c == '\x0B' || c == '\x0C' || c == '\r' || c == ' '
        || c == '\u{85}' || c == '\u{A0}' || c == '\u{1680}'
        || ('\u{2000}' <= c && c <= '\u{200A}')
        || c == '\u{2028}' || c == '\u{2029}' || c == '\u{202F}' || c == '\u{205F}'
        || c == '\u{3000}'
}

/// The characters of a string slice, in order.
pub fn chars_of(s: &str) -> (r: Vec<char>)
    ensures
        r@ == s@,
{
    let mut r: Vec<char> = Vec::new();
    for c in it: s.chars()
        invariant
            r@ == it.seq().take(it.index() as int),
    {
        r.push(c);
        assert(r@ =~= it.seq().take(it.index() as int + 1));
    }
    r
}

/// Relies on `FromIterator<char> for String`: the string holds the given
/// characters, in order.
#[verifier::external_body]
pub(crate) fn string_of(v: &[char]) -> (r: String)
    ensures
        r@ == v@,
{
    v.iter().collect()
}

/// Whitespace-delimited word count of `text`, as `str::split_whitespace`
/// counts them.
pub fn count_words(text: &[char]) -> (n: usize)
    ensures
        n == word_count(text@),
{
    let mut n: usize = 0;
    let mut i: usize = 0;
    while i < text.len()
        invariant
            i <= text.len(),
            n == word_count(text@.take(i as int)),
            n <= i,
        decreases text.len() - i,
    {
        let starts = !is_whitespace(text[i]) && (i == 0 || is_whitespace(text[i - 1]));
        proof {
            let t = text@.take(i as int + 1);
            assert(t.drop_last() =~= text@.take(i as int));
        }
        if starts {
            n = n + 1;
        }
        i = i + 1;
    }
    assert(text@.take(i as int) =~= text@);
    n
}

pub(crate) proof fn lemma_word_count_concat(a: Seq<char>, b: Seq<char>)
    requires
        a.len() == 0 || is_ws(a.last()),
    ensures
        word_count(a + b) == word_count(a) + word_count(b),
    decreases b.len(),
{
    if b.len() == 0 {
        assert(a + b =~= a);
    } else {
        assert((a + b).drop_last() =~= a + b.drop_last());
        lemma_word_count_concat(a, b.drop_last());
        if a.len() == 0 {
            assert(a + b =~= b);
        }
    }
}

/// A span of `t` between two line boundaries has no more words than `t`.
pub(crate) proof fn lemma_word_count_span(t: Seq<char>, p: int, q: int)
    requires
        0 <= p <= q <= t.len(),
        p == 0 || is_ws(t[p - 1]),
        q == p || q == t.len() || is_ws(t[q - 1]),
    ensures
        word_count(t.subrange(p, q)) <= word_count(t),
{
    let a = t.subrange(0, p);
    let m = t.subrange(p, q);
    let z = t.subrange(q, t.len() as int);
    assert(t =~= a + (m + z));
    lemma_word_count_concat(a, m + z);
    if q == t.len() {
        assert(m + z =~= m);
    } else if q == p {
        assert(m + z =~= z);
        assert(m.len() == 0);
    } else {
        assert(m.last() == t[q - 1]);
        lemma_word_count_concat(m, z);
    }
}

} // verus!
