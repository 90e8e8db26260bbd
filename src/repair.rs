//! Best-effort repair of generated JSON text before it is parsed.
use vstd::prelude::*;
use crate::text::{is_ws, is_whitespace, chars_of, string_of};
use regex::Regex;

verus! {

/// `pat` occurs in `s` at index `p`.
pub open spec fn occurs_at(s: Seq<char>, pat: Seq<char>, p: int) -> bool {
    0 <= p && p + pat.len() <= s.len() && s.subrange(p, p + pat.len()) == pat
}

/// The last index `<= p` where `pat` occurs in `s`, or -1.
pub open spec fn last_at_or_before(s: Seq<char>, pat: Seq<char>, p: int) -> int
    decreases p + 1,
{
    if p < 0 {
        -1
    } else if occurs_at(s, pat, p) {
        p
    } else {
        last_at_or_before(s, pat, p - 1)
    }
}

/// The last index where `pat` occurs in `s`, or -1 (as `str::rfind`).
pub open spec fn rfind(s: Seq<char>, pat: Seq<char>) -> int {
    last_at_or_before(s, pat, s.len() - pat.len())
}

/// `s` without leading whitespace.
pub open spec fn trim_start(s: Seq<char>) -> Seq<char>
    decreases s.len(),
{
    if s.len() > 0 && is_ws(s[0]) {
        trim_start(s.drop_first())
    } else {
        s
    }
}

/// `s` without trailing whitespace.
pub open spec fn trim_end(s: Seq<char>) -> Seq<char>
    decreases s.len(),
{
    if s.len() > 0 && is_ws(s.last()) {
        trim_end(s.drop_last())
    } else {
        s
    }
}

pub open spec fn fence_open() -> Seq<char> {
    seq!['`', '`', '`', 'j', 's', 'o', 'n']
}

pub open spec fn fence_close() -> Seq<char> {
    seq!['`', '`', '`']
}

/// A text wrapped as "```json ... ```" loses the two fences and the
/// whitespace inside them; any other text is kept.
pub open spec fn fence_stripped(s: Seq<char>) -> Seq<char> {
    let rest = s.skip(7);
    if s.len() >= 7 && s.take(7) == fence_open() && rest.len() >= 3 && rest.skip(rest.len() - 3)
        == fence_close() {
        trim_end(trim_start(rest.take(rest.len() - 3)))
    } else {
        s
    }
}

pub open spec fn answer_key() -> Seq<char> {
    seq![',', '"', 'a', 'n', 's', 'w', 'e', 'r', '"', ':']
}

/// Before index `i` of `s`: whether that point lies inside a string
/// literal, and whether it follows a backslash inside one.
pub open spec fn string_state(s: Seq<char>, i: int) -> (bool, bool)
    decreases i,
{
    if i <= 0 || i > s.len() {
        (false, false)
    } else {
        let (inside, escaped) = string_state(s, i - 1);
        let c = s[i - 1];
        if !inside {
            (c == '"', false)
        } else if escaped {
            (true, false)
        } else if c == '\\' {
            (true, true)
        } else {
            (c != '"', false)
        }
    }
}

/// `s[j]` is a brace outside any string, right after a closing quote: the
/// end of a complete question/answer pair.
pub open spec fn closes_pair_at(s: Seq<char>, j: int) -> bool {
    1 <= j < s.len() && s[j - 1] == '"' && s[j] == '}' && !string_state(s, j).0
}

/// The last index `<= p` where a pair ends in `s`, or -1.
pub open spec fn last_pair_close(s: Seq<char>, p: int) -> int
    decreases p + 1,
{
    if p < 0 {
        -1
    } else if closes_pair_at(s, p) {
        p
    } else {
        last_pair_close(s, p - 1)
    }
}

/// Repair of a text cut off before its end. A text whose last
/// non-whitespace character is `}` is kept. Otherwise, when an answer key
/// occurs and a complete pair ends somewhere, the text is cut just after the
/// last complete pair and the array and the outer object are closed; else,
/// when `}}` occurs, the text is cut after the last such pair; else it is
/// kept.
pub open spec fn truncation_fixed(s: Seq<char>) -> Seq<char> {
    let te = trim_end(s);
    let lp = last_pair_close(s, s.len() - 1);
    let lb = rfind(s, seq!['}', '}']);
    if te.len() > 0 && te.last() == '}' {
        s
    } else if rfind(s, answer_key()) >= 0 && lp >= 0 {
        s.take(lp + 1) + seq![']', '}']
    } else if lb >= 0 {
        s.take(lb + 2)
    } else {
        s
    }
}

/// The characters from `j` on are whitespace up to a `]` or `}`.
pub open spec fn closer_follows(s: Seq<char>, j: int) -> bool
    decreases s.len() - j,
{
    if j < 0 || j >= s.len() {
        false
    } else if s[j] == ']' || s[j] == '}' {
        true
    } else if is_ws(s[j]) {
        closer_follows(s, j + 1)
    } else {
        false
    }
}

/// `s[i..]` without each comma that only whitespace separates from a
/// following `]` or `}`.
pub open spec fn commas_dropped_from(s: Seq<char>, i: int) -> Seq<char>
    decreases s.len() - i,
{
    if i < 0 || i >= s.len() {
        Seq::empty()
    } else if s[i] == ',' && closer_follows(s, i + 1) {
        commas_dropped_from(s, i + 1)
    } else {
        seq![s[i]] + commas_dropped_from(s, i + 1)
    }
}

pub open spec fn commas_dropped(s: Seq<char>) -> Seq<char> {
    commas_dropped_from(s, 0)
}

/// A newline lies at or after `j` within the run of whitespace there.
pub open spec fn newline_ahead(s: Seq<char>, j: int) -> bool
    decreases s.len() - j,
{
    if j < 0 || j >= s.len() || !is_ws(s[j]) {
        false
    } else {
        s[j] == '\n' || newline_ahead(s, j + 1)
    }
}

/// A newline lies before `j` within the run of whitespace that ends there.
pub open spec fn newline_behind(s: Seq<char>, j: int) -> bool
    decreases j,
{
    if j <= 0 || j > s.len() || !is_ws(s[j - 1]) {
        false
    } else {
        s[j - 1] == '\n' || newline_behind(s, j - 1)
    }
}

/// `s[i..]` with each maximal whitespace run that holds a newline replaced
/// by one space.
pub open spec fn newlines_collapsed_from(s: Seq<char>, i: int) -> Seq<char>
    decreases s.len() - i,
{
    if i < 0 || i >= s.len() {
        Seq::empty()
    } else if is_ws(s[i]) && (newline_ahead(s, i) || newline_behind(s, i)) {
        if newline_behind(s, i) || (i > 0 && is_ws(s[i - 1])) {
            newlines_collapsed_from(s, i + 1)
        } else {
            seq![' '] + newlines_collapsed_from(s, i + 1)
        }
    } else {
        seq![s[i]] + newlines_collapsed_from(s, i + 1)
    }
}

pub open spec fn newlines_collapsed(s: Seq<char>) -> Seq<char> {
    newlines_collapsed_from(s, 0)
}

/// Each backslash not followed by a double quote becomes `/`; everything
/// else is kept.
pub open spec fn backslashes_fixed(s: Seq<char>) -> Seq<char> {
    Seq::new(
        s.len(),
        |i: int|
            if s[i] == '\\' && !(i + 1 < s.len() && s[i + 1] == '"') {
                '/'
            } else {
                s[i]
            },
    )
}

/// The whole repair, its steps in order.
pub open spec fn repaired(s: Seq<char>) -> Seq<char> {
    backslashes_fixed(newlines_collapsed(commas_dropped(truncation_fixed(fence_stripped(s)))))
}

/// Relies on `regex::Regex::replace_all` with the pattern `,(\s*[\]}])` and
/// the replacement `$1`: each comma followed by whitespace and a closing
/// bracket or brace is removed, the rest kept.
#[verifier::external_body]
fn regex_drop_trailing_commas(s: &str) -> (r: String)
    ensures
        r@ == commas_dropped(s@),
{
    Regex::new(r",(\s*[\]}])").unwrap().replace_all(s, "$1").to_string()
}

/// Relies on `regex::Regex::replace_all` with the pattern `\s*\n\s*` and
/// the replacement ` `: each maximal whitespace run holding a newline
/// becomes one space, the rest kept.
#[verifier::external_body]
fn regex_collapse_newlines(s: &str) -> (r: String)
    ensures
        r@ == newlines_collapsed(s@),
{
    Regex::new(r"\s*\n\s*").unwrap().replace_all(s, " ").to_string()
}

/// The last index where `pat` occurs in `s`, if any.
fn find_last(s: &Vec<char>, pat: &Vec<char>) -> (r: Option<usize>)
    ensures
        r matches Some(p) ==> p as int == rfind(s@, pat@) && occurs_at(s@, pat@, p as int),
        r is None ==> rfind(s@, pat@) == -1,
{
    if pat.len() > s.len() {
        return None;
    }
    let mut q: usize = s.len() - pat.len();
    loop
        invariant
            q <= s.len() - pat.len(),
            pat.len() <= s.len(),
            rfind(s@, pat@) == last_at_or_before(s@, pat@, q as int),
        decreases q,
    {
        let mut k: usize = 0;
        while k < pat.len() && s[q + k] == pat[k]
            invariant
                q + pat.len() <= s.len(),
                k <= pat.len(),
                forall|j: int| 0 <= j < k ==> s@[q + j] == pat@[j],
            decreases pat.len() - k,
        {
            k = k + 1;
        }
        if k == pat.len() {
            assert(s@.subrange(q as int, q + pat.len()) =~= pat@);
            return Some(q);
        }
        assert(!occurs_at(s@, pat@, q as int)) by {
            if occurs_at(s@, pat@, q as int) {
                assert(s@.subrange(q as int, q + pat.len())[k as int] == s@[q + k]);
            }
        }
        if q == 0 {
            assert(last_at_or_before(s@, pat@, -1) == -1);
            return None;
        }
        q = q - 1;
    }
}

/// Strips a "```json" opening fence and a "```" closing fence, when both are
/// present, and the whitespace inside them.
pub fn strip_code_fence(text: &str) -> (r: String)
    ensures
        r@ == fence_stripped(text@),
{
    let s = chars_of(text);
    let ghost g = s@;
    let n = s.len();
    if n < 10 || s[0] != '`' || s[1] != '`' || s[2] != '`' || s[3] != 'j' || s[4] != 's'
        || s[5] != 'o' || s[6] != 'n' || s[n - 3] != '`' || s[n - 2] != '`' || s[n - 1] != '`' {
        proof {
            if n >= 10 && g.take(7) == fence_open() && g.skip(7).skip(n - 10) == fence_close() {
                assert(g.take(7)[0] == g[0] && g.take(7)[1] == g[1] && g.take(7)[2] == g[2]);
                assert(g.take(7)[3] == g[3] && g.take(7)[4] == g[4] && g.take(7)[5] == g[5]);
                assert(g.take(7)[6] == g[6]);
                assert(g.skip(7).skip(n - 10)[0] == g[n - 3]);
                assert(g.skip(7).skip(n - 10)[1] == g[n - 2]);
                assert(g.skip(7).skip(n - 10)[2] == g[n - 1]);
            }
        }
        return string_of(s.as_slice());
    }
    assert(g.take(7) =~= fence_open());
    assert(g.skip(7).skip(n - 10) =~= fence_close());
    let mut lo: usize = 7;
    while lo < n - 3 && is_whitespace(s[lo])
        invariant
            7 <= lo <= n - 3,
            n == s.len(),
            g == s@,
            trim_start(g.subrange(7, n - 3)) == trim_start(g.subrange(lo as int, n - 3)),
        decreases n - lo,
    {
        assert(g.subrange(lo as int, n - 3).drop_first() =~= g.subrange(lo + 1, n - 3));
        lo = lo + 1;
    }
    let mut hi: usize = n - 3;
    assert(trim_start(g.subrange(7, n - 3)) == g.subrange(lo as int, hi as int));
    while hi > lo && is_whitespace(s[hi - 1])
        invariant
            7 <= lo <= hi <= n - 3,
            n == s.len(),
            g == s@,
            trim_end(trim_start(g.subrange(7, n - 3))) == trim_end(g.subrange(lo as int, hi as int)),
        decreases hi,
    {
        assert(g.subrange(lo as int, hi as int).drop_last() =~= g.subrange(lo as int, hi - 1));
        hi = hi - 1;
    }
    assert(g.skip(7).take(n - 10) =~= g.subrange(7, n - 3));
    let mut v: Vec<char> = Vec::new();
    let mut k: usize = lo;
    while k < hi
        invariant
            lo <= k <= hi <= n,
            n == s.len(),
            g == s@,
            v@ == g.subrange(lo as int, k as int),
        decreases hi - k,
    {
        v.push(s[k]);
        k = k + 1;
        assert(v@ =~= g.subrange(lo as int, k as int));
    }
    string_of(v.as_slice())
}

fn char_vec(cs: &[char]) -> (r: Vec<char>)
    ensures
        r@ == cs@,
{
    let mut r: Vec<char> = Vec::new();
    let mut i: usize = 0;
    while i < cs.len()
        invariant
            i <= cs.len(),
            r@ == cs@.take(i as int),
        decreases cs.len() - i,
    {
        r.push(cs[i]);
        i = i + 1;
        assert(r@ =~= cs@.take(i as int));
    }
    r
}

/// The first `k` characters of `s`, followed by `tail`.
fn prefix_then(s: &Vec<char>, k: usize, tail: &[char]) -> (r: Vec<char>)
    requires
        k <= s.len(),
    ensures
        r@ == s@.take(k as int) + tail@,
{
    let mut r: Vec<char> = Vec::new();
    let mut i: usize = 0;
    while i < k
        invariant
            i <= k <= s.len(),
            r@ == s@.take(i as int),
        decreases k - i,
    {
        r.push(s[i]);
        i = i + 1;
        assert(r@ =~= s@.take(i as int));
    }
    let mut j: usize = 0;
    while j < tail.len()
        invariant
            j <= tail.len(),
            r@ == s@.take(k as int) + tail@.take(j as int),
        decreases tail.len() - j,
    {
        r.push(tail[j]);
        j = j + 1;
        assert(r@ =~= s@.take(k as int) + tail@.take(j as int));
    }
    assert(tail@.take(j as int) =~= tail@);
    r
}

/// The index of the brace that ends the last complete pair, if any.
fn find_last_pair_close(s: &Vec<char>) -> (r: Option<usize>)
    ensures
        r matches Some(p) ==> p as int == last_pair_close(s@, s.len() - 1) && p < s.len(),
        r is None ==> last_pair_close(s@, s.len() - 1) == -1,
{
    let n = s.len();
    let mut inside = false;
    let mut escaped = false;
    let mut last: Option<usize> = None;
    let mut i: usize = 0;
    while i < n
        invariant
            n == s.len(),
            i <= n,
            (inside, escaped) == string_state(s@, i as int),
            last matches Some(p) ==> p as int == last_pair_close(s@, i - 1) && p < i,
            last is None ==> last_pair_close(s@, i - 1) == -1,
        decreases n - i,
    {
        let c = s[i];
        if i >= 1 && s[i - 1] == '"' && c == '}' && !inside {
            last = Some(i);
        }
        assert(string_state(s@, i + 1) == (
            if !inside { (c == '"', false) } else if escaped { (true, false) } else if c == '\\' {
                (true, true)
            } else {
                (c != '"', false)
            }));
        if !inside {
            inside = c == '"';
            escaped = false;
        } else if escaped {
            escaped = false;
        } else if c == '\\' {
            escaped = true;
        } else {
            inside = c != '"';
        }
        i = i + 1;
    }
    last
}

/// Closes a text that was cut off before its end (see `truncation_fixed`).
pub fn fix_truncation(text: &str) -> (r: String)
    ensures
        r@ == truncation_fixed(text@),
{
    let s = chars_of(text);
    let ghost g = s@;
    let mut e: usize = s.len();
    assert(g.take(e as int) =~= g);
    while e > 0 && is_whitespace(s[e - 1])
        invariant
            e <= s.len(),
            g == s@,
            trim_end(g) == trim_end(g.take(e as int)),
        decreases e,
    {
        assert(g.take(e as int).drop_last() =~= g.take(e - 1));
        e = e - 1;
    }
    assert(trim_end(g.take(e as int)) == g.take(e as int));
    if e > 0 && s[e - 1] == '}' {
        return string_of(s.as_slice());
    }
    let answer: Vec<char> = vec![',', '"', 'a', 'n', 's', 'w', 'e', 'r', '"', ':'];
    let braces: Vec<char> = vec!['}', '}'];
    assert(answer@ =~= answer_key());
    assert(braces@ =~= seq!['}', '}']);
    let la = find_last(&s, &answer);
    let lp = find_last_pair_close(&s);
    if la.is_some() && lp.is_some() {
        let q = lp.unwrap();
        let closers: Vec<char> = vec![']', '}'];
        let r = prefix_then(&s, q + 1, closers.as_slice());
        assert(closers@ =~= seq![']', '}']);
        return string_of(r.as_slice());
    }
    match find_last(&s, &braces) {
        Some(b) => {
            let r = prefix_then(&s, b + 2, &[]);
            assert(r@ =~= g.take(b + 2));
            string_of(r.as_slice())
        },
        None => string_of(s.as_slice()),
    }
}

/// Removes each comma that only whitespace separates from a following `]`
/// or `}`.
pub fn remove_trailing_commas(text: &str) -> (r: String)
    ensures
        r@ == commas_dropped(text@),
{
    regex_drop_trailing_commas(text)
}

/// Replaces each whitespace run that holds a newline by one space.
pub fn collapse_newlines(text: &str) -> (r: String)
    ensures
        r@ == newlines_collapsed(text@),
{
    regex_collapse_newlines(text)
}

/// Turns each backslash that does not escape a double quote into `/`.
/// This is lossy: legitimate escapes such as `\n` or `\t` are corrupted.
pub fn fix_backslashes(text: &str) -> (r: String)
    ensures
        r@ == backslashes_fixed(text@),
{
    let s = chars_of(text);
    let n = s.len();
    let mut out: Vec<char> = Vec::new();
    let mut i: usize = 0;
    while i < n
        invariant
            n == s.len(),
            i <= n,
            out@ == backslashes_fixed(s@).take(i as int),
        decreases n - i,
    {
        let c = s[i];
        if c == '\\' && !(i + 1 < n && s[i + 1] == '"') {
            out.push('/');
        } else {
            out.push(c);
        }
        i = i + 1;
        assert(out@ =~= backslashes_fixed(s@).take(i as int));
    }
    assert(backslashes_fixed(s@).take(n as int) =~= backslashes_fixed(s@));
    string_of(out.as_slice())
}

/// Normalizes a generated reply into text that a JSON parser can take:
/// strips a code fence, closes a cut-off text, drops trailing commas,
/// collapses line breaks, and rewrites stray backslashes. Never fails.
pub fn sanitize_json(raw: &str) -> (r: String)
    ensures
        r@ == repaired(raw@),
{
    let a = strip_code_fence(raw);
    let b = fix_truncation(a.as_str());
    let c = remove_trailing_commas(b.as_str());
    let d = collapse_newlines(c.as_str());
    fix_backslashes(d.as_str())
}

proof fn lemma_collapsed_has_no_newline(s: Seq<char>, i: int)
    ensures
        !newlines_collapsed_from(s, i).contains('\n'),
    decreases s.len() - i,
{
    if 0 <= i < s.len() {
        lemma_collapsed_has_no_newline(s, i + 1);
        let rest = newlines_collapsed_from(s, i + 1);
        let r = newlines_collapsed_from(s, i);
        if is_ws(s[i]) && (newline_ahead(s, i) || newline_behind(s, i)) {
            if !(newline_behind(s, i) || (i > 0 && is_ws(s[i - 1]))) {
                assert forall|j: int| 0 <= j < r.len() implies r[j] != '\n' by {
                    if j > 0 {
                        assert(r[j] == rest[j - 1]);
                    }
                }
            }
        } else {
            assert(s[i] == '\n' ==> newline_ahead(s, i));
            assert forall|j: int| 0 <= j < r.len() implies r[j] != '\n' by {
                if j > 0 {
                    assert(r[j] == rest[j - 1]);
                }
            }
        }
    }
}

proof fn lemma_no_newline_ahead(s: Seq<char>, i: int)
    requires
        !s.contains('\n'),
    ensures
        !newline_ahead(s, i),
    decreases s.len() - i,
{
    if 0 <= i < s.len() {
        lemma_no_newline_ahead(s, i + 1);
    }
}

proof fn lemma_no_newline_behind(s: Seq<char>, i: int)
    requires
        !s.contains('\n'),
    ensures
        !newline_behind(s, i),
    decreases i,
{
    if 0 < i <= s.len() {
        lemma_no_newline_behind(s, i - 1);
    }
}

proof fn lemma_collapse_keeps(s: Seq<char>, i: int)
    requires
        !s.contains('\n'),
        0 <= i <= s.len(),
    ensures
        newlines_collapsed_from(s, i) == s.subrange(i, s.len() as int),
    decreases s.len() - i,
{
    if i < s.len() {
        lemma_collapse_keeps(s, i + 1);
        lemma_no_newline_ahead(s, i);
        lemma_no_newline_behind(s, i);
        assert(seq![s[i]] + s.subrange(i + 1, s.len() as int) =~= s.subrange(i, s.len() as int));
    }
}

/// Collapsing line breaks twice is collapsing them once.
pub proof fn lemma_collapse_idempotent(s: Seq<char>)
    ensures
        newlines_collapsed(newlines_collapsed(s)) == newlines_collapsed(s),
{
    let c = newlines_collapsed(s);
    lemma_collapsed_has_no_newline(s, 0);
    lemma_collapse_keeps(c, 0);
    assert(c.subrange(0, c.len() as int) =~= c);
}

/// Rewriting backslashes twice is rewriting them once.
pub proof fn lemma_backslashes_idempotent(s: Seq<char>)
    ensures
        backslashes_fixed(backslashes_fixed(s)) == backslashes_fixed(s),
{
    let b = backslashes_fixed(s);
    assert(backslashes_fixed(b) =~= b);
}

/// Repairing a repaired text changes nothing, whenever the fence,
/// truncation and trailing-comma steps leave that repaired text as it is.
/// (They need not: the repair of `,,]` is `,]`, whose repair is `]`.)
pub proof fn lemma_repair_idempotent(x: Seq<char>)
    requires
        fence_stripped(repaired(x)) == repaired(x),
        truncation_fixed(repaired(x)) == repaired(x),
        commas_dropped(repaired(x)) == repaired(x),
    ensures
        repaired(repaired(x)) == repaired(x),
{
    let y = repaired(x);
    let c = newlines_collapsed(commas_dropped(truncation_fixed(fence_stripped(x))));
    lemma_collapsed_has_no_newline(commas_dropped(truncation_fixed(fence_stripped(x))), 0);
    assert(!y.contains('\n')) by {
        assert forall|j: int| 0 <= j < y.len() implies y[j] != '\n' by {
            assert(c[j] != '\n');
        }
    }
    lemma_collapse_keeps(y, 0);
    assert(y.subrange(0, y.len() as int) =~= y);
    lemma_backslashes_idempotent(c);
}

/// `s[i]` is a comma that only whitespace separates from a following `]`
/// or `}`.
pub open spec fn trailing_comma_at(s: Seq<char>, i: int) -> bool {
    0 <= i < s.len() && s[i] == ',' && closer_follows(s, i + 1)
}

proof fn lemma_drop_none_after(s: Seq<char>, k: int)
    requires
        0 <= k <= s.len(),
        forall|j: int| k <= j < s.len() ==> !trailing_comma_at(s, j),
    ensures
        commas_dropped_from(s, k) == s.subrange(k, s.len() as int),
    decreases s.len() - k,
{
    if k < s.len() {
        assert(!trailing_comma_at(s, k));
        lemma_drop_none_after(s, k + 1);
        assert(seq![s[k]] + s.subrange(k + 1, s.len() as int) =~= s.subrange(k, s.len() as int));
    }
}

proof fn lemma_drop_one_from(s: Seq<char>, i: int, k: int)
    requires
        0 <= k <= i < s.len(),
        trailing_comma_at(s, i),
        forall|j: int| 0 <= j < s.len() && j != i ==> !trailing_comma_at(s, j),
    ensures
        commas_dropped_from(s, k) == s.subrange(k, i) + s.subrange(i + 1, s.len() as int),
    decreases i - k,
{
    if k == i {
        lemma_drop_none_after(s, i + 1);
        assert(s.subrange(k, i) =~= Seq::<char>::empty());
        assert(Seq::<char>::empty() + s.subrange(i + 1, s.len() as int) =~= s.subrange(i + 1, s.len() as int));
    } else {
        assert(!trailing_comma_at(s, k));
        lemma_drop_one_from(s, i, k + 1);
        assert(seq![s[k]] + (s.subrange(k + 1, i) + s.subrange(i + 1, s.len() as int))
            =~= s.subrange(k, i) + s.subrange(i + 1, s.len() as int));
    }
}

/// A text with a single trailing comma loses exactly that comma in the
/// trailing-comma step, and nothing else.
pub proof fn lemma_single_trailing_comma(s: Seq<char>, i: int)
    requires
        trailing_comma_at(s, i),
        forall|j: int| 0 <= j < s.len() && j != i ==> !trailing_comma_at(s, j),
    ensures
        commas_dropped(s) == s.remove(i),
{
    lemma_drop_one_from(s, i, 0);
    assert(s.subrange(0, i) + s.subrange(i + 1, s.len() as int) =~= s.remove(i));
}

proof fn lemma_rfind_at_least(s: Seq<char>, pat: Seq<char>, p: int, start: int)
    requires
        occurs_at(s, pat, p),
        p <= start,
    ensures
        last_at_or_before(s, pat, start) >= p,
    decreases start - p,
{
    if start > p && !occurs_at(s, pat, start) {
        lemma_rfind_at_least(s, pat, p, start - 1);
    }
}

proof fn lemma_last_pair_close_is(s: Seq<char>, q: int, start: int)
    requires
        closes_pair_at(s, q),
        q <= start,
        forall|j: int| q < j <= start ==> !closes_pair_at(s, j),
    ensures
        last_pair_close(s, start) == q,
    decreases start - q,
{
    if start > q {
        lemma_last_pair_close_is(s, q, start - 1);
    }
}

proof fn lemma_state_prefix(x: Seq<char>, y: Seq<char>, k: int)
    requires
        0 <= k <= x.len(),
    ensures
        string_state(x + y, k) == string_state(x, k),
    decreases k,
{
    if k > 0 {
        lemma_state_prefix(x, y, k - 1);
    }
}

proof fn lemma_state_shift(x: Seq<char>, y: Seq<char>, k: int)
    requires
        string_state(x + y, x.len() as int) == (false, false),
        0 <= k <= y.len(),
    ensures
        string_state(x + y, x.len() + k) == string_state(y, k),
    decreases k,
{
    if k > 0 {
        lemma_state_shift(x, y, k - 1);
        assert((x + y)[x.len() + k - 1] == y[k - 1]);
    }
}

proof fn lemma_state_in_plain(s: Seq<char>, i: int, k: int)
    requires
        0 <= i,
        0 <= k,
        i + k <= s.len(),
        string_state(s, i) == (true, false),
        forall|m: int| i <= m < i + k ==> s[m] != '"' && s[m] != '\\',
    ensures
        string_state(s, i + k) == (true, false),
    decreases k,
{
    if k > 0 {
        lemma_state_in_plain(s, i, k - 1);
    }
}

/// A question/answer pair as compact JSON, with its two strings as given.
pub open spec fn pair_text(q: Seq<char>, a: Seq<char>) -> Seq<char> {
    seq!['{', '"', 'q', 'u', 'e', 's', 't', 'i', 'o', 'n', '"', ':', '"'] + q
        + seq!['"', ',', '"', 'a', 'n', 's', 'w', 'e', 'r', '"', ':', '"'] + a + seq!['"', '}']
}

/// A string without quotes or backslashes, as JSON writes one verbatim.
pub open spec fn plain(q: Seq<char>) -> bool {
    forall|m: int| 0 <= m < q.len() ==> q[m] != '"' && q[m] != '\\'
}

proof fn lemma_whole_pair_closes_last(q: Seq<char>, a: Seq<char>)
    requires
        plain(q),
        plain(a),
    ensures
        forall|j: int| j < pair_text(q, a).len() ==> !closes_pair_at(seq![','] + pair_text(q, a), j),
{
    let u = seq![','] + pair_text(q, a);
    let lq = q.len() as int;
    let la = a.len() as int;
    let qe = 14 + lq;
    let ae = 26 + lq + la;
    assert(string_state(u, 0) == (false, false));
    assert(u[0] == ',');
    assert(string_state(u, 1) == (false, false));
    assert(u[1] == '{');
    assert(string_state(u, 2) == (false, false));
    assert(u[2] == '"');
    assert(string_state(u, 3) == (true, false));
    assert(u[3] == 'q');
    assert(string_state(u, 4) == (true, false));
    assert(u[4] == 'u');
    assert(string_state(u, 5) == (true, false));
    assert(u[5] == 'e');
    assert(string_state(u, 6) == (true, false));
    assert(u[6] == 's');
    assert(string_state(u, 7) == (true, false));
    assert(u[7] == 't');
    assert(string_state(u, 8) == (true, false));
    assert(u[8] == 'i');
    assert(string_state(u, 9) == (true, false));
    assert(u[9] == 'o');
    assert(string_state(u, 10) == (true, false));
    assert(u[10] == 'n');
    assert(string_state(u, 11) == (true, false));
    assert(u[11] == '"');
    assert(string_state(u, 12) == (false, false));
    assert(u[12] == ':');
    assert(string_state(u, 13) == (false, false));
    assert(u[13] == '"');
    assert(string_state(u, 14) == (true, false));
    assert forall|m: int| 14 <= m < qe implies u[m] != '"' && u[m] != '\\' by {
        assert(u[m] == q[m - 14]);
    }
    assert forall|m: int| 14 <= m <= qe implies string_state(u, m) == (true, false) by {
        lemma_state_in_plain(u, 14, m - 14);
    }
    lemma_state_in_plain(u, 14, lq);
    assert(string_state(u, qe) == (true, false));
    assert(u[qe + 0] == '"');
    assert(string_state(u, qe + 1) == (false, false));
    assert(u[qe + 1] == ',');
    assert(string_state(u, qe + 2) == (false, false));
    assert(u[qe + 2] == '"');
    assert(string_state(u, qe + 3) == (true, false));
    assert(u[qe + 3] == 'a');
    assert(string_state(u, qe + 4) == (true, false));
    assert(u[qe + 4] == 'n');
    assert(string_state(u, qe + 5) == (true, false));
    assert(u[qe + 5] == 's');
    assert(string_state(u, qe + 6) == (true, false));
    assert(u[qe + 6] == 'w');
    assert(string_state(u, qe + 7) == (true, false));
    assert(u[qe + 7] == 'e');
    assert(string_state(u, qe + 8) == (true, false));
    assert(u[qe + 8] == 'r');
    assert(string_state(u, qe + 9) == (true, false));
    assert(u[qe + 9] == '"');
    assert(string_state(u, qe + 10) == (false, false));
    assert(u[qe + 10] == ':');
    assert(string_state(u, qe + 11) == (false, false));
    assert(u[qe + 11] == '"');
    assert(string_state(u, qe + 12) == (true, false));
    assert forall|m: int| qe + 12 <= m < ae implies u[m] != '"' && u[m] != '\\' by {
        assert(u[m] == a[m - qe - 12]);
    }
    assert forall|m: int| qe + 12 <= m <= ae implies string_state(u, m) == (true, false) by {
        lemma_state_in_plain(u, qe + 12, m - qe - 12);
    }
    assert(u[ae] == '"');
    assert forall|j: int| j < pair_text(q, a).len() implies !closes_pair_at(u, j) by {
        if closes_pair_at(u, j) {
            if j < 14 {
            } else if j < qe {
                assert(string_state(u, j) == (true, false));
            } else if j < qe + 12 {
            } else if j < ae {
                assert(string_state(u, j) == (true, false));
            } else {
                assert(j == ae);
            }
        }
    }
}

/// A reply cut off inside a pair keeps every complete pair before it: when
/// `head` holds an answer key and ends, outside any string, with the `"}`
/// of a pair, and what follows is a comma and a pair (with plain strings)
/// cut off before its last brace, the repair is `head` with the array and
/// the object closed.
pub proof fn lemma_truncation_keeps_complete_pairs(head: Seq<char>, q: Seq<char>, a: Seq<char>, n: int, p: int)
    requires
        head.len() >= 2,
        head[head.len() - 2] == '"',
        head[head.len() - 1] == '}',
        !string_state(head, head.len() - 1).0,
        occurs_at(head, answer_key(), p),
        plain(q),
        plain(a),
        0 <= n < pair_text(q, a).len(),
        !(trim_end(head + (seq![','] + pair_text(q, a).take(n))).len() > 0
            && trim_end(head + (seq![','] + pair_text(q, a).take(n))).last() == '}'),
    ensures
        truncation_fixed(head + (seq![','] + pair_text(q, a).take(n))) == head + seq![']', '}'],
{
    let u = seq![','] + pair_text(q, a);
    let tail = seq![','] + pair_text(q, a).take(n);
    let s = head + tail;
    let h = head.len() as int;
    assert(tail =~= u.take(n + 1));
    assert(u =~= tail + u.skip(n + 1));
    lemma_whole_pair_closes_last(q, a);
    lemma_state_prefix(head, tail, h - 1);
    lemma_state_prefix(head, tail, h);
    assert(closes_pair_at(s, h - 1));
    assert(string_state(s, h) == (false, false));
    assert forall|j: int| h - 1 < j <= s.len() - 1 implies !closes_pair_at(s, j) by {
        if j > h {
            lemma_state_shift(head, tail, j - h);
            lemma_state_prefix(tail, u.skip(n + 1), j - h);
            if closes_pair_at(s, j) {
                assert(s[j - 1] == tail[j - h - 1] && s[j] == tail[j - h]);
                assert(tail[j - h - 1] == u[j - h - 1] && tail[j - h] == u[j - h]);
                assert(closes_pair_at(u, j - h));
            }
        }
    }
    lemma_last_pair_close_is(s, h - 1, s.len() - 1);
    assert(s.subrange(p, p + 10) =~= head.subrange(p, p + 10));
    lemma_rfind_at_least(s, answer_key(), p, s.len() - answer_key().len());
    assert(s.take(h) =~= head);
}

/// A reply whose only flaw is one trailing comma is repaired by removing
/// exactly that comma: when it has no opening fence, ends in `}`, holds no
/// newline, and each of its backslashes escapes a double quote, the repair
/// changes nothing else.
pub proof fn lemma_repair_single_trailing_comma(x: Seq<char>, i: int)
    requires
        !(x.len() >= 7 && x.take(7) == fence_open()),
        trim_end(x).len() > 0 && trim_end(x).last() == '}',
        !x.contains('\n'),
        forall|m: int| 0 <= m < x.len() && #[trigger] x[m] == '\\' ==> m + 1 < x.len() && x[m + 1] == '"',
        trailing_comma_at(x, i),
        forall|j: int| 0 <= j < x.len() && j != i ==> !trailing_comma_at(x, j),
    ensures
        repaired(x) == x.remove(i),
{
    assert(fence_stripped(x) == x);
    assert(truncation_fixed(x) == x);
    lemma_single_trailing_comma(x, i);
    let y = x.remove(i);
    assert(!y.contains('\n')) by {
        assert forall|m: int| 0 <= m < y.len() implies y[m] != '\n' by {
            if m < i {
                assert(y[m] == x[m]);
            } else {
                assert(y[m] == x[m + 1]);
            }
        }
    }
    lemma_collapse_keeps(y, 0);
    assert(y.subrange(0, y.len() as int) =~= y);
    assert forall|m: int| 0 <= m < y.len() && #[trigger] y[m] == '\\' implies m + 1 < y.len() && y[m + 1] == '"' by {
        if m < i - 1 {
            assert(y[m] == x[m] && y[m + 1] == x[m + 1]);
        } else if m == i - 1 {
            assert(y[m] == x[m]);
            assert(x[i] == ',');
        } else {
            assert(y[m] == x[m + 1]);
            assert(y[m + 1] == x[m + 2]);
        }
    }
    assert(backslashes_fixed(y) =~= y);
}

} // verus!
