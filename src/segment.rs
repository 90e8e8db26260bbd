//! Splitting text into ordered chunks at line boundaries.
use vstd::prelude::*;
use crate::text::{is_ws, all_ws, is_whitespace, chars_of, string_of, word_count, lemma_word_count_span};
use regex::Regex;

verus! {

/// Where a new chunk may begin.
#[derive(Clone, Copy, Debug, PartialEq, Eq, Structural)]
pub enum Strategy {
    /// Never: the whole text is one chunk.
    Whole,
    /// At each line that starts with `#`.
    ByHeading,
    /// At each line that starts with `# ` or `## ` (a top-level section).
    BySection,
    /// At the second of two or more consecutive blank lines.
    ByParagraph,
}

/// `p` is the first index of a line of `t`.
pub open spec fn is_line_start(t: Seq<char>, p: int) -> bool {
    0 <= p <= t.len() && (p == 0 || t[p - 1] == '\n')
}

/// The index just past the line that starts at `p` (past its `\n`, if any).
pub open spec fn line_end(t: Seq<char>, p: int) -> int
    decreases t.len() - p,
{
    if p >= t.len() {
        t.len() as int
    } else if t[p] == '\n' {
        p + 1
    } else {
        line_end(t, p + 1)
    }
}

/// The first index of the line that holds index `i - 1` (0 for `i <= 0`).
pub open spec fn line_start_of(t: Seq<char>, i: int) -> int
    decreases i,
{
    if i <= 0 {
        0
    } else if t[i - 1] == '\n' {
        i
    } else {
        line_start_of(t, i - 1)
    }
}

/// The end of the line at `p` without its terminator (`\n` or `\r\n`).
pub open spec fn body_end(t: Seq<char>, p: int) -> int {
    let e = line_end(t, p);
    if e > p && t[e - 1] == '\n' {
        if e - 1 > p && t[e - 2] == '\r' { e - 2 } else { e - 1 }
    } else {
        e
    }
}

/// A line (without terminator) that opens a top-level section: `#` or
/// `##` followed by whitespace.
pub open spec fn section_heading(l: Seq<char>) -> bool {
    (l.len() >= 2 && l[0] == '#' && is_ws(l[1]))
        || (l.len() >= 3 && l[0] == '#' && l[1] == '#' && is_ws(l[2]))
}

/// The line of `t` starting at `p` may open a chunk under `s`.
pub open spec fn starts_chunk(t: Seq<char>, p: int, s: Strategy) -> bool {
    match s {
        Strategy::Whole => false,
        Strategy::ByHeading => t[p] == '#',
        Strategy::BySection => section_heading(t.subrange(p, body_end(t, p))),
        Strategy::ByParagraph => p > 0 && all_ws(t.subrange(p, line_end(t, p))) && all_ws(
            t.subrange(line_start_of(t, p - 1), p),
        ),
    }
}

/// `p` is an interior line start of `t` where `s` may open a chunk.
pub open spec fn breaks_at(t: Seq<char>, p: int, s: Strategy) -> bool {
    0 < p < t.len() && is_line_start(t, p) && starts_chunk(t, p, s)
}

/// Every place inside `t[a..b]` where a chunk could open is preceded, within
/// the span, by whitespace only.
pub open spec fn no_break_inside(t: Seq<char>, a: int, b: int, s: Strategy) -> bool {
    forall|q: int| a < q < b && #[trigger] breaks_at(t, q, s) ==> all_ws(t.subrange(a, q))
}

/// Like `no_break_inside` for the span `t[a..]` that ends the text, where a
/// whitespace-only tail is also kept in the span.
pub open spec fn no_break_in_tail(t: Seq<char>, a: int, s: Strategy) -> bool {
    forall|q: int|
        a < q < t.len() && #[trigger] breaks_at(t, q, s) ==> all_ws(t.subrange(a, q)) || all_ws(
            t.subrange(q, t.len() as int),
        )
}

/// `b` lists the start of each chunk of `t` under `s`, then `t.len()`.
#[verifier::opaque]
pub open spec fn chunk_bounds(t: Seq<char>, b: Seq<usize>, s: Strategy) -> bool {
    &&& b.len() >= 2
    &&& b[0] == 0
    &&& b[b.len() - 1] == t.len()
    &&& forall|i: int| 0 <= i < b.len() - 1 ==> #[trigger] b[i] <= b[i + 1]
    &&& b.len() > 2 ==> forall|i: int|
        0 <= i < b.len() - 1 ==> !all_ws(#[trigger] t.subrange(b[i] as int, b[i + 1] as int))
    &&& forall|i: int| 0 < i < b.len() - 1 ==> breaks_at(t, #[trigger] b[i] as int, s)
    &&& forall|i: int|
        0 <= i < b.len() - 2 ==> no_break_inside(t, #[trigger] b[i] as int, b[i + 1] as int, s)
    &&& no_break_in_tail(t, b[b.len() - 2] as int, s)
}

/// The concatenation of a sequence of chunks.
pub open spec fn joined(cs: Seq<Seq<char>>) -> Seq<char> {
    cs.flatten_alt()
}

/// Where chunk `i` of `cs` starts in their concatenation.
pub open spec fn offset(cs: Seq<Seq<char>>, i: int) -> int {
    joined(cs.take(i)).len() as int
}

/// `cs` is the segmentation of `t` under `s`: the chunks concatenate to `t`,
/// none is whitespace only unless it is the only one, each after the first
/// opens where `s` allows, and each runs as far as it can: it is cut at the
/// first place where `s` allows a cut after some non-whitespace, and a final
/// whitespace-only tail stays with the last chunk.
#[verifier::opaque]
pub open spec fn is_segmentation(t: Seq<char>, cs: Seq<Seq<char>>, s: Strategy) -> bool {
    &&& cs.len() >= 1
    &&& joined(cs) == t
    &&& cs.len() > 1 ==> forall|i: int| 0 <= i < cs.len() ==> !all_ws(#[trigger] cs[i])
    &&& forall|i: int| 0 < i < cs.len() ==> breaks_at(t, #[trigger] offset(cs, i), s)
    &&& forall|i: int|
        0 <= i < cs.len() - 1 ==> no_break_inside(t, #[trigger] offset(cs, i), offset(cs, i + 1), s)
    &&& no_break_in_tail(t, offset(cs, cs.len() - 1), s)
}

/// Each chunk of `cs` is the span of `t` between its offset and the next.
pub open spec fn chunks_in_place(t: Seq<char>, cs: Seq<Seq<char>>) -> bool {
    forall|i: int| 0 <= i < cs.len() ==> #[trigger] cs[i] == t.subrange(offset(cs, i), offset(cs, i + 1))
}

proof fn lemma_all_ws_split(t: Seq<char>, a: int, m: int, b: int)
    requires
        0 <= a <= m <= b <= t.len(),
    ensures
        all_ws(t.subrange(a, b)) <==> all_ws(t.subrange(a, m)) && all_ws(t.subrange(m, b)),
{
    if all_ws(t.subrange(a, m)) && all_ws(t.subrange(m, b)) {
        assert forall|i: int| 0 <= i < b - a implies is_ws(#[trigger] t.subrange(a, b)[i]) by {
            if i < m - a {
                assert(t.subrange(a, m)[i] == t[a + i]);
            } else {
                assert(t.subrange(m, b)[i - (m - a)] == t[a + i]);
            }
        }
    }
    if all_ws(t.subrange(a, b)) {
        assert forall|i: int| 0 <= i < m - a implies is_ws(#[trigger] t.subrange(a, m)[i]) by {
            assert(t.subrange(a, b)[i] == t[a + i]);
        }
        assert forall|i: int| 0 <= i < b - m implies is_ws(#[trigger] t.subrange(m, b)[i]) by {
            assert(t.subrange(a, b)[i + (m - a)] == t[m + i]);
        }
    }
}

proof fn lemma_all_ws_one(t: Seq<char>, k: int)
    requires
        0 <= k < t.len(),
    ensures
        all_ws(t.subrange(k, k + 1)) == is_ws(t[k]),
{
    assert(t.subrange(k, k + 1)[0] == t[k]);
}

proof fn lemma_line_end(t: Seq<char>, p: int, e: int)
    requires
        0 <= p <= e <= t.len(),
        forall|j: int| p <= j < e ==> t[j] != '\n',
        e == t.len() || t[e] == '\n',
    ensures
        line_end(t, p) == if e == t.len() { e } else { e + 1 },
    decreases e - p,
{
    if p < e {
        lemma_line_end(t, p + 1, e);
    }
}

proof fn lemma_line_start_of(t: Seq<char>, p: int, i: int)
    requires
        0 <= p <= i <= t.len(),
        p == 0 || t[p - 1] == '\n',
        forall|j: int| p <= j < i ==> t[j] != '\n',
    ensures
        line_start_of(t, i) == p,
    decreases i - p,
{
    if p < i {
        lemma_line_start_of(t, p, i - 1);
    }
}

/// Relies on `regex::Regex::is_match` for the pattern `(?m)^#\s|^##\s`: on a
/// text without `\n` it matches exactly when the text starts with `#` or
/// `##` followed by a whitespace character.
#[verifier::external_body]
fn matches_section_heading(line: &str) -> (r: bool)
    requires
        !line@.contains('\n'),
    ensures
        r == section_heading(line@),
{
    Regex::new(r"(?m)^#\s|^##\s").unwrap().is_match(line)
}

/// The end of the line at `pos` (the index of its `\n`, or the text's
/// length) and whether the line is whitespace only.
fn scan_line(t: &Vec<char>, pos: usize) -> (r: (usize, bool))
    requires
        pos < t.len(),
    ensures
        pos <= r.0 <= t.len(),
        forall|j: int| pos <= j < r.0 ==> t@[j] != '\n',
        r.0 == t.len() || t@[r.0 as int] == '\n',
        r.1 == all_ws(t@.subrange(pos as int, r.0 as int)),
{
    let n = t.len();
    let mut k: usize = pos;
    let mut blank = true;
    while k < n && t[k] != '\n'
        invariant
            n == t.len(),
            pos <= k <= n,
            forall|j: int| pos <= j < k ==> t@[j] != '\n',
            blank == all_ws(t@.subrange(pos as int, k as int)),
        decreases n - k,
    {
        proof {
            lemma_all_ws_split(t@, pos as int, k as int, k + 1);
            lemma_all_ws_one(t@, k as int);
        }
        blank = blank && is_whitespace(t[k]);
        k = k + 1;
    }
    (k, blank)
}

/// Whether the line `t[pos..e]` opens a top-level section; `body` is its
/// end without terminator.
fn opens_section(t: &Vec<char>, pos: usize, body: usize) -> (r: bool)
    requires
        pos <= body <= t.len(),
        forall|j: int| pos <= j < body ==> t@[j] != '\n',
    ensures
        r == section_heading(t@.subrange(pos as int, body as int)),
{
    let mut lv: Vec<char> = Vec::new();
    let mut j: usize = pos;
    while j < body
        invariant
            pos <= j <= body <= t.len(),
            lv@ == t@.subrange(pos as int, j as int),
        decreases body - j,
    {
        lv.push(t[j]);
        j = j + 1;
        assert(lv@ =~= t@.subrange(pos as int, j as int));
    }
    let ls = string_of(lv.as_slice());
    assert(!ls@.contains('\n')) by {
        assert forall|x: int| 0 <= x < ls@.len() implies ls@[x] != '\n' by {
            assert(ls@[x] == t@[pos + x]);
        }
    }
    matches_section_heading(ls.as_str())
}

/// Extends a span that cannot be cut inside by a line in which no chunk
/// can open but at its start.
proof fn lemma_no_break_extend(g: Seq<char>, l: int, pos: int, e: int, s: Strategy)
    requires
        0 <= l <= pos < e <= g.len(),
        no_break_inside(g, l, pos, s),
        forall|j: int| pos <= j < e - 1 ==> g[j] != '\n',
        l < pos && breaks_at(g, pos, s) ==> all_ws(g.subrange(l, pos)),
    ensures
        no_break_inside(g, l, e, s),
{
    assert forall|q: int| l < q < e && #[trigger] breaks_at(g, q, s) implies all_ws(g.subrange(l, q)) by {
        if q > pos {
            assert(g[q - 1] != '\n');
        }
    }
}

/// The chunk boundaries of `t` under `s`.
fn split_bounds(t: &Vec<char>, s: Strategy) -> (b: Vec<usize>)
    ensures
        chunk_bounds(t@, b@, s),
        b.len() >= 2,
        b[0] == 0,
        b[b.len() - 1] == t.len(),
        forall|i: int| 0 <= i < b.len() - 1 ==> #[trigger] b[i] <= b[i + 1],
        forall|i: int| 0 <= i < b.len() ==> #[trigger] b[i] <= t.len(),
{
    reveal(chunk_bounds);
    let ghost g = t@;
    let n = t.len();
    let mut b: Vec<usize> = Vec::new();
    b.push(0);
    let mut pos: usize = 0;
    let mut cur_nonblank = false;
    let mut prev_blank = false;
    while pos < n
        invariant
            g == t@,
            n == t.len(),
            pos <= n,
            pos == n || is_line_start(g, pos as int),
            b.len() >= 1,
            b[0] == 0,
            b[b.len() - 1] <= pos,
            forall|i: int| 0 <= i < b.len() ==> #[trigger] b[i] <= pos,
            forall|i: int| 0 <= i < b.len() - 1 ==> #[trigger] b[i] < b[i + 1],
            forall|i: int|
                0 <= i < b.len() - 1 ==> !all_ws(#[trigger] g.subrange(b[i] as int, b[i + 1] as int)),
            forall|i: int| 0 < i < b.len() ==> breaks_at(g, #[trigger] b[i] as int, s),
            forall|i: int|
                0 <= i < b.len() - 1 ==> no_break_inside(g, #[trigger] b[i] as int, b[i + 1] as int, s),
            no_break_inside(g, b[b.len() - 1] as int, pos as int, s),
            cur_nonblank == !all_ws(g.subrange(b[b.len() - 1] as int, pos as int)),
            prev_blank == (pos > 0 && all_ws(g.subrange(line_start_of(g, pos - 1), pos as int))),
        decreases n - pos,
    {
        let (k, blank) = scan_line(t, pos);
        proof {
            lemma_line_end(g, pos as int, k as int);
        }
        let body: usize = if k < n && k > pos && t[k - 1] == '\r' { k - 1 } else { k };
        let e: usize = if k < n { k + 1 } else { k };
        proof {
            if k < n {
                lemma_all_ws_split(g, pos as int, k as int, e as int);
                lemma_all_ws_one(g, k as int);
            }
            assert(g.subrange(pos as int, e as int) == g.subrange(pos as int, line_end(g, pos as int)));
        }
        let line_blank = blank;
        let opens = match s {
            Strategy::Whole => false,
            Strategy::ByHeading => t[pos] == '#',
            Strategy::BySection => opens_section(t, pos, body),
            Strategy::ByParagraph => pos > 0 && line_blank && prev_blank,
        };
        assert(opens == starts_chunk(g, pos as int, s));
        if opens && cur_nonblank {
            b.push(pos);
            assert(breaks_at(g, pos as int, s));
            cur_nonblank = false;
        }
        proof {
            let l2 = b[b.len() - 1] as int;
            lemma_all_ws_split(g, l2, pos as int, e as int);
            if l2 == pos {
                assert(no_break_inside(g, l2, pos as int, s));
            }
            lemma_no_break_extend(g, l2, pos as int, e as int, s);
            lemma_line_start_of(g, pos as int, e - 1);
        }
        cur_nonblank = cur_nonblank || !line_blank;
        prev_blank = line_blank;
        pos = e;
    }
    let ghost old_b = b@;
    let ghost l = b[b.len() - 1] as int;
    if !cur_nonblank && b.len() > 1 {
        b.pop();
        proof {
            let l2 = b[b.len() - 1] as int;
            assert(old_b[old_b.len() - 2] == l2);
            lemma_all_ws_split(g, l2, l, n as int);
            assert forall|q: int| l2 < q < n && #[trigger] breaks_at(g, q, s) implies all_ws(
                g.subrange(l2, q),
            ) || all_ws(g.subrange(q, n as int)) by {
                if q > l {
                    lemma_all_ws_split(g, l, q, n as int);
                }
            }
        }
    }
    b.push(n);
    proof {
        assert(forall|i: int| 0 <= i < b.len() - 1 ==> #[trigger] b[i] <= b[i + 1]);
        assert(forall|i: int| 0 <= i < b.len() ==> #[trigger] b[i] <= n);
        assert(b@.drop_last() == old_b || b@.drop_last() == old_b.drop_last());
        assert forall|i: int| 0 <= i < b.len() - 2 implies no_break_inside(g, #[trigger] b[i] as int, b[i + 1] as int, s) by {
            assert(b[i] == old_b[i] && b[i + 1] == old_b[i + 1]);
        }
    }
    b
}

proof fn lemma_joined_push(cs: Seq<Seq<char>>, x: Seq<char>)
    ensures
        joined(cs.push(x)) == joined(cs) + x,
{
    assert(cs.push(x).drop_last() =~= cs);
}

proof fn lemma_joined_prefixes(
    old_cs: Seq<Seq<char>>,
    x: Seq<char>,
    g: Seq<char>,
    b: Seq<usize>,
    i: int,
)
    requires
        old_cs.len() == i,
        0 <= i < b.len() - 1,
        b[i] <= b[i + 1] <= g.len(),
        x == g.subrange(b[i] as int, b[i + 1] as int),
        forall|j: int| 0 <= j <= i ==> #[trigger] joined(old_cs.take(j)) == g.subrange(0, b[j] as int),
    ensures
        forall|j: int|
            0 <= j <= i + 1 ==> #[trigger] joined(old_cs.push(x).take(j)) == g.subrange(0, b[j] as int),
{
    let cs = old_cs.push(x);
    assert forall|j: int| 0 <= j <= i + 1 implies #[trigger] joined(cs.take(j)) == g.subrange(0, b[j] as int) by {
        if j <= i {
            assert(cs.take(j) =~= old_cs.take(j));
        } else {
            assert(cs.take(j) =~= cs);
            assert(old_cs.take(i) =~= old_cs);
            assert(joined(old_cs.take(i)) == g.subrange(0, b[i] as int));
            lemma_joined_push(old_cs, x);
            assert(g.subrange(0, b[j] as int) =~= g.subrange(0, b[i] as int) + x);
        }
    }
}

proof fn lemma_bounds_segmentation(g: Seq<char>, b: Seq<usize>, cs: Seq<Seq<char>>, s: Strategy)
    requires
        chunk_bounds(g, b, s),
        cs.len() == b.len() - 1,
        forall|j: int| 0 <= j < cs.len() ==> #[trigger] cs[j] == g.subrange(b[j] as int, b[j + 1] as int),
        forall|j: int| 0 <= j <= cs.len() ==> #[trigger] joined(cs.take(j)) == g.subrange(0, b[j] as int),
    ensures
        is_segmentation(g, cs, s),
        chunks_in_place(g, cs),
{
    reveal(chunk_bounds);
    reveal(is_segmentation);
    let m = cs.len() as int;
    assert(cs.take(m) =~= cs);
    assert(g.subrange(0, g.len() as int) =~= g);
    assert forall|j: int| 0 <= j <= m implies #[trigger] offset(cs, j) == b[j] as int by {
    }
    assert forall|j: int| 0 <= j < m implies #[trigger] cs[j] == g.subrange(offset(cs, j), offset(cs, j + 1)) by {
        assert(offset(cs, j) == b[j] as int);
        assert(offset(cs, j + 1) == b[j + 1] as int);
    }
}

/// The chunks of `text` under `s`, in order.
pub fn split(text: &str, s: Strategy) -> (r: Vec<String>)
    ensures
        is_segmentation(text@, r@.map_values(|c: String| c@), s),
        chunks_in_place(text@, r@.map_values(|c: String| c@)),
        r.len() >= 1,
        joined(r@.map_values(|c: String| c@)) == text@,
{
    let t = chars_of(text);
    let ghost g = t@;
    let b = split_bounds(&t, s);
    let mut r: Vec<String> = Vec::new();
    let ghost mut cs: Seq<Seq<char>> = Seq::empty();
    let mut i: usize = 0;
    assert(cs.take(0) =~= cs);
    while i < b.len() - 1
        invariant
            g == t@,
            g == text@,
            chunk_bounds(g, b@, s),
            b.len() >= 2,
            b[0] == 0,
            forall|k: int| 0 <= k < b.len() - 1 ==> #[trigger] b[k] <= b[k + 1],
            forall|k: int| 0 <= k < b.len() ==> #[trigger] b[k] <= g.len(),
            i <= b.len() - 1,
            cs.len() == i,
            r@.map_values(|c: String| c@) == cs,
            forall|j: int| 0 <= j < i ==> #[trigger] cs[j] == g.subrange(b[j] as int, b[j + 1] as int),
            forall|j: int| 0 <= j <= i ==> #[trigger] joined(cs.take(j)) == g.subrange(0, b[j] as int),
        decreases b.len() - 1 - i,
    {
        let lo = b[i];
        let hi = b[i + 1];
        assert(lo <= hi <= g.len()) by {
            assert(b[i as int] <= b[i + 1]);
            assert(b[i + 1] <= g.len());
        }
        let mut v: Vec<char> = Vec::new();
        let mut k: usize = lo;
        while k < hi
            invariant
                g == t@,
                lo <= k <= hi <= g.len(),
                v@ == g.subrange(lo as int, k as int),
            decreases hi - k,
        {
            v.push(t[k]);
            k = k + 1;
            assert(v@ =~= g.subrange(lo as int, k as int));
        }
        let c = string_of(v.as_slice());
        let ghost old_cs = cs;
        r.push(c);
        proof {
            cs = cs.push(c@);
            assert(r@.map_values(|c: String| c@) =~= cs);
            lemma_joined_prefixes(old_cs, c@, g, b@, i as int);
        }
        i = i + 1;
    }
    proof {
        lemma_bounds_segmentation(g, b@, cs, s);
        reveal(is_segmentation);
    }
    r
}

/// The chunks of `text`, a new one at each line that starts with `#`.
pub fn split_by_headings(text: &str) -> (r: Vec<String>)
    ensures
        is_segmentation(text@, r@.map_values(|c: String| c@), Strategy::ByHeading),
        chunks_in_place(text@, r@.map_values(|c: String| c@)),
{
    split(text, Strategy::ByHeading)
}

/// The chunks of `text`, a new one at each second blank line in a row.
pub fn split_by_paragraphs(text: &str) -> (r: Vec<String>)
    ensures
        is_segmentation(text@, r@.map_values(|c: String| c@), Strategy::ByParagraph),
        chunks_in_place(text@, r@.map_values(|c: String| c@)),
{
    split(text, Strategy::ByParagraph)
}

/// The top-level sections of a document: a new one at each line that starts
/// with `# ` or `## `.
pub fn split_into_sections(text: &str) -> (r: Vec<String>)
    ensures
        is_segmentation(text@, r@.map_values(|c: String| c@), Strategy::BySection),
        chunks_in_place(text@, r@.map_values(|c: String| c@)),
{
    split(text, Strategy::BySection)
}

/// Each chunk after the first starts a line, inside the text.
pub proof fn lemma_chunk_starts(t: Seq<char>, cs: Seq<Seq<char>>, s: Strategy)
    requires
        is_segmentation(t, cs, s),
    ensures
        forall|i: int| 0 < i < cs.len() ==> 0 < #[trigger] offset(cs, i) < t.len() && t[offset(cs, i) - 1] == '\n',
{
    reveal(is_segmentation);
    assert forall|i: int| 0 < i < cs.len() implies 0 < #[trigger] offset(cs, i) < t.len() && t[offset(cs, i) - 1] == '\n' by {
        assert(breaks_at(t, offset(cs, i), s));
    }
}

/// Splitting by any strategy and concatenating the chunks gives back the
/// text, character for character.
pub proof fn lemma_split_round_trip(t: Seq<char>, cs: Seq<Seq<char>>, s: Strategy)
    requires
        is_segmentation(t, cs, s),
    ensures
        cs.flatten() == t,
{
    reveal(is_segmentation);
    cs.lemma_flatten_and_flatten_alt_are_equivalent();
}

pub(crate) proof fn lemma_offset_step(cs: Seq<Seq<char>>, i: int)
    requires
        0 <= i < cs.len(),
    ensures
        offset(cs, i + 1) == offset(cs, i) + cs[i].len(),
{
    assert(cs.take(i + 1).drop_last() =~= cs.take(i));
}

pub(crate) proof fn lemma_offset_mono(cs: Seq<Seq<char>>, i: int, j: int)
    requires
        0 <= i <= j <= cs.len(),
    ensures
        0 <= offset(cs, i) <= offset(cs, j),
    decreases j - i,
{
    if i < j {
        lemma_offset_step(cs, j - 1);
        lemma_offset_mono(cs, i, j - 1);
    }
}

proof fn lemma_offset_end(t: Seq<char>, cs: Seq<Seq<char>>)
    requires
        joined(cs) == t,
    ensures
        offset(cs, cs.len() as int) == t.len(),
        offset(cs, 0) == 0,
{
    assert(cs.take(cs.len() as int) =~= cs);
    assert(cs.take(0) =~= Seq::<Seq<char>>::empty());
}

/// The next offsets of two segmentations agree once the current ones do.
proof fn lemma_next_offset_agrees(t: Seq<char>, c1: Seq<Seq<char>>, c2: Seq<Seq<char>>, s: Strategy, i: int)
    requires
        is_segmentation(t, c1, s),
        is_segmentation(t, c2, s),
        chunks_in_place(t, c1),
        chunks_in_place(t, c2),
        0 <= i < c1.len(),
        i < c2.len(),
        offset(c1, i) == offset(c2, i),
    ensures
        offset(c1, i + 1) == offset(c2, i + 1),
        (i + 1 == c1.len()) == (i + 1 == c2.len()),
{
    reveal(is_segmentation);
    let n = t.len() as int;
    lemma_offset_end(t, c1);
    lemma_offset_end(t, c2);
    lemma_offset_mono(c1, 0, i);
    lemma_offset_mono(c1, i, i + 1);
    lemma_offset_mono(c1, i + 1, c1.len() as int);
    lemma_offset_mono(c2, i, i + 1);
    lemma_offset_mono(c2, i + 1, c2.len() as int);
    let a = offset(c1, i);
    let p1 = offset(c1, i + 1);
    let p2 = offset(c2, i + 1);
    assert(i + 1 < c1.len() ==> p1 < n) by {
        if i + 1 < c1.len() {
            assert(breaks_at(t, offset(c1, i + 1), s));
        }
    }
    assert(i + 1 < c2.len() ==> p2 < n) by {
        if i + 1 < c2.len() {
            assert(breaks_at(t, offset(c2, i + 1), s));
        }
    }
    lemma_cut_inside(t, c1, c2, s, i);
    lemma_cut_inside(t, c2, c1, s, i);
}

/// A segmentation cannot cut strictly inside a chunk of another one that
/// starts at the same place.
proof fn lemma_cut_inside(t: Seq<char>, c1: Seq<Seq<char>>, c2: Seq<Seq<char>>, s: Strategy, i: int)
    requires
        is_segmentation(t, c1, s),
        is_segmentation(t, c2, s),
        chunks_in_place(t, c1),
        chunks_in_place(t, c2),
        0 <= i < c1.len(),
        i < c2.len(),
        offset(c1, i) == offset(c2, i),
    ensures
        offset(c1, i + 1) >= offset(c2, i + 1),
{
    if offset(c1, i + 1) < offset(c2, i + 1) {
        lemma_cut_inside_contra(t, c1, c2, s, i);
    }
}

/// The conditions of `is_segmentation` at chunk `i`.
proof fn lemma_seg_at(t: Seq<char>, cs: Seq<Seq<char>>, s: Strategy, i: int)
    requires
        is_segmentation(t, cs, s),
        0 <= i < cs.len(),
    ensures
        joined(cs) == t,
        cs.len() > 1 ==> !all_ws(cs[i]),
        0 < i ==> breaks_at(t, offset(cs, i), s),
        i < cs.len() - 1 ==> no_break_inside(t, offset(cs, i), offset(cs, i + 1), s),
        i == cs.len() - 1 ==> no_break_in_tail(t, offset(cs, i), s),
{
    reveal(is_segmentation);
}

proof fn lemma_cut_inside_contra(t: Seq<char>, c1: Seq<Seq<char>>, c2: Seq<Seq<char>>, s: Strategy, i: int)
    requires
        is_segmentation(t, c1, s),
        is_segmentation(t, c2, s),
        chunks_in_place(t, c1),
        chunks_in_place(t, c2),
        0 <= i < c1.len(),
        i < c2.len(),
        offset(c1, i) == offset(c2, i),
        offset(c1, i + 1) < offset(c2, i + 1),
    ensures
        offset(c1, i + 1) >= offset(c2, i + 1),
{
    let n = t.len() as int;
    lemma_seg_at(t, c1, s, i);
    lemma_seg_at(t, c2, s, i);
    lemma_offset_end(t, c1);
    lemma_offset_end(t, c2);
    lemma_offset_mono(c1, i, i + 1);
    lemma_offset_mono(c2, i, i + 1);
    lemma_offset_mono(c2, i + 1, c2.len() as int);
    let a = offset(c1, i);
    let p1 = offset(c1, i + 1);
    let p2 = offset(c2, i + 1);
    assert(i + 1 < c1.len());
    lemma_seg_at(t, c1, s, i + 1);
    lemma_offset_mono(c1, i + 1, c1.len() as int);
    assert(c1[i] == t.subrange(a, p1));
    assert(!all_ws(c1[i]));
    assert(a < p1) by {
        if a == p1 {
            assert(t.subrange(a, p1).len() == 0);
        }
    }
    assert(breaks_at(t, p1, s));
    if i + 1 < c2.len() {
        assert(all_ws(t.subrange(a, p1)));
    } else {
        if !all_ws(t.subrange(a, p1)) {
            assert(all_ws(t.subrange(p1, n)));
            let p1b = offset(c1, i + 2);
            lemma_offset_mono(c1, i + 1, i + 2);
            lemma_offset_mono(c1, i + 2, c1.len() as int);
            assert(c1[i + 1] == t.subrange(p1, p1b));
            lemma_all_ws_split(t, p1, p1b, n);
        }
    }
}

proof fn lemma_offsets_agree(t: Seq<char>, c1: Seq<Seq<char>>, c2: Seq<Seq<char>>, s: Strategy, i: int)
    requires
        is_segmentation(t, c1, s),
        is_segmentation(t, c2, s),
        chunks_in_place(t, c1),
        chunks_in_place(t, c2),
        0 <= i <= c1.len(),
        i <= c2.len(),
    ensures
        offset(c1, i) == offset(c2, i),
        (i == c1.len()) == (i == c2.len()),
    decreases i,
{
    reveal(is_segmentation);
    lemma_offset_end(t, c1);
    lemma_offset_end(t, c2);
    if i > 0 {
        lemma_offsets_agree(t, c1, c2, s, i - 1);
        lemma_next_offset_agrees(t, c1, c2, s, i - 1);
    }
}

/// A text has one segmentation under a strategy: the conditions of
/// `is_segmentation` (with each chunk in its place) determine the chunks.
pub proof fn lemma_segmentation_unique(t: Seq<char>, c1: Seq<Seq<char>>, c2: Seq<Seq<char>>, s: Strategy)
    requires
        is_segmentation(t, c1, s),
        is_segmentation(t, c2, s),
        chunks_in_place(t, c1),
        chunks_in_place(t, c2),
    ensures
        c1 == c2,
{
    let m = if c1.len() <= c2.len() { c1.len() as int } else { c2.len() as int };
    lemma_offsets_agree(t, c1, c2, s, m);
    assert(c1.len() == c2.len());
    assert forall|k: int| 0 <= k < c1.len() implies c1[k] == c2[k] by {
        lemma_offsets_agree(t, c1, c2, s, k);
        lemma_offsets_agree(t, c1, c2, s, k + 1);
    }
    assert(c1 =~= c2);
}

/// A chunk between two line boundaries has no more words than the text.
proof fn lemma_chunk_words(t: Seq<char>, cs: Seq<Seq<char>>, i: int)
    requires
        0 <= i < cs.len(),
        cs[i] == t.subrange(offset(cs, i), offset(cs, i + 1)),
        i == 0 || (0 < offset(cs, i) < t.len() && t[offset(cs, i) - 1] == '\n'),
        i + 1 == cs.len() || (0 < offset(cs, i + 1) < t.len() && t[offset(cs, i + 1) - 1] == '\n'),
        joined(cs) == t,
    ensures
        word_count(cs[i]) <= word_count(t),
{
    let p = offset(cs, i);
    let q = offset(cs, i + 1);
    assert(cs[i] == t.subrange(p, q));
    lemma_offset_mono(cs, 0, i);
    lemma_offset_mono(cs, i, i + 1);
    lemma_offset_mono(cs, i + 1, cs.len() as int);
    assert(offset(cs, cs.len() as int) == t.len()) by {
        assert(cs.take(cs.len() as int) =~= cs);
    }
    assert(p == 0 || is_ws(t[p - 1])) by {
        if i > 0 {
            assert(t[offset(cs, i) - 1] == '\n');
        } else {
            assert(cs.take(0) =~= Seq::<Seq<char>>::empty());
        }
    }
    assert(q == t.len() || is_ws(t[q - 1])) by {
        if i + 1 < cs.len() {
            assert(t[offset(cs, i + 1) - 1] == '\n');
        }
    }
    lemma_word_count_span(t, offset(cs, i), offset(cs, i + 1));
}

/// A chunk of a segmentation has no more words than the text.
pub(crate) proof fn lemma_chunk_words_of(t: Seq<char>, cs: Seq<Seq<char>>, s: Strategy, i: int)
    requires
        is_segmentation(t, cs, s),
        chunks_in_place(t, cs),
        0 <= i < cs.len(),
    ensures
        word_count(cs[i]) <= word_count(t),
{
    lemma_chunk_starts(t, cs, s);
    lemma_seg_at(t, cs, s, i);
    assert(cs[i] == t.subrange(offset(cs, i), offset(cs, i + 1)));
    if i + 1 < cs.len() {
        assert(0 < offset(cs, i + 1) < t.len() && t[offset(cs, i + 1) - 1] == '\n');
    }
    lemma_chunk_words(t, cs, i);
}

} // verus!
