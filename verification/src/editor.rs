//! Editor decisions: case-insensitive find and replace-all over the
//! document, the window title, quitting with unsaved changes, and the
//! preview refresh debounce.

use vstd::prelude::*;
use vstd::string::*;
use crate::text::{chars_of, lines, lines_of, string_of, views};

verus! {

/// The lower-case mapping of the character `c` (`char::to_lowercase`).
pub uninterp spec fn char_lowercase(c: char) -> Seq<char>;

/// `char::to_lowercase`, collected into a string.
#[verifier::external_body]
fn char_lower(c: char) -> (r: String)
    ensures
        r@ == char_lowercase(c),
{
    c.to_lowercase().collect()
}

/// The characters of `s`, each lower-cased.
pub open spec fn lows(s: Seq<char>) -> Seq<Seq<char>> {
    s.map_values(|c: char| char_lowercase(c))
}

/// `n` occurs in `h` at position `i`.
pub open spec fn matches_at<A>(h: Seq<A>, n: Seq<A>, i: int) -> bool {
    0 <= i && i + n.len() <= h.len() && h.subrange(i, i + n.len()) == n
}

/// The first position `j >= i` where `n` occurs in `h`.
pub open spec fn first_match<A>(h: Seq<A>, n: Seq<A>, i: int) -> Option<int>
    decreases h.len() + 1 - i,
{
    if i < 0 || i + n.len() > h.len() {
        None
    } else if matches_at(h, n, i) {
        Some(i)
    } else {
        first_match(h, n, i + 1)
    }
}

/// A match found from `i` lies at or after `i`, inside `h`, and is a
/// match.
pub proof fn lemma_first_match<A>(h: Seq<A>, n: Seq<A>, i: int)
    requires
        0 <= i,
    ensures
        first_match(h, n, i) matches Some(m) ==> i <= m && m + n.len() <= h.len() && matches_at(h, n, m),
    decreases h.len() + 1 - i,
{
    if i + n.len() <= h.len() && !matches_at(h, n, i) {
        lemma_first_match(h, n, i + 1);
    }
}

/// Each character of `cs`, lower-cased.
fn lowered(cs: &Vec<char>) -> (r: Vec<String>)
    ensures
        views(r@) == lows(cs@),
{
    let mut r: Vec<String> = Vec::new();
    let mut i: usize = 0;
    while i < cs.len()
        invariant
            i <= cs.len(),
            views(r@) == lows(cs@).take(i as int),
        decreases cs.len() - i,
    {
        let ghost before = views(r@);
        r.push(char_lower(cs[i]));
        assert(views(r@) =~= before.push(char_lowercase(cs@[i as int])));
        assert(lows(cs@).take(i + 1) =~= lows(cs@).take(i as int).push(char_lowercase(cs@[i as int])));
        i = i + 1;
    }
    assert(lows(cs@).take(cs.len() as int) =~= lows(cs@));
    r
}

/// `n` occurs in `h` at `i`.
fn strings_match_at(h: &Vec<String>, n: &Vec<String>, i: usize) -> (r: bool)
    requires
        i + n.len() <= h.len(),
    ensures
        r == matches_at(views(h@), views(n@), i as int),
{
    let ghost hv = views(h@);
    let ghost nv = views(n@);
    let mut k: usize = 0;
    while k < n.len()
        invariant
            i + n.len() <= h.len(),
            hv == views(h@),
            nv == views(n@),
            k <= n.len(),
            forall|j: int| 0 <= j < k ==> hv[i + j] == nv[j],
        decreases n.len() - k,
    {
        if h[i + k] != n[k] {
            assert(hv.subrange(i as int, i + n.len())[k as int] != nv[k as int]);
            return false;
        }
        k = k + 1;
    }
    assert(hv.subrange(i as int, i + n.len()) =~= nv);
    true
}

/// The first position at or after `from` where `n` occurs in `h`.
fn find_from(h: &Vec<String>, n: &Vec<String>, from: usize) -> (r: Option<usize>)
    requires
        n.len() > 0,
    ensures
        match r {
            Some(m) => first_match(views(h@), views(n@), from as int) == Some(m as int),
            None => first_match(views(h@), views(n@), from as int) is None,
        },
{
    let ghost hv = views(h@);
    let ghost nv = views(n@);
    let mut i = from;
    while i < h.len() && h.len() - i >= n.len()
        invariant
            from <= i,
            hv == views(h@),
            nv == views(n@),
            first_match(hv, nv, from as int) == first_match(hv, nv, i as int),
        decreases h.len() - i,
    {
        if strings_match_at(h, n, i) {
            return Some(i);
        }
        i = i + 1;
    }
    None
}

/// Number of newlines in `s`.
pub open spec fn count_nl(s: Seq<char>) -> nat
    decreases s.len(),
{
    if s.len() == 0 {
        0
    } else {
        count_nl(s.drop_last()) + if s.last() == '\n' { 1nat } else { 0nat }
    }
}

/// The 1-based line of the character at position `idx` of `cs`.
pub fn line_at(cs: &Vec<char>, idx: usize) -> (line: usize)
    requires
        idx < cs.len(),
    ensures
        line == count_nl(cs@.take(idx as int)) + 1,
{
    let mut n: usize = 0;
    let mut i: usize = 0;
    while i < idx
        invariant
            i <= idx < cs.len(),
            n == count_nl(cs@.take(i as int)),
            n <= i,
        decreases idx - i,
    {
        assert(cs@.take(i + 1).drop_last() =~= cs@.take(i as int));
        if cs[i] == '\n' {
            n = n + 1;
        }
        i = i + 1;
    }
    n + 1
}

/// The last position `m <= i` where `n` occurs in `h`.
pub open spec fn last_match<A>(h: Seq<A>, n: Seq<A>, i: int) -> Option<int>
    decreases i + 1,
{
    if i < 0 {
        None
    } else if matches_at(h, n, i) {
        Some(i)
    } else {
        last_match(h, n, i - 1)
    }
}

/// A match found searching down from `i` lies at or before `i` and is a
/// match.
pub proof fn lemma_last_match<A>(h: Seq<A>, n: Seq<A>, i: int)
    ensures
        last_match(h, n, i) matches Some(m) ==> 0 <= m <= i && matches_at(h, n, m),
    decreases i + 1,
{
    if i >= 0 && !matches_at(h, n, i) {
        lemma_last_match(h, n, i - 1);
    }
}

/// The next match at or after `from`, wrapping round to the first.
pub open spec fn next_match<A>(h: Seq<A>, n: Seq<A>, from: int) -> Option<int> {
    match first_match(h, n, from) {
        Some(m) => Some(m),
        None => first_match(h, n, 0),
    }
}

/// The previous match before `before`, wrapping round to the last.
pub open spec fn prev_match<A>(h: Seq<A>, n: Seq<A>, before: int) -> Option<int> {
    match last_match(h, n, before - 1) {
        Some(m) => Some(m),
        None => last_match(h, n, h.len() - n.len()),
    }
}

/// The last position before `before` where `n` occurs in `h`.
fn rfind_before(h: &Vec<String>, n: &Vec<String>, before: usize) -> (r: Option<usize>)
    ensures
        match r {
            Some(m) => last_match(views(h@), views(n@), before - 1) == Some(m as int),
            None => last_match(views(h@), views(n@), before - 1) is None,
        },
{
    let ghost hv = views(h@);
    let ghost nv = views(n@);
    let mut i = before;
    while i > 0
        invariant
            i <= before,
            hv == views(h@),
            nv == views(n@),
            last_match(hv, nv, before - 1) == last_match(hv, nv, i - 1),
        decreases i,
    {
        i = i - 1;
        if h.len() >= n.len() && i <= h.len() - n.len() {
            if strings_match_at(h, n, i) {
                return Some(i);
            }
        }
    }
    None
}

/// What a search reports.
#[derive(Debug, PartialEq, Eq, Structural)]
pub enum FindOutcome {
    /// The query is empty.
    EmptyQuery,
    /// The query does not occur.
    NotFound,
    /// An occurrence starts at character `pos`, on this 1-based line.
    Found { pos: usize, line: usize },
}

/// The outcome of a search of `query` in `source` that gives the match
/// `m`: the query is not empty, and `m` names its position and line.
pub open spec fn found(source: Seq<char>, query: Seq<char>, m: Option<int>, r: FindOutcome) -> bool {
    match r {
        FindOutcome::EmptyQuery => query.len() == 0,
        FindOutcome::NotFound => query.len() > 0 && m is None,
        FindOutcome::Found { pos, line } => query.len() > 0 && m == Some(pos as int) && line == count_nl(
            source.take(pos as int),
        ) + 1,
    }
}

/// Finds the next case-insensitive occurrence of `query` in `source` at
/// or after character `from`, wrapping round to the first one, and
/// reports its position and 1-based line. Characters are compared by
/// their lower-case mappings, position by position.
pub fn find_next(source: &str, query: &str, from: usize) -> (r: FindOutcome)
    ensures
        found(source@, query@, next_match(lows(source@), lows(query@), from as int), r),
{
    if query.is_empty() {
        return FindOutcome::EmptyQuery;
    }
    let cs = chars_of(source);
    let ls = lowered(&cs);
    let lq = lowered(&chars_of(query));
    let m = match find_from(&ls, &lq, from) {
        Some(m) => Some(m),
        None => find_from(&ls, &lq, 0),
    };
    proof {
        lemma_first_match(lows(source@), lows(query@), from as int);
        lemma_first_match(lows(source@), lows(query@), 0);
    }
    match m {
        Some(m) => FindOutcome::Found { pos: m, line: line_at(&cs, m) },
        None => FindOutcome::NotFound,
    }
}

/// Finds the previous case-insensitive occurrence of `query` in `source`
/// before character `before`, wrapping round to the last one, and reports
/// its position and 1-based line.
pub fn find_prev(source: &str, query: &str, before: usize) -> (r: FindOutcome)
    ensures
        found(source@, query@, prev_match(lows(source@), lows(query@), before as int), r),
{
    if query.is_empty() {
        return FindOutcome::EmptyQuery;
    }
    let cs = chars_of(source);
    let ls = lowered(&cs);
    let lq = lowered(&chars_of(query));
    let m = match rfind_before(&ls, &lq, before) {
        Some(m) => Some(m),
        None => if ls.len() >= lq.len() {
            rfind_before(&ls, &lq, ls.len() - lq.len() + 1)
        } else {
            None
        },
    };
    proof {
        let h = lows(source@);
        let n = lows(query@);
        lemma_last_match(h, n, before - 1);
        lemma_last_match(h, n, h.len() - n.len());
        if h.len() < n.len() {
            assert(last_match(h, n, h.len() - n.len()) is None);
        }
    }
    match m {
        Some(m) => FindOutcome::Found { pos: m, line: line_at(&cs, m) },
        None => FindOutcome::NotFound,
    }
}

/// No match lies between a position and the first match from it.
proof fn lemma_first_match_none_before<A>(h: Seq<A>, n: Seq<A>, i: int, k: int)
    requires
        0 <= i <= k,
        first_match(h, n, i) matches Some(q) && k < q,
    ensures
        !matches_at(h, n, k),
    decreases k - i,
{
    if i < k {
        lemma_first_match_none_before(h, n, i + 1, k);
    }
}

/// Searching down over positions that are not matches reaches the match
/// below them.
proof fn lemma_last_match_skip<A>(h: Seq<A>, n: Seq<A>, p: int, i: int)
    requires
        0 <= p <= i,
        matches_at(h, n, p),
        forall|k: int| p < k <= i ==> !#[trigger] matches_at(h, n, k),
    ensures
        last_match(h, n, i) == Some(p),
    decreases i - p,
{
    if i > p {
        lemma_last_match_skip(h, n, p, i - 1);
    }
}

/// Stepping back undoes stepping forward: from a match at `p`, the next
/// match after it, when it lies further on, has `p` as its previous match.
pub proof fn prev_undoes_next<A>(h: Seq<A>, n: Seq<A>, p: int)
    requires
        matches_at(h, n, p),
        next_match(h, n, p + 1) matches Some(q) && p < q,
    ensures
        prev_match(h, n, next_match(h, n, p + 1)->0) == Some(p),
{
    let q = next_match(h, n, p + 1)->0;
    if first_match(h, n, p + 1) is None {
        lemma_first_match(h, n, 0);
        // The wrapped match is the first of all, so it cannot lie past `p`.
        lemma_first_match_none_before(h, n, 0, p);
    }
    assert forall|k: int| p < k <= q - 1 implies !#[trigger] matches_at(h, n, k) by {
        lemma_first_match_none_before(h, n, p + 1, k);
    }
    lemma_last_match_skip(h, n, p, q - 1);
}

/// Replace-all over the characters `s` from position `i`, with `ls` their
/// lower-case mappings and `lq` those of the query: each occurrence of
/// `lq` in `ls` is replaced by `w`. Gives the new text from `i` on and the
/// number of replacements.
pub open spec fn replace_from(
    s: Seq<char>,
    ls: Seq<Seq<char>>,
    lq: Seq<Seq<char>>,
    w: Seq<char>,
    i: int,
) -> (Seq<char>, nat)
    decreases ls.len() + 1 - i,
    when 0 <= i && lq.len() > 0
{
    match first_match(ls, lq, i) {
        None => (s.subrange(i, s.len() as int), 0nat),
        Some(m) => {
            proof {
                lemma_first_match(ls, lq, i);
            }
            let rest = replace_from(s, ls, lq, w, m + lq.len());
            (s.subrange(i, m) + w + rest.0, rest.1 + 1)
        },
    }
}

/// Replace-all of `query` by `replacement` over the whole of `source`,
/// matching case-insensitively: the new text and the number of
/// replacements.
pub open spec fn replaced(source: Seq<char>, query: Seq<char>, replacement: Seq<char>) -> (Seq<char>, nat) {
    replace_from(source, lows(source), lows(query), replacement, 0)
}

/// What replace-all yields.
#[derive(Debug)]
pub enum ReplaceOutcome {
    /// The query is empty: nothing is replaced.
    NothingToFind,
    /// The new text and the number of replacements.
    Replaced { text: String, count: usize },
}

/// Replaces every case-insensitive occurrence of `query` in `source` by
/// `replacement`, and counts them. Characters are compared by their
/// lower-case mappings, position by position, and occurrences do not
/// overlap.
pub fn replace_all(source: &str, query: &str, replacement: &str) -> (r: ReplaceOutcome)
    ensures
        match r {
            ReplaceOutcome::NothingToFind => query@.len() == 0,
            ReplaceOutcome::Replaced { text, count } => query@.len() > 0 && replaced(
                source@,
                query@,
                replacement@,
            ) == (text@, count as nat),
        },
{
    if query.is_empty() {
        return ReplaceOutcome::NothingToFind;
    }
    let cs = chars_of(source);
    let ls = lowered(&cs);
    let lq = lowered(&chars_of(query));
    let ghost lsv = lows(source@);
    let ghost lqv = lows(query@);
    let ghost whole = replace_from(source@, lsv, lqv, replacement@, 0);
    let mut out = String::new();
    let mut start: usize = 0;
    let mut n: usize = 0;
    loop
        invariant
            cs@ == source@,
            views(ls@) == lsv,
            views(lq@) == lqv,
            lsv == lows(source@),
            lqv == lows(query@),
            lqv.len() > 0,
            ls.len() == cs.len(),
            start <= cs.len(),
            n <= start,
            whole == replace_from(source@, lsv, lqv, replacement@, 0),
            whole == ({
                let rest = replace_from(source@, lsv, lqv, replacement@, start as int);
                (out@ + rest.0, (n + rest.1) as nat)
            }),
        decreases cs.len() + 1 - start,
    {
        proof {
            lemma_first_match(lsv, lqv, start as int);
        }
        match find_from(&ls, &lq, start) {
            None => {
                let tail = string_of(&cs, start, cs.len());
                out.append(tail.as_str());
                return ReplaceOutcome::Replaced { text: out, count: n };
            },
            Some(m) => {
                let ghost before = out@;
                let piece = string_of(&cs, start, m);
                out.append(piece.as_str());
                out.append(replacement);
                proof {
                    let rest = replace_from(source@, lsv, lqv, replacement@, m + lqv.len());
                    assert(out@ + rest.0 =~= before + (source@.subrange(start as int, m as int)
                        + replacement@ + rest.0));
                }
                start = m + lq.len();
                n = n + 1;
            },
        }
    }
}

/// Searching and replacing agree: for a query that is not empty, find
/// reports no occurrence exactly when replace-all leaves the text as it
/// was and counts no replacement.
pub proof fn find_none_iff_replace_nothing(source: Seq<char>, query: Seq<char>, replacement: Seq<char>)
    requires
        query.len() > 0,
    ensures
        first_match(lows(source), lows(query), 0) is None <==> replaced(source, query, replacement) == (
            source,
            0nat,
        ),
{
    let ls = lows(source);
    let lq = lows(query);
    assert(source.subrange(0, source.len() as int) =~= source);
    lemma_first_match(ls, lq, 0);
    match first_match(ls, lq, 0) {
        None => {},
        Some(m) => {
            let rest = replace_from(source, ls, lq, replacement, m + lq.len());
        },
    }
}

/// No occurrence of `q` in `a + b` starts in `a` and ends in `b`.
pub open spec fn no_match_across(a: Seq<char>, b: Seq<char>, q: Seq<char>) -> bool {
    forall|m: int| 0 <= m < a.len() < m + q.len() ==> !#[trigger] matches_at(lows(a + b), lows(q), m)
}

proof fn lemma_lows_concat(a: Seq<char>, b: Seq<char>)
    ensures
        lows(a + b) == lows(a) + lows(b),
{
    assert(lows(a + b) =~= lows(a) + lows(b));
}

/// Searching the second part of a concatenation is searching that part.
proof fn lemma_first_match_shift<A>(la: Seq<A>, lb: Seq<A>, q: Seq<A>, j: int)
    requires
        0 <= j,
    ensures
        first_match(la + lb, q, la.len() + j) == match first_match(lb, q, j) {
            Some(m) => Some(m + la.len()),
            None => None,
        },
    decreases lb.len() + 1 - j,
{
    let l = la + lb;
    let i = la.len() + j;
    if i + q.len() <= l.len() {
        assert(l.subrange(i, i + q.len()) =~= lb.subrange(j, j + q.len()));
        if !matches_at(lb, q, j) {
            lemma_first_match_shift(la, lb, q, j + 1);
        }
    }
}

/// Searching the first part of a concatenation, when no occurrence
/// crosses into the second part: a match in the first part, else the
/// first match from where the second part starts.
proof fn lemma_first_match_front<A>(la: Seq<A>, lb: Seq<A>, q: Seq<A>, i: int)
    requires
        0 <= i <= la.len(),
        q.len() > 0,
        forall|m: int| 0 <= m < la.len() < m + q.len() ==> !#[trigger] matches_at(la + lb, q, m),
    ensures
        first_match(la + lb, q, i) == match first_match(la, q, i) {
            Some(m) => Some(m),
            None => first_match(la + lb, q, la.len() as int),
        },
    decreases la.len() - i,
{
    let l = la + lb;
    if i < la.len() {
        if i + q.len() <= la.len() {
            assert(l.subrange(i, i + q.len()) =~= la.subrange(i, i + q.len()));
            if !matches_at(la, q, i) {
                lemma_first_match_front(la, lb, q, i + 1);
            }
        } else {
            assert(!matches_at(l, q, i));
            lemma_first_match_front(la, lb, q, i + 1);
            assert(first_match(la, q, i + 1) is None);
        }
    }
}

/// Replacing in the second part of a concatenation is replacing in that
/// part.
proof fn lemma_replace_back(a: Seq<char>, b: Seq<char>, q: Seq<Seq<char>>, w: Seq<char>, j: int)
    requires
        0 <= j <= b.len(),
        q.len() > 0,
    ensures
        replace_from(a + b, lows(a) + lows(b), q, w, a.len() + j) == replace_from(b, lows(b), q, w, j),
    decreases b.len() + 1 - j,
{
    let s = a + b;
    let l = lows(a) + lows(b);
    lemma_first_match_shift(lows(a), lows(b), q, j);
    lemma_first_match(lows(b), q, j);
    match first_match(lows(b), q, j) {
        None => {
            assert(s.subrange(a.len() + j, s.len() as int) =~= b.subrange(j, b.len() as int));
        },
        Some(m) => {
            lemma_replace_back(a, b, q, w, m + q.len());
            assert(s.subrange(a.len() + j, a.len() + m) =~= b.subrange(j, m));
        },
    }
}

/// Replacing from a point of the first part of a concatenation, when no
/// occurrence crosses into the second part: the replacement of the rest
/// of the first part, then that of the second part.
proof fn lemma_replace_front(a: Seq<char>, b: Seq<char>, q: Seq<char>, w: Seq<char>, i: int)
    requires
        0 <= i <= a.len(),
        q.len() > 0,
        no_match_across(a, b, q),
    ensures
        ({
            let ra = replace_from(a, lows(a), lows(q), w, i);
            let rb = replace_from(b, lows(b), lows(q), w, 0);
            replace_from(a + b, lows(a + b), lows(q), w, i) == (ra.0 + rb.0, ra.1 + rb.1)
        }),
    decreases a.len() - i,
{
    let s = a + b;
    let lq = lows(q);
    lemma_lows_concat(a, b);
    let l = lows(a) + lows(b);
    assert(forall|m: int| 0 <= m < lows(a).len() < m + lq.len() ==> !#[trigger] matches_at(l, lq, m));
    lemma_first_match_front(lows(a), lows(b), lq, i);
    lemma_first_match(lows(a), lq, i);
    lemma_first_match_shift(lows(a), lows(b), lq, 0);
    lemma_first_match(lows(b), lq, 0);
    let rb = replace_from(b, lows(b), lq, w, 0);
    match first_match(lows(a), lq, i) {
        Some(m) => {
            lemma_replace_front(a, b, q, w, m + lq.len());
            let ra2 = replace_from(a, lows(a), lq, w, m + lq.len());
            assert(s.subrange(i, m) =~= a.subrange(i, m));
            assert(s.subrange(i, m) + w + (ra2.0 + rb.0) =~= (a.subrange(i, m) + w + ra2.0) + rb.0);
        },
        None => {
            match first_match(lows(b), lq, 0) {
                None => {
                    assert(s.subrange(i, s.len() as int) =~= a.subrange(i, a.len() as int) + b.subrange(
                        0,
                        b.len() as int,
                    ));
                },
                Some(mb) => {
                    lemma_replace_back(a, b, lq, w, mb + lq.len());
                    let rest = replace_from(b, lows(b), lq, w, mb + lq.len());
                    assert(s.subrange(i, a.len() + mb) =~= a.subrange(i, a.len() as int) + b.subrange(0, mb));
                    assert(s.subrange(i, a.len() + mb) + w + rest.0 =~= a.subrange(i, a.len() as int) + (
                    b.subrange(0, mb) + w + rest.0));
                },
            }
        },
    }
}

/// Replace-all works piece by piece: when no occurrence of the query
/// crosses from `a` into `b`, replacing in `a + b` gives the replacement
/// of `a` followed by that of `b`, and the counts add up. With the text
/// that is one occurrence (below) and the text with none (which stays as
/// it is), this fixes replace-all to replace every occurrence, left to
/// right, and count them.
pub proof fn replace_all_piecewise(a: Seq<char>, b: Seq<char>, q: Seq<char>, w: Seq<char>)
    requires
        q.len() > 0,
        no_match_across(a, b, q),
    ensures
        replaced(a + b, q, w) == ((replaced(a, q, w).0 + replaced(b, q, w).0), replaced(a, q, w).1 + replaced(
            b,
            q,
            w,
        ).1),
{
    lemma_replace_front(a, b, q, w, 0);
}

/// A text that is one occurrence of the query, ignoring case, is replaced
/// by the replacement, once.
pub proof fn replace_all_single(s: Seq<char>, q: Seq<char>, w: Seq<char>)
    requires
        q.len() > 0,
        lows(s) == lows(q),
    ensures
        replaced(s, q, w) == (w, 1nat),
{
    let l = lows(s);
    assert(l.subrange(0, l.len() as int) =~= l);
    assert(matches_at(l, lows(q), 0));
    let rest = replace_from(s, l, lows(q), w, lows(q).len() as int);
    assert(first_match(l, lows(q), lows(q).len() as int) is None);
    assert(rest == (s.subrange(s.len() as int, s.len() as int), 0nat));
    assert(s.subrange(0, 0) + w + s.subrange(s.len() as int, s.len() as int) =~= w);
}

/// Number of characters, and number of lines (at least one), of `source`.
pub open spec fn stats(source: Seq<char>) -> (nat, nat) {
    (source.len(), if lines_of(source).len() >= 1 { lines_of(source).len() } else { 1 })
}

/// The counts shown in the status bar: characters, and lines (at least
/// one).
pub fn text_stats(source: &str) -> (r: (usize, usize))
    ensures
        r.0 as nat == stats(source@).0,
        r.1 as nat == stats(source@).1,
{
    let chars = chars_of(source);
    let ls = lines(source);
    let n = ls.len();
    (chars.len(), if n >= 1 { n } else { 1 })
}

/// The window title: the file name (or `untitled.md`), a star when there
/// are unsaved changes, and the program's name.
pub open spec fn title(name: Option<Seq<char>>, dirty: bool) -> Seq<char> {
    let n = match name {
        Some(n) => n,
        None => "untitled.md"@,
    };
    n + if dirty {
        " * — rust-md-editor"@
    } else {
        " — rust-md-editor"@
    }
}

/// The window title for the file `name` (none for a new document).
pub fn file_title(name: Option<&str>, dirty: bool) -> (t: String)
    ensures
        t@ == title(
            match name {
                Some(n) => Some(n@),
                None => None,
            },
            dirty,
        ),
{
    let mut t = match name {
        Some(n) => String::from_str(n),
        None => String::from_str("untitled.md"),
    };
    if dirty {
        t.append(" * — rust-md-editor");
    } else {
        t.append(" — rust-md-editor");
    }
    t
}

/// A request to quit: whether the window closes, and whether the next
/// request is confirmed. With unsaved changes the first request only asks
/// for confirmation.
pub open spec fn quit_step(dirty: bool, confirmed: bool) -> (bool, bool) {
    if !dirty || confirmed {
        (true, confirmed)
    } else {
        (false, true)
    }
}

/// The preview is refreshed once an edit is more than 120 ms old.
pub open spec fn refresh_due(need_refresh: bool, elapsed_nanos: nat) -> bool {
    need_refresh && elapsed_nanos > 120_000_000
}

} // verus!
