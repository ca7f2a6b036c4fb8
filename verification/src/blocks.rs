//! Splitting a Markdown document into the blocks that the preview caches
//! and renders one by one, and detecting a code fence left open.

use vstd::prelude::*;
use vstd::string::*;
use crate::buffer::{lemma_split_nl_len, lemma_split_nl_no_cr};
use crate::text::{
    all_ws, chars_of, is_whitespace, is_ws, lines, lines_of, opens_fence, push_char, run_len,
    split_nl, strip_cr, trim_start, views, ws_prefix, ws_prefix_len,
};

verus! {

/// State of the block splitter between two lines.
pub struct SplitState {
    pub blocks: Seq<Seq<char>>,
    pub current: Seq<char>,
    pub in_fence: bool,
    pub fence_char: char,
    pub fence_len: nat,
}

pub open spec fn split_start() -> SplitState {
    SplitState {
        blocks: Seq::empty(),
        current: Seq::empty(),
        in_fence: false,
        fence_char: '`',
        fence_len: 0,
    }
}

/// `cur` with `line` and a newline appended.
pub open spec fn with_line(cur: Seq<char>, line: Seq<char>) -> Seq<char> {
    cur + line.push('\n')
}

/// The trimmed line `t` closes a fence of `n` characters `c`: it starts
/// with at least `n` of them and nothing but whitespace follows.
pub open spec fn closes_fence(t: Seq<char>, c: char, n: nat) -> bool {
    &&& t.len() > 0
    &&& t[0] == c
    &&& run_len(t, c) >= n
    &&& all_ws(t.skip(run_len(t, c) as int))
}

/// One line of input to the splitter.
pub open spec fn split_step(st: SplitState, line: Seq<char>) -> SplitState {
    let t = trim_start(line);
    if !st.in_fence {
        if opens_fence(t) {
            SplitState {
                blocks: st.blocks,
                current: with_line(st.current, line),
                in_fence: true,
                fence_char: t[0],
                fence_len: run_len(t, t[0]),
            }
        } else if t.len() == 0 {
            SplitState {
                blocks: if all_ws(st.current) { st.blocks } else { st.blocks.push(st.current) },
                current: Seq::empty(),
                in_fence: st.in_fence,
                fence_char: st.fence_char,
                fence_len: st.fence_len,
            }
        } else {
            SplitState {
                blocks: st.blocks,
                current: with_line(st.current, line),
                in_fence: st.in_fence,
                fence_char: st.fence_char,
                fence_len: st.fence_len,
            }
        }
    } else {
        let cur = with_line(st.current, line);
        if closes_fence(t, st.fence_char, st.fence_len) {
            SplitState {
                blocks: st.blocks.push(cur),
                current: Seq::empty(),
                in_fence: false,
                fence_char: st.fence_char,
                fence_len: st.fence_len,
            }
        } else {
            SplitState {
                blocks: st.blocks,
                current: cur,
                in_fence: st.in_fence,
                fence_char: st.fence_char,
                fence_len: st.fence_len,
            }
        }
    }
}

/// The splitter after reading `lines`.
pub open spec fn split_fold(lines: Seq<Seq<char>>) -> SplitState
    decreases lines.len(),
{
    if lines.len() == 0 {
        split_start()
    } else {
        split_step(split_fold(lines.drop_last()), lines.last())
    }
}

/// Closing the splitter: a pending block is kept, and a document with no
/// block at all yields one empty block.
pub open spec fn split_finish(st: SplitState) -> Seq<Seq<char>> {
    let b = if st.current.len() > 0 { st.blocks.push(st.current) } else { st.blocks };
    if b.len() == 0 {
        seq![Seq::<char>::empty()]
    } else {
        b
    }
}

/// The blocks of the document `md`.
pub open spec fn blocks_of(md: Seq<char>) -> Seq<Seq<char>> {
    split_finish(split_fold(lines_of(md)))
}

/// Number of characters equal to `c` in `cs` from `from` on, before the
/// first other character.
pub fn run_length(cs: &Vec<char>, from: usize, c: char) -> (n: usize)
    requires
        from <= cs.len(),
    ensures
        n == run_len(cs@.skip(from as int), c),
        from + n <= cs.len(),
{
    let mut i = from;
    assert(cs@.skip(from as int).skip(0) =~= cs@.skip(from as int));
    while i < cs.len() && cs[i] == c
        invariant
            from <= i <= cs.len(),
            run_len(cs@.skip(from as int), c) == (i - from) + run_len(cs@.skip(i as int), c),
        decreases cs.len() - i,
    {
        assert(cs@.skip(i as int).drop_first() =~= cs@.skip(i + 1));
        i = i + 1;
    }
    assert(i < cs.len() ==> cs@.skip(i as int)[0] == cs@[i as int]);
    i - from
}

/// Every character of `cs` from `from` on is whitespace.
pub fn all_whitespace_from(cs: &Vec<char>, from: usize) -> (r: bool)
    requires
        from <= cs.len(),
    ensures
        r == all_ws(cs@.skip(from as int)),
{
    let mut i = from;
    while i < cs.len()
        invariant
            from <= i <= cs.len(),
            forall|k: int| from <= k < i ==> is_ws(cs@[k]),
        decreases cs.len() - i,
    {
        if !is_whitespace(cs[i]) {
            assert(cs@.skip(from as int)[i - from] == cs@[i as int]);
            return false;
        }
        i = i + 1;
    }
    assert forall|k: int| 0 <= k < cs@.skip(from as int).len() implies is_ws(
        #[trigger] cs@.skip(from as int)[k],
    ) by {
        assert(cs@.skip(from as int)[k] == cs@[from + k]);
    }
    true
}

/// The trimmed characters `cs[start..]` open a code fence.
fn opens_fence_at(cs: &Vec<char>, start: usize) -> (r: bool)
    requires
        start <= cs.len(),
    ensures
        r == opens_fence(cs@.skip(start as int)),
{
    if cs.len() - start >= 3 {
        let c = cs[start];
        (c == '`' || c == '~') && cs[start + 1] == c && cs[start + 2] == c
    } else {
        false
    }
}

/// `line` and a newline appended to `current`.
fn append_line(current: &mut String, line: &String)
    ensures
        final(current)@ == with_line(old(current)@, line@),
{
    current.append(line.as_str());
    push_char(current, '\n');
}

/// Splits a Markdown document into blocks: runs of non-blank lines
/// separated by blank lines, where a fenced code block (opened by three or
/// more backticks or tildes) stays in one block until its closing fence,
/// blank lines included. Every line of a block ends with a newline.
pub fn split_into_blocks(md: &str) -> (blocks: Vec<String>)
    ensures
        views(blocks@) == blocks_of(md@),
{
    let ls = lines(md);
    let ghost lv = views(ls@);
    let mut blocks: Vec<String> = Vec::new();
    let mut current = String::new();
    let mut in_fence = false;
    let mut fence_char = '`';
    let mut fence_len: usize = 0;
    let mut i: usize = 0;
    while i < ls.len()
        invariant
            i <= ls.len(),
            lv == views(ls@),
            lv.len() == ls.len(),
            ({
                let st = split_fold(lv.take(i as int));
                &&& views(blocks@) == st.blocks
                &&& current@ == st.current
                &&& in_fence == st.in_fence
                &&& fence_char == st.fence_char
                &&& fence_len == st.fence_len
            }),
        decreases ls.len() - i,
    {
        assert(lv.take(i + 1).drop_last() =~= lv.take(i as int));
        assert(lv.take(i + 1).last() == ls@[i as int]@);
        let line = &ls[i];
        let cs = chars_of(line.as_str());
        let start = ws_prefix(&cs);
        assert(cs@.skip(start as int) == trim_start(line@));
        if !in_fence {
            if opens_fence_at(&cs, start) {
                fence_char = cs[start];
                fence_len = run_length(&cs, start, fence_char);
                in_fence = true;
                append_line(&mut current, line);
            } else if start == cs.len() {
                let cur = chars_of(current.as_str());
                if !all_whitespace_from(&cur, 0) {
                    assert(cur@.skip(0) =~= cur@);
                    blocks.push(current);
                    assert(views(blocks@) =~= split_fold(lv.take(i as int)).blocks.push(cur@));
                } else {
                    assert(cur@.skip(0) =~= cur@);
                }
                current = String::new();
            } else {
                append_line(&mut current, line);
            }
        } else {
            append_line(&mut current, line);
            if start < cs.len() && cs[start] == fence_char {
                let close_len = run_length(&cs, start, fence_char);
                assert(cs@.skip(start as int).skip(close_len as int) =~= cs@.skip(
                    start + close_len,
                ));
                if close_len >= fence_len && all_whitespace_from(&cs, start + close_len) {
                    in_fence = false;
                    let ghost cur = current@;
                    blocks.push(current);
                    assert(views(blocks@) =~= split_fold(lv.take(i as int)).blocks.push(cur));
                    current = String::new();
                }
            }
        }
        i = i + 1;
    }
    assert(lv.take(ls.len() as int) =~= lv);
    if !current.as_str().is_empty() {
        let ghost cur = current@;
        let ghost old_blocks = views(blocks@);
        blocks.push(current);
        assert(views(blocks@) =~= old_blocks.push(cur));
    }
    if blocks.len() == 0 {
        blocks.push(String::new());
        assert(views(blocks@) =~= seq![Seq::<char>::empty()]);
    }
    blocks
}

/// The open code fence after one more line, as its character and length:
/// a fence marker opens one when none is open, and the open one is closed
/// only by a line of at least as many of its own character followed by
/// nothing but whitespace, as the block splitter closes it.
pub open spec fn fence_step(fence: Option<(char, nat)>, line: Seq<char>) -> Option<(char, nat)> {
    let t = trim_start(line);
    match fence {
        None => if opens_fence(t) {
            Some((t[0], run_len(t, t[0])))
        } else {
            None
        },
        Some((c, n)) => if closes_fence(t, c, n) {
            None
        } else {
            fence
        },
    }
}

pub open spec fn fence_fold(lines: Seq<Seq<char>>) -> Option<(char, nat)>
    decreases lines.len(),
{
    if lines.len() == 0 {
        None
    } else {
        fence_step(fence_fold(lines.drop_last()), lines.last())
    }
}

/// A code fence of `src` is left open.
pub open spec fn incomplete(src: Seq<char>) -> bool {
    fence_fold(lines_of(src)) is Some
}

/// True when `src` leaves a code fence open, so that its rendering is
/// still being streamed.
pub fn is_incomplete(src: &str) -> (r: bool)
    ensures
        r == incomplete(src@),
{
    let ls = lines(src);
    let ghost lv = views(ls@);
    let mut fence: Option<(char, usize)> = None;
    let mut i: usize = 0;
    while i < ls.len()
        invariant
            i <= ls.len(),
            lv == views(ls@),
            lv.len() == ls.len(),
            fence_fold(lv.take(i as int)) == match fence {
                Some((c, n)) => Some((c, n as nat)),
                None => None::<(char, nat)>,
            },
        decreases ls.len() - i,
    {
        assert(lv.take(i + 1).drop_last() =~= lv.take(i as int));
        assert(lv.take(i + 1).last() == ls@[i as int]@);
        let cs = chars_of(ls[i].as_str());
        let start = ws_prefix(&cs);
        assert(cs@.skip(start as int) == trim_start(ls@[i as int]@));
        match fence {
            None => {
                if opens_fence_at(&cs, start) {
                    let c = cs[start];
                    let n = run_length(&cs, start, c);
                    fence = Some((c, n));
                }
            },
            Some((c, n)) => {
                if start < cs.len() && cs[start] == c {
                    let close_len = run_length(&cs, start, c);
                    assert(cs@.skip(start as int).skip(close_len as int) =~= cs@.skip(
                        start + close_len,
                    ));
                    if close_len >= n && all_whitespace_from(&cs, start + close_len) {
                        fence = None;
                    }
                }
            },
        }
        i = i + 1;
    }
    assert(lv.take(ls.len() as int) =~= lv);
    fence.is_some()
}

/// Every block the splitter has closed, and the pending one when there
/// is one, ends with a newline.
proof fn lemma_split_fold_lines_end(lines: Seq<Seq<char>>)
    ensures
        forall|i: int|
            0 <= i < split_fold(lines).blocks.len() ==> (#[trigger] split_fold(lines).blocks[i]).len() > 0
                && split_fold(lines).blocks[i].last() == '\n',
        split_fold(lines).current.len() == 0 || split_fold(lines).current.last() == '\n',
    decreases lines.len(),
{
    if lines.len() > 0 {
        lemma_split_fold_lines_end(lines.drop_last());
        let st = split_fold(lines.drop_last());
        let line = lines.last();
        assert(with_line(st.current, line).last() == '\n');
        if !st.in_fence && trim_start(line).len() == 0 && !all_ws(st.current) {
            assert(st.current.len() > 0);
        }
    }
}

/// A document always splits into at least one block; every block ends
/// with a newline, except the single empty block of a document without
/// any.
pub proof fn blocks_end_with_newline(md: Seq<char>)
    ensures
        blocks_of(md).len() >= 1,
        blocks_of(md) == seq![Seq::<char>::empty()] || forall|i: int|
            0 <= i < blocks_of(md).len() ==> (#[trigger] blocks_of(md)[i]).len() > 0
                && blocks_of(md)[i].last() == '\n',
{
    lemma_split_fold_lines_end(lines_of(md));
}

// ---------------------------------------------------------------------
// Text after a blank line
// ---------------------------------------------------------------------

/// The splitter from the state `st` after reading `lines`.
pub open spec fn split_run(st: SplitState, lines: Seq<Seq<char>>) -> SplitState
    decreases lines.len(),
{
    if lines.len() == 0 {
        st
    } else {
        split_step(split_run(st, lines.drop_last()), lines.last())
    }
}

proof fn lemma_fold_is_run(lines: Seq<Seq<char>>)
    ensures
        split_fold(lines) == split_run(split_start(), lines),
    decreases lines.len(),
{
    if lines.len() > 0 {
        lemma_fold_is_run(lines.drop_last());
    }
}

proof fn lemma_run_concat(st: SplitState, x: Seq<Seq<char>>, y: Seq<Seq<char>>)
    ensures
        split_run(st, x + y) == split_run(split_run(st, x), y),
    decreases y.len(),
{
    if y.len() == 0 {
        assert(x + y =~= x);
    } else {
        lemma_run_concat(st, x, y.drop_last());
        assert((x + y).drop_last() =~= x + y.drop_last());
        assert((x + y).last() == y.last());
    }
}

/// No line opens a code fence.
pub open spec fn no_fence(lines: Seq<Seq<char>>) -> bool {
    forall|k: int| 0 <= k < lines.len() ==> !opens_fence(trim_start(#[trigger] lines[k]))
}

/// The splitter outside any fence, with its fence fields as at the start,
/// and a pending block that is empty or holds a non-blank line.
spec fn plain_state(st: SplitState) -> bool {
    &&& !st.in_fence
    &&& st.fence_char == '`'
    &&& st.fence_len == 0
    &&& (st.current.len() == 0 || !all_ws(st.current))
}

/// Where the leading whitespace stops, there is a character that is not
/// whitespace.
proof fn lemma_ws_prefix_stop(s: Seq<char>)
    ensures
        ws_prefix_len(s) <= s.len(),
        ws_prefix_len(s) < s.len() ==> !is_ws(s[ws_prefix_len(s) as int]),
    decreases s.len(),
{
    if s.len() > 0 && is_ws(s[0]) {
        lemma_ws_prefix_stop(s.drop_first());
        if ws_prefix_len(s) < s.len() {
            assert(s[ws_prefix_len(s) as int] == s.drop_first()[ws_prefix_len(s.drop_first()) as int]);
        }
    }
}

proof fn lemma_step_plain(st: SplitState, line: Seq<char>)
    requires
        plain_state(st),
        !opens_fence(trim_start(line)),
    ensures
        plain_state(split_step(st, line)),
{
    let t = trim_start(line);
    lemma_ws_prefix_stop(line);
    if t.len() > 0 {
        let w = ws_prefix_len(line) as int;
        let c = with_line(st.current, line);
        assert(t[0] == line[w]);
        assert(c[st.current.len() + w] == line[w]);
        assert(!is_ws(c[st.current.len() + w]));
    }
}

proof fn lemma_run_plain(st: SplitState, lines: Seq<Seq<char>>)
    requires
        plain_state(st),
        no_fence(lines),
    ensures
        plain_state(split_run(st, lines)),
    decreases lines.len(),
{
    if lines.len() > 0 {
        assert(no_fence(lines.drop_last())) by {
            assert forall|k: int| 0 <= k < lines.drop_last().len() implies !opens_fence(
                trim_start(#[trigger] lines.drop_last()[k]),
            ) by {
                assert(lines.drop_last()[k] == lines[k]);
            }
        }
        lemma_run_plain(st, lines.drop_last());
        lemma_step_plain(split_run(st, lines.drop_last()), lines.last());
    }
}

/// `x` with the blocks `before` ahead of its own.
pub open spec fn after_blocks(before: Seq<Seq<char>>, x: SplitState) -> SplitState {
    SplitState { blocks: before + x.blocks, ..x }
}

/// From a plain state with nothing pending, the splitter goes on as from
/// the start, its earlier blocks kept ahead.
proof fn lemma_run_after(st: SplitState, lines: Seq<Seq<char>>)
    requires
        plain_state(st),
        st.current.len() == 0,
        no_fence(lines),
    ensures
        split_run(st, lines) == after_blocks(st.blocks, split_run(split_start(), lines)),
    decreases lines.len(),
{
    if lines.len() == 0 {
        assert(st.blocks + Seq::<Seq<char>>::empty() =~= st.blocks);
        assert(st.current =~= Seq::<char>::empty());
    } else {
        assert(no_fence(lines.drop_last())) by {
            assert forall|k: int| 0 <= k < lines.drop_last().len() implies !opens_fence(
                trim_start(#[trigger] lines.drop_last()[k]),
            ) by {
                assert(lines.drop_last()[k] == lines[k]);
            }
        }
        lemma_run_after(st, lines.drop_last());
        let x = split_run(split_start(), lines.drop_last());
        let cur = x.current;
        assert((st.blocks + x.blocks).push(cur) =~= st.blocks + x.blocks.push(cur));
        assert(split_step(after_blocks(st.blocks, x), lines.last()) == after_blocks(
            st.blocks,
            split_step(x, lines.last()),
        ));
    }
}

/// Reading a non-blank line without fences leaves a block or a pending
/// one.
proof fn lemma_run_not_empty(lines: Seq<Seq<char>>, k: int)
    requires
        no_fence(lines),
        0 <= k < lines.len(),
        trim_start(lines[k]).len() > 0,
    ensures
        split_run(split_start(), lines).blocks.len() > 0 || split_run(split_start(), lines).current.len()
            > 0,
    decreases lines.len(),
{
    let prev = lines.drop_last();
    assert(no_fence(prev)) by {
        assert forall|j: int| 0 <= j < prev.len() implies !opens_fence(trim_start(#[trigger] prev[j])) by {
            assert(prev[j] == lines[j]);
        }
    }
    lemma_run_plain(split_start(), prev);
    let y = split_run(split_start(), prev);
    if k < lines.len() - 1 {
        assert(prev[k] == lines[k]);
        lemma_run_not_empty(prev, k);
    }
}

/// The blocks a plain state stands for once the text ends.
proof fn lemma_finish_plain(st: SplitState)
    requires
        plain_state(st),
        st.blocks.len() > 0 || st.current.len() > 0,
    ensures
        split_finish(st) == split_step(st, Seq::<char>::empty()).blocks,
        split_finish(st).len() > 0,
{
    assert(trim_start(Seq::<char>::empty()) =~= Seq::<char>::empty());
    if st.current.len() == 0 {
        assert(all_ws(st.current));
    }
}

/// Without carriage returns, the lines of a text are its pieces between
/// newlines, less a last empty piece.
proof fn lemma_lines_no_cr(s: Seq<char>)
    requires
        forall|i: int| 0 <= i < s.len() ==> s[i] != '\r',
    ensures
        lines_of(s) == if split_nl(s).last().len() == 0 {
            split_nl(s).drop_last()
        } else {
            split_nl(s)
        },
{
    let p = split_nl(s);
    lemma_split_nl_no_cr(s);
    lemma_split_nl_len(s);
    let ended = p.drop_last().map_values(|l: Seq<char>| strip_cr(l));
    assert forall|k: int| 0 <= k < ended.len() implies ended[k] == p[k] by {
        if p[k].len() > 0 {
            assert(p[k][p[k].len() - 1] != '\r');
        }
    }
    assert(ended =~= p.drop_last());
    if p.last().len() > 0 {
        assert(ended.push(p.last()) =~= p);
    }
}

/// Splitting at a newline splits the pieces there.
proof fn lemma_split_nl_join(x: Seq<char>, y: Seq<char>)
    ensures
        split_nl(x + seq!['\n'] + y) == split_nl(x) + split_nl(y),
    decreases x.len(),
{
    let s = x + seq!['\n'] + y;
    if x.len() == 0 {
        assert(s.drop_first() =~= y);
        assert(s[0] == '\n');
    } else {
        lemma_split_nl_join(x.drop_first(), y);
        lemma_split_nl_len(x.drop_first());
        assert(s.drop_first() =~= x.drop_first() + seq!['\n'] + y);
        assert(s[0] == x[0]);
        let px = split_nl(x.drop_first());
        let py = split_nl(y);
        if x[0] == '\n' {
            assert(seq![Seq::<char>::empty()] + (px + py) =~= (seq![Seq::<char>::empty()] + px) + py);
        } else {
            assert((px + py).update(0, seq![x[0]] + (px + py)[0]) =~= px.update(0, seq![x[0]] + px[0]) + py);
        }
    }
}

/// Text after a blank line never changes the blocks before it: for texts
/// `a` and `b` without carriage returns or code fences, each with a line
/// that is not blank, the blocks of `a`, a blank line and `b` are the
/// blocks of `a` followed by those of `b`.
pub proof fn blank_line_separates_blocks(a: Seq<char>, b: Seq<char>)
    requires
        forall|i: int| 0 <= i < a.len() ==> a[i] != '\r',
        forall|i: int| 0 <= i < b.len() ==> b[i] != '\r',
        no_fence(split_nl(a)),
        no_fence(split_nl(b)),
        exists|k: int| 0 <= k < split_nl(a).len() && trim_start(#[trigger] split_nl(a)[k]).len() > 0,
        exists|k: int| 0 <= k < split_nl(b).len() && trim_start(#[trigger] split_nl(b)[k]).len() > 0,
    ensures
        blocks_of(a + seq!['\n', '\n'] + b) == blocks_of(a) + blocks_of(b),
{
    let nl = seq!['\n'];
    let e = Seq::<char>::empty();
    let w = a + seq!['\n', '\n'] + b;
    let pa = split_nl(a);
    let pb = split_nl(b);
    lemma_split_nl_len(a);
    lemma_split_nl_len(b);
    // The pieces of the whole text.
    assert(w =~= a + nl + (nl + b));
    lemma_split_nl_join(a, nl + b);
    lemma_split_nl_join(e, b);
    assert(e + nl + b =~= nl + b);
    assert(split_nl(e) =~= seq![e]);
    let pw = split_nl(w);
    assert(pw =~= pa + (seq![e] + pb));
    // Its lines.
    lemma_lines_no_cr(a);
    lemma_lines_no_cr(b);
    assert forall|i: int| 0 <= i < w.len() implies w[i] != '\r' by {
        if i < a.len() {
            assert(w[i] == a[i]);
        } else if i >= a.len() + 2 {
            assert(w[i] == b[i - a.len() - 2]);
        }
    }
    lemma_lines_no_cr(w);
    let la = lines_of(a);
    let lb = lines_of(b);
    let lw = lines_of(w);
    assert(pw.last() == pb.last());
    assert(lw =~= pa + (seq![e] + lb));
    // No line of the whole text opens a fence.
    assert(trim_start(e) =~= e);
    assert(no_fence(lw)) by {
        assert forall|k: int| 0 <= k < lw.len() implies !opens_fence(trim_start(#[trigger] lw[k])) by {
            if k < pa.len() {
                assert(lw[k] == pa[k]);
            } else if k > pa.len() {
                assert(lw[k] == lb[k - pa.len() - 1]);
                assert(lb[k - pa.len() - 1] == pb[k - pa.len() - 1]);
            }
        }
    }
    assert(no_fence(la)) by {
        assert forall|k: int| 0 <= k < la.len() implies !opens_fence(trim_start(#[trigger] la[k])) by {
            assert(la[k] == pa[k]);
        }
    }
    assert(no_fence(lb)) by {
        assert forall|k: int| 0 <= k < lb.len() implies !opens_fence(trim_start(#[trigger] lb[k])) by {
            assert(lb[k] == pb[k]);
        }
    }
    assert(no_fence(pa)) by {
        assert forall|k: int| 0 <= k < pa.len() implies !opens_fence(trim_start(#[trigger] pa[k])) by {}
    }
    // Reading the whole text: the lines of `a`, blank lines, the lines of `b`.
    let start = split_start();
    lemma_fold_is_run(lw);
    lemma_fold_is_run(la);
    lemma_fold_is_run(lb);
    lemma_run_concat(start, pa, seq![e] + lb);
    lemma_run_concat(split_run(start, pa), seq![e], lb);
    let sa = split_run(start, la);
    lemma_run_plain(start, la);
    lemma_run_plain(start, lb);
    let blank = split_step(sa, e);
    if pa.last().len() == 0 {
        assert(pa.last() =~= e);
        assert(pa =~= la + seq![e]);
        lemma_run_concat(start, la, seq![e]);
        assert(seq![e].drop_last() =~= Seq::<Seq<char>>::empty());
        assert(split_run(start, pa) == blank);
        assert(split_step(blank, e) == blank);
    } else {
        assert(pa =~= la);
        assert(split_run(split_run(start, pa), seq![e]) == split_step(split_run(split_run(start, pa), seq![e].drop_last()), e));
    }
    assert(seq![e].drop_last() =~= Seq::<Seq<char>>::empty());
    assert(split_run(split_run(start, pa), seq![e]) == blank);
    lemma_step_plain(sa, e);
    lemma_run_after(blank, lb);
    // Each text has a block.
    let ka = choose|k: int| 0 <= k < pa.len() && trim_start(#[trigger] pa[k]).len() > 0;
    let kb = choose|k: int| 0 <= k < pb.len() && trim_start(#[trigger] pb[k]).len() > 0;
    assert(ka < la.len() && la[ka] == pa[ka]);
    assert(kb < lb.len() && lb[kb] == pb[kb]);
    lemma_run_not_empty(la, ka);
    lemma_run_not_empty(lb, kb);
    let sb = split_run(start, lb);
    lemma_finish_plain(sa);
    let fw = after_blocks(blank.blocks, sb);
    assert(split_finish(fw) =~= blank.blocks + split_finish(sb));
}

/// Leading whitespace in front of a line does not change the line once
/// trimmed.
pub proof fn lemma_trim_after_ws(ws: Seq<char>, l: Seq<char>)
    requires
        all_ws(ws),
    ensures
        trim_start(ws + l) == trim_start(l),
    decreases ws.len(),
{
    if ws.len() > 0 {
        assert((ws + l).drop_first() =~= ws.drop_first() + l);
        assert((ws + l)[0] == ws[0]);
        assert(all_ws(ws.drop_first())) by {
            assert forall|i: int| 0 <= i < ws.drop_first().len() implies #[trigger] is_ws(
                ws.drop_first()[i],
            ) by {
                assert(ws.drop_first()[i] == ws[i + 1]);
            }
        }
        lemma_trim_after_ws(ws.drop_first(), l);
        assert(ws_prefix_len(ws + l) == 1 + ws_prefix_len(ws.drop_first() + l));
        lemma_ws_prefix_stop(ws.drop_first() + l);
        assert((ws + l).skip(ws_prefix_len(ws + l) as int) =~= (ws.drop_first() + l).skip(
            ws_prefix_len(ws.drop_first() + l) as int,
        ));
    } else {
        assert(ws + l =~= l);
    }
}

/// Fences are recognised on the trimmed line: indenting a line changes
/// neither whether it opens or closes a fence (for the splitter and for
/// the fence tracker alike) nor where blocks end.
pub proof fn fences_ignore_indentation(st: SplitState, f: Option<(char, nat)>, ws: Seq<char>, l: Seq<char>)
    requires
        all_ws(ws),
    ensures
        split_step(st, ws + l).in_fence == split_step(st, l).in_fence,
        split_step(st, ws + l).fence_char == split_step(st, l).fence_char,
        split_step(st, ws + l).fence_len == split_step(st, l).fence_len,
        split_step(st, ws + l).blocks.len() == split_step(st, l).blocks.len(),
        fence_step(f, ws + l) == fence_step(f, l),
{
    lemma_trim_after_ws(ws, l);
}

/// The block splitter and the fence tracker agree: after any lines, the
/// splitter is inside a fence exactly when the tracker has one open, with
/// the same character and length.
pub proof fn splitter_agrees_with_fence_tracker(lines: Seq<Seq<char>>)
    ensures
        split_fold(lines).in_fence == fence_fold(lines) is Some,
        fence_fold(lines) matches Some((c, n)) ==> split_fold(lines).fence_char == c
            && split_fold(lines).fence_len == n,
    decreases lines.len(),
{
    if lines.len() > 0 {
        splitter_agrees_with_fence_tracker(lines.drop_last());
    }
}

} // verus!
