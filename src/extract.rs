//! Line-oriented extraction of comment blocks from source text.
//!
//! Each line is trimmed first. A line starting with `//` opens a run of line
//! comments that lasts while lines keep starting with `//`; a line starting
//! with `/*` that holds no `*/` opens a block comment that lasts up to and
//! including a line that is exactly `*/`. Comments after code on the same
//! line, and nested block comments, are not recognised.

use crate::text::{
    chars_of, has_close, has_prefix, starts_with, contains_close, string_of, trimmed, trimmed_lines,
    lines_of, views,
};
use vstd::prelude::*;

verus! {

pub open spec fn is_line_comment(l: Seq<char>) -> bool {
    starts_with(l, seq!['/', '/'])
}

pub open spec fn opens_block(l: Seq<char>) -> bool {
    starts_with(l, seq!['/', '*']) && !contains_close(l)
}

pub open spec fn closes_block(l: Seq<char>) -> bool {
    l == seq!['*', '/']
}

pub open spec fn starts_comment(l: Seq<char>) -> bool {
    is_line_comment(l) || opens_block(l)
}

/// The index of the first line at or after `pos` that opens a comment, or
/// the number of lines when there is none.
pub open spec fn next_start(ls: Seq<Seq<char>>, pos: int) -> int
    decreases ls.len() - pos,
{
    if pos >= ls.len() {
        ls.len() as int
    } else if starts_comment(ls[pos]) {
        pos
    } else {
        next_start(ls, pos + 1)
    }
}

/// The index of the first line at or after `pos` that is no line comment,
/// or the number of lines when there is none.
pub open spec fn line_run_end(ls: Seq<Seq<char>>, pos: int) -> int
    decreases ls.len() - pos,
{
    if pos >= ls.len() {
        ls.len() as int
    } else if !is_line_comment(ls[pos]) {
        pos
    } else {
        line_run_end(ls, pos + 1)
    }
}

/// One past the first line at or after `pos` that closes a block comment, or
/// the number of lines when there is none.
pub open spec fn block_end(ls: Seq<Seq<char>>, pos: int) -> int
    decreases ls.len() - pos,
{
    if pos >= ls.len() {
        ls.len() as int
    } else if closes_block(ls[pos]) {
        pos + 1
    } else {
        block_end(ls, pos + 1)
    }
}

/// One past the last line of the comment that opens at line `start`.
pub open spec fn comment_end(ls: Seq<Seq<char>>, start: int) -> int {
    if is_line_comment(ls[start]) {
        line_run_end(ls, start + 1)
    } else {
        block_end(ls, start + 1)
    }
}

/// Whether the comment that opens at line `start` is still open when the
/// lines run out.
pub open spec fn ends_open(ls: Seq<Seq<char>>, start: int) -> bool {
    if is_line_comment(ls[start]) {
        comment_end(ls, start) == ls.len()
    } else {
        !closes_block(ls[comment_end(ls, start) - 1])
    }
}

/// The lines `ls`, each followed by a newline.
pub open spec fn joined(ls: Seq<Seq<char>>) -> Seq<char>
    decreases ls.len(),
{
    if ls.len() == 0 {
        Seq::empty()
    } else {
        joined(ls.drop_last()) + ls.last().push('\n')
    }
}

pub proof fn lemma_next_start_bounds(ls: Seq<Seq<char>>, pos: int)
    requires
        0 <= pos,
    ensures
        next_start(ls, pos) >= pos || next_start(ls, pos) == ls.len(),
        next_start(ls, pos) < ls.len() ==> starts_comment(ls[next_start(ls, pos)]),
    decreases ls.len() - pos,
{
    if pos < ls.len() && !starts_comment(ls[pos]) {
        lemma_next_start_bounds(ls, pos + 1);
    }
}

pub proof fn lemma_comment_end_bounds(ls: Seq<Seq<char>>, start: int)
    requires
        0 <= start < ls.len(),
    ensures
        start < comment_end(ls, start) <= ls.len(),
{
    lemma_line_run_end_bounds(ls, start + 1);
    lemma_block_end_bounds(ls, start + 1);
}

proof fn lemma_line_run_end_bounds(ls: Seq<Seq<char>>, pos: int)
    requires
        0 <= pos <= ls.len(),
    ensures
        pos <= line_run_end(ls, pos) <= ls.len(),
    decreases ls.len() - pos,
{
    if pos < ls.len() && is_line_comment(ls[pos]) {
        lemma_line_run_end_bounds(ls, pos + 1);
    }
}

proof fn lemma_block_end_bounds(ls: Seq<Seq<char>>, pos: int)
    requires
        0 <= pos <= ls.len(),
    ensures
        pos <= block_end(ls, pos) <= ls.len(),
    decreases ls.len() - pos,
{
    if pos < ls.len() && !closes_block(ls[pos]) {
        lemma_block_end_bounds(ls, pos + 1);
    }
}

/// A block that ends before the last line is closed.
pub proof fn lemma_closed_before_end(ls: Seq<Seq<char>>, start: int)
    requires
        0 <= start < ls.len(),
        starts_comment(ls[start]),
        comment_end(ls, start) < ls.len(),
    ensures
        !ends_open(ls, start),
{
    if !is_line_comment(ls[start]) {
        lemma_block_end_closes(ls, start + 1);
    }
}

proof fn lemma_block_end_closes(ls: Seq<Seq<char>>, pos: int)
    requires
        0 <= pos <= ls.len(),
        block_end(ls, pos) < ls.len(),
    ensures
        pos < block_end(ls, pos),
        closes_block(ls[block_end(ls, pos) - 1]),
    decreases ls.len() - pos,
{
    if pos < ls.len() && !closes_block(ls[pos]) {
        lemma_block_end_closes(ls, pos + 1);
    }
}

/// The comment blocks of the lines from index `pos` on: for each, the
/// 1-based number of its first line and its text.
pub open spec fn blocks_from(ls: Seq<Seq<char>>, pos: int) -> Seq<(int, Seq<char>)>
    decreases ls.len() - pos,
    when 0 <= pos
    via blocks_from_decreases
{
    let s = next_start(ls, pos);
    if s >= ls.len() {
        Seq::empty()
    } else {
        let e = comment_end(ls, s);
        seq![(s + 1, joined(ls.subrange(s, e)))] + blocks_from(ls, e)
    }
}

/// Whether the last comment block of the lines from index `pos` on is still
/// open when the lines run out.
pub open spec fn ends_open_from(ls: Seq<Seq<char>>, pos: int) -> bool
    decreases ls.len() - pos,
    when 0 <= pos
    via ends_open_from_decreases
{
    let s = next_start(ls, pos);
    if s >= ls.len() {
        false
    } else if comment_end(ls, s) >= ls.len() {
        ends_open(ls, s)
    } else {
        ends_open_from(ls, comment_end(ls, s))
    }
}

#[via_fn]
proof fn blocks_from_decreases(ls: Seq<Seq<char>>, pos: int) {
    lemma_next_start_bounds(ls, pos);
    let s = next_start(ls, pos);
    if s < ls.len() {
        lemma_comment_end_bounds(ls, s);
    }
}

#[via_fn]
proof fn ends_open_from_decreases(ls: Seq<Seq<char>>, pos: int) {
    lemma_next_start_bounds(ls, pos);
    let s = next_start(ls, pos);
    if s < ls.len() {
        lemma_comment_end_bounds(ls, s);
    }
}

/// The comment blocks of text `t`.
pub open spec fn blocks_of(t: Seq<char>) -> Seq<(int, Seq<char>)> {
    blocks_from(trimmed(lines_of(t)), 0)
}

/// Whether text `t` ends inside its last comment block.
pub open spec fn ends_inside_comment(t: Seq<char>) -> bool {
    ends_open_from(trimmed(lines_of(t)), 0)
}

/// Whether line `l` is a line comment.
pub fn is_line_comment_line(l: &Vec<char>) -> (r: bool)
    ensures
        r == is_line_comment(l@),
{
    let p = vec!['/', '/'];
    assert(p@ =~= seq!['/', '/']);
    has_prefix(l.as_slice(), p.as_slice())
}

/// Whether line `l` opens a block comment.
pub fn opens_block_line(l: &Vec<char>) -> (r: bool)
    ensures
        r == opens_block(l@),
{
    let p = vec!['/', '*'];
    assert(p@ =~= seq!['/', '*']);
    has_prefix(l.as_slice(), p.as_slice()) && !has_close(l.as_slice())
}

/// Whether line `l` closes a block comment.
pub fn closes_block_line(l: &Vec<char>) -> (r: bool)
    ensures
        r == closes_block(l@),
{
    let r = l.len() == 2 && l[0] == '*' && l[1] == '/';
    assert(r ==> l@ =~= seq!['*', '/']);
    r
}

/// Where the scan stands: outside any comment, or inside one that opened at
/// the given line index.
enum ScanState {
    NoComment,
    InLineComment(usize),
    InBlockComment(usize),
}

/// Walks the comment blocks of one text, one block per call of `next`.
pub struct CommentIterator {
    lines: Vec<Vec<char>>,
    pos: usize,
    open_at_end: bool,
}

impl CommentIterator {
    /// The trimmed lines of the text.
    pub closed spec fn lines(&self) -> Seq<Seq<char>> {
        views(self.lines@)
    }

    /// The index of the first line not yet scanned.
    pub closed spec fn pos(&self) -> int {
        self.pos as int
    }

    /// Whether the last block handed out was still open at the end of the text.
    pub closed spec fn open_at_end(&self) -> bool {
        self.open_at_end
    }

    #[verifier::type_invariant]
    spec fn wf(&self) -> bool {
        self.pos <= self.lines@.len()
    }

    pub fn new(input: &str) -> (r: CommentIterator)
        ensures
            r.lines() == trimmed(lines_of(input@)),
            r.pos() == 0,
            !r.open_at_end(),
    {
        let cs = chars_of(input);
        let lines = trimmed_lines(cs.as_slice());
        CommentIterator { lines, pos: 0, open_at_end: false }
    }

    /// Hands out the next comment block, with the 1-based number of its
    /// first line, or `None` when no comment opens in the remaining lines.
    /// A line that ends a run of line comments is looked at again as a
    /// possible start of the next block.
    pub fn next(&mut self) -> (r: Option<(usize, String)>)
        ensures
            final(self).lines() == old(self).lines(),
            final(self).pos() <= final(self).lines().len(),
            ({
                let ls = old(self).lines();
                let s = next_start(ls, old(self).pos());
                if s >= ls.len() {
                    &&& r is None
                    &&& final(self).pos() == ls.len()
                    &&& final(self).open_at_end() == old(self).open_at_end()
                } else {
                    &&& r is Some
                    &&& r.unwrap().0 == s + 1
                    &&& r.unwrap().1@ == joined(ls.subrange(s, comment_end(ls, s)))
                    &&& final(self).pos() == comment_end(ls, s)
                    &&& final(self).open_at_end() == ends_open(ls, s)
                }
            }),
    {
        proof {
            use_type_invariant(&*self);
        }
        let ghost ls = self.lines();
        let ghost pos = self.pos();
        let n = self.lines.len();
        let mut i = self.pos;
        let mut state = ScanState::NoComment;
        while i < n
            invariant
                self.lines() == ls,
                self.pos() == pos,
                ls == old(self).lines(),
                pos == old(self).pos(),
                self.open_at_end() == old(self).open_at_end(),
                n == ls.len(),
                pos <= i <= n,
                match state {
                    ScanState::NoComment => next_start(ls, pos) == next_start(ls, i as int),
                    ScanState::InLineComment(st) => {
                        &&& st == next_start(ls, pos)
                        &&& st < i
                        &&& is_line_comment(ls[st as int])
                        &&& line_run_end(ls, st + 1) == line_run_end(ls, i as int)
                    },
                    ScanState::InBlockComment(st) => {
                        &&& st == next_start(ls, pos)
                        &&& st < i
                        &&& !is_line_comment(ls[st as int])
                        &&& opens_block(ls[st as int])
                        &&& block_end(ls, st + 1) == block_end(ls, i as int)
                        &&& forall|k: int| st < k < i ==> !closes_block(#[trigger] ls[k])
                    },
                },
            decreases n - i,
        {
            let line = &self.lines[i];
            match state {
                ScanState::NoComment => {
                    if is_line_comment_line(line) {
                        state = ScanState::InLineComment(i);
                    } else if opens_block_line(line) {
                        state = ScanState::InBlockComment(i);
                    }
                },
                ScanState::InLineComment(st) => {
                    if !is_line_comment_line(line) {
                        let text = Self::join(&self.lines, st, i);
                        self.pos = i;
                        self.open_at_end = false;
                        return Some((st + 1, text));
                    }
                },
                ScanState::InBlockComment(st) => {
                    if closes_block_line(line) {
                        let text = Self::join(&self.lines, st, i + 1);
                        self.pos = i + 1;
                        self.open_at_end = false;
                        return Some((st + 1, text));
                    }
                },
            }
            i = i + 1;
        }
        match state {
            ScanState::NoComment => {
                self.pos = n;
                None
            },
            ScanState::InLineComment(st) => {
                let text = Self::join(&self.lines, st, n);
                self.pos = n;
                self.open_at_end = true;
                Some((st + 1, text))
            },
            ScanState::InBlockComment(st) => {
                let text = Self::join(&self.lines, st, n);
                self.pos = n;
                self.open_at_end = true;
                proof {
                    if st + 1 < n {
                        assert(!closes_block(ls[n - 1]));
                    } else {
                        assert(ls[st as int][0] == '/');
                        assert(!closes_block(ls[n - 1]));
                    }
                }
                Some((st + 1, text))
            },
        }
    }

    /// Whether the last block handed out by `next` was still open when the
    /// text ended.
    pub fn ended_inside_comment(&self) -> (r: bool)
        ensures
            r == self.open_at_end(),
    {
        self.open_at_end
    }

    /// The text of lines `a` up to `b` (not included), each followed by a
    /// newline.
    pub fn join(lines: &Vec<Vec<char>>, a: usize, b: usize) -> (r: String)
        requires
            a <= b <= lines@.len(),
        ensures
            r@ == joined(views(lines@).subrange(a as int, b as int)),
    {
        let mut out: Vec<char> = Vec::new();
        let mut i: usize = a;
        while i < b
            invariant
                a <= i <= b <= lines@.len(),
                out@ == joined(views(lines@).subrange(a as int, i as int)),
            decreases b - i,
        {
            let line = &lines[i];
            let ghost before = out@;
            let mut k: usize = 0;
            while k < line.len()
                invariant
                    k <= line@.len(),
                    out@ == before + line@.take(k as int),
                decreases line@.len() - k,
            {
                out.push(line[k]);
                k = k + 1;
                assert(out@ =~= before + line@.take(k as int));
            }
            out.push('\n');
            proof {
                let ls = views(lines@);
                assert(ls.subrange(a as int, i + 1).drop_last() =~= ls.subrange(a as int, i as int));
                assert(ls.subrange(a as int, i + 1).last() == line@);
                assert(line@.take(line@.len() as int) =~= line@);
                assert(out@ =~= joined(ls.subrange(a as int, i + 1)));
            }
            i = i + 1;
        }
        string_of(out.as_slice())
    }
}

} // verus!
