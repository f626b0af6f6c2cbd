//! Character-level helpers over `Seq<char>`: whitespace, trimming, prefixes.

use vstd::prelude::*;
use vstd::std_specs::iter::IteratorSpec;

verus! {

/// The characters with the Unicode `White_Space` property, which is what
/// `char::is_whitespace` tests.
pub open spec fn is_ws(c: char) -> bool {
    c == '\t' || c == '\n' || c == '\x0B' || c == '\x0C' || c == '\r' || c == ' '
        || c == '\u{85}' || c == '\u{A0}' || c == '\u{1680}' || ('\u{2000}' <= c
        && c <= '\u{200A}') || c == '\u{2028}' || c == '\u{2029}' || c == '\u{202F}'
        || c == '\u{205F}' || c == '\u{3000}'
}

pub fn is_whitespace(c: char) -> (r: bool)
    ensures
        r == is_ws(c),
{
    c == '\t' || c == '\n' || c == '\x0B' || c == '\x0C' || c == '\r' || c == ' '
        || c == '\u{85}' || c == '\u{A0}' || c == '\u{1680}' || ('\u{2000}' <= c
        && c <= '\u{200A}') || c == '\u{2028}' || c == '\u{2029}' || c == '\u{202F}'
        || c == '\u{205F}' || c == '\u{3000}'
}

/// `s` with its leading whitespace removed.
pub open spec fn trim_start(s: Seq<char>) -> Seq<char>
    decreases s.len(),
{
    if s.len() > 0 && is_ws(s[0]) {
        trim_start(s.drop_first())
    } else {
        s
    }
}

/// `s` with its trailing whitespace removed.
pub open spec fn trim_end(s: Seq<char>) -> Seq<char>
    decreases s.len(),
{
    if s.len() > 0 && is_ws(s.last()) {
        trim_end(s.drop_last())
    } else {
        s
    }
}

/// `s` with whitespace removed at both ends.
pub open spec fn trim(s: Seq<char>) -> Seq<char> {
    trim_end(trim_start(s))
}

pub open spec fn starts_with(s: Seq<char>, p: Seq<char>) -> bool {
    p.len() <= s.len() && s.subrange(0, p.len() as int) == p
}

/// Whether `*/` starts at index `i` of `s`.
pub open spec fn close_at(s: Seq<char>, i: int) -> bool {
    0 <= i && i + 1 < s.len() && s[i] == '*' && s[i + 1] == '/'
}

/// Whether `*/` occurs anywhere in `s`.
pub open spec fn contains_close(s: Seq<char>) -> bool {
    exists|i: int| #[trigger] close_at(s, i)
}

proof fn lemma_trim_start_skip(s: Seq<char>, i: int)
    requires
        0 <= i <= s.len(),
        forall|k: int| 0 <= k < i ==> is_ws(s[k]),
    ensures
        trim_start(s) == trim_start(s.subrange(i, s.len() as int)),
    decreases i,
{
    if i > 0 {
        assert(s.drop_first() =~= s.subrange(1, s.len() as int));
        lemma_trim_start_skip(s.drop_first(), i - 1);
        assert(s.drop_first().subrange(i - 1, s.drop_first().len() as int) =~= s.subrange(
            i,
            s.len() as int,
        ));
    } else {
        assert(s.subrange(0, s.len() as int) =~= s);
    }
}

proof fn lemma_trim_end_skip(s: Seq<char>, j: int)
    requires
        0 <= j <= s.len(),
        forall|k: int| j <= k < s.len() ==> is_ws(s[k]),
    ensures
        trim_end(s) == trim_end(s.subrange(0, j)),
    decreases s.len() - j,
{
    if j < s.len() {
        lemma_trim_end_skip(s.drop_last(), j);
        assert(s.drop_last().subrange(0, j) =~= s.subrange(0, j));
    } else {
        assert(s.subrange(0, j) =~= s);
    }
}

/// The characters of `s` between its first and last non-whitespace ones.
pub fn trim_chars(s: &[char]) -> (r: Vec<char>)
    ensures
        r@ == trim(s@),
{
    let n = s.len();
    let mut a: usize = 0;
    while a < n && is_whitespace(s[a])
        invariant
            a <= n,
            n == s@.len(),
            forall|k: int| 0 <= k < a ==> is_ws(s@[k]),
        decreases n - a,
    {
        a = a + 1;
    }
    proof {
        lemma_trim_start_skip(s@, a as int);
    }
    let ghost rest = s@.subrange(a as int, n as int);
    assert(trim_start(s@) == rest) by {
        if rest.len() > 0 {
            assert(rest[0] == s@[a as int]);
        }
    }
    let mut b: usize = n;
    while b > a && is_whitespace(s[b - 1])
        invariant
            a <= b <= n,
            n == s@.len(),
            forall|k: int| b <= k < n ==> is_ws(s@[k]),
        decreases b,
    {
        b = b - 1;
    }
    proof {
        lemma_trim_end_skip(rest, b - a);
        let t = rest.subrange(0, b - a);
        assert(t =~= s@.subrange(a as int, b as int));
        if t.len() > 0 {
            assert(t.last() == s@[b - 1]);
        }
    }
    let mut r: Vec<char> = Vec::new();
    let mut i: usize = a;
    while i < b
        invariant
            a <= i <= b <= n,
            n == s@.len(),
            r@ =~= s@.subrange(a as int, i as int),
        decreases b - i,
    {
        r.push(s[i]);
        i = i + 1;
    }
    r
}

/// The characters of `s`, in order.
pub fn chars_of(s: &str) -> (r: Vec<char>)
    ensures
        r@ == s@,
{
    broadcast use vstd::string::axiom_spec_iter, vstd::string::next_postcondition;

    let mut it = s.chars();
    let mut out: Vec<char> = Vec::new();
    loop
        invariant
            out@ + it.remaining() == s@,
            out@.len() <= s@.len(),
        ensures
            out@ == s@,
        decreases s@.len() - out@.len(),
    {
        let ghost before = it.remaining();
        match it.next() {
            Some(c) => {
                out.push(c);
                assert(out@ + it.remaining() =~= s@) by {
                    assert(before =~= seq![c] + it.remaining());
                }
            },
            None => {
                assert(out@ =~= s@);
                break ;
            },
        }
    }
    out
}

/// Relies on `String::push`: appends one character to the string.
#[verifier::external_body]
fn push_char(s: &mut String, c: char)
    ensures
        final(s)@ == old(s)@.push(c),
{
    s.push(c);
}

/// The string made of the characters of `cs`.
pub fn string_of(cs: &[char]) -> (r: String)
    ensures
        r@ == cs@,
{
    let mut r = String::new();
    let mut i: usize = 0;
    while i < cs.len()
        invariant
            i <= cs@.len(),
            r@ =~= cs@.subrange(0, i as int),
        decreases cs@.len() - i,
    {
        push_char(&mut r, cs[i]);
        i = i + 1;
    }
    r
}

/// Whether `s` begins with `p`.
pub fn has_prefix(s: &[char], p: &[char]) -> (r: bool)
    ensures
        r == starts_with(s@, p@),
{
    if p.len() > s.len() {
        return false;
    }
    let mut i: usize = 0;
    while i < p.len()
        invariant
            p@.len() <= s@.len(),
            i <= p@.len(),
            forall|k: int| 0 <= k < i ==> s@[k] == p@[k],
        decreases p@.len() - i,
    {
        if s[i] != p[i] {
            assert(s@.subrange(0, p@.len() as int)[i as int] != p@[i as int]);
            return false;
        }
        i = i + 1;
    }
    assert(s@.subrange(0, p@.len() as int) =~= p@);
    true
}

/// Whether `*/` occurs in `s`.
pub fn has_close(s: &[char]) -> (r: bool)
    ensures
        r == contains_close(s@),
{
    let mut i: usize = 0;
    while s.len() > 0 && i < s.len() - 1
        invariant
            forall|k: int| 0 <= k < i ==> !close_at(s@, k),
        decreases s@.len() - i,
    {
        if s[i] == '*' && s[i + 1] == '/' {
            assert(close_at(s@, i as int));
            return true;
        }
        i = i + 1;
    }
    assert forall|k: int| !close_at(s@, k) by {
        if 0 <= k && k + 1 < s@.len() {
            assert(k < i);
        }
    }
    false
}

/// The pieces of `t` between newline characters: one more than the number
/// of newlines.
pub open spec fn pieces(t: Seq<char>) -> Seq<Seq<char>>
    decreases t.len(),
{
    if t.len() == 0 {
        seq![Seq::empty()]
    } else {
        let p = pieces(t.drop_last());
        if t.last() == '\n' {
            p.push(Seq::empty())
        } else {
            p.update(p.len() - 1, p.last().push(t.last()))
        }
    }
}

/// The lines of `t`: the pieces between newlines, where a newline at the
/// very end does not start another line, and empty text has no lines.
pub open spec fn lines_of(t: Seq<char>) -> Seq<Seq<char>> {
    if t.len() == 0 {
        Seq::empty()
    } else if t.last() == '\n' {
        pieces(t.drop_last())
    } else {
        pieces(t)
    }
}

/// Each of `ls`, trimmed.
pub open spec fn trimmed(ls: Seq<Seq<char>>) -> Seq<Seq<char>> {
    ls.map_values(|l: Seq<char>| trim(l))
}

/// The views of a sequence of character vectors.
pub open spec fn views(v: Seq<Vec<char>>) -> Seq<Seq<char>> {
    v.map_values(|l: Vec<char>| l@)
}

proof fn lemma_pieces_nonempty(t: Seq<char>)
    ensures
        pieces(t).len() >= 1,
        t.len() > 0 && t.last() == '\n' ==> pieces(t).last() == Seq::<char>::empty(),
        t.len() > 0 && t.last() != '\n' ==> pieces(t).last().len() > 0,
    decreases t.len(),
{
    if t.len() > 0 {
        lemma_pieces_nonempty(t.drop_last());
    }
}

/// The lines of `t`, each trimmed.
pub fn trimmed_lines(t: &[char]) -> (r: Vec<Vec<char>>)
    ensures
        views(r@) == trimmed(lines_of(t@)),
{
    let mut out: Vec<Vec<char>> = Vec::new();
    let mut cur: Vec<char> = Vec::new();
    let mut i: usize = 0;
    while i < t.len()
        invariant
            i <= t@.len(),
            pieces(t@.take(i as int)).len() >= 1,
            views(out@) =~= trimmed(
                pieces(t@.take(i as int)).take(pieces(t@.take(i as int)).len() - 1),
            ),
            cur@ == pieces(t@.take(i as int)).last(),
        decreases t@.len() - i,
    {
        let ghost p = pieces(t@.take(i as int));
        assert(t@.take(i + 1).drop_last() =~= t@.take(i as int));
        assert(t@.take(i + 1).last() == t@[i as int]);
        let c = t[i];
        if c == '\n' {
            let ghost old_out = out@;
            let ghost cur_before = cur@;
            let l = trim_chars(cur.as_slice());
            out.push(l);
            cur = Vec::new();
            assert(pieces(t@.take(i + 1)) == p.push(Seq::empty()));
            assert(p.push(Seq::empty()).take(p.len() as int) =~= p);
            assert forall|k: int| 0 <= k < out@.len() implies views(out@)[k] == trimmed(p)[k] by {
                assert(views(old_out).len() == p.len() - 1);
                if k < old_out.len() {
                    assert(views(old_out)[k] == trimmed(p.take(p.len() - 1))[k]);
                } else {
                    assert(out@[k] == l);
                    assert(cur_before == p[k]);
                }
            }
            assert(views(out@) =~= trimmed(p));
        } else {
            cur.push(c);
            let ghost q = p.update(p.len() - 1, p.last().push(c));
            assert(pieces(t@.take(i + 1)) == q);
            assert(q.take(q.len() - 1) =~= p.take(p.len() - 1));
        }
        i = i + 1;
    }
    proof {
        assert(t@.take(t@.len() as int) =~= t@);
        lemma_pieces_nonempty(t@);
        if t@.len() > 0 && t@.last() == '\n' {
            lemma_pieces_nonempty(t@.drop_last());
            assert(pieces(t@) == pieces(t@.drop_last()).push(Seq::empty()));
            assert(pieces(t@).take(pieces(t@).len() - 1) =~= pieces(t@.drop_last()));
        }
    }
    let ghost p = pieces(t@);
    if cur.len() > 0 {
        let ghost old_out = out@;
        let ghost cur_before = cur@;
        let l = trim_chars(cur.as_slice());
        out.push(l);
        proof {
            assert(t@.len() > 0 && t@.last() != '\n');
            assert(lines_of(t@) == p);
            assert forall|k: int| 0 <= k < out@.len() implies views(out@)[k] == trimmed(p)[k] by {
                assert(views(old_out).len() == p.len() - 1);
                if k < old_out.len() {
                    assert(views(old_out)[k] == trimmed(p.take(p.len() - 1))[k]);
                } else {
                    assert(out@[k] == l);
                    assert(cur_before == p[k]);
                }
            }
            assert(views(out@) =~= trimmed(lines_of(t@)));
        }
    } else {
        proof {
            if t@.len() == 0 {
                assert(out@.len() == 0);
                assert(views(out@) =~= trimmed(lines_of(t@)));
            } else {
                assert(t@.last() == '\n');
                assert(views(out@) =~= trimmed(lines_of(t@)));
            }
        }
    }
    out
}

} // verus!
