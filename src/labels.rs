//! Marker words and the labels they give a comment.
//!
//! A word is a maximal run of non-whitespace characters. A word is a marker
//! when it starts with `XXX`, `FIXME` or `TODO`; its label is the word with
//! one trailing `:` removed, so `TODO:` and `TODO` share a label. A trailing
//! `-` is kept: `TODO-` and `TODO` are different labels.

use crate::text::{has_prefix, is_whitespace, is_ws, starts_with, views};
use vstd::prelude::*;

verus! {

/// The words of `t`, in order.
pub open spec fn words(t: Seq<char>) -> Seq<Seq<char>>
    decreases t.len(),
{
    if t.len() == 0 {
        Seq::empty()
    } else {
        let w = words(t.drop_last());
        let c = t.last();
        if is_ws(c) {
            w
        } else if t.len() >= 2 && !is_ws(t[t.len() - 2]) {
            w.update(w.len() - 1, w.last().push(c))
        } else {
            w.push(seq![c])
        }
    }
}

pub open spec fn is_marker(w: Seq<char>) -> bool {
    starts_with(w, seq!['X', 'X', 'X']) || starts_with(w, seq!['F', 'I', 'X', 'M', 'E'])
        || starts_with(w, seq!['T', 'O', 'D', 'O'])
}

/// The label of marker word `w`: `w` without one trailing `:`.
pub open spec fn label_of(w: Seq<char>) -> Seq<char> {
    if w.len() > 0 && w.last() == ':' {
        w.drop_last()
    } else {
        w
    }
}

/// The labels of the marker words among `ws`.
pub open spec fn labels_in(ws: Seq<Seq<char>>) -> Set<Seq<char>> {
    Set::new(|l: Seq<char>| exists|i: int| 0 <= i < ws.len() && is_marker(ws[i]) && #[trigger] label_of(ws[i]) == l)
}

/// The distinct labels of comment text `t`.
pub open spec fn labels_of(t: Seq<char>) -> Set<Seq<char>> {
    labels_in(words(t))
}

proof fn lemma_words_last(t: Seq<char>)
    ensures
        t.len() > 0 && !is_ws(t.last()) ==> words(t).len() > 0,
    decreases t.len(),
{
    if t.len() > 0 {
        lemma_words_last(t.drop_last());
    }
}

/// The words of `t`.
pub fn split_words(t: &[char]) -> (r: Vec<Vec<char>>)
    ensures
        views(r@) == words(t@),
{
    let mut out: Vec<Vec<char>> = Vec::new();
    let mut i: usize = 0;
    while i < t.len()
        invariant
            i <= t@.len(),
            views(out@) =~= words(t@.take(i as int)),
        decreases t@.len() - i,
    {
        let ghost pre = t@.take(i as int);
        let ghost w = words(pre);
        assert(t@.take(i + 1).drop_last() =~= pre);
        assert(t@.take(i + 1).last() == t@[i as int]);
        let c = t[i];
        if !is_whitespace(c) {
            if i > 0 && !is_whitespace(t[i - 1]) {
                proof {
                    assert(pre.last() == t@[i - 1]);
                    lemma_words_last(pre);
                }
                let ghost old_out = out@;
                let k = out.len() - 1;
                let mut last = out.pop().unwrap();
                last.push(c);
                out.push(last);
                assert(views(out@) =~= w.update(w.len() - 1, w.last().push(c))) by {
                    assert forall|j: int| 0 <= j < k implies views(out@)[j] == views(old_out)[j] by {
                        assert(out@[j] == old_out[j]);
                    }
                    assert(views(old_out)[k as int] == w.last());
                }
            } else {
                let ghost old_out = out@;
                out.push(vec![c]);
                assert(views(out@) =~= w.push(seq![c])) by {
                    assert forall|j: int| 0 <= j < old_out.len() implies views(out@)[j] == views(old_out)[j] by {
                        assert(out@[j] == old_out[j]);
                    }
                    assert(out@[old_out.len() as int]@ =~= seq![c]);
                }
            }
        }
        i = i + 1;
    }
    assert(t@.take(t@.len() as int) =~= t@);
    out
}

/// Whether `w` is a marker word.
pub fn is_marker_word(w: &Vec<char>) -> (r: bool)
    ensures
        r == is_marker(w@),
{
    let x = vec!['X', 'X', 'X'];
    let f = vec!['F', 'I', 'X', 'M', 'E'];
    let t = vec!['T', 'O', 'D', 'O'];
    assert(x@ =~= seq!['X', 'X', 'X']);
    assert(f@ =~= seq!['F', 'I', 'X', 'M', 'E']);
    assert(t@ =~= seq!['T', 'O', 'D', 'O']);
    has_prefix(w.as_slice(), x.as_slice()) || has_prefix(w.as_slice(), f.as_slice()) || has_prefix(
        w.as_slice(),
        t.as_slice(),
    )
}

/// The label of marker word `w`.
pub fn label_word(w: &Vec<char>) -> (r: Vec<char>)
    ensures
        r@ == label_of(w@),
{
    let mut r = w.clone();
    assert(r@ == w@);
    if r.len() > 0 && r[r.len() - 1] == ':' {
        r.pop();
    }
    r
}

/// A marker word followed by `:` is still a marker, with the same label as
/// the word alone: `TODO:` and `TODO` are filed together.
pub proof fn lemma_colon_same_label(w: Seq<char>)
    requires
        !(w.len() > 0 && w.last() == ':'),
    ensures
        is_marker(w.push(':')) == is_marker(w),
        label_of(w.push(':')) == label_of(w),
        label_of(w) == w,
{
    let v = w.push(':');
    assert(v.drop_last() =~= w);
    if w.len() == 2 {
        assert(v.subrange(0, 3)[2] == ':');
    }
    if w.len() == 3 {
        assert(v.subrange(0, 4)[3] == ':');
    }
    if w.len() == 4 {
        assert(v.subrange(0, 5)[4] == ':');
    }
    assert(forall|k: int| 0 <= k <= w.len() ==> v.subrange(0, k) =~= w.subrange(0, k));
}

/// Whether `a` and `b` hold the same characters.
pub fn same_chars(a: &Vec<char>, b: &Vec<char>) -> (r: bool)
    ensures
        r == (a@ == b@),
{
    if a.len() != b.len() {
        return false;
    }
    let mut i: usize = 0;
    while i < a.len()
        invariant
            a@.len() == b@.len(),
            i <= a@.len(),
            forall|k: int| 0 <= k < i ==> a@[k] == b@[k],
        decreases a@.len() - i,
    {
        if a[i] != b[i] {
            return false;
        }
        i = i + 1;
    }
    assert(a@ =~= b@);
    true
}

/// Whether `l` is one of `ls`.
fn holds_label(ls: &Vec<Vec<char>>, l: &Vec<char>) -> (r: bool)
    ensures
        r == views(ls@).contains(l@),
{
    let mut i: usize = 0;
    while i < ls.len()
        invariant
            i <= ls@.len(),
            forall|k: int| 0 <= k < i ==> ls@[k]@ != l@,
        decreases ls@.len() - i,
    {
        if same_chars(&ls[i], l) {
            assert(views(ls@)[i as int] == l@);
            return true;
        }
        i = i + 1;
    }
    assert forall|k: int| 0 <= k < views(ls@).len() implies views(ls@)[k] != l@ by {
        assert(views(ls@)[k] == ls@[k]@);
    }
    false
}

/// The distinct labels of comment text `t`, each once, in the order in
/// which they first occur.
pub fn distinct_labels(t: &[char]) -> (r: Vec<Vec<char>>)
    ensures
        views(r@).to_set() == labels_of(t@),
        views(r@).no_duplicates(),
{
    let ws = split_words(t);
    let ghost wv = words(t@);
    let mut found: Vec<Vec<char>> = Vec::new();
    let mut i: usize = 0;
    while i < ws.len()
        invariant
            i <= ws@.len(),
            views(ws@) == wv,
            views(found@).to_set() =~= labels_in(wv.take(i as int)),
            views(found@).no_duplicates(),
        decreases ws@.len() - i,
    {
        let ghost before = views(found@);
        assert(views(ws@)[i as int] == ws@[i as int]@);
        if is_marker_word(&ws[i]) {
            let l = label_word(&ws[i]);
            if !holds_label(&found, &l) {
                found.push(l);
                assert(views(found@) =~= before.push(l@)) by {
                    assert forall|j: int| 0 <= j < before.len() implies views(found@)[j] == before[j] by {
                        assert(views(found@)[j] == found@[j]@);
                    }
                }
                assert(views(found@)[before.len() as int] == l@);
            }
            assert(views(found@).contains(l@));
            assert(forall|q: int| 0 <= q < before.len() ==> views(found@)[q] == before[q]);
            assert(views(found@).len() >= before.len());
            assert(views(found@).to_set() =~= labels_in(wv.take(i + 1))) by {
                assert forall|m: Seq<char>| labels_in(wv.take(i + 1)).contains(m) implies views(
                    found@,
                ).to_set().contains(m) by {
                    let j = choose|j: int|
                        0 <= j < wv.take(i + 1).len() && is_marker(wv.take(i + 1)[j])
                            && #[trigger] label_of(wv.take(i + 1)[j]) == m;
                    if j < i {
                        assert(wv.take(i as int)[j] == wv.take(i + 1)[j]);
                        assert(labels_in(wv.take(i as int)).contains(m));
                        assert(before.to_set().contains(m));
                        let q = choose|q: int| 0 <= q < before.len() && before[q] == m;
                        assert(views(found@)[q] == m);
                    } else {
                        assert(wv.take(i + 1)[i as int] == wv[i as int]);
                        assert(m == l@);
                    }
                }
                assert forall|m: Seq<char>| views(found@).to_set().contains(m) implies labels_in(
                    wv.take(i + 1),
                ).contains(m) by {
                    if before.contains(m) {
                        assert(labels_in(wv.take(i as int)).contains(m));
                        let j = choose|j: int|
                            0 <= j < wv.take(i as int).len() && is_marker(wv.take(i as int)[j])
                                && #[trigger] label_of(wv.take(i as int)[j]) == m;
                        assert(wv.take(i + 1)[j] == wv.take(i as int)[j]);
                    } else {
                        assert(m == l@);
                        assert(wv.take(i + 1)[i as int] == wv[i as int]);
                    }
                }
            }
        } else {
            assert(views(found@).to_set() =~= labels_in(wv.take(i + 1))) by {
                assert forall|m: Seq<char>| labels_in(wv.take(i + 1)).contains(m) implies labels_in(
                    wv.take(i as int),
                ).contains(m) by {
                    let j = choose|j: int|
                        0 <= j < wv.take(i + 1).len() && is_marker(wv.take(i + 1)[j])
                            && #[trigger] label_of(wv.take(i + 1)[j]) == m;
                    assert(j != i);
                    assert(wv.take(i as int)[j] == wv.take(i + 1)[j]);
                }
                assert forall|m: Seq<char>| labels_in(wv.take(i as int)).contains(m) implies labels_in(
                    wv.take(i + 1),
                ).contains(m) by {
                    let j = choose|j: int|
                        0 <= j < wv.take(i as int).len() && is_marker(wv.take(i as int)[j])
                            && #[trigger] label_of(wv.take(i as int)[j]) == m;
                    assert(wv.take(i + 1)[j] == wv.take(i as int)[j]);
                }
            }
        }
        i = i + 1;
    }
    assert(wv.take(wv.len() as int) =~= wv);
    found
}

} // verus!
