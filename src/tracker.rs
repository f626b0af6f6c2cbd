//! The index of TODO-like comments, grouped by label.
//!
//! The index is a vector of entries, one per label, kept in strictly
//! increasing lexicographic order of the labels, so labels are unique and
//! a report walks them in a fixed order. Its view is a map from each label
//! to the records filed under it, in the order they were filed.

use crate::labels::{distinct_labels, is_marker, label_of, labels_of, same_chars, words};
use crate::extract::{
    blocks_from, blocks_of, comment_end, ends_inside_comment, ends_open_from,
    lemma_closed_before_end, lemma_comment_end_bounds, lemma_next_start_bounds, next_start,
    CommentIterator,
};
use crate::text::{chars_of, lines_of, string_of, trimmed, views};
use vstd::prelude::*;

verus! {

/// Lexicographic order on character sequences, by code point.
pub open spec fn lex_lt(a: Seq<char>, b: Seq<char>) -> bool
    decreases a.len(),
{
    if b.len() == 0 {
        false
    } else if a.len() == 0 {
        true
    } else if a[0] != b[0] {
        a[0] < b[0]
    } else {
        lex_lt(a.drop_first(), b.drop_first())
    }
}

proof fn lemma_lex_irreflexive(a: Seq<char>)
    ensures
        !lex_lt(a, a),
    decreases a.len(),
{
    if a.len() > 0 {
        lemma_lex_irreflexive(a.drop_first());
    }
}

proof fn lemma_lex_total(a: Seq<char>, b: Seq<char>)
    ensures
        a != b ==> lex_lt(a, b) || lex_lt(b, a),
    decreases a.len(),
{
    if a.len() > 0 && b.len() > 0 && a[0] == b[0] {
        lemma_lex_total(a.drop_first(), b.drop_first());
        if a.drop_first() == b.drop_first() {
            assert(a =~= seq![a[0]] + a.drop_first());
            assert(b =~= seq![b[0]] + b.drop_first());
        }
    } else if a.len() == 0 && b.len() == 0 {
        assert(a =~= b);
    }
}

proof fn lemma_lex_transitive(a: Seq<char>, b: Seq<char>, c: Seq<char>)
    requires
        lex_lt(a, b),
        lex_lt(b, c),
    ensures
        lex_lt(a, c),
    decreases a.len(),
{
    if a.len() > 0 && b.len() > 0 && c.len() > 0 && a[0] == b[0] && b[0] == c[0] {
        lemma_lex_transitive(a.drop_first(), b.drop_first(), c.drop_first());
    }
}

/// Whether `a` comes before `b` in lexicographic order.
pub fn lex_less(a: &Vec<char>, b: &Vec<char>) -> (r: bool)
    ensures
        r == lex_lt(a@, b@),
{
    let mut i: usize = 0;
    assert(a@.skip(0) =~= a@);
    assert(b@.skip(0) =~= b@);
    while i < a.len() && i < b.len() && a[i] == b[i]
        invariant
            i <= a@.len(),
            i <= b@.len(),
            lex_lt(a@, b@) == lex_lt(a@.skip(i as int), b@.skip(i as int)),
        decreases a@.len() - i,
    {
        assert(a@.skip(i as int).drop_first() =~= a@.skip(i + 1));
        assert(b@.skip(i as int).drop_first() =~= b@.skip(i + 1));
        i = i + 1;
    }
    if i < b.len() && i < a.len() {
        assert(a@.skip(i as int)[0] == a@[i as int]);
        assert(b@.skip(i as int)[0] == b@[i as int]);
    }
    i < b.len() && (i == a.len() || a[i] < b[i])
}

/// What the index keeps of one comment: its text, the path of its file and
/// the number of its first line.
pub type RecordView = (Seq<char>, Seq<char>, usize);

/// One comment found in one file.
pub struct Comment {
    pub contents: String,
    pub file: String,
    pub line: usize,
}

impl View for Comment {
    type V = RecordView;

    open spec fn view(&self) -> RecordView {
        (self.contents@, self.file@, self.line)
    }
}

/// The decimal digit for `d`, below ten.
pub open spec fn digit_char(d: nat) -> char {
    seq!['0', '1', '2', '3', '4', '5', '6', '7', '8', '9'][d as int]
}

/// The decimal digits of `n`, without leading zeros.
pub open spec fn decimal(n: nat) -> Seq<char>
    decreases n,
{
    if n < 10 {
        seq![digit_char(n)]
    } else {
        decimal(n / 10).push(digit_char(n % 10))
    }
}

fn push_decimal(out: &mut Vec<char>, n: usize)
    ensures
        final(out)@ == old(out)@ + decimal(n as nat),
    decreases n,
{
    if n >= 10 {
        push_decimal(out, n / 10);
    }
    let ds = vec!['0', '1', '2', '3', '4', '5', '6', '7', '8', '9'];
    assert(ds@ =~= seq!['0', '1', '2', '3', '4', '5', '6', '7', '8', '9']);
    out.push(ds[n % 10]);
    assert(final(out)@ =~= old(out)@ + decimal(n as nat));
}

impl Comment {
    /// Where the comment stands in its file: `line N`.
    pub fn location(&self) -> (r: String)
        ensures
            r@ == seq!['l', 'i', 'n', 'e', ' '] + decimal(self.line as nat),
    {
        let mut cs = vec!['l', 'i', 'n', 'e', ' '];
        push_decimal(&mut cs, self.line);
        string_of(cs.as_slice())
    }
}

/// The records filed under one label.
pub struct Kind {
    label: Vec<char>,
    comments: Vec<Comment>,
}

pub open spec fn records(cs: Seq<Comment>) -> Seq<RecordView> {
    cs.map_values(|c: Comment| c@)
}

impl View for Kind {
    type V = (Seq<char>, Seq<RecordView>);

    closed spec fn view(&self) -> (Seq<char>, Seq<RecordView>) {
        (self.label@, records(self.comments@))
    }
}

impl Kind {
    /// The label.
    pub fn label(&self) -> (r: String)
        ensures
            r@ == self@.0,
    {
        string_of(self.label.as_slice())
    }

    /// The records filed under the label, in the order they were filed.
    pub fn comments(&self) -> (r: &Vec<Comment>)
        ensures
            records(r@) == self@.1,
    {
        &self.comments
    }
}

/// The map from label to records that a sequence of entries stands for.
pub open spec fn index_map(es: Seq<(Seq<char>, Seq<RecordView>)>) -> Map<
    Seq<char>,
    Seq<RecordView>,
>
    decreases es.len(),
{
    if es.len() == 0 {
        Map::empty()
    } else {
        index_map(es.drop_last()).insert(es.last().0, es.last().1)
    }
}

/// Labels in strictly increasing order.
pub open spec fn sorted(es: Seq<(Seq<char>, Seq<RecordView>)>) -> bool {
    forall|i: int, j: int| 0 <= i < j < es.len() ==> lex_lt(#[trigger] es[i].0, #[trigger] es[j].0)
}

pub open spec fn distinct(es: Seq<(Seq<char>, Seq<RecordView>)>) -> bool {
    forall|i: int, j: int| 0 <= i < j < es.len() ==> #[trigger] es[i].0 != #[trigger] es[j].0
}

proof fn lemma_sorted_distinct(es: Seq<(Seq<char>, Seq<RecordView>)>)
    requires
        sorted(es),
    ensures
        distinct(es),
{
    assert forall|i: int, j: int| 0 <= i < j < es.len() implies #[trigger] es[i].0
        != #[trigger] es[j].0 by {
        lemma_lex_irreflexive(es[i].0);
    }
}

proof fn lemma_index_dom(es: Seq<(Seq<char>, Seq<RecordView>)>, k: Seq<char>)
    ensures
        index_map(es).contains_key(k) <==> exists|i: int| 0 <= i < es.len() && #[trigger] es[i].0 == k,
    decreases es.len(),
{
    if es.len() > 0 {
        lemma_index_dom(es.drop_last(), k);
        if index_map(es.drop_last()).contains_key(k) {
            let i = choose|i: int| 0 <= i < es.drop_last().len() && #[trigger] es.drop_last()[i].0 == k;
            assert(es[i].0 == k);
        }
        if exists|i: int| 0 <= i < es.len() && #[trigger] es[i].0 == k {
            let i = choose|i: int| 0 <= i < es.len() && #[trigger] es[i].0 == k;
            if i < es.len() - 1 {
                assert(es.drop_last()[i].0 == k);
            }
        }
    }
}

proof fn lemma_index_lookup(es: Seq<(Seq<char>, Seq<RecordView>)>, p: int)
    requires
        distinct(es),
        0 <= p < es.len(),
    ensures
        index_map(es).contains_key(es[p].0),
        index_map(es)[es[p].0] == es[p].1,
    decreases es.len(),
{
    if p < es.len() - 1 {
        lemma_index_lookup(es.drop_last(), p);
        assert(es.drop_last()[p] == es[p]);
        assert(es[p].0 != es[es.len() - 1].0);
    }
}

proof fn lemma_index_update(
    es: Seq<(Seq<char>, Seq<RecordView>)>,
    p: int,
    v: Seq<RecordView>,
)
    requires
        distinct(es),
        0 <= p < es.len(),
    ensures
        index_map(es.update(p, (es[p].0, v))) == index_map(es).insert(es[p].0, v),
    decreases es.len(),
{
    let u = es.update(p, (es[p].0, v));
    if p == es.len() - 1 {
        assert(u.drop_last() =~= es.drop_last());
        assert(index_map(u) =~= index_map(es).insert(es[p].0, v));
    } else {
        lemma_index_update(es.drop_last(), p, v);
        assert(u.drop_last() =~= es.drop_last().update(p, (es[p].0, v)));
        assert(es[p].0 != es[es.len() - 1].0);
        assert(index_map(u) =~= index_map(es).insert(es[p].0, v));
    }
}

proof fn lemma_index_insert(
    es: Seq<(Seq<char>, Seq<RecordView>)>,
    p: int,
    e: (Seq<char>, Seq<RecordView>),
)
    requires
        0 <= p <= es.len(),
        forall|i: int| 0 <= i < es.len() ==> #[trigger] es[i].0 != e.0,
    ensures
        index_map(es.insert(p, e)) == index_map(es).insert(e.0, e.1),
    decreases es.len(),
{
    let u = es.insert(p, e);
    if p == es.len() {
        assert(u.drop_last() =~= es);
    } else {
        lemma_index_insert(es.drop_last(), p, e);
        assert(u.drop_last() =~= es.drop_last().insert(p, e));
        assert(u.last() == es.last());
        assert(es[es.len() - 1].0 != e.0);
        assert(index_map(u) =~= index_map(es).insert(e.0, e.1));
    }
}

/// `m` with `rec` appended to the records of `label`, which is added when
/// it is new.
pub open spec fn file_under(
    m: Map<Seq<char>, Seq<RecordView>>,
    label: Seq<char>,
    rec: RecordView,
) -> Map<Seq<char>, Seq<RecordView>> {
    m.insert(
        label,
        if m.contains_key(label) {
            m[label].push(rec)
        } else {
            seq![rec]
        },
    )
}

/// `m` with `rec` filed once under each label of `ls`.
pub open spec fn file_under_all(
    m: Map<Seq<char>, Seq<RecordView>>,
    ls: Set<Seq<char>>,
    rec: RecordView,
) -> Map<Seq<char>, Seq<RecordView>> {
    Map::new(
        |k: Seq<char>| m.contains_key(k) || ls.contains(k),
        |k: Seq<char>|
            if !ls.contains(k) {
                m[k]
            } else if m.contains_key(k) {
                m[k].push(rec)
            } else {
                seq![rec]
            },
    )
}

/// A comment whose words hold no marker has no label, and filing it leaves
/// the index as it was: an index that starts empty stays empty.
pub proof fn lemma_no_marker_no_record(
    m: Map<Seq<char>, Seq<RecordView>>,
    t: Seq<char>,
    rec: RecordView,
)
    requires
        forall|i: int| 0 <= i < words(t).len() ==> !is_marker(#[trigger] words(t)[i]),
    ensures
        labels_of(t) == Set::<Seq<char>>::empty(),
        file_under_all(m, labels_of(t), rec) == m,
{
    assert(labels_of(t) =~= Set::<Seq<char>>::empty());
    assert(file_under_all(m, labels_of(t), rec) =~= m);
}

/// A comment whose only marker word is `w`, however many times it occurs,
/// has the one label of `w`, and filing it adds exactly one record, under
/// that label.
pub proof fn lemma_repeated_marker_one_record(
    m: Map<Seq<char>, Seq<RecordView>>,
    t: Seq<char>,
    w: Seq<char>,
    rec: RecordView,
)
    requires
        is_marker(w),
        exists|i: int| 0 <= i < words(t).len() && #[trigger] words(t)[i] == w,
        forall|i: int| 0 <= i < words(t).len() && is_marker(#[trigger] words(t)[i]) ==> words(t)[i] == w,
    ensures
        labels_of(t) == set![label_of(w)],
        file_under_all(m, labels_of(t), rec) == file_under(m, label_of(w), rec),
{
    assert(labels_of(t) =~= set![label_of(w)]) by {
        let i = choose|i: int| 0 <= i < words(t).len() && #[trigger] words(t)[i] == w;
        assert(label_of(words(t)[i]) == label_of(w));
    }
    assert(file_under_all(m, labels_of(t), rec) =~= file_under(m, label_of(w), rec));
}

/// `m` with each block of `bs`, found in file `path`, filed in turn.
pub open spec fn file_blocks(
    m: Map<Seq<char>, Seq<RecordView>>,
    bs: Seq<(int, Seq<char>)>,
    path: Seq<char>,
) -> Map<Seq<char>, Seq<RecordView>>
    decreases bs.len(),
{
    if bs.len() == 0 {
        m
    } else {
        file_blocks(
            file_under_all(m, labels_of(bs[0].1), (bs[0].1, path, bs[0].0 as usize)),
            bs.drop_first(),
            path,
        )
    }
}

/// Scanning a file none of whose comment blocks holds a marker word leaves
/// the index as it was: scanning such files into an empty index leaves it
/// empty.
pub proof fn lemma_unmarked_file_no_record(
    m: Map<Seq<char>, Seq<RecordView>>,
    bs: Seq<(int, Seq<char>)>,
    path: Seq<char>,
)
    requires
        forall|b: int, i: int|
            0 <= b < bs.len() && 0 <= i < words(bs[b].1).len() ==> !is_marker(
                #[trigger] words(bs[b].1)[i],
            ),
    ensures
        file_blocks(m, bs, path) == m,
    decreases bs.len(),
{
    if bs.len() > 0 {
        lemma_no_marker_no_record(m, bs[0].1, (bs[0].1, path, bs[0].0 as usize));
        assert forall|b: int, i: int|
            0 <= b < bs.drop_first().len() && 0 <= i < words(bs.drop_first()[b].1).len() implies !is_marker(
            #[trigger] words(bs.drop_first()[b].1)[i],
        ) by {
            assert(bs.drop_first()[b] == bs[b + 1]);
        }
        lemma_unmarked_file_no_record(m, bs.drop_first(), path);
    }
}

/// Tracks TODO-like comments, grouped by label.
pub struct CommentTracker {
    kinds: Vec<Kind>,
}

pub open spec fn entries(ks: Seq<Kind>) -> Seq<(Seq<char>, Seq<RecordView>)> {
    ks.map_values(|k: Kind| k@)
}

impl View for CommentTracker {
    type V = Map<Seq<char>, Seq<RecordView>>;

    closed spec fn view(&self) -> Map<Seq<char>, Seq<RecordView>> {
        index_map(entries(self.kinds@))
    }
}

impl CommentTracker {
    #[verifier::type_invariant]
    spec fn wf(&self) -> bool {
        sorted(entries(self.kinds@))
    }

    pub fn new() -> (r: CommentTracker)
        ensures
            r@ == Map::<Seq<char>, Seq<RecordView>>::empty(),
    {
        let r = CommentTracker { kinds: Vec::new() };
        assert(entries(r.kinds@) =~= Seq::empty());
        r
    }

    /// The entries, one per label, in increasing order of label.
    pub fn kinds(&self) -> (r: &Vec<Kind>)
        ensures
            sorted(entries(r@)),
            index_map(entries(r@)) == self@,
    {
        proof {
            use_type_invariant(self);
        }
        &self.kinds
    }

    /// Files the comment `contents`, found in file `path` at line `line`,
    /// once under each distinct label of its marker words. A comment with no
    /// marker word changes nothing.
    pub fn found_possible_comment(&mut self, contents: &str, path: &str, line: usize)
        ensures
            final(self)@ == file_under_all(old(self)@, labels_of(contents@), (contents@, path@, line)),
    {
        let ghost m0 = self@;
        let ghost rec: RecordView = (contents@, path@, line);
        let cs = chars_of(contents);
        let found = distinct_labels(cs.as_slice());
        let ghost fv = views(found@);
        assert(file_under_all(m0, fv.take(0).to_set(), rec) =~= m0);
        let mut j: usize = 0;
        while j < found.len()
            invariant
                j <= found@.len(),
                rec == (contents@, path@, line),
                m0 == old(self)@,
                fv == views(found@),
                fv.to_set() == labels_of(contents@),
                fv.no_duplicates(),
                self@ == file_under_all(m0, fv.take(j as int).to_set(), rec),
            decreases found@.len() - j,
        {
            let text = str::to_owned(contents);
            let file = str::to_owned(path);
            assert(text@ == contents@);
            let c = Comment { contents: text, file, line };
            let l = found[j].clone();
            assert(l@ == fv[j as int]);
            let ghost m = self@;
            assert(c@ == rec);
            self.file(l, c);
            proof {
                let t0 = fv.take(j as int);
                let t1 = fv.take(j + 1);
                let s0 = t0.to_set();
                let s1 = t1.to_set();
                assert(fv.take(j + 1) =~= fv.take(j as int).push(fv[j as int]));
                assert(!s0.contains(fv[j as int])) by {
                    if s0.contains(fv[j as int]) {
                        let q = choose|q: int| 0 <= q < t0.len() && #[trigger] t0[q] == fv[j as int];
                        assert(fv[q] == fv[j as int]);
                    }
                }
                assert(s1 =~= s0.insert(fv[j as int])) by {
                    assert forall|x: Seq<char>| s1.contains(x) implies s0.insert(fv[j as int]).contains(x) by {
                        let q = choose|q: int| 0 <= q < t1.len() && #[trigger] t1[q] == x;
                        if q < j {
                            assert(fv.take(j as int)[q] == x);
                        }
                    }
                    assert forall|x: Seq<char>| s0.insert(fv[j as int]).contains(x) implies s1.contains(x) by {
                        if x == fv[j as int] {
                            assert(fv.take(j + 1)[j as int] == x);
                        } else {
                            let q = choose|q: int| 0 <= q < t0.len() && #[trigger] t0[q] == x;
                            assert(fv.take(j + 1)[q] == x);
                        }
                    }
                }
                let lj = fv[j as int];
                assert(self@ == file_under(m, lj, rec));
                assert(m == file_under_all(m0, s0, rec));
                let target = file_under_all(m0, s1, rec);
                assert forall|k: Seq<char>| #[trigger] self@.contains_key(k) <==> target.contains_key(k) by {
                }
                assert forall|k: Seq<char>| #[trigger] self@.contains_key(k) implies self@[k] == target[k] by {
                    if k == lj {
                    } else {
                        assert(self@[k] == m[k]);
                    }
                }
                assert(self@ =~= target);
            }
            j = j + 1;
        }
        assert(fv.take(fv.len() as int) =~= fv);
    }

    /// Files every comment block of `contents`, the text of file `path`, in
    /// the order the blocks occur. Returns whether the text ended inside its
    /// last comment, which is still filed.
    pub fn scan_file(&mut self, path: &str, contents: &str) -> (r: bool)
        ensures
            final(self)@ == file_blocks(old(self)@, blocks_of(contents@), path@),
            r == ends_inside_comment(contents@),
    {
        let ghost m0 = self@;
        let ghost ls = trimmed(lines_of(contents@));
        let mut it = CommentIterator::new(contents);
        let mut open = false;
        loop
            invariant
                it.lines() == ls,
                0 <= it.pos() <= ls.len(),
                file_blocks(self@, blocks_from(ls, it.pos()), path@) == file_blocks(
                    m0,
                    blocks_from(ls, 0),
                    path@,
                ),
                ends_open_from(ls, 0) == if next_start(ls, it.pos()) >= ls.len() {
                    open
                } else {
                    ends_open_from(ls, it.pos())
                },
            ensures
                self@ == file_blocks(m0, blocks_from(ls, 0), path@),
                open == ends_open_from(ls, 0),
            decreases ls.len() - it.pos(),
        {
            let ghost pos = it.pos();
            let ghost before = self@;
            match it.next() {
                None => {
                    assert(blocks_from(ls, pos) == Seq::<(int, Seq<char>)>::empty());
                    break ;
                },
                Some((line, text)) => {
                    let ghost st = next_start(ls, pos);
                    let ghost e = comment_end(ls, st);
                    let ghost bs = blocks_from(ls, pos);
                    proof {
                        lemma_next_start_bounds(ls, pos);
                        lemma_comment_end_bounds(ls, st);
                    }
                    assert(bs == seq![(st + 1, text@)] + blocks_from(ls, e));
                    assert(bs[0] == (st + 1, text@));
                    assert(bs.drop_first() =~= blocks_from(ls, e));
                    self.found_possible_comment(text.as_str(), path, line);
                    open = it.ended_inside_comment();
                    proof {
                        if e < ls.len() {
                            lemma_closed_before_end(ls, st);
                        }
                    }
                },
            }
        }
        open
    }

    /// Files `rec` under `label`.
    fn file(&mut self, label: Vec<char>, rec: Comment)
        ensures
            final(self)@ == file_under(old(self)@, label@, rec@),
    {
        proof {
            use_type_invariant(&*self);
        }
        let mut kinds: Vec<Kind> = Vec::new();
        std::mem::swap(&mut kinds, &mut self.kinds);
        let ghost es = entries(kinds@);
        proof {
            lemma_sorted_distinct(es);
        }
        let n = kinds.len();
        let mut p: usize = 0;
        while p < n && lex_less(&kinds[p].label, &label)
            invariant
                p <= n,
                n == kinds@.len(),
                es == entries(kinds@),
                forall|q: int| 0 <= q < p ==> lex_lt(#[trigger] es[q].0, label@),
            decreases n - p,
        {
            assert(es[p as int].0 == kinds@[p as int].label@);
            p = p + 1;
        }
        if p < n && same_chars(&kinds[p].label, &label) {
            assert(es[p as int].0 == label@);
            let mut k = kinds.remove(p);
            let ghost old_recs = records(k.comments@);
            k.comments.push(rec);
            assert(records(k.comments@) =~= old_recs.push(rec@));
            kinds.insert(p, k);
            proof {
                lemma_index_lookup(es, p as int);
                lemma_index_update(es, p as int, old_recs.push(rec@));
                assert(entries(kinds@) =~= es.update(p as int, (label@, old_recs.push(rec@))));
                assert forall|i: int, j: int| 0 <= i < j < entries(kinds@).len() implies lex_lt(
                    #[trigger] entries(kinds@)[i].0,
                    #[trigger] entries(kinds@)[j].0,
                ) by {
                    assert(entries(kinds@)[i].0 == es[i].0);
                    assert(entries(kinds@)[j].0 == es[j].0);
                }
            }
        } else {
            let ghost e = (label@, seq![rec@]);
            proof {
                if p < n {
                    assert(!lex_lt(es[p as int].0, label@));
                    assert(es[p as int].0 != label@);
                    lemma_lex_total(es[p as int].0, label@);
                }
                assert forall|j: int| p <= j < es.len() implies lex_lt(label@, #[trigger] es[j].0) by {
                    if j > p {
                        assert(lex_lt(es[p as int].0, es[j].0));
                        lemma_lex_transitive(label@, es[p as int].0, es[j].0);
                    }
                }
                assert forall|i: int| 0 <= i < es.len() implies #[trigger] es[i].0 != e.0 by {
                    if i < p {
                        lemma_lex_irreflexive(label@);
                    } else {
                        lemma_lex_irreflexive(label@);
                    }
                }
                lemma_index_dom(es, label@);
                lemma_index_insert(es, p as int, e);
            }
            let mut comments: Vec<Comment> = Vec::new();
            comments.push(rec);
            let k = Kind { label, comments };
            assert(k@ == e) by {
                assert(records(k.comments@) =~= seq![rec@]);
            }
            kinds.insert(p as usize, k);
            proof {
                let u = entries(kinds@);
                assert(u =~= es.insert(p as int, e));
                assert forall|i: int, j: int| 0 <= i < j < u.len() implies lex_lt(
                    #[trigger] u[i].0,
                    #[trigger] u[j].0,
                ) by {
                    if j < p {
                    } else if j == p {
                    } else if i < p {
                        assert(lex_lt(es[i].0, label@));
                        lemma_lex_transitive(es[i].0, label@, es[j - 1].0);
                    } else if i == p {
                    } else {
                        assert(lex_lt(es[i - 1].0, es[j - 1].0));
                    }
                }
            }
        }
        self.kinds = kinds;
    }
}

} // verus!
