//! The decisions of snippet layout: overlap of annotations, their order,
//! what stands between two annotated lines, the gutter's width and the
//! order of files.
use vstd::prelude::*;
use crate::annotations::{Annotation, FileWithAnnotatedLines, well_grouped};
use crate::codemap::CodeMap;
use crate::compiler_message::{CompilerMessage, SpanLabel};
use crate::text::{digit_count, digit_len};

verus! {

/// Two annotations overlap where either one starts inside the other.
pub open spec fn overlap(a1: Annotation, a2: Annotation) -> bool {
    (a2.start_col <= a1.start_col && a1.start_col < a2.end_col)
        || (a1.start_col <= a2.start_col && a2.start_col < a1.end_col)
}

/// Whether `a1` starts inside `a2` or `a2` starts inside `a1`.
pub fn overlaps(a1: &Annotation, a2: &Annotation) -> (r: bool)
    ensures
        r == overlap(*a1, *a2),
{
    (a2.start_col <= a1.start_col && a1.start_col < a2.end_col)
        || (a1.start_col <= a2.start_col && a2.start_col < a1.end_col)
}

/// What stands between two consecutive annotated lines.
#[derive(Copy, Clone, Debug, PartialEq, Eq, Structural)]
pub enum Gap {
    /// The lines are adjacent: nothing.
    Adjacent,
    /// One line lies between them: that line, shown as it is.
    OneLine(usize),
    /// Several lines lie between them: an elision marker.
    Elided,
}

/// The gap between annotated lines `cur` and `next`.
pub open spec fn gap_of(cur: int, next: int) -> Gap {
    if next - cur > 2 {
        Gap::Elided
    } else if next - cur == 2 {
        Gap::OneLine((cur + 1) as usize)
    } else {
        Gap::Adjacent
    }
}

/// Decides what stands between annotated lines `cur` and `next`: nothing
/// where they are adjacent, the one line between them where there is one,
/// an elision marker where there are more.
pub fn gap_between(cur: usize, next: usize) -> (r: Gap)
    requires
        cur < next,
    ensures
        r == gap_of(cur as int, next as int),
        next - cur > 2 <==> r == Gap::Elided,
        next - cur == 2 <==> r == Gap::OneLine((cur + 1) as usize),
        next - cur == 1 <==> r == Gap::Adjacent,
{
    let delta = next - cur;
    if delta > 2 {
        Gap::Elided
    } else if delta == 2 {
        Gap::OneLine(cur + 1)
    } else {
        Gap::Adjacent
    }
}

/// `a` comes no later than `b` in (start column, end column) order.
pub open spec fn key_le(a: Annotation, b: Annotation) -> bool {
    a.start_col < b.start_col || (a.start_col == b.start_col && a.end_col <= b.end_col)
}

/// `s` with `a` inserted after every element that comes no later than it.
pub open spec fn insert_by_key(s: Seq<Annotation>, a: Annotation) -> Seq<Annotation>
    decreases s.len(),
{
    if s.len() == 0 {
        seq![a]
    } else if key_le(s.last(), a) {
        s.push(a)
    } else {
        insert_by_key(s.drop_last(), a).push(s.last())
    }
}

/// `s` sorted by (start column, end column); equal keys keep their order.
pub open spec fn sort_by_key(s: Seq<Annotation>) -> Seq<Annotation>
    decreases s.len(),
{
    if s.len() == 0 {
        Seq::empty()
    } else {
        insert_by_key(sort_by_key(s.drop_last()), s.last())
    }
}

/// `s` is in (start column, end column) order.
pub open spec fn sorted_by_key(s: Seq<Annotation>) -> bool {
    forall|i: int, j: int| 0 <= i < j < s.len() ==> key_le(s[i], s[j])
}

proof fn lemma_insert_by_key(s: Seq<Annotation>, a: Annotation)
    requires
        sorted_by_key(s),
    ensures
        sorted_by_key(insert_by_key(s, a)),
        insert_by_key(s, a).len() == s.len() + 1,
        forall|x: Annotation| #[trigger] insert_by_key(s, a).contains(x) <==> (s.contains(x) || x == a),
    decreases s.len(),
{
    let r = insert_by_key(s, a);
    if s.len() == 0 {
        assert(r =~= seq![a]);
        assert forall|x: Annotation| r.contains(x) <==> (s.contains(x) || x == a) by {
            if x == a {
                assert(r[0] == x);
            }
        }
    } else if key_le(s.last(), a) {
        assert forall|i: int, j: int| 0 <= i < j < r.len() implies key_le(r[i], r[j]) by {
            if j == r.len() - 1 && i < s.len() - 1 {
                assert(key_le(s[i], s[s.len() - 1]));
            }
        }
        assert forall|x: Annotation| r.contains(x) <==> (s.contains(x) || x == a) by {
            if s.contains(x) {
                let i = choose|i: int| 0 <= i < s.len() && s[i] == x;
                assert(r[i] == x);
            }
            if x == a {
                assert(r[s.len() as int] == x);
            }
        }
    } else {
        let t = s.drop_last();
        lemma_insert_by_key(t, a);
        let q = insert_by_key(t, a);
        assert(r == q.push(s.last()));
        assert forall|i: int, j: int| 0 <= i < j < r.len() implies key_le(r[i], r[j]) by {
            if j == r.len() - 1 {
                assert(q.contains(r[i]));
                if t.contains(r[i]) {
                    let k = choose|k: int| 0 <= k < t.len() && t[k] == r[i];
                    assert(key_le(s[k], s[s.len() - 1]));
                }
            }
        }
        assert forall|x: Annotation| r.contains(x) <==> (s.contains(x) || x == a) by {
            if r.contains(x) {
                let i = choose|i: int| 0 <= i < r.len() && r[i] == x;
                if i < q.len() {
                    assert(r[i] == q[i]);
                    assert(q.contains(x));
                    if t.contains(x) {
                        let k = choose|k: int| 0 <= k < t.len() && t[k] == x;
                        assert(s[k] == x);
                    }
                } else {
                    assert(s[s.len() - 1] == x);
                }
            }
            if s.contains(x) {
                let k = choose|k: int| 0 <= k < s.len() && s[k] == x;
                if k < t.len() {
                    assert(t[k] == x);
                    assert(t.contains(x));
                    assert(q.contains(x));
                    let i = choose|i: int| 0 <= i < q.len() && q[i] == x;
                    assert(r[i] == x);
                } else {
                    assert(r[r.len() - 1] == x);
                }
            }
            if x == a {
                assert(insert_by_key(t, a).contains(x));
                let i = choose|i: int| 0 <= i < q.len() && q[i] == x;
                assert(r[i] == x);
            }
        }
    }
}

proof fn lemma_sort_by_key(s: Seq<Annotation>)
    ensures
        sorted_by_key(sort_by_key(s)),
        sort_by_key(s).len() == s.len(),
        forall|x: Annotation| #[trigger] sort_by_key(s).contains(x) <==> s.contains(x),
    decreases s.len(),
{
    if s.len() > 0 {
        let t = s.drop_last();
        lemma_sort_by_key(t);
        lemma_insert_by_key(sort_by_key(t), s.last());
        assert forall|x: Annotation| sort_by_key(s).contains(x) <==> s.contains(x) by {
            if s.contains(x) {
                let k = choose|k: int| 0 <= k < s.len() && s[k] == x;
                if k < t.len() {
                    assert(t[k] == x);
                }
            }
            if t.contains(x) {
                let k = choose|k: int| 0 <= k < t.len() && t[k] == x;
                assert(s[k] == x);
            }
        }
    }
}

/// The annotations in (start column, end column) order; annotations with
/// equal columns keep their order.
pub fn sort_annotations(v: &Vec<Annotation>) -> (r: Vec<Annotation>)
    ensures
        r@ == sort_by_key(v@),
        sorted_by_key(r@),
        r@.len() == v@.len(),
        forall|x: Annotation| r@.contains(x) <==> v@.contains(x),
{
    proof {
        lemma_sort_by_key(v@);
    }
    let mut out: Vec<Annotation> = Vec::new();
    let mut i: usize = 0;
    while i < v.len()
        invariant
            i <= v@.len(),
            out@ == sort_by_key(v@.take(i as int)),
        decreases v@.len() - i,
    {
        let a = v[i];
        let ghost s = out@;
        let mut j = out.len();
        assert(s.take(j as int) =~= s);
        assert(s.skip(j as int) =~= Seq::<Annotation>::empty());
        while j > 0 && !(out[j - 1].start_col < a.start_col || (out[j - 1].start_col == a.start_col
            && out[j - 1].end_col <= a.end_col))
            invariant
                j <= s.len(),
                out@ == s,
                insert_by_key(s, a) == insert_by_key(s.take(j as int), a) + s.skip(j as int),
            decreases j,
        {
            let ghost u = s.take(j as int);
            assert(u.drop_last() =~= s.take(j - 1));
            assert(u.last() == s[j - 1]);
            assert(s.skip(j - 1) =~= seq![s[j - 1]] + s.skip(j as int));
            assert(insert_by_key(u, a) =~= insert_by_key(s.take(j - 1), a).push(s[j - 1]));
            assert(insert_by_key(s.take(j - 1), a).push(s[j - 1]) + s.skip(j as int)
                =~= insert_by_key(s.take(j - 1), a) + s.skip(j - 1));
            j = j - 1;
        }
        proof {
            let u = s.take(j as int);
            if j == 0 {
                assert(u =~= Seq::<Annotation>::empty());
            }
            assert(insert_by_key(u, a) =~= u.push(a));
        }
        out.insert(j, a);
        assert(out@ =~= s.take(j as int).push(a) + s.skip(j as int));
        assert(v@.take(i + 1).drop_last() =~= v@.take(i as int));
        i = i + 1;
    }
    assert(v@.take(i as int) =~= v@);
    out
}

/// The largest line on which one of the first `n` labels ends (0 where there is none).
pub open spec fn max_line(cm: CodeMap, labels: Seq<SpanLabel>, n: int) -> int
    decreases n,
{
    if n <= 0 {
        0
    } else {
        let m = max_line(cm, labels, n - 1);
        let l = cm.lookup(labels[n - 1].span.hi as int).line as int;
        if l > m { l } else { m }
    }
}

/// The largest line number on which one of `labels` ends.
pub fn max_line_num(cm: &CodeMap, labels: &Vec<SpanLabel>) -> (r: usize)
    requires
        crate::annotations::labels_in(*cm, labels@),
    ensures
        r == max_line(*cm, labels@, labels@.len() as int),
{
    let mut max: usize = 0;
    let mut i: usize = 0;
    while i < labels.len()
        invariant
            crate::annotations::labels_in(*cm, labels@),
            i <= labels@.len(),
            max == max_line(*cm, labels@, i as int),
        decreases labels@.len() - i,
    {
        assert(labels@[i as int].span.lo <= labels@[i as int].span.hi <= cm.end());
        let hi = cm.lookup_char_pos(labels[i].span.hi);
        if hi.line > max {
            max = hi.line;
        }
        i = i + 1;
    }
    max
}

/// The largest line number on which a label of `msg` ends.
pub fn get_max_line_num(msg: &CompilerMessage) -> (r: usize)
    requires
        msg.wf(),
    ensures
        r == max_line(*msg.cm, msg.span_labels@, msg.span_labels@.len() as int),
{
    proof {
        crate::render_succinct::lemma_message_labels(*msg);
    }
    max_line_num(&msg.cm, &msg.span_labels)
}

/// The width of the line-number gutter, for every file of `msg`: the number
/// of digits of the largest line on which a label ends.
pub fn gutter_width(msg: &CompilerMessage) -> (r: usize)
    requires
        msg.wf(),
    ensures
        r == digit_count(max_line(*msg.cm, msg.span_labels@, msg.span_labels@.len() as int) as nat),
        1 <= r <= 20,
{
    let max = get_max_line_num(msg);
    digit_len(max)
}

/// `s` with the elements at 0 and `p` exchanged.
pub open spec fn swapped<T>(s: Seq<T>, p: int) -> Seq<T> {
    s.update(0, s[p]).update(p, s[0])
}

/// The index of the first `p` in `s` (-1 where there is none).
pub open spec fn first_index(s: Seq<usize>, p: usize) -> int
    decreases s.len(),
{
    if s.len() == 0 {
        -1
    } else {
        let r = first_index(s.drop_last(), p);
        if r >= 0 {
            r
        } else if s.last() == p {
            s.len() - 1
        } else {
            -1
        }
    }
}

proof fn lemma_first_index(s: Seq<usize>, p: usize, k: int)
    requires
        0 <= k <= s.len(),
        forall|j: int| 0 <= j < k ==> s[j] != p,
    ensures
        k < s.len() && s[k] == p ==> first_index(s, p) == k,
        k == s.len() ==> first_index(s, p) == -1,
    decreases s.len(),
{
    if s.len() > 0 {
        let t = s.drop_last();
        if k < s.len() - 1 {
            lemma_first_index(t, p, k);
        } else {
            lemma_first_index(t, p, (s.len() - 1) as int);
        }
    }
}

pub proof fn lemma_first_index_range(s: Seq<usize>, p: usize)
    ensures
        -1 <= first_index(s, p) < s.len(),
        first_index(s, p) >= 0 ==> s[first_index(s, p)] == p,
        s.contains(p) ==> first_index(s, p) >= 0,
    decreases s.len(),
{
    if s.len() > 0 {
        lemma_first_index_range(s.drop_last(), p);
        if s.contains(p) && first_index(s.drop_last(), p) < 0 {
            let i = choose|i: int| 0 <= i < s.len() && s[i] == p;
            if i < s.len() - 1 {
                assert(s.drop_last()[i] == p);
            }
        }
    }
}

/// `s` with its element at `i` moved to the front by a swap, where `i` is
/// past the front.
pub open spec fn moved_first<T>(s: Seq<T>, i: int) -> Seq<T> {
    if i > 0 { swapped(s, i) } else { s }
}

/// The file indices of a grouping, in order.
pub open spec fn file_ids(s: Seq<FileWithAnnotatedLines>) -> Seq<usize> {
    s.map_values(|f: FileWithAnnotatedLines| f.file)
}

/// Moves the file `primary` to the front, swapping it with the file there;
/// the order is unchanged where `primary` is not among the files.
pub fn primary_first(files: &mut Vec<FileWithAnnotatedLines>, primary: usize)
    ensures
        final(files)@.len() == old(files)@.len(),
        (exists|i: int| 0 <= i < old(files)@.len() && old(files)@[i].file == primary)
            ==> final(files)@[0].file == primary,
        final(files)@ == moved_first(old(files)@, first_index(file_ids(old(files)@), primary)),
        (forall|i: int| 0 <= i < old(files)@.len() ==> old(files)@[i].file != primary)
            ==> final(files)@ == old(files)@,
        forall|labels: Seq<SpanLabel>, n: nat| well_grouped(old(files)@, labels, n)
            ==> #[trigger] well_grouped(final(files)@, labels, n),
{
    let mut pos: usize = 0;
    while pos < files.len() && files[pos].file != primary
        invariant
            pos <= files@.len(),
            files@ == old(files)@,
            forall|j: int| 0 <= j < pos ==> files@[j].file != primary,
        decreases files@.len() - pos,
    {
        pos = pos + 1;
    }
    proof {
        lemma_first_index(file_ids(files@), primary, pos as int);
    }
    if pos < files.len() && pos > 0 {
        let ghost s = files@;
        let p = files.remove(pos);
        files.insert(0, p);
        let f0 = files.remove(1);
        files.insert(pos, f0);
        assert(files@ =~= swapped(s, pos as int));
        assert forall|labels: Seq<SpanLabel>, n: nat| well_grouped(s, labels, n)
            implies #[trigger] well_grouped(files@, labels, n) by {
            let t = files@;
            assert forall|i: int| #![trigger t[i]] 0 <= i < t.len() implies exists|j: int| #![trigger s[j]] 0 <= j < s.len() && t[i] == s[j] by {
                let j = if i == 0 { pos as int } else if i == pos { 0 } else { i };
                assert(0 <= j < s.len() && t[i] == s[j]);
            }
            assert forall|i: int| 0 <= i < t.len() implies (#[trigger] t[i]).file < n by {
                let j = choose|j: int| 0 <= j < s.len() && t[i] == s[j];
                assert(s[j].file < n);
            }
            assert forall|i: int| 0 <= i < t.len() implies (#[trigger] t[i]).lines@.len() <= labels.len() by {
                let j = choose|j: int| 0 <= j < s.len() && t[i] == s[j];
                assert(s[j].lines@.len() <= labels.len());
            }
            assert forall|i: int, j: int| 0 <= i < t.len() && 0 <= j < t[i].lines@.len() implies
                1 <= (#[trigger] t[i].lines@[j]).line_number <= crate::codemap::LIMIT + 1 by {
                let k = choose|k: int| 0 <= k < s.len() && t[i] == s[k];
                assert(1 <= s[k].lines@[j].line_number <= crate::codemap::LIMIT + 1);
            }
            assert forall|i: int, j: int, j2: int| 0 <= i < t.len() && 0 <= j < j2 < t[i].lines@.len() implies
                t[i].lines@[j].line_number < t[i].lines@[j2].line_number by {
                let k = choose|k: int| 0 <= k < s.len() && t[i] == s[k];
                assert(s[k].lines@[j].line_number < s[k].lines@[j2].line_number);
            }
            assert forall|i: int, j: int, a: int| 0 <= i < t.len() && 0 <= j < t[i].lines@.len() && 0 <= a < t[i].lines@[j].annotations@.len() implies
                crate::annotations::good_annotation(#[trigger] t[i].lines@[j].annotations@[a], labels) by {
                let k = choose|k: int| 0 <= k < s.len() && t[i] == s[k];
                assert(crate::annotations::good_annotation(s[k].lines@[j].annotations@[a], labels));
            }
            assert forall|i: int, j: int| 0 <= i < t.len() && 0 <= j < t[i].lines@.len() implies
                1 <= (#[trigger] t[i].lines@[j]).annotations@.len() <= labels.len() by {
                let k = choose|k: int| 0 <= k < s.len() && t[i] == s[k];
                assert(1 <= s[k].lines@[j].annotations@.len() <= labels.len());
            }
        }
    }
}

} // verus!
