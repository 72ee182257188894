//! Grouping of a diagnostic's labels by file and by line.
use vstd::prelude::*;
use crate::codemap::{CodeMap, Loc, LIMIT};
use crate::compiler_message::SpanLabel;

verus! {

/// A label projected onto one line.
#[derive(Copy, Clone, Debug, PartialEq, Eq, Structural)]
pub struct Annotation {
    /// Start column, counting characters from 0.
    pub start_col: usize,
    /// End column (exclusive).
    pub end_col: usize,
    /// Whether the annotation comes from the primary span.
    pub is_primary: bool,
    /// Whether a span over several lines was cut down to one character.
    pub is_minimized: bool,
    /// The index of the span label whose text is shown, if it has one.
    pub label: Option<usize>,
}

/// The annotations of one line of a file.
pub struct Line {
    /// The line's number, from 1.
    pub line_number: usize,
    pub annotations: Vec<Annotation>,
}

/// The annotated lines of one file, by ascending line number.
pub struct FileWithAnnotatedLines {
    /// The file's index in the code map.
    pub file: usize,
    pub lines: Vec<Line>,
}

/// Where the label starts.
pub open spec fn start_loc(cm: CodeMap, l: SpanLabel) -> Loc {
    cm.lookup(l.span.lo as int)
}

/// The annotation made of label `k`, `l`: a span over several lines becomes
/// one character at its start, and an empty span is widened to one character.
pub open spec fn annotation_of(cm: CodeMap, l: SpanLabel, k: int) -> Annotation {
    let lo = cm.lookup(l.span.lo as int);
    let hi = cm.lookup(l.span.hi as int);
    let minimized = lo.file != hi.file || lo.line != hi.line;
    Annotation {
        start_col: lo.col,
        end_col: if minimized || hi.col == lo.col { (lo.col + 1) as usize } else { hi.col },
        is_primary: l.is_primary,
        is_minimized: minimized,
        label: if l.label is Some { Some(k as usize) } else { None },
    }
}

/// The files of the first `n` labels, each once, in the order first seen.
pub open spec fn files_seen(cm: CodeMap, labels: Seq<SpanLabel>, n: int) -> Seq<usize>
    decreases n,
{
    if n <= 0 {
        Seq::empty()
    } else {
        let r = files_seen(cm, labels, n - 1);
        let f = start_loc(cm, labels[n - 1]).file;
        if r.contains(f) { r } else { r.push(f) }
    }
}

/// The annotations, in label order, of those of the first `n` labels that
/// start on line `ln` of file `f`.
pub open spec fn anns_on(cm: CodeMap, labels: Seq<SpanLabel>, f: int, ln: int, n: int) -> Seq<Annotation>
    decreases n,
{
    if n <= 0 {
        Seq::empty()
    } else {
        let r = anns_on(cm, labels, f, ln, n - 1);
        let loc = start_loc(cm, labels[n - 1]);
        if loc.file == f && loc.line == ln {
            r.push(annotation_of(cm, labels[n - 1], n - 1))
        } else {
            r
        }
    }
}

/// Whether one of the labels starts on line `ln` of file `f`.
pub open spec fn has_line(cm: CodeMap, labels: Seq<SpanLabel>, f: int, ln: int) -> bool {
    exists|k: int| 0 <= k < labels.len() && start_loc(cm, labels[k]).file == f && start_loc(cm, labels[k]).line == ln
}

/// `s` is strictly ascending and holds exactly the lines of file `f` on
/// which a label starts.
pub open spec fn is_line_list(s: Seq<usize>, cm: CodeMap, labels: Seq<SpanLabel>, f: int) -> bool {
    &&& forall|i: int, j: int| 0 <= i < j < s.len() ==> s[i] < s[j]
    &&& forall|x: usize| s.contains(x) <==> has_line(cm, labels, f, x as int)
}

/// The lines of file `f` on which a label starts, ascending.
pub open spec fn lines_of(cm: CodeMap, labels: Seq<SpanLabel>, f: int) -> Seq<usize> {
    choose|s: Seq<usize>| is_line_list(s, cm, labels, f)
}

proof fn lemma_ascending_unique(a: Seq<usize>, b: Seq<usize>)
    requires
        forall|i: int, j: int| 0 <= i < j < a.len() ==> a[i] < a[j],
        forall|i: int, j: int| 0 <= i < j < b.len() ==> b[i] < b[j],
        forall|x: usize| a.contains(x) <==> b.contains(x),
    ensures
        a == b,
    decreases a.len(),
{
    if a.len() == 0 {
        if b.len() > 0 {
            assert(b.contains(b[0]));
        }
        assert(a =~= b);
    } else {
        assert(a.contains(a[0]));
        assert(b.len() > 0);
        assert(b.contains(b[0]));
        let ja = choose|j: int| 0 <= j < a.len() && a[j] == b[0];
        let jb = choose|j: int| 0 <= j < b.len() && b[j] == a[0];
        assert(a[0] == b[0]) by {
            if a[0] < b[0] {
                assert(b[jb] == a[0]);
                if jb > 0 {
                    assert(b[0] < b[jb]);
                }
            } else if a[0] > b[0] {
                if ja > 0 {
                    assert(a[0] < a[ja]);
                }
            }
        }
        let a1 = a.drop_first();
        let b1 = b.drop_first();
        assert forall|x: usize| a1.contains(x) <==> b1.contains(x) by {
            if a1.contains(x) {
                let i = choose|i: int| 0 <= i < a1.len() && a1[i] == x;
                assert(a[i + 1] == x);
                assert(a.contains(x));
                let k = choose|k: int| 0 <= k < b.len() && b[k] == x;
                assert(a[0] < a[i + 1]);
                assert(k != 0);
                assert(b1[k - 1] == x);
            }
            if b1.contains(x) {
                let i = choose|i: int| 0 <= i < b1.len() && b1[i] == x;
                assert(b[i + 1] == x);
                assert(b.contains(x));
                let k = choose|k: int| 0 <= k < a.len() && a[k] == x;
                assert(b[0] < b[i + 1]);
                assert(k != 0);
                assert(a1[k - 1] == x);
            }
        }
        lemma_ascending_unique(a1, b1);
        assert(a =~= seq![a[0]] + a1);
        assert(b =~= seq![b[0]] + b1);
    }
}

/// The model of one file's group: its index, and each line's number with
/// its annotations.
pub open spec fn group_view(f: FileWithAnnotatedLines) -> (usize, Seq<(usize, Seq<Annotation>)>) {
    (f.file, f.lines@.map_values(|l: Line| (l.line_number, l.annotations@)))
}

/// The grouping of the labels: the files in the order first seen, each with
/// its lines ascending, each line with its labels' annotations in label order.
pub open spec fn grouped(cm: CodeMap, labels: Seq<SpanLabel>) -> Seq<(usize, Seq<(usize, Seq<Annotation>)>)> {
    files_seen(cm, labels, labels.len() as int).map_values(|f: usize|
        (f, lines_of(cm, labels, f as int).map_values(|ln: usize|
            (ln, anns_on(cm, labels, f as int, ln as int, labels.len() as int)))))
}

/// The indices of those of the first `n` labels that start on line `ln` of file `f`.
pub open spec fn labels_on(cm: CodeMap, labels: Seq<SpanLabel>, f: int, ln: int, n: int) -> Set<int>
    decreases n,
{
    if n <= 0 {
        Set::empty()
    } else {
        let s = labels_on(cm, labels, f, ln, n - 1);
        let loc = start_loc(cm, labels[n - 1]);
        if loc.file == f && loc.line == ln { s.insert(n - 1) } else { s }
    }
}

/// A line's annotations are as many as the labels that start on it.
pub proof fn lemma_labels_on(cm: CodeMap, labels: Seq<SpanLabel>, f: int, ln: int, n: int)
    requires
        0 <= n <= labels.len(),
    ensures
        labels_on(cm, labels, f, ln, n).finite(),
        labels_on(cm, labels, f, ln, n).len() == anns_on(cm, labels, f, ln, n).len(),
        forall|k: int| #[trigger] labels_on(cm, labels, f, ln, n).contains(k) <==> (0 <= k < n
            && start_loc(cm, labels[k]).file == f && start_loc(cm, labels[k]).line == ln),
    decreases n,
{
    if n > 0 {
        lemma_labels_on(cm, labels, f, ln, n - 1);
    }
}

/// The files of a grouping are distinct.
pub proof fn lemma_grouped_distinct(cm: CodeMap, labels: Seq<SpanLabel>, n: int)
    ensures
        forall|i: int, j: int| 0 <= i < j < files_seen(cm, labels, n).len() ==>
            files_seen(cm, labels, n)[i] != files_seen(cm, labels, n)[j],
    decreases n,
{
    if n > 0 {
        lemma_grouped_distinct(cm, labels, n - 1);
        let r = files_seen(cm, labels, n - 1);
        let f = start_loc(cm, labels[n - 1]).file;
        if !r.contains(f) {
            assert forall|i: int, j: int| 0 <= i < j < r.push(f).len() implies r.push(f)[i] != r.push(f)[j] by {
                if j == r.len() {
                    assert(r[i] == r.push(f)[i]);
                }
            }
        }
    }
}

/// An annotation that can be drawn: a non-empty column range of bounded
/// size, and a label that refers to a label with text.
pub open spec fn good_annotation(a: Annotation, labels: Seq<SpanLabel>) -> bool {
    &&& a.start_col < a.end_col <= LIMIT + 1
    &&& a.label is Some ==> a.label->0 < labels.len() && labels[a.label->0 as int].label is Some
}

/// The shape that `preprocess_annotations` guarantees of its result.
pub open spec fn well_grouped(r: Seq<FileWithAnnotatedLines>, labels: Seq<SpanLabel>, num_files: nat) -> bool {
    &&& r.len() <= labels.len()
    &&& forall|i: int| 0 <= i < r.len() ==> (#[trigger] r[i]).file < num_files
    &&& forall|i: int| 0 <= i < r.len() ==> (#[trigger] r[i]).lines@.len() <= labels.len()
    &&& forall|i: int, j: int| 0 <= i < r.len() && 0 <= j < r[i].lines@.len() ==>
        1 <= (#[trigger] r[i].lines@[j]).line_number <= LIMIT + 1
    &&& forall|i: int, j: int, j2: int| 0 <= i < r.len() && 0 <= j < j2 < r[i].lines@.len() ==>
        r[i].lines@[j].line_number < r[i].lines@[j2].line_number
    &&& forall|i: int, j: int, a: int| 0 <= i < r.len() && 0 <= j < r[i].lines@.len() && 0 <= a < r[i].lines@[j].annotations@.len() ==>
        good_annotation(#[trigger] r[i].lines@[j].annotations@[a], labels)
    &&& forall|i: int, j: int| 0 <= i < r.len() && 0 <= j < r[i].lines@.len() ==>
        1 <= (#[trigger] r[i].lines@[j]).annotations@.len() <= labels.len()
}

/// The labels' spans lie in the code map.
pub open spec fn labels_in(cm: CodeMap, labels: Seq<SpanLabel>) -> bool {
    &&& cm.wf()
    &&& cm.num_files() > 0
    &&& labels.len() <= LIMIT
    &&& forall|k: int| 0 <= k < labels.len() ==> (#[trigger] labels[k]).span.lo <= labels[k].span.hi <= cm.end()
}

proof fn lemma_anns_on(cm: CodeMap, labels: Seq<SpanLabel>, f: int, ln: int, n: int)
    requires
        labels_in(cm, labels),
        0 <= n <= labels.len(),
    ensures
        anns_on(cm, labels, f, ln, n).len() <= n,
        forall|a: int| 0 <= a < anns_on(cm, labels, f, ln, n).len() ==>
            good_annotation(#[trigger] anns_on(cm, labels, f, ln, n)[a], labels),
    decreases n,
{
    if n > 0 {
        lemma_anns_on(cm, labels, f, ln, n - 1);
        let l = labels[n - 1];
        let lo = cm.lookup(l.span.lo as int);
        let hi = cm.lookup(l.span.hi as int);
        crate::codemap::lemma_lookup_bounds(cm, l.span.lo as int);
        crate::codemap::lemma_lookup_bounds(cm, l.span.hi as int);
        if lo.file == hi.file && lo.line == hi.line {
            crate::codemap::lemma_lookup_same_line(cm, l.span.lo as int, l.span.hi as int);
        }
        let r = anns_on(cm, labels, f, ln, n - 1);
        if lo.file == f && lo.line == ln {
            let a = annotation_of(cm, l, n - 1);
            assert(good_annotation(a, labels));
            assert forall|i: int| 0 <= i < r.len() implies r.push(a)[i] == r[i] by {}
        }
    }
}

/// Resolves one label to its starting position and its annotation.
fn annotation_for(cm: &CodeMap, l: &SpanLabel, k: usize) -> (r: (Loc, Annotation))
    requires
        cm.wf(),
        cm.num_files() > 0,
        l.span.lo <= l.span.hi <= cm.end(),
    ensures
        r.0 == start_loc(*cm, *l),
        r.1 == annotation_of(*cm, *l, k as int),
        r.0.file < cm.num_files(),
        1 <= r.0.line <= LIMIT + 1,
{
    let lo = cm.lookup_char_pos(l.span.lo);
    let hi = cm.lookup_char_pos(l.span.hi);
    let minimized = lo.file != hi.file || lo.line != hi.line;
    let end_col = if minimized || hi.col == lo.col { lo.col + 1 } else { hi.col };
    let label = if l.label.is_some() { Some(k) } else { None };
    (lo, Annotation { start_col: lo.col, end_col: end_col, is_primary: l.is_primary, is_minimized: minimized, label: label })
}

fn contains_file(v: &Vec<usize>, f: usize) -> (r: bool)
    ensures
        r == v@.contains(f),
{
    let mut i: usize = 0;
    while i < v.len()
        invariant
            i <= v@.len(),
            forall|j: int| 0 <= j < i ==> v@[j] != f,
        decreases v@.len() - i,
    {
        if v[i] == f {
            return true;
        }
        i = i + 1;
    }
    false
}

/// Inserts `x` into the strictly ascending `v`, unless it is there already.
fn insert_sorted(v: &mut Vec<usize>, x: usize)
    requires
        forall|i: int, j: int| 0 <= i < j < old(v)@.len() ==> old(v)@[i] < old(v)@[j],
    ensures
        forall|i: int, j: int| 0 <= i < j < final(v)@.len() ==> final(v)@[i] < final(v)@[j],
        forall|y: usize| final(v)@.contains(y) <==> (old(v)@.contains(y) || y == x),
        final(v)@.len() <= old(v)@.len() + 1,
{
    let mut i: usize = 0;
    while i < v.len() && v[i] < x
        invariant
            i <= v@.len(),
            v@ == old(v)@,
            forall|j: int| 0 <= j < i ==> v@[j] < x,
        decreases v@.len() - i,
    {
        i = i + 1;
    }
    if i < v.len() && v[i] == x {
        return;
    }
    let ghost before = v@;
    v.insert(i, x);
    assert forall|y: usize| v@.contains(y) <==> (before.contains(y) || y == x) by {
        if v@.contains(y) {
            let j = choose|j: int| 0 <= j < v@.len() && v@[j] == y;
            if j < i {
                assert(before[j] == y);
            } else if j > i {
                assert(before[j - 1] == y);
            }
        }
        if before.contains(y) {
            let j = choose|j: int| 0 <= j < before.len() && before[j] == y;
            if j < i {
                assert(v@[j] == y);
            } else {
                assert(v@[j + 1] == y);
            }
        }
        if y == x {
            assert(v@[i as int] == x);
        }
    }
}

/// Groups the labels of `msg` by file, in the order files are first seen, and
/// within a file by line, in ascending order; each line keeps its labels'
/// annotations in label order.
pub fn preprocess_annotations(cm: &CodeMap, labels: &Vec<SpanLabel>) -> (r: Vec<FileWithAnnotatedLines>)
    requires
        labels_in(*cm, labels@),
    ensures
        r@.len() == files_seen(*cm, labels@, labels@.len() as int).len(),
        forall|i: int| 0 <= i < r@.len() ==>
            (#[trigger] r@[i]).file == files_seen(*cm, labels@, labels@.len() as int)[i],
        forall|i: int, ln: int| 0 <= i < r@.len() ==>
            ((exists|j: int| 0 <= j < r@[i].lines@.len() && r@[i].lines@[j].line_number == ln)
                <==> has_line(*cm, labels@, r@[i].file as int, ln)),
        forall|i: int, j: int| 0 <= i < r@.len() && 0 <= j < r@[i].lines@.len() ==>
            (#[trigger] r@[i].lines@[j]).annotations@ == anns_on(
                *cm, labels@, r@[i].file as int, r@[i].lines@[j].line_number as int,
                labels@.len() as int),
        well_grouped(r@, labels@, cm.num_files()),
        r@.map_values(|f: FileWithAnnotatedLines| group_view(f)) == grouped(*cm, labels@),
{
    let n = labels.len();
    let ghost ls = labels@;

    // The files, in the order first seen.
    let mut files: Vec<usize> = Vec::new();
    let mut k: usize = 0;
    while k < n
        invariant
            n == ls.len(),
            ls == labels@,
            labels_in(*cm, ls),
            k <= n,
            files@.len() <= k,
            files@ == files_seen(*cm, ls, k as int),
            forall|i: int| 0 <= i < files@.len() ==> files@[i] < cm.num_files(),
        decreases n - k,
    {
        assert(ls[k as int].span.lo <= ls[k as int].span.hi <= cm.end());
        let (loc, _) = annotation_for(cm, &labels[k], k);
        if !contains_file(&files, loc.file) {
            files.push(loc.file);
        }
        k = k + 1;
    }

    let mut out: Vec<FileWithAnnotatedLines> = Vec::new();
    let mut fi: usize = 0;
    while fi < files.len()
        invariant
            n == ls.len(),
            ls == labels@,
            labels_in(*cm, ls),
            files@ == files_seen(*cm, ls, n as int),
            files@.len() <= n,
            forall|i: int| 0 <= i < files@.len() ==> files@[i] < cm.num_files(),
            fi <= files@.len(),
            out@.len() == fi,
            forall|i: int| 0 <= i < fi ==> (#[trigger] out@[i]).file == files@[i],
            forall|i: int, ln: int| 0 <= i < fi ==>
                ((exists|j: int| 0 <= j < out@[i].lines@.len() && out@[i].lines@[j].line_number == ln)
                    <==> has_line(*cm, ls, out@[i].file as int, ln)),
            forall|i: int, j: int| 0 <= i < fi && 0 <= j < out@[i].lines@.len() ==>
                (#[trigger] out@[i].lines@[j]).annotations@ == anns_on(
                    *cm, ls, out@[i].file as int, out@[i].lines@[j].line_number as int, n as int),
            well_grouped(out@, ls, cm.num_files()),
            forall|i: int| 0 <= i < fi ==> #[trigger] group_view(out@[i]) == grouped(*cm, ls)[i],
        decreases files@.len() - fi,
    {
        let f = files[fi];
        // The line numbers of this file, ascending.
        let mut numbers: Vec<usize> = Vec::new();
        let mut k: usize = 0;
        while k < n
            invariant
                n == ls.len(),
                ls == labels@,
                labels_in(*cm, ls),
                k <= n,
                numbers@.len() <= k,
                forall|i: int, j: int| 0 <= i < j < numbers@.len() ==> numbers@[i] < numbers@[j],
                forall|ln: usize| numbers@.contains(ln) <==> exists|j: int|
                    0 <= j < k && start_loc(*cm, ls[j]).file == f && start_loc(*cm, ls[j]).line == ln,
                forall|i: int| 0 <= i < numbers@.len() ==> 1 <= #[trigger] numbers@[i] <= LIMIT + 1,
            decreases n - k,
        {
            assert(ls[k as int].span.lo <= ls[k as int].span.hi <= cm.end());
            let (loc, _) = annotation_for(cm, &labels[k], k);
            let ghost before = numbers@;
            if loc.file == f {
                insert_sorted(&mut numbers, loc.line);
            }
            k = k + 1;
            assert forall|ln: usize| numbers@.contains(ln) <==> exists|j: int|
                0 <= j < k && start_loc(*cm, ls[j]).file == f && start_loc(*cm, ls[j]).line == ln by {
                if numbers@.contains(ln) && !before.contains(ln) {
                    assert(start_loc(*cm, ls[k - 1]).line == ln);
                }
                if exists|j: int| 0 <= j < k && start_loc(*cm, ls[j]).file == f && start_loc(*cm, ls[j]).line == ln {
                    let j = choose|j: int| 0 <= j < k && start_loc(*cm, ls[j]).file == f && start_loc(*cm, ls[j]).line == ln;
                    if j < k - 1 {
                        assert(before.contains(ln));
                    }
                }
            }
            assert forall|i: int| 0 <= i < numbers@.len() implies 1 <= #[trigger] numbers@[i] <= LIMIT + 1 by {
                assert(numbers@.contains(numbers@[i]));
                if !before.contains(numbers@[i]) {
                    assert(numbers@[i] == loc.line);
                } else {
                    let j = choose|j: int| 0 <= j < before.len() && before[j] == numbers@[i];
                    assert(1 <= before[j] <= LIMIT + 1);
                }
            }
        }

        proof {
            assert forall|x: usize| numbers@.contains(x) <==> has_line(*cm, ls, f as int, x as int) by {}
            assert(is_line_list(numbers@, *cm, ls, f as int));
            let c = lines_of(*cm, ls, f as int);
            assert(is_line_list(c, *cm, ls, f as int));
            lemma_ascending_unique(numbers@, c);
        }
        let mut lines: Vec<Line> = Vec::new();
        let mut li: usize = 0;
        while li < numbers.len()
            invariant
                n == ls.len(),
                ls == labels@,
                labels_in(*cm, ls),
                li <= numbers@.len(),
                numbers@.len() <= n,
                lines@.len() == li,
                forall|j: int| 0 <= j < li ==> (#[trigger] lines@[j]).line_number == numbers@[j],
                forall|j: int| 0 <= j < li ==> (#[trigger] lines@[j]).annotations@ == anns_on(
                    *cm, ls, f as int, numbers@[j] as int, n as int),
            decreases numbers@.len() - li,
        {
            let ln = numbers[li];
            let mut anns: Vec<Annotation> = Vec::new();
            let mut k: usize = 0;
            while k < n
                invariant
                    n == ls.len(),
                    ls == labels@,
                    labels_in(*cm, ls),
                    k <= n,
                    anns@ == anns_on(*cm, ls, f as int, ln as int, k as int),
                decreases n - k,
            {
                assert(ls[k as int].span.lo <= ls[k as int].span.hi <= cm.end());
                let (loc, a) = annotation_for(cm, &labels[k], k);
                if loc.file == f && loc.line == ln {
                    anns.push(a);
                }
                k = k + 1;
            }
            lines.push(Line { line_number: ln, annotations: anns });
            li = li + 1;
        }

        let ghost prev = out@;
        out.push(FileWithAnnotatedLines { file: f, lines: lines });
        proof {
            assert forall|i: int| 0 <= i < fi ==> out@[i] == prev[i] by {}
            assert forall|ln: int| (exists|j: int| 0 <= j < out@[fi as int].lines@.len() && out@[fi as int].lines@[j].line_number == ln)
                <==> has_line(*cm, ls, f as int, ln) by {
                if exists|j: int| 0 <= j < out@[fi as int].lines@.len() && out@[fi as int].lines@[j].line_number == ln {
                    let j = choose|j: int| 0 <= j < out@[fi as int].lines@.len() && out@[fi as int].lines@[j].line_number == ln;
                    assert(numbers@.contains(numbers@[j]));
                }
                if has_line(*cm, ls, f as int, ln) {
                    let j = choose|j: int| 0 <= j < ls.len() && start_loc(*cm, ls[j]).file == f && start_loc(*cm, ls[j]).line == ln;
                    let lnu = start_loc(*cm, ls[j]).line;
                    assert(numbers@.contains(lnu));
                    let q = choose|q: int| 0 <= q < numbers@.len() && numbers@[q] == lnu;
                    assert(out@[fi as int].lines@[q].line_number == ln);
                }
            }
            assert forall|j: int, a: int| 0 <= j < out@[fi as int].lines@.len() && 0 <= a < out@[fi as int].lines@[j].annotations@.len()
                implies good_annotation(#[trigger] out@[fi as int].lines@[j].annotations@[a], ls) by {
                lemma_anns_on(*cm, ls, f as int, out@[fi as int].lines@[j].line_number as int, n as int);
            }
            assert forall|j: int| 0 <= j < out@[fi as int].lines@.len() implies
                1 <= (#[trigger] out@[fi as int].lines@[j]).annotations@.len() <= ls.len() by {
                let ln = out@[fi as int].lines@[j].line_number;
                lemma_anns_on(*cm, ls, f as int, ln as int, n as int);
                lemma_labels_on(*cm, ls, f as int, ln as int, n as int);
                assert(numbers@.contains(numbers@[j]));
                let k = choose|k: int| 0 <= k < n && start_loc(*cm, ls[k]).file == f && start_loc(*cm, ls[k]).line == numbers@[j];
                assert(labels_on(*cm, ls, f as int, ln as int, n as int).contains(k));
            }
            assert(group_view(out@[fi as int]).1 =~= grouped(*cm, ls)[fi as int].1);
            assert(group_view(out@[fi as int]) == grouped(*cm, ls)[fi as int]);
        }
        fi = fi + 1;
    }
    assert(out@.map_values(|f: FileWithAnnotatedLines| group_view(f)) =~= grouped(*cm, ls));
    out
}

} // verus!
