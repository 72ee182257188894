//! Source files and positions: maps a character position to a file, a line
//! and a column, and hands out the text of a line.
use vstd::prelude::*;
use crate::text::chars_of;

verus! {

/// The largest size, in characters, of a code map, a label, a note or a
/// message, and the most labels or notes a diagnostic can carry.
pub const LIMIT: usize = 0x1000_0000;

/// A half-open range `[lo, hi)` of character positions in a code map.
#[derive(Copy, Clone, Debug, PartialEq, Eq, Structural)]
pub struct Span {
    pub lo: usize,
    pub hi: usize,
}

/// A resolved position: file index, line (from 1) and column (from 0).
#[derive(Copy, Clone, Debug, PartialEq, Eq, Structural)]
pub struct Loc {
    pub file: usize,
    pub line: usize,
    pub col: usize,
}

/// One source file, split into lines.
pub struct FileMap {
    pub name: String,
    pub start_pos: usize,
    lines: Vec<Vec<char>>,
    line_starts: Vec<usize>,
}

/// The files of a program, laid out one after another in a single position space.
pub struct CodeMap {
    files: Vec<FileMap>,
    end_pos: usize,
}

/// The lines of `s`, split at each newline (which belongs to no line).
pub open spec fn split_lines(s: Seq<char>) -> Seq<Seq<char>>
    decreases s.len(),
{
    if s.len() == 0 {
        seq![Seq::empty()]
    } else {
        let r = split_lines(s.drop_last());
        if s.last() == '\n' {
            r.push(Seq::empty())
        } else {
            r.update(r.len() - 1, r.last().push(s.last()))
        }
    }
}

/// The positions at which the lines of `s` start, when `s` starts at `base`.
pub open spec fn line_starts_of(s: Seq<char>, base: int) -> Seq<int>
    decreases s.len(),
{
    if s.len() == 0 {
        seq![base]
    } else {
        let r = line_starts_of(s.drop_last(), base);
        if s.last() == '\n' {
            r.push(base + s.len())
        } else {
            r
        }
    }
}

proof fn lemma_split_lines(s: Seq<char>, base: int)
    ensures
        split_lines(s).len() == line_starts_of(s, base).len(),
        split_lines(s).len() >= 1,
        line_starts_of(s, base)[0] == base,
        forall|i: int, j: int|
            0 <= i < j < line_starts_of(s, base).len() ==> line_starts_of(s, base)[i] < line_starts_of(s, base)[j],
        forall|i: int| 0 <= i < line_starts_of(s, base).len() ==> line_starts_of(s, base)[i] <= base + s.len(),
    decreases s.len(),
{
    if s.len() > 0 {
        lemma_split_lines(s.drop_last(), base);
    }
}

/// The index of the last element of the ascending `s` that is at most `pos`
/// (-1 where there is none).
pub open spec fn last_at_most(s: Seq<int>, pos: int) -> int
    decreases s.len(),
{
    if s.len() == 0 {
        -1
    } else if s.last() <= pos {
        s.len() - 1
    } else {
        last_at_most(s.drop_last(), pos)
    }
}

proof fn lemma_last_at_most(s: Seq<int>, pos: int)
    ensures
        -1 <= last_at_most(s, pos) < s.len(),
        s.len() > 0 && s[0] <= pos ==> last_at_most(s, pos) >= 0,
        last_at_most(s, pos) >= 0 ==> s[last_at_most(s, pos)] <= pos,
    decreases s.len(),
{
    if s.len() > 0 {
        lemma_last_at_most(s.drop_last(), pos);
    }
}

/// The position `pos` in file `file` whose lines start at `starts`: the last
/// line that starts at or before it (counting from 1), and the distance from
/// that line's start.
pub open spec fn loc_in(starts: Seq<int>, file: int, pos: int) -> Loc {
    let l = last_at_most(starts, pos);
    Loc { file: file as usize, line: (l + 1) as usize, col: (pos - starts[l]) as usize }
}

/// Finds the last element of the ascending `s` that is at most `pos`.
fn find_last_at_most(s: &Vec<usize>, pos: usize) -> (r: usize)
    requires
        s@.len() > 0,
        s@[0] <= pos,
    ensures
        r as int == last_at_most(s@.map_values(|x: usize| x as int), pos as int),
        r < s@.len(),
        s@[r as int] <= pos,
{
    let ghost t = s@.map_values(|x: usize| x as int);
    let mut i = s.len();
    assert(t.take(i as int) =~= t);
    while i > 1 && s[i - 1] > pos
        invariant
            1 <= i <= s@.len(),
            t == s@.map_values(|x: usize| x as int),
            last_at_most(t, pos as int) == last_at_most(t.take(i as int), pos as int),
        decreases i,
    {
        assert(t.take(i as int).drop_last() =~= t.take(i - 1));
        i = i - 1;
    }
    proof {
        let u = t.take(i as int);
        if i == 1 {
            assert(u.drop_last() =~= Seq::<int>::empty());
        }
        assert(u.last() == s@[i - 1] as int);
    }
    i - 1
}

impl FileMap {
    pub closed spec fn wf(&self) -> bool {
        &&& self.lines@.len() == self.line_starts@.len()
        &&& self.line_starts@.len() >= 1
        &&& self.line_starts@[0] == self.start_pos
        &&& forall|i: int, j: int|
            0 <= i < j < self.line_starts@.len() ==> self.line_starts@[i] < self.line_starts@[j]
        &&& forall|i: int| 0 <= i < self.lines@.len() ==> #[trigger] self.lines@[i]@.len() <= LIMIT
    }

    /// The start positions of the lines, as integers.
    pub closed spec fn starts(&self) -> Seq<int> {
        self.line_starts@.map_values(|x: usize| x as int)
    }

    /// The text of line `idx` (from 0), where there is one.
    pub closed spec fn line_text(&self, idx: int) -> Option<Seq<char>> {
        if 0 <= idx < self.lines@.len() {
            Some(self.lines@[idx]@)
        } else {
            None
        }
    }

    /// The text of line `idx` (counting from 0), where there is one.
    pub fn get_line(&self, idx: usize) -> (r: Option<&Vec<char>>)
        requires
            self.wf(),
        ensures
            self.line_text(idx as int) is None <==> r is None,
            r is Some ==> Some(r->0@) == self.line_text(idx as int),
            r is Some ==> r->0@.len() <= LIMIT,
    {
        if idx < self.lines.len() {
            Some(&self.lines[idx])
        } else {
            None
        }
    }
}

impl CodeMap {
    pub closed spec fn wf(&self) -> bool {
        &&& self.end_pos <= LIMIT
        &&& forall|i: int| 0 <= i < self.files@.len() ==> (#[trigger] self.files@[i]).wf()
        &&& forall|i: int| 0 <= i < self.files@.len() ==> (#[trigger] self.files@[i]).name@.len() <= LIMIT
        &&& forall|i: int, j: int|
            0 <= i < j < self.files@.len() ==> self.files@[i].start_pos < self.files@[j].start_pos
        &&& self.files@.len() > 0 ==> self.files@[0].start_pos == 0
        &&& self.files@.len() == 0 ==> self.end_pos == 0
        &&& forall|i: int| 0 <= i < self.files@.len() ==> (#[trigger] self.files@[i]).start_pos < self.end_pos
    }

    /// The number of files.
    pub closed spec fn num_files(&self) -> nat {
        self.files@.len()
    }

    /// The position just past the last file.
    pub closed spec fn end(&self) -> nat {
        self.end_pos as nat
    }

    /// The name of file `f`.
    pub closed spec fn name_of(&self, f: int) -> Seq<char> {
        self.files@[f].name@
    }

    /// The text of line `idx` (from 0) of file `f`, where there is one.
    pub closed spec fn line_of_file(&self, f: int, idx: int) -> Option<Seq<char>> {
        self.files@[f].line_text(idx)
    }

    /// The position of `pos`: the last file that starts at or before it, the
    /// last line of that file that starts at or before it, and the distance
    /// from that line's start.
    pub closed spec fn lookup(&self, pos: int) -> Loc {
        let f = last_at_most(self.files@.map_values(|m: FileMap| m.start_pos as int), pos);
        loc_in(self.files@[f].starts(), f, pos)
    }

    pub fn new() -> (r: CodeMap)
        ensures
            r.wf(),
            r.num_files() == 0,
            r.end() == 0,
    {
        CodeMap { files: Vec::new(), end_pos: 0 }
    }

    /// Adds a file named `name` holding `src`, placed after the files already
    /// there, and returns the position at which it starts.
    pub fn new_filemap_and_lines(&mut self, name: &str, src: &str) -> (r: usize)
        requires
            old(self).wf(),
            old(self).end() + src@.len() + 1 <= LIMIT,
            name@.len() <= LIMIT,
        ensures
            final(self).wf(),
            final(self).num_files() == old(self).num_files() + 1,
            final(self).end() == old(self).end() + src@.len() + 1,
            r == old(self).end(),
            final(self).name_of(old(self).num_files() as int) == name@,
            forall|f: int| 0 <= f < old(self).num_files() ==> final(self).name_of(f) == old(self).name_of(f),
            forall|f: int, i: int| 0 <= f < old(self).num_files() ==> final(self).line_of_file(f, i) == old(self).line_of_file(f, i),
            forall|i: int| #![auto] final(self).line_of_file(old(self).num_files() as int, i) == (if 0 <= i < split_lines(src@).len() {
                Some(split_lines(src@)[i])
            } else {
                None
            }),
            forall|p: int| 0 <= p < r ==> #[trigger] final(self).lookup(p) == old(self).lookup(p),
            forall|p: int| r <= p ==> #[trigger] final(self).lookup(p) == loc_in(
                line_starts_of(src@, r as int), old(self).num_files() as int, p),
    {
        let base = self.end_pos;
        let s = chars_of(src);
        let mut lines: Vec<Vec<char>> = Vec::new();
        let mut starts: Vec<usize> = Vec::new();
        let mut current: Vec<char> = Vec::new();
        starts.push(base);
        let mut i: usize = 0;
        while i < s.len()
            invariant
                i <= s@.len(),
                s@ == src@,
                base + s@.len() + 1 <= LIMIT,
                lines@.len() + 1 == starts@.len(),
                forall|k: int| 0 <= k < lines@.len() ==> #[trigger] lines@[k]@ == split_lines(s@.take(i as int))[k],
                current@ == split_lines(s@.take(i as int)).last(),
                split_lines(s@.take(i as int)).len() == lines@.len() + 1,
                starts@.map_values(|x: usize| x as int) == line_starts_of(s@.take(i as int), base as int),
                current@.len() <= i,
            decreases s@.len() - i,
        {
            let c = s[i];
            let ghost t = s@.take(i + 1);
            assert(t.drop_last() =~= s@.take(i as int));
            if c == '\n' {
                lines.push(current);
                current = Vec::new();
                starts.push(base + i + 1);
            } else {
                current.push(c);
            }
            i = i + 1;
            assert(starts@.map_values(|x: usize| x as int) =~= line_starts_of(s@.take(i as int), base as int));
        }
        lines.push(current);
        assert(s@.take(i as int) =~= s@);
        proof {
            lemma_split_lines(s@, base as int);
            assert(lines@.len() == split_lines(s@).len());
        }
        let ghost old_files = self.files@;
        let file = FileMap { name: String::from_str(name), start_pos: base, lines, line_starts: starts };
        proof {
            assert forall|k: int| 0 <= k < file.line_starts@.len() implies file.line_starts@[k] as int
                == line_starts_of(s@, base as int)[k] by {
                assert(file.line_starts@.map_values(|x: usize| x as int)[k] == file.line_starts@[k] as int);
            }
            assert forall|k: int| 0 <= k < file.lines@.len() implies #[trigger] file.lines@[k]@.len() <= LIMIT by {
                lemma_line_len(s@, k);
            }
        }
        assert(file.wf());
        assert(file.starts() =~= line_starts_of(src@, base as int));
        self.files.push(file);
        self.end_pos = base + s.len() + 1;
        assert(forall|k: int| 0 <= k < old_files.len() ==> self.files@[k] == old_files[k]);
        proof {
            let fs_old = old_files.map_values(|m: FileMap| m.start_pos as int);
            let fs_new = self.files@.map_values(|m: FileMap| m.start_pos as int);
            assert(fs_new.drop_last() =~= fs_old);
            assert(fs_new.last() == base as int);
            assert forall|p: int| 0 <= p < base implies #[trigger] self.lookup(p) == old(self).lookup(p) by {
                let f = last_at_most(fs_old, p);
                assert(last_at_most(fs_new, p) == f);
                lemma_last_at_most(fs_old, p);
                if old_files.len() > 0 {
                    assert(fs_old[0] == 0);
                }
            }
            assert forall|p: int| base <= p implies #[trigger] self.lookup(p) == loc_in(
                line_starts_of(src@, base as int), old_files.len() as int, p) by {
                assert(last_at_most(fs_new, p) == old_files.len());
            }
        }
        base
    }

    /// The position just past the last file.
    pub fn end_pos(&self) -> (r: usize)
        ensures
            r == self.end(),
    {
        self.end_pos
    }

    /// The name of file `f`.
    pub fn file_name(&self, f: usize) -> (r: &String)
        requires
            self.wf(),
            f < self.num_files(),
        ensures
            r@ == self.name_of(f as int),
            r@.len() <= LIMIT,
    {
        &self.files[f].name
    }

    /// The text of line `idx` (from 0) of file `f`, where there is one.
    pub fn get_line(&self, f: usize, idx: usize) -> (r: Option<&Vec<char>>)
        requires
            self.wf(),
            f < self.num_files(),
        ensures
            self.line_of_file(f as int, idx as int) is None <==> r is None,
            r is Some ==> Some(r->0@) == self.line_of_file(f as int, idx as int),
            r is Some ==> r->0@.len() <= LIMIT,
    {
        self.files[f].get_line(idx)
    }

    /// Resolves `pos` to a file, a line and a column.
    pub fn lookup_char_pos(&self, pos: usize) -> (r: Loc)
        requires
            self.wf(),
            self.num_files() > 0,
            pos <= self.end(),
        ensures
            r == self.lookup(pos as int),
            r.file < self.num_files(),
            1 <= r.line <= LIMIT + 1,
            r.col <= pos,
            r.col <= LIMIT,
    {
        proof {
            lemma_lookup_bounds(*self, pos as int);
        }
        let mut file_starts: Vec<usize> = Vec::new();
        let mut i: usize = 0;
        while i < self.files.len()
            invariant
                i <= self.files@.len(),
                file_starts@ == self.files@.take(i as int).map_values(|m: FileMap| m.start_pos),
            decreases self.files@.len() - i,
        {
            file_starts.push(self.files[i].start_pos);
            i = i + 1;
            assert(file_starts@ =~= self.files@.take(i as int).map_values(|m: FileMap| m.start_pos));
        }
        assert(self.files@.take(i as int) =~= self.files@);
        assert(file_starts@.map_values(|x: usize| x as int) =~= self.files@.map_values(|m: FileMap| m.start_pos as int));
        let f = find_last_at_most(&file_starts, pos);
        let file = &self.files[f];
        assert(file.wf());
        let l = find_last_at_most(&file.line_starts, pos);
        assert(l < LIMIT + 1) by {
            lemma_starts_bound(file.line_starts@, l as int);
        }
        Loc { file: f, line: l + 1, col: pos - file.line_starts[l] }
    }
}

/// Two positions that resolve to one line of one file are as far apart in
/// columns as in positions.
pub proof fn lemma_lookup_same_line(cm: CodeMap, a: int, b: int)
    requires
        cm.wf(),
        cm.num_files() > 0,
        0 <= a <= b <= cm.end(),
        cm.lookup(a).file == cm.lookup(b).file,
        cm.lookup(a).line == cm.lookup(b).line,
    ensures
        cm.lookup(b).col - cm.lookup(a).col == b - a,
{
    let fs = cm.files@.map_values(|m: FileMap| m.start_pos as int);
    assert(fs[0] == 0);
    lemma_last_at_most(fs, a);
    lemma_last_at_most(fs, b);
    let f = last_at_most(fs, a);
    assert(cm.files@[f].wf());
    let starts = cm.files@[f].starts();
    assert(starts[0] == fs[f]);
    lemma_last_at_most(starts, a);
    lemma_last_at_most(starts, b);
    let fb = last_at_most(fs, b);
    lemma_increasing_bound(fs, f);
    lemma_increasing_bound(fs, fb);
    assert(f == fb);
    let la = last_at_most(starts, a);
    let lb = last_at_most(starts, b);
    lemma_increasing_bound(starts, la);
    lemma_increasing_bound(starts, lb);
    assert(la == lb);
    assert(starts[la] <= a);
}

/// Where a position in the code map resolves to.
pub proof fn lemma_lookup_bounds(cm: CodeMap, pos: int)
    requires
        cm.wf(),
        cm.num_files() > 0,
        0 <= pos <= cm.end(),
    ensures
        cm.lookup(pos).file < cm.num_files(),
        1 <= cm.lookup(pos).line <= LIMIT + 1,
        cm.lookup(pos).col <= pos,
        cm.end() <= LIMIT,
{
    let fs = cm.files@.map_values(|m: FileMap| m.start_pos as int);
    assert(fs[0] == 0);
    lemma_last_at_most(fs, pos);
    let f = last_at_most(fs, pos);
    assert(cm.files@[f].wf());
    let starts = cm.files@[f].starts();
    assert(starts[0] == fs[f]);
    lemma_last_at_most(starts, pos);
    let l = last_at_most(starts, pos);
    lemma_increasing_bound(starts, l);
}

proof fn lemma_increasing_bound(s: Seq<int>, l: int)
    requires
        0 <= l < s.len(),
        s[0] >= 0,
        forall|i: int, j: int| 0 <= i < j < s.len() ==> s[i] < s[j],
    ensures
        l <= s[l],
    decreases l,
{
    if l > 0 {
        lemma_increasing_bound(s, l - 1);
    }
}

proof fn lemma_line_len(s: Seq<char>, k: int)
    requires
        0 <= k < split_lines(s).len(),
    ensures
        split_lines(s)[k].len() <= s.len(),
    decreases s.len(),
{
    if s.len() > 0 {
        let r = split_lines(s.drop_last());
        lemma_split_lines(s.drop_last(), 0);
        if k < r.len() {
            lemma_line_len(s.drop_last(), k);
        }
        if s.last() != '\n' && k == r.len() - 1 {
            assert(split_lines(s)[k] == r[k].push(s.last()));
        }
    }
}

proof fn lemma_starts_bound(s: Seq<usize>, l: int)
    requires
        0 <= l < s.len(),
        forall|i: int, j: int| 0 <= i < j < s.len() ==> s[i] < s[j],
    ensures
        l <= s[l],
    decreases l,
{
    if l > 0 {
        lemma_starts_bound(s, l - 1);
    }
}

} // verus!
