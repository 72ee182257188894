//! Mathematical model of a two-dimensional canvas of styled characters.
//!
//! A canvas is a sequence of rows; a row is a sequence of (character, style)
//! cells. The functions here say what each canvas operation does to that
//! model, for any style type `S`; `blank` is the style given to padding.
use vstd::prelude::*;

verus! {

/// The padding character for column `i`: a tab where the first row holds a
/// tab in that column, a space otherwise.
pub open spec fn pad_char<S>(g: Seq<Seq<(char, S)>>, i: int) -> char {
    if g.len() > 0 && 0 <= i < g[0].len() && g[0][i].0 == '\t' {
        '\t'
    } else {
        ' '
    }
}

/// The canvas with empty rows appended until row `line` exists.
pub open spec fn with_lines<S>(g: Seq<Seq<(char, S)>>, line: int) -> Seq<Seq<(char, S)>> {
    if line < g.len() {
        g
    } else {
        g + Seq::new((line + 1 - g.len()) as nat, |k: int| Seq::<(char, S)>::empty())
    }
}

pub proof fn lemma_with_lines<S>(g: Seq<Seq<(char, S)>>, line: int)
    requires
        0 <= line,
    ensures
        with_lines(g, line).len() == if line < g.len() { g.len() as int } else { line + 1 },
        forall|k: int| 0 <= k < g.len() ==> #[trigger] with_lines(g, line)[k] == g[k],
        forall|k: int| g.len() <= k < with_lines(g, line).len() ==> #[trigger] with_lines(g, line)[k] == Seq::<(char, S)>::empty(),
{
}

/// The row `row` padded up to column `col` (exclusive), reading tab columns of `g`.
pub open spec fn padded_row<S>(g: Seq<Seq<(char, S)>>, row: Seq<(char, S)>, col: int, blank: S) -> Seq<(char, S)> {
    row + Seq::new((col - row.len()) as nat, |k: int| (pad_char(g, row.len() + k), blank))
}

/// Writing one cell at (`line`, `col`), growing the canvas as needed.
pub open spec fn put_char<S>(g: Seq<Seq<(char, S)>>, line: int, col: int, c: char, s: S, blank: S) -> Seq<Seq<(char, S)>> {
    let h = with_lines(g, line);
    let row = h[line];
    if col < row.len() {
        h.update(line, row.update(col, (c, s)))
    } else {
        h.update(line, padded_row(h, row, col, blank).push((c, s)))
    }
}

/// Writing the characters of `t` from column `col` onwards, one column each.
pub open spec fn put_str<S>(g: Seq<Seq<(char, S)>>, line: int, col: int, t: Seq<char>, s: S, blank: S) -> Seq<Seq<(char, S)>>
    decreases t.len(),
{
    if t.len() == 0 {
        g
    } else {
        put_char(put_str(g, line, col, t.drop_last(), s, blank), line, col + t.len() - 1, t.last(), s, blank)
    }
}

/// Changing the style of an existing cell; nothing happens where there is no cell.
pub open spec fn set_style<S>(g: Seq<Seq<(char, S)>>, line: int, col: int, s: S) -> Seq<Seq<(char, S)>> {
    if 0 <= line < g.len() && 0 <= col < g[line].len() {
        g.update(line, g[line].update(col, (g[line][col].0, s)))
    } else {
        g
    }
}

/// Writing `t` at the start of row `line`, shifting what was there to the right.
pub open spec fn prepend<S>(g: Seq<Seq<(char, S)>>, line: int, t: Seq<char>, s: S, blank: S) -> Seq<Seq<(char, S)>> {
    let h = with_lines(g, line);
    let shifted = h.update(line, Seq::new(t.len(), |k: int| (' ', blank)) + h[line]);
    put_str(shifted, line, 0, t, s, blank)
}

/// Writing `t` right after the last cell of row `line`.
pub open spec fn append<S>(g: Seq<Seq<(char, S)>>, line: int, t: Seq<char>, s: S, blank: S) -> Seq<Seq<(char, S)>> {
    if line >= g.len() {
        put_str(g, line, 0, t, s, blank)
    } else {
        put_str(g, line, g[line].len() as int, t, s, blank)
    }
}

/// The length of row `line`, zero where there is no such row.
pub open spec fn row_len<S>(g: Seq<Seq<(char, S)>>, line: int) -> int {
    if 0 <= line < g.len() { g[line].len() as int } else { 0 }
}

/// Every row has at most `w` cells.
pub open spec fn rows_within<S>(g: Seq<Seq<(char, S)>>, w: int) -> bool {
    forall|k: int| 0 <= k < g.len() ==> #[trigger] g[k].len() <= w
}

/// `h` is `g` where only row `line` may have changed, and rows may have been added.
pub open spec fn same_except<S>(g: Seq<Seq<(char, S)>>, h: Seq<Seq<(char, S)>>, line: int) -> bool {
    &&& g.len() <= h.len()
    &&& forall|k: int| 0 <= k < g.len() && k != line ==> #[trigger] h[k] == g[k]
    &&& forall|k: int| g.len() <= k < h.len() && k != line ==> #[trigger] h[k].len() == 0
}

pub proof fn lemma_put_char<S>(g: Seq<Seq<(char, S)>>, line: int, col: int, c: char, s: S, blank: S)
    requires
        0 <= line,
        0 <= col,
    ensures
        ({
            let h = put_char(g, line, col, c, s, blank);
            &&& h.len() == if line < g.len() { g.len() as int } else { line + 1 }
            &&& same_except(g, h, line)
            &&& h[line].len() == if col < row_len(g, line) { row_len(g, line) } else { col + 1 }
            &&& h[line][col] == (c, s)
        }),
{
    lemma_with_lines(g, line);
}

pub proof fn lemma_put_str<S>(g: Seq<Seq<(char, S)>>, line: int, col: int, t: Seq<char>, s: S, blank: S)
    requires
        0 <= line,
        0 <= col,
    ensures
        ({
            let h = put_str(g, line, col, t, s, blank);
            &&& h.len() == if line < g.len() || t.len() == 0 { g.len() as int } else { line + 1 }
            &&& same_except(g, h, line)
            &&& row_len(h, line) == if t.len() == 0 || col + t.len() <= row_len(g, line) {
                row_len(g, line)
            } else {
                col + t.len()
            }
        }),
    decreases t.len(),
{
    if t.len() > 0 {
        lemma_put_str(g, line, col, t.drop_last(), s, blank);
        let h0 = put_str(g, line, col, t.drop_last(), s, blank);
        lemma_put_char(h0, line, col + t.len() - 1, t.last(), s, blank);
    }
}

pub proof fn lemma_set_style<S>(g: Seq<Seq<(char, S)>>, line: int, col: int, s: S)
    ensures
        set_style(g, line, col, s).len() == g.len(),
        same_except(g, set_style(g, line, col, s), line),
        row_len(set_style(g, line, col, s), line) == row_len(g, line),
{
}

pub proof fn lemma_prepend<S>(g: Seq<Seq<(char, S)>>, line: int, t: Seq<char>, s: S, blank: S)
    requires
        0 <= line,
    ensures
        ({
            let h = prepend(g, line, t, s, blank);
            &&& h.len() == if line < g.len() { g.len() as int } else { line + 1 }
            &&& same_except(g, h, line)
            &&& row_len(h, line) == row_len(g, line) + t.len()
        }),
{
    lemma_with_lines(g, line);
    let w = with_lines(g, line);
    let shifted = w.update(line, Seq::new(t.len(), |k: int| (' ', blank)) + w[line]);
    lemma_put_str(shifted, line, 0, t, s, blank);
}

pub proof fn lemma_append<S>(g: Seq<Seq<(char, S)>>, line: int, t: Seq<char>, s: S, blank: S)
    requires
        0 <= line,
    ensures
        ({
            let h = append(g, line, t, s, blank);
            &&& h.len() == if line < g.len() || t.len() == 0 { g.len() as int } else { line + 1 }
            &&& same_except(g, h, line)
            &&& row_len(h, line) == row_len(g, line) + t.len()
        }),
{
    if line >= g.len() {
        lemma_put_str(g, line, 0, t, s, blank);
    } else {
        lemma_put_str(g, line, g[line].len() as int, t, s, blank);
    }
}

pub proof fn lemma_rows_within_put_str<S>(g: Seq<Seq<(char, S)>>, line: int, col: int, t: Seq<char>, s: S, blank: S, w: int)
    requires
        0 <= line,
        0 <= col,
        rows_within(g, w),
        col + t.len() <= w,
    ensures
        rows_within(put_str(g, line, col, t, s, blank), w),
{
    lemma_put_str(g, line, col, t, s, blank);
    let h = put_str(g, line, col, t, s, blank);
    assert forall|k: int| 0 <= k < h.len() implies #[trigger] h[k].len() <= w by {
        if k == line {
            assert(row_len(h, line) == h[k].len());
        } else if k < g.len() {
            assert(h[k] == g[k]);
        }
    }
}

pub proof fn lemma_rows_within_edit<S>(g: Seq<Seq<(char, S)>>, h: Seq<Seq<(char, S)>>, line: int, w: int)
    requires
        rows_within(g, w),
        same_except(g, h, line),
        row_len(h, line) <= w,
        h.len() <= line + 1 || h.len() == g.len(),
    ensures
        rows_within(h, w),
{
    assert forall|k: int| 0 <= k < h.len() implies #[trigger] h[k].len() <= w by {
        if k == line {
            assert(row_len(h, line) == h[k].len());
        } else if k < g.len() {
            assert(h[k] == g[k]);
        }
    }
}

/// The maximal runs of equal style in a row, in column order, each with its text.
pub open spec fn runs<S>(row: Seq<(char, S)>) -> Seq<(Seq<char>, S)>
    decreases row.len(),
{
    if row.len() == 0 {
        Seq::empty()
    } else {
        let r = runs(row.drop_last());
        let c = row.last();
        if r.len() > 0 && r.last().1 == c.1 {
            r.update(r.len() - 1, (r.last().0.push(c.0), c.1))
        } else {
            r.push((seq![c.0], c.1))
        }
    }
}

/// Every row compacted into its runs.
pub open spec fn compact<S>(g: Seq<Seq<(char, S)>>) -> Seq<Seq<(Seq<char>, S)>> {
    Seq::new(g.len(), |i: int| runs(g[i]))
}

} // verus!
