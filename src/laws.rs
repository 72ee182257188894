//! Properties of the rendering as a whole.
use vstd::prelude::*;
use crate::annotations::{Annotation, annotation_of, grouped};
use crate::codemap::CodeMap;
use crate::compiler_message::{CompilerMessage, SpanLabel};
use crate::grid;
use crate::layout::{first_index, lemma_first_index_range, max_line, moved_first};
use crate::render_succinct::{RenderMode, gap_rows, line_layout, lines_block, mark_cols, marker, marker_style, ordered_groups, succinct_layout};
use crate::styled_buffer::Style;

verus! {

/// Rendering the same message twice gives identical styled rows: what
/// `render_succinct_in` returns is determined by the message and the mode alone.
pub proof fn law_rendering_is_repeatable(
    msg: CompilerMessage,
    mode: RenderMode,
    first: Seq<Seq<(Seq<char>, Style)>>,
    second: Seq<Seq<(Seq<char>, Style)>>,
)
    requires
        first == grid::compact(succinct_layout(msg, mode)),
        second == grid::compact(succinct_layout(msg, mode)),
    ensures
        first == second,
{
}

/// The gutter width, which every file of a diagnostic uses, comes from the
/// largest line on which any label ends, whatever its file: no label ends
/// on a later line, and one ends on that line.
pub proof fn law_gutter_line(cm: CodeMap, labels: Seq<SpanLabel>, n: int)
    requires
        0 <= n <= labels.len(),
    ensures
        forall|k: int| 0 <= k < n ==> cm.lookup(#[trigger] labels[k].span.hi as int).line <= max_line(cm, labels, n),
        n > 0 ==> exists|k: int| 0 <= k < n && cm.lookup(#[trigger] labels[k].span.hi as int).line == max_line(cm, labels, n),
    decreases n,
{
    if n > 0 {
        law_gutter_line(cm, labels, n - 1);
        if n > 1 && max_line(cm, labels, n) == max_line(cm, labels, n - 1) {
            let k = choose|k: int| 0 <= k < n - 1 && cm.lookup(#[trigger] labels[k].span.hi as int).line == max_line(cm, labels, n - 1);
            assert(0 <= k < n && cm.lookup(labels[k].span.hi as int).line == max_line(cm, labels, n));
        } else {
            assert(cm.lookup(labels[n - 1].span.hi as int).line == max_line(cm, labels, n));
        }
    }
}

/// Writing characters right after the end of a row appends exactly those
/// characters, in the given style.
proof fn lemma_write_at_end(g: Seq<Seq<(char, Style)>>, r: int, t: Seq<char>, s: Style)
    requires
        0 <= r < g.len(),
    ensures
        grid::put_str(g, r, g[r].len() as int, t, s, Style::NoStyle).len() == g.len(),
        grid::put_str(g, r, g[r].len() as int, t, s, Style::NoStyle)[r] == g[r] + t.map_values(|c: char| (c, s)),
    decreases t.len(),
{
    let col = g[r].len() as int;
    grid::lemma_put_str(g, r, col, t, s, Style::NoStyle);
    if t.len() == 0 {
        assert(g[r] + t.map_values(|c: char| (c, s)) =~= g[r]);
    } else {
        lemma_write_at_end(g, r, t.drop_last(), s);
        let h = grid::put_str(g, r, col, t.drop_last(), s, Style::NoStyle);
        grid::lemma_with_lines(h, r);
        assert(grid::put_str(g, r, col, t, s, Style::NoStyle)[r] =~= g[r] + t.map_values(|c: char| (c, s)));
    }
}

/// After writing `t` from column `col` of row `line`, those columns hold
/// `t`; the other columns the row had keep their cells.
proof fn lemma_put_str_cells(g: Seq<Seq<(char, Style)>>, line: int, col: int, t: Seq<char>, s: Style)
    requires
        0 <= line,
        0 <= col,
    ensures
        ({
            let h = grid::put_str(g, line, col, t, s, Style::NoStyle);
            &&& forall|i: int| 0 <= i < t.len() ==> h[line][col + i] == (#[trigger] t[i], s)
            &&& forall|j: int| 0 <= j < grid::row_len(g, line) && !(col <= j < col + t.len())
                ==> h[line][j] == #[trigger] g[line][j]
        }),
    decreases t.len(),
{
    grid::lemma_put_str(g, line, col, t, s, Style::NoStyle);
    if t.len() > 0 {
        let t0 = t.drop_last();
        lemma_put_str_cells(g, line, col, t0, s);
        let h0 = grid::put_str(g, line, col, t0, s, Style::NoStyle);
        grid::lemma_put_str(g, line, col, t0, s, Style::NoStyle);
        grid::lemma_put_char(h0, line, col + t.len() - 1, t.last(), s, Style::NoStyle);
        grid::lemma_with_lines(h0, line);
        let h = grid::put_str(g, line, col, t, s, Style::NoStyle);
        assert forall|i: int| 0 <= i < t.len() implies h[line][col + i] == (#[trigger] t[i], s) by {
            if i < t.len() - 1 {
                assert(t0[i] == t[i]);
                assert(h0[line][col + i] == (t0[i], s));
            }
        }
        assert forall|j: int| 0 <= j < grid::row_len(g, line) && !(col <= j < col + t.len())
            implies h[line][j] == #[trigger] g[line][j] by {
            assert(h0[line][j] == g[line][j]);
        }
    }
}

/// Every quoted source row of a snippet whose source starts at column `w`
/// carries the line number from column 0, the gutter marker `|>` at
/// `w - 2` and the source text from `w`: with `w` the gutter width plus 3,
/// the same for every file, the gutters of all files line up.
pub proof fn law_source_row_columns(g: Seq<Seq<(char, Style)>>, cm: CodeMap, f: int, ln: int, w: int)
    requires
        1 <= ln <= usize::MAX,
        crate::text::digit_count(ln as nat) <= w - 2,
    ensures
        ({
            let row = crate::render_succinct::source_row(g, cm, f, ln, w)[g.len() as int];
            let t = text_of_line(cm, f, ln - 1);
            let d = crate::text::decimal(ln as nat);
            &&& forall|i: int| 0 <= i < d.len() ==> row[i] == (#[trigger] d[i], Style::LineNumber)
            &&& row[w - 2] == ('|', Style::LineNumber)
            &&& row[w - 1] == ('>', Style::LineNumber)
            &&& forall|i: int| 0 <= i < t.len() ==> row[w + i] == (#[trigger] t[i], Style::Quotation)
        }),
{
    reveal_strlit("|>");
    let lo = g.len() as int;
    let t = text_of_line(cm, f, ln - 1);
    let d = crate::text::decimal(ln as nat);
    crate::text::lemma_decimal_len(ln as nat);
    let g1 = grid::put_str(g, lo, w, t, Style::Quotation, Style::NoStyle);
    let g2 = grid::put_str(g1, lo, 0, d, Style::LineNumber, Style::NoStyle);
    let g3 = grid::put_str(g2, lo, w - 2, "|>"@, Style::LineNumber, Style::NoStyle);
    assert(g3 == crate::render_succinct::source_row(g, cm, f, ln, w));
    grid::lemma_put_str(g, lo, w, t, Style::Quotation, Style::NoStyle);
    grid::lemma_put_str(g1, lo, 0, d, Style::LineNumber, Style::NoStyle);
    grid::lemma_put_str(g2, lo, w - 2, "|>"@, Style::LineNumber, Style::NoStyle);
    lemma_put_str_cells(g, lo, w, t, Style::Quotation);
    lemma_put_str_cells(g1, lo, 0, d, Style::LineNumber);
    lemma_put_str_cells(g2, lo, w - 2, "|>"@, Style::LineNumber);
    assert forall|i: int| 0 <= i < d.len() implies g3[lo][i] == (#[trigger] d[i], Style::LineNumber) by {
        assert(g2[lo][0 + i] == (d[i], Style::LineNumber));
        assert(g3[lo][i] == g2[lo][i]);
    }
    assert(g3[lo][w - 2 + 0] == ("|>"@[0], Style::LineNumber));
    assert(g3[lo][w - 2 + 1] == ("|>"@[1], Style::LineNumber));
    assert forall|i: int| 0 <= i < t.len() implies g3[lo][w + i] == (#[trigger] t[i], Style::Quotation) by {
        assert(g1[lo][w + i] == (t[i], Style::Quotation));
        assert(g2[lo][w + i] == g1[lo][w + i]);
        assert(g3[lo][w + i] == g2[lo][w + i]);
    }
}

/// Writing characters into a new row at column 0 makes the row exactly those
/// characters, in the given style.
proof fn lemma_fresh_row(g: Seq<Seq<(char, Style)>>, t: Seq<char>, s: Style)
    requires
        t.len() > 0,
    ensures
        grid::put_str(g, g.len() as int, 0, t, s, Style::NoStyle).len() == g.len() + 1,
        grid::put_str(g, g.len() as int, 0, t, s, Style::NoStyle)[g.len() as int]
            == t.map_values(|c: char| (c, s)),
    decreases t.len(),
{
    let r = g.len() as int;
    grid::lemma_put_str(g, r, 0, t, s, Style::NoStyle);
    if t.len() == 1 {
        let h = grid::put_str(g, r, 0, t.drop_last(), s, Style::NoStyle);
        assert(h == g);
        grid::lemma_with_lines(g, r);
        assert(grid::put_str(g, r, 0, t, s, Style::NoStyle)[r] =~= t.map_values(|c: char| (c, s)));
    } else {
        lemma_fresh_row(g, t.drop_last(), s);
        let h = grid::put_str(g, r, 0, t.drop_last(), s, Style::NoStyle);
        grid::lemma_with_lines(h, r);
        assert(grid::put_str(g, r, 0, t, s, Style::NoStyle)[r] =~= t.map_values(|c: char| (c, s)));
    }
}

/// The text of line `idx` (from 0) of file `f`, empty where there is none.
pub open spec fn text_of_line(cm: CodeMap, f: int, idx: int) -> Seq<char> {
    match cm.line_of_file(f, idx) {
        Some(t) => t,
        None => Seq::empty(),
    }
}

/// Between annotated lines `cur` and `next` of one file: more than two
/// apart, exactly one row is added and it is the elision marker `...`;
/// exactly two apart, exactly one row is added, and it ends with the text
/// of the line between them, from the source column on; adjacent, nothing
/// is added.
pub proof fn law_gap_elision(g: Seq<Seq<(char, Style)>>, cm: CodeMap, f: int, cur: int, next: int, width: int)
    requires
        0 <= cur < next,
        cur < usize::MAX,
        0 <= width,
        crate::text::digit_count((cur + 1) as nat) <= width + 1,
    ensures
        next - cur > 2 ==> gap_rows(g, cm, f, cur, next, width).len() == g.len() + 1
            && gap_rows(g, cm, f, cur, next, width)[g.len() as int] == "..."@.map_values(|c: char| (c, Style::LineNumber)),
        next - cur == 2 ==> gap_rows(g, cm, f, cur, next, width).len() == g.len() + 1
            && gap_rows(g, cm, f, cur, next, width)[g.len() as int].len() == 3 + width + text_of_line(cm, f, cur).len()
            && gap_rows(g, cm, f, cur, next, width)[g.len() as int].subrange(3 + width, 3 + width + text_of_line(cm, f, cur).len())
                == text_of_line(cm, f, cur).map_values(|c: char| (c, Style::Quotation)),
        next - cur == 1 ==> gap_rows(g, cm, f, cur, next, width) == g,
{
    reveal_strlit("...");
    reveal_strlit("|>");
    let r = g.len() as int;
    if next - cur > 2 {
        lemma_fresh_row(g, "..."@, Style::LineNumber);
    } else if next - cur == 2 {
        let n = (cur + 1) as usize;
        let t = match cm.line_of_file(f, cur) {
            Some(t) => t,
            None => Seq::empty(),
        };
        crate::text::lemma_decimal_len(n as nat);
        grid::lemma_put_str(g, r, 0, crate::text::decimal(n as nat), Style::LineNumber, Style::NoStyle);
        let h = grid::put_str(g, r, 0, crate::text::decimal(n as nat), Style::LineNumber, Style::NoStyle);
        grid::lemma_put_str(h, r, 1 + width, "|>"@, Style::LineNumber, Style::NoStyle);
        let h2 = grid::put_str(h, r, 1 + width, "|>"@, Style::LineNumber, Style::NoStyle);
        grid::lemma_put_str(h2, r, 3 + width, t, Style::Quotation, Style::NoStyle);
        assert(n as nat == (cur + 1) as nat);
        assert(grid::row_len(g, r) == 0);
        assert(grid::row_len(h, r) == crate::text::decimal(n as nat).len());
        assert(grid::row_len(h2, r) == 3 + width);
        assert(h2[r].len() == 3 + width);
        lemma_write_at_end(h2, r, t, Style::Quotation);
        let h3 = grid::put_str(h2, r, 3 + width, t, Style::Quotation, Style::NoStyle);
        assert(h3[r].subrange(3 + width, 3 + width + t.len()) =~= t.map_values(|c: char| (c, Style::Quotation)));
    }
}

/// In a file's snippet, between the rows of annotated line `k` and those of
/// line `k + 1`: more than two lines apart, exactly one row, the elision
/// marker `...`; exactly two apart, exactly one row; adjacent, none.
/// (`line_layout` then adds the rows of line `k + 1` below these.)
pub proof fn law_rows_between_lines(
    g: Seq<Seq<(char, Style)>>,
    cm: CodeMap,
    labels: Seq<SpanLabel>,
    f: int,
    lines: Seq<(usize, Seq<Annotation>)>,
    width: int,
    mode: RenderMode,
    k: int,
)
    requires
        0 <= k,
        k + 1 < lines.len(),
        lines[k].0 < lines[k + 1].0,
        0 <= width,
    ensures
        ({
            let before = line_layout(lines_block(g, cm, labels, f, lines, width, mode, k), cm, labels, f,
                lines[k].0 as int, lines[k].1, 3 + width, mode);
            let after = lines_block(g, cm, labels, f, lines, width, mode, k + 1);
            let delta = lines[k + 1].0 - lines[k].0;
            &&& delta > 2 ==> after.len() == before.len() + 1
                && after[before.len() as int] == "..."@.map_values(|c: char| (c, Style::LineNumber))
            &&& delta == 2 ==> after.len() == before.len() + 1
            &&& delta == 1 ==> after == before
        }),
{
    let before = line_layout(lines_block(g, cm, labels, f, lines, width, mode, k), cm, labels, f,
        lines[k].0 as int, lines[k].1, 3 + width, mode);
    let cur = lines[k].0 as int;
    let next = lines[k + 1].0 as int;
    reveal_strlit("...");
    reveal_strlit("|>");
    let r = before.len() as int;
    if next - cur > 2 {
        lemma_fresh_row(before, "..."@, Style::LineNumber);
    } else if next - cur == 2 {
        let n = (cur + 1) as usize;
        crate::text::lemma_decimal_len(n as nat);
        let t = text_of_line(cm, f, cur);
        grid::lemma_put_str(before, r, 0, crate::text::decimal(n as nat), Style::LineNumber, Style::NoStyle);
        let h = grid::put_str(before, r, 0, crate::text::decimal(n as nat), Style::LineNumber, Style::NoStyle);
        grid::lemma_put_str(h, r, 1 + width, "|>"@, Style::LineNumber, Style::NoStyle);
        let h2 = grid::put_str(h, r, 1 + width, "|>"@, Style::LineNumber, Style::NoStyle);
        grid::lemma_put_str(h2, r, 3 + width, t, Style::Quotation, Style::NoStyle);
    }
}

/// An empty span gives an annotation one column wide, which is not minimized.
pub proof fn law_empty_span_is_widened(cm: CodeMap, l: SpanLabel, k: int)
    requires
        cm.wf(),
        cm.num_files() > 0,
        l.span.lo == l.span.hi <= cm.end(),
    ensures
        annotation_of(cm, l, k).end_col == annotation_of(cm, l, k).start_col + 1,
        !annotation_of(cm, l, k).is_minimized,
{
    crate::codemap::lemma_lookup_bounds(cm, l.span.lo as int);
}

/// Drawing the first column of an annotation puts a caret (primary, or any
/// annotation in the old-school mode) or a dash under its start column.
pub proof fn law_marker_drawn(g: Seq<Seq<(char, Style)>>, lo: int, w: int, a: Annotation, mode: RenderMode)
    requires
        0 <= lo,
        0 <= w,
        a.start_col < a.end_col,
    ensures
        mark_cols(g, lo, w, a, mode, a.start_col + 1)[lo + 1][w + a.start_col]
            == (marker(a, mode, a.start_col as int), marker_style(a, mode)),
        (a.is_primary || mode == RenderMode::OldSchool) ==> marker(a, mode, a.start_col as int) == '^',
{
    let p = a.start_col + 1;
    let c = marker(a, mode, a.start_col as int);
    let st = marker_style(a, mode);
    assert(mark_cols(g, lo, w, a, mode, p - 1) == g);
    grid::lemma_put_char(g, lo + 1, w + a.start_col, c, st, Style::NoStyle);
    let h1 = grid::put_char(g, lo + 1, w + a.start_col, c, st, Style::NoStyle);
    grid::lemma_set_style(h1, lo, w + a.start_col, crate::render_succinct::mark_style(a));
}

/// The file of the primary span comes first among the snippets whenever a
/// label starts in it, whatever the order in which labels were added.
pub proof fn law_primary_file_first(msg: CompilerMessage)
    requires
        exists|i: int| 0 <= i < grouped(*msg.cm, msg.span_labels@).len()
            && (#[trigger] grouped(*msg.cm, msg.span_labels@)[i]).0 == msg.cm.lookup(msg.primary_span.lo as int).file,
    ensures
        ordered_groups(msg)[0].0 == msg.cm.lookup(msg.primary_span.lo as int).file,
{
    let gs = grouped(msg.code_map(), msg.span_labels@);
    let p = msg.code_map().lookup(msg.primary_span.lo as int).file;
    let ids = gs.map_values(|g: (usize, Seq<(usize, Seq<Annotation>)>)| g.0);
    let i = choose|i: int| 0 <= i < gs.len() && (#[trigger] gs[i]).0 == p;
    assert(ids[i] == p);
    assert(ids.contains(p));
    lemma_first_index_range(ids, p);
    let j = first_index(ids, p);
    assert(ids[j] == gs[j].0);
    assert(moved_first(gs, j)[0] == gs[j]);
}

} // verus!
