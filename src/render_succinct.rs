//! Rendering of a whole diagnostic: header, one snippet per file with its
//! annotated lines, and notes.
use vstd::prelude::*;
use crate::annotations::{
    Annotation, FileWithAnnotatedLines, Line, anns_on, good_annotation, group_view, grouped, labels_in, labels_on,
    lemma_labels_on, preprocess_annotations, start_loc, well_grouped,
};
use vstd::set_lib::{lemma_int_range, lemma_len_subset, lemma_set_disjoint_lens, set_int_range};
use crate::codemap::{CodeMap, Loc, LIMIT};
use crate::compiler_message::{CompilerMessage, SpanLabel, small_text};
use crate::grid;
use crate::layout::{
    Gap, first_index, gap_between, gap_of, gutter_width, max_line, moved_first, overlap, overlaps, primary_first,
    sort_annotations, sort_by_key,
};
use crate::styled_buffer::{Level, Style, StyledBuffer, StyledString, level_name, rendered};
use crate::text::{chars_of, decimal, decimal_chars, digit_count};

verus! {

/// The widest row a rendered diagnostic can have.
pub const ROW_WIDTH: usize = 0x3000_0000;

/// A bound on the rows of a canvas before a line is rendered on it.
pub const ROW_COUNT: usize = 0x9000_0000;

/// Every label's text is of acceptable size.
pub open spec fn label_texts_small(labels: Seq<SpanLabel>) -> bool {
    forall|i: int| 0 <= i < labels.len() ==> small_text(#[trigger] labels[i].label)
}

/// The text of label `k`.
fn label_chars(labels: &Vec<SpanLabel>, k: usize) -> (r: Vec<char>)
    requires
        label_texts_small(labels@),
        k < labels@.len(),
    ensures
        r@.len() <= LIMIT,
        labels@[k as int].label is Some ==> r@ == labels@[k as int].label->0@,
{
    assert(small_text(labels@[k as int].label));
    match &labels[k].label {
        Some(t) => chars_of(t.as_str()),
        None => Vec::new(),
    }
}

/// How annotations are drawn.
#[derive(Copy, Clone, Debug, PartialEq, Eq, Structural)]
pub enum RenderMode {
    /// `^^^` under primary spans and `---` under others, with labels.
    Modern,
    /// `^~~~` under every span, without labels.
    OldSchool,
}

/// The style of the markers, connectors and source columns of an annotation.
pub open spec fn mark_style(a: Annotation) -> Style {
    if a.is_primary { Style::UnderlinePrimary } else { Style::UnderlineSecondary }
}

/// The marker under an annotation: `^` for primary, `-` for secondary.
pub open spec fn mark_char(a: Annotation) -> char {
    if a.is_primary { '^' } else { '-' }
}

/// The marker under column `p` of `a`.
pub open spec fn marker(a: Annotation, mode: RenderMode, p: int) -> char {
    match mode {
        RenderMode::Modern => mark_char(a),
        RenderMode::OldSchool => if p == a.start_col { '^' } else { '~' },
    }
}

/// The style of the markers under `a`.
pub open spec fn marker_style(a: Annotation, mode: RenderMode) -> Style {
    match mode {
        RenderMode::Modern => mark_style(a),
        RenderMode::OldSchool => if a.is_primary { Style::UnderlinePrimary } else { Style::OldSchoolNote },
    }
}

/// The style of an annotation's label.
pub open spec fn label_style(a: Annotation) -> Style {
    if a.is_primary { Style::LabelPrimary } else { Style::LabelSecondary }
}

/// The text of the label an annotation refers to.
pub open spec fn label_text(labels: Seq<SpanLabel>, a: Annotation) -> Seq<char> {
    labels[a.label->0 as int].label->0@
}

/// The source row of line `ln` of file `file`, added below `g`: the number
/// at column 0, the gutter marker at `w - 2` and the text at `w`.
pub open spec fn source_row(g: Seq<Seq<(char, Style)>>, cm: CodeMap, file: int, ln: int, w: int) -> Seq<Seq<(char, Style)>> {
    let lo = g.len() as int;
    let src = match cm.line_of_file(file, ln - 1) {
        Some(t) => t,
        None => Seq::empty(),
    };
    let g1 = grid::put_str(g, lo, w, src, Style::Quotation, Style::NoStyle);
    let g2 = grid::put_str(g1, lo, 0, decimal(ln as nat), Style::LineNumber, Style::NoStyle);
    grid::put_str(g2, lo, w - 2, "|>"@, Style::LineNumber, Style::NoStyle)
}

/// Markers for the columns of `a` before `p`, on the row below `lo`; in the
/// modern mode each restyles the source column above it unless `a` was minimized.
pub open spec fn mark_cols(g: Seq<Seq<(char, Style)>>, lo: int, w: int, a: Annotation, mode: RenderMode, p: int) -> Seq<Seq<(char, Style)>>
    decreases p - a.start_col,
{
    if p <= a.start_col {
        g
    } else {
        let h = mark_cols(g, lo, w, a, mode, p - 1);
        let h1 = grid::put_char(h, lo + 1, w + p - 1, marker(a, mode, p - 1), marker_style(a, mode), Style::NoStyle);
        if mode == RenderMode::Modern && !a.is_minimized { grid::set_style(h1, lo, w + p - 1, mark_style(a)) } else { h1 }
    }
}

/// The markers of all `anns`, in order.
pub open spec fn mark_all(g: Seq<Seq<(char, Style)>>, lo: int, w: int, mode: RenderMode, anns: Seq<Annotation>) -> Seq<Seq<(char, Style)>>
    decreases anns.len(),
{
    if anns.len() == 0 {
        g
    } else {
        mark_cols(mark_all(g, lo, w, mode, anns.drop_last()), lo, w, anns.last(), mode, anns.last().end_col as int)
    }
}

/// The annotations that have a label, in order.
pub open spec fn labeled_of(s: Seq<Annotation>) -> Seq<Annotation>
    decreases s.len(),
{
    if s.len() == 0 {
        Seq::empty()
    } else if s.last().label is Some {
        labeled_of(s.drop_last()).push(s.last())
    } else {
        labeled_of(s.drop_last())
    }
}

/// The annotations without a label, in order.
pub open spec fn unlabeled_of(s: Seq<Annotation>) -> Seq<Annotation>
    decreases s.len(),
{
    if s.len() == 0 {
        Seq::empty()
    } else if s.last().label is Some {
        unlabeled_of(s.drop_last())
    } else {
        unlabeled_of(s.drop_last()).push(s.last())
    }
}

/// None of `s` overlaps `a`.
pub open spec fn none_overlap(s: Seq<Annotation>, a: Annotation) -> bool {
    forall|i: int| 0 <= i < s.len() ==> !overlap(#[trigger] s[i], a)
}

/// Whether the last labelled annotation's label goes right after the markers:
/// no other annotation, labelled or not, overlaps it.
pub open spec fn label_fits_inline(labeled: Seq<Annotation>, unlabeled: Seq<Annotation>) -> bool {
    none_overlap(labeled.drop_last(), labeled.last()) && none_overlap(unlabeled, labeled.last())
}

/// The `|` connectors of `a` on the rows `lo + 2` up to `lo + r` (exclusive),
/// each with its gutter marker.
pub open spec fn bars(g: Seq<Seq<(char, Style)>>, lo: int, w: int, a: Annotation, r: int) -> Seq<Seq<(char, Style)>>
    decreases r,
{
    if r <= 2 {
        g
    } else {
        let h = bars(g, lo, w, a, r - 1);
        let h1 = grid::put_char(h, lo + r - 1, w + a.start_col, '|', mark_style(a), Style::NoStyle);
        grid::put_str(h1, lo + r - 1, w - 2, "|>"@, Style::LineNumber, Style::NoStyle)
    }
}

/// The label of `a` hung `blank` rows below `lo`, joined to its start column by `|`.
pub open spec fn hang(g: Seq<Seq<(char, Style)>>, lo: int, w: int, labels: Seq<SpanLabel>, a: Annotation, blank: int) -> Seq<Seq<(char, Style)>> {
    let h = bars(g, lo, w, a, blank);
    let h1 = grid::put_str(h, lo + blank, w + a.start_col, label_text(labels, a), label_style(a), Style::NoStyle);
    grid::put_str(h1, lo + blank, w - 2, "|>"@, Style::LineNumber, Style::NoStyle)
}

/// The first `k` of the `m` hanging labels of `labeled`; the `i`-th hangs
/// `3 + (m - i - 1)` rows below `lo`, so each one is above the ones before it.
pub open spec fn stack(g: Seq<Seq<(char, Style)>>, lo: int, w: int, labels: Seq<SpanLabel>, labeled: Seq<Annotation>, m: int, k: int) -> Seq<Seq<(char, Style)>>
    decreases k,
{
    if k <= 0 {
        g
    } else {
        hang(stack(g, lo, w, labels, labeled, m, k - 1), lo, w, labels, labeled[k - 1], 3 + (m - k))
    }
}

/// The rendering of one annotated line `ln` of file `file`, with annotations
/// `anns`, added below `g`, the source text starting at column `w`; labels
/// are drawn in the modern mode only.
pub open spec fn line_layout(
    g: Seq<Seq<(char, Style)>>,
    cm: CodeMap,
    labels: Seq<SpanLabel>,
    file: int,
    ln: int,
    anns: Seq<Annotation>,
    w: int,
    mode: RenderMode,
) -> Seq<Seq<(char, Style)>> {
    let lo = g.len() as int;
    let g1 = source_row(g, cm, file, ln, w);
    if anns.len() == 0 {
        g1
    } else {
        let sorted = sort_by_key(anns);
        let g2 = grid::put_str(mark_all(g1, lo, w, mode, sorted), lo + 1, w - 2, "|>"@, Style::LineNumber, Style::NoStyle);
        let labeled = labeled_of(sorted);
        let unlabeled = unlabeled_of(sorted);
        if mode == RenderMode::OldSchool || labeled.len() == 0 {
            g2
        } else {
            let last = labeled.last();
            let fits = label_fits_inline(labeled, unlabeled);
            let g3 = if fits {
                grid::append(g2, lo + 1, seq![' '] + label_text(labels, last), label_style(last), Style::NoStyle)
            } else {
                g2
            };
            let m = if fits { labeled.len() - 1 } else { labeled.len() as int };
            stack(g3, lo, w, labels, labeled, m, m)
        }
    }
}

/// The header row: `level: message`, then ` [code]` where there is a code.
pub open spec fn header_grid(msg: CompilerMessage) -> Seq<Seq<(char, Style)>> {
    let g0 = Seq::<Seq<(char, Style)>>::empty();
    let g1 = grid::append(g0, 0, level_name(msg.level), Style::Level(msg.level), Style::NoStyle);
    let g2 = grid::append(g1, 0, ": "@, Style::HeaderMsg, Style::NoStyle);
    let g3 = grid::append(g2, 0, msg.primary_msg@, Style::HeaderMsg, Style::NoStyle);
    match msg.error_code {
        Some(code) => {
            let g4 = grid::append(g3, 0, " ["@, Style::ErrorCode, Style::NoStyle);
            let g5 = grid::append(g4, 0, code@, Style::ErrorCode, Style::NoStyle);
            grid::append(g5, 0, "]"@, Style::ErrorCode, Style::NoStyle)
        },
        None => g3,
    }
}

/// `k` spaces put in front of row `row`.
pub open spec fn prepend_spaces(g: Seq<Seq<(char, Style)>>, row: int, k: int) -> Seq<Seq<(char, Style)>>
    decreases k,
{
    if k <= 0 {
        g
    } else {
        grid::prepend(prepend_spaces(g, row, k - 1), row, " "@, Style::NoStyle, Style::NoStyle)
    }
}

/// The location rows of file `f`: `--> file:line:col` for the primary
/// file; a gutter row and `::: file` for another; indented by the gutter width.
pub open spec fn location_rows(g: Seq<Seq<(char, Style)>>, cm: CodeMap, f: int, primary: Loc, width: int) -> Seq<Seq<(char, Style)>> {
    let o = g.len() as int;
    if f == primary.file {
        let h = grid::prepend(g, o, "--> "@, Style::LineNumber, Style::NoStyle);
        let loc = cm.name_of(f) + seq![':'] + decimal(primary.line as nat) + seq![':'] + decimal(primary.col as nat);
        prepend_spaces(grid::append(h, o, loc, Style::LineAndColumn, Style::NoStyle), o, width)
    } else {
        let h = grid::put_str(g, o, width + 1, "|>"@, Style::LineNumber, Style::NoStyle);
        let h2 = grid::prepend(h, o + 1, "::: "@, Style::LineNumber, Style::NoStyle);
        prepend_spaces(grid::append(h2, o + 1, cm.name_of(f), Style::LineAndColumn, Style::NoStyle), o + 1, width)
    }
}

/// What stands between annotated lines `cur` and `next` of file `f`.
pub open spec fn gap_rows(g: Seq<Seq<(char, Style)>>, cm: CodeMap, f: int, cur: int, next: int, width: int) -> Seq<Seq<(char, Style)>> {
    let r = g.len() as int;
    match gap_of(cur, next) {
        Gap::Elided => grid::put_str(g, r, 0, "..."@, Style::LineNumber, Style::NoStyle),
        Gap::OneLine(n) => {
            let t = match cm.line_of_file(f, cur) {
                Some(t) => t,
                None => Seq::empty(),
            };
            let h = grid::put_str(g, r, 0, decimal(n as nat), Style::LineNumber, Style::NoStyle);
            let h2 = grid::put_str(h, r, 1 + width, "|>"@, Style::LineNumber, Style::NoStyle);
            grid::put_str(h2, r, 3 + width, t, Style::Quotation, Style::NoStyle)
        },
        Gap::Adjacent => g,
    }
}

/// The first `k` annotated lines of file `f`, each followed by what stands
/// between it and the next.
pub open spec fn lines_block(
    g: Seq<Seq<(char, Style)>>,
    cm: CodeMap,
    labels: Seq<SpanLabel>,
    f: int,
    lines: Seq<(usize, Seq<Annotation>)>,
    width: int,
    mode: RenderMode,
    k: int,
) -> Seq<Seq<(char, Style)>>
    decreases k,
{
    if k <= 0 {
        g
    } else {
        let h = line_layout(lines_block(g, cm, labels, f, lines, width, mode, k - 1), cm, labels, f,
            lines[k - 1].0 as int, lines[k - 1].1, 3 + width, mode);
        if k < lines.len() {
            gap_rows(h, cm, f, lines[k - 1].0 as int, lines[k].0 as int, width)
        } else {
            h
        }
    }
}

/// One file's snippet: location rows, a gutter row and its annotated lines.
pub open spec fn file_block(
    g: Seq<Seq<(char, Style)>>,
    cm: CodeMap,
    labels: Seq<SpanLabel>,
    group: (usize, Seq<(usize, Seq<Annotation>)>),
    primary: Loc,
    width: int,
    mode: RenderMode,
) -> Seq<Seq<(char, Style)>> {
    let h = location_rows(g, cm, group.0 as int, primary, width);
    let h2 = grid::put_str(h, h.len() as int, width + 1, "|>"@, Style::LineNumber, Style::NoStyle);
    lines_block(h2, cm, labels, group.0 as int, group.1, width, mode, group.1.len() as int)
}

/// The snippets of the first `k` groups.
pub open spec fn files_block(
    g: Seq<Seq<(char, Style)>>,
    cm: CodeMap,
    labels: Seq<SpanLabel>,
    groups: Seq<(usize, Seq<(usize, Seq<Annotation>)>)>,
    primary: Loc,
    width: int,
    mode: RenderMode,
    k: int,
) -> Seq<Seq<(char, Style)>>
    decreases k,
{
    if k <= 0 {
        g
    } else {
        file_block(files_block(g, cm, labels, groups, primary, width, mode, k - 1), cm, labels, groups[k - 1], primary,
            width, mode)
    }
}

/// The rows of the first `k` notes, each `=> note: text`.
pub open spec fn note_rows(g: Seq<Seq<(char, Style)>>, notes: Seq<String>, width: int, k: int) -> Seq<Seq<(char, Style)>>
    decreases k,
{
    if k <= 0 {
        g
    } else {
        let h = note_rows(g, notes, width, k - 1);
        let r = h.len() as int;
        let h1 = grid::put_str(h, r, 1 + width, "=> "@, Style::LineNumber, Style::NoStyle);
        let h2 = grid::append(h1, r, "note: "@, Style::Level(Level::Note), Style::NoStyle);
        grid::append(h2, r, notes[k - 1]@, Style::NoStyle, Style::NoStyle)
    }
}

/// The notes, after a gutter row, where there are any.
pub open spec fn notes_block(g: Seq<Seq<(char, Style)>>, notes: Seq<String>, width: int) -> Seq<Seq<(char, Style)>> {
    if notes.len() > 0 {
        let h = grid::put_str(g, g.len() as int, width + 1, "|>"@, Style::LineNumber, Style::NoStyle);
        note_rows(h, notes, width, notes.len() as int)
    } else {
        g
    }
}

/// The groups of `msg` with the primary span's file moved to the front.
pub open spec fn ordered_groups(msg: CompilerMessage) -> Seq<(usize, Seq<(usize, Seq<Annotation>)>)> {
    let gs = grouped(*msg.cm, msg.span_labels@);
    let primary = msg.cm.lookup(msg.primary_span.lo as int);
    moved_first(gs, first_index(gs.map_values(|g: (usize, Seq<(usize, Seq<Annotation>)>)| g.0), primary.file))
}

/// The canvas on which `msg` is laid out in `mode`.
pub open spec fn succinct_layout(msg: CompilerMessage, mode: RenderMode) -> Seq<Seq<(char, Style)>> {
    let cm = *msg.cm;
    let labels = msg.span_labels@;
    let width = digit_count(max_line(cm, labels, labels.len() as int) as nat) as int;
    let primary = cm.lookup(msg.primary_span.lo as int);
    let groups = ordered_groups(msg);
    notes_block(files_block(header_grid(msg), cm, labels, groups, primary, width, mode, groups.len() as int), msg.notes@, width)
}

/// Writes the `|>` gutter marker on row `row` at column `col`.
pub(crate) fn gutter(buffer: &mut StyledBuffer, row: usize, col: usize)
    requires
        col + 2 <= ROW_WIDTH,
        grid::rows_within(old(buffer)@, ROW_WIDTH as int),
    ensures
        final(buffer)@ == grid::put_str(old(buffer)@, row as int, col as int, "|>"@, Style::LineNumber, Style::NoStyle),
        final(buffer)@.len() == if row < old(buffer)@.len() { old(buffer)@.len() as int } else { row + 1 },
        grid::same_except(old(buffer)@, final(buffer)@, row as int),
        grid::row_len(final(buffer)@, row as int) <= if grid::row_len(old(buffer)@, row as int) < col + 2 {
            col + 2
        } else {
            grid::row_len(old(buffer)@, row as int)
        },
        grid::rows_within(final(buffer)@, ROW_WIDTH as int),
{
    proof {
        reveal_strlit("|>");
    }
    buffer.puts(row, col, "|>", Style::LineNumber);
}

/// Renders one annotated source line at the bottom of `buffer`: the line
/// number, the gutter and the source text; a row of markers under the
/// annotated columns. In the modern mode the markers are `^` (primary) and
/// `-` (secondary) and also restyle those columns of the source unless the
/// annotation was minimized; then come the labels. The label of the
/// rightmost annotation follows the markers when no other annotation
/// overlaps it; every other label hangs below its annotation's start
/// column, on a row of its own, joined to it by `|`. In the old-school mode
/// the markers are `^` then `~`, and there are no labels.
pub fn render_source_line(
    cm: &CodeMap,
    labels: &Vec<SpanLabel>,
    buffer: &mut StyledBuffer,
    file: usize,
    line: &Line,
    width_offset: usize,
    mode: RenderMode,
)
    requires
        cm.wf(),
        label_texts_small(labels@),
        file < cm.num_files(),
        1 <= line.line_number <= LIMIT + 1,
        line.annotations@.len() <= LIMIT,
        forall|a: int| 0 <= a < line.annotations@.len() ==> good_annotation(#[trigger] line.annotations@[a], labels@),
        3 <= width_offset <= 23,
        grid::rows_within(old(buffer)@, ROW_WIDTH as int),
        old(buffer)@.len() <= ROW_COUNT,
    ensures
        final(buffer)@ == line_layout(old(buffer)@, *cm, labels@, file as int, line.line_number as int,
            line.annotations@, width_offset as int, mode),
        grid::rows_within(final(buffer)@, ROW_WIDTH as int),
        old(buffer)@.len() + 1 <= final(buffer)@.len() <= old(buffer)@.len() + 3 + line.annotations@.len(),
        forall|k: int| 0 <= k < old(buffer)@.len() ==> #[trigger] final(buffer)@[k] == old(buffer)@[k],
{
    let ghost g0 = buffer@;
    let w = width_offset;
    let line_offset = buffer.num_lines();
    let empty: Vec<char> = Vec::new();
    let source = match cm.get_line(file, line.line_number - 1) {
        Some(s) => s,
        None => &empty,
    };

    // The source line, its number and the gutter.
    buffer.put_chars(line_offset, w, source, Style::Quotation);
    let number = decimal_chars(line.line_number);
    buffer.put_chars(line_offset, 0, &number, Style::LineNumber);
    gutter(buffer, line_offset, w - 2);
    assert(buffer@.len() == line_offset + 1);
    let ghost g1 = buffer@;
    assert(g1 == source_row(g0, *cm, file as int, line.line_number as int, w as int));

    if line.annotations.len() == 0 {
        return;
    }

    let annotations = sort_annotations(&line.annotations);
    assert forall|a: int| 0 <= a < annotations@.len() implies good_annotation(#[trigger] annotations@[a], labels@) by {
        assert(annotations@.contains(annotations@[a]));
        let k = choose|k: int| 0 <= k < line.annotations@.len() && line.annotations@[k] == annotations@[a];
        assert(good_annotation(line.annotations@[k], labels@));
    }
    let ghost sorted = annotations@;

    // The marker row.
    let mut ai: usize = 0;
    while ai < annotations.len()
        invariant
            ai <= annotations@.len(),
            sorted == annotations@,
            forall|a: int| 0 <= a < annotations@.len() ==> good_annotation(#[trigger] annotations@[a], labels@),
            3 <= w <= 23,
            line_offset == g0.len(),
            g0.len() <= ROW_COUNT,
            grid::rows_within(buffer@, ROW_WIDTH as int),
            buffer@.len() == line_offset + 1 || buffer@.len() == line_offset + 2,
            grid::row_len(buffer@, line_offset + 1) <= w + LIMIT + 1,
            forall|k: int| 0 <= k < g0.len() ==> #[trigger] buffer@[k] == g0[k],
            buffer@ == mark_all(g1, line_offset as int, w as int, mode, sorted.take(ai as int)),
        decreases annotations@.len() - ai,
    {
        let a = annotations[ai];
        assert(good_annotation(annotations@[ai as int], labels@));
        let ghost before = buffer@;
        let mut p = a.start_col;
        while p < a.end_col
            invariant
                a.start_col <= p <= a.end_col <= LIMIT + 1,
                3 <= w <= 23,
                line_offset == g0.len(),
                g0.len() <= ROW_COUNT,
                grid::rows_within(buffer@, ROW_WIDTH as int),
                buffer@.len() == line_offset + 1 || buffer@.len() == line_offset + 2,
                grid::row_len(buffer@, line_offset + 1) <= w + LIMIT + 1,
                forall|k: int| 0 <= k < g0.len() ==> #[trigger] buffer@[k] == g0[k],
                buffer@ == mark_cols(before, line_offset as int, w as int, a, mode, p as int),
            decreases a.end_col - p,
        {
            let (c, style) = match mode {
                RenderMode::Modern => if a.is_primary {
                    ('^', Style::UnderlinePrimary)
                } else {
                    ('-', Style::UnderlineSecondary)
                },
                RenderMode::OldSchool => {
                    let c = if p == a.start_col { '^' } else { '~' };
                    if a.is_primary {
                        (c, Style::UnderlinePrimary)
                    } else {
                        (c, Style::OldSchoolNote)
                    }
                },
            };
            buffer.putc(line_offset + 1, w + p, c, style);
            if mode == RenderMode::Modern && !a.is_minimized {
                if a.is_primary {
                    buffer.set_style(line_offset, w + p, Style::UnderlinePrimary);
                } else {
                    buffer.set_style(line_offset, w + p, Style::UnderlineSecondary);
                }
            }
            p = p + 1;
        }
        proof {
            let t = sorted.take(ai + 1);
            assert(t.drop_last() =~= sorted.take(ai as int));
            assert(t.last() == a);
        }
        ai = ai + 1;
    }
    assert(sorted.take(ai as int) =~= sorted);
    gutter(buffer, line_offset + 1, w - 2);
    assert(buffer@.len() == line_offset + 2);
    let ghost g2 = buffer@;
    if mode == RenderMode::OldSchool {
        return;
    }

    // Annotations with a label, and those without.
    let mut labeled: Vec<Annotation> = Vec::new();
    let mut unlabeled: Vec<Annotation> = Vec::new();
    let mut i: usize = 0;
    while i < annotations.len()
        invariant
            i <= annotations@.len(),
            sorted == annotations@,
            forall|a: int| 0 <= a < annotations@.len() ==> good_annotation(#[trigger] annotations@[a], labels@),
            labeled@.len() + unlabeled@.len() == i,
            forall|a: int| 0 <= a < labeled@.len() ==> good_annotation(#[trigger] labeled@[a], labels@)
                && labeled@[a].label is Some,
            labeled@ == labeled_of(sorted.take(i as int)),
            unlabeled@ == unlabeled_of(sorted.take(i as int)),
        decreases annotations@.len() - i,
    {
        let a = annotations[i];
        assert(good_annotation(annotations@[i as int], labels@));
        proof {
            let t = sorted.take(i + 1);
            assert(t.drop_last() =~= sorted.take(i as int));
            assert(t.last() == a);
        }
        if a.label.is_some() {
            labeled.push(a);
        } else {
            unlabeled.push(a);
        }
        i = i + 1;
    }
    assert(sorted.take(i as int) =~= sorted);
    if labeled.len() == 0 {
        return;
    }

    // The rightmost label follows the markers where nothing overlaps its annotation.
    let last = labeled[labeled.len() - 1];
    let mut fits = true;
    let mut j: usize = 0;
    while j < labeled.len() - 1
        invariant
            labeled@.len() >= 1,
            last == labeled@.last(),
            j <= labeled@.len() - 1,
            fits == (forall|q: int| 0 <= q < j ==> !overlap(#[trigger] labeled@.drop_last()[q], last)),
        decreases labeled@.len() - j,
    {
        if overlaps(&labeled[j], &last) {
            fits = false;
        }
        assert(labeled@.drop_last()[j as int] == labeled@[j as int]);
        j = j + 1;
    }
    let ghost first_part = fits;
    let mut j: usize = 0;
    while j < unlabeled.len()
        invariant
            j <= unlabeled@.len(),
            fits == (first_part && forall|q: int| 0 <= q < j ==> !overlap(#[trigger] unlabeled@[q], last)),
        decreases unlabeled@.len() - j,
    {
        if overlaps(&unlabeled[j], &last) {
            fits = false;
        }
        j = j + 1;
    }
    assert(fits == label_fits_inline(labeled@, unlabeled@));
    let mut m = labeled.len();
    if fits {
        assert(good_annotation(labeled@[labeled@.len() - 1], labels@));
        let text = label_chars(labels, last.label.unwrap());
        let mut inline: Vec<char> = Vec::new();
        inline.push(' ');
        let mut c: usize = 0;
        while c < text.len()
            invariant
                c <= text@.len(),
                text@.len() <= LIMIT,
                inline@ == seq![' '] + text@.take(c as int),
            decreases text@.len() - c,
        {
            inline.push(text[c]);
            c = c + 1;
            assert(inline@ =~= seq![' '] + text@.take(c as int));
        }
        assert(text@.take(c as int) =~= text@);
        if last.is_primary {
            buffer.append_chars(line_offset + 1, &inline, Style::LabelPrimary);
        } else {
            buffer.append_chars(line_offset + 1, &inline, Style::LabelSecondary);
        }
        m = m - 1;
    }
    let ghost g3 = buffer@;

    // The other labels hang below, each one row lower than the one before.
    let mut idx: usize = 0;
    while idx < m
        invariant
            idx <= m <= labeled@.len() <= annotations@.len(),
            annotations@.len() == line.annotations@.len(),
            line.annotations@.len() <= LIMIT,
            forall|a: int| 0 <= a < labeled@.len() ==> good_annotation(#[trigger] labeled@[a], labels@)
                && labeled@[a].label is Some,
            cm.wf(),
            label_texts_small(labels@),
            3 <= w <= 23,
            line_offset == g0.len(),
            g0.len() <= ROW_COUNT,
            grid::rows_within(buffer@, ROW_WIDTH as int),
            line_offset + 2 <= buffer@.len() <= line_offset + 3 + m,
            forall|k: int| 0 <= k < g0.len() ==> #[trigger] buffer@[k] == g0[k],
            buffer@ == stack(g3, line_offset as int, w as int, labels@, labeled@, m as int, idx as int),
        decreases m - idx,
    {
        let a = labeled[idx];
        assert(good_annotation(labeled@[idx as int], labels@));
        let comes_after = m - idx - 1;
        let blank_lines = 3 + comes_after;
        let ghost before = buffer@;
        let mut row: usize = 2;
        while row < blank_lines
            invariant
                2 <= row <= blank_lines <= 2 + m,
                a.start_col < a.end_col <= LIMIT + 1,
                3 <= w <= 23,
                line_offset == g0.len(),
                g0.len() <= ROW_COUNT,
                m <= LIMIT,
                grid::rows_within(buffer@, ROW_WIDTH as int),
                line_offset + 2 <= buffer@.len() <= line_offset + 3 + m,
                forall|k: int| 0 <= k < g0.len() ==> #[trigger] buffer@[k] == g0[k],
                buffer@ == bars(before, line_offset as int, w as int, a, row as int),
            decreases blank_lines - row,
        {
            if a.is_primary {
                buffer.putc(line_offset + row, w + a.start_col, '|', Style::UnderlinePrimary);
            } else {
                buffer.putc(line_offset + row, w + a.start_col, '|', Style::UnderlineSecondary);
            }
            gutter(buffer, line_offset + row, w - 2);
            row = row + 1;
        }
        let text = label_chars(labels, a.label.unwrap());
        if a.is_primary {
            buffer.put_chars(line_offset + blank_lines, w + a.start_col, &text, Style::LabelPrimary);
        } else {
            buffer.put_chars(line_offset + blank_lines, w + a.start_col, &text, Style::LabelSecondary);
        }
        gutter(buffer, line_offset + blank_lines, w - 2);
        idx = idx + 1;
    }
}

/// The labels of a well-formed message lie in its code map and have texts of
/// acceptable size.
pub proof fn lemma_message_labels(msg: CompilerMessage)
    requires
        msg.wf(),
    ensures
        labels_in(*msg.cm, msg.span_labels@),
        label_texts_small(msg.span_labels@),
{
    assert forall|k: int| 0 <= k < msg.span_labels@.len() implies (#[trigger] msg.span_labels@[k]).span.lo
        <= msg.span_labels@[k].span.hi <= msg.cm.end() by {
        assert(crate::compiler_message::span_in(*msg.cm, msg.span_labels@[k].span));
    }
}

/// The files of the ordered groups are distinct.
pub proof fn lemma_ordered_distinct(cm: CodeMap, labels: Seq<SpanLabel>, p: usize)
    ensures
        ({
            let gs = grouped(cm, labels);
            let groups = moved_first(gs, first_index(gs.map_values(|g: (usize, Seq<(usize, Seq<Annotation>)>)| g.0), p));
            &&& forall|a: int, b: int| 0 <= a < b < groups.len() ==> groups[a].0 != groups[b].0
            &&& forall|a: int, j: int| 0 <= a < groups.len() && 0 <= j < groups[a].1.len() ==>
                (#[trigger] groups[a].1[j]).1 == anns_on(cm, labels, groups[a].0 as int, groups[a].1[j].0 as int, labels.len() as int)
        }),
{
    let gs = grouped(cm, labels);
    let ids = gs.map_values(|g: (usize, Seq<(usize, Seq<Annotation>)>)| g.0);
    crate::annotations::lemma_grouped_distinct(cm, labels, labels.len() as int);
    crate::layout::lemma_first_index_range(ids, p);
    let i = first_index(ids, p);
    let groups = moved_first(gs, i);
    assert forall|a: int, b: int| 0 <= a < b < groups.len() implies groups[a].0 != groups[b].0 by {
        let a0 = if i > 0 && a == 0 { i } else if i > 0 && a == i { 0 } else { a };
        let b0 = if i > 0 && b == 0 { i } else if i > 0 && b == i { 0 } else { b };
        assert(groups[a] == gs[a0]);
        assert(groups[b] == gs[b0]);
        assert(gs[a0].0 == ids[a0]);
        assert(gs[b0].0 == ids[b0]);
        if a0 < b0 {
            assert(ids[a0] != ids[b0]);
        } else {
            assert(ids[b0] != ids[a0]);
        }
    }
    assert forall|a: int, j: int| 0 <= a < groups.len() && 0 <= j < groups[a].1.len() implies
        (#[trigger] groups[a].1[j]).1 == anns_on(cm, labels, groups[a].0 as int, groups[a].1[j].0 as int, labels.len() as int) by {
        let a0 = if i > 0 && a == 0 { i } else if i > 0 && a == i { 0 } else { a };
        assert(groups[a] == gs[a0]);
    }
}

/// Appends the characters of `s` to `v`.
fn push_all(v: &mut Vec<char>, s: &Vec<char>)
    ensures
        final(v)@ == old(v)@ + s@,
{
    let mut i: usize = 0;
    while i < s.len()
        invariant
            i <= s@.len(),
            v@ == old(v)@ + s@.take(i as int),
        decreases s@.len() - i,
    {
        v.push(s[i]);
        i = i + 1;
        assert(v@ =~= old(v)@ + s@.take(i as int));
    }
    assert(s@.take(i as int) =~= s@);
}

/// `file:line:col`.
pub(crate) fn location_text(name: &String, line: usize, col: usize) -> (r: Vec<char>)
    ensures
        r@ == name@ + seq![':'] + crate::text::decimal(line as nat) + seq![':'] + crate::text::decimal(col as nat),
        r@.len() <= name@.len() + 42,
{
    let mut r = chars_of(name.as_str());
    r.push(':');
    push_all(&mut r, &decimal_chars(line));
    r.push(':');
    push_all(&mut r, &decimal_chars(col));
    r
}

/// Renders `msg`: a header `level: message [code]`; for each file, the
/// primary span's file first, a location row (`--> file:line:col` for the
/// primary file, `::: file` for others), a gutter row and its annotated
/// lines, with what stands between consecutive lines decided by
/// `gap_between`; then the notes, each as `=> note: text`. The gutter is
/// as wide as `gutter_width` says, for every file. The canvas is compacted
/// into runs of equal style, row by row.
pub fn render_succinct(msg: &CompilerMessage) -> (r: Vec<Vec<StyledString>>)
    requires
        msg.wf(),
    ensures
        rendered(r@) == grid::compact(succinct_layout(*msg, RenderMode::Modern)),
        r@.len() >= 1,
{
    render_succinct_in(msg, RenderMode::Modern)
}

/// Renders `msg` as `render_succinct` does, drawing annotations in `mode`.
pub fn render_succinct_in(msg: &CompilerMessage, mode: RenderMode) -> (r: Vec<Vec<StyledString>>)
    requires
        msg.wf(),
    ensures
        rendered(r@) == grid::compact(succinct_layout(*msg, mode)),
        r@.len() >= 1,
{
    let mut buffer = StyledBuffer::new();
    proof {
        reveal_strlit("error: internal compiler error");
        reveal_strlit("error");
        reveal_strlit("warning");
        reveal_strlit("note");
        reveal_strlit("help");
        reveal_strlit(": ");
        reveal_strlit(" [");
        reveal_strlit("]");
    }

    // The header: `level: message [code]`.
    let level_text = msg.level.to_string();
    buffer.append(0, level_text.as_str(), Style::Level(msg.level));
    buffer.append(0, ": ", Style::HeaderMsg);
    buffer.append(0, msg.primary_msg.as_str(), Style::HeaderMsg);
    match &msg.error_code {
        Some(code) => {
            buffer.append(0, " [", Style::ErrorCode);
            buffer.append(0, code.as_str(), Style::ErrorCode);
            buffer.append(0, "]", Style::ErrorCode);
        },
        None => {},
    }
    assert(grid::rows_within(buffer@, ROW_WIDTH as int));
    assert(buffer@.len() == 1);
    assert(buffer@ == header_grid(*msg));
    let ghost header = buffer@;

    proof {
        lemma_message_labels(*msg);
    }
    let mut annotated_files = preprocess_annotations(&msg.cm, &msg.span_labels);
    let width = gutter_width(msg);
    assert(crate::compiler_message::span_in(*msg.cm, msg.primary_span));
    let primary_lo = msg.cm.lookup_char_pos(msg.primary_span.lo);
    let ghost before_order = annotated_files@;
    primary_first(&mut annotated_files, primary_lo.file);
    assert(well_grouped(annotated_files@, msg.span_labels@, msg.cm.num_files()));
    let ghost groups = ordered_groups(*msg);
    proof {
        lemma_order_view(before_order, primary_lo.file);
    }
    assert(annotated_files@.map_values(|f: FileWithAnnotatedLines| group_view(f)) == groups);
    proof {
        lemma_ordered_distinct(msg.code_map(), msg.span_labels@, primary_lo.file);
    }
    let ghost nl = msg.span_labels@.len() as int;
    let ghost mut consumed: Set<int> = Set::empty();

    let mut fi: usize = 0;
    while fi < annotated_files.len()
        invariant
            msg.wf(),
            nl == msg.span_labels@.len(),
            primary_lo == msg.cm.lookup(msg.primary_span.lo as int),
            width as int == digit_count(max_line(*msg.cm, msg.span_labels@, msg.span_labels@.len() as int) as nat),
            annotated_files@.map_values(|f: FileWithAnnotatedLines| group_view(f)) == groups,
            groups == ordered_groups(*msg),
            forall|a: int, b: int| 0 <= a < b < groups.len() ==> groups[a].0 != groups[b].0,
            forall|a: int, j: int| 0 <= a < groups.len() && 0 <= j < groups[a].1.len() ==>
                (#[trigger] groups[a].1[j]).1 == anns_on(*msg.cm, msg.span_labels@, groups[a].0 as int, groups[a].1[j].0 as int, nl),
            well_grouped(annotated_files@, msg.span_labels@, msg.cm.num_files()),
            fi <= annotated_files@.len(),
            1 <= width <= 20,
            grid::rows_within(buffer@, ROW_WIDTH as int),
            consumed.finite(),
            consumed.subset_of(set_int_range(0, nl)),
            forall|k: int| #[trigger] consumed.contains(k) ==> exists|i: int| 0 <= i < fi
                && (#[trigger] groups[i]).0 == start_loc(*msg.cm, msg.span_labels@[k]).file,
            1 <= buffer@.len() <= 1 + 3 * fi + 5 * consumed.len(),
            buffer@ == files_block(header, *msg.cm, msg.span_labels@, groups, primary_lo, width as int, mode, fi as int),
        decreases annotated_files@.len() - fi,
    {
        proof {
            lemma_message_labels(*msg);
        }
        let annotated_file = &annotated_files[fi];
        let ghost base = buffer@.len();
        let ghost g_start = buffer@;
        let ghost group = groups[fi as int];
        assert(group == group_view(annotated_files@[fi as int]));
        assert(annotated_file.file < msg.cm.num_files());
        assert(annotated_file.lines@.len() <= LIMIT);
        proof {
            lemma_int_range(0, nl);
            lemma_len_subset(consumed, set_int_range(0, nl));
        }
        assert(buffer@.len() <= 1 + 3 * LIMIT + 5 * LIMIT);
        let name = msg.cm.file_name(annotated_file.file);
        if primary_lo.file == annotated_file.file {
            let offset = buffer.num_lines();
            proof {
                reveal_strlit("--> ");
                reveal_strlit(" ");
            }
            buffer.prepend(offset, "--> ", Style::LineNumber);
            let loc = location_text(name, primary_lo.line, primary_lo.col);
            buffer.append_chars(offset, &loc, Style::LineAndColumn);
            let ghost h = buffer@;
            let mut i: usize = 0;
            while i < width
                invariant
                    i <= width <= 20,
                    buffer@.len() == offset + 1,
                    grid::rows_within(buffer@, ROW_WIDTH as int),
                    grid::row_len(buffer@, offset as int) <= LIMIT + 46 + i,
                    buffer@ == prepend_spaces(h, offset as int, i as int),
                decreases width - i,
            {
                proof {
                    reveal_strlit(" ");
                }
                buffer.prepend(offset, " ", Style::NoStyle);
                i = i + 1;
            }
        } else {
            let offset = buffer.num_lines();
            gutter(&mut buffer, offset, width + 1);
            proof {
                reveal_strlit("::: ");
            }
            buffer.prepend(offset + 1, "::: ", Style::LineNumber);
            buffer.append(offset + 1, name.as_str(), Style::LineAndColumn);
            let ghost h = buffer@;
            let mut i: usize = 0;
            while i < width
                invariant
                    i <= width <= 20,
                    buffer@.len() == offset + 2,
                    offset <= ROW_COUNT,
                    grid::rows_within(buffer@, ROW_WIDTH as int),
                    grid::row_len(buffer@, offset + 1) <= LIMIT + 4 + i,
                    buffer@ == prepend_spaces(h, offset + 1, i as int),
                decreases width - i,
            {
                proof {
                    reveal_strlit(" ");
                }
                buffer.prepend(offset + 1, " ", Style::NoStyle);
                i = i + 1;
            }
        }
        assert(buffer@ == location_rows(g_start, *msg.cm, group.0 as int, primary_lo, width as int));

        // The gutter row between the location and the source.
        let offset = buffer.num_lines();
        gutter(&mut buffer, offset, width + 1);
        assert(buffer@.len() <= base + 3);
        let ghost h2 = buffer@;

        let n = annotated_file.lines.len();
        assert(group.1.len() == n);
        let mut li: usize = 0;
        while li < n
            invariant
                msg.wf(),
                well_grouped(annotated_files@, msg.span_labels@, msg.cm.num_files()),
                fi < annotated_files@.len(),
                nl == msg.span_labels@.len(),
                annotated_file == annotated_files@[fi as int],
                group == group_view(annotated_files@[fi as int]),
                group == groups[fi as int],
                groups.len() == annotated_files@.len(),
                forall|a: int, b: int| 0 <= a < b < groups.len() ==> groups[a].0 != groups[b].0,
                forall|a: int, j: int| 0 <= a < groups.len() && 0 <= j < groups[a].1.len() ==>
                    (#[trigger] groups[a].1[j]).1 == anns_on(*msg.cm, msg.span_labels@, groups[a].0 as int, groups[a].1[j].0 as int, nl),
                n == annotated_file.lines@.len(),
                n <= LIMIT,
                annotated_file.file < msg.cm.num_files(),
                li <= n,
                1 <= width <= 20,
                grid::rows_within(buffer@, ROW_WIDTH as int),
                consumed.finite(),
                consumed.subset_of(set_int_range(0, nl)),
                forall|k: int| #[trigger] consumed.contains(k) ==> (exists|i: int| 0 <= i < fi
                    && (#[trigger] groups[i]).0 == start_loc(*msg.cm, msg.span_labels@[k]).file)
                    || (start_loc(*msg.cm, msg.span_labels@[k]).file == group.0 && forall|j: int| li <= j < n
                        ==> start_loc(*msg.cm, msg.span_labels@[k]).line < (#[trigger] group.1[j]).0),
                1 <= buffer@.len() <= 1 + 3 * (fi + 1) + 5 * consumed.len(),
                buffer@ == lines_block(h2, *msg.cm, msg.span_labels@, group.0 as int, group.1, width as int, mode, li as int),
            decreases n - li,
        {
            proof {
                lemma_message_labels(*msg);
            }
            let line = &annotated_file.lines[li];
            assert(group.1[li as int] == (line.line_number, line.annotations@));
            proof {
                lemma_int_range(0, nl);
                lemma_len_subset(consumed, set_int_range(0, nl));
            }
            let ghost rows_before = buffer@.len();
            assert(1 <= annotated_files@[fi as int].lines@[li as int].annotations@.len());
            assert(1 <= annotated_files@[fi as int].lines@[li as int].line_number <= LIMIT + 1);
            assert(annotated_files@[fi as int].lines@[li as int].annotations@.len() <= msg.span_labels@.len());
            assert forall|a: int| 0 <= a < line.annotations@.len() implies good_annotation(#[trigger] line.annotations@[a], msg.span_labels@) by {
                assert(good_annotation(annotated_files@[fi as int].lines@[li as int].annotations@[a], msg.span_labels@));
            }
            render_source_line(&msg.cm, &msg.span_labels, &mut buffer, annotated_file.file, line, 3 + width, mode);

            if li + 1 < n {
                let next = &annotated_file.lines[li + 1];
                assert(group.1[li + 1] == (next.line_number, next.annotations@));
                assert(annotated_files@[fi as int].lines@[li as int].line_number < annotated_files@[fi as int].lines@[li + 1].line_number);
                match gap_between(line.line_number, next.line_number) {
                    Gap::Elided => {
                        let last = buffer.num_lines();
                        proof {
                            reveal_strlit("...");
                        }
                        buffer.puts(last, 0, "...", Style::LineNumber);
                    },
                    Gap::OneLine(number) => {
                        let empty: Vec<char> = Vec::new();
                        let text = match msg.cm.get_line(annotated_file.file, line.line_number) {
                            Some(t) => t,
                            None => &empty,
                        };
                        let last = buffer.num_lines();
                        buffer.put_chars(last, 0, &decimal_chars(number), Style::LineNumber);
                        gutter(&mut buffer, last, 1 + width);
                        buffer.put_chars(last, 3 + width, text, Style::Quotation);
                    },
                    Gap::Adjacent => {},
                }
            }
            proof {
                let f = group.0 as int;
                let ln = group.1[li as int].0 as int;
                let here = labels_on(msg.code_map(), msg.span_labels@, f, ln, nl);
                lemma_labels_on(msg.code_map(), msg.span_labels@, f, ln, nl);
                assert(groups[fi as int].1[li as int] == group.1[li as int]);
                assert(group.1[li as int].1 == anns_on(*msg.cm, msg.span_labels@, f, ln, nl));
                assert(here.len() == line.annotations@.len());
                assert forall|k: int| !(consumed.contains(k) && here.contains(k)) by {
                    if consumed.contains(k) && here.contains(k) {
                        if exists|i: int| 0 <= i < fi && (#[trigger] groups[i]).0 == start_loc(*msg.cm, msg.span_labels@[k]).file {
                            let i = choose|i: int| 0 <= i < fi && (#[trigger] groups[i]).0 == start_loc(*msg.cm, msg.span_labels@[k]).file;
                            assert(groups[i].0 != groups[fi as int].0);
                        } else {
                            assert(start_loc(*msg.cm, msg.span_labels@[k]).line < group.1[li as int].0);
                        }
                    }
                }
                assert(consumed.disjoint(here));
                lemma_set_disjoint_lens(consumed, here);
                let old_consumed = consumed;
                consumed = consumed + here;
                assert forall|k: int| #[trigger] consumed.contains(k) implies (exists|i: int| 0 <= i < fi
                    && (#[trigger] groups[i]).0 == start_loc(*msg.cm, msg.span_labels@[k]).file)
                    || (start_loc(*msg.cm, msg.span_labels@[k]).file == group.0 && forall|j: int| li + 1 <= j < n
                        ==> start_loc(*msg.cm, msg.span_labels@[k]).line < (#[trigger] group.1[j]).0) by {
                    if here.contains(k) {
                        assert forall|j: int| li + 1 <= j < n implies start_loc(*msg.cm, msg.span_labels@[k]).line < (#[trigger] group.1[j]).0 by {
                            assert(annotated_files@[fi as int].lines@[li as int].line_number < annotated_files@[fi as int].lines@[j].line_number);
                        }
                    } else {
                        assert(old_consumed.contains(k));
                    }
                }
                assert(consumed.subset_of(set_int_range(0, nl)));
            }
            li = li + 1;
        }
        assert(buffer@ == file_block(g_start, *msg.cm, msg.span_labels@, group, primary_lo, width as int, mode));
        assert forall|k: int| #[trigger] consumed.contains(k) implies exists|i: int| 0 <= i < fi + 1
            && (#[trigger] groups[i]).0 == start_loc(*msg.cm, msg.span_labels@[k]).file by {
            if !(exists|i: int| 0 <= i < fi && (#[trigger] groups[i]).0 == start_loc(*msg.cm, msg.span_labels@[k]).file) {
                assert(groups[fi as int].0 == start_loc(*msg.cm, msg.span_labels@[k]).file);
            }
        }
        fi = fi + 1;
    }
    let ghost all_files = buffer@;

    // The notes.
    if msg.notes.len() > 0 {
        let offset = buffer.num_lines();
        gutter(&mut buffer, offset, width + 1);
    }
    let ghost before_notes = buffer@;
    let mut ni: usize = 0;
    while ni < msg.notes.len()
        invariant
            msg.wf(),
            ni <= msg.notes@.len(),
            1 <= width <= 20,
            grid::rows_within(buffer@, ROW_WIDTH as int),
            buffer@.len() >= 1,
            buffer@ == note_rows(before_notes, msg.notes@, width as int, ni as int),
        decreases msg.notes@.len() - ni,
    {
        let last = buffer.num_lines();
        proof {
            reveal_strlit("=> ");
            reveal_strlit("note: ");
        }
        buffer.puts(last, 1 + width, "=> ", Style::LineNumber);
        buffer.append(last, "note: ", Style::Level(Level::Note));
        assert(msg.notes@[ni as int]@.len() <= LIMIT);
        buffer.append(last, msg.notes[ni].as_str(), Style::NoStyle);
        ni = ni + 1;
    }
    assert(buffer@ == notes_block(all_files, msg.notes@, width as int));
    assert(buffer@ == succinct_layout(*msg, mode));

    let r = buffer.render();
    assert(grid::compact(buffer@).len() == buffer@.len());
    r
}

/// Ordering the groups and taking their models commute.
pub proof fn lemma_order_view(s: Seq<FileWithAnnotatedLines>, p: usize)
    ensures
        moved_first(s, first_index(crate::layout::file_ids(s), p)).map_values(|f: FileWithAnnotatedLines| group_view(f))
            == moved_first(s.map_values(|f: FileWithAnnotatedLines| group_view(f)), first_index(
                s.map_values(|f: FileWithAnnotatedLines| group_view(f)).map_values(
                    |g: (usize, Seq<(usize, Seq<Annotation>)>)| g.0), p)),
{
    let v = s.map_values(|f: FileWithAnnotatedLines| group_view(f));
    assert(crate::layout::file_ids(s) =~= v.map_values(|g: (usize, Seq<(usize, Seq<Annotation>)>)| g.0));
    let i = first_index(crate::layout::file_ids(s), p);
    crate::layout::lemma_first_index_range(crate::layout::file_ids(s), p);
    assert(moved_first(s, i).map_values(|f: FileWithAnnotatedLines| group_view(f)) =~= moved_first(v, i));
}

} // verus!
