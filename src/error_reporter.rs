//! A reporter that renders a diagnostic without notes or error code, and
//! without eliding the lines between annotated lines.
use vstd::prelude::*;
use std::rc::Rc;
use crate::annotations::{
    Annotation, FileWithAnnotatedLines, anns_on, good_annotation, group_view, grouped, labels_in, labels_on,
    lemma_labels_on, preprocess_annotations, start_loc, well_grouped,
};
use vstd::set_lib::{lemma_int_range, lemma_len_subset, lemma_set_disjoint_lens, set_int_range};
use crate::codemap::{CodeMap, Loc, Span, LIMIT};
use crate::compiler_message::{SpanLabel, span_in, small_text};
use crate::grid;
use crate::layout::{first_index, max_line, max_line_num, moved_first, primary_first};
use crate::render_succinct::{
    ROW_WIDTH, RenderMode, gutter, label_texts_small, lemma_order_view, lemma_ordered_distinct, line_layout, location_text,
    prepend_spaces, render_source_line,
};
use crate::styled_buffer::{Level, Style, StyledBuffer, StyledString, level_name, rendered};
use crate::text::{decimal, digit_count, digit_len};

verus! {

/// The location row of file `f`: `--> file:line:col` for the primary file,
/// `::: file` for another, indented by the gutter width.
pub open spec fn reporter_location(g: Seq<Seq<(char, Style)>>, cm: CodeMap, f: int, primary: Loc, width: int) -> Seq<Seq<(char, Style)>> {
    let o = g.len() as int;
    if f == primary.file {
        let h = grid::prepend(g, o, "--> "@, Style::LineNumber, Style::NoStyle);
        let loc = cm.name_of(f) + seq![':'] + decimal(primary.line as nat) + seq![':'] + decimal(primary.col as nat);
        prepend_spaces(grid::append(h, o, loc, Style::LineAndColumn, Style::NoStyle), o, width)
    } else {
        let h = grid::prepend(g, o, "::: "@, Style::LineNumber, Style::NoStyle);
        prepend_spaces(grid::append(h, o, cm.name_of(f), Style::LineAndColumn, Style::NoStyle), o, width)
    }
}

/// The first `k` annotated lines of file `f`, one after another.
pub open spec fn plain_lines(
    g: Seq<Seq<(char, Style)>>,
    cm: CodeMap,
    labels: Seq<SpanLabel>,
    f: int,
    lines: Seq<(usize, Seq<Annotation>)>,
    w: int,
    k: int,
) -> Seq<Seq<(char, Style)>>
    decreases k,
{
    if k <= 0 {
        g
    } else {
        line_layout(plain_lines(g, cm, labels, f, lines, w, k - 1), cm, labels, f, lines[k - 1].0 as int, lines[k - 1].1, w,
            RenderMode::Modern)
    }
}

/// One file's snippet, with a gutter `width` wide.
pub open spec fn reporter_file(
    g: Seq<Seq<(char, Style)>>,
    cm: CodeMap,
    labels: Seq<SpanLabel>,
    group: (usize, Seq<(usize, Seq<Annotation>)>),
    primary: Loc,
    width: int,
) -> Seq<Seq<(char, Style)>> {
    let h = reporter_location(g, cm, group.0 as int, primary, width);
    let h2 = grid::put_str(h, g.len() as int + 1, width + 1, "|>"@, Style::LineNumber, Style::NoStyle);
    plain_lines(h2, cm, labels, group.0 as int, group.1, 3 + width, group.1.len() as int)
}

/// The snippets of the first `k` groups.
pub open spec fn reporter_files(
    g: Seq<Seq<(char, Style)>>,
    cm: CodeMap,
    labels: Seq<SpanLabel>,
    groups: Seq<(usize, Seq<(usize, Seq<Annotation>)>)>,
    primary: Loc,
    width: int,
    k: int,
) -> Seq<Seq<(char, Style)>>
    decreases k,
{
    if k <= 0 {
        g
    } else {
        reporter_file(reporter_files(g, cm, labels, groups, primary, width, k - 1), cm, labels, groups[k - 1], primary, width)
    }
}

/// The canvas on which a reporter lays out its diagnostic: the header
/// `level: message`, then one snippet per file, the primary span's file
/// first; every file's gutter is as wide as the largest line number on which
/// a label ends, in any file.
pub open spec fn reporter_layout(level: Level, msg: Seq<char>, cm: CodeMap, labels: Seq<SpanLabel>, primary_span: Span) -> Seq<Seq<(char, Style)>> {
    let g0 = Seq::<Seq<(char, Style)>>::empty();
    let g1 = grid::append(g0, 0, level_name(level), Style::Level(level), Style::NoStyle);
    let g2 = grid::append(g1, 0, ": "@, Style::HeaderMsg, Style::NoStyle);
    let header = grid::append(g2, 0, msg, Style::HeaderMsg, Style::NoStyle);
    let gs = grouped(cm, labels);
    let primary = cm.lookup(primary_span.lo as int);
    let groups = moved_first(gs, first_index(gs.map_values(|g: (usize, Seq<(usize, Seq<Annotation>)>)| g.0), primary.file));
    let width = digit_count(max_line(cm, labels, labels.len() as int) as nat) as int;
    reporter_files(header, cm, labels, groups, primary, width, groups.len() as int)
}

/// A diagnostic being built: level, primary span and message, and labels.
pub struct ErrorReporter {
    level: Level,
    primary_span: Span,
    primary_msg: String,
    span_labels: Vec<SpanLabel>,
    cm: Rc<CodeMap>,
}

impl ErrorReporter {
    /// The reporter's spans lie in its code map, its texts are of acceptable
    /// size and its level has a name.
    pub closed spec fn wf(&self) -> bool {
        &&& self.cm.wf()
        &&& self.cm.num_files() > 0
        &&& self.level != Level::Cancelled
        &&& span_in(*self.cm, self.primary_span)
        &&& self.primary_msg@.len() <= LIMIT
        &&& self.span_labels@.len() <= LIMIT
        &&& labels_in(*self.cm, self.span_labels@)
        &&& label_texts_small(self.span_labels@)
    }

    /// The labels added so far.
    pub closed spec fn labels(&self) -> Seq<SpanLabel> {
        self.span_labels@
    }

    /// The code map the spans refer to.
    pub closed spec fn code_map(&self) -> CodeMap {
        *self.cm
    }

    /// The primary span.
    pub closed spec fn primary(&self) -> Span {
        self.primary_span
    }

    /// The level.
    pub closed spec fn level(&self) -> Level {
        self.level
    }

    /// The primary message.
    pub closed spec fn message(&self) -> Seq<char> {
        self.primary_msg@
    }

    /// Adds a label on `span`; it is primary exactly when `span` is the primary span.
    pub fn span_label(&mut self, span: Span, label: Option<String>) -> (r: &mut ErrorReporter)
        requires
            old(self).wf(),
            span_in(old(self).code_map(), span),
            small_text(label),
            old(self).labels().len() < LIMIT,
        ensures
            r.labels() == old(self).labels().push(
                SpanLabel { span: span, is_primary: span == old(self).primary(), label: label },
            ),
            r.code_map() == old(self).code_map(),
            r.primary() == old(self).primary(),
            r.level() == old(self).level(),
            r.message() == old(self).message(),
            r.wf(),
            *final(self) == *final(r),
    {
        let is_primary = span == self.primary_span;
        let ghost old_labels = self.span_labels@;
        self.span_labels.push(SpanLabel { span: span, is_primary: is_primary, label: label });
        assert forall|k: int| 0 <= k < self.span_labels@.len() implies (#[trigger] self.span_labels@[k]).span.lo
            <= self.span_labels@[k].span.hi <= self.cm.end() by {
            if k < old_labels.len() {
                assert(old_labels[k] == self.span_labels@[k]);
            }
        }
        assert forall|k: int| 0 <= k < self.span_labels@.len() implies small_text(#[trigger] self.span_labels@[k].label) by {
            if k < old_labels.len() {
                assert(old_labels[k] == self.span_labels@[k]);
            }
        }
        self
    }

    /// A reporter with no labels.
    pub fn new(level: Level, msg: String, primary_span: Span, cm: Rc<CodeMap>) -> (r: ErrorReporter)
        requires
            cm.wf(),
            cm.num_files() > 0,
            level != Level::Cancelled,
            span_in(*cm, primary_span),
            msg@.len() <= LIMIT,
        ensures
            r.wf(),
            r.labels().len() == 0,
            r.code_map() == *cm,
            r.primary() == primary_span,
            r.level() == level,
            r.message() == msg@,
    {
        ErrorReporter { level: level, primary_span: primary_span, primary_msg: msg, span_labels: Vec::new(), cm: cm }
    }

    /// Renders the reporter: a header `level: message`; then for each file,
    /// the primary span's file first, a location row (`--> file:line:col`
    /// or `::: file`), a gutter row and the annotated lines.
    pub fn render(&mut self) -> (r: Vec<Vec<StyledString>>)
        requires
            old(self).wf(),
        ensures
            *final(self) == *old(self),
            rendered(r@) == grid::compact(reporter_layout(old(self).level(), old(self).message(),
                old(self).code_map(), old(self).labels(), old(self).primary())),
            r@.len() >= 1,
    {
        let mut buffer = StyledBuffer::new();
        proof {
            reveal_strlit("error: internal compiler error");
            reveal_strlit("error");
            reveal_strlit("warning");
            reveal_strlit("note");
            reveal_strlit("help");
            reveal_strlit(": ");
        }
        let level_text = self.level.to_string();
        buffer.append(0, level_text.as_str(), Style::Level(self.level));
        buffer.append(0, ": ", Style::HeaderMsg);
        buffer.append(0, self.primary_msg.as_str(), Style::HeaderMsg);
        assert(grid::rows_within(buffer@, ROW_WIDTH as int));
        let ghost header = buffer@;

        let mut annotated_files = preprocess_annotations(&self.cm, &self.span_labels);
        let width = digit_len(max_line_num(&self.cm, &self.span_labels));
        let primary_lo = self.cm.lookup_char_pos(self.primary_span.lo);
        let ghost before_order = annotated_files@;
        primary_first(&mut annotated_files, primary_lo.file);
        let ghost gs = grouped(self.code_map(), self.span_labels@);
        let ghost groups = moved_first(gs, first_index(gs.map_values(|g: (usize, Seq<(usize, Seq<Annotation>)>)| g.0), primary_lo.file));
        proof {
            lemma_order_view(before_order, primary_lo.file);
        }
        assert(annotated_files@.map_values(|f: FileWithAnnotatedLines| group_view(f)) == groups);
        proof {
            lemma_ordered_distinct(self.code_map(), self.span_labels@, primary_lo.file);
        }
        let ghost nl = self.span_labels@.len() as int;
        let ghost mut consumed: Set<int> = Set::empty();

        let mut fi: usize = 0;
        while fi < annotated_files.len()
            invariant
                self.wf(),
                well_grouped(annotated_files@, self.span_labels@, self.cm.num_files()),
                fi <= annotated_files@.len(),
                grid::rows_within(buffer@, ROW_WIDTH as int),
                nl == self.span_labels@.len(),
                forall|a: int, b: int| 0 <= a < b < groups.len() ==> groups[a].0 != groups[b].0,
                forall|a: int, j: int| 0 <= a < groups.len() && 0 <= j < groups[a].1.len() ==>
                    (#[trigger] groups[a].1[j]).1 == anns_on(*self.cm, self.span_labels@, groups[a].0 as int, groups[a].1[j].0 as int, nl),
                groups == moved_first(grouped(*self.cm, self.span_labels@), first_index(grouped(*self.cm, self.span_labels@).map_values(|g: (usize, Seq<(usize, Seq<Annotation>)>)| g.0), primary_lo.file)),
                consumed.finite(),
                consumed.subset_of(set_int_range(0, nl)),
                forall|k: int| #[trigger] consumed.contains(k) ==> exists|i: int| 0 <= i < fi
                    && (#[trigger] groups[i]).0 == start_loc(*self.cm, self.span_labels@[k]).file,
                1 <= buffer@.len() <= 1 + 3 * fi + 5 * consumed.len(),
                primary_lo == self.cm.lookup(self.primary_span.lo as int),
                annotated_files@.map_values(|f: FileWithAnnotatedLines| group_view(f)) == groups,
                buffer@ == reporter_files(header, *self.cm, self.span_labels@, groups, primary_lo, width as int, fi as int),
                width as int == digit_count(max_line(*self.cm, self.span_labels@, self.span_labels@.len() as int) as nat),
                1 <= width <= 20,
            decreases annotated_files@.len() - fi,
        {
            let annotated_file = &annotated_files[fi];
            let ghost base = buffer@.len();
            let ghost g_start = buffer@;
            let ghost group = groups[fi as int];
            assert(group == group_view(annotated_files@[fi as int]));
            assert(annotated_file.file < self.cm.num_files());
            let n = annotated_file.lines.len();
            assert(n <= LIMIT);
            proof {
                lemma_int_range(0, nl);
                lemma_len_subset(consumed, set_int_range(0, nl));
            }
            let name = self.cm.file_name(annotated_file.file);
            let offset = buffer.num_lines();
            proof {
                reveal_strlit("--> ");
                reveal_strlit("::: ");
            }
            if primary_lo.file == annotated_file.file {
                buffer.prepend(offset, "--> ", Style::LineNumber);
                let loc = location_text(name, primary_lo.line, primary_lo.col);
                buffer.append_chars(offset, &loc, Style::LineAndColumn);
            } else {
                buffer.prepend(offset, "::: ", Style::LineNumber);
                buffer.append(offset, name.as_str(), Style::LineAndColumn);
            }
            let ghost h = buffer@;
            let mut i: usize = 0;
            while i < width
                invariant
                    i <= width <= 20,
                    buffer@.len() == offset + 1,
                    grid::rows_within(buffer@, ROW_WIDTH as int),
                    grid::row_len(buffer@, offset as int) <= LIMIT + 46 + i,
                    buffer@ == prepend_spaces(h, offset as int, i as int),
                decreases width - i,
            {
                proof {
                    reveal_strlit(" ");
                }
                buffer.prepend(offset, " ", Style::NoStyle);
                i = i + 1;
            }
            assert(buffer@ == reporter_location(g_start, *self.cm, group.0 as int, primary_lo, width as int));
            gutter(&mut buffer, offset + 1, width + 1);
            let ghost h2 = buffer@;

            let mut li: usize = 0;
            while li < n
                invariant
                    self.wf(),
                    well_grouped(annotated_files@, self.span_labels@, self.cm.num_files()),
                    fi < annotated_files@.len(),
                    annotated_file == annotated_files@[fi as int],
                    n == annotated_file.lines@.len(),
                    n <= LIMIT,
                    annotated_file.file < self.cm.num_files(),
                    li <= n,
                    1 <= width <= 20,
                    grid::rows_within(buffer@, ROW_WIDTH as int),
                    nl == self.span_labels@.len(),
                    group == groups[fi as int],
                    groups.len() == annotated_files@.len(),
                    forall|a: int, b: int| 0 <= a < b < groups.len() ==> groups[a].0 != groups[b].0,
                    forall|a: int, j: int| 0 <= a < groups.len() && 0 <= j < groups[a].1.len() ==>
                        (#[trigger] groups[a].1[j]).1 == anns_on(*self.cm, self.span_labels@, groups[a].0 as int, groups[a].1[j].0 as int, nl),
                    consumed.finite(),
                    consumed.subset_of(set_int_range(0, nl)),
                    forall|k: int| #[trigger] consumed.contains(k) ==> (exists|i: int| 0 <= i < fi
                        && (#[trigger] groups[i]).0 == start_loc(*self.cm, self.span_labels@[k]).file)
                        || (start_loc(*self.cm, self.span_labels@[k]).file == group.0 && forall|j: int| li <= j < n
                            ==> start_loc(*self.cm, self.span_labels@[k]).line < (#[trigger] group.1[j]).0),
                    1 <= buffer@.len() <= 1 + 3 * (fi + 1) + 5 * consumed.len(),
                    group == group_view(annotated_files@[fi as int]),
                    buffer@ == plain_lines(h2, *self.cm, self.span_labels@, group.0 as int, group.1, 3 + width, li as int),
                decreases n - li,
            {
                let line = &annotated_file.lines[li];
                assert(group.1[li as int] == (line.line_number, line.annotations@));
                proof {
                    lemma_int_range(0, nl);
                    lemma_len_subset(consumed, set_int_range(0, nl));
                }
                assert(1 <= annotated_files@[fi as int].lines@[li as int].annotations@.len());
                assert(1 <= annotated_files@[fi as int].lines@[li as int].line_number <= LIMIT + 1);
                assert(annotated_files@[fi as int].lines@[li as int].annotations@.len() <= self.span_labels@.len());
                assert forall|a: int| 0 <= a < line.annotations@.len() implies good_annotation(#[trigger] line.annotations@[a], self.span_labels@) by {
                    assert(good_annotation(annotated_files@[fi as int].lines@[li as int].annotations@[a], self.span_labels@));
                }
                render_source_line(&self.cm, &self.span_labels, &mut buffer, annotated_file.file, line, 3 + width,
                    RenderMode::Modern);
                proof {
                    let f = group.0 as int;
                    let ln = group.1[li as int].0 as int;
                    let here = labels_on(self.code_map(), self.span_labels@, f, ln, nl);
                    lemma_labels_on(self.code_map(), self.span_labels@, f, ln, nl);
                    assert(groups[fi as int].1[li as int] == group.1[li as int]);
                    assert(group.1[li as int].1 == anns_on(*self.cm, self.span_labels@, f, ln, nl));
                    assert(here.len() == line.annotations@.len());
                    assert forall|k: int| !(consumed.contains(k) && here.contains(k)) by {
                        if consumed.contains(k) && here.contains(k) {
                            if exists|i: int| 0 <= i < fi && (#[trigger] groups[i]).0 == start_loc(*self.cm, self.span_labels@[k]).file {
                                let i = choose|i: int| 0 <= i < fi && (#[trigger] groups[i]).0 == start_loc(*self.cm, self.span_labels@[k]).file;
                                assert(groups[i].0 != groups[fi as int].0);
                            } else {
                                assert(start_loc(*self.cm, self.span_labels@[k]).line < group.1[li as int].0);
                            }
                        }
                    }
                    assert(consumed.disjoint(here));
                    lemma_set_disjoint_lens(consumed, here);
                    let old_consumed = consumed;
                    consumed = consumed + here;
                    assert forall|k: int| #[trigger] consumed.contains(k) implies (exists|i: int| 0 <= i < fi
                        && (#[trigger] groups[i]).0 == start_loc(*self.cm, self.span_labels@[k]).file)
                        || (start_loc(*self.cm, self.span_labels@[k]).file == group.0 && forall|j: int| li + 1 <= j < n
                            ==> start_loc(*self.cm, self.span_labels@[k]).line < (#[trigger] group.1[j]).0) by {
                        if here.contains(k) {
                            assert forall|j: int| li + 1 <= j < n implies start_loc(*self.cm, self.span_labels@[k]).line < (#[trigger] group.1[j]).0 by {
                                assert(annotated_files@[fi as int].lines@[li as int].line_number < annotated_files@[fi as int].lines@[j].line_number);
                            }
                        } else {
                            assert(old_consumed.contains(k));
                        }
                    }
                    assert(consumed.subset_of(set_int_range(0, nl)));
                }
                li = li + 1;
            }
            assert(buffer@ == reporter_file(g_start, *self.cm, self.span_labels@, group, primary_lo, width as int));
            assert forall|k: int| #[trigger] consumed.contains(k) implies exists|i: int| 0 <= i < fi + 1
                && (#[trigger] groups[i]).0 == start_loc(*self.cm, self.span_labels@[k]).file by {
                if !(exists|i: int| 0 <= i < fi && (#[trigger] groups[i]).0 == start_loc(*self.cm, self.span_labels@[k]).file) {
                    assert(groups[fi as int].0 == start_loc(*self.cm, self.span_labels@[k]).file);
                }
            }
            fi = fi + 1;
        }
        let r = buffer.render();
        assert(grid::compact(buffer@).len() == buffer@.len());
        r
    }
}

} // verus!
