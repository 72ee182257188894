use std::rc::Rc;

use succinct_diagnostics::annotations::Annotation;
use succinct_diagnostics::codemap::{CodeMap, Loc, Span};
use succinct_diagnostics::compiler_message::CompilerMessage;
use succinct_diagnostics::layout::{gap_between, get_max_line_num, gutter_width, overlaps, sort_annotations, Gap};
use succinct_diagnostics::styled_buffer::{Level, Style, StyledBuffer};
use succinct_diagnostics::text_buffer_2d::{Style as Style2D, TextBuffer2D};

fn ann(start_col: usize, end_col: usize, label: Option<usize>) -> Annotation {
    Annotation { start_col, end_col, is_primary: false, is_minimized: false, label }
}

#[test]
fn level_names() {
    assert_eq!(Level::Bug.to_string(), "error: internal compiler error");
    assert_eq!(Level::Fatal.to_string(), "error");
    assert_eq!(Level::PhaseFatal.to_string(), "error");
    assert_eq!(Level::Error.to_string(), "error");
    assert_eq!(Level::Warning.to_string(), "warning");
    assert_eq!(Level::Note.to_string(), "note");
    assert_eq!(Level::Help.to_string(), "help");
}

#[test]
fn putc_pads_with_spaces_and_tabs() {
    let mut b = StyledBuffer::new();
    b.puts(0, 0, "\ta", Style::Quotation);
    b.putc(1, 3, 'x', Style::LineNumber);
    let out = b.render();
    assert_eq!(out.len(), 2);
    assert_eq!(out[1].len(), 2);
    assert_eq!(out[1][0].text, "\t  ");
    assert_eq!(out[1][0].style, Style::NoStyle);
    assert_eq!(out[1][1].text, "x");
    assert_eq!(out[1][1].style, Style::LineNumber);
    assert_eq!(b.num_lines(), 2);
}

#[test]
fn render_merges_equal_styles() {
    let mut b = StyledBuffer::new();
    b.puts(0, 0, "ab", Style::Quotation);
    b.puts(0, 2, "cd", Style::Quotation);
    b.puts(0, 4, "e", Style::LineNumber);
    b.puts(2, 0, "z", Style::NoStyle);
    let out = b.render();
    assert_eq!(out.len(), 3);
    assert_eq!(out[0].len(), 2);
    assert_eq!(out[0][0].text, "abcd");
    assert_eq!(out[0][1].text, "e");
    assert_eq!(out[1].len(), 0);
    assert_eq!(out[2][0].text, "z");
}

#[test]
fn set_style_only_touches_existing_cells() {
    let mut b = StyledBuffer::new();
    b.puts(0, 0, "ab", Style::Quotation);
    b.set_style(0, 1, Style::UnderlinePrimary);
    b.set_style(0, 5, Style::UnderlinePrimary);
    b.set_style(3, 0, Style::UnderlinePrimary);
    let out = b.render();
    assert_eq!(out.len(), 1);
    assert_eq!(out[0][0].text, "a");
    assert_eq!(out[0][1].text, "b");
    assert_eq!(out[0][1].style, Style::UnderlinePrimary);
}

#[test]
fn prepend_and_append() {
    let mut b = StyledBuffer::new();
    b.append(1, "name", Style::LineAndColumn);
    b.prepend(1, "--> ", Style::LineNumber);
    b.append(1, "!", Style::NoStyle);
    let out = b.render();
    let row: Vec<&str> = out[1].iter().map(|s| &s.text[..]).collect();
    assert_eq!(row, vec!["--> ", "name", "!"]);
}

#[test]
fn text_buffer_2d_writes_and_appends() {
    let mut b = TextBuffer2D::new();
    b.puts(0, 2, "ab", Style2D::Quotation);
    b.append(0, "c", Style2D::LineNumber);
    b.set_style(0, 0, Style2D::LineNumber);
    b.putc(1, 0, 'z', Style2D::NoStyle);
    let out = b.render();
    assert_eq!(out.len(), 2);
    let row: Vec<&str> = out[0].iter().map(|s| &s.text[..]).collect();
    assert_eq!(row, vec![" ", " ", "ab", "c"]);
    assert_eq!(out[1][0].text, "z");
}

#[test]
fn code_map_positions() {
    let mut cm = CodeMap::new();
    let a = cm.new_filemap_and_lines("a.rs", "ab\ncd\n");
    let b = cm.new_filemap_and_lines("b.rs", "xyz");
    assert_eq!(a, 0);
    assert_eq!(b, 7);
    assert_eq!(cm.lookup_char_pos(4), Loc { file: 0, line: 2, col: 1 });
    assert_eq!(cm.lookup_char_pos(8), Loc { file: 1, line: 1, col: 1 });
    assert_eq!(cm.get_line(0, 1).map(|l| l.iter().collect::<String>()), Some(String::from("cd")));
    assert_eq!(cm.get_line(0, 3), None);
    assert_eq!(cm.file_name(1), "b.rs");
}

#[test]
fn gaps_between_lines() {
    assert_eq!(gap_between(4, 5), Gap::Adjacent);
    assert_eq!(gap_between(4, 6), Gap::OneLine(5));
    assert_eq!(gap_between(4, 7), Gap::Elided);
    assert_eq!(gap_between(5, 15), Gap::Elided);
}

#[test]
fn overlap_rule() {
    let a = ann(0, 8, None);
    let b = ann(7, 10, Some(0));
    assert!(overlaps(&a, &b));
    assert!(overlaps(&b, &a));
    assert!(!overlaps(&ann(0, 3, None), &ann(3, 5, None)));
}

#[test]
fn annotations_sort_by_columns() {
    let v = vec![ann(5, 6, None), ann(1, 4, Some(1)), ann(1, 2, None), ann(1, 4, Some(0))];
    let s = sort_annotations(&v);
    assert_eq!(s, vec![ann(1, 2, None), ann(1, 4, Some(1)), ann(1, 4, Some(0)), ann(5, 6, None)]);
}

#[test]
fn gutter_follows_largest_line_of_all_files() {
    let mut cm = CodeMap::new();
    let text = "a\nb\nc\nd\ne\nf\ng\nh\ni\nj\nk\n";
    let f = cm.new_filemap_and_lines("f.rs", text);
    let g = cm.new_filemap_and_lines("g.rs", "q\n");
    let first = Span { lo: f, hi: f + 1 };
    let mut err = CompilerMessage::new(Level::Error, String::from("m"), Span { lo: g, hi: g + 1 }, None, Rc::new(cm));
    err.span_label(Span { lo: g, hi: g + 1 }, None);
    assert_eq!(get_max_line_num(&err), 1);
    assert_eq!(gutter_width(&err), 1);
    err.span_label(first, None);
    err.span_label(Span { lo: f + 20, hi: f + 21 }, None);
    assert_eq!(get_max_line_num(&err), 11);
    assert_eq!(gutter_width(&err), 2);
}
