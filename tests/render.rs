use std::rc::Rc;

use succinct_diagnostics::codemap::{CodeMap, Span};
use succinct_diagnostics::compiler_message::CompilerMessage;
use succinct_diagnostics::error_reporter::ErrorReporter;
use succinct_diagnostics::render_succinct::{render_succinct, render_succinct_in, RenderMode};
use succinct_diagnostics::styled_buffer::{Level, Style, StyledString};

/// The span of the `n`-th occurrence (from 0) of `substring` in `source_text`,
/// a file that starts at position `start`.
fn span_substr(start: usize, source_text: &str, substring: &str, n: usize) -> Span {
    let mut i = 0;
    let mut hi = 0;
    loop {
        let offset = source_text[hi..].find(substring).unwrap_or_else(|| {
            panic!(
                "source_text `{}` does not have {} occurrences of `{}`, only {}",
                source_text, n, substring, i
            );
        });
        let lo = hi + offset;
        hi = lo + substring.len();
        if i == n {
            return Span { lo: start + lo, hi: start + hi };
        }
        i += 1;
    }
}

fn make_string(lines: Vec<Vec<StyledString>>) -> String {
    lines
        .iter()
        .flat_map(|rl| rl.iter().map(|s| &s.text[..]).chain(Some("\n")))
        .collect()
}

#[test]
fn test_ellipsis() {
    let file_text = r#"
fn foo() {
    //blah blah
    //blah blah
    vec.pop();
    //blah blah
    //blah blah
    //blah blah
    //blah blah
    //blah blah
    //blah blah
    //blah blah
    //blah blah
    //blah blah
    vec.push(vec.pop().unwrap());
}
"#;
    let mut cm = CodeMap::new();
    let foo = cm.new_filemap_and_lines("foo.rs", file_text);
    let span_vec1 = span_substr(foo, file_text, "vec", 0);
    let span_vec0 = span_substr(foo, file_text, "vec", 1);
    let error_code = Some("E123".to_string());

    let mut err = CompilerMessage::new(
        Level::Error,
        String::from("Unresolved name"),
        span_vec0,
        error_code,
        Rc::new(cm),
    );

    err.span_label(span_vec0, Some(String::from("primary message")));
    err.span_label(span_vec1, Some(String::from("secondary message")));

    let msg = render_succinct(&err);
    let text = make_string(msg);

    assert_eq!(
        &text[..],
        &r#"
error: Unresolved name [E123]
  --> foo.rs:15:4
   |>
5  |>    vec.pop();
   |>    --- secondary message
...
15 |>    vec.push(vec.pop().unwrap());
   |>    ^^^ primary message
"#[1..]
    );
}

#[test]
fn test_warning() {
    let file_text = r#"
fn foo() {
    vec.push(1);
    vec.push(2);
    vec.push(3);
    vec.push(4);
    vec.push(5);
    vec.push(6);
}
"#;
    let mut cm = CodeMap::new();
    let foo = cm.new_filemap_and_lines("foo.rs", file_text);
    let span_vec1 = span_substr(foo, file_text, "vec", 2);
    let span_vec0 = span_substr(foo, file_text, "vec", 4);
    let error_code = Some("E123".to_string());

    let mut err = CompilerMessage::new(
        Level::Warning,
        String::from("Not sure what this is"),
        span_vec0,
        error_code,
        Rc::new(cm),
    );

    err.span_label(span_vec0, Some(String::from("primary message")));
    err.span_label(span_vec1, Some(String::from("secondary message")));

    let msg = render_succinct(&err);
    let text = make_string(msg);

    assert_eq!(
        &text[..],
        &r#"
warning: Not sure what this is [E123]
 --> foo.rs:7:4
  |>
5 |>    vec.push(3);
  |>    --- secondary message
6 |>    vec.push(4);
7 |>    vec.push(5);
  |>    ^^^ primary message
"#[1..]
    );
}

#[test]
fn test_column_different_line_num_sizes() {
    let file_text = r#"
fn foo() {
    vec.push(vec.pop().unwrap());
}
"#;
    let file_text2 = r#"
fn bar() {
    //comment line
    //comment line
    //comment line
    //comment line
    //comment line
    //comment line
    //comment line
    //comment line
    //comment line
    vec2.push(vec2.pop().unwrap());
}
"#;
    let mut cm = CodeMap::new();
    let bar = cm.new_filemap_and_lines("bar.rs", file_text2);
    let foo = cm.new_filemap_and_lines("foo.rs", file_text);
    let span_vec1 = span_substr(foo, file_text, "vec", 0);
    let span_vec0 = span_substr(foo, file_text, "vec", 1);
    let span_vec2 = span_substr(bar, file_text2, "vec2", 1);
    let error_code = Some("E123".to_string());

    let mut err = CompilerMessage::new(
        Level::Warning,
        String::from("Not sure what this is"),
        span_vec0,
        error_code,
        Rc::new(cm),
    );

    err.span_label(span_vec0, Some(String::from("primary message")));
    err.span_label(span_vec1, Some(String::from("secondary message")));
    err.span_label(span_vec2, Some(String::from("tertiary message")));

    let msg = render_succinct(&err);
    let text = make_string(msg);

    assert_eq!(
        &text[..],
        &r#"
warning: Not sure what this is [E123]
  --> foo.rs:3:13
   |>
3  |>    vec.push(vec.pop().unwrap());
   |>    ---      ^^^ primary message
   |>    |
   |>    secondary message
   |>
  ::: bar.rs
   |>
12 |>    vec2.push(vec2.pop().unwrap());
   |>              ---- tertiary message
"#[1..]
    );
}

#[test]
fn test_notes() {
    let file_text = r#"
fn foo() {
    vec.push(vec.pop().unwrap());
}
"#;
    let mut cm = CodeMap::new();
    let foo = cm.new_filemap_and_lines("foo.rs", file_text);
    let span_vec1 = span_substr(foo, file_text, "vec", 0);
    let span_vec0 = span_substr(foo, file_text, "vec", 1);
    let error_code = Some("E123".to_string());

    let mut err = CompilerMessage::new(
        Level::Error,
        String::from("Not sure what this is"),
        span_vec0,
        error_code,
        Rc::new(cm),
    );

    err.span_label(span_vec0, Some(String::from("primary message")));
    err.span_label(span_vec1, Some(String::from("secondary message")));
    err.note(String::from("Are you sure you want to call it `vec`?"));

    let msg = render_succinct(&err);
    let text = make_string(msg);

    assert_eq!(
        &text[..],
        &r#"
error: Not sure what this is [E123]
 --> foo.rs:3:13
  |>
3 |>    vec.push(vec.pop().unwrap());
  |>    ---      ^^^ primary message
  |>    |
  |>    secondary message
  |>
  => note: Are you sure you want to call it `vec`?
"#[1..]
    );
}

#[test]
fn rendering_twice_gives_the_same_output() {
    let file_text = "fn f() {\n    let x = y;\n}\n";
    let mut cm = CodeMap::new();
    let f = cm.new_filemap_and_lines("f.rs", file_text);
    let span = span_substr(f, file_text, "y", 0);
    let mut err = CompilerMessage::new(Level::Error, String::from("oops"), span, None, Rc::new(cm));
    err.span_label(span, Some(String::from("here")));
    err.note(String::from("a note"));
    let first = render_succinct(&err);
    let second = render_succinct(&err);
    assert_eq!(first.len(), second.len());
    for (a, b) in first.iter().zip(second.iter()) {
        assert_eq!(a.len(), b.len());
        for (x, y) in a.iter().zip(b.iter()) {
            assert_eq!(x.text, y.text);
            assert_eq!(x.style, y.style);
        }
    }
}

#[test]
fn overlapping_label_hangs_below() {
    let file_text = "fn foo(x: u32) {\n}\n";
    let mut cm = CodeMap::new();
    let f = cm.new_filemap_and_lines("a.rs", file_text);
    let fn_span = Span { lo: f, hi: f + 8 };
    let x_span = Span { lo: f + 7, hi: f + 10 };
    let mut err = CompilerMessage::new(Level::Error, String::from("m"), fn_span, None, Rc::new(cm));
    err.span_label(fn_span, None);
    err.span_label(x_span, Some(String::from("x_span")));
    let text = make_string(render_succinct(&err));
    assert_eq!(
        &text[..],
        "error: m\n --> a.rs:1:0\n  |>\n1 |>fn foo(x: u32) {\n  |>^^^^^^^---\n  |>       |\n  |>       x_span\n"
    );
}

#[test]
fn primary_file_comes_first() {
    let text_a = "a\n";
    let text_b = "b\n";
    let mut cm = CodeMap::new();
    let a = cm.new_filemap_and_lines("a.rs", text_a);
    let b = cm.new_filemap_and_lines("b.rs", text_b);
    let span_a = span_substr(a, text_a, "a", 0);
    let span_b = span_substr(b, text_b, "b", 0);
    let mut err = CompilerMessage::new(Level::Error, String::from("m"), span_b, None, Rc::new(cm));
    err.span_label(span_a, Some(String::from("in a")));
    err.span_label(span_b, Some(String::from("in b")));
    let text = make_string(render_succinct(&err));
    assert_eq!(
        &text[..],
        "error: m\n --> b.rs:1:0\n  |>\n1 |>b\n  |>^ in b\n  |>\n ::: a.rs\n  |>\n1 |>a\n  |>- in a\n"
    );
}

#[test]
fn adjacent_lines_have_nothing_between() {
    let file_text = "x\ny\n";
    let mut cm = CodeMap::new();
    let f = cm.new_filemap_and_lines("f.rs", file_text);
    let sx = span_substr(f, file_text, "x", 0);
    let sy = span_substr(f, file_text, "y", 0);
    let mut err = CompilerMessage::new(Level::Note, String::from("m"), sy, None, Rc::new(cm));
    err.span_label(sx, None);
    err.span_label(sy, None);
    let text = make_string(render_succinct(&err));
    assert_eq!(&text[..], "note: m\n --> f.rs:2:0\n  |>\n1 |>x\n  |>-\n2 |>y\n  |>^\n");
}

#[test]
fn empty_span_shows_one_caret() {
    let file_text = "abc\n";
    let mut cm = CodeMap::new();
    let f = cm.new_filemap_and_lines("f.rs", file_text);
    let span = Span { lo: f + 1, hi: f + 1 };
    let mut err = CompilerMessage::new(Level::Help, String::from("m"), span, None, Rc::new(cm));
    err.span_label(span, Some(String::from("here")));
    let text = make_string(render_succinct(&err));
    assert_eq!(&text[..], "help: m\n --> f.rs:1:1\n  |>\n1 |>abc\n  |> ^ here\n");
}

#[test]
fn multi_line_span_is_minimized() {
    let file_text = "abc\ndef\n";
    let mut cm = CodeMap::new();
    let f = cm.new_filemap_and_lines("f.rs", file_text);
    let span = Span { lo: f + 1, hi: f + 6 };
    let mut err = CompilerMessage::new(Level::Error, String::from("m"), span, None, Rc::new(cm));
    err.span_label(span, None);
    let out = render_succinct(&err);
    let text = make_string(out);
    assert_eq!(&text[..], "error: m\n --> f.rs:1:1\n  |>\n1 |>abc\n  |> ^\n");
}

#[test]
fn primary_columns_are_restyled_in_the_source() {
    let file_text = "abc\n";
    let mut cm = CodeMap::new();
    let f = cm.new_filemap_and_lines("f.rs", file_text);
    let span = Span { lo: f + 1, hi: f + 2 };
    let mut err = CompilerMessage::new(Level::Error, String::from("m"), span, None, Rc::new(cm));
    err.span_label(span, None);
    let out = render_succinct(&err);
    let source_row = &out[3];
    let texts: Vec<&str> = source_row.iter().map(|s| &s.text[..]).collect();
    assert_eq!(texts, vec!["1", " ", "|>", "a", "b", "c"]);
    assert_eq!(source_row[4].style, Style::UnderlinePrimary);
    assert_eq!(source_row[3].style, Style::Quotation);
}

#[test]
fn error_reporter_renders_without_gaps() {
    let file_text = r#"
fn foo() {
    vec.push(vec.pop().unwrap());
}
"#;
    let mut cm = CodeMap::new();
    let foo = cm.new_filemap_and_lines("foo.rs", file_text);
    let span_vec1 = span_substr(foo, file_text, "vec", 0);
    let span_vec0 = span_substr(foo, file_text, "vec", 1);
    let mut err = ErrorReporter::new(Level::Warning, String::from("Not sure what this is"), span_vec0, Rc::new(cm));
    err.span_label(span_vec0, Some(String::from("primary message")));
    err.span_label(span_vec1, Some(String::from("secondary message")));
    let text = make_string(err.render());
    assert_eq!(
        &text[..],
        "warning: Not sure what this is\n --> foo.rs:3:13\n  |>\n3 |>    vec.push(vec.pop().unwrap());\n  |>    ---      ^^^ primary message\n  |>    |\n  |>    secondary message\n"
    );
}

#[test]
fn old_school_mode_draws_carets_and_tildes_without_labels() {
    let file_text = "abcdef\n";
    let mut cm = CodeMap::new();
    let f = cm.new_filemap_and_lines("f.rs", file_text);
    let primary = Span { lo: f + 1, hi: f + 4 };
    let other = Span { lo: f + 5, hi: f + 6 };
    let mut err = CompilerMessage::new(Level::Error, String::from("m"), primary, None, Rc::new(cm));
    err.span_label(primary, Some(String::from("label")));
    err.span_label(other, None);
    let out = render_succinct_in(&err, RenderMode::OldSchool);
    let marker_row = &out[4];
    assert_eq!(marker_row.last().unwrap().style, Style::OldSchoolNote);
    let text = make_string(out);
    assert_eq!(&text[..], "error: m\n --> f.rs:1:1\n  |>\n1 |>abcdef\n  |> ^~~ ^\n");
    let modern = make_string(render_succinct_in(&err, RenderMode::Modern));
    assert_eq!(modern, make_string(render_succinct(&err)));
}

#[test]
fn error_reporter_uses_one_gutter_width_for_all_files() {
    let file_text = "\nfn foo() {\n    vec.push(vec.pop().unwrap());\n}\n";
    let file_text2 = "\nfn bar() {\n    //c\n    //c\n    //c\n    //c\n    //c\n    //c\n    //c\n    //c\n    //c\n    vec2.push(vec2.pop().unwrap());\n}\n";
    let mut cm = CodeMap::new();
    let bar = cm.new_filemap_and_lines("bar.rs", file_text2);
    let foo = cm.new_filemap_and_lines("foo.rs", file_text);
    let span_vec1 = span_substr(foo, file_text, "vec", 0);
    let span_vec0 = span_substr(foo, file_text, "vec", 1);
    let span_vec2 = span_substr(bar, file_text2, "vec2", 1);
    let mut err = ErrorReporter::new(Level::Warning, String::from("Not sure what this is"), span_vec0, Rc::new(cm));
    err.span_label(span_vec0, Some(String::from("primary message")));
    err.span_label(span_vec1, Some(String::from("secondary message")));
    err.span_label(span_vec2, Some(String::from("tertiary message")));
    let text = make_string(err.render());
    assert_eq!(
        &text[..],
        "warning: Not sure what this is\n  --> foo.rs:3:13\n   |>\n3  |>    vec.push(vec.pop().unwrap());\n   |>    ---      ^^^ primary message\n   |>    |\n   |>    secondary message\n  ::: bar.rs\n   |>\n12 |>    vec2.push(vec2.pop().unwrap());\n   |>              ---- tertiary message\n"
    );
}
