//! A simpler styled canvas: writing, restyling and appending, without
//! insertion at the start of a row.
use vstd::prelude::*;
use crate::grid;
use crate::text::{chars_of, string_of};

verus! {

/// The severity of a diagnostic.
#[derive(Copy, Clone, Debug, PartialEq, Eq, Structural)]
pub enum Level {
    Bug,
    Fatal,
    /// An error which, while not immediately fatal, stops the compiler from
    /// progressing beyond the current phase.
    PhaseFatal,
    Error,
    Warning,
    Note,
    Help,
    Cancelled,
}

/// What a piece of text stands for; a terminal writer picks the presentation.
#[derive(Copy, Clone, Debug, PartialEq, Eq, Structural)]
pub enum Style {
    FileNameStyle,
    LineAndColumn,
    LineNumber,
    Quotation,
    UnderlinePrimary,
    UnderlineSecondary,
    LabelPrimary,
    LabelSecondary,
    OldSkoolNoteText,
    OldSkoolNote,
    NoStyle,
    Level(Level),
}

/// One run of text in a single style.
#[derive(Debug)]
pub struct StyledString {
    pub text: String,
    pub style: Style,
}

/// A canvas of styled characters, addressed by row and column.
#[derive(Debug)]
pub struct TextBuffer2D {
    cells: Vec<Vec<(char, Style)>>,
}

/// The runs of a rendered canvas, as (text, style) pairs.
pub open spec fn rendered(r: Seq<Vec<StyledString>>) -> Seq<Seq<(Seq<char>, Style)>> {
    Seq::new(r.len(), |i: int| Seq::new(r[i]@.len(), |j: int| (r[i]@[j].text@, r[i]@[j].style)))
}

impl View for TextBuffer2D {
    type V = Seq<Seq<(char, Style)>>;

    closed spec fn view(&self) -> Seq<Seq<(char, Style)>> {
        Seq::new(self.cells@.len(), |i: int| self.cells@[i]@)
    }
}

/// Compacts one row into its runs.
fn render_row(row: &Vec<(char, Style)>) -> (r: Vec<StyledString>)
    ensures
        Seq::new(r@.len(), |j: int| (r@[j].text@, r@[j].style)) == grid::runs(row@),
{
    let mut out: Vec<StyledString> = Vec::new();
    let mut current_style = Style::NoStyle;
    let mut current_text: Vec<char> = Vec::new();
    let mut i: usize = 0;
    while i < row.len()
        invariant
            i <= row@.len(),
            (current_text@.len() == 0) == (i == 0),
            i > 0 ==> current_style == row@[i - 1].1,
            Seq::new(out@.len(), |j: int| (out@[j].text@, out@[j].style)) + (if i == 0 {
                Seq::empty()
            } else {
                seq![(current_text@, current_style)]
            }) == grid::runs(row@.take(i as int)),
        decreases row@.len() - i,
    {
        let (c, s) = row[i];
        let ghost prev_out = Seq::new(out@.len(), |j: int| (out@[j].text@, out@[j].style));
        let ghost prev_text = current_text@;
        let ghost prev_style = current_style;
        let ghost before = grid::runs(row@.take(i as int));
        assert(row@.take(i + 1).drop_last() =~= row@.take(i as int));
        assert(row@.take(i + 1).last() == (c, s));
        if s != current_style {
            if current_text.len() > 0 {
                let t = string_of(&current_text);
                out.push(StyledString { text: t, style: current_style });
                assert(Seq::new(out@.len(), |j: int| (out@[j].text@, out@[j].style)) =~= prev_out.push(
                    (prev_text, prev_style),
                ));
            }
            current_style = s;
            current_text = Vec::new();
        }
        current_text.push(c);
        i = i + 1;
        proof {
            let now = Seq::new(out@.len(), |j: int| (out@[j].text@, out@[j].style));
            let after = grid::runs(row@.take(i as int));
            if i == 1 {
                assert(before =~= Seq::empty());
                assert(now =~= Seq::empty());
                assert(current_text@ =~= seq![c]);
                assert(after =~= seq![(seq![c], s)]);
                assert(now + seq![(current_text@, current_style)] =~= after);
            } else if s == prev_style {
                assert(before =~= prev_out + seq![(prev_text, prev_style)]);
                assert(before.last() == (prev_text, prev_style));
                assert(now + seq![(current_text@, current_style)] =~= after);
            } else {
                assert(before =~= prev_out + seq![(prev_text, prev_style)]);
                assert(now + seq![(current_text@, current_style)] =~= after);
            }
        }
    }
    if current_text.len() > 0 {
        let ghost prev_out = Seq::new(out@.len(), |j: int| (out@[j].text@, out@[j].style));
        let t = string_of(&current_text);
        out.push(StyledString { text: t, style: current_style });
        assert(Seq::new(out@.len(), |j: int| (out@[j].text@, out@[j].style)) =~= prev_out.push(
            (current_text@, current_style),
        ));
    }
    assert(row@.take(row@.len() as int) =~= row@);
    proof {
        if i == 0 {
            assert(Seq::new(out@.len(), |j: int| (out@[j].text@, out@[j].style)) + Seq::empty()
                =~= Seq::new(out@.len(), |j: int| (out@[j].text@, out@[j].style)));
        }
    }
    out
}

impl TextBuffer2D {
    pub fn new() -> (r: TextBuffer2D)
        ensures
            r@ == Seq::<Seq<(char, Style)>>::empty(),
    {
        let r = TextBuffer2D { cells: Vec::new() };
        assert(r@ =~= Seq::<Seq<(char, Style)>>::empty());
        r
    }

    /// Every row compacted into runs of equal style, rows in order.
    pub fn render(&self) -> (r: Vec<Vec<StyledString>>)
        ensures
            rendered(r@) == grid::compact(self@),
    {
        let mut out: Vec<Vec<StyledString>> = Vec::new();
        let mut i: usize = 0;
        while i < self.cells.len()
            invariant
                i <= self.cells@.len(),
                out@.len() == i,
                rendered(out@) == grid::compact(self@).take(i as int),
            decreases self.cells@.len() - i,
        {
            let row = render_row(&self.cells[i]);
            let ghost prev = rendered(out@);
            out.push(row);
            assert(rendered(out@) =~= grid::compact(self@).take(i + 1)) by {
                assert(rendered(out@)[i as int] =~= grid::runs(self@[i as int]));
                assert(forall|k: int| 0 <= k < i ==> rendered(out@)[k] == prev[k]);
            }
            i = i + 1;
        }
        assert(grid::compact(self@).take(i as int) =~= grid::compact(self@));
        out
    }

    fn ensure_lines(&mut self, line: usize)
        ensures
            final(self)@ == grid::with_lines(old(self)@, line as int),
    {
        while line >= self.cells.len()
            invariant
                grid::with_lines(self@, line as int) == grid::with_lines(old(self)@, line as int),
            decreases line + 1 - self.cells@.len(),
        {
            proof {
                grid::lemma_with_lines(self@, line as int);
            }
            let ghost prev = self@;
            self.cells.push(Vec::new());
            proof {
                grid::lemma_with_lines(self@, line as int);
            }
            assert(grid::with_lines(self@, line as int) =~= grid::with_lines(prev, line as int));
        }
        proof {
            grid::lemma_with_lines(self@, line as int);
            assert(grid::with_lines(self@, line as int) == self@);
        }
    }

    /// Writes one cell, growing the canvas and padding the row as needed.
    pub fn putc(&mut self, line: usize, col: usize, chr: char, style: Style)
        requires
            col < usize::MAX,
        ensures
            final(self)@ == grid::put_char(old(self)@, line as int, col as int, chr, style, Style::NoStyle),
            final(self)@.len() == if line < old(self)@.len() { old(self)@.len() as int } else { line + 1 },
            grid::same_except(old(self)@, final(self)@, line as int),
            grid::row_len(final(self)@, line as int) == if col < grid::row_len(old(self)@, line as int) {
                grid::row_len(old(self)@, line as int)
            } else {
                col + 1
            },
            forall|w: int| grid::rows_within(old(self)@, w) && col + 1 <= w ==> #[trigger] grid::rows_within(final(self)@, w),
    {
        proof {
            grid::lemma_put_char(old(self)@, line as int, col as int, chr, style, Style::NoStyle);
            assert forall|w: int| grid::rows_within(old(self)@, w) && col + 1 <= w implies #[trigger] grid::rows_within(
                grid::put_char(old(self)@, line as int, col as int, chr, style, Style::NoStyle), w) by {
                let h = grid::put_char(old(self)@, line as int, col as int, chr, style, Style::NoStyle);
                grid::lemma_rows_within_edit(old(self)@, h, line as int, w);
            }
        }
        self.ensure_lines(line);
        proof {
            grid::lemma_with_lines(old(self)@, line as int);
        }
        let ghost h = self@;
        assert(line < self.cells@.len());
        if col < self.cells[line].len() {
            self.cells[line].set(col, (chr, style));
            assert(self@ =~= h.update(line as int, h[line as int].update(col as int, (chr, style))));
        } else {
            let mut i = self.cells[line].len();
            let ghost row0 = h[line as int];
            while i < col
                invariant
                    line < self.cells@.len(),
                    self.cells@.len() == h.len(),
                    row0.len() <= i <= col,
                    forall|k: int| 0 <= k < h.len() && k != line ==> self.cells@[k]@ == h[k],
                    self.cells@[line as int]@ == grid::padded_row(h, row0, i as int, Style::NoStyle),
                    h == grid::with_lines(old(self)@, line as int),
                    row0 == h[line as int],
                decreases col - i,
            {
                let pad = if self.cells[0].len() > i && self.cells[0][i].0 == '\t' {
                    '\t'
                } else {
                    ' '
                };
                assert(pad == grid::pad_char(h, i as int)) by {
                    if line != 0 {
                        assert(self.cells@[0]@ == h[0]);
                    } else {
                        assert(self.cells@[0]@.len() == i);
                    }
                }
                self.cells[line].push((pad, Style::NoStyle));
                i = i + 1;
                assert(self.cells@[line as int]@ =~= grid::padded_row(h, row0, i as int, Style::NoStyle));
            }
            self.cells[line].push((chr, style));
            assert(self@ =~= h.update(line as int, grid::padded_row(h, row0, col as int, Style::NoStyle).push((chr, style))));
        }
    }

    /// Writes `s` from column `col` onwards, one column per character.
    fn put_chars(&mut self, line: usize, col: usize, s: &Vec<char>, style: Style)
        requires
            col + s@.len() < usize::MAX,
        ensures
            final(self)@ == grid::put_str(old(self)@, line as int, col as int, s@, style, Style::NoStyle),
            final(self)@.len() == if line < old(self)@.len() || s@.len() == 0 { old(self)@.len() as int } else { line + 1 },
            grid::same_except(old(self)@, final(self)@, line as int),
            grid::row_len(final(self)@, line as int) == if s@.len() == 0 || col + s@.len() <= grid::row_len(old(self)@, line as int) {
                grid::row_len(old(self)@, line as int)
            } else {
                col + s@.len()
            },
            forall|w: int| grid::rows_within(old(self)@, w) && col + s@.len() <= w ==> #[trigger] grid::rows_within(final(self)@, w),
    {
        proof {
            grid::lemma_put_str(old(self)@, line as int, col as int, s@, style, Style::NoStyle);
            assert forall|w: int| grid::rows_within(old(self)@, w) && col + s@.len() <= w implies #[trigger] grid::rows_within(
                grid::put_str(old(self)@, line as int, col as int, s@, style, Style::NoStyle), w) by {
                grid::lemma_rows_within_put_str(old(self)@, line as int, col as int, s@, style, Style::NoStyle, w);
            }
        }
        let mut i: usize = 0;
        while i < s.len()
            invariant
                i <= s@.len(),
                col + s@.len() < usize::MAX,
                self@ == grid::put_str(old(self)@, line as int, col as int, s@.take(i as int), style, Style::NoStyle),
            decreases s@.len() - i,
        {
            self.putc(line, col + i, s[i], style);
            i = i + 1;
            assert(s@.take(i as int).drop_last() =~= s@.take(i - 1));
        }
        assert(s@.take(i as int) =~= s@);
    }

    /// Writes `string` from column `col` onwards, one column per character.
    pub fn puts(&mut self, line: usize, col: usize, string: &str, style: Style)
        requires
            col + string@.len() < usize::MAX,
        ensures
            final(self)@ == grid::put_str(old(self)@, line as int, col as int, string@, style, Style::NoStyle),
            final(self)@.len() == if line < old(self)@.len() || string@.len() == 0 { old(self)@.len() as int } else { line + 1 },
            grid::same_except(old(self)@, final(self)@, line as int),
            grid::row_len(final(self)@, line as int) == if string@.len() == 0 || col + string@.len() <= grid::row_len(old(self)@, line as int) {
                grid::row_len(old(self)@, line as int)
            } else {
                col + string@.len()
            },
            forall|w: int| grid::rows_within(old(self)@, w) && col + string@.len() <= w ==> #[trigger] grid::rows_within(final(self)@, w),
    {
        proof {
            grid::lemma_put_str(old(self)@, line as int, col as int, string@, style, Style::NoStyle);
            assert forall|w: int| grid::rows_within(old(self)@, w) && col + string@.len() <= w implies #[trigger] grid::rows_within(
                grid::put_str(old(self)@, line as int, col as int, string@, style, Style::NoStyle), w) by {
                grid::lemma_rows_within_put_str(old(self)@, line as int, col as int, string@, style, Style::NoStyle, w);
            }
        }
        let s = chars_of(string);
        self.put_chars(line, col, &s, style);
    }

    /// Restyles an existing cell; does nothing where there is no cell.
    pub fn set_style(&mut self, line: usize, col: usize, style: Style)
        ensures
            final(self)@ == grid::set_style(old(self)@, line as int, col as int, style),
            final(self)@.len() == old(self)@.len(),
            grid::same_except(old(self)@, final(self)@, line as int),
            grid::row_len(final(self)@, line as int) == grid::row_len(old(self)@, line as int),
            forall|w: int| grid::rows_within(old(self)@, w) ==> #[trigger] grid::rows_within(final(self)@, w),
    {
        proof {
            grid::lemma_set_style(old(self)@, line as int, col as int, style);
            assert forall|w: int| grid::rows_within(old(self)@, w) implies #[trigger] grid::rows_within(
                grid::set_style(old(self)@, line as int, col as int, style), w) by {
                if line < old(self)@.len() {
                    assert(old(self)@[line as int].len() <= w);
                    grid::lemma_rows_within_edit(old(self)@, grid::set_style(old(self)@, line as int, col as int, style), line as int, w);
                }
            }
        }
        if self.cells.len() > line && self.cells[line].len() > col {
            let c = self.cells[line][col].0;
            self.cells[line].set(col, (c, style));
            assert(self@ =~= grid::set_style(old(self)@, line as int, col as int, style));
        }
    }

    /// Writes `s` right after the last cell of row `line`.
    fn append_chars(&mut self, line: usize, s: &Vec<char>, style: Style)
        requires
            line < self@.len() ==> self@[line as int].len() + s@.len() < usize::MAX,
            s@.len() < usize::MAX,
        ensures
            final(self)@ == grid::append(old(self)@, line as int, s@, style, Style::NoStyle),
            final(self)@.len() == if line < old(self)@.len() || s@.len() == 0 { old(self)@.len() as int } else { line + 1 },
            grid::same_except(old(self)@, final(self)@, line as int),
            grid::row_len(final(self)@, line as int) == grid::row_len(old(self)@, line as int) + s@.len(),
            forall|w: int| grid::rows_within(old(self)@, w) && grid::row_len(old(self)@, line as int) + s@.len() <= w
                ==> #[trigger] grid::rows_within(final(self)@, w),
    {
        proof {
            grid::lemma_append(old(self)@, line as int, s@, style, Style::NoStyle);
            assert forall|w: int| grid::rows_within(old(self)@, w) && grid::row_len(old(self)@, line as int) + s@.len() <= w
                implies #[trigger] grid::rows_within(grid::append(old(self)@, line as int, s@, style, Style::NoStyle), w) by {
                grid::lemma_rows_within_edit(old(self)@, grid::append(old(self)@, line as int, s@, style, Style::NoStyle), line as int, w);
            }
        }
        if line >= self.cells.len() {
            self.put_chars(line, 0, s, style);
        } else {
            let col = self.cells[line].len();
            self.put_chars(line, col, s, style);
        }
    }

    /// Writes `string` right after the last cell of row `line`.
    pub fn append(&mut self, line: usize, string: &str, style: Style)
        requires
            line < self@.len() ==> self@[line as int].len() + string@.len() < usize::MAX,
            string@.len() < usize::MAX,
        ensures
            final(self)@ == grid::append(old(self)@, line as int, string@, style, Style::NoStyle),
            final(self)@.len() == if line < old(self)@.len() || string@.len() == 0 { old(self)@.len() as int } else { line + 1 },
            grid::same_except(old(self)@, final(self)@, line as int),
            grid::row_len(final(self)@, line as int) == grid::row_len(old(self)@, line as int) + string@.len(),
            forall|w: int| grid::rows_within(old(self)@, w) && grid::row_len(old(self)@, line as int) + string@.len() <= w
                ==> #[trigger] grid::rows_within(final(self)@, w),
    {
        proof {
            grid::lemma_append(old(self)@, line as int, string@, style, Style::NoStyle);
            assert forall|w: int| grid::rows_within(old(self)@, w) && grid::row_len(old(self)@, line as int) + string@.len() <= w
                implies #[trigger] grid::rows_within(grid::append(old(self)@, line as int, string@, style, Style::NoStyle), w) by {
                grid::lemma_rows_within_edit(old(self)@, grid::append(old(self)@, line as int, string@, style, Style::NoStyle), line as int, w);
            }
        }
        let s = chars_of(string);
        self.append_chars(line, &s, style);
    }
}

} // verus!
