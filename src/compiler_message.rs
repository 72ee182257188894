//! The diagnostic to be rendered: level, primary location and message,
//! labelled spans and notes.
use vstd::prelude::*;
use std::rc::Rc;
use crate::codemap::{CodeMap, Span, LIMIT};
use crate::styled_buffer::Level;

verus! {

/// One annotation request: a span, whether it is the primary one, and an
/// optional label.
#[derive(Clone, Debug)]
pub struct SpanLabel {
    /// The span to show in the snippet.
    pub span: Span,
    /// Whether this span is the diagnostic's locus, underlined with `^^^`
    /// rather than `---`.
    pub is_primary: bool,
    /// The text shown next to the span, if any.
    pub label: Option<String>,
}

/// A diagnostic: built with `new`, `span_label` and `note`, then rendered.
pub struct CompilerMessage {
    pub level: Level,
    pub primary_span: Span,
    pub primary_msg: String,
    pub span_labels: Vec<SpanLabel>,
    pub notes: Vec<String>,
    pub error_code: Option<String>,
    pub cm: Rc<CodeMap>,
}

/// A span that lies in the code map.
pub open spec fn span_in(cm: CodeMap, s: Span) -> bool {
    s.lo <= s.hi <= cm.end()
}

/// A text of acceptable size, where there is one.
pub open spec fn small_text(t: Option<String>) -> bool {
    t is Some ==> t->0@.len() <= LIMIT
}

impl CompilerMessage {
    /// The code map the spans refer to.
    pub open spec fn code_map(&self) -> CodeMap {
        *self.cm
    }

    /// The message's spans lie in its code map, its texts are of acceptable
    /// size and its level has a name.
    pub open spec fn wf(&self) -> bool {
        &&& self.cm.wf()
        &&& self.cm.num_files() > 0
        &&& self.level != Level::Cancelled
        &&& span_in(*self.cm, self.primary_span)
        &&& self.primary_msg@.len() <= LIMIT
        &&& small_text(self.error_code)
        &&& self.span_labels@.len() <= LIMIT
        &&& self.notes@.len() <= LIMIT
        &&& forall|i: int| 0 <= i < self.span_labels@.len() ==> span_in(*self.cm, #[trigger] self.span_labels@[i].span)
        &&& forall|i: int| 0 <= i < self.span_labels@.len() ==> small_text(#[trigger] self.span_labels@[i].label)
        &&& forall|i: int| 0 <= i < self.notes@.len() ==> (#[trigger] self.notes@[i])@.len() <= LIMIT
    }

    /// Adds a label on `span`; it is primary exactly when `span` is the primary span.
    pub fn span_label(&mut self, span: Span, label: Option<String>) -> (r: &mut CompilerMessage)
        requires
            old(self).wf(),
            span_in(*old(self).cm, span),
            small_text(label),
            old(self).span_labels@.len() < LIMIT,
        ensures
            r.span_labels@ == old(self).span_labels@.push(
                SpanLabel { span: span, is_primary: span == old(self).primary_span, label: label },
            ),
            r.level == old(self).level,
            r.primary_span == old(self).primary_span,
            r.primary_msg == old(self).primary_msg,
            r.notes == old(self).notes,
            r.error_code == old(self).error_code,
            r.cm == old(self).cm,
            r.wf(),
            *final(self) == *final(r),
    {
        let is_primary = span == self.primary_span;
        self.span_labels.push(SpanLabel { span: span, is_primary: is_primary, label: label });
        self
    }

    /// Adds a note.
    pub fn note(&mut self, note: String) -> (r: &mut CompilerMessage)
        requires
            old(self).wf(),
            note@.len() <= LIMIT,
            old(self).notes@.len() < LIMIT,
        ensures
            r.notes@ == old(self).notes@.push(note),
            r.level == old(self).level,
            r.primary_span == old(self).primary_span,
            r.primary_msg == old(self).primary_msg,
            r.span_labels == old(self).span_labels,
            r.error_code == old(self).error_code,
            r.cm == old(self).cm,
            r.wf(),
            *final(self) == *final(r),
    {
        self.notes.push(note);
        self
    }

    /// A diagnostic with no labels and no notes.
    pub fn new(level: Level, msg: String, primary_span: Span, error_code: Option<String>, cm: Rc<CodeMap>) -> (r: CompilerMessage)
        requires
            cm.wf(),
            cm.num_files() > 0,
            level != Level::Cancelled,
            span_in(*cm, primary_span),
            msg@.len() <= LIMIT,
            small_text(error_code),
        ensures
            r.level == level,
            r.primary_msg == msg,
            r.primary_span == primary_span,
            r.error_code == error_code,
            r.cm == cm,
            r.span_labels@.len() == 0,
            r.notes@.len() == 0,
            r.wf(),
    {
        CompilerMessage {
            level: level,
            primary_span: primary_span,
            primary_msg: msg,
            error_code: error_code,
            span_labels: Vec::new(),
            notes: Vec::new(),
            cm: cm,
        }
    }
}

} // verus!
