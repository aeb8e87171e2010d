use vstd::prelude::*;
use vstd::string::StringSliceAdditionalSpecFns;

use crate::lexer::Span;
use crate::source::{last_at_most, line_starts_of, trim_newlines, Source};
use crate::text::{
    decimal_chars, decode_utf8_lossy, push_char, push_repeat, push_str, push_usize, utf8_lossy,
};

verus! {

#[derive(Clone, Copy, Debug, PartialEq, Eq, Structural)]
pub enum Severity {
    Error,
    Warning,
}

/// A span of the source, with an optional message, that a diagnostic points at.
#[derive(Debug)]
pub struct Label {
    pub span: Span,
    pub message: Option<String>,
}

/// An error or warning about the source text.
#[derive(Debug)]
pub struct Diagnostic {
    pub severity: Severity,
    pub message: String,
    pub labels: Vec<Label>,
    pub notes: Vec<String>,
}

impl Diagnostic {
    /// A diagnostic of the given severity whose only label is `span`.
    pub open spec fn spec_new(&self, severity: Severity, message: Seq<char>, span: Span) -> bool {
        &&& self.severity == severity
        &&& self.message@ == message
        &&& self.labels@.len() == 1
        &&& self.labels@[0].span == span
        &&& self.labels@[0].message is None
        &&& self.notes@.len() == 0
    }

    pub fn error(message: &str, span: Span) -> (res: Diagnostic)
        ensures
            res.spec_new(Severity::Error, message@, span),
    {
        let mut labels: Vec<Label> = Vec::new();
        labels.push(Label { span, message: None });
        Diagnostic { severity: Severity::Error, message: message.to_owned(), labels, notes: Vec::new() }
    }

    pub fn warning(message: &str, span: Span) -> (res: Diagnostic)
        ensures
            res.spec_new(Severity::Warning, message@, span),
    {
        let mut labels: Vec<Label> = Vec::new();
        labels.push(Label { span, message: None });
        Diagnostic {
            severity: Severity::Warning,
            message: message.to_owned(),
            labels,
            notes: Vec::new(),
        }
    }

    /// Adds a secondary label.
    pub fn with_label(self, message: &str, span: Span) -> (res: Diagnostic)
        ensures
            res.severity == self.severity,
            res.message@ == self.message@,
            res.notes@ == self.notes@,
            res.labels@.len() == self.labels@.len() + 1,
            forall|i: int| 0 <= i < self.labels@.len() ==> res.labels@[i] == self.labels@[i],
            res.labels@.last().span == span,
            res.labels@.last().message matches Some(m) && m@ == message@,
    {
        let mut d = self;
        d.labels.push(Label { span, message: Some(message.to_owned()) });
        d
    }

    /// Adds a note.
    pub fn with_note(self, note: &str) -> (res: Diagnostic)
        ensures
            res.severity == self.severity,
            res.message@ == self.message@,
            res.labels@ == self.labels@,
            res.notes@.len() == self.notes@.len() + 1,
            forall|i: int| 0 <= i < self.notes@.len() ==> res.notes@[i] == self.notes@[i],
            res.notes@.last()@ == note@,
    {
        let mut d = self;
        d.notes.push(note.to_owned());
        d
    }
}

impl Severity {
    pub fn as_str(&self) -> (res: &'static str)
        ensures
            *self == Severity::Error ==> res@ == "error"@,
            *self == Severity::Warning ==> res@ == "warning"@,
    {
        match self {
            Severity::Error => "error",
            Severity::Warning => "warning",
        }
    }
}

pub open spec fn severity_str(s: Severity) -> Seq<char> {
    match s {
        Severity::Error => "error"@,
        Severity::Warning => "warning"@,
    }
}

/// The index of the line of `b` that holds byte `offset`.
pub open spec fn line_index(b: Seq<u8>, offset: int) -> int {
    last_at_most(line_starts_of(b), offset)
}

/// Where that line starts.
pub open spec fn line_start(b: Seq<u8>, offset: int) -> int {
    line_starts_of(b)[line_index(b, offset)] as int
}

/// The text of that line, without its newline.
pub open spec fn line_text_of(b: Seq<u8>, offset: int) -> Seq<char> {
    let s = line_starts_of(b);
    let i = line_index(b, offset);
    let end = if i + 1 < s.len() {
        s[i + 1] as int
    } else {
        b.len() as int
    };
    utf8_lossy(trim_newlines(b.subrange(s[i] as int, end)))
}

/// `line:column` of byte `offset`, both counted from 1.
#[verifier::opaque]
pub open spec fn position_str(b: Seq<u8>, offset: int) -> Seq<char> {
    decimal_chars((line_index(b, offset) + 1) as nat) + ":"@ + decimal_chars(
        (offset - line_start(b, offset) + 1) as nat,
    )
}

pub open spec fn spaces(n: int) -> Seq<char> {
    Seq::new(n as nat, |i: int| ' ')
}

/// The lines for the labels after the first, up to label `k`.
pub open spec fn labels_str(b: Seq<u8>, labels: Seq<Label>, k: int) -> Seq<char>
    decreases k,
{
    if k <= 1 {
        Seq::empty()
    } else {
        labels_str(b, labels, k - 1) + " = label at "@ + position_str(b, labels[k - 1].span.start as int)
            + "\n"@ + match labels[k - 1].message {
            Some(m) => "   "@ + m@ + "\n"@,
            None => Seq::empty(),
        }
    }
}

/// The lines for the first `k` notes.
pub open spec fn notes_str(notes: Seq<String>, k: int) -> Seq<char>
    decreases k,
{
    if k <= 0 {
        Seq::empty()
    } else {
        notes_str(notes, k - 1) + " = note: "@ + notes[k - 1]@ + "\n"@
    }
}

/// The line ` --> line:column` for byte `offset`.
pub open spec fn position_line(b: Seq<u8>, offset: int) -> Seq<char> {
    " --> "@ + position_str(b, offset) + "\n"@
}

/// Where the primary label `p` starts and ends on its line, measured from the
/// line's start.
pub open spec fn columns(b: Seq<u8>, p: Label) -> (int, int) {
    let ls = line_start(b, p.span.start as int);
    (
        if p.span.start >= ls {
            p.span.start - ls
        } else {
            0
        },
        if p.span.end >= ls {
            p.span.end - ls
        } else {
            0
        },
    )
}

/// The gutter, then carets under what `p` covers, at least one.
pub open spec fn underline_str(b: Seq<u8>, p: Label) -> Seq<char> {
    let gw = decimal_chars((line_index(b, p.span.start as int) + 1) as nat).len() as int;
    let (start_col, end_col) = columns(b, p);
    let width = if end_col > start_col && end_col - start_col > 1 {
        end_col - start_col
    } else {
        1
    };
    spaces(gw) + " | "@ + spaces(start_col) + Seq::new(width as nat, |i: int| '^')
}

/// The message of a label after a space, if it has one, and a newline.
pub open spec fn message_line(m: Option<String>) -> Seq<char> {
    match m {
        Some(m) => " "@ + m@ + "\n"@,
        None => "\n"@,
    }
}

/// The lines that show where the primary label `p` points.
pub open spec fn primary_str(b: Seq<u8>, p: Label) -> Seq<char> {
    position_line(b, p.span.start as int) + source_line_str(b, p.span.start as int) + underline_str(b, p)
        + message_line(p.message)
}

/// How a diagnostic about source bytes `b` is shown.
pub open spec fn render_str(b: Seq<u8>, d: Diagnostic) -> Seq<char> {
    let head = severity_str(d.severity) + ": "@ + d.message@ + "\n"@;
    if d.labels@.len() == 0 {
        head
    } else {
        head + primary_str(b, d.labels@[0]) + labels_str(b, d.labels@, d.labels@.len() as int) + notes_str(
            d.notes@,
            d.notes@.len() as int,
        )
    }
}

/// Every label of `d` starts before the last position a `usize` can count.
pub open spec fn renderable(d: Diagnostic) -> bool {
    forall|i: int| 0 <= i < d.labels@.len() ==> (#[trigger] d.labels@[i]).span.start < usize::MAX
}

/// The diagnostics shown one after another, a blank line between two.
pub open spec fn render_all_str(b: Seq<u8>, ds: Seq<Diagnostic>) -> Seq<char>
    decreases ds.len(),
{
    if ds.len() == 0 {
        Seq::empty()
    } else if ds.len() == 1 {
        render_str(b, ds[0])
    } else {
        render_all_str(b, ds.drop_last()) + "\n"@ + render_str(b, ds.last())
    }
}

/// Shows every diagnostic about `source_text`, a blank line between two.
pub fn render_all(source_text: &str, diagnostics: &[Diagnostic]) -> (res: String)
    requires
        forall|i: int| 0 <= i < diagnostics@.len() ==> renderable(#[trigger] diagnostics@[i]),
    ensures
        res@ == render_all_str(source_text.spec_bytes(), diagnostics@),
{
    let source = Source::new(source_text);
    let mut out = String::new();
    let mut i: usize = 0;
    while i < diagnostics.len()
        invariant
            source.wf(),
            source.bytes() == source_text.spec_bytes(),
            i <= diagnostics@.len(),
            forall|k: int| 0 <= k < diagnostics@.len() ==> renderable(#[trigger] diagnostics@[k]),
            out@ == render_all_str(source_text.spec_bytes(), diagnostics@.take(i as int)),
        decreases diagnostics@.len() - i,
    {
        proof {
            assert(diagnostics@.take(i + 1).drop_last() =~= diagnostics@.take(i as int));
            assert(diagnostics@.take(i + 1).last() == diagnostics@[i as int]);
        }
        if i > 0 {
            push_char(&mut out, '\n');
        }
        render_into(&mut out, &source, &diagnostics[i]);
        proof {
            if i == 0 {
                assert(out@ =~= render_all_str(source_text.spec_bytes(), diagnostics@.take(1)));
            } else {
                reveal_strlit("\n");
                assert(out@ =~= render_all_str(source_text.spec_bytes(), diagnostics@.take(i + 1)));
            }
        }
        i = i + 1;
    }
    proof {
        assert(diagnostics@.take(diagnostics@.len() as int) =~= diagnostics@);
    }
    out
}

/// Appends how `diagnostic` is shown.
pub fn render_into(out: &mut String, source: &Source, diagnostic: &Diagnostic)
    requires
        source.wf(),
        renderable(*diagnostic),
    ensures
        final(out)@ == old(out)@ + render_str(source.bytes(), *diagnostic),
{
    let ghost b = source.bytes();
    push_str(out, diagnostic.severity.as_str());
    push_str(out, ": ");
    push_str(out, diagnostic.message.as_str());
    push_str(out, "\n");
    proof {
        reveal_strlit("\n");
        reveal_strlit(": ");
    }
    if diagnostic.labels.len() == 0 {
        proof {
            assert(out@ =~= old(out)@ + render_str(b, *diagnostic));
        }
        return;
    }
    let ghost head = out@;
    assert(renderable(*diagnostic) ==> diagnostic.labels@[0].span.start < usize::MAX);
    push_primary(out, source, &diagnostic.labels[0]);
    let ghost after_primary = out@;
    push_labels(out, source, &diagnostic.labels);
    let ghost after_labels = out@;
    push_notes(out, &diagnostic.notes);
    proof {
        assert(out@ =~= old(out)@ + render_str(b, *diagnostic));
    }
}

/// Appends ` --> line:column` and a newline for byte `offset`.
fn push_position(out: &mut String, source: &Source, offset: usize)
    requires
        source.wf(),
        offset < usize::MAX,
    ensures
        final(out)@ == old(out)@ + position_line(source.bytes(), offset as int),
{
    let (line, col) = source.line_col(offset..offset);
    push_str(out, " --> ");
    push_usize(out, line);
    push_str(out, ":");
    push_usize(out, col);
    push_str(out, "\n");
    proof {
        reveal(position_str);
        assert(out@ =~= old(out)@ + position_line(source.bytes(), offset as int));
    }
}

/// The gutter and the text of the line that holds byte `offset`.
#[verifier::opaque]
pub open spec fn source_line_str(b: Seq<u8>, offset: int) -> Seq<char> {
    let line_no = decimal_chars((line_index(b, offset) + 1) as nat);
    spaces(line_no.len() as int) + " |\n"@ + line_no + " | "@ + line_text_of(b, offset) + "\n"@
}

/// Appends the gutter and the text of the line that holds byte `offset`;
/// returns the width of the gutter.
fn push_source_line(out: &mut String, source: &Source, offset: usize) -> (res: usize)
    requires
        source.wf(),
        offset < usize::MAX,
    ensures
        final(out)@ == old(out)@ + source_line_str(source.bytes(), offset as int),
        res == decimal_chars((line_index(source.bytes(), offset as int) + 1) as nat).len(),
{
    let ghost b = source.bytes();
    let (line, _) = source.line_col(offset..offset);
    let index = source.line_of(offset);
    let text = decode_utf8_lossy(source.line_text(index));
    let mut line_no = String::new();
    push_usize(&mut line_no, line);
    let gutter_width = line_no.as_str().unicode_len();
    push_repeat(out, ' ', gutter_width);
    push_str(out, " |\n");
    push_str(out, line_no.as_str());
    push_str(out, " | ");
    push_str(out, text.as_str());
    push_str(out, "\n");
    proof {
        reveal(source_line_str);
        assert(line_no@ =~= decimal_chars((line_index(b, offset as int) + 1) as nat));
        assert(out@ =~= old(out)@ + source_line_str(b, offset as int));
    }
    gutter_width
}

/// Appends the lines that show where the primary label points.
fn push_primary(out: &mut String, source: &Source, primary: &Label)
    requires
        source.wf(),
        primary.span.start < usize::MAX,
    ensures
        final(out)@ == old(out)@ + primary_str(source.bytes(), *primary),
{
    let ghost b = source.bytes();
    let start = primary.span.start;
    push_position(out, source, start);
    let gutter_width = push_source_line(out, source, start);
    let index = source.line_of(start);
    let line_start = source.line_range(index).start;
    let start_col = if start >= line_start { start - line_start } else { 0 };
    let end_col = if primary.span.end >= line_start { primary.span.end - line_start } else { 0 };
    let underline_width = if end_col > start_col && end_col - start_col > 1 { end_col - start_col } else { 1 };
    let ghost s2 = out@;
    push_repeat(out, ' ', gutter_width);
    push_str(out, " | ");
    push_repeat(out, ' ', start_col);
    push_repeat(out, '^', underline_width);
    proof {
        assert(out@ =~= s2 + underline_str(b, *primary));
    }
    let ghost s3 = out@;
    match &primary.message {
        Some(message) => {
            push_str(out, " ");
            push_str(out, message.as_str());
            push_str(out, "\n");
        },
        None => {
            push_str(out, "\n");
        },
    }
    proof {
        assert(out@ =~= s3 + message_line(primary.message));
        assert(out@ =~= old(out)@ + primary_str(b, *primary));
    }
}

/// Appends a line for each label after the first.
fn push_labels(out: &mut String, source: &Source, labels: &Vec<Label>)
    requires
        source.wf(),
        forall|i: int| 0 <= i < labels@.len() ==> (#[trigger] labels@[i]).span.start < usize::MAX,
    ensures
        final(out)@ == old(out)@ + labels_str(source.bytes(), labels@, labels@.len() as int),
{
    let ghost b = source.bytes();
    let mut k: usize = 1;
    if labels.len() == 0 {
        return;
    }
    while k < labels.len()
        invariant
            source.wf(),
            b == source.bytes(),
            forall|i: int| 0 <= i < labels@.len() ==> (#[trigger] labels@[i]).span.start < usize::MAX,
            1 <= k <= labels@.len(),
            out@ == old(out)@ + labels_str(b, labels@, k as int),
        decreases labels@.len() - k,
    {
        let label = &labels[k];
        let (line, col) = source.line_col(label.span.range());
        push_str(out, " = label at ");
        push_usize(out, line);
        push_str(out, ":");
        push_usize(out, col);
        push_str(out, "\n");
        match &label.message {
            Some(message) => {
                push_str(out, "   ");
                push_str(out, message.as_str());
                push_str(out, "\n");
            },
            None => {},
        }
        proof {
            reveal(position_str);
            assert(out@ =~= old(out)@ + labels_str(b, labels@, k + 1));
        }
        k = k + 1;
    }
}

/// Appends a line for each note.
fn push_notes(out: &mut String, notes: &Vec<String>)
    ensures
        final(out)@ == old(out)@ + notes_str(notes@, notes@.len() as int),
{
    let mut n: usize = 0;
    while n < notes.len()
        invariant
            n <= notes@.len(),
            out@ == old(out)@ + notes_str(notes@, n as int),
        decreases notes@.len() - n,
    {
        push_str(out, " = note: ");
        push_str(out, notes[n].as_str());
        push_str(out, "\n");
        proof {
            reveal_strlit(" = note: ");
            reveal_strlit("\n");
            assert(out@ =~= old(out)@ + notes_str(notes@, n + 1));
        }
        n = n + 1;
    }
}

} // verus!
