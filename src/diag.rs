//! Diagnostics and the session that collects them.

use vstd::prelude::*;
use vstd::string::*;
use crate::syntax::Span;

verus! {

#[derive(Clone, Copy, PartialEq, Eq, Structural, Hash, Debug)]
pub enum Severity {
    Error,
    Warning,
}

/// A secondary message attached to a diagnostic, pointing at a place.
#[derive(Clone, Debug)]
pub struct Note {
    pub message: String,
    pub span: Span,
}

/// A diagnostic: a severity, a primary message with its spans, and any
/// number of notes.
#[derive(Clone, Debug)]
pub struct Diag {
    pub severity: Severity,
    pub message: String,
    pub spans: Vec<Span>,
    pub notes: Vec<Note>,
}

/// The text of `name` between backticks, followed by `rest`.
pub open spec fn quoted(name: Seq<char>, rest: Seq<char>) -> Seq<char> {
    seq!['`'] + name + seq!['`'] + rest
}

/// Builds `` `name` `` followed by `rest`.
fn quote(name: &str, rest: &str) -> (r: String)
    ensures
        r@ == quoted(name@, rest@),
{
    let mut s = String::from_str("`");
    s.append(name);
    s.append("`");
    s.append(rest);
    proof {
        reveal_strlit("`");
    }
    s
}

fn one_span(span: Span) -> (r: Vec<Span>)
    ensures
        r@ == seq![span],
{
    let mut v = Vec::new();
    v.push(span);
    v
}

fn one_note(note: Note) -> (r: Vec<Note>)
    ensures
        r@ == seq![note],
{
    let mut v = Vec::new();
    v.push(note);
    v
}

pub open spec fn duplicate_def_message(name: Seq<char>) -> Seq<char> {
    quoted(name, " declared multiple times"@)
}

pub open spec fn invalid_entity_name_message(text: Seq<char>) -> Seq<char> {
    quoted(text, " is not a valid entity name"@)
}

pub open spec fn unknown_entity_message(name: Seq<char>) -> Seq<char> {
    "Unknown entity "@ + quoted(name, Seq::empty())
}

pub open spec fn not_an_entity_message(name: Seq<char>) -> Seq<char> {
    quoted(name, " is not an entity"@)
}

pub open spec fn defined_here_message(name: Seq<char>) -> Seq<char> {
    quoted(name, " defined here:"@)
}

impl Diag {
    /// An error with one primary message and no spans or notes yet.
    pub open spec fn is_bare_error(self, message: Seq<char>) -> bool {
        &&& self.severity == Severity::Error
        &&& self.message@ == message
        &&& self.spans@.len() == 0
        &&& self.notes@.len() == 0
    }

    /// An error reporting that `name` was declared at every one of `spans`.
    pub open spec fn is_duplicate_def(self, name: Seq<char>, spans: Seq<Span>) -> bool {
        &&& self.severity == Severity::Error
        &&& self.message@ == duplicate_def_message(name)
        &&& self.spans@ == spans
        &&& self.notes@.len() == 0
    }

    /// An error with one message at one span, and no notes.
    pub open spec fn is_error_at(self, message: Seq<char>, span: Span) -> bool {
        &&& self.severity == Severity::Error
        &&& self.message@ == message
        &&& self.spans@ == seq![span]
        &&& self.notes@.len() == 0
    }

    pub fn error(message: String) -> (r: Diag)
        ensures
            r.is_bare_error(message@),
    {
        Diag { severity: Severity::Error, message, spans: Vec::new(), notes: Vec::new() }
    }

    pub fn duplicate_def(name: &String, spans: Vec<Span>) -> (r: Diag)
        ensures
            r.is_duplicate_def(name@, spans@),
    {
        Diag {
            severity: Severity::Error,
            message: quote(name.as_str(), " declared multiple times"),
            spans,
            notes: Vec::new(),
        }
    }

    pub fn invalid_entity_name(text: &String, span: Span) -> (r: Diag)
        ensures
            r.is_error_at(invalid_entity_name_message(text@), span),
    {
        Diag {
            severity: Severity::Error,
            message: quote(text.as_str(), " is not a valid entity name"),
            spans: one_span(span),
            notes: Vec::new(),
        }
    }

    pub fn unknown_entity(name: &String, span: Span) -> (r: Diag)
        ensures
            r.is_error_at(unknown_entity_message(name@), span),
    {
        let mut message = String::from_str("Unknown entity ");
        let q = quote(name.as_str(), "");
        message.append(q.as_str());
        proof {
            reveal_strlit("");
        }
        Diag { severity: Severity::Error, message, spans: one_span(span), notes: Vec::new() }
    }

    /// An error that `name`, used at `span`, is not an entity, with a note
    /// pointing at `def_span`, where the name was defined.
    pub fn not_an_entity(name: &String, span: Span, def_span: Span) -> (r: Diag)
        ensures
            r.severity == Severity::Error,
            r.message@ == not_an_entity_message(name@),
            r.spans@ == seq![span],
            r.notes@.len() == 1,
            r.notes@[0].message@ == defined_here_message(name@),
            r.notes@[0].span == def_span,
    {
        let note = Note { message: quote(name.as_str(), " defined here:"), span: def_span };
        Diag {
            severity: Severity::Error,
            message: quote(name.as_str(), " is not an entity"),
            spans: one_span(span),
            notes: one_note(note),
        }
    }
}

/// The switches of a compilation session that the scoreboard reads.
#[derive(Clone, Copy, PartialEq, Eq, Structural, Debug)]
pub struct SessionOptions {
    /// Keep the last of several top-level definitions of one name, silently,
    /// instead of reporting them.
    pub ignore_duplicate_defs: bool,
    /// Whether the driver traces the computations of the scoreboard.
    pub trace_scoreboard: bool,
}

/// A compilation session: its options and the diagnostics emitted so far.
#[derive(Debug)]
pub struct Session {
    pub opts: SessionOptions,
    pub diags: Vec<Diag>,
}

impl Session {
    /// The diagnostics emitted so far, in order.
    pub open spec fn emitted(self) -> Seq<Diag> {
        self.diags@
    }

    pub fn new(opts: SessionOptions) -> (r: Session)
        ensures
            r.opts == opts,
            r.emitted().len() == 0,
    {
        Session { opts, diags: Vec::new() }
    }

    /// Appends a diagnostic.
    pub fn emit(&mut self, d: Diag)
        ensures
            final(self).opts == old(self).opts,
            final(self).emitted() == old(self).emitted().push(d),
    {
        self.diags.push(d);
    }

    /// Appends every diagnostic of `ds`, in order.
    pub fn emit_all(&mut self, ds: Vec<Diag>)
        ensures
            final(self).opts == old(self).opts,
            final(self).emitted() == old(self).emitted() + ds@,
    {
        let mut ds = ds;
        self.diags.append(&mut ds);
    }

    pub fn diagnostics(&self) -> (r: &Vec<Diag>)
        ensures
            r@ == self.emitted(),
    {
        &self.diags
    }
}

} // verus!
