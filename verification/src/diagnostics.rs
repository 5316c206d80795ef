//! Error types and diagnostic helpers.
//!
//! Unsupported syntax is bucketed into three behaviors — error,
//! warn and degrade, ignore — selected by [`CompatMode`]. Strict bubbles
//! up as [`Error::Unsupported`]; Warn and Loose fall through with a
//! [`Diagnostic`].

use vstd::prelude::*;
use crate::text::{decimal, push_decimal};

verus! {

/// User-controllable strictness for unsupported syntax and behaviors.
#[derive(Copy, Clone, Debug, PartialEq, Eq, Structural)]
pub enum CompatMode {
    /// Fail on any unsupported construct.
    Strict,
    /// Warn on stderr and degrade gracefully.
    Warn,
    /// Silently ignore unsupported constructs.
    Loose,
}

impl Default for CompatMode {
    fn default() -> (r: Self)
        ensures
            r == CompatMode::Warn,
    {
        CompatMode::Warn
    }
}

/// Severity of a [`Diagnostic`].
#[derive(Copy, Clone, Debug, PartialEq, Eq, Structural)]
pub enum Level {
    Warning,
    Error,
}

/// Diagnostic message attached to a source location.
#[derive(Clone, Debug, PartialEq, Eq)]
pub struct Diagnostic {
    pub level: Level,
    /// Virtual or real source path, when one is available.
    pub path: Option<String>,
    pub line: Option<usize>,
    pub column: Option<usize>,
    pub message: String,
    pub hints: Vec<String>,
}

/// Everything went wrong that the tool reports. The I/O variant keeps the
/// path and the text of the operating system's error.
#[derive(Debug)]
pub enum Error {
    Io { path: String, source: String },
    Parse { line: usize, message: String },
    Unsupported { kind: &'static str, detail: String },
    TypstCompile { message: String, diagnostics: Vec<Diagnostic> },
    Cli(String),
    /// Internal protocol violation in the measure double-pass: a probe ID
    /// was emitted by codegen but not echoed back by Typst, or the metadata
    /// shape didn't match. Indicates a bug, not a user error.
    MeasureProtocol(String),
}

/// `d` has the given level, line and message, and no path, column or hint.
pub open spec fn is_plain(d: Diagnostic, level: Level, line: Option<usize>, message: Seq<char>) -> bool {
    &&& d.level == level
    &&& d.path is None
    &&& d.line == line
    &&& d.column is None
    &&& d.message@ == message
    &&& d.hints@.len() == 0
}

/// `a` carries the same level, location, message and hints as `b`.
pub open spec fn same_diagnostic(a: Diagnostic, b: Diagnostic) -> bool {
    &&& a.level == b.level
    &&& a.path == b.path
    &&& a.line == b.line
    &&& a.column == b.column
    &&& a.message == b.message
    &&& a.hints@ == b.hints@
}

/// The word a diagnostic of level `l` starts with.
pub open spec fn level_tag(l: Level) -> Seq<char> {
    match l {
        Level::Warning => "warning"@,
        Level::Error => "error"@,
    }
}

/// One-line rendering of a diagnostic: its tag, then the most precise
/// location it has, then the message.
pub open spec fn diagnostic_text(d: Diagnostic) -> Seq<char> {
    let tag = level_tag(d.level);
    match (d.path, d.line, d.column) {
        (Some(p), Some(l), Some(c)) => tag + " ("@ + p@ + ":"@ + decimal(l as nat) + ":"@ + decimal(
            c as nat,
        ) + "): "@ + d.message@,
        (Some(p), Some(l), None) => tag + " ("@ + p@ + ":"@ + decimal(l as nat) + "): "@ + d.message@,
        (_, Some(l), _) => tag + " (line "@ + decimal(l as nat) + "): "@ + d.message@,
        _ => tag + ": "@ + d.message@,
    }
}

/// The message of an error, as the command line prints it.
pub open spec fn error_text(e: &Error) -> Seq<char> {
    match e {
        Error::Io { path, source } => "I/O error on "@ + path@ + ": "@ + source@,
        Error::Parse { line, message } => "parse error at line "@ + decimal(*line as nat) + ": "@
            + message@,
        Error::Unsupported { kind, detail } => "unsupported "@ + kind@ + ": "@ + detail@,
        Error::TypstCompile { message, .. } => "Typst compilation failed:\n"@ + message@,
        Error::Cli(m) => "invalid CLI usage: "@ + m@,
        Error::MeasureProtocol(m) => "measure protocol violation: "@ + m@,
    }
}

fn copy_strings(v: &Vec<String>) -> (r: Vec<String>)
    ensures
        r@ == v@,
{
    let mut r: Vec<String> = Vec::new();
    let mut i: usize = 0;
    while i < v.len()
        invariant
            i <= v.len(),
            r@ == v@.subrange(0, i as int),
        decreases v.len() - i,
    {
        r.push(v[i].clone());
        i += 1;
        proof {
            assert(r@ =~= v@.subrange(0, i as int));
        }
    }
    proof {
        assert(v@.subrange(0, v.len() as int) =~= v@);
    }
    r
}

fn copy_diagnostic(d: &Diagnostic) -> (r: Diagnostic)
    ensures
        same_diagnostic(r, *d),
{
    let path = match &d.path {
        Some(p) => Some(p.clone()),
        None => None,
    };
    Diagnostic {
        level: d.level,
        path,
        line: d.line,
        column: d.column,
        message: d.message.clone(),
        hints: copy_strings(&d.hints),
    }
}

impl Error {
    /// The message of this error, as the command line prints it.
    pub fn to_text(&self) -> (r: String)
        ensures
            r@ == error_text(self),
    {
        let mut out = String::new();
        match self {
            Error::Io { path, source } => {
                out.append("I/O error on ");
                out.append(path.as_str());
                out.append(": ");
                out.append(source.as_str());
            },
            Error::Parse { line, message } => {
                out.append("parse error at line ");
                push_decimal(&mut out, *line);
                out.append(": ");
                out.append(message.as_str());
            },
            Error::Unsupported { kind, detail } => {
                out.append("unsupported ");
                out.append(kind);
                out.append(": ");
                out.append(detail.as_str());
            },
            Error::TypstCompile { message, .. } => {
                out.append("Typst compilation failed:\n");
                out.append(message.as_str());
            },
            Error::Cli(m) => {
                out.append("invalid CLI usage: ");
                out.append(m.as_str());
            },
            Error::MeasureProtocol(m) => {
                out.append("measure protocol violation: ");
                out.append(m.as_str());
            },
        }
        proof {
            let e: Seq<char> = Seq::empty();
            match self {
                Error::Io { path, source } => {
                    assert(e + "I/O error on "@ =~= "I/O error on "@);
                },
                Error::Parse { line, message } => {
                    assert(e + "parse error at line "@ =~= "parse error at line "@);
                },
                Error::Unsupported { kind, detail } => {
                    assert(e + "unsupported "@ =~= "unsupported "@);
                },
                Error::TypstCompile { message, .. } => {
                    assert(e + "Typst compilation failed:\n"@ =~= "Typst compilation failed:\n"@);
                },
                Error::Cli(m) => {
                    assert(e + "invalid CLI usage: "@ =~= "invalid CLI usage: "@);
                },
                Error::MeasureProtocol(m) => {
                    assert(e + "measure protocol violation: "@ =~= "measure protocol violation: "@);
                },
            }
        }
        out
    }

    /// Diagnostics for an editor's inline error UI. Typst compilation
    /// errors keep each original diagnostic; a parse error becomes one
    /// error at its line; any other error becomes one error carrying its
    /// message.
    pub fn to_diagnostics(&self) -> (r: Vec<Diagnostic>)
        ensures
            self matches Error::TypstCompile { diagnostics, .. } ==> {
                &&& r@.len() == diagnostics@.len()
                &&& forall|i: int| 0 <= i < r@.len() ==> #[trigger] same_diagnostic(r@[i], diagnostics@[i])
            },
            self matches Error::Parse { line, message } ==> {
                &&& r@.len() == 1
                &&& is_plain(r@[0], Level::Error, Some(*line), message@)
            },
            !(self is TypstCompile) && !(self is Parse) ==> {
                &&& r@.len() == 1
                &&& is_plain(r@[0], Level::Error, None, error_text(self))
            },
    {
        match self {
            Error::TypstCompile { diagnostics, .. } => {
                let mut r: Vec<Diagnostic> = Vec::new();
                let mut i: usize = 0;
                while i < diagnostics.len()
                    invariant
                        i <= diagnostics.len(),
                        r@.len() == i,
                        forall|k: int| 0 <= k < i ==> #[trigger] same_diagnostic(r@[k], diagnostics@[k]),
                    decreases diagnostics.len() - i,
                {
                    r.push(copy_diagnostic(&diagnostics[i]));
                    i += 1;
                }
                r
            },
            Error::Parse { line, message } => {
                let d = Diagnostic::error_at(*line, message.clone());
                vec![d]
            },
            _ => {
                let d = Diagnostic::error(self.to_text());
                vec![d]
            },
        }
    }
}

impl Diagnostic {
    /// A diagnostic with no path, column or hint.
    pub fn new(level: Level, line: Option<usize>, message: String) -> (r: Self)
        ensures
            is_plain(r, level, line, message@),
            r.message == message,
    {
        Diagnostic { level, path: None, line, column: None, message, hints: Vec::new() }
    }

    /// A warning with no location.
    pub fn warning(message: String) -> (r: Self)
        ensures
            is_plain(r, Level::Warning, None, message@),
    {
        Self::new(Level::Warning, None, message)
    }

    /// A warning at a source line.
    pub fn warning_at(line: usize, message: String) -> (r: Self)
        ensures
            is_plain(r, Level::Warning, Some(line), message@),
    {
        Self::new(Level::Warning, Some(line), message)
    }

    /// An error with no location.
    pub fn error(message: String) -> (r: Self)
        ensures
            is_plain(r, Level::Error, None, message@),
    {
        Self::new(Level::Error, None, message)
    }

    /// An error at a source line.
    pub fn error_at(line: usize, message: String) -> (r: Self)
        ensures
            is_plain(r, Level::Error, Some(line), message@),
    {
        let d = Self::error(message);
        Diagnostic { line: Some(line), ..d }
    }

    /// One-line rendering: `tag (path:line:column): message`, with the
    /// location cut down to what is known.
    pub fn to_text(&self) -> (r: String)
        ensures
            r@ == diagnostic_text(*self),
    {
        let mut out = String::new();
        match self.level {
            Level::Warning => out.append("warning"),
            Level::Error => out.append("error"),
        }
        proof {
            assert(Seq::<char>::empty() + level_tag(self.level) =~= level_tag(self.level));
        }
        match (&self.path, self.line, self.column) {
            (Some(path), Some(line), Some(column)) => {
                out.append(" (");
                out.append(path.as_str());
                out.append(":");
                push_decimal(&mut out, line);
                out.append(":");
                push_decimal(&mut out, column);
                out.append("): ");
            },
            (Some(path), Some(line), None) => {
                out.append(" (");
                out.append(path.as_str());
                out.append(":");
                push_decimal(&mut out, line);
                out.append("): ");
            },
            (_, Some(line), _) => {
                out.append(" (line ");
                push_decimal(&mut out, line);
                out.append("): ");
            },
            _ => {
                out.append(": ");
            },
        }
        out.append(self.message.as_str());
        out
    }
}

} // verus!
