//! Structured diagnostic messages with severity levels.

use vstd::prelude::*;
use vstd::string::*;

verus! {

/// The severity of a [`Diagnostic`].
#[derive(Debug, Clone, Copy, PartialEq, Eq, Structural)]
pub enum Severity {
    /// A hard error: the grammar cannot be used as-is.
    Error,
    /// A warning: suspicious, but the grammar can still be converted.
    Warning,
}

/// A structured diagnostic message produced by grammar analysis.
#[derive(Debug, Clone, PartialEq, Eq)]
pub struct Diagnostic {
    /// Whether this is a hard error or an advisory warning.
    pub severity: Severity,
    /// The human-readable message body, without a severity prefix.
    pub message: String,
    /// Source filename this diagnostic points at, if any.
    pub file: Option<String>,
    /// 1-based source line this diagnostic points at, if any.
    pub line: Option<usize>,
    /// 1-based source column this diagnostic points at, if any.
    pub column: Option<usize>,
}

/// A diagnostic of the given severity and message, with no location.
pub open spec fn plain_diag(severity: Severity, message: Seq<char>, d: Diagnostic) -> bool {
    &&& d.severity == severity
    &&& d.message@ == message
    &&& d.file is None
    &&& d.line is None
    &&& d.column is None
}

/// The display form of a diagnostic: `"error: …"` or `"warning: …"`.
pub open spec fn diag_text(d: Diagnostic) -> Seq<char> {
    match d.severity {
        Severity::Error => "error: "@ + d.message@,
        Severity::Warning => "warning: "@ + d.message@,
    }
}

impl Diagnostic {
    /// A warning with the given message and no location.
    pub fn warning(message: &str) -> (d: Self)
        ensures
            plain_diag(Severity::Warning, message@, d),
    {
        Diagnostic {
            severity: Severity::Warning,
            message: String::from_str(message),
            file: None,
            line: None,
            column: None,
        }
    }

    /// An error with the given message and no location.
    pub fn error(message: &str) -> (d: Self)
        ensures
            plain_diag(Severity::Error, message@, d),
    {
        Diagnostic {
            severity: Severity::Error,
            message: String::from_str(message),
            file: None,
            line: None,
            column: None,
        }
    }

    /// Attaches a source file and line; an empty `filename` is recorded as no file.
    pub fn with_location(self, filename: &str, line: usize) -> (d: Self)
        ensures
            d.severity == self.severity,
            d.message == self.message,
            d.column == self.column,
            d.line == Some(line),
            filename@.len() == 0 ==> d.file is None,
            filename@.len() > 0 ==> (d.file matches Some(f) && f@ == filename@),
    {
        let file = if filename.is_empty() { None } else { Some(String::from_str(filename)) };
        Diagnostic { file, line: Some(line), ..self }
    }

    /// Attaches a source column, leaving everything else unchanged.
    pub fn with_column(self, column: usize) -> (d: Self)
        ensures
            d.severity == self.severity,
            d.message == self.message,
            d.file == self.file,
            d.line == self.line,
            d.column == Some(column),
    {
        Diagnostic { column: Some(column), ..self }
    }

    /// The display form: `"error: <message>"` or `"warning: <message>"`.
    pub fn to_text(&self) -> (r: String)
        ensures
            r@ == diag_text(*self),
    {
        let mut out = match self.severity {
            Severity::Error => String::from_str("error: "),
            Severity::Warning => String::from_str("warning: "),
        };
        out.append(self.message.as_str());
        out
    }

    /// An identical copy of this diagnostic.
    pub fn duplicate(&self) -> (d: Self)
        ensures
            d == *self,
    {
        let file = match &self.file {
            Some(f) => Some(f.clone()),
            None => None,
        };
        Diagnostic {
            severity: self.severity,
            message: self.message.clone(),
            file,
            line: self.line,
            column: self.column,
        }
    }
}

} // verus!
