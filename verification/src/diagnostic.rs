use crate::span::Span;
use std::cmp::Ordering;
use vstd::prelude::*;
use vstd::std_specs::cmp::PartialOrdSpecImpl;

verus! {

/// How grave a diagnostic is. `Error` is the gravest, then `Warning`, `Note`
/// and `Help`, and the order of the type says so: `Error > Warning`.
#[derive(Debug, PartialEq, Eq, Clone, Copy, Structural)]
pub enum Severity {
    /// The compiler stops at once.
    Error,
    /// The compiler may stop, depending on its mode and flags.
    Warning,
    Note,
    Help,
}

impl Severity {
    /// The weight of a severity: 3 for `Error` down to 0 for `Help`.
    pub open spec fn spec_rank(self) -> nat {
        match self {
            Severity::Error => 3,
            Severity::Warning => 2,
            Severity::Note => 1,
            Severity::Help => 0,
        }
    }

    pub fn rank(self) -> (r: u8)
        ensures
            r == self.spec_rank(),
    {
        match self {
            Severity::Error => 3,
            Severity::Warning => 2,
            Severity::Note => 1,
            Severity::Help => 0,
        }
    }
}

impl PartialOrd for Severity {
    fn partial_cmp(&self, other: &Self) -> (r: Option<Ordering>) {
        let a = self.rank();
        let b = other.rank();
        if a < b {
            Some(Ordering::Less)
        } else if a > b {
            Some(Ordering::Greater)
        } else {
            Some(Ordering::Equal)
        }
    }
}

impl PartialOrdSpecImpl for Severity {
    open spec fn obeys_partial_cmp_spec() -> bool {
        true
    }

    open spec fn partial_cmp_spec(&self, other: &Self) -> Option<Ordering> {
        if self.spec_rank() < other.spec_rank() {
            Some(Ordering::Less)
        } else if self.spec_rank() > other.spec_rank() {
            Some(Ordering::Greater)
        } else {
            Some(Ordering::Equal)
        }
    }
}

/// A remark on one stretch of a source.
#[derive(Debug, Clone)]
pub struct Label {
    pub span: Span,
    pub message: Option<String>,
    pub is_primary: bool,
}

/// A proposal to replace one stretch of a source.
#[derive(Debug, Clone)]
pub struct Suggestion {
    pub span: Span,
    pub replacement: String,
    pub message: Option<String>,
}

/// A diagnostic with one message at one span, and at most one that follows from it.
#[derive(Debug)]
pub struct SimpleDiagnostic {
    pub severity: Severity,
    pub message: String,
    pub primary_span: Span,
    pub children: Option<Box<SimpleDiagnostic>>,
}

impl SimpleDiagnostic {
    pub fn new(
        level: Severity,
        primary_message: String,
        primary_span: Span,
        children: Option<Box<SimpleDiagnostic>>,
    ) -> (r: Self)
        ensures
            r.severity == level,
            r.message == primary_message,
            r.primary_span == primary_span,
            r.children == children,
    {
        Self { severity: level, message: primary_message, primary_span, children }
    }
}

} // verus!
