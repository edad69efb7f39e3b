//! Diagnostics and the error-reporting collaborator.
//!
//! The scanner never aborts on malformed input: it hands each problem to an
//! `ErrorReporter` as a (line, message) pair and resumes scanning. The
//! reporter accumulates the diagnostics in order and keeps a had-error flag
//! for the driver to read after a full scan.

use vstd::prelude::*;

verus! {

/// One recorded diagnostic: a 1-based source line and a message.
#[derive(Debug, Clone, PartialEq)]
pub struct Diagnostic {
    pub line: usize,
    pub message: String,
}

/// The mathematical value of a `Diagnostic`.
pub ghost struct DiagModel {
    pub line: nat,
    pub message: Seq<char>,
}

impl View for Diagnostic {
    type V = DiagModel;

    open spec fn view(&self) -> DiagModel {
        DiagModel { line: self.line as nat, message: self.message@ }
    }
}

/// The models of a sequence of diagnostics.
pub open spec fn dgs(ds: Seq<Diagnostic>) -> Seq<DiagModel> {
    ds.map_values(|d: Diagnostic| d@)
}

pub proof fn lemma_dgs_push(ds: Seq<Diagnostic>, d: Diagnostic)
    ensures
        dgs(ds.push(d)) == dgs(ds).push(d@),
{
    assert(dgs(ds.push(d)) =~= dgs(ds).push(d@));
}

/// The mathematical value of an `ErrorReporter`.
pub ghost struct ReporterModel {
    pub had_error: bool,
    pub diags: Seq<DiagModel>,
}

/// The error-reporting collaborator: accumulates (line, message)
/// diagnostics and exposes a had-error flag; it never halts its caller.
pub struct ErrorReporter {
    had_error: bool,
    diagnostics: Vec<Diagnostic>,
}

impl View for ErrorReporter {
    type V = ReporterModel;

    closed spec fn view(&self) -> ReporterModel {
        ReporterModel { had_error: self.had_error, diags: dgs(self.diagnostics@) }
    }
}

impl ErrorReporter {
    /// A fresh reporter: no diagnostics, flag down.
    pub fn new() -> (r: ErrorReporter)
        ensures
            r@.had_error == false,
            r@.diags == Seq::<DiagModel>::empty(),
    {
        let r = ErrorReporter { had_error: false, diagnostics: Vec::new() };
        proof {
            assert(dgs(r.diagnostics@) =~= Seq::<DiagModel>::empty());
        }
        r
    }

    /// Whether any diagnostic has been recorded.
    pub fn had_error(&self) -> (r: bool)
        ensures
            r == self@.had_error,
    {
        self.had_error
    }

    /// Records one diagnostic and raises the had-error flag.
    pub fn error(&mut self, line: usize, message: &str)
        ensures
            final(self)@.had_error == true,
            final(self)@.diags == old(self)@.diags.push(
                (DiagModel { line: line as nat, message: message@ }),
            ),
    {
        let d = Diagnostic { line: line, message: message.to_owned() };
        proof {
            lemma_dgs_push(self.diagnostics@, d);
        }
        self.had_error = true;
        self.diagnostics.push(d);
    }

    /// The diagnostics recorded so far, in order.
    pub fn diagnostics(&self) -> (r: &Vec<Diagnostic>)
        ensures
            dgs(r@) == self@.diags,
    {
        &self.diagnostics
    }
}

} // verus!
